//! Reassembly of fragmented IPv4 datagrams: one buffer per datagram ID,
//! filled as fragments arrive in any order, handed up once complete.

use vstd::prelude::*;
use crate::bytes::{copy_bytes, slice_bytes};
use crate::ip::{be16, IpHeader, FRAGMENT_OFFSET_MASK, IP_HEADER_LEN, MORE_FRAGMENTS, DONT_FRAGMENT};
use crate::queue::{contents, lemma_contents_push, lemma_contents_tail, payload_len_ok, MAX_PAYLOAD_LEN, MIN_PAYLOAD_LEN};
use crate::keyed::{
    keyed_map, keys_unique, lemma_keyed_map_index, lemma_keyed_map_push, lemma_keyed_map_remove,
    lemma_keyed_map_update,
};

verus! {

/// The largest datagram a buffer holds, in bytes.
pub const MAX_DATAGRAM_LEN: u32 = 65536;

/// What a reassembly buffer holds.
pub struct Reassembly {
    /// The bytes written so far; positions that no fragment covered are zero.
    pub bytes: Seq<u8>,
    /// How many bytes from offset 0 on have arrived without a gap.
    pub received: int,
    /// The (byte offset, length) of each distinct fragment received.
    pub fragments: Seq<(u32, u32)>,
    /// The datagram's length, once its last fragment has arrived.
    pub total: Option<u32>,
}

/// The buffer of a datagram of which nothing has arrived.
pub open spec fn empty_reassembly() -> Reassembly {
    Reassembly { bytes: Seq::empty(), received: 0, fragments: Seq::empty(), total: None }
}

/// The length of the first fragment in the list that starts at `c`, if any
/// does.
pub open spec fn first_at(frags: Seq<(u32, u32)>, c: int) -> Option<u32>
    decreases frags.len(),
{
    if frags.len() == 0 {
        None
    } else if frags[0].0 == c {
        Some(frags[0].1)
    } else {
        first_at(frags.drop_first(), c)
    }
}

/// How far the run steps from `c`: the length of the first fragment that
/// starts there, or 0 when none does.
pub open spec fn len_at(frags: Seq<(u32, u32)>, c: int) -> int {
    match first_at(frags, c) {
        Some(l) => l as int,
        None => 0,
    }
}

/// Where the run of fragments that starts at `c` ends: from `c`, step over
/// the first fragment that starts where the run stands, until none does or
/// that fragment is empty.
pub open spec fn contiguous_end(frags: Seq<(u32, u32)>, c: int) -> int
    decreases (MAX_DATAGRAM_LEN - c) as nat,
{
    let l = len_at(frags, c);
    if 0 < l && c + l <= MAX_DATAGRAM_LEN {
        contiguous_end(frags, c + l)
    } else {
        c
    }
}

/// Every fragment ends at or before `bound`.
pub open spec fn fragments_bounded(frags: Seq<(u32, u32)>, bound: int) -> bool {
    forall|i: int| 0 <= i < frags.len() ==> frags[i].0 + frags[i].1 <= bound
}

/// `bytes` with `p` written at `off`, grown with zeros where `p` reaches
/// past its end.
pub open spec fn write_bytes(bytes: Seq<u8>, off: int, p: Seq<u8>) -> Seq<u8> {
    let n = if off + p.len() > bytes.len() {
        off + p.len()
    } else {
        bytes.len() as int
    };
    Seq::new(
        n as nat,
        |k: int|
            if off <= k < off + p.len() {
                p[k - off]
            } else if k < bytes.len() {
                bytes[k]
            } else {
                0u8
            },
    )
}

/// Whether a fragment is the last of its datagram: Don't-Fragment set, or
/// More-Fragments clear.
pub open spec fn is_last_fragment(more: bool, dont: bool) -> bool {
    dont || !more
}

/// The buffer after the fragment `p` at byte offset `off` arrives.
pub open spec fn insert_fragment(s: Reassembly, off: int, p: Seq<u8>, more: bool, dont: bool) -> Reassembly {
    let rec = (off as u32, p.len() as u32);
    let frags = if s.fragments.contains(rec) {
        s.fragments
    } else {
        s.fragments.push(rec)
    };
    Reassembly {
        bytes: write_bytes(s.bytes, off, p),
        received: contiguous_end(frags, 0),
        fragments: frags,
        total: if is_last_fragment(more, dont) {
            Some((off + p.len()) as u32)
        } else {
            s.total
        },
    }
}

/// Whether the whole datagram has arrived.
pub open spec fn is_complete(s: Reassembly) -> bool {
    match s.total {
        Some(t) => t == s.received,
        None => false,
    }
}

/// What every buffer satisfies.
pub open spec fn reassembly_wf(s: Reassembly) -> bool {
    &&& s.bytes.len() <= MAX_DATAGRAM_LEN
    &&& fragments_bounded(s.fragments, s.bytes.len() as int)
    &&& s.received == contiguous_end(s.fragments, 0)
    &&& 0 <= s.received <= s.bytes.len()
}

pub proof fn lemma_len_at_member(frags: Seq<(u32, u32)>, c: int)
    ensures
        len_at(frags, c) >= 0,
        first_at(frags, c) is Some ==> exists|i: int|
            0 <= i < frags.len() && frags[i].0 == c && frags[i].1 == len_at(frags, c),
        first_at(frags, c) is None ==> forall|i: int| 0 <= i < frags.len() ==> frags[i].0 != c,
    decreases frags.len(),
{
    if frags.len() > 0 {
        let rest = frags.drop_first();
        lemma_len_at_member(rest, c);
        if frags[0].0 != c {
            if first_at(frags, c) is Some {
                let i = choose|i: int|
                    0 <= i < rest.len() && rest[i].0 == c && rest[i].1 == len_at(rest, c);
                assert(frags[i + 1] == rest[i]);
            } else {
                assert forall|i: int| 0 <= i < frags.len() implies frags[i].0 != c by {
                    if i > 0 {
                        assert(frags[i] == rest[i - 1]);
                    }
                }
            }
        }
    }
}

proof fn lemma_first_at_push(frags: Seq<(u32, u32)>, x: (u32, u32), c: int)
    ensures
        first_at(frags.push(x), c) == if first_at(frags, c) is Some {
            first_at(frags, c)
        } else if x.0 == c {
            Some(x.1)
        } else {
            None
        },
    decreases frags.len(),
{
    assert(frags.push(x)[0] == if frags.len() == 0 { x } else { frags[0] });
    if frags.len() == 0 {
        assert(frags.push(x).drop_first() =~= Seq::<(u32, u32)>::empty());
        assert(first_at(Seq::<(u32, u32)>::empty(), c) is None);
    } else {
        assert(frags.push(x).drop_first() =~= frags.drop_first().push(x));
        lemma_first_at_push(frags.drop_first(), x, c);
    }
}

proof fn lemma_contiguous_end_bounded(frags: Seq<(u32, u32)>, c: int, bound: int)
    requires
        fragments_bounded(frags, bound),
        0 <= c <= bound,
    ensures
        c <= contiguous_end(frags, c) <= bound,
    decreases (MAX_DATAGRAM_LEN - c) as nat,
{
    let l = len_at(frags, c);
    lemma_len_at_member(frags, c);
    if 0 < l && c + l <= MAX_DATAGRAM_LEN {
        let i = choose|i: int| 0 <= i < frags.len() && frags[i].0 == c && frags[i].1 == l;
        assert(frags[i].0 + frags[i].1 <= bound);
        lemma_contiguous_end_bounded(frags, c + l, bound);
    }
}

/// The end of a run is where the run from there ends.
proof fn lemma_contiguous_end_idempotent(frags: Seq<(u32, u32)>, c: int)
    ensures
        contiguous_end(frags, contiguous_end(frags, c)) == contiguous_end(frags, c),
    decreases (MAX_DATAGRAM_LEN - c) as nat,
{
    let l = len_at(frags, c);
    if 0 < l && c + l <= MAX_DATAGRAM_LEN {
        lemma_contiguous_end_idempotent(frags, c + l);
    }
}

/// A fragment appended to the list leaves the run up to the old end as it
/// was, so the new run may be resumed from the old end.
proof fn lemma_contiguous_end_push(frags: Seq<(u32, u32)>, x: (u32, u32), c: int)
    ensures
        contiguous_end(frags.push(x), c) == contiguous_end(frags.push(x), contiguous_end(frags, c)),
    decreases (MAX_DATAGRAM_LEN - c) as nat,
{
    let l = len_at(frags, c);
    lemma_first_at_push(frags, x, c);
    if 0 < l && c + l <= MAX_DATAGRAM_LEN {
        lemma_contiguous_end_push(frags, x, c + l);
    }
}

/// Every arrival keeps a buffer well formed.
pub proof fn lemma_insert_fragment_wf(s: Reassembly, off: int, p: Seq<u8>, more: bool, dont: bool)
    requires
        reassembly_wf(s),
        0 <= off,
        off + p.len() <= MAX_DATAGRAM_LEN,
    ensures
        reassembly_wf(insert_fragment(s, off, p, more, dont)),
{
    let t = insert_fragment(s, off, p, more, dont);
    let rec = (off as u32, p.len() as u32);
    assert(fragments_bounded(t.fragments, t.bytes.len() as int)) by {
        if !s.fragments.contains(rec) {
            assert forall|i: int| 0 <= i < t.fragments.len() implies t.fragments[i].0
                + t.fragments[i].1 <= t.bytes.len() by {
                if i < s.fragments.len() {
                    assert(t.fragments[i] == s.fragments[i]);
                }
            }
        }
    }
    lemma_contiguous_end_bounded(t.fragments, 0, t.bytes.len() as int);
}

/// The buffer of one datagram.
pub struct ReassemblyBuffer {
    id: u16,
    data: Vec<u8>,
    received: u32,
    fragments: Vec<(u32, u32)>,
    total: Option<u32>,
}

impl View for ReassemblyBuffer {
    type V = Reassembly;

    closed spec fn view(&self) -> Reassembly {
        Reassembly {
            bytes: self.data@,
            received: self.received as int,
            fragments: self.fragments@,
            total: self.total,
        }
    }
}

/// Finds the length of the first fragment in `vec` that starts at
/// `current_ptr`.
pub fn find_receive_data_queue_len(vec: &Vec<(u32, u32)>, current_ptr: u32) -> (r: Option<u32>)
    ensures
        r == first_at(vec@, current_ptr as int),
{
    let mut i: usize = 0;
    assert(vec@.subrange(0, vec.len() as int) =~= vec@);
    while i < vec.len()
        invariant
            i <= vec.len(),
            first_at(vec@, current_ptr as int) == first_at(
                vec@.subrange(i as int, vec.len() as int),
                current_ptr as int,
            ),
        decreases vec.len() - i,
    {
        proof {
            let rest = vec@.subrange(i as int, vec.len() as int);
            assert(rest.drop_first() =~= vec@.subrange(i + 1, vec.len() as int));
            assert(rest[0] == vec@[i as int]);
        }
        if vec[i].0 == current_ptr {
            return Some(vec[i].1);
        }
        i = i + 1;
    }
    None
}

impl ReassemblyBuffer {
    /// The datagram ID this buffer collects.
    pub closed spec fn spec_id(&self) -> u16 {
        self.id
    }

    /// An empty buffer for the datagram `id`.
    pub fn new(id: u16) -> (b: Self)
        ensures
            b@ == empty_reassembly(),
            b.spec_id() == id,
    {
        let b = ReassemblyBuffer {
            id,
            data: Vec::new(),
            received: 0,
            fragments: Vec::new(),
            total: None,
        };
        assert(b@.bytes =~= Seq::<u8>::empty());
        assert(b@.fragments =~= Seq::<(u32, u32)>::empty());
        b
    }

    /// The datagram ID this buffer collects.
    pub fn id(&self) -> (r: u16)
        ensures
            r == self.spec_id(),
    {
        self.id
    }

    /// The bytes that have arrived without a gap from offset 0.
    pub fn received_bytes(&self) -> (r: Vec<u8>)
        requires
            reassembly_wf(self@),
        ensures
            r@ == self@.bytes.subrange(0, self@.received),
    {
        crate::bytes::slice_bytes(&self.data, 0, self.received as usize)
    }

    /// Takes in a fragment of `data` at byte offset `offset`; returns whether
    /// the datagram is now complete.
    pub fn add_fragment(&mut self, offset: u32, data: &Vec<u8>, mf: bool, df: bool) -> (r: bool)
        requires
            reassembly_wf(old(self)@),
            offset + data.len() <= MAX_DATAGRAM_LEN,
        ensures
            final(self)@ == insert_fragment(old(self)@, offset as int, data@, mf, df),
            final(self).spec_id() == old(self).spec_id(),
            reassembly_wf(final(self)@),
            r == is_complete(final(self)@),
    {
        let ghost s = self@;
        let len = data.len() as u32;
        let end = offset + len;
        // grow with zeros up to the fragment's end
        while self.data.len() < end as usize
            invariant
                self.data@.len() <= end || self.data@.len() == s.bytes.len(),
                s.bytes.len() <= self.data@.len(),
                self.fragments@ == s.fragments,
                self.received == s.received,
                self.total == s.total,
                self.id == old(self).id,
                forall|k: int| 0 <= k < s.bytes.len() ==> self.data@[k] == s.bytes[k],
                forall|k: int| s.bytes.len() <= k < self.data@.len() ==> self.data@[k] == 0,
            decreases end - self.data.len(),
        {
            self.data.push(0);
        }
        let mut k: usize = 0;
        while k < data.len()
            invariant
                k <= data.len(),
                offset + data.len() == end,
                self.fragments@ == s.fragments,
                self.received == s.received,
                self.total == s.total,
                self.id == old(self).id,
                self.data@.len() == write_bytes(s.bytes, offset as int, data@).len(),
                forall|j: int|
                    0 <= j < self.data@.len() && !(offset + k <= j < end) ==> self.data@[j]
                        == write_bytes(s.bytes, offset as int, data@)[j],
            decreases data.len() - k,
        {
            self.data.set(offset as usize + k, data[k]);
            k = k + 1;
        }
        assert(self.data@ =~= write_bytes(s.bytes, offset as int, data@));
        // record the fragment once
        let mut seen = false;
        let mut i: usize = 0;
        while i < self.fragments.len()
            invariant
                i <= self.fragments.len(),
                self.fragments@ == s.fragments,
                self.data@ == write_bytes(s.bytes, offset as int, data@),
                self.received == s.received,
                self.total == s.total,
                self.id == old(self).id,
                seen == exists|j: int| 0 <= j < i && s.fragments[j] == (offset, len),
            decreases self.fragments.len() - i,
        {
            if self.fragments[i].0 == offset && self.fragments[i].1 == len {
                seen = true;
            }
            i = i + 1;
        }
        proof {
            assert(seen == s.fragments.contains((offset, len)));
            if seen {
                lemma_contiguous_end_idempotent(s.fragments, 0);
            } else {
                lemma_contiguous_end_push(s.fragments, (offset, len), 0);
            }
        }
        if !seen {
            self.fragments.push((offset, len));
        }
        let ghost t = insert_fragment(s, offset as int, data@, mf, df);
        proof {
            lemma_insert_fragment_wf(s, offset as int, data@, mf, df);
            assert(self.fragments@ == t.fragments);
        }
        // advance over the run of fragments that starts where the last one
        // ended
        let mut cursor = self.received;
        // an empty fragment, or none, ends the run
        let mut step: u32 = match find_receive_data_queue_len(&self.fragments, cursor) {
            Some(l) => l,
            None => 0,
        };
        while step > 0
            invariant
                cursor <= MAX_DATAGRAM_LEN,
                self.fragments@ == t.fragments,
                self.data@ == t.bytes,
                self.total == s.total,
                self.id == old(self).id,
                fragments_bounded(t.fragments, t.bytes.len() as int),
                t.bytes.len() <= MAX_DATAGRAM_LEN,
                contiguous_end(t.fragments, cursor as int) == t.received,
                step == len_at(t.fragments, cursor as int),
            decreases MAX_DATAGRAM_LEN - cursor,
        {
            proof {
                lemma_len_at_member(t.fragments, cursor as int);
                let j = choose|j: int|
                    0 <= j < t.fragments.len() && t.fragments[j].0 == cursor && t.fragments[j].1
                        == step;
                assert(t.fragments[j].0 + t.fragments[j].1 <= t.bytes.len());
            }
            cursor = cursor + step;
            step = match find_receive_data_queue_len(&self.fragments, cursor) {
                Some(l) => l,
                None => 0,
            };
        }
        self.received = cursor;
        if df || !mf {
            self.total = Some(end);
        }
        assert(self@ == t);
        match self.total {
            Some(t) => t == self.received,
            None => false,
        }
    }
}

spec fn buffer_key() -> spec_fn(ReassemblyBuffer) -> u16 {
    |b: ReassemblyBuffer| b.id
}

spec fn buffer_value() -> spec_fn(ReassemblyBuffer) -> Reassembly {
    |b: ReassemblyBuffer| b@
}

/// The buffers of the datagrams in flight, one per datagram ID.
pub struct ReceiveDataQueue(Vec<ReassemblyBuffer>);

impl View for ReceiveDataQueue {
    type V = Map<u16, Reassembly>;

    closed spec fn view(&self) -> Map<u16, Reassembly> {
        keyed_map(self.0@, buffer_key(), buffer_value())
    }
}

impl ReceiveDataQueue {
    /// One buffer per ID, each well formed.
    pub closed spec fn wf(&self) -> bool {
        &&& keys_unique(self.0@, buffer_key())
        &&& forall|i: int| 0 <= i < self.0@.len() ==> reassembly_wf(#[trigger] self.0@[i]@)
    }

    /// Every buffer of a well-formed set is well formed.
    pub proof fn lemma_wf(&self)
        requires
            self.wf(),
        ensures
            forall|id: u16| #[trigger] self@.contains_key(id) ==> reassembly_wf(self@[id]),
    {
        lemma_keyed_map_index(self.0@, buffer_key(), buffer_value());
        assert forall|id: u16| #[trigger] self@.contains_key(id) implies reassembly_wf(self@[id]) by {
            let i = choose|i: int| 0 <= i < self.0@.len() && buffer_key()(self.0@[i]) == id;
            assert(reassembly_wf(self.0@[i]@));
        }
    }

    /// No datagram in flight.
    pub fn new() -> (q: Self)
        ensures
            q.wf(),
            q@ == Map::<u16, Reassembly>::empty(),
    {
        let q = ReceiveDataQueue(Vec::new());
        assert(q@ =~= Map::<u16, Reassembly>::empty());
        q
    }

    fn index_of(&self, id: u16) -> (r: Option<usize>)
        requires
            self.wf(),
        ensures
            match r {
                Some(i) => i < self.0@.len() && self.0@[i as int].id == id,
                None => !self@.contains_key(id),
            },
    {
        proof {
            lemma_keyed_map_index(self.0@, buffer_key(), buffer_value());
        }
        let mut i: usize = 0;
        while i < self.0.len()
            invariant
                i <= self.0@.len(),
                forall|j: int| 0 <= j < i ==> self.0@[j].id != id,
            decreases self.0.len() - i,
        {
            if self.0[i].id == id {
                return Some(i);
            }
            i = i + 1;
        }
        None
    }

    /// The buffer of datagram `id`, if one is in flight.
    pub fn find(&self, id: u16) -> (r: Option<&ReassemblyBuffer>)
        requires
            self.wf(),
        ensures
            match r {
                Some(b) => self@.contains_key(id) && b@ == self@[id] && b.spec_id() == id,
                None => !self@.contains_key(id),
            },
    {
        proof {
            lemma_keyed_map_index(self.0@, buffer_key(), buffer_value());
        }
        match self.index_of(id) {
            Some(i) => {
                assert(buffer_key()(self.0@[i as int]) == id);
                Some(&self.0[i])
            },
            None => None,
        }
    }

    /// Adds a fragment to the buffer of datagram `id`, which must be in
    /// flight: `offset` is in 8-byte units, `len` is the length of `data`.
    /// Returns whether the datagram is now complete.
    pub fn insert_data(&mut self, id: u16, data: Vec<u8>, offset: u16, len: u16, mf: bool, df: bool) -> (r: bool)
        requires
            old(self).wf(),
            old(self)@.contains_key(id),
            data.len() == len,
            offset * 8 + len <= MAX_DATAGRAM_LEN,
        ensures
            final(self).wf(),
            final(self)@ == old(self)@.insert(
                id,
                insert_fragment(old(self)@[id], offset * 8, data@, mf, df),
            ),
            r == is_complete(final(self)@[id]),
    {
        proof {
            lemma_keyed_map_index(self.0@, buffer_key(), buffer_value());
        }
        let i = self.index_of(id).unwrap();
        let ghost s0 = self.0@;
        assert(buffer_key()(s0[i as int]) == id);
        let mut b = self.0.remove(i);
        let done = b.add_fragment(offset as u32 * 8, &data, mf, df);
        self.0.insert(i, b);
        proof {
            assert(self.0@ =~= s0.update(i as int, b));
            lemma_keyed_map_update(s0, i as int, b, buffer_key(), buffer_value());
            assert forall|j: int| 0 <= j < self.0@.len() implies reassembly_wf(
                #[trigger] self.0@[j]@,
            ) by {
                if j != i {
                    assert(self.0@[j] == s0[j]);
                }
            }
        }
        done
    }

    /// Opens a buffer for datagram `id`, which must not be in flight, with
    /// its first fragment. Returns whether the datagram is already complete.
    pub fn create_new(&mut self, id: u16, data: Vec<u8>, offset: u16, len: u16, mf: bool, df: bool) -> (r: bool)
        requires
            old(self).wf(),
            !old(self)@.contains_key(id),
            data.len() == len,
            offset * 8 + len <= MAX_DATAGRAM_LEN,
        ensures
            final(self).wf(),
            final(self)@ == old(self)@.insert(
                id,
                insert_fragment(empty_reassembly(), offset * 8, data@, mf, df),
            ),
            r == is_complete(final(self)@[id]),
    {
        let mut b = ReassemblyBuffer::new(id);
        assert(reassembly_wf(b@)) by {
            assert(b@.fragments.len() == 0);
        }
        let done = b.add_fragment(offset as u32 * 8, &data, mf, df);
        let ghost s0 = self.0@;
        self.0.push(b);
        proof {
            lemma_keyed_map_push(s0, b, buffer_key(), buffer_value());
            assert forall|j: int| 0 <= j < self.0@.len() implies reassembly_wf(
                #[trigger] self.0@[j]@,
            ) by {
                if j < s0.len() {
                    assert(self.0@[j] == s0[j]);
                }
            }
        }
        done
    }

    /// Drops the buffer of datagram `id`; returns whether there was one.
    pub fn delete_element(&mut self, id: u16) -> (r: bool)
        requires
            old(self).wf(),
        ensures
            final(self).wf(),
            r == old(self)@.contains_key(id),
            final(self)@ == old(self)@.remove(id),
    {
        match self.index_of(id) {
            Some(i) => {
                let ghost s0 = self.0@;
                proof {
                    lemma_keyed_map_index(s0, buffer_key(), buffer_value());
                    assert(buffer_key()(s0[i as int]) == id);
                    lemma_keyed_map_remove(s0, i as int, buffer_key(), buffer_value());
                }
                self.0.remove(i);
                proof {
                    assert forall|j: int| 0 <= j < self.0@.len() implies reassembly_wf(
                        #[trigger] self.0@[j]@,
                    ) by {
                        if j < i {
                            assert(self.0@[j] == s0[j]);
                        } else {
                            assert(self.0@[j] == s0[j + 1]);
                        }
                    }
                }
                true
            },
            None => {
                assert(self@ =~= self@.remove(id));
                false
            },
        }
    }
}

/// A fragment as read from a datagram.
pub struct Fragment {
    pub id: u16,
    /// Byte offset of the payload within its datagram.
    pub offset: int,
    pub payload: Seq<u8>,
    pub more: bool,
    pub dont: bool,
}

/// The fragment that the datagram `b` carries: its header is the first 60
/// bytes, its payload runs from there to the header's total length. None
/// when `b` is too short for that, or the fragment would end past the
/// largest datagram.
pub open spec fn parse_fragment(b: Seq<u8>) -> Option<Fragment> {
    if b.len() < IP_HEADER_LEN {
        None
    } else {
        let total = be16(b, 2) as int;
        let flags = be16(b, 6) as int;
        let off = (flags % 8192) * 8;
        if total < IP_HEADER_LEN || total > b.len() || off + (total - IP_HEADER_LEN)
            > MAX_DATAGRAM_LEN {
            None
        } else {
            Some(
                Fragment {
                    id: be16(b, 4),
                    offset: off,
                    payload: b.subrange(IP_HEADER_LEN as int, total),
                    more: (flags / 8192) % 2 == 1,
                    dont: (flags / 16384) % 2 == 1,
                },
            )
        }
    }
}

/// The buffers after the datagram `b` arrives, and the datagram that it
/// completes, if any. A completed datagram's buffer is dropped.
pub open spec fn deliver(m: Map<u16, Reassembly>, b: Seq<u8>) -> (Map<u16, Reassembly>, Option<Seq<u8>>) {
    match parse_fragment(b) {
        None => (m, None),
        Some(f) => {
            let s = if m.contains_key(f.id) {
                m[f.id]
            } else {
                empty_reassembly()
            };
            let t = insert_fragment(s, f.offset, f.payload, f.more, f.dont);
            if is_complete(t) {
                (m.remove(f.id), Some(t.bytes.subrange(0, t.received)))
            } else {
                (m.insert(f.id, t), None)
            }
        },
    }
}

/// The bytes of an optional buffer.
pub open spec fn opt_bytes(r: Option<Vec<u8>>) -> Option<Seq<u8>> {
    match r {
        Some(v) => Some(v@),
        None => None,
    }
}

/// The queue of datagrams handed up from the link layer. Only payloads of a
/// frame's size are admitted.
pub struct IpReceiveQueue(std::collections::VecDeque<Vec<u8>>);

impl View for IpReceiveQueue {
    type V = Seq<Seq<u8>>;

    closed spec fn view(&self) -> Seq<Seq<u8>> {
        contents(self.0@)
    }
}

impl IpReceiveQueue {
    /// An empty queue.
    pub fn new() -> (q: Self)
        ensures
            q@ == Seq::<Seq<u8>>::empty(),
    {
        let q = IpReceiveQueue(std::collections::VecDeque::new());
        assert(q@ =~= Seq::<Seq<u8>>::empty());
        q
    }

    /// Appends a copy of `buffer` when its length is within a frame's payload
    /// bounds; otherwise leaves the queue as it is and returns false.
    pub fn add_data(&mut self, buffer: &Vec<u8>) -> (r: bool)
        ensures
            r == payload_len_ok(buffer@.len() as int),
            final(self)@ == if r {
                old(self)@.push(buffer@)
            } else {
                old(self)@
            },
    {
        if buffer.len() > MAX_PAYLOAD_LEN || buffer.len() < MIN_PAYLOAD_LEN {
            return false;
        }
        let b = copy_bytes(buffer);
        proof {
            lemma_contents_push(self.0@, b);
        }
        self.0.push_back(b);
        true
    }

    /// Removes and returns the oldest datagram.
    pub fn get_data(&mut self) -> (r: Option<Vec<u8>>)
        ensures
            match r {
                Some(v) => old(self)@.len() > 0 && v@ == old(self)@[0] && final(self)@
                    == old(self)@.drop_first(),
                None => old(self)@.len() == 0 && final(self)@ == old(self)@,
            },
    {
        proof {
            if self.0@.len() > 0 {
                lemma_contents_tail(self.0@);
            }
        }
        self.0.pop_front()
    }

    /// Whether the queue holds nothing.
    pub fn is_empty(&self) -> (r: bool)
        ensures
            r == (self@.len() == 0),
    {
        self.0.len() == 0
    }
}

/// Takes the oldest datagram from `ip_queue`, files its fragment in the
/// buffer of its ID (opening one if none is in flight), and returns the
/// whole payload when that fragment completes the datagram. Datagrams that
/// hold no well-formed fragment are dropped.
pub fn receive(ip_queue: &mut IpReceiveQueue, buffers: &mut ReceiveDataQueue) -> (r: Option<Vec<u8>>)
    requires
        old(buffers).wf(),
    ensures
        final(buffers).wf(),
        old(ip_queue)@.len() == 0 ==> r is None && final(ip_queue)@ == old(ip_queue)@
            && final(buffers)@ == old(buffers)@,
        old(ip_queue)@.len() > 0 ==> final(ip_queue)@ == old(ip_queue)@.drop_first() && (
        final(buffers)@, opt_bytes(r)) == deliver(old(buffers)@, old(ip_queue)@[0]),
{
    let dg = match ip_queue.get_data() {
        Some(d) => d,
        None => {
            return None;
        },
    };
    if dg.len() < IP_HEADER_LEN {
        return None;
    }
    let hdr = IpHeader::from_u8(&dg);
    let total = hdr.total_length as usize;
    let flags = hdr.flags_and_fragment_offset;
    let offset = flags & FRAGMENT_OFFSET_MASK;
    let mf = (flags & MORE_FRAGMENTS) == MORE_FRAGMENTS;
    let df = (flags & DONT_FRAGMENT) == DONT_FRAGMENT;
    proof {
        assert(flags & 0x1FFFu16 == flags % 8192) by (bit_vector);
        assert((flags & 0x2000u16 == 0x2000u16) == ((flags / 8192) % 2 == 1)) by (bit_vector);
        assert((flags & 0x4000u16 == 0x4000u16) == ((flags / 16384) % 2 == 1)) by (bit_vector);
    }
    if total < IP_HEADER_LEN || total > dg.len() {
        return None;
    }
    let len = total - IP_HEADER_LEN;
    if offset as u32 * 8 + len as u32 > MAX_DATAGRAM_LEN {
        return None;
    }
    let payload = slice_bytes(&dg, IP_HEADER_LEN, total);
    let id = hdr.id;
    proof {
        buffers.lemma_wf();
    }
    let done = if buffers.find(id).is_some() {
        buffers.insert_data(id, payload, offset, len as u16, mf, df)
    } else {
        proof {
            assert(reassembly_wf(empty_reassembly())) by {
                assert(empty_reassembly().fragments.len() == 0);
            }
        }
        buffers.create_new(id, payload, offset, len as u16, mf, df)
    };
    if done {
        proof {
            buffers.lemma_wf();
        }
        let b = buffers.find(id).unwrap();
        let out = b.received_bytes();
        buffers.delete_element(id);
        proof {
            assert(buffers@ =~= old(buffers)@.remove(id));
        }
        Some(out)
    } else {
        None
    }
}

/// Delivering a fragment that has already arrived changes nothing: the
/// bytes, the list of fragments, the run received and the expected length
/// all stay as they were.
pub proof fn lemma_redelivery_idempotent(s: Reassembly, off: int, p: Seq<u8>, more: bool, dont: bool)
    requires
        reassembly_wf(s),
        0 <= off,
        off + p.len() <= MAX_DATAGRAM_LEN,
    ensures
        insert_fragment(insert_fragment(s, off, p, more, dont), off, p, more, dont)
            == insert_fragment(s, off, p, more, dont),
{
    let t = insert_fragment(s, off, p, more, dont);
    let u = insert_fragment(t, off, p, more, dont);
    let rec = (off as u32, p.len() as u32);
    if !s.fragments.contains(rec) {
        assert(t.fragments[t.fragments.len() - 1] == rec);
    }
    assert(t.fragments.contains(rec));
    assert(u.bytes =~= t.bytes);
    assert(u.fragments == t.fragments);
}

/// A fragment already in hand arrives again: its record is listed, its
/// bytes are in place, and, when it is a last fragment, the length it set
/// still stands. Then nothing changes: not the bytes, not the list of
/// fragments, not the run received, not the expected length.
pub proof fn lemma_known_fragment_changes_nothing(
    s: Reassembly,
    off: int,
    p: Seq<u8>,
    more: bool,
    dont: bool,
)
    requires
        reassembly_wf(s),
        0 <= off,
        off + p.len() <= MAX_DATAGRAM_LEN,
        s.fragments.contains((off as u32, p.len() as u32)),
        off + p.len() <= s.bytes.len() && s.bytes.subrange(off, off + p.len()) == p,
        is_last_fragment(more, dont) ==> s.total == Some((off + p.len()) as u32),
    ensures
        insert_fragment(s, off, p, more, dont) == s,
{
    let t = insert_fragment(s, off, p, more, dont);
    assert forall|k: int| off <= k < off + p.len() implies s.bytes[k] == p[k - off] by {
        assert(s.bytes.subrange(off, off + p.len())[k - off] == s.bytes[k]);
    }
    assert(t.bytes =~= s.bytes);
}

/// A datagram delivered a second time, when the first delivery did not
/// complete its datagram, leaves the buffers as the first delivery did and
/// completes nothing.
pub proof fn lemma_redeliver_datagram(m: Map<u16, Reassembly>, b: Seq<u8>)
    requires
        forall|id: u16| #[trigger] m.contains_key(id) ==> reassembly_wf(m[id]),
        deliver(m, b).1 is None,
    ensures
        deliver(deliver(m, b).0, b) == deliver(m, b),
{
    match parse_fragment(b) {
        None => {},
        Some(f) => {
            let s = if m.contains_key(f.id) {
                m[f.id]
            } else {
                empty_reassembly()
            };
            assert(reassembly_wf(s)) by {
                if !m.contains_key(f.id) {
                    assert(s.fragments.len() == 0);
                }
            }
            lemma_redelivery_idempotent(s, f.offset, f.payload, f.more, f.dont);
            let t = insert_fragment(s, f.offset, f.payload, f.more, f.dont);
            assert(deliver(m, b).0 == m.insert(f.id, t));
            assert(m.insert(f.id, t).insert(f.id, t) =~= m.insert(f.id, t));
        },
    }
}

} // verus!
