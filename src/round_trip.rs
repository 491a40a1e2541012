//! Fragmentation and reassembly undo each other: the datagrams that carry a
//! payload, delivered in any order, rebuild exactly that payload, and only
//! the last delivery completes it.

use vstd::prelude::*;
use crate::fragment::{
    fragment_bytes, fragment_flags, fragment_payload, fragment_words, fragments_of,
    lemma_fragment_payload_len, lemma_slice_bounds, slice_count, unchecked_fragment_words,
    DATAGRAM_ID,
};
use crate::ip::{be16, lemma_word_bytes, lemma_words_to_bytes, words_to_bytes, IP_HEADER_LEN};
use crate::reassembly::{
    contiguous_end, deliver, empty_reassembly, insert_fragment, is_complete, is_last_fragment,
    lemma_insert_fragment_wf, len_at, parse_fragment, reassembly_wf, write_bytes, Fragment,
    Reassembly, MAX_DATAGRAM_LEN,
};

verus! {

/// Delivers the datagrams `ds` one after another, collecting what each
/// delivery completes.
pub open spec fn deliver_all(m: Map<u16, Reassembly>, ds: Seq<Seq<u8>>) -> (
    Map<u16, Reassembly>,
    Seq<Option<Seq<u8>>>,
)
    decreases ds.len(),
{
    if ds.len() == 0 {
        (m, Seq::empty())
    } else {
        let (m1, outs) = deliver_all(m, ds.drop_last());
        let (m2, out) = deliver(m1, ds.last());
        (m2, outs.push(out))
    }
}

/// `order` lists each of `0..n` exactly once.
pub open spec fn is_permutation(order: Seq<int>, n: int) -> bool {
    &&& order.len() == n
    &&& forall|t: int| 0 <= t < n ==> 0 <= #[trigger] order[t] < n
    &&& forall|t1: int, t2: int| 0 <= t1 < n && 0 <= t2 < n && t1 != t2 ==> order[t1] != order[t2]
    &&& forall|j: int| 0 <= j < n ==> #[trigger] order.contains(j)
}

spec fn frag_len(p: Seq<u8>, j: int) -> int {
    fragment_payload(p, j).len() as int
}

spec fn frag_rec(p: Seq<u8>, j: int) -> (u32, u32) {
    ((j * 1400) as u32, frag_len(p, j) as u32)
}

spec fn offsets_unique(frags: Seq<(u32, u32)>) -> bool {
    forall|a: int, b: int|
        0 <= a < frags.len() && 0 <= b < frags.len() && a != b ==> frags[a].0 != frags[b].0
}

/// What a buffer holds once the fragments in `got` have arrived.
spec fn partial_state(s: Reassembly, p: Seq<u8>, got: Set<int>) -> bool {
    let n = slice_count(p.len() as int);
    &&& reassembly_wf(s)
    &&& offsets_unique(s.fragments)
    &&& forall|j: int| got.contains(j) ==> 0 <= j < n
    &&& forall|x: (u32, u32)|
        s.fragments.contains(x) <==> exists|j: int| got.contains(j) && x == frag_rec(p, j)
    &&& forall|j: int| #[trigger] got.contains(j) ==> j * 1400 + frag_len(p, j) <= s.bytes.len()
    &&& forall|j: int, x: int|
        #![trigger got.contains(j), s.bytes[x]]
        got.contains(j) && j * 1400 <= x < j * 1400 + frag_len(p, j) ==> s.bytes[x] == p[x]
    &&& s.total == if got.contains(n - 1) {
        Some(p.len() as u32)
    } else {
        None
    }
}

proof fn lemma_frag_facts(p: Seq<u8>, j: int)
    requires
        p.len() <= MAX_DATAGRAM_LEN,
        0 <= j < slice_count(p.len() as int),
    ensures
        0 <= j * 1400,
        j * 1400 + frag_len(p, j) <= p.len(),
        j < slice_count(p.len() as int) - 1 ==> frag_len(p, j) == 1400,
        j == slice_count(p.len() as int) - 1 ==> j * 1400 + frag_len(p, j) == p.len(),
        frag_rec(p, j).0 == j * 1400,
        frag_rec(p, j).1 == frag_len(p, j),
        forall|u: int| 0 <= u < frag_len(p, j) ==> fragment_payload(p, j)[u] == p[j * 1400 + u],
{
    lemma_slice_bounds(p.len() as int, j);
    lemma_fragment_payload_len(p, j);
}

/// The datagram of fragment `i` reads back as that fragment.
proof fn lemma_parse_fragment(p: Seq<u8>, i: int, protocol: u8, src: u32, dst: u32)
    requires
        p.len() <= MAX_DATAGRAM_LEN,
        0 <= i < slice_count(p.len() as int),
    ensures
        parse_fragment(fragment_bytes(p, i, protocol, src, dst)) == Some(
            Fragment {
                id: DATAGRAM_ID,
                offset: i * 1400,
                payload: fragment_payload(p, i),
                more: i < slice_count(p.len() as int) - 1,
                dont: slice_count(p.len() as int) == 1,
            },
        ),
{
    let n = slice_count(p.len() as int);
    let w = fragment_words(p, i, protocol, src, dst);
    let pl = fragment_payload(p, i);
    let b = fragment_bytes(p, i, protocol, src, dst);
    lemma_frag_facts(p, i);
    lemma_slice_bounds(p.len() as int, i);
    lemma_words_to_bytes(w);
    let hb = words_to_bytes(w);
    assert(w.len() == 30);
    assert forall|k: int| 0 <= k < 30 implies be16(b, 2 * k) == w[k] by {
        assert(b[2 * k] == hb[2 * k]);
        assert(b[2 * k + 1] == hb[2 * k + 1]);
        lemma_word_bytes(w[k]);
    }
    let uw = unchecked_fragment_words(p, i, protocol, src, dst);
    assert(w[1] == uw[1] && w[2] == uw[2] && w[3] == uw[3]);
    assert(be16(b, 2) == w[1]);
    assert(be16(b, 4) == w[2]);
    assert(be16(b, 6) == w[3]);
    let total = be16(b, 2) as int;
    assert(total == IP_HEADER_LEN + pl.len());
    let flags = be16(b, 6) as int;
    assert(flags == fragment_flags(i, n) as int);
    if n == 1 {
        assert(flags == 16384);
    } else if i < n - 1 {
        assert(flags == 8192 + i * 175);
    } else {
        assert(flags == i * 175);
    }
    assert((flags % 8192) * 8 == i * 1400);
    assert(b.subrange(IP_HEADER_LEN as int, total) =~= pl);
}

/// With distinct offsets, the run steps from a fragment's offset by that
/// fragment's length.
proof fn lemma_len_at_unique(frags: Seq<(u32, u32)>, i: int)
    requires
        offsets_unique(frags),
        0 <= i < frags.len(),
    ensures
        len_at(frags, frags[i].0 as int) == frags[i].1,
    decreases frags.len(),
{
    if i > 0 {
        let rest = frags.drop_first();
        assert(offsets_unique(rest)) by {
            assert forall|a: int, b: int|
                0 <= a < rest.len() && 0 <= b < rest.len() && a != b implies rest[a].0
                != rest[b].0 by {
                assert(rest[a] == frags[a + 1] && rest[b] == frags[b + 1]);
            }
        }
        assert(rest[i - 1] == frags[i]);
        assert(frags[0].0 != frags[i].0);
        lemma_len_at_unique(rest, i - 1);
    }
}

/// No fragment starts at `c`: the run stops there.
proof fn lemma_len_at_absent(frags: Seq<(u32, u32)>, c: int)
    requires
        forall|k: int| 0 <= k < frags.len() ==> frags[k].0 != c,
    ensures
        len_at(frags, c) == 0,
    decreases frags.len(),
{
    if frags.len() > 0 {
        let rest = frags.drop_first();
        assert forall|k: int| 0 <= k < rest.len() implies rest[k].0 != c by {
            assert(rest[k] == frags[k + 1]);
        }
        lemma_len_at_absent(rest, c);
    }
}

/// Only fragment `j` can start at `j * 1400`.
proof fn lemma_only_owner(s: Reassembly, p: Seq<u8>, got: Set<int>, j: int)
    requires
        partial_state(s, p, got),
        p.len() <= MAX_DATAGRAM_LEN,
        0 <= j < slice_count(p.len() as int),
    ensures
        got.contains(j) ==> exists|i: int|
            0 <= i < s.fragments.len() && s.fragments[i] == frag_rec(p, j),
        !got.contains(j) ==> forall|k: int|
            0 <= k < s.fragments.len() ==> s.fragments[k].0 != j * 1400,
{
    lemma_frag_facts(p, j);
    if got.contains(j) {
        assert(s.fragments.contains(frag_rec(p, j)));
    } else {
        assert forall|k: int| 0 <= k < s.fragments.len() implies s.fragments[k].0 != j * 1400 by {
            assert(s.fragments.contains(s.fragments[k]));
            let j2 = choose|j2: int| got.contains(j2) && s.fragments[k] == frag_rec(p, j2);
            lemma_frag_facts(p, j2);
        }
    }
}

/// With every non-empty fragment from `k` on in hand, the run from fragment
/// `k` reaches the end of the payload.
proof fn lemma_run_reaches_end(s: Reassembly, p: Seq<u8>, got: Set<int>, k: int)
    requires
        partial_state(s, p, got),
        p.len() <= MAX_DATAGRAM_LEN,
        0 <= k < slice_count(p.len() as int),
        forall|j: int| k <= j < slice_count(p.len() as int) && frag_len(p, j) > 0 ==> got.contains(j),
    ensures
        contiguous_end(s.fragments, k * 1400) == p.len(),
    decreases slice_count(p.len() as int) - k,
{
    let n = slice_count(p.len() as int);
    let frags = s.fragments;
    let c = k * 1400;
    lemma_frag_facts(p, k);
    lemma_only_owner(s, p, got, k);
    if frag_len(p, k) > 0 {
        let i = choose|i: int| 0 <= i < frags.len() && frags[i] == frag_rec(p, k);
        lemma_len_at_unique(frags, i);
        assert(len_at(frags, c) == frag_len(p, k));
        if k < n - 1 {
            assert(c + frag_len(p, k) == (k + 1) * 1400);
            lemma_run_reaches_end(s, p, got, k + 1);
        } else {
            let e = p.len() as int;
            assert forall|q: int| 0 <= q < frags.len() implies frags[q].0 != e by {
                assert(frags.contains(frags[q]));
                let j2 = choose|j2: int| got.contains(j2) && frags[q] == frag_rec(p, j2);
                lemma_frag_facts(p, j2);
                lemma_slice_bounds(p.len() as int, j2);
            }
            lemma_len_at_absent(frags, e);
            assert(contiguous_end(frags, e) == e);
        }
    } else {
        assert(k == n - 1);
        if got.contains(k) {
            let i = choose|i: int| 0 <= i < frags.len() && frags[i] == frag_rec(p, k);
            lemma_len_at_unique(frags, i);
        } else {
            lemma_len_at_absent(frags, c);
        }
    }
}

/// With fragment `j0` (not the last) missing, the run from fragment `k`
/// stops at or before it.
proof fn lemma_run_stops_at_gap(s: Reassembly, p: Seq<u8>, got: Set<int>, k: int, j0: int)
    requires
        partial_state(s, p, got),
        p.len() <= MAX_DATAGRAM_LEN,
        0 <= k <= j0 < slice_count(p.len() as int) - 1,
        !got.contains(j0),
    ensures
        contiguous_end(s.fragments, k * 1400) <= j0 * 1400,
    decreases j0 - k,
{
    let frags = s.fragments;
    lemma_frag_facts(p, k);
    lemma_only_owner(s, p, got, k);
    if got.contains(k) {
        let i = choose|i: int| 0 <= i < frags.len() && frags[i] == frag_rec(p, k);
        lemma_len_at_unique(frags, i);
        assert(k * 1400 + 1400 == (k + 1) * 1400);
        lemma_run_stops_at_gap(s, p, got, k + 1, j0);
    } else {
        lemma_len_at_absent(frags, k * 1400);
    }
}

/// A buffer is complete exactly when every fragment has arrived, and then
/// holds the payload.
proof fn lemma_complete_iff_all(s: Reassembly, p: Seq<u8>, got: Set<int>)
    requires
        partial_state(s, p, got),
        p.len() <= MAX_DATAGRAM_LEN,
    ensures
        is_complete(s) <==> forall|j: int| 0 <= j < slice_count(p.len() as int) ==> got.contains(j),
        is_complete(s) ==> s.bytes.subrange(0, s.received) == p,
{
    let n = slice_count(p.len() as int);
    lemma_slice_bounds(p.len() as int, 0);
    if forall|j: int| 0 <= j < n ==> got.contains(j) {
        lemma_run_reaches_end(s, p, got, 0);
        assert(s.received == p.len());
        assert(s.total == Some(p.len() as u32));
        assert forall|x: int| 0 <= x < p.len() implies s.bytes[x] == p[x] by {
            let j = x / 1400;
            assert(0 <= j < n);
            lemma_frag_facts(p, j);
            assert(got.contains(j));
            assert(j * 1400 <= x < j * 1400 + frag_len(p, j));
        }
        assert(s.bytes.subrange(0, s.received) =~= p);
    } else {
        let j0 = choose|j: int| 0 <= j < n && !got.contains(j);
        if j0 < n - 1 && got.contains(n - 1) {
            lemma_run_stops_at_gap(s, p, got, 0, j0);
            lemma_frag_facts(p, j0);
            lemma_frag_facts(p, n - 1);
            assert(j0 * 1400 < p.len());
        } else if j0 < n - 1 {
            assert(s.total is None);
        } else {
            assert(s.total is None);
        }
    }
}

/// The arrival of fragment `j`, not yet in hand, adds it to what the
/// buffer holds.
proof fn lemma_partial_step(s: Reassembly, p: Seq<u8>, got: Set<int>, j: int)
    requires
        partial_state(s, p, got),
        p.len() <= MAX_DATAGRAM_LEN,
        0 <= j < slice_count(p.len() as int),
        !got.contains(j),
    ensures
        partial_state(
            insert_fragment(
                s,
                j * 1400,
                fragment_payload(p, j),
                j < slice_count(p.len() as int) - 1,
                slice_count(p.len() as int) == 1,
            ),
            p,
            got.insert(j),
        ),
{
    let n = slice_count(p.len() as int);
    let pl = fragment_payload(p, j);
    let more = j < n - 1;
    let dont = n == 1;
    let t = insert_fragment(s, j * 1400, pl, more, dont);
    let g2 = got.insert(j);
    lemma_frag_facts(p, j);
    lemma_only_owner(s, p, got, j);
    let rec = frag_rec(p, j);
    assert(rec == ((j * 1400) as u32, pl.len() as u32));
    assert(!s.fragments.contains(rec)) by {
        if s.fragments.contains(rec) {
            let k = choose|k: int| 0 <= k < s.fragments.len() && s.fragments[k] == rec;
        }
    }
    assert(t.fragments == s.fragments.push(rec));
    lemma_insert_fragment_wf(s, j * 1400, pl, more, dont);
    assert(offsets_unique(t.fragments)) by {
        assert forall|a: int, b: int|
            0 <= a < t.fragments.len() && 0 <= b < t.fragments.len() && a != b implies t.fragments[a].0
            != t.fragments[b].0 by {
            if a < s.fragments.len() && b < s.fragments.len() {
                assert(t.fragments[a] == s.fragments[a] && t.fragments[b] == s.fragments[b]);
            } else if a < s.fragments.len() {
                assert(t.fragments[a] == s.fragments[a]);
            } else {
                assert(t.fragments[b] == s.fragments[b]);
            }
        }
    }
    assert forall|x: (u32, u32)| t.fragments.contains(x) <==> exists|j2: int|
        g2.contains(j2) && x == frag_rec(p, j2) by {
        if t.fragments.contains(x) {
            let k = choose|k: int| 0 <= k < t.fragments.len() && t.fragments[k] == x;
            if k < s.fragments.len() {
                assert(s.fragments[k] == x);
                assert(s.fragments.contains(x));
                let j2 = choose|j2: int| got.contains(j2) && x == frag_rec(p, j2);
                assert(g2.contains(j2));
            } else {
                assert(x == frag_rec(p, j));
            }
        }
        if exists|j2: int| g2.contains(j2) && x == frag_rec(p, j2) {
            let j2 = choose|j2: int| g2.contains(j2) && x == frag_rec(p, j2);
            if j2 == j {
                assert(t.fragments[s.fragments.len() as int] == x);
            } else {
                assert(s.fragments.contains(x));
                let k = choose|k: int| 0 <= k < s.fragments.len() && s.fragments[k] == x;
                assert(t.fragments[k] == x);
            }
        }
    }
    assert forall|j2: int| #[trigger] g2.contains(j2) implies j2 * 1400 + frag_len(p, j2)
        <= t.bytes.len() by {
        if j2 != j {
            assert(got.contains(j2));
        }
    }
    assert forall|j2: int, x: int|
        #![trigger g2.contains(j2), t.bytes[x]]
        g2.contains(j2) && j2 * 1400 <= x < j2 * 1400 + frag_len(p, j2) implies t.bytes[x] == p[x] by {
        lemma_frag_facts(p, j2);
        if j2 != j {
            assert(got.contains(j2));
            lemma_slice_bounds(p.len() as int, j2);
            if j2 < j {
                assert(x < j * 1400) by (nonlinear_arith)
                    requires
                        j2 < j,
                        x < j2 * 1400 + frag_len(p, j2),
                        frag_len(p, j2) <= 1400,
                ;
            } else {
                assert(j * 1400 + pl.len() <= j2 * 1400) by (nonlinear_arith)
                    requires
                        j < j2,
                        pl.len() <= 1400,
                ;
            }
            assert(j2 * 1400 <= x < j2 * 1400 + frag_len(p, j2));
            assert(j2 * 1400 + frag_len(p, j2) <= s.bytes.len());
            assert(s.bytes[x] == p[x]);
            assert(!(j * 1400 <= x < j * 1400 + pl.len()));
            assert(t.bytes == write_bytes(s.bytes, j * 1400, pl));
        } else {
            assert(pl[x - j * 1400] == p[j * 1400 + (x - j * 1400)]);
        }
    }
    assert(is_last_fragment(more, dont) == (j == n - 1));
    assert(reassembly_wf(t));
    assert(forall|j2: int| g2.contains(j2) ==> 0 <= j2 < n);
    assert(t.total == if g2.contains(n - 1) {
        Some(p.len() as u32)
    } else {
        None
    });
    assert(partial_state(t, p, g2));
}

/// Fragmenting a payload and delivering its datagrams in any order, to
/// buffers that hold nothing of their ID, gives the payload back exactly
/// once, on the last delivery, and leaves the buffers as they were.
pub proof fn lemma_fragments_reassemble(
    p: Seq<u8>,
    protocol: u8,
    src: u32,
    dst: u32,
    order: Seq<int>,
    m0: Map<u16, Reassembly>,
)
    requires
        p.len() <= MAX_DATAGRAM_LEN,
        is_permutation(order, slice_count(p.len() as int)),
        !m0.contains_key(DATAGRAM_ID),
    ensures
        ({
            let n = slice_count(p.len() as int);
            let ds = Seq::new(n as nat, |t: int| fragments_of(p, protocol, src, dst)[order[t]]);
            let (m, outs) = deliver_all(m0, ds);
            &&& outs.len() == n
            &&& outs[n - 1] == Some(p)
            &&& forall|t: int| 0 <= t < n - 1 ==> outs[t] is None
            &&& m == m0
        }),
{
    let n = slice_count(p.len() as int);
    let ds = Seq::new(n as nat, |t: int| fragments_of(p, protocol, src, dst)[order[t]]);
    lemma_slice_bounds(p.len() as int, 0);
    lemma_prefix(p, protocol, src, dst, order, m0, ds, n);
    assert(ds.subrange(0, n) =~= ds);
}

spec fn got_by(order: Seq<int>, k: int) -> Set<int> {
    Set::new(|j: int| exists|t: int| 0 <= t < k && order[t] == j)
}

proof fn lemma_prefix(
    p: Seq<u8>,
    protocol: u8,
    src: u32,
    dst: u32,
    order: Seq<int>,
    m0: Map<u16, Reassembly>,
    ds: Seq<Seq<u8>>,
    k: int,
)
    requires
        p.len() <= MAX_DATAGRAM_LEN,
        is_permutation(order, slice_count(p.len() as int)),
        !m0.contains_key(DATAGRAM_ID),
        ds == Seq::new(
            slice_count(p.len() as int) as nat,
            |t: int| fragments_of(p, protocol, src, dst)[order[t]],
        ),
        0 <= k <= slice_count(p.len() as int),
    ensures
        ({
            let n = slice_count(p.len() as int);
            let (m, outs) = deliver_all(m0, ds.subrange(0, k));
            &&& outs.len() == k
            &&& forall|t: int| 0 <= t < k ==> outs[t] == if t == n - 1 {
                Some(p)
            } else {
                None
            }
            &&& k == 0 ==> m == m0
            &&& 0 < k < n ==> m.contains_key(DATAGRAM_ID) && m == m0.insert(
                DATAGRAM_ID,
                m[DATAGRAM_ID],
            ) && partial_state(m[DATAGRAM_ID], p, got_by(order, k))
            &&& k == n ==> m == m0
        }),
    decreases k,
{
    let n = slice_count(p.len() as int);
    if k == 0 {
        assert(ds.subrange(0, 0) =~= Seq::<Seq<u8>>::empty());
    } else {
        lemma_prefix(p, protocol, src, dst, order, m0, ds, k - 1);
        let prev = ds.subrange(0, k - 1);
        assert(ds.subrange(0, k).drop_last() =~= prev);
        let (m1, outs1) = deliver_all(m0, prev);
        let j = order[k - 1];
        assert(0 <= j < n);
        assert(ds.subrange(0, k).last() == fragment_bytes(p, j, protocol, src, dst));
        lemma_parse_fragment(p, j, protocol, src, dst);
        let got = got_by(order, k - 1);
        let s = if m1.contains_key(DATAGRAM_ID) {
            m1[DATAGRAM_ID]
        } else {
            empty_reassembly()
        };
        assert(partial_state(s, p, got)) by {
            if k - 1 == 0 {
                assert(got =~= Set::<int>::empty());
                assert(!m1.contains_key(DATAGRAM_ID));
                assert(s.fragments.len() == 0);
                assert(s.bytes.len() == 0);
            }
            assert forall|j2: int| got.contains(j2) implies 0 <= j2 < n by {
                let t = choose|t: int| 0 <= t < k - 1 && order[t] == j2;
            }
        }
        assert(!got.contains(j)) by {
            if got.contains(j) {
                let t = choose|t: int| 0 <= t < k - 1 && order[t] == j;
                assert(order[t] != order[k - 1]);
            }
        }
        lemma_partial_step(s, p, got, j);
        let t = insert_fragment(s, j * 1400, fragment_payload(p, j), j < n - 1, n == 1);
        let g2 = got.insert(j);
        assert(g2 =~= got_by(order, k));
        lemma_complete_iff_all(t, p, g2);
        if k < n {
            let jl = order[n - 1];
            assert(!g2.contains(jl)) by {
                if g2.contains(jl) {
                    let t2 = choose|t2: int| 0 <= t2 < k && order[t2] == jl;
                    assert(order[t2] != order[n - 1]);
                }
            }
            assert(!is_complete(t));
            assert(m1.insert(DATAGRAM_ID, t) =~= m0.insert(DATAGRAM_ID, t));
        } else {
            assert forall|j2: int| 0 <= j2 < n implies g2.contains(j2) by {
                assert(order.contains(j2));
                let t2 = choose|t2: int| 0 <= t2 < order.len() && order[t2] == j2;
            }
            assert(is_complete(t));
            assert(m1.remove(DATAGRAM_ID) =~= m0);
        }
    }
}

/// The buffer after fragments `order[0]`, ..., `order[k - 1]` of `p` have
/// arrived, each as `create_new` or `insert_data` takes it in.
pub open spec fn insert_in_order(p: Seq<u8>, order: Seq<int>, k: int) -> Reassembly
    decreases k,
{
    if k <= 0 {
        empty_reassembly()
    } else {
        let n = slice_count(p.len() as int);
        let j = order[k - 1];
        insert_fragment(insert_in_order(p, order, k - 1), j * 1400, fragment_payload(p, j), j < n - 1, n == 1)
    }
}

proof fn lemma_insert_prefix(p: Seq<u8>, order: Seq<int>, k: int)
    requires
        p.len() <= MAX_DATAGRAM_LEN,
        is_permutation(order, slice_count(p.len() as int)),
        0 <= k <= slice_count(p.len() as int),
    ensures
        partial_state(insert_in_order(p, order, k), p, got_by(order, k)),
    decreases k,
{
    let n = slice_count(p.len() as int);
    if k == 0 {
        let s = empty_reassembly();
        assert(got_by(order, 0) =~= Set::<int>::empty());
        assert(s.fragments.len() == 0);
        assert(s.bytes.len() == 0);
    } else {
        lemma_insert_prefix(p, order, k - 1);
        let got = got_by(order, k - 1);
        let j = order[k - 1];
        assert(0 <= j < n);
        assert(!got.contains(j)) by {
            if got.contains(j) {
                let t = choose|t: int| 0 <= t < k - 1 && order[t] == j;
                assert(order[t] != order[k - 1]);
            }
        }
        lemma_partial_step(insert_in_order(p, order, k - 1), p, got, j);
        assert(got.insert(j) =~= got_by(order, k));
    }
}

/// Fragments of a payload taken into one buffer in any order: the buffer
/// is complete after the last of them and after no earlier one, and then
/// its run received and its expected length both equal the payload's
/// length and its bytes are the payload.
pub proof fn lemma_insert_in_any_order(p: Seq<u8>, order: Seq<int>)
    requires
        p.len() <= MAX_DATAGRAM_LEN,
        is_permutation(order, slice_count(p.len() as int)),
    ensures
        forall|k: int|
            1 <= k <= slice_count(p.len() as int) ==> (is_complete(
                #[trigger] insert_in_order(p, order, k),
            ) <==> k == slice_count(p.len() as int)),
        insert_in_order(p, order, slice_count(p.len() as int)).received == p.len(),
        insert_in_order(p, order, slice_count(p.len() as int)).total == Some(p.len() as u32),
        insert_in_order(p, order, slice_count(p.len() as int)).bytes.subrange(0, p.len() as int) == p,
{
    let n = slice_count(p.len() as int);
    lemma_slice_bounds(p.len() as int, 0);
    assert forall|k: int| 1 <= k <= n implies (is_complete(#[trigger] insert_in_order(p, order, k))
        <==> k == n) by {
        lemma_insert_prefix(p, order, k);
        let s = insert_in_order(p, order, k);
        let g = got_by(order, k);
        lemma_complete_iff_all(s, p, g);
        if k < n {
            let jl = order[n - 1];
            assert(!g.contains(jl)) by {
                if g.contains(jl) {
                    let t = choose|t: int| 0 <= t < k && order[t] == jl;
                    assert(order[t] != order[n - 1]);
                }
            }
        } else {
            assert forall|j: int| 0 <= j < n implies g.contains(j) by {
                assert(order.contains(j));
                let t = choose|t: int| 0 <= t < order.len() && order[t] == j;
            }
        }
    }
    let s = insert_in_order(p, order, n);
    lemma_insert_prefix(p, order, n);
    assert(is_complete(s));
    lemma_complete_iff_all(s, p, got_by(order, n));
    assert forall|j: int| 0 <= j < n implies got_by(order, n).contains(j) by {
        assert(order.contains(j));
        let t = choose|t: int| 0 <= t < order.len() && order[t] == j;
    }
    lemma_run_reaches_end(s, p, got_by(order, n), 0);
}

} // verus!
