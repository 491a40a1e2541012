//! The IPv4 header: its fields, its 16-bit words, its checksum and its wire
//! bytes.

use vstd::prelude::*;
use crate::checksum::{checksum, fold_carries, lemma_checksum_verifies, ones_complement_checksum, word_sum};

verus! {

/// Upper-protocol code of TCP.
pub const TCP_PROTOCOL: u8 = 6;

/// Upper-protocol code of UDP.
pub const UDP_PROTOCOL: u8 = 17;

/// Upper-protocol code of ICMPv4.
pub const ICMPV4_PROTOCOL: u8 = 1;

/// Upper-protocol code of IGMPv4.
pub const IGMPV4_PROTOCOL: u8 = 2;

/// Length of the header on the wire: 20 fixed bytes and a 40-byte options
/// area.
pub const IP_HEADER_LEN: usize = 60;

/// The Don't-Fragment flag of the flags-and-offset word.
pub const DONT_FRAGMENT: u16 = 0x4000;

/// The More-Fragments flag of the flags-and-offset word.
pub const MORE_FRAGMENTS: u16 = 0x2000;

/// The fragment-offset bits of the flags-and-offset word (in 8-byte units).
pub const FRAGMENT_OFFSET_MASK: u16 = 0x1FFF;

/// An IPv4 header with a 40-byte options area.
#[derive(Clone, Copy)]
pub struct IpHeader {
    /// Version (high nibble) and header length in 4-byte units (low nibble).
    pub version_and_hdrlen: u8,
    pub type_of_service: u8,
    /// Length of header and payload in bytes.
    pub total_length: u16,
    /// Identification, shared by the fragments of one datagram.
    pub id: u16,
    /// Reserved, Don't-Fragment and More-Fragments flags, then the 13-bit
    /// fragment offset in 8-byte units.
    pub flags_and_fragment_offset: u16,
    pub time_to_live: u8,
    /// The upper protocol (TCP = 6, UDP = 17, ICMPv4 = 1, IGMPv4 = 2).
    pub upper_protocol_type: u8,
    pub check_sum: u16,
    pub source_ip: u32,
    pub destination_ip: u32,
    pub optional: [u8; 40],
}

/// The big-endian word of two bytes.
pub open spec fn pair_word(hi: u8, lo: u8) -> u16 {
    ((hi as u16) * 256 + lo as u16) as u16
}

/// The header as 30 big-endian 16-bit words.
pub open spec fn header_words(h: IpHeader) -> Seq<u16> {
    seq![
        pair_word(h.version_and_hdrlen, h.type_of_service),
        h.total_length,
        h.id,
        h.flags_and_fragment_offset,
        pair_word(h.time_to_live, h.upper_protocol_type),
        h.check_sum,
        (h.source_ip / 65536) as u16,
        (h.source_ip % 65536) as u16,
        (h.destination_ip / 65536) as u16,
        (h.destination_ip % 65536) as u16,
    ] + Seq::new(20, |i: int| pair_word(h.optional@[2 * i], h.optional@[2 * i + 1]))
}

/// The header with another checksum field.
pub open spec fn with_check_sum(h: IpHeader, c: u16) -> IpHeader {
    IpHeader { check_sum: c, ..h }
}

/// The checksum that belongs in `h`: that of its words with the checksum
/// field zero.
pub open spec fn header_checksum(h: IpHeader) -> u16 {
    ones_complement_checksum(header_words(with_check_sum(h, 0)))
}

/// Two bytes, most significant first.
pub open spec fn word_bytes(w: u16) -> Seq<u8> {
    seq![(w / 256) as u8, (w % 256) as u8]
}

/// Words laid out as big-endian bytes.
pub open spec fn words_to_bytes(ws: Seq<u16>) -> Seq<u8>
    decreases ws.len(),
{
    if ws.len() == 0 {
        Seq::empty()
    } else {
        words_to_bytes(ws.drop_last()) + word_bytes(ws.last())
    }
}

/// The big-endian 16-bit value at `i`.
pub open spec fn be16(b: Seq<u8>, i: int) -> u16 {
    pair_word(b[i], b[i + 1])
}

/// The big-endian 32-bit value at `i`.
pub open spec fn be32(b: Seq<u8>, i: int) -> u32 {
    (b[i] as int * 16777216 + b[i + 1] as int * 65536 + b[i + 2] as int * 256 + b[i + 3] as int) as u32
}

/// What a header read from the first 60 bytes of `b` holds.
pub open spec fn parsed_from(h: IpHeader, b: Seq<u8>) -> bool {
    &&& h.version_and_hdrlen == b[0]
    &&& h.type_of_service == b[1]
    &&& h.total_length == be16(b, 2)
    &&& h.id == be16(b, 4)
    &&& h.flags_and_fragment_offset == be16(b, 6)
    &&& h.time_to_live == b[8]
    &&& h.upper_protocol_type == b[9]
    &&& h.check_sum == be16(b, 10)
    &&& h.source_ip == be32(b, 12)
    &&& h.destination_ip == be32(b, 16)
    &&& h.optional@ == b.subrange(20, 60)
}

proof fn lemma_pair_word(hi: u8, lo: u8)
    ensures
        pair_word(hi, lo) == ((hi as u16) << 8u16) | (lo as u16),
{
    assert(((hi as u16) * 256 + lo as u16) as u16 == ((hi as u16) << 8u16) | (lo as u16))
        by (bit_vector);
}

/// The word of two bytes is `0x0800` or `0x0806` exactly when its bytes
/// say so.
pub proof fn lemma_be16(hi: u8, lo: u8)
    ensures
        (pair_word(hi, lo) == 0x0800) == (hi == 0x08 && lo == 0x00),
        (pair_word(hi, lo) == 0x0806) == (hi == 0x08 && lo == 0x06),
{
}

/// The word `w` of two bytes taken back apart.
pub proof fn lemma_word_bytes(w: u16)
    ensures
        pair_word((w / 256) as u8, (w % 256) as u8) == w,
        (w / 256) as u8 == (w >> 8u16) as u8,
        (w % 256) as u8 == (w & 0xFFu16) as u8,
{
    assert((((w / 256) as u8 as u16) * 256 + (w % 256) as u8 as u16) as u16 == w) by (bit_vector);
    assert(w / 256 == w >> 8u16) by (bit_vector);
    assert(w % 256 == w & 0xFFu16) by (bit_vector);
}

pub proof fn lemma_words_to_bytes(ws: Seq<u16>)
    ensures
        words_to_bytes(ws).len() == 2 * ws.len(),
        forall|i: int|
            0 <= i < ws.len() ==> {
                &&& #[trigger] words_to_bytes(ws)[2 * i] == (ws[i] / 256) as u8
                &&& words_to_bytes(ws)[2 * i + 1] == (ws[i] % 256) as u8
            },
    decreases ws.len(),
{
    if ws.len() > 0 {
        lemma_words_to_bytes(ws.drop_last());
        assert forall|i: int| 0 <= i < ws.len() implies {
            &&& #[trigger] words_to_bytes(ws)[2 * i] == (ws[i] / 256) as u8
            &&& words_to_bytes(ws)[2 * i + 1] == (ws[i] % 256) as u8
        } by {
            let prev = words_to_bytes(ws.drop_last());
            let all = words_to_bytes(ws);
            assert(all == prev + word_bytes(ws.last()));
            if i < ws.len() - 1 {
                assert(ws.drop_last()[i] == ws[i]);
                assert(all[2 * i] == prev[2 * i]);
                assert(all[2 * i + 1] == prev[2 * i + 1]);
            } else {
                assert(all[2 * i] == word_bytes(ws.last())[0]);
                assert(all[2 * i + 1] == word_bytes(ws.last())[1]);
            }
        }
    }
}

/// Packs four bytes into a big-endian IPv4 address.
pub fn ip_from_u8(a: u8, b: u8, c: u8, d: u8) -> (r: u32)
    ensures
        r as int == a as int * 16777216 + b as int * 65536 + c as int * 256 + d as int,
{
    let r = (a as u32) << 24 | (b as u32) << 16 | (c as u32) << 8 | (d as u32);
    assert(r as int == a as int * 16777216 + b as int * 65536 + c as int * 256 + d as int)
        by (bit_vector)
        requires
            r == (a as u32) << 24u32 | (b as u32) << 16u32 | (c as u32) << 8u32 | (d as u32),
    ;
    r
}

/// The big-endian value of an address written as four bytes.
pub open spec fn ip_value(a: [u8; 4]) -> u32 {
    be32(a@, 0)
}

/// Lays out words as big-endian bytes.
pub fn u8_from_u16(u16_array: &Vec<u16>) -> (r: Vec<u8>)
    requires
        u16_array.len() <= usize::MAX / 2,
    ensures
        r@ == words_to_bytes(u16_array@),
{
    let mut u8_array: Vec<u8> = Vec::new();
    let mut i: usize = 0;
    while i < u16_array.len()
        invariant
            i <= u16_array.len() <= usize::MAX / 2,
            u8_array@ == words_to_bytes(u16_array@.subrange(0, i as int)),
        decreases u16_array.len() - i,
    {
        let w = u16_array[i];
        proof {
            lemma_word_bytes(w);
            assert(u16_array@.subrange(0, i + 1).drop_last() =~= u16_array@.subrange(0, i as int));
        }
        u8_array.push(((w & 0xff00) >> 8) as u8);
        u8_array.push((w & 0x00ff) as u8);
        proof {
            assert((w & 0xff00u16) >> 8u16 == w >> 8u16) by (bit_vector);
            assert(u8_array@ =~= words_to_bytes(u16_array@.subrange(0, i + 1)));
        }
        i = i + 1;
    }
    assert(u16_array@.subrange(0, i as int) =~= u16_array@);
    u8_array
}

impl IpHeader {
    /// The header as 30 big-endian words, for the checksum and for the wire.
    pub fn into_u16_array(&self) -> (r: Vec<u16>)
        ensures
            r@ == header_words(*self),
    {
        let mut result: Vec<u16> = Vec::new();
        proof {
            lemma_pair_word(self.version_and_hdrlen, self.type_of_service);
            lemma_pair_word(self.time_to_live, self.upper_protocol_type);
        }
        result.push((self.version_and_hdrlen as u16) << 8 | self.type_of_service as u16);
        result.push(self.total_length);
        result.push(self.id);
        result.push(self.flags_and_fragment_offset);
        result.push((self.time_to_live as u16) << 8 | self.upper_protocol_type as u16);
        result.push(self.check_sum);
        result.push((self.source_ip >> 16) as u16);
        result.push((self.source_ip & 0xffff) as u16);
        result.push((self.destination_ip >> 16) as u16);
        result.push((self.destination_ip & 0xffff) as u16);
        proof {
            let s = self.source_ip;
            let d = self.destination_ip;
            assert(s >> 16u32 == s / 65536 && s & 0xffffu32 == s % 65536) by (bit_vector);
            assert(d >> 16u32 == d / 65536 && d & 0xffffu32 == d % 65536) by (bit_vector);
        }
        let ghost head = result@;
        let mut i: usize = 0;
        while i < 20
            invariant
                i <= 20,
                head.len() == 10,
                result@ == head + Seq::new(
                    i as nat,
                    |k: int| pair_word(self.optional@[2 * k], self.optional@[2 * k + 1]),
                ),
            decreases 20 - i,
        {
            proof {
                lemma_pair_word(self.optional[2 * i], self.optional[2 * i + 1]);
            }
            result.push((self.optional[2 * i] as u16) << 8 | self.optional[2 * i + 1] as u16);
            i = i + 1;
            assert(result@ =~= head + Seq::new(
                i as nat,
                |k: int| pair_word(self.optional@[2 * k], self.optional@[2 * k + 1]),
            ));
        }
        assert(result@ =~= header_words(*self));
        result
    }

    /// A header with the given fields and its checksum computed.
    pub fn new(
        in_version_and_hdrlen: u8,
        in_type_of_service: u8,
        in_total_length: u16,
        in_id: u16,
        in_flags_and_fragment_offset: u16,
        in_time_to_live: u8,
        in_upper_protocol_type: u8,
        in_source_ip: u32,
        in_destination_ip: u32,
        in_optional: [u8; 40],
    ) -> (r: IpHeader)
        ensures
            r.version_and_hdrlen == in_version_and_hdrlen,
            r.type_of_service == in_type_of_service,
            r.total_length == in_total_length,
            r.id == in_id,
            r.flags_and_fragment_offset == in_flags_and_fragment_offset,
            r.time_to_live == in_time_to_live,
            r.upper_protocol_type == in_upper_protocol_type,
            r.source_ip == in_source_ip,
            r.destination_ip == in_destination_ip,
            r.optional == in_optional,
            r.check_sum == header_checksum(r),
            fold_carries(word_sum(header_words(r))) == 65535,
    {
        let mut hdr = IpHeader {
            version_and_hdrlen: in_version_and_hdrlen,
            type_of_service: in_type_of_service,
            total_length: in_total_length,
            id: in_id,
            flags_and_fragment_offset: in_flags_and_fragment_offset,
            time_to_live: in_time_to_live,
            upper_protocol_type: in_upper_protocol_type,
            check_sum: 0x0000,
            source_ip: in_source_ip,
            destination_ip: in_destination_ip,
            optional: in_optional,
        };
        let ghost h0 = hdr;
        hdr.check_sum = calculate_check_sum(&hdr);
        proof {
            lemma_header_checksum_verifies(h0);
            assert(with_check_sum(hdr, 0) == h0);
            assert(hdr == with_check_sum(h0, header_checksum(h0)));
        }
        hdr
    }

    /// Reads a header from the first 60 bytes of `buffer`.
    pub fn from_u8(buffer: &Vec<u8>) -> (r: IpHeader)
        requires
            buffer.len() >= IP_HEADER_LEN,
        ensures
            parsed_from(r, buffer@),
    {
        let mut optional: [u8; 40] = [0; 40];
        let mut i: usize = 0;
        while i < 40
            invariant
                i <= 40,
                buffer.len() >= 60,
                forall|k: int| 0 <= k < i ==> optional@[k] == buffer@[20 + k],
            decreases 40 - i,
        {
            optional[i] = buffer[20 + i];
            i = i + 1;
        }
        assert(optional@ =~= buffer@.subrange(20, 60));
        let b = buffer;
        let r = IpHeader {
            version_and_hdrlen: b[0],
            type_of_service: b[1],
            total_length: (b[2] as u16) << 8 | b[3] as u16,
            id: (b[4] as u16) << 8 | b[5] as u16,
            flags_and_fragment_offset: (b[6] as u16) << 8 | b[7] as u16,
            time_to_live: b[8],
            upper_protocol_type: b[9],
            check_sum: (b[10] as u16) << 8 | b[11] as u16,
            source_ip: ip_from_u8(b[12], b[13], b[14], b[15]),
            destination_ip: ip_from_u8(b[16], b[17], b[18], b[19]),
            optional: optional,
        };
        proof {
            lemma_pair_word(b@[2], b@[3]);
            lemma_pair_word(b@[4], b@[5]);
            lemma_pair_word(b@[6], b@[7]);
            lemma_pair_word(b@[10], b@[11]);
        }
        r
    }
}

/// Computes the checksum over the header's words as they stand, its own
/// checksum field included (zero it first to get the value to write there).
pub fn calculate_check_sum(ip_hdr: &IpHeader) -> (r: u16)
    ensures
        r == ones_complement_checksum(header_words(*ip_hdr)),
{
    let hdr = ip_hdr.into_u16_array();
    checksum(&hdr)
}

/// A header whose checksum field holds the checksum computed with that field
/// zero sums, in ones' complement, to 0xFFFF.
pub proof fn lemma_header_checksum_verifies(h: IpHeader)
    requires
        h.check_sum == 0,
    ensures
        fold_carries(word_sum(header_words(with_check_sum(h, header_checksum(h))))) == 65535,
{
    assert(with_check_sum(h, 0) == h);
    let c = header_checksum(h);
    assert(header_words(with_check_sum(h, c)) =~= header_words(h).update(5, c));
    lemma_checksum_verifies(header_words(h), 5);
}

} // verus!
