//! The Internet checksum: the ones'-complement sum of 16-bit words, folded
//! to 16 bits and complemented.

use vstd::prelude::*;

verus! {

/// The plain sum of the words.
pub open spec fn word_sum(ws: Seq<u16>) -> int
    decreases ws.len(),
{
    if ws.len() == 0 {
        0
    } else {
        word_sum(ws.drop_last()) + ws.last()
    }
}

/// A sum with its carries folded back in until it fits in 16 bits: the
/// ones'-complement sum. Folding keeps the value modulo 0xFFFF and never
/// turns a non-zero sum into zero.
pub open spec fn fold_carries(s: int) -> int {
    if s == 0 {
        0
    } else {
        (s - 1) % 65535 + 1
    }
}

/// The checksum of a sequence of words.
pub open spec fn ones_complement_checksum(ws: Seq<u16>) -> u16 {
    (65535 - fold_carries(word_sum(ws))) as u16
}

proof fn lemma_word_sum_bounds(ws: Seq<u16>)
    ensures
        0 <= word_sum(ws) <= 65535 * ws.len(),
    decreases ws.len(),
{
    if ws.len() > 0 {
        lemma_word_sum_bounds(ws.drop_last());
    }
}

proof fn lemma_word_sum_update(ws: Seq<u16>, k: int, v: u16)
    requires
        0 <= k < ws.len(),
    ensures
        word_sum(ws.update(k, v)) == word_sum(ws) - ws[k] + v,
    decreases ws.len(),
{
    let us = ws.update(k, v);
    if k == ws.len() - 1 {
        assert(us.drop_last() =~= ws.drop_last());
    } else {
        assert(us.drop_last() =~= ws.drop_last().update(k, v));
        lemma_word_sum_update(ws.drop_last(), k, v);
    }
}

/// Computes the checksum of `words`.
pub fn checksum(words: &Vec<u16>) -> (r: u16)
    requires
        words.len() <= 65536,
    ensures
        r == ones_complement_checksum(words@),
{
    let mut sum: u32 = 0;
    let mut i: usize = 0;
    while i < words.len()
        invariant
            i <= words.len() <= 65536,
            sum == word_sum(words@.subrange(0, i as int)),
            sum <= 65535 * i,
        decreases words.len() - i,
    {
        proof {
            assert(words@.subrange(0, i + 1).drop_last() =~= words@.subrange(0, i as int));
            assert(65535 * i + 65535 <= 65535 * 65536) by (nonlinear_arith)
                requires
                    i < 65536,
            ;
            assert(65535 * (i + 1) == 65535 * i + 65535) by (nonlinear_arith);
        }
        sum = sum + words[i] as u32;
        i = i + 1;
    }
    assert(words@.subrange(0, i as int) =~= words@);
    let ghost total = sum as int;
    while (sum >> 16) > 0
        invariant
            fold_carries(sum as int) == fold_carries(total),
        decreases sum,
    {
        let lo = sum & 0xFFFF;
        let hi = sum >> 16;
        assert(lo + hi * 65536 == sum && lo < 65536 && hi > 0 ==> lo + hi < sum) by (bit_vector)
            requires
                lo == sum & 0xFFFFu32,
                hi == sum >> 16u32,
        ;
        assert(lo + hi * 65536 == sum) by (bit_vector)
            requires
                lo == sum & 0xFFFFu32,
                hi == sum >> 16u32,
        ;
        proof {
            let s = sum as int;
            let t = (lo + hi) as int;
            assert(s - t == 65535 * hi) by (nonlinear_arith)
                requires
                    lo + hi * 65536 == s,
                    t == lo + hi,
            ;
            assert((s - 1) % 65535 == (t - 1) % 65535) by (nonlinear_arith)
                requires
                    s - t == 65535 * hi,
                    t >= 1,
            ;
        }
        sum = lo + hi;
    }
    proof {
        assert((sum >> 16u32) == 0 ==> sum <= 65535) by (bit_vector);
        if sum > 0 {
            assert((sum - 1) % 65535 == sum - 1);
        }
    }
    (65535 - sum) as u16
}

/// Writing the checksum of a header whose checksum word is zero into that
/// word makes the ones'-complement sum of the header 0xFFFF: the identity a
/// receiver checks.
pub proof fn lemma_checksum_verifies(ws: Seq<u16>, k: int)
    requires
        0 <= k < ws.len(),
        ws[k] == 0,
    ensures
        fold_carries(word_sum(ws.update(k, ones_complement_checksum(ws)))) == 65535,
{
    let c = ones_complement_checksum(ws);
    let s = word_sum(ws);
    lemma_word_sum_update(ws, k, c);
    lemma_word_sum_bounds(ws);
    if s == 0 {
        assert(c == 65535);
    } else {
        let f = (s - 1) % 65535 + 1;
        assert(1 <= f <= 65535);
        assert(c == 65535 - f);
        let t = s + 65535 - f;
        assert(t >= 1);
        assert((t - 1) % 65535 == 65534) by (nonlinear_arith)
            requires
                f == (s - 1) % 65535 + 1,
                t == s + 65535 - f,
                s >= 1,
        ;
    }
}

} // verus!
