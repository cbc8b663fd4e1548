//! Bit-level vocabulary shared by the trie and its contracts.

use vstd::prelude::*;

verus! {

/// The word with exactly the `n` lowest bits set (all of them for `n >= 64`).
pub open spec fn low_mask(n: u64) -> u64 {
    if n >= 64 {
        0xffff_ffff_ffff_ffffu64
    } else {
        !(0xffff_ffff_ffff_ffffu64 << n)
    }
}

/// `c` has no bit set at position `width` or above.
pub open spec fn fits(c: u64, width: u64) -> bool {
    c & low_mask(width) == c
}

/// Bit `p` of `c`, counted from the least significant bit.
pub open spec fn bit(c: u64, p: u64) -> bool {
    (c >> p) & 1 == 1
}

/// `a` and `b` have the same bits at every position below `n`.
pub open spec fn agree_below(a: u64, b: u64, n: u64) -> bool {
    a & low_mask(n) == b & low_mask(n)
}

/// A search for `word` reaches code `a` before code `b`: at the lowest
/// position where the two codes differ, `a` has the bit that `word` has.
pub open spec fn prefers(word: u64, a: u64, b: u64) -> bool {
    exists|p: u64|
        p < 64 && #[trigger] agree_below(a, b, p) && bit(a, p) != bit(b, p) && bit(a, p) == bit(
            word,
            p,
        )
}

/// Below position 0 any two codes agree.
pub proof fn lemma_agree_zero(a: u64, b: u64)
    ensures
        agree_below(a, b, 0),
{
    assert(a & !(0xffff_ffff_ffff_ffffu64 << 0u64) == b & !(0xffff_ffff_ffff_ffffu64 << 0u64))
        by (bit_vector);
}

/// Codes that agree below `n` and at `n` agree below `n + 1`.
pub proof fn lemma_agree_step(a: u64, b: u64, n: u64)
    requires
        n < 64,
        agree_below(a, b, n),
        bit(a, n) == bit(b, n),
    ensures
        agree_below(a, b, (n + 1) as u64),
{
    let m: u64 = (n + 1) as u64;
    if m < 64 {
        assert(a & !(0xffff_ffff_ffff_ffffu64 << m) == b & !(0xffff_ffff_ffff_ffffu64 << m)) by (bit_vector)
            requires
                n < 63,
                m == n + 1,
                a & !(0xffff_ffff_ffff_ffffu64 << n) == b & !(0xffff_ffff_ffff_ffffu64 << n),
                ((a >> n) & 1 == 1) == ((b >> n) & 1 == 1),
        ;
    } else {
        assert(a & 0xffff_ffff_ffff_ffffu64 == b & 0xffff_ffff_ffff_ffffu64) by (bit_vector)
            requires
                n == 63,
                a & !(0xffff_ffff_ffff_ffffu64 << n) == b & !(0xffff_ffff_ffff_ffffu64 << n),
                ((a >> n) & 1 == 1) == ((b >> n) & 1 == 1),
        ;
    }
}

/// Codes that agree below `n` have the same bit at every position below `n`.
pub proof fn lemma_agree_bit(a: u64, b: u64, n: u64, p: u64)
    requires
        agree_below(a, b, n),
        p < n,
        p < 64,
    ensures
        bit(a, p) == bit(b, p),
{
    if n < 64 {
        assert(((a >> p) & 1 == 1) == ((b >> p) & 1 == 1)) by (bit_vector)
            requires
                p < n,
                n < 64,
                a & !(0xffff_ffff_ffff_ffffu64 << n) == b & !(0xffff_ffff_ffff_ffffu64 << n),
        ;
    } else {
        assert(a == b) by (bit_vector)
            requires
                a & 0xffff_ffff_ffff_ffffu64 == b & 0xffff_ffff_ffff_ffffu64,
        ;
    }
}

/// Of two distinct codes at most one is reached before the other.
pub proof fn lemma_prefers_one_way(word: u64, a: u64, b: u64)
    requires
        prefers(word, a, b),
    ensures
        !prefers(word, b, a),
{
    if prefers(word, b, a) {
        let p = choose|p: u64|
            p < 64 && #[trigger] agree_below(a, b, p) && bit(a, p) != bit(b, p) && bit(a, p) == bit(
                word,
                p,
            );
        let q = choose|q: u64|
            q < 64 && #[trigger] agree_below(b, a, q) && bit(b, q) != bit(a, q) && bit(b, q) == bit(
                word,
                q,
            );
        if p < q {
            lemma_agree_bit(b, a, q, p);
        } else if q < p {
            lemma_agree_bit(a, b, p, q);
        }
    }
}

/// Two distinct codes differ at a lowest position, so a search for the
/// first of them reaches it before the second.
pub proof fn lemma_prefers_self(a: u64, b: u64, n: u64)
    requires
        a != b,
        n <= 64,
        agree_below(a, b, n),
    ensures
        prefers(a, a, b),
    decreases 64 - n,
{
    if n == 64 {
        assert(a == b) by (bit_vector)
            requires
                a & 0xffff_ffff_ffff_ffffu64 == b & 0xffff_ffff_ffff_ffffu64,
        ;
    } else if bit(a, n) != bit(b, n) {
        assert(n < 64 && agree_below(a, b, n) && bit(a, n) != bit(b, n) && bit(a, n) == bit(a, n));
    } else {
        lemma_agree_step(a, b, n);
        lemma_prefers_self(a, b, (n + 1) as u64);
    }
}

/// Tests whether `c` has no bit at position `width` or above.
pub fn fits_in(c: u64, width: u64) -> (r: bool)
    ensures
        r == fits(c, width),
{
    if width >= 64 {
        assert(c & 0xffff_ffff_ffff_ffffu64 == c) by (bit_vector);
        true
    } else {
        assert((c >> width == 0) == (c & !(0xffff_ffff_ffff_ffffu64 << width) == c)) by (bit_vector)
            requires
                width < 64,
        ;
        c >> width == 0
    }
}

} // verus!
