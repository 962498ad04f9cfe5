//! Bit-level reasoning about `u128` words used as packed cell sets.
use vstd::prelude::*;

verus! {

/// Bit `i` of `v` (false outside `0..128`).
pub open spec fn bit(v: u128, i: int) -> bool {
    0 <= i < 128 && (v >> (i as u128)) & 1u128 == 1u128
}

/// No bit of `v` at position `n` or above is set.
pub open spec fn fits(v: u128, n: int) -> bool {
    forall|i: int| n <= i ==> !#[trigger] bit(v, i)
}

pub proof fn lemma_bit_or(a: u128, b: u128, i: int)
    ensures
        bit(a | b, i) == (bit(a, i) || bit(b, i)),
{
    if 0 <= i < 128 {
        let iu = i as u128;
        assert(((a | b) >> iu) & 1u128 == 1u128 <==> ((a >> iu) & 1u128 == 1u128 || (b >> iu)
            & 1u128 == 1u128)) by (bit_vector)
            requires
                iu < 128,
        ;
    }
}

pub proof fn lemma_bit_and(a: u128, b: u128, i: int)
    ensures
        bit(a & b, i) == (bit(a, i) && bit(b, i)),
{
    if 0 <= i < 128 {
        let iu = i as u128;
        assert(((a & b) >> iu) & 1u128 == 1u128 <==> ((a >> iu) & 1u128 == 1u128 && (b >> iu)
            & 1u128 == 1u128)) by (bit_vector)
            requires
                iu < 128,
        ;
    }
}

pub proof fn lemma_bit_shl(a: u128, s: u128, i: int)
    requires
        s < 128,
    ensures
        bit(a << s, i) == (s <= i < 128 && bit(a, i - s)),
{
    if 0 <= i < 128 {
        let iu = i as u128;
        if s <= iu {
            let j = (i - s) as u128;
            assert(((a << s) >> iu) & 1u128 == 1u128 <==> (a >> j) & 1u128 == 1u128) by (bit_vector)
                requires
                    iu < 128,
                    s < 128,
                    j + s == iu,
            ;
        } else {
            assert(((a << s) >> iu) & 1u128 == 0u128) by (bit_vector)
                requires
                    iu < s,
                    s < 128,
            ;
        }
    }
}

pub proof fn lemma_bit_shr(a: u128, s: u128, i: int)
    requires
        s < 128,
    ensures
        bit(a >> s, i) == (0 <= i && bit(a, i + s)),
{
    if 0 <= i < 128 {
        let iu = i as u128;
        if i + s < 128 {
            let j = (i + s) as u128;
            assert(((a >> s) >> iu) & 1u128 == 1u128 <==> (a >> j) & 1u128 == 1u128) by (bit_vector)
                requires
                    iu < 128,
                    s < 128,
                    j == iu + s,
                    j < 128,
            ;
        } else {
            assert(((a >> s) >> iu) & 1u128 == 0u128) by (bit_vector)
                requires
                    iu < 128,
                    s < 128,
                    iu + s >= 128,
            ;
        }
    }
}

/// Bits of the mask `(1 << n) - 1`.
pub proof fn lemma_bit_mask(n: u128, i: int)
    requires
        n < 128,
    ensures
        (1u128 << n) >= 1,
        bit(((1u128 << n) - 1) as u128, i) == (0 <= i < n),
{
    assert((1u128 << n) >= 1) by (bit_vector)
        requires
            n < 128,
    ;
    if 0 <= i < 128 {
        let iu = i as u128;
        assert(((((1u128 << n) - 1) as u128) >> iu) & 1u128 == 1u128 <==> iu < n) by (bit_vector)
            requires
                iu < 128,
                n < 128,
        ;
    }
}

pub proof fn lemma_bit_zero(i: int)
    ensures
        !bit(0u128, i),
{
    if 0 <= i < 128 {
        let iu = i as u128;
        assert((0u128 >> iu) & 1u128 == 0u128) by (bit_vector);
    }
}

proof fn lemma_ext_from(a: u128, b: u128, k: u128)
    requires
        k < 128,
        forall|i: int| 0 <= i < 128 ==> bit(a, i) == bit(b, i),
    ensures
        a >> k == b >> k,
    decreases 127 - k,
{
    assert(bit(a, k as int) == bit(b, k as int));
    if k == 127 {
        assert(a >> 127u128 == (a >> 127u128) & 1u128) by (bit_vector);
        assert(b >> 127u128 == (b >> 127u128) & 1u128) by (bit_vector);
        assert(((a >> 127u128) & 1u128 == 1u128) || ((a >> 127u128) & 1u128 == 0u128)) by (bit_vector);
        assert(((b >> 127u128) & 1u128 == 1u128) || ((b >> 127u128) & 1u128 == 0u128)) by (bit_vector);
    } else {
        lemma_ext_from(a, b, (k + 1) as u128);
        let k1 = (k + 1) as u128;
        assert(a >> k == (((a >> k1) << 1u128) | ((a >> k) & 1u128))) by (bit_vector)
            requires
                k < 127,
                k1 == k + 1,
        ;
        assert(b >> k == (((b >> k1) << 1u128) | ((b >> k) & 1u128))) by (bit_vector)
            requires
                k < 127,
                k1 == k + 1,
        ;
        assert(((a >> k) & 1u128 == 1u128) || ((a >> k) & 1u128 == 0u128)) by (bit_vector);
        assert(((b >> k) & 1u128 == 1u128) || ((b >> k) & 1u128 == 0u128)) by (bit_vector);
    }
}

/// Two words with the same bits are equal.
pub proof fn lemma_bits_ext(a: u128, b: u128)
    requires
        forall|i: int| 0 <= i < 128 ==> bit(a, i) == bit(b, i),
    ensures
        a == b,
{
    lemma_ext_from(a, b, 0);
    assert(a >> 0u128 == a) by (bit_vector);
    assert(b >> 0u128 == b) by (bit_vector);
}

/// `v >> n == 0` says exactly that no bit at `n` or above is set.
pub proof fn lemma_fits_shr(v: u128, n: u128)
    requires
        n < 128,
    ensures
        fits(v, n as int) <==> (v >> n) == 0,
{
    if fits(v, n as int) {
        assert forall|i: int| 0 <= i < 128 implies bit(v >> n, i) == bit(0u128, i) by {
            lemma_bit_shr(v, n, i);
            lemma_bit_zero(i);
        }
        lemma_bits_ext(v >> n, 0u128);
    }
    if (v >> n) == 0 {
        assert forall|i: int| n <= i implies !#[trigger] bit(v, i) by {
            lemma_bit_shr(v, n, i - n);
            lemma_bit_zero(i - n);
        }
    }
}

} // verus!
