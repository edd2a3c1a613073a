//! Splitting a 128-bit hash into a register index and a rank.

use vstd::prelude::*;
use vstd::arithmetic::power2::{
    pow2, lemma_pow2_adds, lemma_pow2_pos, lemma_pow2_unfold, lemma_pow2_strictly_increases,
    lemma2_to64,
};
use vstd::arithmetic::div_mod::{lemma_div_denominator, lemma_fundamental_div_mod, lemma_mod_bound};
use vstd::bits::lemma_u128_shr_is_div;
use vstd::std_specs::bits::u64_leading_zeros;

verus! {

/// Number of bits in a hash value.
pub const HASH_BITS: u8 = 128;

/// Smallest accepted number of index bits.
pub const MIN_PRECISION: u8 = 1;

/// Largest accepted number of index bits: 65536 registers.
pub const MAX_PRECISION: u8 = 16;

/// Whether `precision` index bits give a usable register file.
pub open spec fn valid_precision(precision: u8) -> bool {
    MIN_PRECISION <= precision <= MAX_PRECISION
}

/// Number of binary digits of `w`: zero for zero, otherwise the position of
/// the highest set bit counted from one.
pub open spec fn bit_length(w: nat) -> nat
    decreases w,
{
    if w == 0 {
        0
    } else {
        1 + bit_length(w / 2)
    }
}

/// A number has at most `n` binary digits exactly when it is below `2^n`.
pub proof fn lemma_bit_length_bound(w: nat, n: nat)
    ensures
        bit_length(w) <= n <==> w < pow2(n),
    decreases n,
{
    lemma_pow2_pos(n);
    if n == 0 {
        lemma2_to64();
    } else {
        lemma_pow2_unfold(n);
        if w != 0 {
            lemma_bit_length_bound(w / 2, (n - 1) as nat);
        }
    }
}

/// Rank of a residual `w` in a field of `width` bits: the number of leading
/// zero bits of the field, plus one.
pub open spec fn rank(w: nat, width: nat) -> nat {
    (width - bit_length(w) + 1) as nat
}

/// The register index of hash `h`: its top `precision` bits.
pub open spec fn index_of(h: u128, precision: u8) -> nat {
    h as nat / pow2((HASH_BITS - precision) as nat)
}

/// The residual of hash `h`: its low `128 - precision` bits.
pub open spec fn residual_of(h: u128, precision: u8) -> nat {
    h as nat % pow2((HASH_BITS - precision) as nat)
}

/// The rank that hash `h` reports to its register.
pub open spec fn rank_of(h: u128, precision: u8) -> nat {
    rank(residual_of(h, precision), (HASH_BITS - precision) as nat)
}

/// Largest rank a hash can report at `precision`: the field width plus one,
/// reported by a residual of zero.
pub open spec fn max_rank(precision: u8) -> nat {
    (HASH_BITS - precision + 1) as nat
}

/// The rank of a residual lies between one and the field width plus one.
pub proof fn lemma_rank_range(w: nat, width: nat)
    requires
        w < pow2(width),
    ensures
        1 <= rank(w, width) <= width + 1,
        rank(w, width) == width + 1 <==> w == 0,
{
    lemma_bit_length_bound(w, width);
}

/// Every hash selects one of the `2^precision` registers and reports a rank
/// between one and the largest rank.
pub proof fn lemma_split_in_range(precision: u8, h: u128)
    requires
        valid_precision(precision),
    ensures
        index_of(h, precision) < pow2(precision as nat),
        residual_of(h, precision) < pow2((HASH_BITS - precision) as nat),
        1 <= rank_of(h, precision) <= max_rank(precision),
        max_rank(precision) <= 128,
{
    let w = (HASH_BITS - precision) as nat;
    let top = index_of(h, precision);
    lemma_pow2_pos(w);
    lemma2_to64();
    lemma_pow2_adds(64, 64);
    lemma_pow2_adds(precision as nat, w);
    lemma_fundamental_div_mod(h as int, pow2(w) as int);
    lemma_mod_bound(h as int, pow2(w) as int);
    assert(top < pow2(precision as nat)) by (nonlinear_arith)
        requires
            h < pow2(precision as nat) * pow2(w),
            h == pow2(w) * top + (h as nat % pow2(w)),
            0 <= h as nat % pow2(w),
            pow2(w) > 0,
    ;
    lemma_rank_range(residual_of(h, precision), w);
}

proof fn lemma_shl_one(n: u128)
    requires
        n < 128,
    ensures
        (1u128 << n) == pow2(n as nat),
    decreases n,
{
    if n == 0 {
        assert(1u128 << 0u128 == 1u128) by (bit_vector);
        lemma2_to64();
    } else {
        let m = (n - 1) as u128;
        lemma_shl_one(m);
        assert((1u128 << n) == 2 * (1u128 << m)) by (bit_vector)
            requires
                0 < n < 128,
                m == n - 1,
        ;
        lemma_pow2_unfold(n as nat);
    }
}

proof fn lemma_leading_zeros_u64(x: u64)
    ensures
        u64_leading_zeros(x) == 64 - bit_length(x as nat),
    decreases x,
{
    reveal(u64_leading_zeros);
    if x != 0 {
        lemma_leading_zeros_u64(x / 2);
    }
}

proof fn lemma_bit_length_shift(w: nat, n: nat)
    requires
        w >= pow2(n),
    ensures
        bit_length(w) == n + bit_length(w / pow2(n)),
    decreases n,
{
    lemma_pow2_pos(n);
    if n == 0 {
        lemma2_to64();
        assert(w / 1 == w);
    } else {
        let half = pow2((n - 1) as nat);
        lemma_pow2_unfold(n);
        lemma_pow2_pos((n - 1) as nat);
        assert(pow2(n) == 2 * half);
        assert(w / 2 >= half);
        lemma_bit_length_shift(w / 2, (n - 1) as nat);
        lemma_div_denominator(w as int, 2, half as int);
        assert((w / 2) / half == w / pow2(n));
    }
}

/// Counts the leading zero bits of a 128-bit value.
pub fn leading_zeros(x: u128) -> (zeros: u32)
    ensures
        zeros == 128 - bit_length(x as nat),
{
    let high: u64 = (x >> 64u32) as u64;
    proof {
        lemma2_to64();
        lemma_u128_shr_is_div(x, 64u128);
        lemma_bit_length_bound(x as nat, 128);
        lemma_pow2_adds(64, 64);
    }
    if high != 0 {
        proof {
            lemma_leading_zeros_u64(high);
            lemma_bit_length_shift(x as nat, 64);
        }
        high.leading_zeros()
    } else {
        let low: u64 = x as u64;
        proof {
            lemma_leading_zeros_u64(low);
        }
        64 + low.leading_zeros()
    }
}

/// Extracts the register index of `h`: its top `precision` bits.
pub fn index(h: u128, precision: u8) -> (j: usize)
    requires
        valid_precision(precision),
    ensures
        j == index_of(h, precision),
        j < pow2(precision as nat),
{
    let width: u32 = (HASH_BITS - precision) as u32;
    let top: u128 = h >> width;
    proof {
        lemma_u128_shr_is_div(h, width as u128);
        lemma_split_in_range(precision, h);
        lemma2_to64();
        if precision < MAX_PRECISION {
            lemma_pow2_strictly_increases(precision as nat, MAX_PRECISION as nat);
        }
    }
    top as usize
}

/// Extracts the residual of `h`: its low `128 - precision` bits.
pub fn residual(h: u128, precision: u8) -> (w: u128)
    requires
        valid_precision(precision),
    ensures
        w == residual_of(h, precision),
        w < pow2((HASH_BITS - precision) as nat),
{
    let width: u32 = (HASH_BITS - precision) as u32;
    let modulus: u128 = 1u128 << width;
    proof {
        lemma_shl_one(width as u128);
        lemma_pow2_pos(width as nat);
        lemma_mod_bound(h as int, pow2(width as nat) as int);
    }
    h % modulus
}

/// Computes the rank of a residual `w` of the field that `precision` leaves.
pub fn field_rank(w: u128, precision: u8) -> (r: u8)
    requires
        valid_precision(precision),
        w < pow2((HASH_BITS - precision) as nat),
    ensures
        r == rank(w as nat, (HASH_BITS - precision) as nat),
        1 <= r <= max_rank(precision),
{
    let zeros: u32 = leading_zeros(w);
    proof {
        lemma_bit_length_bound(w as nat, (HASH_BITS - precision) as nat);
    }
    (zeros - precision as u32 + 1) as u8
}

} // verus!
