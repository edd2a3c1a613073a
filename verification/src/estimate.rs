//! Choosing the estimator: the integer side of the cardinality estimate.
//!
//! With `m` registers the raw estimate is `alpha(m) * m^2 / S`, where
//! `S` is the sum of `2^-r` over the registers `r` and
//! `alpha(m) = 0.7213 / (1 + 1.079 / m)`. The small-range test
//! `raw <= 2.5 * m` is, cleared of fractions,
//! `7213 * m^2 <= (25000 * m + 26975) * S`. Multiplied by a power of two
//! that makes every term of `S` whole, it is a statement about natural
//! numbers, and that is how it is decided here.

use vstd::prelude::*;
use vstd::arithmetic::power2::{
    pow2, lemma_pow2_pos, lemma_pow2_unfold, lemma_pow2_strictly_increases, lemma2_to64,
};
use vstd::arithmetic::div_mod::{
    lemma_div_denominator, lemma_hoist_over_denominator, lemma_fundamental_div_mod,
    lemma_mod_bound,
};
use crate::bits::{
    HASH_BITS, MAX_PRECISION, valid_precision, index_of, rank_of, max_rank, lemma_split_in_range,
};
use crate::registers::{well_formed, empty_registers, observe};

verus! {

/// `0.7213`, the numerator of `alpha`, times 10000.
pub const ALPHA_SCALED: u128 = 7213;

/// `2.5`, the small-range factor, times 10000.
pub const RANGE_SLOPE: u128 = 25000;

/// `2.5 * 1.079` times 10000.
pub const RANGE_OFFSET: u128 = 26975;

/// The number of registers of `regs` that hold exactly `k`.
pub open spec fn count_rank(regs: Seq<u8>, k: nat) -> nat
    decreases regs.len(),
{
    if regs.len() == 0 {
        0
    } else {
        count_rank(regs.drop_last(), k) + if regs.last() == k {
            1nat
        } else {
            0nat
        }
    }
}

/// `2^scale` times the sum of `2^-r` over the registers `r` of `regs`.
pub open spec fn scaled_harmonic_sum(regs: Seq<u8>, scale: nat) -> nat
    decreases regs.len(),
{
    if regs.len() == 0 {
        0
    } else {
        scaled_harmonic_sum(regs.drop_last(), scale) + pow2((scale - regs.last()) as nat)
    }
}

/// Whether the raw estimate of `regs` is at most two and a half times the
/// number of registers.
pub open spec fn in_small_range(regs: Seq<u8>, precision: u8) -> bool {
    let m = regs.len();
    let scale = max_rank(precision);
    ALPHA_SCALED * m * m * pow2(scale) <= (RANGE_SLOPE * m + RANGE_OFFSET) * scaled_harmonic_sum(
        regs,
        scale,
    )
}

/// Whether the estimate of `regs` is the linear-counting one: the raw
/// estimate is in the small range and some register is still at zero.
pub open spec fn uses_linear_counting(regs: Seq<u8>, precision: u8) -> bool {
    in_small_range(regs, precision) && count_rank(regs, 0) > 0
}

/// The estimate in exact terms. Its value is a real number that integer
/// arithmetic cannot hold; each variant names the formula and carries the
/// whole numbers that go into it.
#[derive(Debug, PartialEq, Eq)]
pub enum Estimate {
    /// `m * ln(m / zeros)` with `m = registers`; `zeros` is at least one.
    LinearCounting { registers: usize, zeros: usize },
    /// `alpha(m) * m^2 / S` with `m = registers` and `S` the sum of
    /// `histogram[k] * 2^-k` over all `k`.
    HarmonicMean { registers: usize, histogram: Vec<usize> },
}

/// An estimate as a mathematical value.
pub enum EstimateView {
    /// `m * ln(m / zeros)` with `m = registers`.
    LinearCounting { registers: nat, zeros: nat },
    /// `alpha(m) * m^2 / S` with `m = registers` and `S` the sum of
    /// `histogram[k] * 2^-k` over all `k`.
    HarmonicMean { registers: nat, histogram: Seq<nat> },
}

impl View for Estimate {
    type V = EstimateView;

    open spec fn view(&self) -> EstimateView {
        match *self {
            Estimate::LinearCounting { registers, zeros } => EstimateView::LinearCounting {
                registers: registers as nat,
                zeros: zeros as nat,
            },
            Estimate::HarmonicMean { registers, histogram } => EstimateView::HarmonicMean {
                registers: registers as nat,
                histogram: histogram@.map_values(|c: usize| c as nat),
            },
        }
    }
}

/// For each rank from zero to the largest of `precision`, the number of
/// registers of `regs` that hold it.
pub open spec fn histogram_of(regs: Seq<u8>, precision: u8) -> Seq<nat> {
    Seq::new(max_rank(precision) + 1, |k: int| count_rank(regs, k as nat))
}

/// The estimate of the register file `regs`: the linear-counting one where
/// the raw estimate is in the small range and a register is at zero, the
/// harmonic-mean one otherwise.
pub open spec fn estimate_of(regs: Seq<u8>, precision: u8) -> EstimateView {
    if uses_linear_counting(regs, precision) {
        EstimateView::LinearCounting { registers: regs.len(), zeros: count_rank(regs, 0) }
    } else {
        EstimateView::HarmonicMean {
            registers: regs.len(),
            histogram: histogram_of(regs, precision),
        }
    }
}

/// No rank is held by more registers than there are.
pub proof fn lemma_count_rank_bound(regs: Seq<u8>, k: nat)
    ensures
        count_rank(regs, k) <= regs.len(),
    decreases regs.len(),
{
    if regs.len() > 0 {
        lemma_count_rank_bound(regs.drop_last(), k);
    }
}

/// The sum of `count_rank(regs, k) * 2^(top - k)` over the ranks `k` from
/// `from` to `top`.
spec fn weighted_counts(regs: Seq<u8>, top: nat, from: nat) -> nat
    decreases top + 1 - from,
{
    if from > top {
        0
    } else {
        count_rank(regs, from) * pow2((top - from) as nat) + weighted_counts(regs, top, from + 1)
    }
}

proof fn lemma_weighted_counts_step(regs: Seq<u8>, top: nat, from: nat)
    requires
        regs.len() > 0,
        regs.last() <= top,
    ensures
        weighted_counts(regs, top, from) == weighted_counts(regs.drop_last(), top, from) + if from
            <= regs.last() {
            pow2((top - regs.last()) as nat)
        } else {
            0
        },
    decreases top + 1 - from,
{
    if from <= top {
        lemma_weighted_counts_step(regs, top, from + 1);
        let w = pow2((top - from) as nat);
        let c = count_rank(regs.drop_last(), from);
        assert((c + 1) * w == c * w + w) by (nonlinear_arith);
    }
}

/// Grouping the registers by rank does not change their harmonic sum.
proof fn lemma_weighted_counts_sum(regs: Seq<u8>, top: nat)
    requires
        forall|i: int| 0 <= i < regs.len() ==> #[trigger] regs[i] <= top,
    ensures
        weighted_counts(regs, top, 0) == scaled_harmonic_sum(regs, top),
    decreases regs.len(),
{
    if regs.len() == 0 {
        lemma_weighted_counts_empty(regs, top, 0);
    } else {
        lemma_weighted_counts_sum(regs.drop_last(), top);
        lemma_weighted_counts_step(regs, top, 0);
    }
}

proof fn lemma_weighted_counts_empty(regs: Seq<u8>, top: nat, from: nat)
    requires
        regs.len() == 0,
    ensures
        weighted_counts(regs, top, from) == 0,
    decreases top + 1 - from,
{
    if from <= top {
        lemma_weighted_counts_empty(regs, top, from + 1);
        assert(0 * pow2((top - from) as nat) == 0) by (nonlinear_arith);
    }
}

proof fn lemma_all_zero_sums(regs: Seq<u8>, scale: nat)
    requires
        forall|i: int| 0 <= i < regs.len() ==> #[trigger] regs[i] == 0,
    ensures
        count_rank(regs, 0) == regs.len(),
        scaled_harmonic_sum(regs, scale) == regs.len() * pow2(scale),
    decreases regs.len(),
{
    if regs.len() == 0 {
        assert(0 * pow2(scale) == 0) by (nonlinear_arith);
    } else {
        let front = regs.drop_last();
        lemma_all_zero_sums(front, scale);
        assert((front.len() + 1) * pow2(scale) == front.len() * pow2(scale) + pow2(scale))
            by (nonlinear_arith);
    }
}

/// The empty register file is estimated by linear counting, with every
/// register at zero.
pub proof fn lemma_empty_uses_linear_counting(precision: u8)
    requires
        valid_precision(precision),
    ensures
        uses_linear_counting(empty_registers(precision), precision),
        count_rank(empty_registers(precision), 0) == empty_registers(precision).len(),
{
    let regs = empty_registers(precision);
    let scale = max_rank(precision);
    let m = regs.len();
    lemma_all_zero_sums(regs, scale);
    lemma_pow2_pos(precision as nat);
    lemma_pow2_pos(scale);
    let unit = pow2(scale);
    assert(ALPHA_SCALED * m * m * unit <= (RANGE_SLOPE * m + RANGE_OFFSET) * (m * unit))
        by (nonlinear_arith)
        requires
            m > 0,
            unit > 0,
    ;
}

/// Neither formula divides by zero: a linear-counting estimate carries at
/// least one register at zero and no more than there are registers, and the
/// harmonic sum of a register file is positive.
pub proof fn lemma_estimate_is_defined(regs: Seq<u8>, precision: u8)
    requires
        well_formed(regs, precision),
    ensures
        estimate_of(regs, precision) matches EstimateView::LinearCounting { registers, zeros }
            ==> 1 <= zeros <= registers,
        scaled_harmonic_sum(regs, max_rank(precision)) > 0,
{
    lemma_count_rank_bound(regs, 0);
    lemma_pow2_pos(precision as nat);
    lemma_pow2_pos((max_rank(precision) - regs.last()) as nat);
}

proof fn lemma_raise_lowers_sums(regs: Seq<u8>, j: int, r: u8, scale: nat)
    requires
        0 <= j < regs.len(),
        regs[j] <= r <= scale,
    ensures
        count_rank(regs.update(j, r), 0) <= count_rank(regs, 0),
        scaled_harmonic_sum(regs.update(j, r), scale) <= scaled_harmonic_sum(regs, scale),
    decreases regs.len(),
{
    let raised = regs.update(j, r);
    if j == regs.len() - 1 {
        assert(raised.drop_last() =~= regs.drop_last());
        if regs[j] < r {
            lemma_pow2_strictly_increases((scale - r) as nat, (scale - regs[j]) as nat);
        }
    } else {
        assert(raised.drop_last() =~= regs.drop_last().update(j, r));
        lemma_raise_lowers_sums(regs.drop_last(), j, r, scale);
    }
}

/// Observing a hash leaves no more registers at zero than there were, and
/// does not raise the harmonic sum.
pub proof fn lemma_observe_lowers_sums(regs: Seq<u8>, precision: u8, h: u128)
    requires
        well_formed(regs, precision),
    ensures
        count_rank(observe(regs, precision, h), 0) <= count_rank(regs, 0),
        scaled_harmonic_sum(observe(regs, precision, h), max_rank(precision))
            <= scaled_harmonic_sum(regs, max_rank(precision)),
{
    lemma_split_in_range(precision, h);
    let j = index_of(h, precision) as int;
    let r = rank_of(h, precision) as u8;
    if regs[j] < r {
        lemma_raise_lowers_sums(regs, j, r, max_rank(precision));
    }
}

/// Counts, for each rank from zero to the largest, the registers that hold it.
pub fn rank_histogram(regs: &Vec<u8>, precision: u8) -> (hist: Vec<usize>)
    requires
        well_formed(regs@, precision),
    ensures
        hist@.map_values(|c: usize| c as nat) == histogram_of(regs@, precision),
{
    let top: usize = (HASH_BITS - precision) as usize + 1;
    let mut hist: Vec<usize> = vec![0usize; top + 1];
    let mut i: usize = 0;
    while i < regs.len()
        invariant
            i <= regs.len(),
            well_formed(regs@, precision),
            top == max_rank(precision),
            hist@.len() == top + 1,
            forall|k: int|
                0 <= k < hist@.len() ==> #[trigger] hist@[k] == count_rank(
                    regs@.take(i as int),
                    k as nat,
                ),
        decreases regs.len() - i,
    {
        let r: usize = regs[i] as usize;
        proof {
            let seen = regs@.take(i as int);
            let next = regs@.take(i + 1);
            assert(next.drop_last() =~= seen);
            assert(next.last() == regs@[i as int]);
            lemma_count_rank_bound(seen, r as nat);
        }
        let raised: usize = hist[r] + 1;
        hist.set(r, raised);
        i = i + 1;
    }
    proof {
        assert(regs@.take(regs@.len() as int) =~= regs@);
        assert(hist@.map_values(|c: usize| c as nat) =~= histogram_of(regs@, precision));
    }
    hist
}

proof fn lemma_quotient_at_least(a: nat, b: nat, d: nat)
    requires
        d > 0,
    ensures
        a <= b / d <==> a * d <= b,
{
    lemma_fundamental_div_mod(b as int, d as int);
    lemma_mod_bound(b as int, d as int);
    let q = b / d;
    let r = b % d;
    assert(a <= q <==> a * d <= d * q + r) by (nonlinear_arith)
        requires
            0 <= r < d,
            0 <= q,
            0 <= a,
    ;
}

proof fn lemma_product_bounds(c: nat, m: nat, count: nat)
    requires
        m <= 65536,
        c == RANGE_SLOPE * m + RANGE_OFFSET,
        count <= m,
    ensures
        c * count <= c * m,
        c * m <= 0x1_0000_0000_0000,
        ALPHA_SCALED * m <= 0x1_0000_0000,
        ALPHA_SCALED * m * m <= 0x1_0000_0000_0000,
{
    assert(c * count <= c * m) by (nonlinear_arith)
        requires
            count <= m,
    ;
    assert(c * m <= 1638426975 * 65536) by (nonlinear_arith)
        requires
            c <= 1638426975,
            m <= 65536,
    ;
    assert(ALPHA_SCALED * m * m <= 7213 * 65536 * 65536) by (nonlinear_arith)
        requires
            m <= 65536,
    ;
}

proof fn lemma_halving_step(c: nat, count: nat, rest: nat, top: nat, k: nat)
    requires
        k < top,
    ensures
        c * count + ((c * rest) / pow2((top - k - 1) as nat)) / 2 == (c * (count * pow2(
            (top - k) as nat,
        ) + rest)) / pow2((top - k) as nat),
{
    let half = pow2((top - k - 1) as nat);
    let whole = pow2((top - k) as nat);
    lemma_pow2_pos((top - k - 1) as nat);
    lemma_pow2_unfold((top - k) as nat);
    assert(whole == half * 2);
    lemma_div_denominator((c * rest) as int, half as int, 2);
    lemma_hoist_over_denominator((c * rest) as int, (c * count) as int, whole);
    assert(c * rest + (c * count) * whole == c * (count * whole + rest)) by (nonlinear_arith);
}

proof fn lemma_histogram_entries(hist: Seq<usize>, regs: Seq<u8>, precision: u8)
    requires
        hist.map_values(|c: usize| c as nat) == histogram_of(regs, precision),
    ensures
        hist.len() == max_rank(precision) + 1,
        forall|j: int| 0 <= j < hist.len() ==> #[trigger] hist[j] == count_rank(regs, j as nat),
{
    let counts = hist.map_values(|c: usize| c as nat);
    assert(counts.len() == hist.len());
    assert forall|j: int| 0 <= j < hist.len() implies #[trigger] hist[j] == count_rank(
        regs,
        j as nat,
    ) by {
        assert(counts[j] == hist[j] as nat);
        assert(histogram_of(regs, precision)[j] == count_rank(regs, j as nat));
    }
}

/// Decides the small-range test from the histogram of `regs`.
fn small_range(
    hist: &Vec<usize>,
    registers: usize,
    Ghost(regs): Ghost<Seq<u8>>,
    precision: u8,
) -> (small: bool)
    requires
        well_formed(regs, precision),
        registers == regs.len(),
        hist@.map_values(|c: usize| c as nat) == histogram_of(regs, precision),
    ensures
        small == in_small_range(regs, precision),
{
    let top: usize = (HASH_BITS - precision) as usize + 1;
    proof {
        lemma2_to64();
        if precision < MAX_PRECISION {
            lemma_pow2_strictly_increases(precision as nat, MAX_PRECISION as nat);
        }
    }
    let m: u128 = registers as u128;
    let c: u128 = RANGE_SLOPE * m + RANGE_OFFSET;
    proof {
        lemma_histogram_entries(hist@, regs, precision);
        lemma_product_bounds(c as nat, m as nat, m as nat);
        lemma_count_rank_bound(regs, top as nat);
        assert(weighted_counts(regs, top as nat, (top + 1) as nat) == 0);
        assert(weighted_counts(regs, top as nat, top as nat) == count_rank(regs, top as nat)
            * pow2(0));
        lemma_product_bounds(c as nat, m as nat, hist@[top as int] as nat);
    }
    let mut k: usize = top;
    let mut acc: u128 = c * (hist[top] as u128);
    while k > 0
        invariant
            k <= top,
            top == max_rank(precision),
            well_formed(regs, precision),
            hist@.len() == top + 1,
            forall|j: int| 0 <= j < hist@.len() ==> #[trigger] hist@[j] == count_rank(regs, j as nat),
            m == regs.len(),
            m <= 65536,
            c == RANGE_SLOPE * m + RANGE_OFFSET,
            acc <= 2 * (c * m),
            acc == (c as nat * weighted_counts(regs, top as nat, k as nat)) / pow2((top - k) as nat),
        decreases k,
    {
        k = k - 1;
        proof {
            lemma_count_rank_bound(regs, k as nat);
            lemma_halving_step(
                c as nat,
                count_rank(regs, k as nat),
                weighted_counts(regs, top as nat, (k + 1) as nat),
                top as nat,
                k as nat,
            );
            lemma_product_bounds(c as nat, m as nat, hist@[k as int] as nat);
        }
        acc = c * (hist[k] as u128) + acc / 2;
    }
    proof {
        lemma_weighted_counts_sum(regs, top as nat);
        lemma_pow2_pos(top as nat);
        lemma_quotient_at_least(
            (ALPHA_SCALED * m * m) as nat,
            (c * scaled_harmonic_sum(regs, top as nat)) as nat,
            pow2(top as nat),
        );
    }
    ALPHA_SCALED * m * m <= acc
}

/// Forms the estimate of the register file `regs`: the linear-counting one
/// where the raw estimate is in the small range and a register is at zero,
/// the harmonic-mean one otherwise.
pub fn estimate(regs: &Vec<u8>, precision: u8) -> (e: Estimate)
    requires
        well_formed(regs@, precision),
    ensures
        e@ == estimate_of(regs@, precision),
{
    let histogram = rank_histogram(regs, precision);
    let small = small_range(&histogram, regs.len(), Ghost(regs@), precision);
    proof {
        lemma_histogram_entries(histogram@, regs@, precision);
    }
    let zeros: usize = histogram[0];
    if small && zeros > 0 {
        Estimate::LinearCounting { registers: regs.len(), zeros }
    } else {
        Estimate::HarmonicMean { registers: regs.len(), histogram }
    }
}

} // verus!
