//! The register file as a mathematical sequence, and the laws of observing
//! hashes in it.

use vstd::prelude::*;
use vstd::arithmetic::power2::pow2;
use crate::bits::{valid_precision, index_of, rank_of, max_rank, lemma_split_in_range};
use crate::digest::{text_hash, text_hashes};

verus! {

/// A register file for `precision`: `2^precision` ranks, none above the
/// largest rank of the field.
pub open spec fn well_formed(regs: Seq<u8>, precision: u8) -> bool {
    &&& valid_precision(precision)
    &&& regs.len() == pow2(precision as nat)
    &&& forall|i: int| 0 <= i < regs.len() ==> #[trigger] regs[i] <= max_rank(precision)
}

/// The register file of a fresh estimator: every register at zero.
pub open spec fn empty_registers(precision: u8) -> Seq<u8> {
    Seq::new(pow2(precision as nat), |i: int| 0u8)
}

/// The register file after hash `h` has been observed: the register that `h`
/// selects is raised to the rank of `h` unless it is already that high.
pub open spec fn observe(regs: Seq<u8>, precision: u8, h: u128) -> Seq<u8> {
    let j = index_of(h, precision) as int;
    let r = rank_of(h, precision) as u8;
    if regs[j] < r {
        regs.update(j, r)
    } else {
        regs
    }
}

/// The register file after the hashes `hs` have been observed in order.
pub open spec fn observe_all(regs: Seq<u8>, precision: u8, hs: Seq<u128>) -> Seq<u8>
    decreases hs.len(),
{
    if hs.len() == 0 {
        regs
    } else {
        observe(observe_all(regs, precision, hs.drop_last()), precision, hs.last())
    }
}

/// The empty register file is well formed.
pub proof fn lemma_empty_well_formed(precision: u8)
    requires
        valid_precision(precision),
    ensures
        well_formed(empty_registers(precision), precision),
{
}

/// Observing a hash keeps the register file well formed.
pub proof fn lemma_observe_well_formed(regs: Seq<u8>, precision: u8, h: u128)
    requires
        well_formed(regs, precision),
    ensures
        well_formed(observe(regs, precision, h), precision),
{
    lemma_split_in_range(precision, h);
}

/// Observing a hash never lowers a register, and changes none but the one
/// that the hash selects.
pub proof fn lemma_observe_monotone(regs: Seq<u8>, precision: u8, h: u128)
    requires
        well_formed(regs, precision),
    ensures
        observe(regs, precision, h).len() == regs.len(),
        forall|i: int|
            0 <= i < regs.len() ==> regs[i] <= #[trigger] observe(regs, precision, h)[i],
        forall|i: int|
            0 <= i < regs.len() && i != index_of(h, precision) ==> regs[i] == #[trigger] observe(
                regs,
                precision,
                h,
            )[i],
{
    lemma_split_in_range(precision, h);
}

/// Observing a sequence of hashes keeps the register file well formed and
/// never lowers a register.
pub proof fn lemma_observe_all_monotone(regs: Seq<u8>, precision: u8, hs: Seq<u128>)
    requires
        well_formed(regs, precision),
    ensures
        well_formed(observe_all(regs, precision, hs), precision),
        forall|i: int|
            0 <= i < regs.len() ==> regs[i] <= #[trigger] observe_all(regs, precision, hs)[i],
    decreases hs.len(),
{
    if hs.len() > 0 {
        let before = observe_all(regs, precision, hs.drop_last());
        lemma_observe_all_monotone(regs, precision, hs.drop_last());
        lemma_observe_well_formed(before, precision, hs.last());
        lemma_observe_monotone(before, precision, hs.last());
    }
}

/// Observing the same hash a second time changes nothing.
pub proof fn lemma_observe_idempotent(regs: Seq<u8>, precision: u8, h: u128)
    requires
        well_formed(regs, precision),
    ensures
        observe(observe(regs, precision, h), precision, h) == observe(regs, precision, h),
{
    lemma_split_in_range(precision, h);
}

/// Observing one hash any number of times, at least once, leaves the register
/// file that observing it once leaves.
pub proof fn lemma_repeated_observe(regs: Seq<u8>, precision: u8, h: u128, n: nat)
    requires
        well_formed(regs, precision),
        n >= 1,
    ensures
        observe_all(regs, precision, Seq::new(n, |i: int| h)) == observe(regs, precision, h),
    decreases n,
{
    let copies = Seq::new(n, |i: int| h);
    let fewer = Seq::new((n - 1) as nat, |i: int| h);
    assert(copies.drop_last() =~= fewer);
    assert(copies.last() == h);
    if n == 1 {
        assert(observe_all(regs, precision, fewer) == regs);
    } else {
        lemma_repeated_observe(regs, precision, h, (n - 1) as nat);
        lemma_observe_idempotent(regs, precision, h);
    }
}

/// Each register ends at the largest of its starting value and the ranks of
/// the observed hashes that select it.
pub proof fn lemma_observe_all_is_maximum(regs: Seq<u8>, precision: u8, hs: Seq<u128>, j: int)
    requires
        well_formed(regs, precision),
        0 <= j < regs.len(),
    ensures
        regs[j] <= observe_all(regs, precision, hs)[j],
        forall|k: int|
            0 <= k < hs.len() && index_of(#[trigger] hs[k], precision) == j ==> rank_of(
                hs[k],
                precision,
            ) <= observe_all(regs, precision, hs)[j],
        observe_all(regs, precision, hs)[j] == regs[j] || exists|k: int|
            0 <= k < hs.len() && index_of(#[trigger] hs[k], precision) == j && rank_of(
                hs[k],
                precision,
            ) == observe_all(regs, precision, hs)[j],
    decreases hs.len(),
{
    if hs.len() > 0 {
        let front = hs.drop_last();
        let h = hs.last();
        let before = observe_all(regs, precision, front);
        let after = observe_all(regs, precision, hs);
        lemma_observe_all_is_maximum(regs, precision, front, j);
        lemma_observe_all_monotone(regs, precision, front);
        lemma_observe_monotone(before, precision, h);
        lemma_split_in_range(precision, h);
        assert forall|k: int|
            0 <= k < hs.len() && index_of(#[trigger] hs[k], precision) == j implies rank_of(
            hs[k],
            precision,
        ) <= after[j] by {
            if k < front.len() {
                assert(front[k] == hs[k]);
            }
        }
        if after[j] != regs[j] {
            if after[j] == before[j] {
                let k = choose|k: int|
                    0 <= k < front.len() && index_of(#[trigger] front[k], precision) == j
                        && rank_of(front[k], precision) == before[j];
                assert(hs[k] == front[k]);
            } else {
                assert(hs[hs.len() - 1] == h);
            }
        }
    }
}

/// Two sequences that hold the same hashes, in whatever order and however
/// often, leave the same register file.
pub proof fn lemma_observe_all_same_hashes(
    regs: Seq<u8>,
    precision: u8,
    hs1: Seq<u128>,
    hs2: Seq<u128>,
)
    requires
        well_formed(regs, precision),
        forall|h: u128| hs1.contains(h) <==> hs2.contains(h),
    ensures
        observe_all(regs, precision, hs1) == observe_all(regs, precision, hs2),
{
    let out1 = observe_all(regs, precision, hs1);
    let out2 = observe_all(regs, precision, hs2);
    lemma_observe_all_monotone(regs, precision, hs1);
    lemma_observe_all_monotone(regs, precision, hs2);
    assert forall|j: int| 0 <= j < out1.len() implies out1[j] == out2[j] by {
        lemma_observe_all_is_maximum(regs, precision, hs1, j);
        lemma_observe_all_is_maximum(regs, precision, hs2, j);
        if out1[j] != regs[j] {
            let k = choose|k: int|
                0 <= k < hs1.len() && index_of(#[trigger] hs1[k], precision) == j && rank_of(
                    hs1[k],
                    precision,
                ) == out1[j];
            assert(hs1.contains(hs1[k]));
            let k2 = choose|k2: int| 0 <= k2 < hs2.len() && hs2[k2] == hs1[k];
            assert(rank_of(hs2[k2], precision) <= out2[j]);
        }
        if out2[j] != regs[j] {
            let k = choose|k: int|
                0 <= k < hs2.len() && index_of(#[trigger] hs2[k], precision) == j && rank_of(
                    hs2[k],
                    precision,
                ) == out2[j];
            assert(hs2.contains(hs2[k]));
            let k1 = choose|k1: int| 0 <= k1 < hs1.len() && hs1[k1] == hs2[k];
            assert(rank_of(hs1[k1], precision) <= out1[j]);
        }
    }
    assert(out1 =~= out2);
}

/// The register file does not depend on the order in which hashes are
/// observed: any rearrangement of the same hashes leaves the same file.
pub proof fn lemma_observe_all_order_independent(
    regs: Seq<u8>,
    precision: u8,
    hs1: Seq<u128>,
    hs2: Seq<u128>,
)
    requires
        well_formed(regs, precision),
        hs1.to_multiset() == hs2.to_multiset(),
    ensures
        observe_all(regs, precision, hs1) == observe_all(regs, precision, hs2),
{
    hs1.to_multiset_ensures();
    hs2.to_multiset_ensures();
    assert forall|h: u128| hs1.contains(h) <==> hs2.contains(h) by {
        assert(hs1.contains(h) <==> hs1.to_multiset().count(h) > 0);
        assert(hs2.contains(h) <==> hs2.to_multiset().count(h) > 0);
    }
    lemma_observe_all_same_hashes(regs, precision, hs1, hs2);
}

/// Adding the same item any number of times, at least once, leaves the
/// register file that adding it once leaves.
pub proof fn lemma_repeated_item(regs: Seq<u8>, precision: u8, item: Seq<char>, n: nat)
    requires
        well_formed(regs, precision),
        n >= 1,
    ensures
        observe_all(regs, precision, text_hashes(Seq::new(n, |i: int| item))) == observe(
            regs,
            precision,
            text_hash(item),
        ),
{
    let h = text_hash(item);
    assert(text_hashes(Seq::new(n, |i: int| item)) =~= Seq::new(n, |i: int| h));
    lemma_repeated_observe(regs, precision, h, n);
}

/// Any rearrangement of the same items leaves the same register file.
pub proof fn lemma_items_order_independent(
    regs: Seq<u8>,
    precision: u8,
    items1: Seq<Seq<char>>,
    items2: Seq<Seq<char>>,
)
    requires
        well_formed(regs, precision),
        items1.to_multiset() == items2.to_multiset(),
    ensures
        observe_all(regs, precision, text_hashes(items1)) == observe_all(
            regs,
            precision,
            text_hashes(items2),
        ),
{
    let hs1 = text_hashes(items1);
    let hs2 = text_hashes(items2);
    items1.to_multiset_ensures();
    items2.to_multiset_ensures();
    assert forall|h: u128| hs1.contains(h) <==> hs2.contains(h) by {
        if hs1.contains(h) {
            let k = choose|k: int| 0 <= k < hs1.len() && hs1[k] == h;
            assert(items1.contains(items1[k]));
            assert(items2.to_multiset().count(items1[k]) > 0);
            let k2 = choose|k2: int| 0 <= k2 < items2.len() && items2[k2] == items1[k];
            assert(hs2[k2] == h);
        }
        if hs2.contains(h) {
            let k = choose|k: int| 0 <= k < hs2.len() && hs2[k] == h;
            assert(items2.contains(items2[k]));
            assert(items1.to_multiset().count(items2[k]) > 0);
            let k1 = choose|k1: int| 0 <= k1 < items1.len() && items1[k1] == items2[k];
            assert(hs1[k1] == h);
        }
    }
    lemma_observe_all_same_hashes(regs, precision, hs1, hs2);
}

} // verus!
