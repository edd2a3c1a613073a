//! The estimator: a register file that hashes are observed in.

use vstd::prelude::*;
use vstd::arithmetic::power2::{pow2, lemma_pow2_strictly_increases, lemma2_to64};
use vstd::bits::lemma_usize_shl_is_mul;
use crate::bits::{
    MIN_PRECISION, MAX_PRECISION, valid_precision, rank_of, max_rank, field_rank, index, residual,
    lemma_split_in_range,
};
use crate::digest::{hash_bytes, text_hash, text_hashes};
use crate::text::{views_of, words, words_of};
use crate::estimate::{Estimate, estimate, estimate_of};
use crate::registers::{
    empty_registers, observe, observe_all, well_formed, lemma_observe_all_monotone,
};

verus! {

/// Why a precision was refused at construction.
#[derive(Debug, Clone, Copy, PartialEq, Eq, Structural)]
pub enum ConfigError {
    /// The precision is below [`MIN_PRECISION`].
    PrecisionTooSmall,
    /// The precision is above [`MAX_PRECISION`].
    PrecisionTooLarge,
}

/// The error that construction reports for `precision`, if it reports one.
pub open spec fn config_error(precision: u8) -> Option<ConfigError> {
    if precision < MIN_PRECISION {
        Some(ConfigError::PrecisionTooSmall)
    } else if precision > MAX_PRECISION {
        Some(ConfigError::PrecisionTooLarge)
    } else {
        None
    }
}

/// A HyperLogLog estimator: `2^precision` registers, each holding the largest
/// rank observed among the hashes that select it.
#[derive(Debug)]
pub struct HyperLogLog {
    precision: u8,
    registers: Vec<u8>,
}

/// Stores `r` in register `j`.
fn store(registers: &mut Vec<u8>, j: usize, r: u8)
    requires
        j < old(registers)@.len(),
    ensures
        final(registers)@ == old(registers)@.update(j as int, r),
    no_unwind
{
    registers[j] = r;
}

impl View for HyperLogLog {
    type V = Seq<u8>;

    /// The register file.
    closed spec fn view(&self) -> Seq<u8> {
        self.registers@
    }
}

impl HyperLogLog {
    #[verifier::type_invariant]
    spec fn inv(self) -> bool {
        well_formed(self.registers@, self.precision)
    }

    /// The number of index bits.
    pub closed spec fn spec_precision(&self) -> u8 {
        self.precision
    }

    /// Creates an estimator with `2^precision` registers at zero, or reports
    /// why `precision` is refused.
    pub fn new(precision: u8) -> (made: Result<HyperLogLog, ConfigError>)
        ensures
            match made {
                Ok(hll) => {
                    &&& config_error(precision) is None
                    &&& hll.spec_precision() == precision
                    &&& hll@ == empty_registers(precision)
                },
                Err(e) => config_error(precision) == Some(e),
            },
    {
        if precision < MIN_PRECISION {
            return Err(ConfigError::PrecisionTooSmall);
        }
        if precision > MAX_PRECISION {
            return Err(ConfigError::PrecisionTooLarge);
        }
        proof {
            lemma2_to64();
            if precision < MAX_PRECISION {
                lemma_pow2_strictly_increases(precision as nat, MAX_PRECISION as nat);
            }
            lemma_usize_shl_is_mul(1usize, precision as usize);
        }
        let num_registers: usize = 1usize << (precision as usize);
        let registers: Vec<u8> = vec![0u8; num_registers];
        assert(registers@ =~= empty_registers(precision));
        Ok(HyperLogLog { precision, registers })
    }

    /// The number of index bits.
    #[verifier::when_used_as_spec(spec_precision)]
    pub fn precision(&self) -> (p: u8)
        ensures
            p == self.spec_precision(),
            valid_precision(p),
    {
        proof {
            use_type_invariant(self);
        }
        self.precision
    }

    /// The registers, in index order.
    pub fn registers(&self) -> (regs: &Vec<u8>)
        ensures
            regs@ == self@,
            well_formed(self@, self.spec_precision()),
    {
        proof {
            use_type_invariant(self);
        }
        &self.registers
    }

    /// Hashes an item to 128 bits.
    pub fn hash(&self, value: &str) -> (h: u128)
        ensures
            h == text_hash(value@),
    {
        hash_bytes(value.as_bytes())
    }

    /// The rank of the low `128 - precision` bits of `w`: their leading zero
    /// bits within that field, plus one.
    pub fn rho(&self, w: u128) -> (r: u8)
        ensures
            r == rank_of(w, self.spec_precision()),
            1 <= r <= max_rank(self.spec_precision()),
    {
        proof {
            use_type_invariant(self);
        }
        let field = residual(w, self.precision);
        field_rank(field, self.precision)
    }

    /// Observes the hash `h`: raises the register that `h` selects to the
    /// rank of `h`, unless it is already that high.
    pub fn add_hash(&mut self, h: u128)
        ensures
            final(self).spec_precision() == old(self).spec_precision(),
            final(self)@ == observe(old(self)@, old(self).spec_precision(), h),
            final(self)@.len() == old(self)@.len(),
            forall|i: int| 0 <= i < old(self)@.len() ==> old(self)@[i] <= #[trigger] final(self)@[i],
    {
        proof {
            use_type_invariant(&*self);
            lemma_split_in_range(self.precision, h);
        }
        let j = index(h, self.precision);
        let r = self.rho(h);
        if self.registers[j] < r {
            store(&mut self.registers, j, r);
        }
    }

    /// Observes an item: hashes it and observes the hash.
    pub fn add(&mut self, value: &str)
        ensures
            final(self).spec_precision() == old(self).spec_precision(),
            final(self)@ == observe(old(self)@, old(self).spec_precision(), text_hash(value@)),
            final(self)@.len() == old(self)@.len(),
            forall|i: int| 0 <= i < old(self)@.len() ==> old(self)@[i] <= #[trigger] final(self)@[i],
    {
        let h = self.hash(value);
        self.add_hash(h);
    }

    /// Observes each of `items`, first to last.
    pub fn add_all(&mut self, items: &Vec<String>)
        ensures
            final(self).spec_precision() == old(self).spec_precision(),
            final(self)@ == observe_all(
                old(self)@,
                old(self).spec_precision(),
                text_hashes(views_of(items@)),
            ),
            final(self)@.len() == old(self)@.len(),
            forall|i: int| 0 <= i < old(self)@.len() ==> old(self)@[i] <= #[trigger] final(self)@[i],
    {
        proof {
            use_type_invariant(&*self);
            lemma_observe_all_monotone(
                self@,
                self.spec_precision(),
                text_hashes(views_of(items@)),
            );
        }
        let ghost hashes = text_hashes(views_of(items@));
        let mut i: usize = 0;
        proof {
            assert(hashes.take(0) =~= Seq::<u128>::empty());
        }
        while i < items.len()
            invariant
                i <= items.len(),
                hashes == text_hashes(views_of(items@)),
                self.spec_precision() == old(self).spec_precision(),
                self@ == observe_all(old(self)@, old(self).spec_precision(), hashes.take(i as int)),
            decreases items.len() - i,
        {
            self.add(items[i].as_str());
            proof {
                let next = hashes.take(i + 1);
                assert(next.drop_last() =~= hashes.take(i as int));
                assert(next.last() == text_hash(items@[i as int]@));
            }
            i = i + 1;
        }
        proof {
            assert(hashes.take(items@.len() as int) =~= hashes);
        }
    }

    /// Observes every word of `text`.
    pub fn add_text(&mut self, text: &str)
        ensures
            final(self).spec_precision() == old(self).spec_precision(),
            final(self)@ == observe_all(
                old(self)@,
                old(self).spec_precision(),
                text_hashes(words_of(text@)),
            ),
            final(self)@.len() == old(self)@.len(),
            forall|i: int| 0 <= i < old(self)@.len() ==> old(self)@[i] <= #[trigger] final(self)@[i],
    {
        let found = words(text);
        self.add_all(&found);
    }

    /// The estimate of the number of distinct items observed so far.
    pub fn count(&self) -> (e: Estimate)
        ensures
            e@ == estimate_of(self@, self.spec_precision()),
    {
        proof {
            use_type_invariant(self);
        }
        estimate(&self.registers, self.precision)
    }
}

} // verus!
