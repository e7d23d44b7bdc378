//! Ordering: comparison of two numbers by their exact value.

use vstd::prelude::*;

use core::cmp::Ordering;

use crate::digits::cmp_mantissa;
use crate::digits::lemma_mant_val_bound;
use crate::digits::lemma_mant_val_first;
use crate::digits::lemma_pow10_adds;
use crate::digits::lemma_pow10_increases;
use crate::digits::lemma_pow10_pos;
use crate::digits::mant_val;
use crate::digits::pow10;
use crate::sci::Scientific;

verus! {

/// `|value| / 10^s` as an integer; meaningful when `scale_ok(s)`.
pub open spec fn mag_at(a: Scientific, s: int) -> int {
    if a.spec_is_zero() {
        0
    } else {
        (mant_val(a.mantissa@) * pow10((a.exponent - s) as nat)) as int
    }
}

/// The scale at which two values are compared: fine enough for both.
pub open spec fn common_scale(a: Scientific, b: Scientific) -> int {
    if a.exponent <= b.exponent {
        a.exponent as int
    } else {
        b.exponent as int
    }
}

/// The order of the two exact values.
pub open spec fn spec_cmp(a: Scientific, b: Scientific) -> Ordering {
    let s = common_scale(a, b);
    if a.val_at(s) < b.val_at(s) {
        Ordering::Less
    } else if a.val_at(s) == b.val_at(s) {
        Ordering::Equal
    } else {
        Ordering::Greater
    }
}

/// Scaling both sides of a comparison by the same power of ten keeps it.
pub proof fn lemma_mul_pow10_cmp(x: nat, y: nat, p: nat, q: nat, k: nat)
    ensures
        (x * pow10((p + k) as nat) < y * pow10((q + k) as nat)) == (x * pow10(p) < y * pow10(q)),
        (x * pow10((p + k) as nat) == y * pow10((q + k) as nat)) == (x * pow10(p) == y * pow10(q)),
{
    lemma_pow10_adds(p, k);
    lemma_pow10_adds(q, k);
    lemma_pow10_pos(k);
    assert(x * (pow10(p) * pow10(k)) == (x * pow10(p)) * pow10(k)) by (nonlinear_arith);
    assert(y * (pow10(q) * pow10(k)) == (y * pow10(q)) * pow10(k)) by (nonlinear_arith);
    let xa = x * pow10(p);
    let ya = y * pow10(q);
    assert((xa * pow10(k) < ya * pow10(k)) == (xa < ya)) by (nonlinear_arith)
        requires pow10(k) >= 1;
    assert((xa * pow10(k) == ya * pow10(k)) == (xa == ya)) by (nonlinear_arith)
        requires pow10(k) >= 1;
}

/// A non-zero canonical value has magnitude in `[10^(e0-1), 10^e0)` at any scale.
pub proof fn lemma_mag_bracket(a: Scientific, s: int)
    requires
        a.wf(),
        !a.spec_is_zero(),
        a.exponent >= s,
    ensures
        pow10((a.spec_exponent0() - 1 - s) as nat) <= mag_at(a, s) < pow10(
            (a.spec_exponent0() - s) as nat,
        ),
{
    let m = a.mantissa@;
    let e = (a.exponent - s) as nat;
    lemma_mant_val_first(m);
    lemma_mant_val_bound(m);
    lemma_pow10_adds((m.len() - 1) as nat, e);
    lemma_pow10_adds(m.len(), e);
    lemma_pow10_pos(e);
    assert(mant_val(m) * pow10(e) >= pow10((m.len() - 1) as nat) * pow10(e)) by (nonlinear_arith)
        requires
            mant_val(m) >= pow10((m.len() - 1) as nat),
            pow10(e) >= 1,
    ;
    assert(mant_val(m) * pow10(e) < pow10(m.len()) * pow10(e)) by (nonlinear_arith)
        requires
            mant_val(m) < pow10(m.len()),
            pow10(e) >= 1,
    ;
}

impl Scientific {
    /// Compare the magnitudes `|self|` and `|rhs|`.
    pub fn compare_magnitude(&self, rhs: &Scientific) -> (r: Ordering)
        requires
            self.wf(),
            rhs.wf(),
            self.exponent + self.mantissa@.len() <= isize::MAX as int,
            rhs.exponent + rhs.mantissa@.len() <= isize::MAX as int,
        ensures
            ({
                let s = common_scale(*self, *rhs);
                &&& (r == Ordering::Less <==> mag_at(*self, s) < mag_at(*rhs, s))
                &&& (r == Ordering::Equal <==> mag_at(*self, s) == mag_at(*rhs, s))
                &&& (r == Ordering::Greater <==> mag_at(*self, s) > mag_at(*rhs, s))
            }),
    {
        let ghost s = common_scale(*self, *rhs);
        if self.is_zero() && rhs.is_zero() {
            Ordering::Equal
        } else if self.is_zero() {
            proof {
                lemma_mag_bracket(*rhs, s);
                lemma_pow10_pos((rhs.spec_exponent0() - 1 - s) as nat);
            }
            Ordering::Less
        } else if rhs.is_zero() {
            proof {
                lemma_mag_bracket(*self, s);
                lemma_pow10_pos((self.spec_exponent0() - 1 - s) as nat);
            }
            Ordering::Greater
        } else {
            let e0a = self.exponent0();
            let e0b = rhs.exponent0();
            proof {
                lemma_mag_bracket(*self, s);
                lemma_mag_bracket(*rhs, s);
            }
            if e0a < e0b {
                proof {
                    lemma_pow10_increases((self.spec_exponent0() - s) as nat, (rhs.spec_exponent0()
                        - 1 - s) as nat);
                }
                Ordering::Less
            } else if e0b < e0a {
                proof {
                    lemma_pow10_increases((rhs.spec_exponent0() - s) as nat, (self.spec_exponent0()
                        - 1 - s) as nat);
                }
                Ordering::Greater
            } else {
                let r = cmp_mantissa(&self.mantissa, &rhs.mantissa);
                proof {
                    let la = self.mantissa@.len() as int;
                    let lb = rhs.mantissa@.len() as int;
                    let n: int = if la >= lb { la } else { lb };
                    let ma = mant_val(self.mantissa@);
                    let mb = mant_val(rhs.mantissa@);
                    // Both comparisons pit the mantissas against each other with
                    // the same difference of powers; bring them to a common shift.
                    let k: int = self.spec_exponent0() - s - n;
                    if k >= 0 {
                        lemma_mul_pow10_cmp(ma, mb, (n - la) as nat, (n - lb) as nat, k as nat);
                    } else {
                        lemma_mul_pow10_cmp(ma, mb, (self.exponent - s) as nat, (rhs.exponent
                            - s) as nat, (-k) as nat);
                    }
                }
                r
            }
        }
    }

    /// Compare the two exact values.
    pub fn compare(&self, rhs: &Scientific) -> (r: Ordering)
        requires
            self.wf(),
            rhs.wf(),
            self.exponent + self.mantissa@.len() <= isize::MAX as int,
            rhs.exponent + rhs.mantissa@.len() <= isize::MAX as int,
        ensures
            r == spec_cmp(*self, *rhs),
            ({
                let s = common_scale(*self, *rhs);
                &&& (r == Ordering::Less <==> self.val_at(s) < rhs.val_at(s))
                &&& (r == Ordering::Equal <==> self.val_at(s) == rhs.val_at(s))
                &&& (r == Ordering::Greater <==> self.val_at(s) > rhs.val_at(s))
            }),
    {
        let ghost s = common_scale(*self, *rhs);
        proof {
            if !self.spec_is_zero() {
                lemma_mag_bracket(*self, s);
                lemma_pow10_pos((self.spec_exponent0() - 1 - s) as nat);
            }
            if !rhs.spec_is_zero() {
                lemma_mag_bracket(*rhs, s);
                lemma_pow10_pos((rhs.spec_exponent0() - 1 - s) as nat);
            }
        }
        if self.is_sign_negative() && !rhs.is_sign_negative() {
            Ordering::Less
        } else if !self.is_sign_negative() && rhs.is_sign_negative() {
            Ordering::Greater
        } else if self.is_sign_negative() {
            // both negative: order is the reverse of the magnitude order
            match self.compare_magnitude(rhs) {
                Ordering::Less => Ordering::Greater,
                Ordering::Equal => Ordering::Equal,
                Ordering::Greater => Ordering::Less,
            }
        } else {
            self.compare_magnitude(rhs)
        }
    }
}

// `partial_cmp` must accept arbitrary (possibly non-canonical) values, so it
// re-implements the comparison with overflow-free wide arithmetic and claims
// nothing; verified callers use `compare`, whose contract is exact.
impl PartialOrd for Scientific {
    fn partial_cmp(&self, other: &Self) -> (r: Option<Ordering>) {
        let a_neg = self.mantissa.len() != 0 && self.negative;
        let b_neg = other.mantissa.len() != 0 && other.negative;
        if a_neg != b_neg {
            return Some(if a_neg { Ordering::Less } else { Ordering::Greater });
        }
        let flip = a_neg;
        let mag = self.magnitude_ordering(other);
        Some(
            if flip {
                match mag {
                    Ordering::Less => Ordering::Greater,
                    Ordering::Equal => Ordering::Equal,
                    Ordering::Greater => Ordering::Less,
                }
            } else {
                mag
            },
        )
    }
}

impl vstd::std_specs::cmp::PartialOrdSpecImpl for Scientific {
    open spec fn obeys_partial_cmp_spec() -> bool {
        false
    }

    open spec fn partial_cmp_spec(&self, other: &Scientific) -> Option<Ordering> {
        Some(spec_cmp(*self, *other))
    }
}

impl Scientific {
    /// Magnitude comparison that tolerates non-canonical values: used by the
    /// std ordering traits, which cannot demand well-formedness.
    fn magnitude_ordering(&self, other: &Scientific) -> Ordering {
        if self.mantissa.len() == 0 && other.mantissa.len() == 0 {
            return Ordering::Equal;
        }
        if self.mantissa.len() == 0 {
            return Ordering::Less;
        }
        if other.mantissa.len() == 0 {
            return Ordering::Greater;
        }
        let e0a = self.exponent as i128 + self.mantissa.len() as i128;
        let e0b = other.exponent as i128 + other.mantissa.len() as i128;
        if e0a < e0b {
            return Ordering::Less;
        }
        if e0b < e0a {
            return Ordering::Greater;
        }
        let la = self.mantissa.len();
        let lb = other.mantissa.len();
        let m = if la <= lb { la } else { lb };
        let mut i: usize = 0;
        while i < m
            invariant
                i <= m,
                m <= self.mantissa@.len(),
                m <= other.mantissa@.len(),
            decreases m - i,
        {
            if self.mantissa[i] < other.mantissa[i] {
                return Ordering::Less;
            }
            if other.mantissa[i] < self.mantissa[i] {
                return Ordering::Greater;
            }
            i += 1;
        }
        if la < lb {
            Ordering::Less
        } else if lb < la {
            Ordering::Greater
        } else {
            Ordering::Equal
        }
    }
}

} // verus!
