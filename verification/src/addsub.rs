//! Exact addition and subtraction.

use vstd::prelude::*;

use core::cmp::Ordering;

use crate::cmp::common_scale;
use crate::cmp::mag_at;
use crate::digits::add_aligned;
use crate::digits::all_digits;
use crate::digits::lemma_mant_val_concat;
use crate::digits::lemma_zeros_val;
use crate::digits::mant_val;
use crate::digits::pow10;
use crate::digits::sub_aligned;
use crate::digits::zeros;
use crate::sci::normalize;
use crate::sci::sci_zero;
use crate::sci::Scientific;
use crate::sci::LEN_LIMIT;

verus! {

/// The post-state of exact addition: a canonical value denoting exactly the
/// sum of the two inputs, with the magnitude bounds the digit algorithm
/// guarantees.
pub open spec fn sum_spec(a: Scientific, b: Scientific, r: Scientific) -> bool {
    let s = common_scale(a, b);
    &&& r.wf()
    &&& r.scale_ok(s)
    &&& r.val_at(s) == a.val_at(s) + b.val_at(s)
    &&& (!r.spec_is_zero() ==> r.exponent >= s && r.spec_exponent0() <= 1 + (if a.spec_exponent0()
        >= b.spec_exponent0() {
        a.spec_exponent0()
    } else {
        b.spec_exponent0()
    }))
}

/// The post-state of exact subtraction.
pub open spec fn diff_spec(a: Scientific, b: Scientific, r: Scientific) -> bool {
    let s = common_scale(a, b);
    &&& r.wf()
    &&& r.scale_ok(s)
    &&& r.val_at(s) == a.val_at(s) - b.val_at(s)
    &&& (!r.spec_is_zero() ==> r.exponent >= s && r.spec_exponent0() <= 1 + (if a.spec_exponent0()
        >= b.spec_exponent0() {
        a.spec_exponent0()
    } else {
        b.spec_exponent0()
    }))
}

/// Pad a digit vector with `left` zeros in front and `right` zeros behind.
pub fn pad_digits(m: &Vec<u8>, left: usize, right: usize) -> (r: Vec<u8>)
    requires
        m@.len() + left + right <= usize::MAX,
    ensures
        r@ =~= zeros(left as nat) + m@ + zeros(right as nat),
{
    let mut r: Vec<u8> = Vec::new();
    let mut i: usize = 0;
    while i < left
        invariant
            i <= left,
            r@ =~= zeros(i as nat),
        decreases left - i,
    {
        r.push(0);
        proof {
            assert(r@ =~= zeros((i + 1) as nat));
        }
        i += 1;
    }
    let n = m.len();
    let mut j: usize = 0;
    while j < n
        invariant
            j <= n,
            n == m@.len(),
            r@ =~= zeros(left as nat) + m@.subrange(0, j as int),
        decreases n - j,
    {
        r.push(m[j]);
        proof {
            assert(r@ =~= zeros(left as nat) + m@.subrange(0, j + 1));
        }
        j += 1;
    }
    let mut k: usize = 0;
    while k < right
        invariant
            k <= right,
            n == m@.len(),
            r@ =~= zeros(left as nat) + m@ + zeros(k as nat),
        decreases right - k,
    {
        r.push(0);
        proof {
            assert(r@ =~= zeros(left as nat) + m@ + zeros((k + 1) as nat));
        }
        k += 1;
    }
    r
}

/// `zeros(l) + m + zeros(t)` denotes `mant_val(m) * 10^t`.
pub proof fn lemma_padded_val(m: Seq<u8>, l: nat, t: nat)
    requires
        all_digits(m),
    ensures
        all_digits(zeros(l) + m + zeros(t)),
        mant_val(zeros(l) + m + zeros(t)) == mant_val(m) * pow10(t),
        (zeros(l) + m + zeros(t)).len() == l + m.len() + t,
{
    lemma_zeros_val(l);
    lemma_zeros_val(t);
    lemma_mant_val_concat(m, zeros(t));
    lemma_mant_val_concat(zeros(l), m + zeros(t));
    assert(zeros(l) + m + zeros(t) =~= zeros(l) + (m + zeros(t)));
}

impl Scientific {
    /// Align both mantissas at the common scale `min(ea, eb)` and to a common
    /// digit count `width`, which must cover both values.
    fn aligned_at_common_scale(&self, rhs: &Scientific, width: usize) -> (r: (Vec<u8>, Vec<u8>))
        requires
            self.wf(),
            rhs.wf(),
            self.roomy(),
            rhs.roomy(),
            !self.spec_is_zero(),
            !rhs.spec_is_zero(),
            width <= 32 * (LEN_LIMIT as int),
            width >= self.spec_exponent0() - common_scale(*self, *rhs),
            width >= rhs.spec_exponent0() - common_scale(*self, *rhs),
        ensures
            ({
                let s = common_scale(*self, *rhs);
                &&& r.0@.len() == width
                &&& r.1@.len() == width
                &&& all_digits(r.0@)
                &&& all_digits(r.1@)
                &&& mant_val(r.0@) == mag_at(*self, s)
                &&& mant_val(r.1@) == mag_at(*rhs, s)
            }),
    {
        let ghost s = common_scale(*self, *rhs);
        let min_exp = if self.exponent <= rhs.exponent {
            self.exponent
        } else {
            rhs.exponent
        };
        let ta = (self.exponent - min_exp) as usize;
        let tb = (rhs.exponent - min_exp) as usize;
        let la = width - self.mantissa.len() - ta;
        let lb = width - rhs.mantissa.len() - tb;
        let pa = pad_digits(&self.mantissa, la, ta);
        let pb = pad_digits(&rhs.mantissa, lb, tb);
        proof {
            lemma_padded_val(self.mantissa@, la as nat, ta as nat);
            lemma_padded_val(rhs.mantissa@, lb as nat, tb as nat);
        }
        (pa, pb)
    }

    /// Exact addition.
    pub fn add(&self, rhs: &Scientific) -> (r: Scientific)
        requires
            self.wf(),
            rhs.wf(),
            self.roomy(),
            rhs.roomy(),
        ensures
            sum_spec(*self, *rhs, r),
    {
        let ghost s = common_scale(*self, *rhs);
        if self.is_zero() {
            let r = rhs.clone();
            proof {
                assert(r.val_at(s) == rhs.val_at(s));
            }
            return r;
        }
        if rhs.is_zero() {
            let r = self.clone();
            proof {
                assert(r.val_at(s) == self.val_at(s));
            }
            return r;
        }
        let min_exp = if self.exponent <= rhs.exponent {
            self.exponent
        } else {
            rhs.exponent
        };
        let e0a = self.exponent0();
        let e0b = rhs.exponent0();
        let max_e0 = if e0a >= e0b {
            e0a
        } else {
            e0b
        };
        let width = (max_e0 - min_exp) as usize;
        if self.negative == rhs.negative {
            let (pa, pb) = self.aligned_at_common_scale(rhs, width);
            let sum = add_aligned(&pa, &pb);
            let r = normalize(self.negative, sum, min_exp);
            proof {
                lemma_signed_combine(*self, *rhs, r, s);
            }
            r
        } else {
            let ord = self.compare_magnitude(rhs);
            proof {
                match ord {
                    Ordering::Less => assert(ord == Ordering::Less),
                    Ordering::Equal => assert(ord == Ordering::Equal),
                    Ordering::Greater => assert(ord == Ordering::Greater),
                }
            }
            match ord {
                Ordering::Equal => {
                    let r = sci_zero();
                    proof {
                        assert(self.val_at(s) + rhs.val_at(s) == 0) by (nonlinear_arith)
                            requires
                                mag_at(*self, s) == mag_at(*rhs, s),
                                self.val_at(s) == self.sign_int() * mag_at(*self, s),
                                rhs.val_at(s) == rhs.sign_int() * mag_at(*rhs, s),
                                self.sign_int() + rhs.sign_int() == 0,
                        ;
                    }
                    r
                },
                Ordering::Greater => {
                    proof {
                        assert(mag_at(*self, s) > mag_at(*rhs, s));
                    }
                    let (pa, pb) = self.aligned_at_common_scale(rhs, width);
                    let diff = sub_aligned(&pa, &pb);
                    let r = normalize(self.negative, diff, min_exp);
                    proof {
                        assert(mant_val(diff@) == mag_at(*self, s) - mag_at(*rhs, s));
                        assert(mant_val(diff@) != 0);
                        assert(r.val_at(s) == (if self.negative { -1int } else { 1int }) * mant_val(diff@));
                        assert(r.scale_ok(s));
                        let d = mag_at(*self, s) - mag_at(*rhs, s);
                        if self.negative {
                            assert(r.val_at(s) == (-1int) * d);
                            assert((-1int) * d == -d) by (nonlinear_arith);
                        } else {
                            assert(r.val_at(s) == 1int * d);
                            assert(1int * d == d) by (nonlinear_arith);
                        }
                        assert(r_denotes(r, self.negative, mag_at(*self, s) - mag_at(*rhs, s), s));
                        lemma_signed_combine(*self, *rhs, r, s);
                    }
                    r
                },
                Ordering::Less => {
                    let (pa, pb) = self.aligned_at_common_scale(rhs, width);
                    let diff = sub_aligned(&pb, &pa);
                    let r = normalize(rhs.negative, diff, min_exp);
                    proof {
                        lemma_signed_combine(*self, *rhs, r, s);
                    }
                    r
                },
            }
        }
    }

    /// Exact subtraction.
    pub fn sub(&self, rhs: &Scientific) -> (r: Scientific)
        requires
            self.wf(),
            rhs.wf(),
            self.roomy(),
            rhs.roomy(),
        ensures
            diff_spec(*self, *rhs, r),
    {
        let n = rhs.neg();
        let r = self.add(&n);
        proof {
            let s = common_scale(*self, *rhs);
            assert(common_scale(*self, n) == s);
            crate::sci::lemma_neg_val(*rhs, n, s);
        }
        r
    }
}

/// Link the digit-level result of the aligned add/sub back to the signed
/// values: `r` was normalized from a digit vector whose value is the correct
/// combination of the two magnitudes.
proof fn lemma_signed_combine(a: Scientific, b: Scientific, r: Scientific, s: int)
    requires
        a.wf(),
        b.wf(),
        r.wf(),
        !a.spec_is_zero(),
        !b.spec_is_zero(),
        s == common_scale(a, b),
        ({
            // r denotes sign * d where d is the magnitude combination
            ||| (a.negative == b.negative && r_denotes(r, a.negative, mag_at(a, s) + mag_at(b, s),
                s))
            ||| (a.negative != b.negative && mag_at(a, s) > mag_at(b, s) && r_denotes(r, a.negative,
                mag_at(a, s) - mag_at(b, s), s))
            ||| (a.negative != b.negative && mag_at(a, s) < mag_at(b, s) && r_denotes(r, b.negative,
                mag_at(b, s) - mag_at(a, s), s))
        }),
    ensures
        r.val_at(s) == a.val_at(s) + b.val_at(s),
{
    assert(a.val_at(s) == a.sign_int() * mag_at(a, s)) by (nonlinear_arith)
        requires
            !a.spec_is_zero(),
            a.val_at(s) == a.sign_int() * (mant_val(a.mantissa@) * pow10((a.exponent - s) as nat)),
            mag_at(a, s) == mant_val(a.mantissa@) * pow10((a.exponent - s) as nat),
    ;
    assert(b.val_at(s) == b.sign_int() * mag_at(b, s)) by (nonlinear_arith)
        requires
            !b.spec_is_zero(),
            b.val_at(s) == b.sign_int() * (mant_val(b.mantissa@) * pow10((b.exponent - s) as nat)),
            mag_at(b, s) == mant_val(b.mantissa@) * pow10((b.exponent - s) as nat),
    ;
    let da = mag_at(a, s);
    let db = mag_at(b, s);
    if a.negative {
        assert(a.sign_int() == -1);
        assert(a.val_at(s) == (-1) * da);
        assert(a.val_at(s) == -da) by (nonlinear_arith)
            requires a.val_at(s) == (-1) * da;
    } else {
        assert(a.val_at(s) == 1 * da);
        assert(a.val_at(s) == da) by (nonlinear_arith)
            requires a.val_at(s) == 1 * da;
    }
    if b.negative {
        assert(b.val_at(s) == -db) by (nonlinear_arith)
            requires b.val_at(s) == (-1) * db;
    } else {
        assert(b.val_at(s) == db) by (nonlinear_arith)
            requires b.val_at(s) == 1 * db;
    }
}

/// `r` is the canonical form of `sign * d * 10^s`.
pub open spec fn r_denotes(r: Scientific, negative: bool, d: int, s: int) -> bool {
    &&& r.scale_ok(s)
    &&& r.val_at(s) == (if negative {
        -d
    } else {
        d
    })
}

} // verus!
