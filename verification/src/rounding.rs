//! Precision requests, rounding modes, truncation and rounding.

use vstd::prelude::*;

use crate::digits::add_aligned;
use crate::digits::all_digits;
use crate::digits::mant_val;
use crate::digits::pow10;
use crate::sci::normalize;
use crate::sci::sci_one;
use crate::sci::Scientific;
use crate::sci::EXP_LIMIT;

verus! {

/// The precision to which an inexact operation works.
#[derive(Clone, Copy, Debug, PartialEq, Eq, Structural)]
pub enum Precision {
    /// Keep at most this many significant digits; zero or less forces zero.
    Digits(isize),
    /// Keep digits down to the position `10^-n`; can be negative.
    Decimals(isize),
}

impl Precision {
    /// Integer calculation: no decimal places.
    pub fn integer() -> (r: Precision)
        ensures
            r == Precision::Decimals(0isize),
    {
        Precision::Decimals(0)
    }

    /// Shift the request by a signed amount.
    pub fn plus(self, rhs: isize) -> (r: Precision)
        requires
            self.inner() + rhs <= isize::MAX as int,
            self.inner() + rhs >= isize::MIN as int,
        ensures
            r == self.shifted(rhs as int),
    {
        match self {
            Precision::Digits(d) => Precision::Digits(d + rhs),
            Precision::Decimals(d) => Precision::Decimals(d + rhs),
        }
    }

    /// Shift the request down by a signed amount.
    pub fn minus(self, rhs: isize) -> (r: Precision)
        requires
            self.inner() - rhs <= isize::MAX as int,
            self.inner() - rhs >= isize::MIN as int,
        ensures
            r == self.shifted(-(rhs as int)),
    {
        match self {
            Precision::Digits(d) => Precision::Digits(d - rhs),
            Precision::Decimals(d) => Precision::Decimals(d - rhs),
        }
    }

    /// The carried amount.
    pub open spec fn inner(self) -> int {
        match self {
            Precision::Digits(d) => d as int,
            Precision::Decimals(d) => d as int,
        }
    }

    /// The same kind of request, shifted.
    pub open spec fn shifted(self, by: int) -> Precision {
        match self {
            Precision::Digits(d) => Precision::Digits(((d + by) as isize)),
            Precision::Decimals(d) => Precision::Decimals(((d + by) as isize)),
        }
    }

    /// Small enough that precision arithmetic cannot overflow.
    pub open spec fn bounded(self) -> bool {
        -(EXP_LIMIT as int) <= self.inner() <= EXP_LIMIT as int
    }
}

impl Default for Precision {
    /// The default request is integer calculation.
    fn default() -> (r: Self)
        ensures
            r == Precision::Decimals(0isize),
    {
        Precision::Decimals(0)
    }
}

/// How to decide the digit at the cut when the value must be shortened.
///
/// Directed modes never round an exact value; the "half" modes round to the
/// nearest and use their rule only at an exact halfway point.
#[derive(Clone, Copy, Debug, PartialEq, Eq, Structural)]
pub enum Rounding {
    /// Toward minus infinity (floor).
    RoundDown,
    /// Toward plus infinity (ceiling).
    RoundUp,
    /// Toward zero (truncate).
    RoundTowardsZero,
    /// Away from zero.
    RoundAwayFromZero,
    /// To nearest; halfway toward minus infinity.
    RoundHalfDown,
    /// To nearest; halfway toward plus infinity.
    RoundHalfUp,
    /// To nearest; halfway toward zero.
    RoundHalfTowardsZero,
    /// To nearest; halfway away from zero.
    RoundHalfAwayFromZero,
    /// To nearest; halfway to the even digit.
    RoundHalfToEven,
    /// To nearest; halfway to the odd digit.
    RoundHalfToOdd,
}

impl Default for Rounding {
    /// The default mode rounds half away from zero.
    fn default() -> (r: Self)
        ensures
            r == Rounding::RoundHalfAwayFromZero,
    {
        Rounding::RoundHalfAwayFromZero
    }
}

/// Whether the absolute value must be incremented at the cut: the defining
/// table of the ten modes over the sign, the last kept digit, the first
/// dropped digit, and whether anything follows the first dropped digit.
pub open spec fn rounds_away(
    mode: Rounding,
    is_negative: bool,
    before: u8,
    after: u8,
    no_more: bool,
) -> bool {
    match mode {
        Rounding::RoundDown => !(after == 0 && no_more) && is_negative,
        Rounding::RoundUp => !(after == 0 && no_more) && !is_negative,
        Rounding::RoundTowardsZero => false,
        Rounding::RoundAwayFromZero => !(after == 0 && no_more),
        Rounding::RoundHalfDown => after > 5 || (after == 5 && (!no_more || is_negative)),
        Rounding::RoundHalfUp => after > 5 || (after == 5 && (!no_more || !is_negative)),
        Rounding::RoundHalfTowardsZero => after > 5 || (after == 5 && !no_more),
        Rounding::RoundHalfAwayFromZero => after > 5 || after == 5,
        Rounding::RoundHalfToEven => after > 5 || (after == 5 && (!no_more || before % 2 == 1)),
        Rounding::RoundHalfToOdd => after > 5 || (after == 5 && (!no_more || before % 2 == 0)),
    }
}

impl Rounding {
    /// Decide whether to round the absolute value up at the cut.
    pub fn round_away_from_zero(self, is_negative: bool, before: u8, after: u8, no_more: bool) -> (
        r: bool)
        ensures
            r == rounds_away(self, is_negative, before, after, no_more),
    {
        match self {
            Rounding::RoundDown | Rounding::RoundUp | Rounding::RoundTowardsZero
                | Rounding::RoundAwayFromZero => {
                if after == 0 && no_more {
                    false
                } else {
                    match self {
                        Rounding::RoundDown => is_negative,
                        Rounding::RoundUp => !is_negative,
                        Rounding::RoundAwayFromZero => true,
                        _ => false,
                    }
                }
            },
            _ => {
                if after > 5 {
                    true
                } else if after < 5 {
                    false
                } else if !no_more {
                    true
                } else {
                    match self {
                        Rounding::RoundHalfDown => is_negative,
                        Rounding::RoundHalfUp => !is_negative,
                        Rounding::RoundHalfTowardsZero => false,
                        Rounding::RoundHalfAwayFromZero => true,
                        Rounding::RoundHalfToEven => before % 2 == 1,
                        _ => before % 2 == 0,
                    }
                }
            },
        }
    }
}

/// Rounding to prepare for shorter precision: round up exactly when the last
/// kept digit is 0 or 5, so that one later, final rounding still lands right.
pub open spec fn rpsp_rounds_away(before: u8) -> bool {
    before == 0 || before == 5
}

/// The mode a rounding pass runs in: a final mode, or the intermediate RPSP.
#[derive(Clone, Copy)]
pub(crate) enum RoundingMode {
    Mode(Rounding),
    Rpsp,
}

/// Whether a pass in the given mode rounds the absolute value up at the cut.
pub(crate) open spec fn mode_rounds_away(
    mode: RoundingMode,
    is_negative: bool,
    before: u8,
    after: u8,
    no_more: bool,
) -> bool {
    match mode {
        RoundingMode::Mode(m) => rounds_away(m, is_negative, before, after, no_more),
        RoundingMode::Rpsp => rpsp_rounds_away(before),
    }
}

/// The target mantissa length of a precision request, for a value written
/// with `e0` digits before the decimal point.
pub open spec fn spec_precision_len(precision: Precision, e0: int) -> int {
    match precision {
        Precision::Digits(d) => d as int,
        Precision::Decimals(d) => e0 + d,
    }
}

impl Scientific {
    /// The target mantissa length of a precision request for this value.
    pub fn precision_len(&self, precision: Precision) -> (r: isize)
        requires
            self.wf(),
            self.roomy(),
            -(EXP_LIMIT as int) - 1 <= precision.inner() <= EXP_LIMIT as int + 1,
        ensures
            r as int == spec_precision_len(precision, self.spec_exponent0()),
    {
        match precision {
            Precision::Digits(d) => d,
            Precision::Decimals(d) => self.exponent + self.mantissa.len() as isize + d,
        }
    }
}

impl Scientific {
    /// Truncate in place: cut the mantissa after `L` digits (toward zero).
    /// `L` at least the current length leaves the value unchanged; `L` at
    /// most zero makes it zero.
    pub(crate) fn cut_assign(&mut self, target: isize)
        requires
            old(self).wf(),
            old(self).roomy(),
            -32 * (EXP_LIMIT as int) <= target <= 32 * (EXP_LIMIT as int),
        ensures
            final(self).wf(),
            target as int >= old(self).mantissa@.len() ==> final(self)@ == old(self)@,
            target <= 0 ==> final(self).spec_is_zero(),
            0 < target < old(self).mantissa@.len() ==> {
                let c = old(self).spec_exponent0() - target;
                &&& final(self).negative == old(self).negative
                &&& final(self).scale_ok(c)
                &&& final(self).val_at(c) == old(self).sign_int() * mant_val(
                    old(self).mantissa@.subrange(0, target as int),
                )
                &&& final(self).mantissa@.len() <= target
                &&& !final(self).spec_is_zero()
                &&& final(self).exponent >= c
                &&& final(self).spec_exponent0() <= old(self).spec_exponent0()
            },
    {
        let len = self.mantissa.len();
        if target >= 0 && target as usize >= len {
            return ;
        }
        if target <= 0 {
            let z = crate::sci::sci_zero();
            self.negative = z.negative;
            self.mantissa = z.mantissa;
            self.exponent = z.exponent;
            return ;
        }
        let keep = target as usize;
        let mut head: Vec<u8> = Vec::new();
        let mut i: usize = 0;
        while i < keep
            invariant
                i <= keep,
                keep < self.mantissa@.len(),
                head@ == self.mantissa@.subrange(0, i as int),
            decreases keep - i,
        {
            head.push(self.mantissa[i]);
            proof {
                assert(head@ =~= self.mantissa@.subrange(0, i + 1));
            }
            i += 1;
        }
        let drop = (len - keep) as isize;
        let new_exp = self.exponent + drop;
        proof {
            assert(head@[0] == self.mantissa@[0]);
            crate::digits::lemma_mant_val_first(head@);
            crate::digits::lemma_pow10_pos((head@.len() - 1) as nat);
        }
        let r = normalize(self.negative, head, new_exp);
        self.negative = r.negative;
        self.mantissa = r.mantissa;
        self.exponent = r.exponent;
    }

    /// Truncate in place to the requested precision (round toward zero).
    pub fn truncate_assign(&mut self, precision: Precision)
        requires
            old(self).wf(),
            old(self).roomy(),
            precision.bounded(),
        ensures
            final(self).wf(),
            ({
                let e0 = old(self).spec_exponent0();
                let target = spec_precision_len(precision, e0);
                &&& (target >= old(self).mantissa@.len() ==> final(self)@ == old(self)@)
                &&& (target <= 0 ==> final(self).spec_is_zero())
                &&& (0 < target < old(self).mantissa@.len() ==> {
                    let c = e0 - target;
                    &&& final(self).negative == old(self).negative
                    &&& final(self).scale_ok(c)
                    &&& final(self).val_at(c) == old(self).sign_int() * mant_val(
                        old(self).mantissa@.subrange(0, target),
                    )
                    &&& final(self).mantissa@.len() <= target
                    &&& final(self).spec_exponent0() <= e0
                })
            }),
    {
        let target = self.precision_len(precision);
        self.cut_assign(target);
    }

    /// Truncate to the requested precision (round toward zero).
    pub fn truncate(&self, precision: Precision) -> (r: Scientific)
        requires
            self.wf(),
            self.roomy(),
            precision.bounded(),
        ensures
            r.wf(),
            ({
                let e0 = self.spec_exponent0();
                let target = spec_precision_len(precision, e0);
                &&& (target >= self.mantissa@.len() ==> r@ == self@)
                &&& (target <= 0 ==> r.spec_is_zero())
                &&& (0 < target < self.mantissa@.len() ==> {
                    let c = e0 - target;
                    &&& r.negative == self.negative
                    &&& r.scale_ok(c)
                    &&& r.val_at(c) == self.sign_int() * mant_val(
                        self.mantissa@.subrange(0, target),
                    )
                    &&& r.mantissa@.len() <= target
                    &&& r.spec_exponent0() <= e0
                })
            }),
    {
        let mut r = self.clone();
        r.truncate_assign(precision);
        r
    }

    /// One rounding pass in either a final mode or RPSP.
    #[verifier::rlimit(60)]
    pub(crate) fn round_assign_mode(&mut self, precision: Precision, mode: RoundingMode)
        requires
            old(self).wf(),
            old(self).roomy(),
            -(EXP_LIMIT as int) - 1 <= precision.inner() <= EXP_LIMIT as int + 1,
        ensures
            final(self).wf(),
            spec_precision_len(precision, old(self).spec_exponent0()) >= old(
                self,
            ).mantissa@.len() ==> final(self)@ == old(self)@,
            spec_precision_len(precision, old(self).spec_exponent0()) < 0 ==> (match (
                mode,
                precision,
            ) {
                (RoundingMode::Rpsp, Precision::Decimals(d)) => {
                    &&& final(self).negative == old(self).negative
                    &&& final(self).mantissa@ =~= seq![1u8]
                    &&& final(self).exponent as int == -(d as int)
                },
                _ => final(self).spec_is_zero(),
            }),
            0 <= spec_precision_len(precision, old(self).spec_exponent0()) < old(
                self,
            ).mantissa@.len() ==> ({
                let e0 = old(self).spec_exponent0();
                let target = spec_precision_len(precision, e0);
                let len = old(self).mantissa@.len() as int;
                let c = e0 - target;
                let before: u8 = if target == 0 {
                    0
                } else {
                    old(self).mantissa@[target - 1]
                };
                let after: u8 = old(self).mantissa@[target];
                let no_more: bool = target + 1 == len;
                let up = mode_rounds_away(mode, old(self).negative, before, after, no_more);
                let kept = mant_val(old(self).mantissa@.subrange(0, target));
                &&& (up || target > 0 ==> final(self).negative == old(self).negative)
                &&& final(self).scale_ok(c)
                &&& final(self).val_at(c) == old(self).sign_int() * (kept + (if up {
                    1int
                } else {
                    0int
                }))
            }),
    {
        let len = self.mantissa.len();
        let target = self.precision_len(precision);
        if target >= 0 && target as usize >= len {
            return ;
        }
        if target < 0 {
            match (mode, precision) {
                (RoundingMode::Rpsp, Precision::Decimals(d)) => {
                    let keep_neg = self.negative && len != 0;
                    let one = sci_one(keep_neg, -d);
                    proof {
                        assert(one.mantissa@ =~= seq![1u8]);
                        assert(one.mantissa@ == seq![1u8]);
                    }
                    self.negative = one.negative;
                    self.mantissa = one.mantissa;
                    self.exponent = one.exponent;
                    proof {
                        assert(self.mantissa@ == seq![1u8]);
                    }
                },
                _ => {
                    let z = crate::sci::sci_zero();
                    self.negative = z.negative;
                    self.mantissa = z.mantissa;
                    self.exponent = z.exponent;
                },
            }
            return ;
        }
        // 0 <= target < len, so the value is non-zero
        let t = target as usize;
        let before: u8 = if t == 0 {
            0
        } else {
            self.mantissa[t - 1]
        };
        let after: u8 = self.mantissa[t];
        let no_more = t + 1 == len;
        let up = match mode {
            RoundingMode::Mode(m) => m.round_away_from_zero(self.negative, before, after, no_more),
            RoundingMode::Rpsp => before == 0 || before == 5,
        };
        if !up {
            self.cut_assign(target);
            proof {
                if t == 0 {
                    assert(self.mantissa@.subrange(0, 0) =~= Seq::<u8>::empty());
                }
            }
            return ;
        }
        // round the magnitude up at the cut: kept prefix plus one ulp
        let ghost old_m = self.mantissa@;
        let mut head: Vec<u8> = Vec::new();
        let mut i: usize = 0;
        while i < t
            invariant
                i <= t,
                t < self.mantissa@.len(),
                head@ == self.mantissa@.subrange(0, i as int),
            decreases t - i,
        {
            head.push(self.mantissa[i]);
            proof {
                assert(head@ =~= self.mantissa@.subrange(0, i + 1));
            }
            i += 1;
        }
        let mut onev: Vec<u8> = Vec::new();
        let mut j: usize = 0;
        while j < t
            invariant
                j <= t,
                onev@.len() == j,
                forall|k: int| 0 <= k < j ==> onev@[k] == 0u8,
            decreases t - j,
        {
            onev.push(0);
            j += 1;
        }
        onev.push(1);
        proof {
            assert(onev@.len() == t + 1);
            assert(onev@ =~= crate::digits::zeros(t as nat).push(1u8));
            crate::digits::lemma_zeros_val(t as nat);
            crate::digits::lemma_mant_val_push(crate::digits::zeros(t as nat), 1u8);
            assert(all_digits(onev@));
        }
        // head + 1, aligned at width t + 1: pad head with one leading zero
        let ph = crate::addsub::pad_digits(&head, 1, 0);
        proof {
            crate::addsub::lemma_padded_val(head@, 1, 0);
            assert(pow10(0) == 1);
            assert(mant_val(ph@) == mant_val(head@)) by (nonlinear_arith)
                requires mant_val(ph@) == mant_val(head@) * 1;
        }
        let summed = add_aligned(&ph, &onev);
        let new_exp = self.exponent + (len - t) as isize;
        proof {
            assert(mant_val(summed@) == mant_val(old_m.subrange(0, t as int)) + 1);
        }
        let r = normalize(self.negative, summed, new_exp);
        self.negative = r.negative;
        self.mantissa = r.mantissa;
        self.exponent = r.exponent;
    }

    /// Round in place to the requested precision with the given mode.
    pub fn round_assign(&mut self, precision: Precision, rounding: Rounding)
        requires
            old(self).wf(),
            old(self).roomy(),
            precision.bounded(),
        ensures
            final(self).wf(),
            ({
                let e0 = old(self).spec_exponent0();
                let target = spec_precision_len(precision, e0);
                let len = old(self).mantissa@.len() as int;
                &&& (target >= len ==> final(self)@ == old(self)@)
                &&& (target < 0 ==> final(self).spec_is_zero())
                &&& (0 <= target < len ==> {
                    let c = e0 - target;
                    let before: u8 = if target == 0 {
                        0
                    } else {
                        old(self).mantissa@[target - 1]
                    };
                    let after: u8 = old(self).mantissa@[target];
                    let no_more: bool = target + 1 == len;
                    let up = rounds_away(rounding, old(self).negative, before, after, no_more);
                    let kept = mant_val(old(self).mantissa@.subrange(0, target));
                    &&& final(self).scale_ok(c)
                    &&& final(self).val_at(c) == old(self).sign_int() * (kept + (if up {
                        1int
                    } else {
                        0int
                    }))
                })
            }),
    {
        self.round_assign_mode(precision, RoundingMode::Mode(rounding));
    }

    /// Round to the requested precision with the given mode.
    pub fn round(&self, precision: Precision, rounding: Rounding) -> (r: Scientific)
        requires
            self.wf(),
            self.roomy(),
            precision.bounded(),
        ensures
            r.wf(),
            ({
                let e0 = self.spec_exponent0();
                let target = spec_precision_len(precision, e0);
                let len = self.mantissa@.len() as int;
                &&& (target >= len ==> r@ == self@)
                &&& (target < 0 ==> r.spec_is_zero())
                &&& (0 <= target < len ==> {
                    let c = e0 - target;
                    let before: u8 = if target == 0 {
                        0
                    } else {
                        self.mantissa@[target - 1]
                    };
                    let after: u8 = self.mantissa@[target];
                    let no_more: bool = target + 1 == len;
                    let up = rounds_away(rounding, self.negative, before, after, no_more);
                    let kept = mant_val(self.mantissa@.subrange(0, target));
                    &&& r.scale_ok(c)
                    &&& r.val_at(c) == self.sign_int() * (kept + (if up {
                        1int
                    } else {
                        0int
                    }))
                })
            }),
    {
        let mut r = self.clone();
        r.round_assign(precision, rounding);
        r
    }

    /// Round in place with RPSP, keeping one extra digit beyond the request.
    pub fn round_rpsp_assign(&mut self, precision: Precision)
        requires
            old(self).wf(),
            old(self).roomy(),
            precision.bounded(),
            precision.inner() + 1 <= EXP_LIMIT as int,
        ensures
            final(self).wf(),
            rpsp_result(*old(self), precision, *final(self)),
    {
        let p = precision.plus(1);
        self.round_assign_mode(p, RoundingMode::Rpsp);
    }

    /// Round with RPSP, keeping one extra digit beyond the request.
    pub fn round_rpsp(&self, precision: Precision) -> (r: Scientific)
        requires
            self.wf(),
            self.roomy(),
            precision.bounded(),
            precision.inner() + 1 <= EXP_LIMIT as int,
        ensures
            r.wf(),
            rpsp_result(*self, precision, r),
    {
        let mut r = self.clone();
        r.round_rpsp_assign(precision);
        r
    }
}

/// What one RPSP rounding pass makes of a value (the post-state of the
/// rounding pass in RPSP mode, as `round_rpsp` states it).
pub open spec fn rpsp_pass(a: Scientific, precision: Precision, r: Scientific) -> bool {
    let e0 = a.spec_exponent0();
    let target = spec_precision_len(precision, e0);
    let len = a.mantissa@.len() as int;
    &&& r.wf()
    &&& (target >= len ==> r@ == a@)
    &&& (target < 0 ==> (match precision {
        Precision::Decimals(d) => {
            &&& r.negative == a.negative
            &&& r.mantissa@ =~= seq![1u8]
            &&& r.exponent as int == -(d as int)
        },
        _ => r.spec_is_zero(),
    }))
    &&& (0 <= target < len ==> {
        let c = e0 - target;
        let before: u8 = if target == 0 {
            0
        } else {
            a.mantissa@[target - 1]
        };
        let up = rpsp_rounds_away(before);
        let kept = mant_val(a.mantissa@.subrange(0, target));
        &&& (up || target > 0 ==> r.negative == a.negative)
        &&& r.scale_ok(c)
        &&& r.val_at(c) == a.sign_int() * (kept + (if up {
            1int
        } else {
            0int
        }))
    })
}

/// What an RPSP pass at `precision + 1` produces from `a`.
pub open spec fn rpsp_result(a: Scientific, precision: Precision, r: Scientific) -> bool {
    let e0 = a.spec_exponent0();
    let target = spec_precision_len(precision.shifted(1), e0);
    let len = a.mantissa@.len() as int;
    &&& (target >= len ==> r@ == a@)
    &&& (target < 0 ==> (match precision.shifted(1) {
        Precision::Decimals(d) => {
            &&& r.negative == a.negative
            &&& r.mantissa@ == seq![1u8]
            &&& r.exponent as int == -(d as int)
        },
        _ => r.spec_is_zero(),
    }))
    &&& (0 <= target < len ==> {
        let c = e0 - target;
        let before: u8 = if target == 0 {
            0
        } else {
            a.mantissa@[target - 1]
        };
        let up = rpsp_rounds_away(before);
        let kept = mant_val(a.mantissa@.subrange(0, target));
        &&& r.scale_ok(c)
        &&& r.val_at(c) == a.sign_int() * (kept + (if up {
            1int
        } else {
            0int
        }))
    })
}

} // verus!
