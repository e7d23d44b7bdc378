//! Square root: a Babylonian iteration seeds a guess, and a verified
//! correction pass pins the result to the exact truncated root.

use vstd::prelude::*;

use crate::digits::lemma_mant_val_first;
use crate::digits::lemma_pow10_adds;
use crate::digits::lemma_pow10_increases;
use crate::digits::lemma_pow10_pos;
use crate::digits::mant_val;
use crate::digits::pow10;
use crate::errors::Error;
use crate::rounding::Precision;
use crate::rounding::RoundingMode;
use crate::sci::lemma_canonical_unique;
use crate::sci::sci_one;
use crate::sci::sci_zero;
use crate::sci::Scientific;
use crate::sci::EXP_LIMIT;
use crate::sci::LEN_LIMIT;

verus! {

/// The scale at which the root bracket is stated: fine enough for the value
/// and for squares of multiples of `10^c`.
pub open spec fn root_scale(v: Scientific, c: int) -> int {
    if v.exponent <= 2 * c {
        v.exponent as int
    } else {
        2 * c
    }
}

/// `q` is the square root of `v` truncated to a multiple of `10^c`: the
/// largest such multiple whose square does not exceed `v`.
pub open spec fn floor_root_at(v: Scientific, c: int, q: Scientific) -> bool {
    let s = root_scale(v, c);
    let p = pow10((2 * c - s) as nat);
    let qq = q.val_at(c);
    &&& q.wf()
    &&& !q.negative
    &&& q.scale_ok(c)
    &&& qq >= 0
    &&& qq * qq * p <= v.val_at(s)
    &&& v.val_at(s) < (qq + 1) * (qq + 1) * p
}

/// Multiplying both sides by a positive factor keeps their order.
proof fn lemma_order_scaled(x: int, y: int, p: int)
    requires
        p >= 1,
    ensures
        (x < y) == (x * p < y * p),
{
    assert((x < y) == (x * p < y * p)) by (nonlinear_arith)
        requires p >= 1;
}

/// A non-negative well-formed value is not negative-signed.
proof fn lemma_nonneg_sign(q: Scientific, s: int)
    requires
        q.wf(),
        q.scale_ok(s),
        q.val_at(s) >= 0,
    ensures
        !q.negative,
{
    if !q.spec_is_zero() && q.negative {
        lemma_mant_val_first(q.mantissa@);
        lemma_pow10_pos((q.mantissa@.len() - 1) as nat);
        lemma_pow10_pos((q.exponent - s) as nat);
        assert(q.val_at(s) < 0) by (nonlinear_arith)
            requires
                q.val_at(s) == q.sign_int() * (mant_val(q.mantissa@) * pow10(
                    (q.exponent - s) as nat,
                )),
                q.sign_int() == -1,
                mant_val(q.mantissa@) >= 1,
                pow10((q.exponent - s) as nat) >= 1,
        ;
    }
}

/// A non-negative scaled value below `10^k` keeps its leading digit below
/// position `c + k`.
proof fn lemma_e0_from_bound(q: Scientific, c: int, k: nat)
    requires
        q.wf(),
        q.scale_ok(c),
        !q.negative,
        q.val_at(c) < pow10(k),
    ensures
        !q.spec_is_zero() ==> q.spec_exponent0() <= c + k,
{
    if !q.spec_is_zero() {
        crate::cmp::lemma_mag_bracket(q, c);
        assert(q.val_at(c) == mant_val(q.mantissa@) * pow10((q.exponent - c) as nat))
            by (nonlinear_arith)
            requires q.val_at(c) == 1 * (mant_val(q.mantissa@) * pow10((q.exponent - c) as nat))
                && q.sign_int() == 1,
        ;
        if q.spec_exponent0() > c + k {
            lemma_pow10_increases(k, (q.spec_exponent0() - 1 - c) as nat);
            assert(false);
        }
    }
}

/// A candidate inside a magnitude window sits inside the arithmetic envelope.
proof fn lemma_envelope(q: Scientific, c: int, k: nat)
    requires
        q.wf(),
        q.scale_ok(c),
        !q.negative,
        q.val_at(c) < pow10(k),
        -4 * (EXP_LIMIT as int) <= c,
        c + k <= 8 * (EXP_LIMIT as int),
        k <= 8 * (LEN_LIMIT as int),
    ensures
        q.roomy(),
        !q.spec_is_zero() ==> q.spec_exponent0() <= c + k,
{
    lemma_e0_from_bound(q, c, k);
    if !q.spec_is_zero() {
        assert(q.exponent >= c);
        assert(q.mantissa@.len() == q.spec_exponent0() - q.exponent);
    }
}

/// A positive value is at least one at any scale it lives on.
proof fn lemma_pos_val(v: Scientific, s: int)
    requires
        v.wf(),
        !v.spec_is_zero(),
        !v.negative,
        v.scale_ok(s),
    ensures
        v.val_at(s) >= 1,
        v.val_at(s) == mant_val(v.mantissa@) * pow10((v.exponent - s) as nat),
        v.val_at(s) < pow10((v.spec_exponent0() - s) as nat),
{
    crate::cmp::lemma_mag_bracket(v, s);
    lemma_pow10_pos((v.spec_exponent0() - 1 - s) as nat);
    assert(v.val_at(s) == mant_val(v.mantissa@) * pow10((v.exponent - s) as nat))
        by (nonlinear_arith)
        requires v.val_at(s) == 1 * (mant_val(v.mantissa@) * pow10((v.exponent - s) as nat))
            && v.sign_int() == 1,
    ;
}

/// The unit at scale `c` denotes exactly one.
proof fn lemma_u_val(u: Scientific, c: int)
    requires
        u.wf(),
        !u.negative,
        u@.1 =~= seq![1u8],
        u@.2 == c,
    ensures
        u.scale_ok(c),
        u.val_at(c) == 1,
        !u.spec_is_zero(),
{
    assert(mant_val(seq![1u8]) == 1) by {
        let s1 = seq![1u8];
        assert(s1.len() == 1);
        assert(s1[0] == 1u8);
        assert(s1.subrange(1, 1) =~= Seq::<u8>::empty());
        assert(mant_val(Seq::<u8>::empty()) == 0);
        assert(mant_val(s1) == (s1[0] as nat) * pow10(0) + mant_val(s1.subrange(1, 1)));
        assert(pow10(0) == 1);
        assert((1 as nat) * 1 == 1) by (nonlinear_arith);
    }
    assert(u.mantissa@ == seq![1u8]);
    assert(pow10(0) == 1);
    assert(u.val_at(c) == 1 * (1 * 1)) by (nonlinear_arith)
        requires
            u.val_at(c) == u.sign_int() * (mant_val(u.mantissa@) * pow10((u.exponent - c) as nat)),
            u.sign_int() == 1,
            mant_val(u.mantissa@) == 1,
            pow10((u.exponent - c) as nat) == 1,
    ;
}

/// Adding one unit at scale `c` raises the scaled value by one.
proof fn lemma_step_up(q: Scientific, u: Scientific, c: int, t: Scientific)
    requires
        q.wf(),
        !q.negative,
        q.scale_ok(c),
        q.val_at(c) >= 0,
        u.wf(),
        !u.negative,
        u@.1 =~= seq![1u8],
        u@.2 == c,
        crate::addsub::sum_spec(q, u, t),
    ensures
        t.wf(),
        !t.negative,
        t.scale_ok(c),
        t.val_at(c) == q.val_at(c) + 1,
{
    lemma_u_val(u, c);
    let s0 = crate::cmp::common_scale(q, u);
    if q.spec_is_zero() {
        crate::sci::lemma_val_at_scale(u, s0, c);
        assert(t.val_at(s0) == u.val_at(s0));
        lemma_canonical_unique(t, u, s0);
        assert(t@ == u@);
        assert(t.val_at(c) == 1);
    } else {
        assert(s0 == c);
        assert(t.val_at(c) == q.val_at(c) + 1);
        assert(!t.spec_is_zero());
        lemma_nonneg_sign(t, c);
    }
}

/// Removing one unit at scale `c` lowers the positive scaled value by one.
proof fn lemma_step_down(q: Scientific, u: Scientific, c: int, t: Scientific)
    requires
        q.wf(),
        !q.negative,
        q.scale_ok(c),
        q.val_at(c) >= 1,
        u.wf(),
        !u.negative,
        u@.1 =~= seq![1u8],
        u@.2 == c,
        crate::addsub::diff_spec(q, u, t),
    ensures
        t.wf(),
        !t.negative,
        t.scale_ok(c),
        t.val_at(c) == q.val_at(c) - 1,
{
    lemma_u_val(u, c);
    assert(!q.spec_is_zero());
    let s0 = crate::cmp::common_scale(q, u);
    assert(s0 == c);
    assert(t.val_at(c) == q.val_at(c) - 1);
    lemma_nonneg_sign(t, c);
}

/// The square of a multiple of `10^c` read at scale `2c`.
proof fn lemma_square_scale(q: Scientific, c: int, sq: Scientific)
    requires
        q.wf(),
        sq.wf(),
        q.scale_ok(c),
        crate::mul::prod_spec(q, q, sq),
    ensures
        sq.scale_ok(2 * c),
        sq.val_at(2 * c) == q.val_at(c) * q.val_at(c),
{
    if q.spec_is_zero() {
        assert(sq.spec_is_zero());
        assert(q.val_at(c) * q.val_at(c) == 0) by (nonlinear_arith)
            requires q.val_at(c) == 0;
    } else {
        let qe = q.exponent as int;
        let sp = qe + qe;
        crate::sci::lemma_val_at_scale(q, c, qe);
        crate::sci::lemma_val_at_scale(sq, 2 * c, sp);
        lemma_pow10_adds((qe - c) as nat, (qe - c) as nat);
        assert((sp - 2 * c) as nat == (qe - c) as nat + (qe - c) as nat);
        let x = q.val_at(qe);
        let pc = pow10((qe - c) as nat);
        assert(sq.val_at(2 * c) == (x * x) * (pc * pc));
        assert((x * x) * (pc * pc) == (x * pc) * (x * pc)) by (nonlinear_arith);
    }
}

/// Compare the square of a multiple of `10^c` against the value, at the
/// bracket's scale.
fn square_le(q: &Scientific, c: isize, v: &Scientific) -> (r: bool)
    requires
        q.wf(),
        v.wf(),
        q.roomy(),
        v.bounded(),
        q.scale_ok(c as int),
        !q.negative,
        !v.negative,
        !v.spec_is_zero(),
        -4 * (EXP_LIMIT as int) <= c <= 4 * (EXP_LIMIT as int),
    ensures
        ({
            let s = root_scale(*v, c as int);
            let p = pow10((2 * c - s) as nat);
            r == (q.val_at(c as int) * q.val_at(c as int) * p <= v.val_at(s))
        }),
{
    let sq = q.mul(q);
    let ord = v.compare(&sq);
    let r = !matches!(ord, core::cmp::Ordering::Less);
    proof {
        let s = root_scale(*v, c as int);
        let p = pow10((2 * c - s) as nat);
        let qq = q.val_at(c as int);
        lemma_square_scale(*q, c as int, sq);
        lemma_pos_val(*v, s);
        lemma_pow10_pos((2 * c - s) as nat);
        if sq.spec_is_zero() {
            // the square is zero, so the bound holds and the value is larger
            assert(qq == 0);
            assert(0 * 0 * p == 0) by (nonlinear_arith);
            let s2 = crate::cmp::common_scale(*v, sq);
            lemma_pos_val(*v, s2);
            assert(v.val_at(s2) > sq.val_at(s2));
            assert(r == true);
        } else {
            let s2 = crate::cmp::common_scale(*v, sq);
            assert(sq.exponent >= 2 * c);
            assert(s2 >= s);
            crate::sci::lemma_val_at_scale(*v, s, s2);
            crate::sci::lemma_val_at_scale(sq, s, s2);
            lemma_pow10_pos((s2 - s) as nat);
            lemma_order_scaled(v.val_at(s2), sq.val_at(s2), pow10((s2 - s) as nat) as int);
            lemma_order_scaled(sq.val_at(s2), v.val_at(s2), pow10((s2 - s) as nat) as int);
            crate::sci::lemma_val_at_scale(sq, s, 2 * c);
            assert(sq.val_at(s) == (qq * qq) * pow10((2 * c - s) as nat));
            assert((qq * qq) * p == qq * qq * p) by (nonlinear_arith);
            match ord {
                core::cmp::Ordering::Less => {
                    assert(v.val_at(s2) < sq.val_at(s2));
                    assert(v.val_at(s) < sq.val_at(s));
                },
                _ => {
                    assert(!(v.val_at(s2) < sq.val_at(s2)));
                    assert(!(v.val_at(s) < sq.val_at(s)));
                },
            }
        }
    }
    r
}

/// The half-window of the root bracket: a magnitude cap for every candidate
/// whose square fits under the value.
pub open spec fn root_half_window(v: Scientific, c: int) -> nat {
    ((v.spec_exponent0() - root_scale(v, c) + 1) / 2) as nat
}

/// A candidate whose square fits under the value stays below the
/// half-window cap.
proof fn lemma_root_cap(v: Scientific, c: int, q: Scientific)
    requires
        v.wf(),
        v.bounded(),
        !v.spec_is_zero(),
        !v.negative,
        q.wf(),
        !q.negative,
        q.scale_ok(c),
        q.val_at(c) >= 0,
        -4 * (EXP_LIMIT as int) <= c <= 4 * (EXP_LIMIT as int),
        q.val_at(c) * q.val_at(c) * pow10((2 * c - root_scale(v, c)) as nat) <= v.val_at(
            root_scale(v, c),
        ),
    ensures
        q.val_at(c) < pow10(root_half_window(v, c)),
        c + root_half_window(v, c) <= 6 * (EXP_LIMIT as int),
        root_half_window(v, c) <= 6 * (LEN_LIMIT as int),
{
    let s = root_scale(v, c);
    let p = pow10((2 * c - s) as nat);
    let qq = q.val_at(c);
    let ka = root_half_window(v, c);
    let e0v = v.spec_exponent0();
    lemma_pow10_pos((2 * c - s) as nat);
    lemma_pos_val(v, s);
    assert(qq * qq * p < pow10((e0v - s) as nat));
    assert(qq * qq <= qq * qq * p) by (nonlinear_arith)
        requires
            p >= 1,
            qq >= 0,
    ;
    // the window halves the leading position: 2 * ka >= e0v - s
    assert(2 * ((e0v - s + 1) / 2) >= e0v - s) by {
        assert(e0v - s + 1 == 2 * ((e0v - s + 1) / 2) + (e0v - s + 1) % 2);
        assert(0 <= (e0v - s + 1) % 2 < 2);
    }
    lemma_pow10_adds(ka, ka);
    lemma_pow10_increases((e0v - s) as nat, (ka + ka) as nat);
    if qq >= pow10(ka) {
        lemma_pow10_pos(ka);
        assert(qq * qq >= pow10(ka) * pow10(ka)) by (nonlinear_arith)
            requires qq >= pow10(ka) && pow10(ka) >= 1;
        assert(false);
    }
    // window bounds: the scale is at most the exponent and at most 2c
    assert(e0v - s <= e0v - v.exponent || e0v - s <= e0v - 2 * c);
}

/// The number one half, `5 * 10^-1`.
fn sci_half() -> (r: Scientific)
    ensures
        r.wf(),
        r.bounded(),
        !r.spec_is_zero(),
        !r.negative,
{
    let mut m: Vec<u8> = Vec::new();
    m.push(5);
    Scientific { negative: false, mantissa: m, exponent: -1 }
}

impl Scientific {
    /// Whether the value is inside the envelope the iteration's arithmetic
    /// accepts; checked at run time between steps.
    fn check_bounded(&self) -> (r: bool)
        ensures
            r ==> self.bounded(),
    {
        self.exponent >= -EXP_LIMIT && self.exponent <= EXP_LIMIT && self.mantissa.len()
            <= LEN_LIMIT
    }

    /// Shorten a working guess to the iteration's precision.
    fn sqrt_limit(&mut self, precision: Precision)
        requires
            old(self).wf(),
            old(self).roomy(),
            precision.bounded(),
        ensures
            final(self).wf(),
    {
        let len = self.precision_len(precision);
        let target = if len < 1 {
            1
        } else if len > EXP_LIMIT {
            EXP_LIMIT
        } else {
            len
        };
        self.cut_assign(target);
    }

    /// A fast Babylonian guess near the square root; only well-formedness is
    /// relied on, the exact answer comes from the correction pass.
    fn heron_seed(&self, precision: Precision) -> (r: Scientific)
        requires
            self.wf(),
            self.bounded(),
            !self.spec_is_zero(),
            !self.negative,
            precision.bounded(),
        ensures
            r.wf(),
    {
        let e0 = self.exponent0();
        let adapt = e0 / 2;
        let mut guess = self.clone();
        guess.shr_assign(adapt);
        guess.sqrt_limit(precision);
        let mut fuel: usize = 20000;
        while fuel > 0
            invariant
                guess.wf(),
                self.wf(),
                self.bounded(),
                !self.spec_is_zero(),
                !self.negative,
                precision.bounded(),
            decreases fuel,
        {
            fuel = fuel - 1;
            if guess.is_zero() || guess.is_sign_negative() || !guess.check_bounded() {
                break ;
            }
            let ld0: isize = match precision {
                Precision::Digits(d) => d,
                Precision::Decimals(d) => {
                    let e0v = self.exponent0();
                    let e0g = guess.exponent0();
                    e0v - e0g + d + 1
                },
            };
            let ld1 = if ld0 >= 1 {
                ld0
            } else {
                1
            };
            if ld1 >= EXP_LIMIT {
                break ;
            }
            let ld = ld1 + 1;
            let quot = match self.div_mode(&guess, Precision::Digits(ld), false) {
                Ok(q) => q,
                Err(_) => {
                    break ;
                },
            };
            if !quot.check_bounded() {
                break ;
            }
            let sum = guess.add(&quot);
            if !sum.check_bounded() {
                break ;
            }
            let half = sci_half();
            let mut next = half.mul(&sum);
            next.sqrt_limit(precision);
            if !next.check_bounded() {
                break ;
            }
            let ord = guess.compare(&next);
            if matches!(ord, core::cmp::Ordering::Equal) {
                break ;
            }
            guess = next;
        }
        guess
    }

    /// The square root truncated to a multiple of `10^c`: the unique `q >= 0`
    /// with `q^2 <= self < (q + 10^c)^2`.
    fn sqrt_floor_at(&self, c: isize, precision: Precision) -> (q: Scientific)
        requires
            self.wf(),
            self.bounded(),
            !self.spec_is_zero(),
            !self.negative,
            precision.bounded(),
            -4 * (EXP_LIMIT as int) <= c <= 4 * (EXP_LIMIT as int),
        ensures
            floor_root_at(*self, c as int, q),
            q.roomy(),
    {
        let ghost s = root_scale(*self, c as int);
        let ghost p = pow10((2 * c - s) as nat);
        // the seed phase tolerates magnitudes up to the seed envelope, the
        // climb phase only up to the root's own window
        let ghost kd: nat = if c as int <= 2 * (EXP_LIMIT as int) + 1 {
            (2 * (EXP_LIMIT as int) + 1 - c) as nat
        } else {
            0
        };
        let ghost ka: nat = root_half_window(*self, c as int);
        proof {
            lemma_pow10_pos((2 * c - s) as nat);
            lemma_pos_val(*self, s);
            lemma_pow10_pos(kd);
            assert(c as int + kd <= 8 * (EXP_LIMIT as int));
            assert(kd <= 8 * (LEN_LIMIT as int));
        }
        let u = sci_one(false, c);
        proof {
            assert(u.roomy());
        }
        // seed, then clamp to a non-negative in-envelope multiple of 10^c
        let seed = self.heron_seed(precision);
        let mut q: Scientific;
        if seed.is_zero() || seed.is_sign_negative() || !seed.check_bounded() {
            q = sci_zero();
        } else if seed.exponent >= c {
            q = seed;
        } else {
            let target = seed.exponent + seed.mantissa.len() as isize - c;
            let mut cut = seed;
            cut.cut_assign(target);
            q = cut;
            proof {
                if !q.spec_is_zero() {
                    lemma_nonneg_sign(q, c as int);
                }
            }
        }
        proof {
            // the seed's envelope bounds its scaled magnitude
            if !q.spec_is_zero() {
                lemma_pos_val(q, c as int);
                lemma_pow10_increases((q.spec_exponent0() - c) as nat, kd);
            }
            lemma_envelope(q, c as int, kd);
        }
        // descend while the square overshoots
        let mut le = square_le(&q, c, self);
        while !le
            invariant
                self.wf(),
                self.bounded(),
                !self.spec_is_zero(),
                !self.negative,
                s == root_scale(*self, c as int),
                p == pow10((2 * c - s) as nat),
                p >= 1,
                self.val_at(s) >= 1,
                -4 * (EXP_LIMIT as int) <= c <= 4 * (EXP_LIMIT as int),
                u.wf(),
                !u.negative,
                u@.1 =~= seq![1u8],
                u@.2 == c as int,
                q.wf(),
                !q.negative,
                q.scale_ok(c as int),
                q.val_at(c as int) >= 0,
                q.val_at(c as int) < pow10(kd),
                c as int + kd <= 8 * (EXP_LIMIT as int),
                kd <= 8 * (LEN_LIMIT as int),
                le == (q.val_at(c as int) * q.val_at(c as int) * p <= self.val_at(s)),
            decreases q.val_at(c as int),
        {
            proof {
                // overshooting means the candidate is positive
                if q.val_at(c as int) == 0 {
                    assert(0 * 0 * p == 0) by (nonlinear_arith);
                    assert(false);
                }
                lemma_envelope(q, c as int, kd);
            }
            let next = q.sub(&u);
            proof {
                lemma_step_down(q, u, c as int, next);
                lemma_envelope(next, c as int, kd);
            }
            q = next;
            le = square_le(&q, c, self);
        }
        // ascend while the next multiple still fits under the value
        proof {
            lemma_root_cap(*self, c as int, q);
            lemma_envelope(q, c as int, ka);
        }
        let mut t = q.add(&u);
        proof {
            lemma_step_up(q, u, c as int, t);
            lemma_pow10_increases(ka, (ka + 1) as nat);
            lemma_envelope(t, c as int, (ka + 1) as nat);
        }
        let mut le2 = square_le(&t, c, self);
        while le2
            invariant
                self.wf(),
                self.bounded(),
                !self.spec_is_zero(),
                !self.negative,
                s == root_scale(*self, c as int),
                p == pow10((2 * c - s) as nat),
                p >= 1,
                self.val_at(s) >= 1,
                -4 * (EXP_LIMIT as int) <= c <= 4 * (EXP_LIMIT as int),
                u.wf(),
                !u.negative,
                u@.1 =~= seq![1u8],
                u@.2 == c as int,
                q.wf(),
                !q.negative,
                q.scale_ok(c as int),
                q.val_at(c as int) >= 0,
                q.val_at(c as int) * q.val_at(c as int) * p <= self.val_at(s),
                t.wf(),
                !t.negative,
                t.scale_ok(c as int),
                t.val_at(c as int) == q.val_at(c as int) + 1,
                le2 == (t.val_at(c as int) * t.val_at(c as int) * p <= self.val_at(s)),
                ka == root_half_window(*self, c as int),
            decreases self.val_at(s) - q.val_at(c as int) * q.val_at(c as int) * p,
        {
            proof {
                // the measure shrinks because the square strictly grows
                let qq = q.val_at(c as int);
                assert((qq + 1) * (qq + 1) * p > qq * qq * p) by (nonlinear_arith)
                    requires
                        qq >= 0,
                        p >= 1,
                ;
                lemma_root_cap(*self, c as int, t);
                lemma_envelope(t, c as int, ka);
            }
            q = t;
            t = q.add(&u);
            proof {
                lemma_step_up(q, u, c as int, t);
                lemma_root_cap(*self, c as int, q);
                lemma_pow10_increases(ka, (ka + 1) as nat);
                lemma_envelope(t, c as int, (ka + 1) as nat);
            }
            le2 = square_le(&t, c, self);
        }
        proof {
            lemma_root_cap(*self, c as int, q);
            lemma_envelope(q, c as int, ka);
        }
        q
    }

    /// The bracket cut for a precision request: the position of the last
    /// digit the truncated root keeps.
    fn root_cut(&self, precision: Precision) -> (c: isize)
        requires
            self.wf(),
            self.bounded(),
            !self.spec_is_zero(),
            precision.bounded(),
        ensures
            c as int == spec_root_cut(*self, precision),
            -4 * (EXP_LIMIT as int) + 1 <= c <= 4 * (EXP_LIMIT as int),
    {
        match precision {
            Precision::Decimals(d) => -d,
            Precision::Digits(n) => {
                let t = self.exponent + self.mantissa.len() as isize + 1;
                let h = if t >= 0 {
                    t / 2
                } else {
                    -((-t + 1) / 2)
                };
                proof {
                    lemma_floor_half(t as int);
                }
                h - n
            },
        }
    }

    /// Square root, truncated at the requested precision: for `Decimals(d)`
    /// the unique `q >= 0` with `q^2 <= self < (q + 10^-d)^2`; for
    /// `Digits(n)` the same bracket at the `n`-digit cut of the root.
    pub fn sqrt_truncate(&self, precision: Precision) -> (r: Result<Scientific, Error>)
        requires
            self.wf(),
            self.bounded(),
            precision.bounded(),
        ensures
            r is Err <==> (!self.spec_is_zero() && self.negative),
            r is Err ==> r == Result::<Scientific, Error>::Err(Error::NumberIsNegative),
            self.spec_is_zero() ==> (r matches Ok(q) && q.spec_is_zero() && q.wf()),
            (!self.spec_is_zero() && !self.negative) ==> (r matches Ok(q) ==> {
                &&& floor_root_at(*self, spec_root_cut(*self, precision), q)
                &&& (precision matches Precision::Digits(n) ==> q.mantissa@.len() <= (if n >= 0 {
                    n as int
                } else {
                    0
                }))
            }),
    {
        if self.is_zero() {
            return Ok(sci_zero());
        }
        if self.is_sign_negative() {
            return Err(Error::NumberIsNegative);
        }
        let c = self.root_cut(precision);
        let q = self.sqrt_floor_at(c, precision);
        proof {
            if let Precision::Digits(n) = precision {
                lemma_digit_cut_len(*self, n as int, q);
            }
        }
        Ok(q)
    }

    /// Square root with RPSP: the exact truncated root at one digit past the
    /// request, RPSP-rounded, so that one later final rounding lands right.
    pub fn sqrt_rpsp(&self, precision: Precision) -> (r: Result<Scientific, Error>)
        requires
            self.wf(),
            self.bounded(),
            precision.bounded(),
            precision.inner() + 1 <= EXP_LIMIT as int,
        ensures
            r is Err <==> (!self.spec_is_zero() && self.negative),
            r is Err ==> r == Result::<Scientific, Error>::Err(Error::NumberIsNegative),
            self.spec_is_zero() ==> (r matches Ok(q) && q.spec_is_zero() && q.wf()),
            (!self.spec_is_zero() && !self.negative) ==> (r matches Ok(q) ==> exists|t: Scientific|
                {
                    &&& #[trigger] floor_root_at(
                        *self,
                        spec_root_cut(*self, precision.shifted(1)) - 1,
                        t,
                    )
                    &&& crate::rounding::rpsp_pass(t, precision.shifted(1), q)
                }),
    {
        if self.is_zero() {
            return Ok(sci_zero());
        }
        if self.is_sign_negative() {
            return Err(Error::NumberIsNegative);
        }
        let p1 = precision.plus(1);
        let c1 = self.root_cut(p1);
        let t = self.sqrt_floor_at(c1 - 1, p1);
        let mut q = t.clone();
        q.round_assign_mode(p1, RoundingMode::Rpsp);
        proof {
            assert(floor_root_at(*self, spec_root_cut(*self, precision.shifted(1)) - 1, t));
            assert(crate::rounding::rpsp_pass(t, precision.shifted(1), q));
        }
        Ok(q)
    }
}

/// The cut position `10^c` of the truncated root for a precision request:
/// `Decimals(d)` cuts at `10^-d`; `Digits(n)` keeps `n` digits of the root,
/// whose leading digit sits just below `10^((e0 + 1) div 2)`.
pub open spec fn spec_root_cut(v: Scientific, precision: Precision) -> int {
    match precision {
        Precision::Decimals(d) => -(d as int),
        Precision::Digits(n) => (v.spec_exponent0() + 1) / 2 - n,
    }
}

/// Floor division by two, computed with machine operators.
proof fn lemma_floor_half(t: int)
    ensures
        t < 0 ==> -((-t + 1) / 2) == t / 2,
{
    if t < 0 {
        let a = t / 2;
        let r = t % 2;
        assert(t == 2 * a + r);
        assert(0 <= r < 2);
        assert(-t + 1 == 2 * (-a) + (1 - r));
        assert(0 <= 1 - r < 2);
        assert((-t + 1) / 2 == -a && (-t + 1) % 2 == 1 - r) by (nonlinear_arith)
            requires
                -t + 1 == 2 * (-a) + (1 - r),
                0 <= 1 - r < 2,
        ;
    }
}

/// At an `n`-digit cut the truncated root keeps at most `n` digits.
proof fn lemma_digit_cut_len(v: Scientific, n: int, q: Scientific)
    requires
        v.wf(),
        !v.spec_is_zero(),
        !v.negative,
        floor_root_at(v, (v.spec_exponent0() + 1) / 2 - n, q),
    ensures
        q.mantissa@.len() <= (if n >= 0 {
            n
        } else {
            0
        }),
{
    let c = (v.spec_exponent0() + 1) / 2 - n;
    let s = root_scale(v, c);
    let p = pow10((2 * c - s) as nat);
    let qq = q.val_at(c);
    let e0v = v.spec_exponent0();
    let k: int = if n >= 0 {
        n
    } else {
        0
    };
    lemma_pow10_pos((2 * c - s) as nat);
    lemma_pos_val(v, s);
    // the halved leading position leaves at most 2k digit positions squared
    assert(2 * ((e0v + 1) / 2) >= e0v) by {
        assert(e0v + 1 == 2 * ((e0v + 1) / 2) + (e0v + 1) % 2);
        assert(0 <= (e0v + 1) % 2 < 2);
    }
    assert(e0v - s <= 2 * c + 2 * k - s);
    lemma_pow10_increases((e0v - s) as nat, (2 * c + 2 * k - s) as nat);
    lemma_pow10_adds((2 * c - s) as nat, (2 * k) as nat);
    assert(pow10((2 * c + 2 * k - s) as nat) == p * pow10((2 * k) as nat));
    assert(qq * qq * p < p * pow10((2 * k) as nat));
    assert(qq * qq * p == (qq * qq) * p) by (nonlinear_arith);
    assert(p * pow10((2 * k) as nat) == pow10((2 * k) as nat) * p) by (nonlinear_arith);
    assert(qq * qq < pow10((2 * k) as nat)) by (nonlinear_arith)
        requires
            (qq * qq) * p < (pow10((2 * k) as nat)) * p,
            p >= 1,
    ;
    lemma_pow10_adds(k as nat, k as nat);
    if qq >= pow10(k as nat) {
        lemma_pow10_pos(k as nat);
        assert(qq * qq >= pow10(k as nat) * pow10(k as nat)) by (nonlinear_arith)
            requires qq >= pow10(k as nat) && pow10(k as nat) >= 1;
        assert(false);
    }
    lemma_e0_from_bound(q, c, k as nat);
    assert(q.mantissa@.len() <= q.spec_exponent0() - (c as int) || q.spec_is_zero()) by {
        if !q.spec_is_zero() {
            assert(q.exponent >= c);
        }
    }
}

} // verus!
