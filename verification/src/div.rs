//! Division: truncating, with remainder, and with RPSP.

use vstd::prelude::*;

use crate::digits::all_digits;
use crate::digits::ge_digits;
use crate::digits::lemma_len_from_bound;
use crate::digits::lemma_mant_val_bound;
use crate::digits::lemma_mant_val_concat;
use crate::digits::lemma_mant_val_first;
use crate::digits::lemma_mant_val_push;
use crate::digits::lemma_pow10_adds;
use crate::digits::lemma_pow10_increases;
use crate::digits::lemma_pow10_pos;
use crate::digits::mant_val;
use crate::digits::pow10;
use crate::digits::sub_aligned;
use crate::digits::trim_leading;
use crate::errors::Error;
use crate::sci::normalize;
use crate::sci::sci_one;
use crate::sci::sci_zero;
use crate::sci::Scientific;
use crate::sci::EXP_LIMIT;
use crate::sci::LEN_LIMIT;

verus! {

/// The scale at which the division contract is stated: fine enough for the
/// dividend and for the quotient-times-divisor product.
pub open spec fn div_scale(a: Scientific, b: Scientific, c: int) -> int {
    if a.exponent <= c + b.exponent {
        a.exponent as int
    } else {
        c + b.exponent
    }
}

/// `a - w*10^c*b` as seen from the dividend's sign, scaled to `div_scale`:
/// the signed division error of the quotient `w * 10^c`.
pub open spec fn div_err_val(a: Scientific, b: Scientific, c: int, w: int) -> int {
    let s = div_scale(a, b, c);
    a.sign_int() * (a.val_at(s) - w * b.val_at(b.exponent as int) * pow10(
        (c + b.exponent - s) as nat,
    ))
}

/// The signed division error of a quotient value `q` that is a multiple of
/// `10^c`.
pub open spec fn div_err(a: Scientific, b: Scientific, c: int, q: Scientific) -> int {
    div_err_val(a, b, c, q.val_at(c))
}

/// The divisor magnitude times one unit in the quotient's last place, at the
/// contract's scale: the bound a truncating division leaves the error under.
pub open spec fn div_ulp(a: Scientific, b: Scientific, c: int) -> int {
    (mant_val(b.mantissa@) * pow10((c + b.exponent - div_scale(a, b, c)) as nat)) as int
}

/// A digit-precision quotient is exact at some cut no coarser than one place
/// above the requested digit count.
pub open spec fn digits_quotient_ok(a: Scientific, b: Scientific, d: int, q: Scientific) -> bool {
    exists|c2: int|
        {
            &&& c2 <= a.spec_exponent0() - b.spec_exponent0() - d + 1
            &&& q.scale_ok(c2)
            &&& 0 <= #[trigger] div_err(a, b, c2, q)
            &&& div_err(a, b, c2, q) < div_ulp(a, b, c2)
        }
}

/// The quotient cut of an RPSP division pass, for the already-widened
/// precision request.
pub open spec fn rpsp_cut(a: Scientific, b: Scientific, precision: crate::rounding::Precision) -> int {
    match precision {
        crate::rounding::Precision::Decimals(d) => -(d as int),
        crate::rounding::Precision::Digits(n) => a.spec_exponent0() - b.spec_exponent0() - n,
    }
}

/// Whether low digits of the dividend fall below the cut and are dropped
/// before dividing, which by itself forces the inexactness marker.
pub open spec fn rpsp_forced(a: Scientific, b: Scientific, precision: crate::rounding::Precision) -> bool {
    match precision {
        crate::rounding::Precision::Digits(n) => (n as int) < a.mantissa@.len()
            - b.mantissa@.len(),
        crate::rounding::Precision::Decimals(d) => a.exponent - b.exponent + (d as int) < 0,
    }
}

/// The marked quotient an RPSP division pass then rounds: the quotient
/// truncated at the cut, moved one digit lower, with the marker digit `8`
/// appended exactly when the division was inexact.
pub open spec fn marked_quotient(
    a: Scientific,
    b: Scientific,
    precision: crate::rounding::Precision,
    q0: Scientific,
) -> bool {
    let c = rpsp_cut(a, b, precision);
    let sx: int = if a.negative != b.negative {
        -1
    } else {
        1
    };
    &&& q0.wf()
    &&& q0.scale_ok(c - 1)
    &&& exists|w: int|
        {
            &&& #[trigger] div_err_val(a, b, c, w) >= 0
            &&& sx * w >= 0
            &&& div_err_val(a, b, c, w) < div_ulp(a, b, c)
            &&& q0.val_at(c - 1) == 10 * w + sx * (if div_err_val(a, b, c, w) != 0 || rpsp_forced(
                a,
                b,
                precision,
            ) {
                8int
            } else {
                0int
            })
        }
}

/// Long division of digit vectors: quotient digits (one per dividend digit)
/// and the remainder, with the Euclidean identity and remainder bound.
fn div_digits(num: &Vec<u8>, den: &Vec<u8>) -> (r: (Vec<u8>, Vec<u8>))
    requires
        all_digits(num@),
        all_digits(den@),
        den@.len() > 0,
        den@[0] != 0,
        num@.len() <= 8 * LEN_LIMIT,
        den@.len() <= LEN_LIMIT,
    ensures
        all_digits(r.0@),
        r.0@.len() == num@.len(),
        all_digits(r.1@),
        r.1@.len() > 0 ==> r.1@[0] != 0,
        r.1@.len() <= den@.len(),
        mant_val(r.1@) < mant_val(den@),
        mant_val(num@) == mant_val(r.0@) * mant_val(den@) + mant_val(r.1@),
{
    let n = num.len();
    let lb = den.len();
    let ghost dv = mant_val(den@);
    proof {
        lemma_mant_val_first(den@);
        lemma_pow10_pos((lb - 1) as nat);
        lemma_mant_val_bound(den@);
        assert(num@.subrange(0, 0) =~= Seq::<u8>::empty());
        assert((0 as nat) * dv == 0) by (nonlinear_arith);
    }
    let mut q: Vec<u8> = Vec::new();
    let mut rem: Vec<u8> = Vec::new();
    let mut i: usize = 0;
    while i < n
        invariant
            i <= n,
            n == num@.len(),
            lb == den@.len(),
            n <= 8 * LEN_LIMIT,
            lb <= LEN_LIMIT,
            all_digits(num@),
            all_digits(den@),
            den@[0] != 0,
            dv == mant_val(den@),
            1 <= dv < pow10(lb as nat),
            all_digits(q@),
            q@.len() == i,
            all_digits(rem@),
            rem@.len() > 0 ==> rem@[0] != 0,
            rem@.len() <= lb,
            mant_val(rem@) < dv,
            mant_val(num@.subrange(0, i as int)) == mant_val(q@) * dv + mant_val(rem@),
        decreases n - i,
    {
        let d = num[i];
        let ghost qv = mant_val(q@);
        let ghost rv0 = mant_val(rem@);
        let ghost started = mant_val(num@.subrange(0, i as int));
        let ghost rold = rem@;
        rem.push(d);
        let rem1 = trim_leading(&rem);
        rem = rem1;
        proof {
            // value after shifting one dividend digit in
            let pre = num@.subrange(0, i as int);
            let nxt = num@.subrange(0, i + 1);
            assert(nxt =~= pre.push(num@[i as int]));
            lemma_mant_val_push(pre, num@[i as int]);
            lemma_mant_val_push(rold, d);
            assert(mant_val(rem@) == 10 * rv0 + d);
            assert(mant_val(rem@) < 10 * dv) by (nonlinear_arith)
                requires
                    mant_val(rem@) == 10 * rv0 + d,
                    rv0 < dv,
                    d <= 9,
                    dv >= 1,
            ;
            // digit-count bound for the grown remainder
            assert(10 * dv <= 10 * pow10(lb as nat)) by (nonlinear_arith)
                requires dv < pow10(lb as nat);
            assert(pow10((lb + 1) as nat) == 10 * pow10(lb as nat));
            lemma_len_from_bound(rem@, (lb + 1) as nat);
        }
        let ghost base = mant_val(rem@);
        let mut qd: u8 = 0;
        while ge_digits(&rem, den)
            invariant
                lb == den@.len(),
                lb <= LEN_LIMIT,
                all_digits(den@),
                den@[0] != 0,
                dv == mant_val(den@),
                1 <= dv < pow10(lb as nat),
                all_digits(rem@),
                rem@.len() > 0 ==> rem@[0] != 0,
                rem@.len() <= lb + 1,
                base < 10 * dv,
                qd <= 9,
                base == (qd as nat) * dv + mant_val(rem@),
            decreases mant_val(rem@),
        {
            proof {
                // the remainder still holds a full divisor, so fewer than
                // nine subtractions have happened
                assert(qd < 9) by (nonlinear_arith)
                    requires
                        base == (qd as nat) * dv + mant_val(rem@),
                        mant_val(rem@) >= dv,
                        base < 10 * dv,
                        dv >= 1,
                ;
                // equal value bound forces the remainder to be at least as long
                if rem@.len() < lb {
                    lemma_mant_val_bound(rem@);
                    lemma_mant_val_first(den@);
                    lemma_pow10_increases(rem@.len(), (lb - 1) as nat);
                    assert(false);
                }
            }
            let pd = crate::addsub::pad_digits(den, rem.len() - lb, 0);
            proof {
                crate::addsub::lemma_padded_val(den@, (rem@.len() - lb) as nat, 0);
                assert(pow10(0) == 1);
                assert(mant_val(pd@) == dv) by (nonlinear_arith)
                    requires mant_val(pd@) == dv * 1;
            }
            let diff = sub_aligned(&rem, &pd);
            let trimmed = trim_leading(&diff);
            proof {
                assert(mant_val(trimmed@) == mant_val(rem@) - dv);
                assert(pow10((lb + 1) as nat) == 10 * pow10(lb as nat));
                assert(10 * dv <= 10 * pow10(lb as nat)) by (nonlinear_arith)
                    requires dv < pow10(lb as nat);
                lemma_len_from_bound(trimmed@, (lb + 1) as nat);
            }
            proof {
                assert(((qd + 1) as nat) * dv == (qd as nat) * dv + dv) by (nonlinear_arith);
            }
            rem = trimmed;
            qd = qd + 1;
        }
        let ghost qold = q@;
        q.push(qd);
        proof {
            assert(q@ =~= qold.push(qd));
            lemma_mant_val_push(qold, qd);
            assert(mant_val(q@) * dv == (10 * qv + qd) * dv) by (nonlinear_arith)
                requires mant_val(q@) == 10 * qv + qd;
            assert((10 * qv + qd) * dv == 10 * (qv * dv) + (qd as nat) * dv) by (nonlinear_arith);
            // tie the pieces: num prefix value equals quotient times divisor
            // plus remainder
            assert(mant_val(num@.subrange(0, i + 1)) == 10 * started + num@[i as int]);
            lemma_pow10_increases((lb - 1) as nat, lb as nat);
            lemma_len_from_bound(rem@, lb as nat);
        }
        i += 1;
    }
    proof {
        assert(num@.subrange(0, n as int) =~= num@);
    }
    (q, rem)
}

/// The signed unit factors multiply out: the error of the digit division is
/// the error of the signed one.
proof fn lemma_div_exact(a: Scientific, b: Scientific, extra: int, qm: Seq<u8>, rv: nat, w: int)
    requires
        a.wf(),
        b.wf(),
        !a.spec_is_zero(),
        !b.spec_is_zero(),
        all_digits(qm),
        -8 * (EXP_LIMIT as int) <= extra <= 8 * (EXP_LIMIT as int),
        extra >= 0 ==> mant_val(a.mantissa@) * pow10(extra as nat) == mant_val(qm) * mant_val(
            b.mantissa@,
        ) + rv,
        extra < 0 ==> a.mantissa@.len() + extra >= 1 && mant_val(
            a.mantissa@.subrange(0, a.mantissa@.len() + extra),
        ) == mant_val(qm) * mant_val(b.mantissa@) + rv,
        rv < mant_val(b.mantissa@),
        w == (if a.negative != b.negative {
            -1int
        } else {
            1int
        }) * mant_val(qm),
    ensures
        0 <= div_err_val(a, b, a.exponent - b.exponent - extra, w),
        div_err_val(a, b, a.exponent - b.exponent - extra, w) < div_ulp(
            a,
            b,
            a.exponent - b.exponent - extra,
        ),
        extra >= 0 ==> div_err_val(a, b, a.exponent - b.exponent - extra, w) == rv,
{
    let c = a.exponent - b.exponent - extra;
    let s = div_scale(a, b, c);
    let am = mant_val(a.mantissa@);
    let bm = mant_val(b.mantissa@);
    let qv = mant_val(qm);
    let sa = a.sign_int();
    let sb = b.sign_int();
    let sx: int = if a.negative != b.negative {
        -1
    } else {
        1
    };
    assert(pow10(0) == 1);
    assert(sx * sb == sa) by (nonlinear_arith)
        requires
            sa == (if a.negative {
                -1int
            } else {
                1int
            }),
            sb == (if b.negative {
                -1int
            } else {
                1int
            }),
            sx == (if a.negative != b.negative {
                -1int
            } else {
                1int
            }),
    ;
    assert(b.val_at(b.exponent as int) == sb * bm) by (nonlinear_arith)
        requires
            b.val_at(b.exponent as int) == sb * (bm * pow10(0)),
            pow10(0) == 1,
    ;
    let p = pow10((c + b.exponent - s) as nat);
    // the signed product collapses to the plain digit product
    assert(sa * ((sx * qv) * (sb * bm) * p) == qv * bm * p) by (nonlinear_arith)
        requires
            sx * sb == sa,
            sa == 1 || sa == -1,
    ;
    if extra >= 0 {
        assert(s == a.exponent - extra);
        assert(c + b.exponent - s == 0);
        assert(a.val_at(s) == sa * (am * pow10(extra as nat)));
        assert(div_err_val(a, b, c, w) == sa * (sa * (am * pow10(extra as nat))) - sa * ((sx * qv)
            * (sb * bm) * p)) by (nonlinear_arith)
            requires
                div_err_val(a, b, c, w) == sa * (a.val_at(s) - w * b.val_at(b.exponent as int)
                    * p),
                a.val_at(s) == sa * (am * pow10(extra as nat)),
                w == sx * qv,
                b.val_at(b.exponent as int) == sb * bm,
        ;
        assert(sa * (sa * (am * pow10(extra as nat))) == am * pow10(extra as nat))
            by (nonlinear_arith)
            requires sa == 1 || sa == -1;
        assert(qv * bm * p == qv * bm) by (nonlinear_arith)
            requires p == 1;
        assert(div_err_val(a, b, c, w) == am * pow10(extra as nat) - qv * bm);
        assert(div_ulp(a, b, c) == bm * 1) by (nonlinear_arith)
            requires div_ulp(a, b, c) == bm * pow10(0) && pow10(0) == 1;
    } else {
        let k = (-extra) as nat;
        let keep = a.mantissa@.len() + extra;
        let head = a.mantissa@.subrange(0, keep);
        let tail = a.mantissa@.subrange(keep, a.mantissa@.len() as int);
        assert(a.mantissa@ =~= head + tail);
        lemma_mant_val_concat(head, tail);
        lemma_mant_val_bound(tail);
        assert(s == a.exponent as int);
        assert(c + b.exponent - s == k);
        assert(a.val_at(s) == sa * (am * pow10(0)));
        assert(a.val_at(s) == sa * am) by (nonlinear_arith)
            requires
                a.val_at(s) == sa * (am * pow10(0)),
                pow10(0) == 1,
        ;
        assert(div_err_val(a, b, c, w) == sa * (sa * am) - sa * ((sx * qv) * (sb * bm) * p))
            by (nonlinear_arith)
            requires
                div_err_val(a, b, c, w) == sa * (a.val_at(s) - w * b.val_at(b.exponent as int)
                    * p),
                a.val_at(s) == sa * am,
                w == sx * qv,
                b.val_at(b.exponent as int) == sb * bm,
        ;
        assert(sa * (sa * am) == am) by (nonlinear_arith)
            requires sa == 1 || sa == -1;
        assert(am == (qv * bm + rv) * pow10(k) + mant_val(tail)) by {
            assert(mant_val(head) == qv * bm + rv);
        }
        assert((qv * bm + rv) * pow10(k) == (qv * bm) * pow10(k) + rv * pow10(k))
            by (nonlinear_arith);
        assert(qv * bm * p == (qv * bm) * pow10(k));
        assert(div_err_val(a, b, c, w) == rv * pow10(k) + mant_val(tail));
        assert(div_ulp(a, b, c) == bm * pow10(k));
        assert(rv * pow10(k) + mant_val(tail) < bm * pow10(k)) by (nonlinear_arith)
            requires
                rv < bm,
                mant_val(tail) < pow10(k),
        ;
    }
}

/// A quotient whose error is not negative cannot overshoot the dividend's
/// magnitude: its leading digit sits at most one place above the exact ratio.
proof fn lemma_quotient_magnitude(a: Scientific, b: Scientific, c: int, q0: Scientific)
    requires
        a.wf(),
        b.wf(),
        !a.spec_is_zero(),
        !b.spec_is_zero(),
        q0.wf(),
        !q0.spec_is_zero(),
        q0.scale_ok(c),
        q0.negative == (a.negative != b.negative),
        0 <= div_err(a, b, c, q0),
    ensures
        q0.spec_exponent0() <= a.spec_exponent0() - b.spec_exponent0() + 1,
{
    let s = div_scale(a, b, c);
    let p = pow10((c + b.exponent - s) as nat);
    let am = mant_val(a.mantissa@);
    let bm = mant_val(b.mantissa@);
    let qm = mant_val(q0.mantissa@);
    let qmag = qm * pow10((q0.exponent - c) as nat);
    let sa = a.sign_int();
    let sb = b.sign_int();
    let sx: int = if a.negative != b.negative {
        -1
    } else {
        1
    };
    assert(pow10(0) == 1);
    assert(sx * sb == sa) by (nonlinear_arith)
        requires
            sa == (if a.negative {
                -1int
            } else {
                1int
            }),
            sb == (if b.negative {
                -1int
            } else {
                1int
            }),
            sx == (if a.negative != b.negative {
                -1int
            } else {
                1int
            }),
    ;
    assert(b.val_at(b.exponent as int) == sb * bm) by (nonlinear_arith)
        requires
            b.val_at(b.exponent as int) == sb * (bm * pow10(0)),
            pow10(0) == 1,
    ;
    let mag_a = am * pow10((a.exponent - s) as nat);
    assert(sa * a.val_at(s) == mag_a) by (nonlinear_arith)
        requires
            a.val_at(s) == sa * mag_a,
            sa == 1 || sa == -1,
    ;
    assert(sa * ((sx * qmag) * (sb * bm) * p) == qmag * bm * p) by (nonlinear_arith)
        requires
            sx * sb == sa,
            sa == 1 || sa == -1,
    ;
    assert(div_err(a, b, c, q0) == mag_a - qmag * bm * p) by (nonlinear_arith)
        requires
            div_err(a, b, c, q0) == sa * (a.val_at(s) - q0.val_at(c) * b.val_at(b.exponent as int)
                * p),
            q0.val_at(c) == sx * qmag,
            b.val_at(b.exponent as int) == sb * bm,
            sa * a.val_at(s) == mag_a,
            sa * ((sx * qmag) * (sb * bm) * p) == qmag * bm * p,
            sa == 1 || sa == -1,
            a.val_at(s) == sa * mag_a,
    ;
    // bracket every factor from below and the dividend from above
    crate::digits::lemma_mant_val_first(q0.mantissa@);
    crate::digits::lemma_mant_val_first(b.mantissa@);
    lemma_mant_val_bound(a.mantissa@);
    lemma_pow10_adds(a.mantissa@.len(), (a.exponent - s) as nat);
    lemma_pow10_pos((a.exponent - s) as nat);
    assert(mag_a < pow10((a.spec_exponent0() - s) as nat)) by (nonlinear_arith)
        requires
            am < pow10(a.mantissa@.len()),
            pow10((a.spec_exponent0() - s) as nat) == pow10(a.mantissa@.len()) * pow10(
                (a.exponent - s) as nat,
            ),
            pow10((a.exponent - s) as nat) >= 1,
            mag_a == am * pow10((a.exponent - s) as nat),
    ;
    let eq = (q0.spec_exponent0() - 1 - c) as nat;
    let ebb = (b.mantissa@.len() - 1) as nat;
    let epp = (c + b.exponent - s) as nat;
    lemma_pow10_pos((q0.exponent - c) as nat);
    lemma_pow10_pos((q0.mantissa@.len() - 1) as nat);
    lemma_pow10_adds((q0.mantissa@.len() - 1) as nat, (q0.exponent - c) as nat);
    assert(qmag >= pow10(eq)) by (nonlinear_arith)
        requires
            qm >= pow10((q0.mantissa@.len() - 1) as nat),
            pow10(eq) == pow10((q0.mantissa@.len() - 1) as nat) * pow10(
                (q0.exponent - c) as nat,
            ),
            pow10((q0.exponent - c) as nat) >= 1,
            pow10((q0.mantissa@.len() - 1) as nat) >= 1,
            qmag == qm * pow10((q0.exponent - c) as nat),
    ;
    lemma_pow10_pos((q0.exponent - c) as nat);
    lemma_pow10_pos((q0.mantissa@.len() - 1) as nat);
    lemma_pow10_pos(eq);
    lemma_pow10_pos(ebb);
    lemma_pow10_pos(epp);
    assert(qmag * bm * p >= pow10(eq) * pow10(ebb) * pow10(epp)) by (nonlinear_arith)
        requires
            qmag >= pow10(eq),
            bm >= pow10(ebb),
            p == pow10(epp),
            pow10(eq) >= 1,
            pow10(ebb) >= 1,
            pow10(epp) >= 1,
    ;
    lemma_pow10_adds(eq, ebb);
    lemma_pow10_adds((eq + ebb) as nat, epp);
    assert(pow10(eq) * pow10(ebb) * pow10(epp) == pow10((eq + ebb + epp) as nat))
        by (nonlinear_arith)
        requires
            pow10((eq + ebb) as nat) == pow10(eq) * pow10(ebb),
            pow10((eq + ebb + epp) as nat) == pow10((eq + ebb) as nat) * pow10(epp),
    ;
    // the magnitudes now pinch the exponents
    assert(pow10((eq + ebb + epp) as nat) < pow10((a.spec_exponent0() - s) as nat));
    if eq + ebb + epp >= a.spec_exponent0() - s {
        lemma_pow10_increases((a.spec_exponent0() - s) as nat, (eq + ebb + epp) as nat);
        assert(false);
    }
}

/// Cutting an exact truncated quotient to fewer digits keeps it an exact
/// truncated quotient at the coarser cut.
proof fn lemma_div_cut_exact(a: Scientific, b: Scientific, c: int, q0: Scientific, d: int, q: Scientific)
    requires
        a.wf(),
        b.wf(),
        !a.spec_is_zero(),
        !b.spec_is_zero(),
        q0.wf(),
        !q0.spec_is_zero(),
        q0.scale_ok(c),
        q0.negative == (a.negative != b.negative),
        0 <= div_err(a, b, c, q0),
        div_err(a, b, c, q0) < div_ulp(a, b, c),
        0 < d < q0.mantissa@.len(),
        q.wf(),
        q.negative == q0.negative,
        q.scale_ok(q0.spec_exponent0() - d),
        q.val_at(q0.spec_exponent0() - d) == q0.sign_int() * mant_val(
            q0.mantissa@.subrange(0, d),
        ),
    ensures
        0 <= div_err(a, b, q0.spec_exponent0() - d, q),
        div_err(a, b, q0.spec_exponent0() - d, q) < div_ulp(a, b, q0.spec_exponent0() - d),
{
    let c2 = q0.spec_exponent0() - d;
    let s = div_scale(a, b, c);
    let s2 = div_scale(a, b, c2);
    let bm = mant_val(b.mantissa@);
    let bv = b.val_at(b.exponent as int);
    let sa = a.sign_int();
    let sb = b.sign_int();
    let sx = q0.sign_int();
    let pc = pow10((c + b.exponent - s) as nat);
    let pc2 = pow10((c2 + b.exponent - s2) as nat);
    let kk = pow10((s2 - s) as nat);
    // split the fine quotient at the kept digits
    let head = q0.mantissa@.subrange(0, d);
    let tail = q0.mantissa@.subrange(d, q0.mantissa@.len() as int);
    assert(q0.mantissa@ =~= head + tail);
    lemma_mant_val_concat(head, tail);
    lemma_mant_val_bound(tail);
    let hv = mant_val(head);
    let tv = mant_val(tail);
    let g = (q0.mantissa@.len() - d) as nat;
    // exponent bookkeeping: c2 - c == tail digits + exponent slack
    assert(c2 - c == g + (q0.exponent - c));
    let f = tv * pow10((q0.exponent - c) as nat);
    lemma_pow10_pos((q0.exponent - c) as nat);
    lemma_pow10_adds(g, (q0.exponent - c) as nat);
    assert(f < pow10((c2 - c) as nat)) by (nonlinear_arith)
        requires
            tv < pow10(g),
            pow10((c2 - c) as nat) == pow10(g) * pow10((q0.exponent - c) as nat),
            pow10((q0.exponent - c) as nat) >= 1,
            f == tv * pow10((q0.exponent - c) as nat),
    ;
    // the fine quotient is the kept part shifted plus the dropped part
    assert(q0.val_at(c) == sx * ((hv * pow10(g) + tv) * pow10((q0.exponent - c) as nat)));
    assert((hv * pow10(g) + tv) * pow10((q0.exponent - c) as nat) == hv * pow10((c2 - c) as nat)
        + f) by (nonlinear_arith)
        requires
            pow10((c2 - c) as nat) == pow10(g) * pow10((q0.exponent - c) as nat),
            f == tv * pow10((q0.exponent - c) as nat),
    ;
    assert(q0.val_at(c) == sx * (hv * pow10((c2 - c) as nat)) + sx * f) by (nonlinear_arith)
        requires q0.val_at(c) == sx * (hv * pow10((c2 - c) as nat) + f),
    ;
    // scale both error terms down to the fine scale
    assert(s2 >= s && s <= a.exponent && s <= c + b.exponent);
    lemma_pow10_pos((s2 - s) as nat);
    crate::sci::lemma_val_at_scale(a, s, s2);
    crate::sci::lemma_val_at_scale(q, c, c2);
    lemma_pow10_adds((c2 - c) as nat, (c + b.exponent - s) as nat);
    assert((c2 + b.exponent - s) as nat == (c2 - c) as nat + (c + b.exponent - s) as nat);
    lemma_pow10_adds((c2 + b.exponent - s2) as nat, (s2 - s) as nat);
    assert((c2 + b.exponent - s) as nat == (c2 + b.exponent - s2) as nat + (s2 - s) as nat);
    // the coarse error times the scale gap equals the fine error plus the
    // dropped part times the divisor
    let e2 = div_err(a, b, c2, q);
    let e1 = div_err(a, b, c, q0);
    assert(e2 * kk == sa * (a.val_at(s) - q.val_at(c2) * bv * (pc2 * kk))) by (nonlinear_arith)
        requires
            e2 == sa * (a.val_at(s2) - q.val_at(c2) * bv * pc2),
            a.val_at(s) == a.val_at(s2) * kk,
            sa == 1 || sa == -1,
            kk >= 1,
    ;
    assert(pc2 * kk == pow10((c2 - c) as nat) * pc);
    assert(q.val_at(c2) == sx * hv);
    assert(pow10(0) == 1);
    assert(bv == sb * bm) by (nonlinear_arith)
        requires
            bv == sb * (bm * pow10(0)),
            pow10(0) == 1,
    ;
    assert(sx * sb == sa) by (nonlinear_arith)
        requires
            sa == (if a.negative {
                -1int
            } else {
                1int
            }),
            sb == (if b.negative {
                -1int
            } else {
                1int
            }),
            sx == (if a.negative != b.negative {
                -1int
            } else {
                1int
            }),
    ;
    let xg = pow10((c2 - c) as nat);
    assert(q0.val_at(c) * bv * pc == (sx * hv) * bv * (xg * pc) + ((sx * f) * bv) * pc)
        by (nonlinear_arith)
        requires q0.val_at(c) == sx * (hv * xg) + sx * f,
    ;
    assert(e2 * kk == e1 + sa * (((sx * f) * bv) * pc)) by (nonlinear_arith)
        requires
            e2 * kk == sa * (a.val_at(s) - (sx * hv) * bv * (xg * pc)),
            e1 == sa * (a.val_at(s) - q0.val_at(c) * bv * pc),
            q0.val_at(c) * bv * pc == (sx * hv) * bv * (xg * pc) + ((sx * f) * bv) * pc,
    ;
    assert(sa * (((sx * f) * bv) * pc) == f * (bm * pc)) by (nonlinear_arith)
        requires
            bv == sb * bm,
            sx * sb == sa,
            sa == 1 || sa == -1,
            sb == 1 || sb == -1,
            sx == 1 || sx == -1,
    ;
    assert(e2 * kk == e1 + f * (bm * pc));
    // combine the bounds
    lemma_pow10_pos((c + b.exponent - s) as nat);
    assert(bm * pc >= 0) by (nonlinear_arith)
        requires
            bm >= 0,
            pc >= 1,
    ;
    assert(0 <= e2 * kk) by (nonlinear_arith)
        requires
            e2 * kk == e1 + f * (bm * pc),
            e1 >= 0,
            f >= 0,
            bm * pc >= 0,
    ;
    assert(e2 * kk < xg * (bm * pc)) by (nonlinear_arith)
        requires
            e2 * kk == e1 + f * (bm * pc),
            e1 < bm * pc,
            f <= xg - 1,
            bm * pc >= 0,
            xg >= 1,
    ;
    lemma_pow10_pos((c2 - c) as nat);
    assert(div_ulp(a, b, c2) * kk == xg * (bm * pc)) by (nonlinear_arith)
        requires
            div_ulp(a, b, c2) == bm * pc2,
            pc2 * kk == xg * pc,
    ;
    assert(0 <= e2 && e2 < div_ulp(a, b, c2)) by (nonlinear_arith)
        requires
            0 <= e2 * kk,
            e2 * kk < div_ulp(a, b, c2) * kk,
            kk >= 1,
    ;
}

/// Conclude the digit-precision contract from the fine quotient and the cut.
proof fn lemma_digits_conclude(a: Scientific, b: Scientific, d: int, w: int, q0: Scientific, q: Scientific)
    requires
        a.wf(),
        b.wf(),
        !a.spec_is_zero(),
        !b.spec_is_zero(),
        d >= 1,
        0 <= div_err_val(a, b, a.spec_exponent0() - b.spec_exponent0() - d, w),
        div_err_val(a, b, a.spec_exponent0() - b.spec_exponent0() - d, w) < div_ulp(
            a,
            b,
            a.spec_exponent0() - b.spec_exponent0() - d,
        ),
        q0.wf(),
        q0.scale_ok(a.spec_exponent0() - b.spec_exponent0() - d),
        q0.val_at(a.spec_exponent0() - b.spec_exponent0() - d) == w,
        !q0.spec_is_zero() ==> q0.negative == (a.negative != b.negative),
        q.wf(),
        d >= q0.mantissa@.len() ==> q@ == q0@,
        0 < d < q0.mantissa@.len() ==> {
            &&& q.negative == q0.negative
            &&& q.scale_ok(q0.spec_exponent0() - d)
            &&& q.val_at(q0.spec_exponent0() - d) == q0.sign_int() * mant_val(
                q0.mantissa@.subrange(0, d),
            )
        },
    ensures
        digits_quotient_ok(a, b, d, q),
{
    let csp = a.spec_exponent0() - b.spec_exponent0() - d;
    if d >= q0.mantissa@.len() {
        assert(q.val_at(csp) == q0.val_at(csp));
        assert(div_err(a, b, csp, q) == div_err_val(a, b, csp, q0.val_at(csp)));
        assert(0 <= div_err(a, b, csp, q) < div_ulp(a, b, csp));
        assert(csp <= a.spec_exponent0() - b.spec_exponent0() - d + 1);
    } else {
        lemma_quotient_magnitude(a, b, csp, q0);
        lemma_div_cut_exact(a, b, csp, q0, d, q);
        let c2 = q0.spec_exponent0() - d;
        assert(c2 <= a.spec_exponent0() - b.spec_exponent0() - d + 1);
        assert(0 <= div_err(a, b, c2, q) < div_ulp(a, b, c2));
    }
}

/// A dividend whole orders of magnitude below the cut leaves the zero
/// quotient within one quotient ulp.
proof fn lemma_div_small(a: Scientific, b: Scientific, c: int, q: Scientific)
    requires
        a.wf(),
        b.wf(),
        !b.spec_is_zero(),
        q.spec_is_zero(),
        a.spec_is_zero() || a.spec_exponent0() <= c + b.spec_exponent0() - 1,
    ensures
        0 <= div_err(a, b, c, q),
        div_err(a, b, c, q) < div_ulp(a, b, c),
{
    let s = div_scale(a, b, c);
    let bm = mant_val(b.mantissa@);
    let p = pow10((c + b.exponent - s) as nat);
    assert(q.val_at(c) == 0);
    assert(q.val_at(c) * b.val_at(b.exponent as int) * p == 0) by (nonlinear_arith)
        requires q.val_at(c) == 0;
    lemma_mant_val_first(b.mantissa@);
    lemma_pow10_pos((b.mantissa@.len() - 1) as nat);
    lemma_pow10_pos((c + b.exponent - s) as nat);
    assert(div_ulp(a, b, c) >= pow10((b.mantissa@.len() - 1) as nat) * p) by (nonlinear_arith)
        requires
            div_ulp(a, b, c) == bm * p,
            bm >= pow10((b.mantissa@.len() - 1) as nat),
            p >= 1,
    ;
    lemma_pow10_adds((b.mantissa@.len() - 1) as nat, (c + b.exponent - s) as nat);
    assert(div_ulp(a, b, c) >= 1) by (nonlinear_arith)
        requires
            div_ulp(a, b, c) >= pow10((b.mantissa@.len() - 1) as nat) * p,
            pow10((b.mantissa@.len() - 1) as nat) >= 1,
            p >= 1,
    ;
    if a.spec_is_zero() {
        assert(a.val_at(s) == 0);
        assert(div_err(a, b, c, q) == 0) by (nonlinear_arith)
            requires
                div_err(a, b, c, q) == a.sign_int() * (a.val_at(s) - 0),
                a.val_at(s) == 0,
        ;
    } else {
        let am = mant_val(a.mantissa@);
        let pa = pow10((a.exponent - s) as nat);
        lemma_pow10_pos((a.exponent - s) as nat);
        assert(div_err(a, b, c, q) == a.sign_int() * (a.sign_int() * (am * pa)))
            by (nonlinear_arith)
            requires div_err(a, b, c, q) == a.sign_int() * (a.val_at(s) - 0) && a.val_at(s)
                == a.sign_int() * (am * pa),
        ;
        assert(a.sign_int() * (a.sign_int() * (am * pa)) == am * pa) by (nonlinear_arith)
            requires a.sign_int() == 1 || a.sign_int() == -1;
        lemma_mant_val_bound(a.mantissa@);
        lemma_pow10_adds(a.mantissa@.len(), (a.exponent - s) as nat);
        assert(am * pa < pow10(a.mantissa@.len()) * pa) by (nonlinear_arith)
            requires
                am < pow10(a.mantissa@.len()),
                pa >= 1,
        ;
        lemma_pow10_increases((a.spec_exponent0() - s) as nat, (b.mantissa@.len() - 1 + c
            + b.exponent - s) as nat);
        assert(pow10(a.mantissa@.len()) * pa == pow10((a.spec_exponent0() - s) as nat)) by {
            lemma_pow10_adds(a.mantissa@.len(), (a.exponent - s) as nat);
        }
        assert(pow10((b.mantissa@.len() - 1 + c + b.exponent - s) as nat) == pow10(
            (b.mantissa@.len() - 1) as nat,
        ) * p) by {
            lemma_pow10_adds((b.mantissa@.len() - 1) as nat, (c + b.exponent - s) as nat);
        }
        assert(div_err(a, b, c, q) < div_ulp(a, b, c));
    }
}

impl Scientific {
    /// One internal division pass.  The exact clause holds when no RPSP
    /// marker is requested; with `use_rpsp` the result additionally carries
    /// the inexactness marker and the RPSP rounding pass.
    #[verifier::rlimit(100)]
    #[verifier::spinoff_prover]
    pub(crate) fn div_mode(&self, rhs: &Scientific, precision: crate::rounding::Precision, use_rpsp: bool)
        -> (r: Result<Scientific, Error>)
        requires
            self.wf(),
            rhs.wf(),
            self.bounded(),
            rhs.bounded(),
            -(EXP_LIMIT as int) - 1 <= precision.inner() <= EXP_LIMIT as int + 1,
        ensures
            r is Err <==> rhs.spec_is_zero(),
            r is Err ==> r == Result::<Scientific, Error>::Err(Error::DivisionByZero),
            r matches Ok(q) ==> q.wf(),
            !use_rpsp ==> (r matches Ok(q) ==> (precision matches
                crate::rounding::Precision::Decimals(d) ==> {
                &&& q.scale_ok(-(d as int))
                &&& 0 <= div_err(*self, *rhs, -(d as int), q)
                &&& div_err(*self, *rhs, -(d as int), q) < div_ulp(*self, *rhs, -(d as int))
            })),
            !use_rpsp ==> (r matches Ok(q) ==> (q.spec_is_zero() || q.negative == (self.negative
                != rhs.negative))),
            !use_rpsp ==> (r matches Ok(q) ==> (precision matches
                crate::rounding::Precision::Digits(d) ==> q.mantissa@.len() <= (if d >= 0 {
                d as int
            } else {
                0
            }))),
            !use_rpsp ==> (r matches Ok(q) ==> (precision matches
                crate::rounding::Precision::Digits(d) ==> ((self.spec_is_zero() || d <= 0)
                ==> q.spec_is_zero()))),
            !use_rpsp ==> (r matches Ok(q) ==> (precision matches
                crate::rounding::Precision::Digits(d) ==> (!q.spec_is_zero()
                ==> q.spec_exponent0() <= self.spec_exponent0() - rhs.spec_exponent0() + 1))),
            !use_rpsp ==> (r matches Ok(q) ==> (precision matches
                crate::rounding::Precision::Digits(d) ==> ((!self.spec_is_zero() && d >= 1)
                ==> digits_quotient_ok(*self, *rhs, d as int, q)))),
            use_rpsp ==> (r matches Ok(q) ==> (q.spec_is_zero() || q.negative == (self.negative
                != rhs.negative))),
            use_rpsp ==> (r matches Ok(q) ==> {
                &&& (self.spec_is_zero() ==> q.spec_is_zero())
                &&& (!self.spec_is_zero() ==> (match precision {
                    crate::rounding::Precision::Decimals(d) => {
                        if self.spec_exponent0() - rhs.spec_exponent0() + d < 0 {
                            &&& q.negative == (self.negative != rhs.negative)
                            &&& q.mantissa@ =~= seq![1u8]
                            &&& q.exponent as int == -(d as int)
                        } else {
                            exists|q0: Scientific|
                                #[trigger] marked_quotient(*self, *rhs, precision, q0)
                                    && crate::rounding::rpsp_pass(q0, precision, q)
                        }
                    },
                    crate::rounding::Precision::Digits(n) => {
                        if n <= 0 {
                            q.spec_is_zero()
                        } else {
                            exists|q0: Scientific|
                                #[trigger] marked_quotient(*self, *rhs, precision, q0)
                                    && crate::rounding::rpsp_pass(q0, precision, q)
                        }
                    },
                }))
            }),
            !use_rpsp ==> (r matches Ok(q) ==> {
                &&& q.roomy()
                &&& q.mantissa@.len() <= 5 * (LEN_LIMIT as int)
                &&& -6 * (EXP_LIMIT as int) <= q.exponent
                &&& q.spec_exponent0() <= 4 * (EXP_LIMIT as int)
            }),
    {
        if rhs.is_zero() {
            return Err(Error::DivisionByZero);
        }
        let negative = self.negative != rhs.negative;
        if self.is_zero() {
            let q = sci_zero();
            proof {
                if !use_rpsp {
                    if let crate::rounding::Precision::Decimals(d) = precision {
                        lemma_div_small(*self, *rhs, -(d as int), q);
                    }
                }
            }
            return Ok(q);
        }
        let la = self.mantissa.len();
        let lb = rhs.mantissa.len();
        let e0a = self.exponent0();
        let e0b = rhs.exponent0();
        // a precision that cannot hold even the first quotient digit
        let forces_zero = match precision {
            crate::rounding::Precision::Digits(d) => d <= 0,
            crate::rounding::Precision::Decimals(d) => e0a - e0b + d < 0,
        };
        if forces_zero {
            if use_rpsp {
                match precision {
                    crate::rounding::Precision::Decimals(d) => {
                        let one = sci_one(negative, -d);
                        proof {
                            assert(one.mantissa@ =~= seq![1u8]);
                        }
                        return Ok(one);
                    },
                    _ => {
                        return Ok(sci_zero());
                    },
                }
            }
            let q = sci_zero();
            proof {
                if let crate::rounding::Precision::Decimals(d) = precision {
                    lemma_div_small(*self, *rhs, -(d as int), q);
                }
            }
            return Ok(q);
        }
        let extra: isize = match precision {
            crate::rounding::Precision::Digits(d) => d - (la as isize - lb as isize),
            crate::rounding::Precision::Decimals(d) => self.exponent - rhs.exponent + d,
        };
        proof {
            // in both cases the numerator keeps at least the divisor's digits
            assert(la + extra >= lb);
        }
        let num = self.div_num(extra);
        let (qm, rem) = div_digits(&num, &rhs.mantissa);
        let c = self.exponent - rhs.exponent - extra;
        if use_rpsp {
            let ghost qseq = qm@;
            let ghost bm = mant_val(rhs.mantissa@);
            let mut qmark = qm;
            let inexact = rem.len() != 0 || extra < 0;
            let marker: u8 = if inexact {
                8
            } else {
                0
            };
            qmark.push(marker);
            proof {
                lemma_mant_val_push(qseq, marker);
                if !inexact {
                    assert(mant_val(rem@) == 0);
                    if mant_val(qseq) == 0 {
                        assert(mant_val(num@) == 0) by (nonlinear_arith)
                            requires
                                mant_val(num@) == mant_val(qseq) * bm + mant_val(rem@),
                                mant_val(qseq) == 0,
                                mant_val(rem@) == 0,
                        ;
                        lemma_mant_val_first(self.mantissa@);
                        lemma_pow10_pos((self.mantissa@.len() - 1) as nat);
                        lemma_pow10_pos(extra as nat);
                        assert(mant_val(num@) >= 1) by (nonlinear_arith)
                            requires
                                mant_val(num@) == mant_val(self.mantissa@) * pow10(extra as nat),
                                mant_val(self.mantissa@) >= 1,
                                pow10(extra as nat) >= 1,
                        ;
                        assert(false);
                    }
                    assert(mant_val(qmark@) >= 10) by (nonlinear_arith)
                        requires
                            mant_val(qmark@) == 10 * mant_val(qseq) + 0,
                            mant_val(qseq) >= 1,
                    ;
                } else {
                    assert(mant_val(qmark@) == 10 * mant_val(qseq) + 8);
                }
                assert(mant_val(qmark@) != 0);
            }
            let q0 = normalize(negative, qmark, c - 1);
            let mut q = q0;
            q.round_assign_mode(precision, crate::rounding::RoundingMode::Rpsp);
            proof {
                let e0 = q0.spec_exponent0();
                let target = crate::rounding::spec_precision_len(precision, e0);
                let len = q0.mantissa@.len() as int;
                if 0 <= target < len {
                    let cr = e0 - target;
                    let before: u8 = if target == 0 {
                        0
                    } else {
                        q0.mantissa@[target - 1]
                    };
                    let after: u8 = q0.mantissa@[target];
                    let no_more: bool = target + 1 == len;
                    let up = crate::rounding::mode_rounds_away(
                        crate::rounding::RoundingMode::Rpsp,
                        q0.negative,
                        before,
                        after,
                        no_more,
                    );
                    if !up && target == 0 {
                        // the rounded value is exactly zero
                        assert(q0.mantissa@.subrange(0, 0) =~= Seq::<u8>::empty());
                        assert(q.val_at(cr) == q0.sign_int() * (0 + 0));
                        assert(q.val_at(cr) == 0) by (nonlinear_arith)
                            requires q.val_at(cr) == q0.sign_int() * (0 + 0);
                        if !q.spec_is_zero() {
                            lemma_mant_val_first(q.mantissa@);
                            lemma_pow10_pos((q.mantissa@.len() - 1) as nat);
                            lemma_pow10_pos((q.exponent - cr) as nat);
                            assert(q.val_at(cr) != 0) by (nonlinear_arith)
                                requires
                                    q.val_at(cr) == q.sign_int() * (mant_val(q.mantissa@) * pow10(
                                        (q.exponent - cr) as nat,
                                    )),
                                    mant_val(q.mantissa@) >= 1,
                                    pow10((q.exponent - cr) as nat) >= 1,
                                    q.sign_int() == 1 || q.sign_int() == -1,
                            ;
                            assert(false);
                        }
                    }
                }
                // the pre-round value is the marked quotient
                let sx: int = if self.negative != rhs.negative {
                    -1int
                } else {
                    1int
                };
                let qv = mant_val(qseq) as int;
                let rv = mant_val(rem@);
                if rem@.len() > 0 {
                    lemma_mant_val_first(rem@);
                    lemma_pow10_pos((rem@.len() - 1) as nat);
                }
                if extra < 0 {
                    crate::digits::lemma_mant_val_first(
                        self.mantissa@.subrange(0, la + extra),
                    );
                }
                let w = sx * qv;
                lemma_div_exact(*self, *rhs, extra as int, qseq, rv, w);
                assert(rpsp_cut(*self, *rhs, precision) == c as int);
                assert(rpsp_forced(*self, *rhs, precision) == (extra < 0));
                assert(inexact == (div_err_val(*self, *rhs, c as int, w) != 0 || rpsp_forced(
                    *self,
                    *rhs,
                    precision,
                )));
                let m8: int = if inexact {
                    8
                } else {
                    0
                };
                assert(q0.val_at(c as int - 1) == sx * (10 * qv + m8));
                assert(sx * (10 * qv + m8) == 10 * (sx * qv) + sx * m8) by (nonlinear_arith);
                assert(sx * w >= 0) by (nonlinear_arith)
                    requires
                        w == sx * qv,
                        qv >= 0,
                        sx == 1 || sx == -1,
                ;
                assert(marked_quotient(*self, *rhs, precision, q0));
                assert(crate::rounding::rpsp_pass(q0, precision, q));
            }
            return Ok(q);
        }
        let q0 = normalize(negative, qm, c);
        proof {
            let ghost qv = mant_val(qm@);
            if qv == 0 {
                assert(q0.val_at(c as int) == 0);
                assert(q0.val_at(c as int) == (if negative {
                    -1int
                } else {
                    1int
                }) * qv) by (nonlinear_arith)
                    requires
                        q0.val_at(c as int) == 0,
                        qv == 0,
                ;
            }
            if extra < 0 {
                crate::digits::lemma_mant_val_first(self.mantissa@.subrange(0, la + extra));
                crate::digits::lemma_pow10_pos((la + extra - 1) as nat);
            }
            lemma_div_exact(*self, *rhs, extra as int, qm@, mant_val(rem@), q0.val_at(c as int));
        }
        match precision {
            crate::rounding::Precision::Decimals(_) => Ok(q0),
            crate::rounding::Precision::Digits(d) => {
                let mut q = q0;
                q.cut_assign(d);
                proof {
                    if !q.spec_is_zero() {
                        lemma_quotient_magnitude(*self, *rhs, c as int, q0);
                    }
                    if d >= 1 {
                        lemma_digits_conclude(
                            *self,
                            *rhs,
                            d as int,
                            q0.val_at(c as int),
                            q0,
                            q,
                        );
                    }
                }
                Ok(q)
            },
        }
    }

    /// Truncating division at the requested precision.  For `Decimals(n)` the
    /// result is the unique multiple of `10^-n` with `0 <= sign(a)*(a - q*b)
    /// < |b| * 10^-n`; for `Digits(n)` at most `n` significant digits are
    /// produced.
    pub fn div_truncate(&self, rhs: &Scientific, precision: crate::rounding::Precision) -> (r:
        Result<Scientific, Error>)
        requires
            self.wf(),
            rhs.wf(),
            self.bounded(),
            rhs.bounded(),
            precision.bounded(),
        ensures
            r is Err <==> rhs.spec_is_zero(),
            r is Err ==> r == Result::<Scientific, Error>::Err(Error::DivisionByZero),
            r matches Ok(q) ==> q.wf(),
            r matches Ok(q) ==> (match precision {
                crate::rounding::Precision::Decimals(d) => {
                    &&& q.scale_ok(-(d as int))
                    &&& 0 <= div_err(*self, *rhs, -(d as int), q)
                    &&& div_err(*self, *rhs, -(d as int), q) < div_ulp(*self, *rhs, -(d as int))
                    &&& (q.spec_is_zero() || q.negative == (self.negative != rhs.negative))
                },
                crate::rounding::Precision::Digits(d) => {
                    &&& q.mantissa@.len() <= (if d >= 0 {
                        d as int
                    } else {
                        0
                    })
                    &&& (q.spec_is_zero() || q.negative == (self.negative != rhs.negative))
                    &&& (!q.spec_is_zero() ==> q.spec_exponent0() <= self.spec_exponent0()
                        - rhs.spec_exponent0() + 1)
                    &&& (!self.spec_is_zero() && d >= 1 ==> digits_quotient_ok(
                        *self,
                        *rhs,
                        d as int,
                        q,
                    ))
                },
            }),
    {
        self.div_mode(rhs, precision, false)
    }

    /// Division with RPSP: the quotient truncated one digit past the request
    /// with the inexactness marker `8` appended when digits were lost, then
    /// RPSP-rounded, ready for one later final rounding.
    pub fn div_rpsp(&self, rhs: &Scientific, precision: crate::rounding::Precision) -> (r: Result<
        Scientific,
        Error,
    >)
        requires
            self.wf(),
            rhs.wf(),
            self.bounded(),
            rhs.bounded(),
            precision.bounded(),
            precision.inner() + 1 <= EXP_LIMIT as int,
        ensures
            r is Err <==> rhs.spec_is_zero(),
            r is Err ==> r == Result::<Scientific, Error>::Err(Error::DivisionByZero),
            r matches Ok(q) ==> q.wf() && (q.spec_is_zero() || q.negative == (self.negative
                != rhs.negative)),
            r matches Ok(q) ==> {
                &&& (self.spec_is_zero() ==> q.spec_is_zero())
                &&& (!self.spec_is_zero() ==> (match precision.shifted(1) {
                    crate::rounding::Precision::Decimals(d) => {
                        if self.spec_exponent0() - rhs.spec_exponent0() + d < 0 {
                            &&& q.negative == (self.negative != rhs.negative)
                            &&& q.mantissa@ =~= seq![1u8]
                            &&& q.exponent as int == -(d as int)
                        } else {
                            exists|q0: Scientific|
                                #[trigger] marked_quotient(*self, *rhs, precision.shifted(1), q0)
                                    && crate::rounding::rpsp_pass(q0, precision.shifted(1), q)
                        }
                    },
                    crate::rounding::Precision::Digits(n) => {
                        if n <= 0 {
                            q.spec_is_zero()
                        } else {
                            exists|q0: Scientific|
                                #[trigger] marked_quotient(*self, *rhs, precision.shifted(1), q0)
                                    && crate::rounding::rpsp_pass(q0, precision.shifted(1), q)
                        }
                    },
                }))
            },
    {
        let p = precision.plus(1);
        self.div_mode(rhs, p, true)
    }

    /// Integer quotient and remainder: `a == q*b + r` exactly, with
    /// `|r| < |b|` and the remainder sharing the dividend's sign (or zero).
    pub fn div_rem(&self, rhs: &Scientific) -> (r: Result<(Scientific, Scientific), Error>)
        requires
            self.wf(),
            rhs.wf(),
            self.bounded(),
            rhs.bounded(),
        ensures
            r is Err <==> rhs.spec_is_zero(),
            r is Err ==> r == Result::<(Scientific, Scientific), Error>::Err(
                Error::DivisionByZero,
            ),
            r matches Ok(p) ==> ({
                let s = if self.exponent <= rhs.exponent {
                    self.exponent as int
                } else {
                    rhs.exponent as int
                };
                &&& p.0.wf()
                &&& p.1.wf()
                &&& p.0.scale_ok(0)
                &&& p.1.scale_ok(s)
                &&& self.val_at(s) == p.0.val_at(0) * rhs.val_at(rhs.exponent as int) * pow10(
                    (rhs.exponent - s) as nat,
                ) + p.1.val_at(s)
                &&& 0 <= self.sign_int() * p.1.val_at(s)
                &&& self.sign_int() * p.1.val_at(s) < mant_val(rhs.mantissa@) * pow10(
                    (rhs.exponent - s) as nat,
                )
            }),
    {
        let q = match self.div_mode(rhs, crate::rounding::Precision::Decimals(0), false) {
            Err(e) => {
                return Err(Error::DivisionByZero);
            },
            Ok(q) => q,
        };
        let prod = q.mul(rhs);
        let rm = self.sub(&prod);
        proof {
            let s: int = if self.exponent <= rhs.exponent {
                self.exponent as int
            } else {
                rhs.exponent as int
            };
            let bv = rhs.val_at(rhs.exponent as int);
            let pw = pow10((rhs.exponent - s) as nat);
            assert(div_scale(*self, *rhs, 0) == s);
            // the product denotes q*b at the common scale
            if q.spec_is_zero() {
                assert(prod.spec_is_zero());
                assert(prod.val_at(s) == 0);
                assert(q.val_at(0) * bv * pw == 0) by (nonlinear_arith)
                    requires q.val_at(0) == 0;
                // subtracting zero returns the dividend's value; canonical
                // uniqueness even gives the same representation
                let s2 = crate::cmp::common_scale(*self, prod);
                crate::sci::lemma_canonical_unique(rm, *self, s2);
                assert(rm.val_at(s) == self.val_at(s) - prod.val_at(s));
            } else {
                let qe = q.exponent as int;
                let sp = qe + rhs.exponent;
                crate::sci::lemma_val_at_scale(q, 0, qe);
                crate::sci::lemma_val_at_scale(prod, s, sp);
                lemma_pow10_adds((qe) as nat, (rhs.exponent - s) as nat);
                assert((sp - s) as nat == qe as nat + (rhs.exponent - s) as nat);
                assert(prod.val_at(s) == (q.val_at(qe) * bv) * pow10((sp - s) as nat));
                let x = q.val_at(qe);
                let qq = pow10(qe as nat);
                assert((x * bv) * (qq * pw) == ((x * qq) * bv) * pw) by (nonlinear_arith);
                assert(pow10((sp - s) as nat) == qq * pw);
                assert(prod.val_at(s) == ((x * qq) * bv) * pw);
                assert(((x * qq) * bv) * pw == (x * qq) * bv * pw) by (nonlinear_arith);
                assert(prod.val_at(s) == q.val_at(0) * bv * pw);
                // the subtraction result carries the exact identity down to `s`
                let s2 = crate::cmp::common_scale(*self, prod);
                assert(prod.exponent >= sp);
                assert(s2 >= s);
                crate::sci::lemma_val_at_scale(rm, s, s2);
                crate::sci::lemma_val_at_scale(*self, s, s2);
                crate::sci::lemma_val_at_scale(prod, s, s2);
                assert((self.val_at(s2) - prod.val_at(s2)) * pow10((s2 - s) as nat) == self.val_at(
                    s2,
                ) * pow10((s2 - s) as nat) - prod.val_at(s2) * pow10((s2 - s) as nat))
                    by (nonlinear_arith);
                assert(rm.val_at(s) == self.val_at(s) - prod.val_at(s));
            }
            // so the signed error of the division is the signed remainder
            assert(self.sign_int() * rm.val_at(s) == div_err(*self, *rhs, 0, q))
                by (nonlinear_arith)
                requires
                    rm.val_at(s) == self.val_at(s) - q.val_at(0) * bv * pw,
                    div_err(*self, *rhs, 0, q) == self.sign_int() * (self.val_at(s) - q.val_at(0)
                        * bv * pw),
            ;
        }
        Ok((q, rm))
    }

    /// The digit vector of the dividend extended (or shortened) by `extra`
    /// positions: the raw numerator of the long division.
    fn div_num(&self, extra: isize) -> (r: Vec<u8>)
        requires
            self.wf(),
            self.roomy(),
            !self.spec_is_zero(),
            -8 * (EXP_LIMIT as int) <= extra <= 8 * (EXP_LIMIT as int),
            self.mantissa@.len() + extra >= 1,
        ensures
            all_digits(r@),
            r@.len() == self.mantissa@.len() + extra,
            extra >= 0 ==> mant_val(r@) == mant_val(self.mantissa@) * pow10(extra as nat),
            extra < 0 ==> r@ == self.mantissa@.subrange(0, self.mantissa@.len() + extra),
    {
        if extra >= 0 {
            let r = crate::addsub::pad_digits(&self.mantissa, 0, extra as usize);
            proof {
                crate::addsub::lemma_padded_val(self.mantissa@, 0, extra as nat);
            }
            r
        } else {
            let keep = (self.mantissa.len() as isize + extra) as usize;
            let mut r: Vec<u8> = Vec::new();
            let mut i: usize = 0;
            while i < keep
                invariant
                    i <= keep,
                    keep <= self.mantissa@.len(),
                    r@ == self.mantissa@.subrange(0, i as int),
                decreases keep - i,
            {
                r.push(self.mantissa[i]);
                proof {
                    assert(r@ =~= self.mantissa@.subrange(0, i + 1));
                }
                i += 1;
            }
            r
        }
    }
}

} // verus!
