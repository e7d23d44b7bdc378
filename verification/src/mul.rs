//! Exact multiplication.

use vstd::prelude::*;

use crate::addsub::lemma_padded_val;
use crate::addsub::pad_digits;
use crate::digits::add_aligned;
use crate::digits::all_digits;
use crate::digits::lemma_len_from_bound;
use crate::digits::lemma_mant_val_bound;
use crate::digits::lemma_mant_val_first;
use crate::digits::lemma_mant_val_push;
use crate::digits::lemma_pow10_adds;
use crate::digits::lemma_pow10_pos;
use crate::digits::mant_val;
use crate::digits::pow10;
use crate::digits::trim_leading;
use crate::sci::lemma_val_at_self_scale;
use crate::sci::normalize;
use crate::sci::sci_zero;
use crate::sci::Scientific;
use crate::sci::EXP_LIMIT;
use crate::sci::LEN_LIMIT;

verus! {

/// The post-state of exact multiplication.
pub open spec fn prod_spec(a: Scientific, b: Scientific, r: Scientific) -> bool {
    &&& r.wf()
    &&& ((a.spec_is_zero() || b.spec_is_zero()) <==> r.spec_is_zero())
    &&& (!a.spec_is_zero() && !b.spec_is_zero() ==> {
        let sp = a.exponent + b.exponent;
        &&& r.scale_ok(sp)
        &&& r.val_at(sp) == a.val_at(a.exponent as int) * b.val_at(b.exponent as int)
        &&& r.exponent >= sp
        &&& r.spec_exponent0() <= a.spec_exponent0() + b.spec_exponent0()
    })
}

/// Product of two canonical digit vectors by Horner's rule: scan the second
/// factor's digits from the most significant, scaling the accumulator by ten
/// and adding the first factor digit-count many times.
fn mul_digits(a: &Vec<u8>, b: &Vec<u8>) -> (r: Vec<u8>)
    requires
        all_digits(a@),
        all_digits(b@),
        a@.len() > 0,
        b@.len() > 0,
        a@[0] != 0,
        b@[0] != 0,
        a@.len() <= 8 * (LEN_LIMIT as int),
        b@.len() <= 8 * (LEN_LIMIT as int),
    ensures
        all_digits(r@),
        r@.len() <= a@.len() + b@.len(),
        mant_val(r@) == mant_val(a@) * mant_val(b@),
{
    let la = a.len();
    let lb = b.len();
    let ghost av = mant_val(a@);
    let mut acc: Vec<u8> = Vec::new();
    let mut i: usize = 0;
    proof {
        assert(b@.subrange(0, 0) =~= Seq::<u8>::empty());
        lemma_mant_val_first(a@);
        lemma_pow10_pos((la - 1) as nat);
        assert(mant_val(b@.subrange(0, 0)) * av == 0) by (nonlinear_arith)
            requires mant_val(b@.subrange(0, 0)) == 0;
    }
    while i < lb
        invariant
            i <= lb,
            la == a@.len(),
            lb == b@.len(),
            av == mant_val(a@),
            av >= 1,
            all_digits(a@),
            all_digits(b@),
            a@[0] != 0,
            b@[0] != 0,
            la <= 8 * (LEN_LIMIT as int),
            lb <= 8 * (LEN_LIMIT as int),
            all_digits(acc@),
            acc@.len() <= la + i,
            acc@.len() > 0 ==> acc@[0] != 0,
            mant_val(acc@) == mant_val(b@.subrange(0, i as int)) * av,
        decreases lb - i,
    {
        let ghost bi = mant_val(b@.subrange(0, i as int));
        let d = b[i];
        proof {
            if i > 0 {
                lemma_mant_val_first(b@.subrange(0, i as int));
                lemma_pow10_pos((i - 1) as nat);
                assert(mant_val(acc@) >= 1) by (nonlinear_arith)
                    requires
                        mant_val(acc@) == bi * av,
                        bi >= 1,
                        av >= 1,
                ;
                assert(acc@.len() > 0);
            }
        }
        let ghost prev = acc@;
        acc.push(0);
        proof {
            lemma_mant_val_push(prev, 0);
        }
        let pd = crate::digits::mul_digit(a, d);
        let wide = if acc.len() >= pd.len() {
            acc.len()
        } else {
            pd.len()
        };
        let pa = pad_digits(&pd, wide - pd.len(), 0);
        let pc = pad_digits(&acc, wide - acc.len(), 0);
        proof {
            lemma_padded_val(pd@, (wide - pd@.len()) as nat, 0);
            lemma_padded_val(acc@, (wide - acc@.len()) as nat, 0);
            assert(pow10(0) == 1);
            assert(mant_val(pa@) == mant_val(pd@)) by (nonlinear_arith)
                requires mant_val(pa@) == mant_val(pd@) * 1;
            assert(mant_val(pc@) == mant_val(acc@)) by (nonlinear_arith)
                requires mant_val(pc@) == mant_val(acc@) * 1;
        }
        let sum = add_aligned(&pc, &pa);
        let trimmed = trim_leading(&sum);
        proof {
            lemma_mant_val_bound(b@.subrange(0, i as int));
            lemma_mant_val_bound(a@);
            assert(mant_val(trimmed@) == (10 * bi + d) * av) by (nonlinear_arith)
                requires
                    mant_val(trimmed@) == (10 * (bi * av)) + (d as nat) * av,
            ;
            assert(10 * bi + d <= 10 * pow10(i as nat)) by (nonlinear_arith)
                requires
                    bi < pow10(i as nat),
                    d <= 10,
            ;
            assert(pow10((i + 1) as nat) == 10 * pow10(i as nat));
            lemma_pow10_pos((i + 1) as nat);
            assert(mant_val(trimmed@) < pow10((i + 1) as nat) * pow10(la as nat))
                by (nonlinear_arith)
                requires
                    mant_val(trimmed@) == (10 * bi + d) * av,
                    10 * bi + d <= pow10((i + 1) as nat),
                    av < pow10(la as nat),
                    pow10((i + 1) as nat) >= 1,
            ;
            lemma_pow10_adds((i + 1) as nat, la as nat);
            lemma_len_from_bound(trimmed@, (la + i + 1) as nat);
        }
        acc = trimmed;
        proof {
            let bnext = b@.subrange(0, i + 1);
            assert(bnext =~= b@.subrange(0, i as int).push(b@[i as int]));
            lemma_mant_val_push(b@.subrange(0, i as int), b@[i as int]);
            assert(mant_val(acc@) == mant_val(bnext) * av) by (nonlinear_arith)
                requires
                    mant_val(acc@) == (10 * bi + d) * av,
                    mant_val(bnext) == 10 * bi + d,
            ;
            // the accumulator is freshly trimmed and non-zero, so no leading zero
            lemma_mant_val_first(bnext);
            lemma_pow10_pos((bnext.len() - 1) as nat);
            assert(mant_val(acc@) >= 1) by (nonlinear_arith)
                requires
                    mant_val(acc@) == mant_val(bnext) * av,
                    mant_val(bnext) >= 1,
                    av >= 1,
            ;
            assert(acc@.len() > 0);
        }
        i += 1;
    }
    proof {
        assert(b@.subrange(0, lb as int) =~= b@);
        assert(mant_val(b@) * av == av * mant_val(b@)) by (nonlinear_arith);
    }
    acc
}

/// An intermediate power stays inside the exponent bounds while budget is left.
proof fn lemma_pow_budget(x: Scientific, result: Scientific, i: int, n: int)
    requires
        x.wf(),
        x.bounded(),
        !x.spec_is_zero(),
        result.wf(),
        !result.spec_is_zero(),
        0 <= i < n,
        n * pow_step(x) <= crate::sci::EXP_LIMIT as int,
        result.exponent >= i * (x.exponent as int),
        result.spec_exponent0() <= i * x.spec_exponent0() + 1,
    ensures
        result.bounded(),
{
    let e: int = x.exponent as int;
    let mag: int = if e >= 0 {
        e
    } else {
        -e
    };
    let l: int = x.mantissa@.len() as int;
    let p = pow_step(x);
    assert(p == mag + l + 1);
    assert(i * p <= n * p) by (nonlinear_arith)
        requires
            i <= n,
            p >= 0,
    ;
    assert(i * mag <= i * p) by (nonlinear_arith)
        requires
            0 <= mag <= p,
            i >= 0,
    ;
    assert(i * e >= -(i * mag) && i * e <= i * mag) by (nonlinear_arith)
        requires
            -mag <= e <= mag,
            i >= 0,
    ;
    assert(i * x.spec_exponent0() <= i * (mag + l)) by (nonlinear_arith)
        requires
            x.spec_exponent0() <= mag + l,
            i >= 0,
    ;
    assert(i * (mag + l) <= i * p) by (nonlinear_arith)
        requires
            0 <= mag + l <= p,
            i >= 0,
    ;
    assert(i * x.spec_exponent0() == i * e + i * l) by (nonlinear_arith)
        requires x.spec_exponent0() == e + l;
    assert(i * l <= i * p) by (nonlinear_arith)
        requires
            0 <= l <= p,
            i >= 0,
    ;
    assert(i * p <= n * p - p) by (nonlinear_arith)
        requires
            i <= n - 1,
            p >= 0,
    ;
}

/// Magnitude budget for `powi`: how much exponent room one multiplication by
/// this value can consume.
pub open spec fn pow_step(a: Scientific) -> int {
    (if a.exponent >= 0 {
        a.exponent as int
    } else {
        -(a.exponent as int)
    }) + a.mantissa@.len() + 1
}

impl Scientific {
    /// Raise to an integer power: `x^0 == 1` (also for `x == 0`), and
    /// `0^n == 0` for positive `n`; otherwise the exact repeated product.
    pub fn powi(&self, exponent: usize) -> (r: Scientific)
        requires
            self.wf(),
            self.bounded(),
            (exponent as int) * pow_step(*self) <= EXP_LIMIT as int,
        ensures
            r.wf(),
            exponent == 0 ==> r@ == (false, seq![1u8], 0int),
            exponent > 0 && self.spec_is_zero() ==> r.spec_is_zero(),
            exponent > 0 && !self.spec_is_zero() ==> {
                &&& !r.spec_is_zero()
                &&& r.scale_ok(exponent as int * self.exponent)
                &&& r.val_at(exponent as int * self.exponent) == vstd::arithmetic::power::pow(
                    self.val_at(self.exponent as int),
                    exponent as nat,
                )
            },
    {
        if exponent == 0 {
            let r = crate::sci::sci_one(false, 0);
            proof {
                assert(r@.1 =~= seq![1u8]);
                assert(r@ == (false, seq![1u8], 0int));
            }
            return r;
        }
        if self.is_zero() {
            return sci_zero();
        }
        let ghost v = self.val_at(self.exponent as int);
        let ghost ex = self.exponent as int;
        let ghost e0x = self.spec_exponent0();
        let mut result = crate::sci::sci_one(false, 0);
        proof {
            assert(pow10(0) == 1);
            assert(mant_val(seq![1u8]) == 1) by {
                let s1 = seq![1u8];
                assert(s1.len() == 1);
                assert(s1[0] == 1u8);
                assert(s1.subrange(1, 1) =~= Seq::<u8>::empty());
                assert(mant_val(Seq::<u8>::empty()) == 0);
                assert(mant_val(s1) == (s1[0] as nat) * pow10(0) + mant_val(s1.subrange(1, 1)));
                assert((1 as nat) * 1 == 1) by (nonlinear_arith);
            }
            assert(result.mantissa@ == seq![1u8]) by {
                assert(result.mantissa@ =~= seq![1u8]);
            }
            assert(result.val_at(0) == 1 * (1 * 1)) by (nonlinear_arith)
                requires
                    result.sign_int() == 1,
                    mant_val(result.mantissa@) == 1,
                    result.val_at(0) == result.sign_int() * (mant_val(result.mantissa@) * pow10(
                        0,
                    )),
                    pow10(0) == 1,
            ;
            vstd::arithmetic::power::lemma_pow0(v);
        }
        let mut i: usize = 0;
        while i < exponent
            invariant
                i <= exponent,
                self.wf(),
                self.bounded(),
                !self.spec_is_zero(),
                v == self.val_at(self.exponent as int),
                ex == self.exponent as int,
                e0x == self.spec_exponent0(),
                (exponent as int) * pow_step(*self) <= EXP_LIMIT as int,
                result.wf(),
                !result.spec_is_zero(),
                result.scale_ok(i as int * ex),
                result.exponent >= i as int * ex,
                result.spec_exponent0() <= i as int * e0x + 1,
                result.val_at(i as int * ex) == vstd::arithmetic::power::pow(v, i as nat),
            decreases exponent - i,
        {
            proof {
                lemma_pow_budget(*self, result, i as int, exponent as int);
            }
            let next = result.mul(self);
            proof {
                let se = result.exponent as int;
                let sp = se + ex;
                crate::sci::lemma_val_at_self_scale(result);
                assert((i + 1) as int * ex == i as int * ex + ex) by (nonlinear_arith);
                assert((i + 1) as int * e0x == i as int * e0x + e0x) by (nonlinear_arith);
                // next.val_at(sp) == result.val_at(se) * v
                crate::sci::lemma_val_at_scale(result, i as int * ex, se);
                crate::sci::lemma_val_at_scale(next, (i + 1) as int * ex, sp);
                let k = (se - i as int * ex) as nat;
                assert(sp - (i + 1) as int * ex == k);
                assert(next.val_at((i + 1) as int * ex) == (result.val_at(se) * v) * pow10(k));
                assert((result.val_at(se) * v) * pow10(k) == (result.val_at(se) * pow10(k)) * v)
                    by (nonlinear_arith);
                assert(next.val_at((i + 1) as int * ex) == result.val_at(i as int * ex) * v);
                vstd::arithmetic::power::lemma_pow1(v);
                vstd::arithmetic::power::lemma_pow_adds(v, i as nat, 1);
                assert(vstd::arithmetic::power::pow(v, (i + 1) as nat)
                    == vstd::arithmetic::power::pow(v, i as nat) * vstd::arithmetic::power::pow(
                    v,
                    1,
                ));
            }
            result = next;
            i += 1;
        }
        result
    }

    /// Exact multiplication.
    pub fn mul(&self, rhs: &Scientific) -> (r: Scientific)
        requires
            self.wf(),
            rhs.wf(),
            self.roomy(),
            rhs.roomy(),
        ensures
            prod_spec(*self, *rhs, r),
    {
        if self.is_zero() || rhs.is_zero() {
            return sci_zero();
        }
        let m = mul_digits(&self.mantissa, &rhs.mantissa);
        let exp = self.exponent + rhs.exponent;
        proof {
            lemma_mant_val_first(self.mantissa@);
            lemma_mant_val_first(rhs.mantissa@);
            lemma_pow10_pos((self.mantissa@.len() - 1) as nat);
            lemma_pow10_pos((rhs.mantissa@.len() - 1) as nat);
            assert(mant_val(m@) >= 1) by (nonlinear_arith)
                requires
                    mant_val(m@) == mant_val(self.mantissa@) * mant_val(rhs.mantissa@),
                    mant_val(self.mantissa@) >= 1,
                    mant_val(rhs.mantissa@) >= 1,
            ;
        }
        let r = normalize(self.negative != rhs.negative, m, exp);
        proof {
            lemma_val_at_self_scale(*self);
            lemma_val_at_self_scale(*rhs);
            let sp = self.exponent + rhs.exponent;
            assert(r.val_at(sp as int) == (if self.negative != rhs.negative {
                -1int
            } else {
                1int
            }) * (mant_val(self.mantissa@) * mant_val(rhs.mantissa@)));
            assert(r.val_at(sp as int) == (self.sign_int() * mant_val(self.mantissa@)) * (
            rhs.sign_int() * mant_val(rhs.mantissa@))) by (nonlinear_arith)
                requires
                    r.val_at(sp as int) == (if self.negative != rhs.negative {
                        -1int
                    } else {
                        1int
                    }) * (mant_val(self.mantissa@) * mant_val(rhs.mantissa@)),
                    self.sign_int() == (if self.negative {
                        -1int
                    } else {
                        1int
                    }),
                    rhs.sign_int() == (if rhs.negative {
                        -1int
                    } else {
                        1int
                    }),
            ;
        }
        r
    }
}

} // verus!
