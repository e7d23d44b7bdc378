//! Conversions from and to raw mantissa parts and native integers.

use vstd::prelude::*;

use crate::digits::all_digits;
use crate::digits::lemma_mant_val_first;
use crate::digits::lemma_pow10_pos;
use crate::digits::mant_val;
use crate::digits::pow10;
use crate::errors::ConversionError;
use crate::sci::normalize;
use crate::sci::Scientific;

verus! {

impl Scientific {
    /// A view of the raw mantissa digits, most significant first; the value
    /// zero reads as the single digit `0`.
    pub fn as_raw_mantissa(&self) -> (r: &[u8])
        ensures
            self.spec_is_zero() ==> r@ =~= seq![0u8],
            !self.spec_is_zero() ==> r@ == self.mantissa@,
    {
        if self.mantissa.len() == 0 {
            let zero_digit: &[u8] = &[0u8];
            proof {
                assert(zero_digit@ =~= seq![0u8]);
            }
            return zero_digit;
        }
        self.mantissa.as_slice()
    }

    /// Build a value from a sign, raw digit values, and an exponent.
    pub fn from_raw_parts(negative: bool, mantissa: Vec<u8>, exponent: isize) -> (r: Result<
        Scientific,
        ConversionError,
    >)
        requires
            mantissa@.len() < 0x4000_0000,
            exponent + mantissa@.len() < isize::MAX as int,
        ensures
            r is Err <==> exists|i: int| 0 <= i < mantissa@.len() && mantissa@[i] > 9,
            r is Err ==> r == Result::<Scientific, ConversionError>::Err(
                ConversionError::ParseError,
            ),
            r matches Ok(v) ==> {
                &&& v.wf()
                &&& (mant_val(mantissa@) == 0 ==> v.spec_is_zero())
                &&& (mant_val(mantissa@) != 0 ==> v.negative == negative && v.scale_ok(
                    exponent as int,
                ) && v.val_at(exponent as int) == (if negative {
                    -1int
                } else {
                    1int
                }) * mant_val(mantissa@))
            },
    {
        let n = mantissa.len();
        let mut i: usize = 0;
        while i < n
            invariant
                i <= n,
                n == mantissa@.len(),
                forall|j: int| 0 <= j < i ==> mantissa@[j] <= 9,
            decreases n - i,
        {
            if mantissa[i] > 9 {
                return Err(ConversionError::ParseError);
            }
            i += 1;
        }
        Ok(normalize(negative, mantissa, exponent))
    }

    /// The exact integer value, when there is one in range.
    pub fn to_i128(&self) -> (r: Result<i128, ConversionError>)
        requires
            self.wf(),
        ensures
            (!self.spec_is_zero() && self.exponent < 0) ==> r == Result::<
                i128,
                ConversionError,
            >::Err(ConversionError::NumberIsNotAnInteger),
            (self.spec_is_zero() || self.exponent >= 0) ==> {
                &&& (r is Ok <==> i128::MIN as int <= self.val_at(0) <= i128::MAX as int)
                &&& (r matches Ok(n) ==> n as int == self.val_at(0))
                &&& (r is Err ==> r == Result::<i128, ConversionError>::Err(
                    ConversionError::NumberTooLarge,
                ))
            },
    {
        if self.is_zero() {
            return Ok(0);
        }
        if self.exponent < 0 {
            return Err(ConversionError::NumberIsNotAnInteger);
        }
        // |i128::MIN| as the magnitude cap
        let cap: u128 = 0x8000_0000_0000_0000_0000_0000_0000_0000;
        let n = self.mantissa.len();
        let ghost m = self.mantissa@;
        let mut mag: u128 = 0;
        let mut i: usize = 0;
        proof {
            assert(m.subrange(0, 0) =~= Seq::<u8>::empty());
        }
        while i < n
            invariant
                i <= n,
                n == m.len(),
                m == self.mantissa@,
                self.wf(),
                !self.spec_is_zero(),
                self.exponent >= 0,
                all_digits(m),
                mag as int == mant_val(m.subrange(0, i as int)),
                mag <= cap,
                cap == 0x8000_0000_0000_0000_0000_0000_0000_0000,
            decreases n - i,
        {
            let d = self.mantissa[i];
            if mag > (cap - d as u128) / 10 {
                proof {
                    lemma_value_large(*self, i as int, 10 * (mag as int) + d);
                }
                return Err(ConversionError::NumberTooLarge);
            }
            let ghost pre = m.subrange(0, i as int);
            mag = mag * 10 + d as u128;
            proof {
                assert(m.subrange(0, i + 1) =~= pre.push(m[i as int]));
                crate::digits::lemma_mant_val_push(pre, m[i as int]);
            }
            i += 1;
        }
        proof {
            assert(m.subrange(0, n as int) =~= m);
            assert(pow10(0) == 1);
            assert(mant_val(m) * pow10(0) == mant_val(m)) by (nonlinear_arith)
                requires pow10(0) == 1;
        }
        // scale by the exponent
        let mut e: usize = 0;
        let ghost exp = self.exponent as nat;
        while e < self.exponent as usize
            invariant
                e <= exp,
                exp == self.exponent as nat,
                self.wf(),
                !self.spec_is_zero(),
                self.exponent >= 0,
                m == self.mantissa@,
                all_digits(m),
                m.len() > 0,
                m[0] != 0,
                mag as int == mant_val(m) * pow10(e as nat),
                mag <= cap,
                cap == 0x8000_0000_0000_0000_0000_0000_0000_0000,
            decreases exp - e,
        {
            if mag > cap / 10 {
                proof {
                    lemma_scaled_large(*self, e as nat, 10 * (mag as int));
                }
                return Err(ConversionError::NumberTooLarge);
            }
            mag = mag * 10;
            proof {
                assert(pow10((e + 1) as nat) == 10 * pow10(e as nat));
                assert(mant_val(m) * pow10((e + 1) as nat) == 10 * (mant_val(m) * pow10(e as nat)))
                    by (nonlinear_arith)
                    requires pow10((e + 1) as nat) == 10 * pow10(e as nat);
            }
            e += 1;
        }
        proof {
            lemma_val_is_mag(*self);
        }
        if self.negative {
            if mag == cap {
                return Ok(i128::MIN);
            }
            Ok(-(mag as i128))
        } else {
            if mag >= cap {
                return Err(ConversionError::NumberTooLarge);
            }
            Ok(mag as i128)
        }
    }
}

/// A digit prefix that already exceeds the cap means the whole value does.
proof fn lemma_value_large(a: Scientific, i: int, partial: int)
    requires
        a.wf(),
        !a.spec_is_zero(),
        a.exponent >= 0,
        0 <= i < a.mantissa@.len(),
        partial == 10 * mant_val(a.mantissa@.subrange(0, i)) + a.mantissa@[i],
        partial > 0x8000_0000_0000_0000_0000_0000_0000_0000,
    ensures
        a.val_at(0) > 0x8000_0000_0000_0000_0000_0000_0000_0000 || a.val_at(0)
            < -0x8000_0000_0000_0000_0000_0000_0000_0000,
{
    crate::parse::lemma_mag_grows(a.mantissa@, i);
    lemma_pow10_pos((a.exponent - 0) as nat);
    let mv = mant_val(a.mantissa@);
    assert(mv >= partial);
    assert(mv * pow10(a.exponent as nat) >= mv) by (nonlinear_arith)
        requires
            pow10(a.exponent as nat) >= 1,
            mv >= 0,
    ;
    if a.negative {
        assert(a.val_at(0) == -(mv * pow10(a.exponent as nat))) by (nonlinear_arith)
            requires a.val_at(0) == a.sign_int() * (mv * pow10(a.exponent as nat)) && a.sign_int()
                == -1,
        ;
        assert(a.val_at(0) < -0x8000_0000_0000_0000_0000_0000_0000_0000);
    } else {
        assert(a.val_at(0) == mv * pow10(a.exponent as nat)) by (nonlinear_arith)
            requires a.val_at(0) == a.sign_int() * (mv * pow10(a.exponent as nat)) && a.sign_int()
                == 1,
        ;
        assert(a.val_at(0) > 0x8000_0000_0000_0000_0000_0000_0000_0000);
    }
}

/// A partially scaled magnitude exceeding the cap means the value does.
proof fn lemma_scaled_large(a: Scientific, e: nat, partial: int)
    requires
        a.wf(),
        !a.spec_is_zero(),
        a.exponent >= 0,
        e < a.exponent as nat,
        partial == 10 * (mant_val(a.mantissa@) * pow10(e)),
        partial > 0x8000_0000_0000_0000_0000_0000_0000_0000,
    ensures
        a.val_at(0) > 0x8000_0000_0000_0000_0000_0000_0000_0000 || a.val_at(0)
            < -0x8000_0000_0000_0000_0000_0000_0000_0000,
{
    let mv = mant_val(a.mantissa@);
    crate::digits::lemma_pow10_adds((e + 1) as nat, (a.exponent - e - 1) as nat);
    lemma_pow10_pos((a.exponent - e - 1) as nat);
    assert(pow10((e + 1) as nat) == 10 * pow10(e));
    assert(mv * pow10(a.exponent as nat) == (mv * pow10((e + 1) as nat)) * pow10(
        (a.exponent - e - 1) as nat,
    )) by (nonlinear_arith)
        requires pow10(a.exponent as nat) == pow10((e + 1) as nat) * pow10(
            (a.exponent - e - 1) as nat,
        ),
    ;
    assert(mv * pow10((e + 1) as nat) == partial) by (nonlinear_arith)
        requires
            partial == 10 * (mv * pow10(e)),
            pow10((e + 1) as nat) == 10 * pow10(e),
    ;
    assert(mv * pow10(a.exponent as nat) >= partial) by (nonlinear_arith)
        requires
            mv * pow10(a.exponent as nat) == partial * pow10((a.exponent - e - 1) as nat),
            pow10((a.exponent - e - 1) as nat) >= 1,
            partial >= 0,
    ;
    if a.negative {
        assert(a.val_at(0) == -(mv * pow10(a.exponent as nat))) by (nonlinear_arith)
            requires a.val_at(0) == a.sign_int() * (mv * pow10(a.exponent as nat)) && a.sign_int()
                == -1,
        ;
        assert(a.val_at(0) < -0x8000_0000_0000_0000_0000_0000_0000_0000);
    } else {
        assert(a.val_at(0) == mv * pow10(a.exponent as nat)) by (nonlinear_arith)
            requires a.val_at(0) == a.sign_int() * (mv * pow10(a.exponent as nat)) && a.sign_int()
                == 1,
        ;
        assert(a.val_at(0) > 0x8000_0000_0000_0000_0000_0000_0000_0000);
    }
}

/// A digit prefix that already exceeds the unsigned cap means the whole
/// positive value does.
proof fn lemma_value_large_u(a: Scientific, i: int, partial: int)
    requires
        a.wf(),
        !a.spec_is_zero(),
        !a.negative,
        a.exponent >= 0,
        0 <= i < a.mantissa@.len(),
        partial == 10 * mant_val(a.mantissa@.subrange(0, i)) + a.mantissa@[i],
        partial > 0xffff_ffff_ffff_ffff_ffff_ffff_ffff_ffff,
    ensures
        a.val_at(0) > 0xffff_ffff_ffff_ffff_ffff_ffff_ffff_ffff,
{
    crate::parse::lemma_mag_grows(a.mantissa@, i);
    lemma_pow10_pos((a.exponent - 0) as nat);
    let mv = mant_val(a.mantissa@);
    assert(mv >= partial);
    assert(mv * pow10(a.exponent as nat) >= mv) by (nonlinear_arith)
        requires
            pow10(a.exponent as nat) >= 1,
            mv >= 0,
    ;
    assert(a.val_at(0) == mv * pow10(a.exponent as nat)) by (nonlinear_arith)
        requires a.val_at(0) == a.sign_int() * (mv * pow10(a.exponent as nat)) && a.sign_int()
            == 1,
    ;
}

/// A partially scaled magnitude exceeding the unsigned cap means the
/// positive value does.
proof fn lemma_scaled_large_u(a: Scientific, e: nat, partial: int)
    requires
        a.wf(),
        !a.spec_is_zero(),
        !a.negative,
        a.exponent >= 0,
        e < a.exponent as nat,
        partial == 10 * (mant_val(a.mantissa@) * pow10(e)),
        partial > 0xffff_ffff_ffff_ffff_ffff_ffff_ffff_ffff,
    ensures
        a.val_at(0) > 0xffff_ffff_ffff_ffff_ffff_ffff_ffff_ffff,
{
    let mv = mant_val(a.mantissa@);
    crate::digits::lemma_pow10_adds((e + 1) as nat, (a.exponent - e - 1) as nat);
    lemma_pow10_pos((a.exponent - e - 1) as nat);
    assert(pow10((e + 1) as nat) == 10 * pow10(e));
    assert(mv * pow10(a.exponent as nat) == (mv * pow10((e + 1) as nat)) * pow10(
        (a.exponent - e - 1) as nat,
    )) by (nonlinear_arith)
        requires pow10(a.exponent as nat) == pow10((e + 1) as nat) * pow10(
            (a.exponent - e - 1) as nat,
        ),
    ;
    assert(mv * pow10((e + 1) as nat) == partial) by (nonlinear_arith)
        requires
            partial == 10 * (mv * pow10(e)),
            pow10((e + 1) as nat) == 10 * pow10(e),
    ;
    assert(mv * pow10(a.exponent as nat) >= partial) by (nonlinear_arith)
        requires
            mv * pow10(a.exponent as nat) == partial * pow10((a.exponent - e - 1) as nat),
            pow10((a.exponent - e - 1) as nat) >= 1,
            partial >= 0,
    ;
    assert(a.val_at(0) == mv * pow10(a.exponent as nat)) by (nonlinear_arith)
        requires a.val_at(0) == a.sign_int() * (mv * pow10(a.exponent as nat)) && a.sign_int()
            == 1,
    ;
}

/// The fully scaled magnitude is the absolute value at scale zero.
proof fn lemma_val_is_mag(a: Scientific)
    requires
        a.wf(),
        !a.spec_is_zero(),
        a.exponent >= 0,
    ensures
        a.negative ==> a.val_at(0) == -(mant_val(a.mantissa@) * pow10(a.exponent as nat)),
        !a.negative ==> a.val_at(0) == mant_val(a.mantissa@) * pow10(a.exponent as nat),
{
    let mv = mant_val(a.mantissa@) * pow10(a.exponent as nat);
    if a.negative {
        assert(a.val_at(0) == -1 * mv) by (nonlinear_arith)
            requires a.val_at(0) == a.sign_int() * mv && a.sign_int() == -1,
        ;
        assert(-1 * mv == -mv) by (nonlinear_arith);
    } else {
        assert(a.val_at(0) == 1 * mv) by (nonlinear_arith)
            requires a.val_at(0) == a.sign_int() * mv && a.sign_int() == 1,
        ;
        assert(1 * mv == mv) by (nonlinear_arith);
    }
}

impl Scientific {
    /// Build a value from a sign and a 128-bit magnitude, exactly.
    fn from_mag(negative: bool, magnitude: u128) -> (r: Scientific)
        ensures
            r.wf(),
            r.bounded(),
            r.scale_ok(0),
            0 <= r.exponent <= 40,
            r.mantissa@.len() <= 40,
            r.val_at(0) == (if negative {
                -(magnitude as int)
            } else {
                magnitude as int
            }),
    {
        if magnitude == 0 {
            let z = crate::sci::sci_zero();
            return z;
        }
        let mut mag: u128 = magnitude;
        let ghost m0 = mag as int;
        let mut rev: Vec<u8> = Vec::new();
        proof {
            assert(crate::digits::lval(rev@) == 0);
            assert((m0 as int) * pow10(0) == m0) by (nonlinear_arith)
                requires pow10(0) == 1;
        }
        let mut steps: usize = 0;
        while mag > 0
            invariant
                all_digits(rev@),
                rev@.len() == steps,
                steps <= 40,
                crate::digits::lval(rev@) + (mag as int) * pow10(steps as nat) == m0,
                mag <= m0,
                m0 <= 0xffff_ffff_ffff_ffff_ffff_ffff_ffff_ffff,
            decreases mag,
        {
            proof {
                // there is always room for one more digit
                crate::digits::lemma_pow10_40();
                lemma_pow10_pos(steps as nat);
                if steps >= 40 {
                    crate::digits::lemma_pow10_increases(40, steps as nat);
                    assert((mag as int) * pow10(steps as nat) >= pow10(steps as nat))
                        by (nonlinear_arith)
                        requires
                            mag >= 1,
                            pow10(steps as nat) >= 1,
                    ;
                    assert(false);
                }
            }
            let d = (mag % 10) as u8;
            let ghost prev = rev@;
            proof {
                crate::digits::lemma_lval_push(prev, d);
                assert(pow10((steps + 1) as nat) == 10 * pow10(steps as nat));
                assert(((mag / 10) as int) * (10 * pow10(steps as nat)) + (d as int) * pow10(
                    steps as nat,
                ) == (mag as int) * pow10(steps as nat)) by (nonlinear_arith)
                    requires mag == 10 * (mag / 10) + d;
            }
            rev.push(d);
            mag = mag / 10;
            steps = steps + 1;
        }
        let digits = crate::digits::reverse_digits(&rev);
        proof {
            crate::digits::lemma_lval_rev(digits@);
            assert(crate::digits::seq_rev(digits@) =~= rev@);
            assert((0 as int) * pow10(steps as nat) == 0) by (nonlinear_arith);
            assert(mant_val(digits@) == m0);
        }
        let r = normalize(negative, digits, 0);
        proof {
            assert(pow10(0) == 1);
            if negative {
                assert(r.val_at(0) == -1 * m0) by (nonlinear_arith)
                    requires r.val_at(0) == (-1int) * m0;
            }
        }
        r
    }

    /// Build a value from a signed 128-bit integer, exactly.
    pub fn from_i128(value: i128) -> (r: Scientific)
        ensures
            r.wf(),
            r.bounded(),
            r.scale_ok(0),
            0 <= r.exponent <= 40,
            r.mantissa@.len() <= 40,
            r.val_at(0) == value as int,
    {
        // the magnitude of the smallest value is computed without
        // overflowing the negation
        if value < 0 {
            Scientific::from_mag(true, ((-(value + 1)) as u128) + 1)
        } else {
            Scientific::from_mag(false, value as u128)
        }
    }

    /// Build a value from an unsigned 128-bit integer, exactly.
    pub fn from_u128(value: u128) -> (r: Scientific)
        ensures
            r.wf(),
            r.bounded(),
            r.scale_ok(0),
            r.val_at(0) == value as int,
    {
        Scientific::from_mag(false, value)
    }

    /// The exact 64-bit integer value, when there is one in range.
    pub fn to_i64(&self) -> (r: Result<i64, ConversionError>)
        requires
            self.wf(),
        ensures
            (!self.spec_is_zero() && self.exponent < 0) ==> r == Result::<
                i64,
                ConversionError,
            >::Err(ConversionError::NumberIsNotAnInteger),
            (self.spec_is_zero() || self.exponent >= 0) ==> {
                &&& (r is Ok <==> i64::MIN as int <= self.val_at(0) <= i64::MAX as int)
                &&& (r matches Ok(n) ==> n as int == self.val_at(0))
                &&& (r is Err ==> r == Result::<i64, ConversionError>::Err(
                    ConversionError::NumberTooLarge,
                ))
            },
    {
        match self.to_i128() {
            Ok(n) => {
                if n < i64::MIN as i128 || n > i64::MAX as i128 {
                    Err(ConversionError::NumberTooLarge)
                } else {
                    Ok(n as i64)
                }
            },
            Err(e) => Err(e),
        }
    }

    /// The exact 32-bit integer value, when there is one in range.
    pub fn to_i32(&self) -> (r: Result<i32, ConversionError>)
        requires
            self.wf(),
        ensures
            (!self.spec_is_zero() && self.exponent < 0) ==> r == Result::<
                i32,
                ConversionError,
            >::Err(ConversionError::NumberIsNotAnInteger),
            (self.spec_is_zero() || self.exponent >= 0) ==> {
                &&& (r is Ok <==> i32::MIN as int <= self.val_at(0) <= i32::MAX as int)
                &&& (r matches Ok(n) ==> n as int == self.val_at(0))
                &&& (r is Err ==> r == Result::<i32, ConversionError>::Err(
                    ConversionError::NumberTooLarge,
                ))
            },
    {
        match self.to_i128() {
            Ok(n) => {
                if n < i32::MIN as i128 || n > i32::MAX as i128 {
                    Err(ConversionError::NumberTooLarge)
                } else {
                    Ok(n as i32)
                }
            },
            Err(e) => Err(e),
        }
    }

    /// The exact 8-bit integer value, when there is one in range.
    pub fn to_i8(&self) -> (r: Result<i8, ConversionError>)
        requires
            self.wf(),
        ensures
            (!self.spec_is_zero() && self.exponent < 0) ==> r == Result::<
                i8,
                ConversionError,
            >::Err(ConversionError::NumberIsNotAnInteger),
            (self.spec_is_zero() || self.exponent >= 0) ==> {
                &&& (r is Ok <==> i8::MIN as int <= self.val_at(0) <= i8::MAX as int)
                &&& (r matches Ok(n) ==> n as int == self.val_at(0))
            },
    {
        match self.to_i128() {
            Ok(n) => {
                if n < i8::MIN as i128 || n > i8::MAX as i128 {
                    Err(ConversionError::NumberTooLarge)
                } else {
                    Ok(n as i8)
                }
            },
            Err(e) => Err(e),
        }
    }

    /// The exact unsigned 8-bit value: negative numbers are rejected as
    /// negative, not as too large.
    pub fn to_u8(&self) -> (r: Result<u8, ConversionError>)
        requires
            self.wf(),
        ensures
            (!self.spec_is_zero() && self.exponent < 0) ==> r == Result::<
                u8,
                ConversionError,
            >::Err(ConversionError::NumberIsNotAnInteger),
            (!self.spec_is_zero() && self.exponent >= 0 && self.negative) ==> r == Result::<
                u8,
                ConversionError,
            >::Err(ConversionError::NumberIsNegative),
            (self.spec_is_zero() || self.exponent >= 0 && !self.negative) ==> {
                &&& (r is Ok <==> self.val_at(0) <= u8::MAX as int)
                &&& (r matches Ok(n) ==> n as int == self.val_at(0))
                &&& (r is Err ==> r == Result::<u8, ConversionError>::Err(
                    ConversionError::NumberTooLarge,
                ))
            },
    {
        if self.is_zero() {
            return Ok(0);
        }
        if self.exponent < 0 {
            return Err(ConversionError::NumberIsNotAnInteger);
        }
        if self.negative {
            return Err(ConversionError::NumberIsNegative);
        }
        match self.to_i128() {
            Ok(n) => {
                if n > u8::MAX as i128 {
                    Err(ConversionError::NumberTooLarge)
                } else {
                    proof {
                        lemma_val_is_mag(*self);
                        lemma_mant_val_first(self.mantissa@);
                        lemma_pow10_pos((self.mantissa@.len() - 1) as nat);
                        lemma_pow10_pos(self.exponent as nat);
                        assert(self.val_at(0) >= 1) by (nonlinear_arith)
                            requires
                                self.val_at(0) == mant_val(self.mantissa@) * pow10(
                                    self.exponent as nat,
                                ),
                                mant_val(self.mantissa@) >= 1,
                                pow10(self.exponent as nat) >= 1,
                        ;
                    }
                    Ok(n as u8)
                }
            },
            Err(e) => Err(e),
        }
    }

    /// The exact unsigned 128-bit value: negative numbers are rejected as
    /// negative, not as too large.
    pub fn to_u128(&self) -> (r: Result<u128, ConversionError>)
        requires
            self.wf(),
        ensures
            (!self.spec_is_zero() && self.exponent < 0) ==> r == Result::<
                u128,
                ConversionError,
            >::Err(ConversionError::NumberIsNotAnInteger),
            (!self.spec_is_zero() && self.exponent >= 0 && self.negative) ==> r == Result::<
                u128,
                ConversionError,
            >::Err(ConversionError::NumberIsNegative),
            (self.spec_is_zero() || self.exponent >= 0 && !self.negative) ==> {
                &&& (r is Ok <==> self.val_at(0) <= u128::MAX as int)
                &&& (r matches Ok(n) ==> n as int == self.val_at(0))
                &&& (r is Err ==> r == Result::<u128, ConversionError>::Err(
                    ConversionError::NumberTooLarge,
                ))
            },
    {
        if self.is_zero() {
            return Ok(0);
        }
        if self.exponent < 0 {
            return Err(ConversionError::NumberIsNotAnInteger);
        }
        if self.negative {
            return Err(ConversionError::NumberIsNegative);
        }
        let cap: u128 = 0xffff_ffff_ffff_ffff_ffff_ffff_ffff_ffff;
        let n = self.mantissa.len();
        let ghost m = self.mantissa@;
        let mut mag: u128 = 0;
        let mut i: usize = 0;
        proof {
            assert(m.subrange(0, 0) =~= Seq::<u8>::empty());
        }
        while i < n
            invariant
                i <= n,
                n == m.len(),
                m == self.mantissa@,
                self.wf(),
                !self.spec_is_zero(),
                !self.negative,
                self.exponent >= 0,
                all_digits(m),
                mag as int == mant_val(m.subrange(0, i as int)),
                mag <= cap,
                cap == 0xffff_ffff_ffff_ffff_ffff_ffff_ffff_ffff,
            decreases n - i,
        {
            let d = self.mantissa[i];
            if mag > (cap - d as u128) / 10 {
                proof {
                    lemma_value_large_u(*self, i as int, 10 * (mag as int) + d);
                }
                return Err(ConversionError::NumberTooLarge);
            }
            let ghost pre = m.subrange(0, i as int);
            mag = mag * 10 + d as u128;
            proof {
                assert(m.subrange(0, i + 1) =~= pre.push(m[i as int]));
                crate::digits::lemma_mant_val_push(pre, m[i as int]);
            }
            i += 1;
        }
        proof {
            assert(m.subrange(0, n as int) =~= m);
            assert(pow10(0) == 1);
            assert(mant_val(m) * pow10(0) == mant_val(m)) by (nonlinear_arith)
                requires pow10(0) == 1;
        }
        let mut e: usize = 0;
        let ghost exp = self.exponent as nat;
        while e < self.exponent as usize
            invariant
                e <= exp,
                exp == self.exponent as nat,
                self.wf(),
                !self.spec_is_zero(),
                !self.negative,
                self.exponent >= 0,
                m == self.mantissa@,
                all_digits(m),
                m.len() > 0,
                m[0] != 0,
                mag as int == mant_val(m) * pow10(e as nat),
                mag <= cap,
                cap == 0xffff_ffff_ffff_ffff_ffff_ffff_ffff_ffff,
            decreases exp - e,
        {
            if mag > cap / 10 {
                proof {
                    lemma_scaled_large_u(*self, e as nat, 10 * (mag as int));
                }
                return Err(ConversionError::NumberTooLarge);
            }
            mag = mag * 10;
            proof {
                assert(pow10((e + 1) as nat) == 10 * pow10(e as nat));
                assert(mant_val(m) * pow10((e + 1) as nat) == 10 * (mant_val(m) * pow10(e as nat)))
                    by (nonlinear_arith)
                    requires pow10((e + 1) as nat) == 10 * pow10(e as nat);
            }
            e += 1;
        }
        proof {
            lemma_val_is_mag(*self);
        }
        Ok(mag)
    }

    /// The exact 16-bit integer value, when there is one in range.
    pub fn to_i16(&self) -> (r: Result<i16, ConversionError>)
        requires
            self.wf(),
        ensures
            (!self.spec_is_zero() && self.exponent < 0) ==> r == Result::<
                i16,
                ConversionError,
            >::Err(ConversionError::NumberIsNotAnInteger),
            (self.spec_is_zero() || self.exponent >= 0) ==> {
                &&& (r is Ok <==> i16::MIN as int <= self.val_at(0) <= i16::MAX as int)
                &&& (r matches Ok(n) ==> n as int == self.val_at(0))
            },
    {
        match self.to_i128() {
            Ok(n) => {
                if n < i16::MIN as i128 || n > i16::MAX as i128 {
                    Err(ConversionError::NumberTooLarge)
                } else {
                    Ok(n as i16)
                }
            },
            Err(e) => Err(e),
        }
    }

    /// The exact machine-word value, when there is one in range.
    pub fn to_isize(&self) -> (r: Result<isize, ConversionError>)
        requires
            self.wf(),
        ensures
            (!self.spec_is_zero() && self.exponent < 0) ==> r == Result::<
                isize,
                ConversionError,
            >::Err(ConversionError::NumberIsNotAnInteger),
            (self.spec_is_zero() || self.exponent >= 0) ==> {
                &&& (r is Ok <==> isize::MIN as int <= self.val_at(0) <= isize::MAX as int)
                &&& (r matches Ok(n) ==> n as int == self.val_at(0))
            },
    {
        match self.to_i128() {
            Ok(n) => {
                if n < isize::MIN as i128 || n > isize::MAX as i128 {
                    Err(ConversionError::NumberTooLarge)
                } else {
                    Ok(n as isize)
                }
            },
            Err(e) => Err(e),
        }
    }

    /// The exact unsigned 16-bit value.
    pub fn to_u16(&self) -> (r: Result<u16, ConversionError>)
        requires
            self.wf(),
        ensures
            (!self.spec_is_zero() && self.exponent < 0) ==> r == Result::<
                u16,
                ConversionError,
            >::Err(ConversionError::NumberIsNotAnInteger),
            (!self.spec_is_zero() && self.exponent >= 0 && self.negative) ==> r == Result::<
                u16,
                ConversionError,
            >::Err(ConversionError::NumberIsNegative),
            (self.spec_is_zero() || self.exponent >= 0 && !self.negative) ==> {
                &&& (r is Ok <==> self.val_at(0) <= u16::MAX as int)
                &&& (r matches Ok(n) ==> n as int == self.val_at(0))
            },
    {
        match self.to_u128() {
            Ok(n) => {
                if n > u16::MAX as u128 {
                    Err(ConversionError::NumberTooLarge)
                } else {
                    Ok(n as u16)
                }
            },
            Err(e) => Err(e),
        }
    }

    /// The exact unsigned 32-bit value.
    pub fn to_u32(&self) -> (r: Result<u32, ConversionError>)
        requires
            self.wf(),
        ensures
            (!self.spec_is_zero() && self.exponent < 0) ==> r == Result::<
                u32,
                ConversionError,
            >::Err(ConversionError::NumberIsNotAnInteger),
            (!self.spec_is_zero() && self.exponent >= 0 && self.negative) ==> r == Result::<
                u32,
                ConversionError,
            >::Err(ConversionError::NumberIsNegative),
            (self.spec_is_zero() || self.exponent >= 0 && !self.negative) ==> {
                &&& (r is Ok <==> self.val_at(0) <= u32::MAX as int)
                &&& (r matches Ok(n) ==> n as int == self.val_at(0))
            },
    {
        match self.to_u128() {
            Ok(n) => {
                if n > u32::MAX as u128 {
                    Err(ConversionError::NumberTooLarge)
                } else {
                    Ok(n as u32)
                }
            },
            Err(e) => Err(e),
        }
    }

    /// The exact unsigned 64-bit value.
    pub fn to_u64(&self) -> (r: Result<u64, ConversionError>)
        requires
            self.wf(),
        ensures
            (!self.spec_is_zero() && self.exponent < 0) ==> r == Result::<
                u64,
                ConversionError,
            >::Err(ConversionError::NumberIsNotAnInteger),
            (!self.spec_is_zero() && self.exponent >= 0 && self.negative) ==> r == Result::<
                u64,
                ConversionError,
            >::Err(ConversionError::NumberIsNegative),
            (self.spec_is_zero() || self.exponent >= 0 && !self.negative) ==> {
                &&& (r is Ok <==> self.val_at(0) <= u64::MAX as int)
                &&& (r matches Ok(n) ==> n as int == self.val_at(0))
            },
    {
        match self.to_u128() {
            Ok(n) => {
                if n > u64::MAX as u128 {
                    Err(ConversionError::NumberTooLarge)
                } else {
                    Ok(n as u64)
                }
            },
            Err(e) => Err(e),
        }
    }

    /// The exact unsigned machine-word value.
    pub fn to_usize(&self) -> (r: Result<usize, ConversionError>)
        requires
            self.wf(),
        ensures
            (!self.spec_is_zero() && self.exponent < 0) ==> r == Result::<
                usize,
                ConversionError,
            >::Err(ConversionError::NumberIsNotAnInteger),
            (!self.spec_is_zero() && self.exponent >= 0 && self.negative) ==> r == Result::<
                usize,
                ConversionError,
            >::Err(ConversionError::NumberIsNegative),
            (self.spec_is_zero() || self.exponent >= 0 && !self.negative) ==> {
                &&& (r is Ok <==> self.val_at(0) <= usize::MAX as int)
                &&& (r matches Ok(n) ==> n as int == self.val_at(0))
            },
    {
        match self.to_u128() {
            Ok(n) => {
                if n > usize::MAX as u128 {
                    Err(ConversionError::NumberTooLarge)
                } else {
                    Ok(n as usize)
                }
            },
            Err(e) => Err(e),
        }
    }

    /// Build a value from a signed 8-bit integer, exactly.
    pub fn from_i8(value: i8) -> (r: Scientific)
        ensures
            r.wf(),
            r.bounded(),
            r.scale_ok(0),
            r.val_at(0) == value as int,
    {
        Scientific::from_i128(value as i128)
    }

    /// Build a value from a signed 16-bit integer, exactly.
    pub fn from_i16(value: i16) -> (r: Scientific)
        ensures
            r.wf(),
            r.bounded(),
            r.scale_ok(0),
            r.val_at(0) == value as int,
    {
        Scientific::from_i128(value as i128)
    }

    /// Build a value from a signed machine word, exactly.
    pub fn from_isize(value: isize) -> (r: Scientific)
        ensures
            r.wf(),
            r.bounded(),
            r.scale_ok(0),
            r.val_at(0) == value as int,
    {
        Scientific::from_i128(value as i128)
    }

    /// Build a value from an unsigned 8-bit integer, exactly.
    pub fn from_u8(value: u8) -> (r: Scientific)
        ensures
            r.wf(),
            r.bounded(),
            r.scale_ok(0),
            r.val_at(0) == value as int,
    {
        Scientific::from_i128(value as i128)
    }

    /// Build a value from an unsigned 16-bit integer, exactly.
    pub fn from_u16(value: u16) -> (r: Scientific)
        ensures
            r.wf(),
            r.bounded(),
            r.scale_ok(0),
            r.val_at(0) == value as int,
    {
        Scientific::from_i128(value as i128)
    }

    /// Build a value from an unsigned 32-bit integer, exactly.
    pub fn from_u32(value: u32) -> (r: Scientific)
        ensures
            r.wf(),
            r.bounded(),
            r.scale_ok(0),
            r.val_at(0) == value as int,
    {
        Scientific::from_i128(value as i128)
    }

    /// Build a value from an unsigned 64-bit integer, exactly.
    pub fn from_u64(value: u64) -> (r: Scientific)
        ensures
            r.wf(),
            r.bounded(),
            r.scale_ok(0),
            r.val_at(0) == value as int,
    {
        Scientific::from_i128(value as i128)
    }

    /// Build a value from an unsigned machine word, exactly.
    pub fn from_usize(value: usize) -> (r: Scientific)
        ensures
            r.wf(),
            r.bounded(),
            r.scale_ok(0),
            r.val_at(0) == value as int,
    {
        Scientific::from_u128(value as u128)
    }

    /// Build a value from a signed 64-bit integer, exactly.
    pub fn from_i64(value: i64) -> (r: Scientific)
        ensures
            r.wf(),
            r.bounded(),
            r.scale_ok(0),
            0 <= r.exponent <= 40,
            r.mantissa@.len() <= 40,
            r.val_at(0) == value as int,
    {
        Scientific::from_i128(value as i128)
    }

    /// Build a value from a signed 32-bit integer, exactly.
    pub fn from_i32(value: i32) -> (r: Scientific)
        ensures
            r.wf(),
            r.bounded(),
            r.scale_ok(0),
            0 <= r.exponent <= 40,
            r.mantissa@.len() <= 40,
            r.val_at(0) == value as int,
    {
        Scientific::from_i128(value as i128)
    }
}

} // verus!
