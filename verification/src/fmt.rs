//! Textual output: the debug form `[-]digits[e<exp>]` and the human-readable
//! display form.

use vstd::prelude::*;

use crate::sci::Scientific;

verus! {

/// The characters of an ASCII byte sequence.
pub open spec fn ascii_chars(bs: Seq<u8>) -> Seq<char> {
    Seq::new(bs.len(), |i: int| bs[i] as char)
}

/// The ASCII bytes of a digit-value sequence.
pub open spec fn digit_bytes(m: Seq<u8>) -> Seq<u8> {
    Seq::new(m.len(), |i: int| (m[i] + 48) as u8)
}

/// The decimal ASCII form of a natural number.
pub open spec fn nat_bytes(n: nat) -> Seq<u8>
    decreases n,
{
    if n < 10 {
        seq![(n + 48) as u8]
    } else {
        nat_bytes(n / 10).push((n % 10 + 48) as u8)
    }
}

/// The decimal ASCII form of an integer, with a leading minus when negative.
pub open spec fn int_bytes(e: int) -> Seq<u8> {
    if e < 0 {
        seq![45u8] + nat_bytes((-e) as nat)
    } else {
        nat_bytes(e as nat)
    }
}

/// The debug form: sign, plain digits, and the raw exponent when non-zero.
pub open spec fn debug_bytes(v: Scientific) -> Seq<u8> {
    if v.spec_is_zero() {
        seq![48u8]
    } else {
        (if v.negative {
            seq![45u8]
        } else {
            Seq::<u8>::empty()
        }) + digit_bytes(v.mantissa@) + (if v.exponent != 0 {
            seq![101u8] + int_bytes(v.exponent as int)
        } else {
            Seq::<u8>::empty()
        })
    }
}

/// A run of ASCII zeros.
pub open spec fn zero_bytes(n: nat) -> Seq<u8> {
    Seq::new(n, |i: int| 48u8)
}

/// The display form: plain positional notation for moderate magnitudes,
/// scientific notation with one leading digit otherwise.
pub open spec fn display_bytes(v: Scientific) -> Seq<u8> {
    if v.spec_is_zero() {
        seq![48u8]
    } else {
        let m = v.mantissa@;
        let e0 = v.spec_exponent0();
        let sign: Seq<u8> = if v.negative {
            seq![45u8]
        } else {
            Seq::<u8>::empty()
        };
        if -1 <= e0 <= 0 {
            sign + seq![48u8, 46u8] + zero_bytes((-e0) as nat) + digit_bytes(m)
        } else if 1 < e0 <= 7 {
            let mid: int = if e0 <= m.len() {
                e0
            } else {
                m.len() as int
            };
            sign + digit_bytes(m.subrange(0, mid)) + zero_bytes((e0 - mid) as nat) + (if m.len()
                > e0 {
                seq![46u8] + digit_bytes(m.subrange(e0, m.len() as int))
            } else {
                Seq::<u8>::empty()
            })
        } else {
            sign + digit_bytes(m.subrange(0, 1)) + (if m.len() > 1 {
                seq![46u8] + digit_bytes(m.subrange(1, m.len() as int))
            } else {
                Seq::<u8>::empty()
            }) + (if e0 != 1 {
                seq![101u8] + int_bytes(e0 - 1)
            } else {
                Seq::<u8>::empty()
            })
        }
    }
}

/// Relies on `String::from_utf8`: ASCII bytes are valid UTF-8, and the
/// resulting string holds exactly those bytes, i.e. those characters.
#[verifier::external_body]
fn string_from_ascii(bytes: Vec<u8>) -> (r: String)
    requires
        forall|i: int| 0 <= i < bytes@.len() ==> bytes@[i] < 128,
    ensures
        r@ == ascii_chars(bytes@),
{
    String::from_utf8(bytes).unwrap_or_default()
}

/// Append the decimal ASCII form of `n`.
fn push_nat(n: usize, out: &mut Vec<u8>)
    ensures
        final(out)@ == old(out)@ + nat_bytes(n as nat),
    decreases n,
{
    if n < 10 {
        out.push((n as u8) + 48);
        proof {
            assert(out@ =~= old(out)@ + nat_bytes(n as nat));
        }
    } else {
        push_nat(n / 10, out);
        let d = (n % 10) as u8;
        out.push(d + 48);
        proof {
            assert(out@ =~= old(out)@ + nat_bytes(n as nat));
        }
    }
}

/// Append the decimal ASCII form of a signed exponent.
fn push_int(e: isize, out: &mut Vec<u8>)
    requires
        e != isize::MIN,
    ensures
        final(out)@ == old(out)@ + int_bytes(e as int),
    decreases (if e >= 0 {
        e as int
    } else {
        -(e as int)
    }),
{
    if e < 0 {
        out.push(45);
        push_nat((-e) as usize, out);
        proof {
            assert(out@ =~= old(out)@ + int_bytes(e as int));
        }
    } else {
        push_nat(e as usize, out);
    }
}

/// Append the ASCII digits of a mantissa range.
fn push_mantissa(m: &Vec<u8>, a: usize, b: usize, out: &mut Vec<u8>)
    requires
        a <= b <= m@.len(),
        crate::digits::all_digits(m@),
    ensures
        final(out)@ == old(out)@ + digit_bytes(m@.subrange(a as int, b as int)),
{
    let mut i = a;
    while i < b
        invariant
            a <= i <= b <= m@.len(),
            crate::digits::all_digits(m@),
            out@ == old(out)@ + digit_bytes(m@.subrange(a as int, i as int)),
        decreases b - i,
    {
        out.push(m[i] + 48);
        proof {
            assert(out@ =~= old(out)@ + digit_bytes(m@.subrange(a as int, i + 1)));
        }
        i += 1;
    }
}

/// The decimal form of a natural number is a non-empty run of digit bytes.
pub proof fn lemma_nat_bytes_ascii(n: nat)
    ensures
        forall|i: int| 0 <= i < nat_bytes(n).len() ==> 48 <= #[trigger] nat_bytes(n)[i] <= 57,
        nat_bytes(n).len() >= 1,
    decreases n,
{
    if n >= 10 {
        lemma_nat_bytes_ascii(n / 10);
    }
}

impl Scientific {
    /// The debug form: the raw digits and the raw exponent, as in `123e-2`.
    pub fn to_debug_string(&self) -> (r: String)
        requires
            self.wf(),
            self.exponent != isize::MIN,
        ensures
            r@ == ascii_chars(debug_bytes(*self)),
    {
        let mut out: Vec<u8> = Vec::new();
        if self.is_zero() {
            out.push(48);
            proof {
                assert(out@ =~= debug_bytes(*self));
            }
            return string_from_ascii(out);
        }
        if self.negative {
            out.push(45);
        }
        push_mantissa(&self.mantissa, 0, self.mantissa.len(), &mut out);
        proof {
            assert(self.mantissa@.subrange(0, self.mantissa@.len() as int) =~= self.mantissa@);
        }
        if self.exponent != 0 {
            out.push(101);
            push_int(self.exponent, &mut out);
        }
        proof {
            assert(out@ =~= debug_bytes(*self));
            lemma_debug_ascii(*self);
        }
        string_from_ascii(out)
    }

    /// The display form: positional notation for moderate magnitudes, and
    /// `d.ddd e<exp>` notation otherwise.
    #[verifier::rlimit(80)]
    pub fn to_display_string(&self) -> (r: String)
        requires
            self.wf(),
            self.roomy(),
        ensures
            r@ == ascii_chars(display_bytes(*self)),
    {
        let mut out: Vec<u8> = Vec::new();
        if self.is_zero() {
            out.push(48);
            proof {
                assert(out@ =~= display_bytes(*self));
            }
            return string_from_ascii(out);
        }
        if self.negative {
            out.push(45);
        }
        let len = self.mantissa.len();
        let e0 = self.exponent + len as isize;
        if -1 <= e0 && e0 <= 0 {
            out.push(48);
            out.push(46);
            let mut k: usize = 0;
            let zn = (-e0) as usize;
            while k < zn
                invariant
                    k <= zn,
                    out@ == (if self.negative {
                        seq![45u8]
                    } else {
                        Seq::<u8>::empty()
                    }) + seq![48u8, 46u8] + zero_bytes(k as nat),
                decreases zn - k,
            {
                out.push(48);
                proof {
                    assert(out@ =~= (if self.negative {
                        seq![45u8]
                    } else {
                        Seq::<u8>::empty()
                    }) + seq![48u8, 46u8] + zero_bytes((k + 1) as nat));
                }
                k += 1;
            }
            push_mantissa(&self.mantissa, 0, len, &mut out);
            proof {
                assert(self.mantissa@.subrange(0, len as int) =~= self.mantissa@);
                assert(out@ =~= display_bytes(*self));
                lemma_display_ascii(*self);
            }
            return string_from_ascii(out);
        }
        if 1 < e0 && e0 <= 7 {
            let mid: usize = if e0 <= len as isize {
                e0 as usize
            } else {
                len
            };
            push_mantissa(&self.mantissa, 0, mid, &mut out);
            let mut k: usize = 0;
            let zn = e0 as usize - mid;
            let ghost base = out@;
            while k < zn
                invariant
                    k <= zn,
                    out@ == base + zero_bytes(k as nat),
                decreases zn - k,
            {
                out.push(48);
                proof {
                    assert(out@ =~= base + zero_bytes((k + 1) as nat));
                }
                k += 1;
            }
            if len as isize > e0 {
                out.push(46);
                push_mantissa(&self.mantissa, e0 as usize, len, &mut out);
            }
            proof {
                assert(out@ =~= display_bytes(*self));
                lemma_display_ascii(*self);
            }
            return string_from_ascii(out);
        }
        push_mantissa(&self.mantissa, 0, 1, &mut out);
        if len > 1 {
            out.push(46);
            push_mantissa(&self.mantissa, 1, len, &mut out);
        }
        if e0 != 1 {
            out.push(101);
            push_int(e0 - 1, &mut out);
        }
        proof {
            assert(out@ =~= display_bytes(*self));
            lemma_display_ascii(*self);
        }
        string_from_ascii(out)
    }
}

/// The debug form consists of ASCII bytes.
proof fn lemma_debug_ascii(v: Scientific)
    requires
        v.wf(),
    ensures
        forall|i: int| 0 <= i < debug_bytes(v).len() ==> debug_bytes(v)[i] < 128,
{
    if !v.spec_is_zero() {
        if v.exponent < 0 {
            lemma_nat_bytes_ascii((-(v.exponent as int)) as nat);
        } else {
            lemma_nat_bytes_ascii(v.exponent as nat);
        }
    }
}

/// The display form consists of ASCII bytes.
proof fn lemma_display_ascii(v: Scientific)
    requires
        v.wf(),
    ensures
        forall|i: int| 0 <= i < display_bytes(v).len() ==> display_bytes(v)[i] < 128,
{
    if !v.spec_is_zero() {
        let e1 = v.spec_exponent0() - 1;
        if e1 < 0 {
            lemma_nat_bytes_ascii((-e1) as nat);
        } else {
            lemma_nat_bytes_ascii(e1 as nat);
        }
    }
}

} // verus!
