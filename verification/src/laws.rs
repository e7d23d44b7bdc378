//! The library's algebraic laws, proved from the operation contracts and the
//! uniqueness of the canonical form.

use vstd::prelude::*;

use crate::addsub::diff_spec;
use crate::addsub::sum_spec;
use crate::cmp::common_scale;
use crate::digits::all_digits;
use crate::digits::lemma_mant_val_bound;
use crate::digits::lemma_mant_val_first;
use crate::digits::lemma_pow10_increases;
use crate::digits::lemma_pow10_pos;
use crate::digits::mant_val;
use crate::digits::pow10;
use crate::mul::prod_spec;
use crate::sci::lemma_canonical_unique;
use crate::sci::Scientific;

verus! {

/// Canonical form: every well-formed value is either the canonical zero or a
/// digit string with no leading and no trailing zero digit.
pub proof fn lemma_canonical_form(v: Scientific)
    requires
        v.wf(),
    ensures
        (v.mantissa@.len() == 0 && v.exponent == 1 && !v.negative) || (v.mantissa@.len() > 0
            && v.mantissa@[0] >= 1 && v.mantissa@[v.mantissa@.len() - 1] >= 1 && all_digits(
            v.mantissa@,
        )),
{
}

/// A well-formed value denoting zero is the canonical zero.
pub proof fn lemma_zero_value(r: Scientific, s: int)
    requires
        r.wf(),
        r.scale_ok(s),
        r.val_at(s) == 0,
    ensures
        r.spec_is_zero(),
        r@ == (false, Seq::<u8>::empty(), 1int),
{
    if !r.spec_is_zero() {
        lemma_mant_val_first(r.mantissa@);
        lemma_pow10_pos((r.mantissa@.len() - 1) as nat);
        lemma_pow10_pos((r.exponent - s) as nat);
        assert(r.val_at(s) != 0) by (nonlinear_arith)
            requires
                r.val_at(s) == r.sign_int() * (mant_val(r.mantissa@) * pow10(
                    (r.exponent - s) as nat,
                )),
                mant_val(r.mantissa@) >= 1,
                pow10((r.exponent - s) as nat) >= 1,
                r.sign_int() == 1 || r.sign_int() == -1,
        ;
    }
}

/// Adding zero returns the other operand unchanged.
pub proof fn lemma_add_zero(a: Scientific, z: Scientific, r: Scientific)
    requires
        a.wf(),
        z.wf(),
        z.spec_is_zero(),
        sum_spec(a, z, r),
    ensures
        r@ == a@,
{
    let s = common_scale(a, z);
    lemma_canonical_unique(r, a, s);
}

/// Subtracting a value from itself gives zero.
pub proof fn lemma_sub_self(a: Scientific, r: Scientific)
    requires
        a.wf(),
        diff_spec(a, a, r),
    ensures
        r.spec_is_zero(),
{
    let s = common_scale(a, a);
    lemma_zero_value(r, s);
}

/// Multiplying by zero gives zero.
pub proof fn lemma_mul_zero(a: Scientific, z: Scientific, r: Scientific)
    requires
        a.wf(),
        z.wf(),
        z.spec_is_zero(),
        prod_spec(a, z, r),
    ensures
        r.spec_is_zero(),
{
}

/// Multiplying by one returns the other operand unchanged.
pub proof fn lemma_mul_one(a: Scientific, one: Scientific, r: Scientific)
    requires
        a.wf(),
        one.wf(),
        one@ == (false, seq![1u8], 0int),
        prod_spec(a, one, r),
    ensures
        r@ == a@,
{
    if a.spec_is_zero() {
        assert(r.spec_is_zero());
        lemma_canonical_unique(r, a, 0);
    } else {
        let sp = a.exponent as int;
        assert(mant_val(seq![1u8]) == 1) by {
            let s1 = seq![1u8];
            assert(s1.len() == 1);
            assert(s1[0] == 1u8);
            assert(s1.subrange(1, 1) =~= Seq::<u8>::empty());
            assert(mant_val(Seq::<u8>::empty()) == 0);
            assert(mant_val(s1) == (s1[0] as nat) * pow10(0) + mant_val(s1.subrange(1, 1)));
            assert(pow10(0) == 1);
            assert((1 as nat) * 1 == 1) by (nonlinear_arith);
        }
        crate::sci::lemma_val_at_self_scale(one);
        assert(one.val_at(0) == 1 * 1) by (nonlinear_arith)
            requires one.val_at(0) == one.sign_int() * mant_val(one.mantissa@) && one.sign_int()
                == 1 && mant_val(one.mantissa@) == 1,
        ;
        assert(r.val_at(sp) == a.val_at(a.exponent as int) * 1);
        assert(r.val_at(sp) == a.val_at(a.exponent as int)) by (nonlinear_arith)
            requires r.val_at(sp) == a.val_at(a.exponent as int) * 1;
        lemma_canonical_unique(r, a, sp);
    }
}

/// Addition is commutative.
pub proof fn lemma_add_commutes(a: Scientific, b: Scientific, r1: Scientific, r2: Scientific)
    requires
        a.wf(),
        b.wf(),
        sum_spec(a, b, r1),
        sum_spec(b, a, r2),
    ensures
        r1@ == r2@,
{
    let s = common_scale(a, b);
    assert(common_scale(b, a) == s);
    lemma_canonical_unique(r1, r2, s);
}

/// Multiplication is commutative.
pub proof fn lemma_mul_commutes(a: Scientific, b: Scientific, r1: Scientific, r2: Scientific)
    requires
        a.wf(),
        b.wf(),
        prod_spec(a, b, r1),
        prod_spec(b, a, r2),
    ensures
        r1@ == r2@,
{
    if a.spec_is_zero() || b.spec_is_zero() {
        lemma_canonical_unique(r1, r2, 1);
    } else {
        let sp = a.exponent + b.exponent;
        assert(a.val_at(a.exponent as int) * b.val_at(b.exponent as int) == b.val_at(
            b.exponent as int,
        ) * a.val_at(a.exponent as int)) by (nonlinear_arith);
        lemma_canonical_unique(r1, r2, sp);
    }
}

/// A left shift followed by the same right shift returns the value.
pub proof fn lemma_shift_round_trip(v: Scientific, k: int, r1: Scientific, r2: Scientific)
    requires
        v.wf(),
        r1.wf(),
        r2.wf(),
        r1.mantissa@ == v.mantissa@,
        r1.negative == v.negative,
        r1.exponent as int == (if v.spec_is_zero() {
            v.exponent as int
        } else {
            v.exponent + k
        }),
        r2.mantissa@ == r1.mantissa@,
        r2.negative == r1.negative,
        r2.exponent as int == (if r1.spec_is_zero() {
            r1.exponent as int
        } else {
            r1.exponent - k
        }),
    ensures
        r2@ == v@,
{
}

/// A left shift by `k` is exactly a multiplication by `10^k`.
pub proof fn lemma_shl_is_mul_pow10(v: Scientific, k: nat, p: Scientific, m: Scientific, r1: Scientific)
    requires
        v.wf(),
        p.wf(),
        p@ == (false, seq![1u8], k as int),
        prod_spec(v, p, m),
        r1.wf(),
        r1.mantissa@ == v.mantissa@,
        r1.negative == v.negative,
        r1.exponent as int == (if v.spec_is_zero() {
            v.exponent as int
        } else {
            v.exponent + k
        }),
    ensures
        m@ == r1@,
{
    if v.spec_is_zero() {
        lemma_canonical_unique(m, r1, 1);
    } else {
        let sp = v.exponent + k;
        assert(mant_val(seq![1u8]) == 1) by {
            let s1 = seq![1u8];
            assert(s1.len() == 1);
            assert(s1[0] == 1u8);
            assert(s1.subrange(1, 1) =~= Seq::<u8>::empty());
            assert(mant_val(Seq::<u8>::empty()) == 0);
            assert(mant_val(s1) == (s1[0] as nat) * pow10(0) + mant_val(s1.subrange(1, 1)));
            assert(pow10(0) == 1);
            assert((1 as nat) * 1 == 1) by (nonlinear_arith);
        }
        crate::sci::lemma_val_at_self_scale(p);
        assert(p.val_at(k as int) == 1 * 1) by (nonlinear_arith)
            requires p.val_at(k as int) == p.sign_int() * mant_val(p.mantissa@) && p.sign_int()
                == 1 && mant_val(p.mantissa@) == 1,
        ;
        assert(m.val_at(sp) == v.val_at(v.exponent as int) * 1);
        assert(m.val_at(sp) == v.val_at(v.exponent as int)) by (nonlinear_arith)
            requires m.val_at(sp) == v.val_at(v.exponent as int) * 1;
        crate::sci::lemma_val_at_self_scale(r1);
        crate::sci::lemma_val_at_self_scale(v);
        assert(r1.val_at(sp) == v.val_at(v.exponent as int));
        lemma_canonical_unique(m, r1, sp);
    }
}

/// Rounding or truncating to `Digits(n)` leaves at most `n` digits.
pub proof fn lemma_round_digits_len(a: Scientific, n: int, c: int, kept: nat, up: bool, r: Scientific)
    requires
        a.wf(),
        r.wf(),
        n >= 1,
        0 <= n < a.mantissa@.len(),
        c == a.spec_exponent0() - n,
        kept == mant_val(a.mantissa@.subrange(0, n)),
        r.scale_ok(c),
        r.val_at(c) == a.sign_int() * (kept + (if up {
            1int
        } else {
            0int
        })),
    ensures
        r.mantissa@.len() <= n,
{
    if !r.spec_is_zero() {
        lemma_mant_val_bound(a.mantissa@.subrange(0, n));
        let mag = mant_val(r.mantissa@) * pow10((r.exponent - c) as nat);
        assert(mag == (if r.negative {
            -r.val_at(c)
        } else {
            r.val_at(c)
        })) by (nonlinear_arith)
            requires
                r.val_at(c) == r.sign_int() * mag,
                r.sign_int() == (if r.negative {
                    -1int
                } else {
                    1int
                }),
                mag >= 0,
        ;
        assert(mag <= kept + 1);
        assert(kept + 1 <= pow10(n as nat));
        lemma_mant_val_first(r.mantissa@);
        lemma_pow10_pos((r.exponent - c) as nat);
        assert(mag >= pow10((r.mantissa@.len() - 1) as nat) * pow10((r.exponent - c) as nat))
            by (nonlinear_arith)
            requires
                mag == mant_val(r.mantissa@) * pow10((r.exponent - c) as nat),
                mant_val(r.mantissa@) >= pow10((r.mantissa@.len() - 1) as nat),
                pow10((r.exponent - c) as nat) >= 1,
        ;
        crate::digits::lemma_pow10_adds((r.mantissa@.len() - 1) as nat, (r.exponent - c) as nat);
        let h = (r.mantissa@.len() - 1 + r.exponent - c) as nat;
        assert(pow10(h) <= mag);
        assert(mag <= pow10(n as nat));
        if h >= n {
            // the bounds pinch: the magnitude is exactly a power of ten, so
            // the canonical mantissa is the single digit one
            lemma_pow10_increases(n as nat, h);
            assert(pow10(h) == pow10(n as nat));
            if h > n {
                lemma_pow10_strict(n as nat, h);
                assert(false);
            }
            assert(mag == pow10(h));
            assert(mant_val(seq![1u8]) == 1) by {
                let s1 = seq![1u8];
                assert(s1.len() == 1);
                assert(s1[0] == 1u8);
                assert(s1.subrange(1, 1) =~= Seq::<u8>::empty());
                assert(mant_val(Seq::<u8>::empty()) == 0);
                assert(mant_val(s1) == (s1[0] as nat) * pow10(0) + mant_val(s1.subrange(1, 1)));
                assert(pow10(0) == 1);
                assert((1 as nat) * 1 == 1) by (nonlinear_arith);
            }
            assert(mant_val(r.mantissa@) * pow10((r.exponent - c) as nat) == mant_val(seq![1u8])
                * pow10(h)) by (nonlinear_arith)
                requires
                    mant_val(r.mantissa@) * pow10((r.exponent - c) as nat) == pow10(h),
                    mant_val(seq![1u8]) == 1,
            ;
            crate::sci::lemma_equal_scaled_mantissas(r.mantissa@, seq![1u8], (r.exponent
                - c) as nat, h);
            assert(r.mantissa@.len() == 1);
        } else {
            assert(r.mantissa@.len() <= n + (c - r.exponent));
            assert(r.exponent >= c);
            assert(r.mantissa@.len() <= n);
        }
    }
}

/// Rebuilding a value from its own raw parts returns the value: the sign,
/// the raw mantissa (the single digit `0` for zero), and the exponent
/// determine it completely.
pub proof fn lemma_raw_parts_round_trip(v: Scientific, m: Seq<u8>, w: Scientific)
    requires
        v.wf(),
        w.wf(),
        // the raw mantissa as `as_raw_mantissa` hands it out
        m == (if v.spec_is_zero() {
            seq![0u8]
        } else {
            v.mantissa@
        }),
        // what `from_raw_parts(v.negative, m, v.exponent)` promises
        mant_val(m) == 0 ==> w.spec_is_zero(),
        mant_val(m) != 0 ==> w.negative == v.negative && w.scale_ok(v.exponent as int) && w.val_at(
            v.exponent as int,
        ) == (if v.negative {
            -1int
        } else {
            1int
        }) * mant_val(m),
    ensures
        w@ == v@,
{
    if v.spec_is_zero() {
        assert(mant_val(m) == 0) by {
            assert(m.subrange(1, 1) =~= Seq::<u8>::empty());
            assert(mant_val(Seq::<u8>::empty()) == 0);
            assert(m[0] == 0u8);
            assert(mant_val(m) == (m[0] as nat) * pow10(0) + mant_val(m.subrange(1, 1)));
            assert((0 as nat) * pow10(0) == 0) by (nonlinear_arith);
        }
        assert(w@ == v@);
    } else {
        lemma_mant_val_first(v.mantissa@);
        lemma_pow10_pos((v.mantissa@.len() - 1) as nat);
        crate::sci::lemma_val_at_self_scale(v);
        lemma_canonical_unique(w, v, v.exponent as int);
    }
}

/// A run of digit characters ends exactly at the first non-digit (or the end).
proof fn lemma_digits_run(s: Seq<char>, a: int, b: int)
    requires
        0 <= a <= b <= s.len(),
        forall|j: int| a <= j < b ==> crate::parse::is_dig(s[j]),
        b == s.len() || !crate::parse::is_dig(s[b]),
    ensures
        crate::parse::digits_end(s, a) == b,
    decreases b - a,
{
    if a < b {
        lemma_digits_run(s, a + 1, b);
    }
}

/// Reading back the decimal form of a natural number gives the number.
proof fn lemma_nat_bytes_value(n: nat)
    ensures
        Seq::new(crate::fmt::nat_bytes(n).len(), |i: int| (crate::fmt::nat_bytes(n)[i] - 48) as u8)
            =~= Seq::new(crate::fmt::nat_bytes(n).len(), |i: int| (crate::fmt::nat_bytes(n)[i]
            - 48) as u8),
        mant_val(
            Seq::new(
                crate::fmt::nat_bytes(n).len(),
                |i: int| (crate::fmt::nat_bytes(n)[i] - 48) as u8,
            ),
        ) == n,
    decreases n,
{
    let bs = crate::fmt::nat_bytes(n);
    crate::fmt::lemma_nat_bytes_ascii(n);
    let vals = Seq::new(bs.len(), |i: int| (bs[i] - 48) as u8);
    if n < 10 {
        assert(bs =~= seq![(n + 48) as u8]);
        assert(vals =~= seq![n as u8]);
        assert(vals.subrange(1, 1) =~= Seq::<u8>::empty());
        assert(mant_val(Seq::<u8>::empty()) == 0);
        assert(pow10(0) == 1);
        assert(mant_val(vals) == (n as nat) * 1 + 0);
        assert((n as nat) * 1 == n) by (nonlinear_arith);
    } else {
        lemma_nat_bytes_value(n / 10);
        let pre = crate::fmt::nat_bytes(n / 10);
        let pvals = Seq::new(pre.len(), |i: int| (pre[i] - 48) as u8);
        assert(bs =~= pre.push((n % 10 + 48) as u8));
        assert(vals =~= pvals.push((n % 10) as u8));
        crate::digits::lemma_mant_val_push(pvals, (n % 10) as u8);
    }
}

/// Printing in the debug form and parsing the text back recovers the sign,
/// the digits, and the exponent exactly.
#[verifier::rlimit(100)]
pub proof fn lemma_parse_print_round_trip(v: Scientific)
    requires
        v.wf(),
        v.roomy(),
    ensures
        ({
            let s = crate::fmt::ascii_chars(crate::fmt::debug_bytes(v));
            &&& crate::parse::parse_accepts(s)
            &&& (crate::parse::parse_spec(s) matches Some(t) ==> {
                &&& (mant_val(t.1) == 0 <==> v.spec_is_zero())
                &&& (!v.spec_is_zero() ==> t.0 == v.negative && t.1 =~= v.mantissa@ && t.2
                    == v.exponent as int)
            })
        }),
{
    let bs = crate::fmt::debug_bytes(v);
    let s = crate::fmt::ascii_chars(bs);
    if v.spec_is_zero() {
        assert(bs =~= seq![48u8]);
        assert(s.len() == 1);
        assert(s[0] == '0');
        assert(crate::parse::is_dig(s[0]));
        lemma_digits_run(s, 0, 1);
        let t = crate::parse::parse_spec(s).unwrap();
        let z = seq![0u8];
        assert(t.1 =~= z);
        assert(t.1 == z);
        assert(z.subrange(1, 1) =~= Seq::<u8>::empty());
        assert(mant_val(Seq::<u8>::empty()) == 0);
        assert(z[0] == 0u8);
        assert(mant_val(z) == (z[0] as nat) * pow10(0) + mant_val(z.subrange(1, 1)));
        assert((0 as nat) * pow10(0) == 0) by (nonlinear_arith);
        assert(mant_val(t.1) == 0);
    } else {
        let m = v.mantissa@;
        let st: int = if v.negative {
            1
        } else {
            0
        };
        let p1 = st + m.len();
        // the mantissa digits occupy [st, p1) and nothing else is a digit there
        assert(forall|j: int| st <= j < p1 ==> crate::parse::is_dig(#[trigger] s[j])) by {
            assert(forall|j: int| st <= j < p1 ==> bs[j] == (m[j - st] + 48) as u8);
        }
        if v.exponent == 0 {
            assert(bs.len() == p1);
            lemma_digits_run(s, st, p1);
            if v.negative {
                assert(s[0] == '-');
            } else {
                assert(crate::parse::is_dig(s[0]));
                assert(s[0] != '-' && s[0] != '+');
            }
            let t = crate::parse::parse_spec(s).unwrap();
            assert(t.1 =~= m) by {
                assert(forall|i: int| 0 <= i < m.len() ==> #[trigger] t.1[i] == (
                crate::parse::dig_val(s[st + i])));
            }
            lemma_mant_nonzero(v);
        } else {
            let mag: nat = if v.exponent >= 0 {
                v.exponent as nat
            } else {
                (-(v.exponent as int)) as nat
            };
            let eb = crate::fmt::nat_bytes(mag);
            crate::fmt::lemma_nat_bytes_ascii(mag);
            let esign: int = if v.exponent < 0 {
                1
            } else {
                0
            };
            // layout: [sign] digits 'e' [esign] expdigits
            assert(bs.len() == p1 + 1 + esign + eb.len());
            assert(bs[p1] == 101);
            assert(s[p1] == 'e');
            assert(!crate::parse::is_dig(s[p1]));
            lemma_digits_run(s, st, p1);
            if v.negative {
                assert(s[0] == '-');
            } else {
                assert(crate::parse::is_dig(s[0]));
                assert(s[0] != '-' && s[0] != '+');
            }
            // the exponent digits fill the tail
            let ea = p1 + 1 + esign;
            assert(forall|j: int| ea <= j < bs.len() ==> crate::parse::is_dig(#[trigger] s[j]))
                by {
                assert(forall|j: int| ea <= j < bs.len() ==> bs[j] == eb[j - ea]);
            }
            lemma_digits_run(s, ea, bs.len() as int);
            if v.exponent < 0 {
                assert(bs[p1 + 1] == 45);
                assert(s[p1 + 1] == '-');
            } else {
                assert(crate::parse::is_dig(s[p1 + 1]));
                assert(s[p1 + 1] != '-' && s[p1 + 1] != '+');
            }
            let ep = crate::parse::exp_part(s, p1 + 1);
            assert(ep is Some);
            let (eneg, edigs) = ep.unwrap();
            assert(eneg == (v.exponent < 0));
            lemma_nat_bytes_value(mag);
            assert(edigs =~= Seq::new(eb.len(), |i: int| (eb[i] - 48) as u8)) by {
                assert(forall|i: int| 0 <= i < eb.len() ==> #[trigger] edigs[i]
                    == crate::parse::dig_val(s[ea + i]));
            }
            assert(mant_val(edigs) == mag);
            let t = crate::parse::parse_spec(s).unwrap();
            assert(t.1 =~= m) by {
                assert(forall|i: int| 0 <= i < m.len() ==> #[trigger] t.1[i] == (
                crate::parse::dig_val(s[st + i])));
            }
            assert(t.2 == v.exponent as int);
            assert(t.3 == mag);
            lemma_mant_nonzero(v);
        }
    }
}

/// A canonical non-zero mantissa has a non-zero value.
proof fn lemma_mant_nonzero(v: Scientific)
    requires
        v.wf(),
        !v.spec_is_zero(),
    ensures
        mant_val(v.mantissa@) != 0,
{
    lemma_mant_val_first(v.mantissa@);
    lemma_pow10_pos((v.mantissa@.len() - 1) as nat);
}

/// Parsing the printed text back yields the same canonical value: printing
/// and parsing round-trip.
pub proof fn lemma_print_then_parse(v: Scientific, w: Scientific)
    requires
        v.wf(),
        v.roomy(),
        w.wf(),
        ({
            let s = crate::fmt::ascii_chars(crate::fmt::debug_bytes(v));
            crate::parse::parse_spec(s) matches Some(t) && {
                &&& (mant_val(t.1) == 0 ==> w.spec_is_zero())
                &&& (mant_val(t.1) != 0 ==> w.negative == t.0 && w.scale_ok(t.2) && w.val_at(t.2)
                    == (if t.0 {
                    -1int
                } else {
                    1int
                }) * mant_val(t.1))
            }
        }),
    ensures
        w@ == v@,
{
    lemma_parse_print_round_trip(v);
    let s = crate::fmt::ascii_chars(crate::fmt::debug_bytes(v));
    let t = crate::parse::parse_spec(s).unwrap();
    if v.spec_is_zero() {
        assert(w.spec_is_zero());
        assert(w@ == v@);
    } else {
        assert(t.1 == v.mantissa@);
        crate::sci::lemma_val_at_self_scale(v);
        assert(w.val_at(v.exponent as int) == v.val_at(v.exponent as int));
        lemma_canonical_unique(w, v, v.exponent as int);
    }
}

/// Strict growth of powers of ten.
pub proof fn lemma_pow10_strict(a: nat, b: nat)
    requires
        a < b,
    ensures
        pow10(a) < pow10(b),
    decreases b,
{
    lemma_pow10_pos(a);
    if a + 1 == b {
        lemma_pow10_pos(a);
    } else {
        lemma_pow10_strict(a, (b - 1) as nat);
    }
}

} // verus!
