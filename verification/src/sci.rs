//! The number type: a sign, a canonical mantissa of decimal digits, and the
//! exponent of the least-significant digit.

use vstd::prelude::*;

use crate::digits::all_digits;
use crate::digits::lemma_mant_val_bound;
use crate::digits::lemma_mant_val_first;
use crate::digits::lemma_mant_val_injective;
use crate::digits::lemma_mant_val_last;
use crate::digits::lemma_mant_val_zero;
use crate::digits::lemma_pow10_adds;
use crate::digits::lemma_pow10_increases;
use crate::digits::lemma_pow10_pos;
use crate::digits::lemma_strip_leading_zeros;
use crate::digits::lemma_strip_trailing_zeros;
use crate::digits::mant_val;
use crate::digits::pow10;

verus! {

/// Safe magnitude bound for exponents handed to the arithmetic operations.
/// Sums of a handful of quantities below this bound stay far away from the
/// `isize` limits, so exponent arithmetic never overflows.
pub const EXP_LIMIT: isize = 0x100_0000;

/// Safe bound on mantissa lengths handed to the arithmetic operations.
pub const LEN_LIMIT: usize = 0x100_0000;

/// Arbitrary-precision decimal scientific number.
///
/// The value is `(-1)^negative * mantissa * 10^exponent`, where the mantissa
/// digits are stored most significant first, one decimal digit per byte.
/// Zero is canonically `(false, [], 1)`.
#[derive(Debug, Hash)]
pub struct Scientific {
    /// Sign; always `false` for zero.
    pub negative: bool,
    /// Decimal digits 0..=9, most significant first; no leading or trailing zero digit.
    pub mantissa: Vec<u8>,
    /// Exponent of the least significant digit; 1 for zero.
    pub exponent: isize,
}

impl View for Scientific {
    type V = (bool, Seq<u8>, int);

    open spec fn view(&self) -> (bool, Seq<u8>, int) {
        (self.negative, self.mantissa@, self.exponent as int)
    }
}

impl Scientific {
    /// Canonical-form invariant: digits are decimal, no leading or trailing
    /// zero digit, and zero is exactly `(false, [], 1)`.
    pub open spec fn wf(&self) -> bool {
        &&& all_digits(self.mantissa@)
        &&& self.mantissa@.len() > 0 ==> self.mantissa@[0] != 0 && self.mantissa@[self.mantissa@.len() - 1] != 0
        &&& self.mantissa@.len() == 0 ==> self.exponent == 1 && !self.negative
        &&& self.mantissa@.len() < 0x4000_0000
    }

    pub open spec fn spec_is_zero(&self) -> bool {
        self.mantissa@.len() == 0
    }

    pub open spec fn sign_int(&self) -> int {
        if self.negative {
            -1
        } else {
            1
        }
    }

    /// Whether the value can be written as an integer multiple of `10^s`.
    pub open spec fn scale_ok(&self, s: int) -> bool {
        self.spec_is_zero() || self.exponent >= s
    }

    /// The integer `value / 10^s`; meaningful when `scale_ok(s)`.
    pub open spec fn val_at(&self, s: int) -> int {
        if self.spec_is_zero() {
            0
        } else {
            self.sign_int() * (mant_val(self.mantissa@) * pow10((self.exponent - s) as nat))
        }
    }

    /// The exponent of the value written as `0.d0 d1 ... * 10^e0`.
    pub open spec fn spec_exponent0(&self) -> int {
        self.exponent + self.mantissa@.len()
    }

    /// Inputs the arithmetic operations accept: exponent and length small
    /// enough that all internal index and exponent arithmetic fits the
    /// machine word.
    pub open spec fn bounded(&self) -> bool {
        &&& -EXP_LIMIT <= self.exponent <= EXP_LIMIT
        &&& self.mantissa@.len() <= LEN_LIMIT
    }

    /// The wider envelope intermediate results may use and the operations
    /// still accept; every `bounded` value is inside it.
    pub open spec fn roomy(&self) -> bool {
        &&& -8 * (EXP_LIMIT as int) <= self.exponent <= 8 * (EXP_LIMIT as int)
        &&& self.mantissa@.len() <= 8 * (LEN_LIMIT as int)
    }
}

/// The canonical zero.
pub fn sci_zero() -> (r: Scientific)
    ensures
        r.wf(),
        r.spec_is_zero(),
        r.bounded(),
        r@ == (false, Seq::<u8>::empty(), 1int),
{
    Scientific { negative: false, mantissa: Vec::new(), exponent: 1 }
}

/// The number `sign * 10^exponent`.
pub fn sci_one(negative: bool, exponent: isize) -> (r: Scientific)
    ensures
        r.wf(),
        r@.0 == negative,
        r@.1 =~= seq![1u8],
        r@.2 == exponent as int,
        !r.spec_is_zero(),
{
    let mut m: Vec<u8> = Vec::new();
    m.push(1);
    Scientific { negative, mantissa: m, exponent }
}

impl Clone for Scientific {
    fn clone(&self) -> (res: Self)
        ensures
            res@ == self@,
    {
        let mut m: Vec<u8> = Vec::new();
        let n = self.mantissa.len();
        let mut i: usize = 0;
        while i < n
            invariant
                i <= n,
                n == self.mantissa@.len(),
                m@ == self.mantissa@.subrange(0, i as int),
            decreases n - i,
        {
            m.push(self.mantissa[i]);
            proof {
                assert(m@ =~= self.mantissa@.subrange(0, i + 1));
            }
            i += 1;
        }
        proof {
            assert(m@ =~= self.mantissa@);
        }
        Scientific { negative: self.negative, mantissa: m, exponent: self.exponent }
    }
}

impl PartialEq for Scientific {
    fn eq(&self, other: &Self) -> (r: bool) {
        if self.negative != other.negative || self.exponent != other.exponent
            || self.mantissa.len() != other.mantissa.len() {
            return false;
        }
        let n = self.mantissa.len();
        let mut i: usize = 0;
        while i < n
            invariant
                i <= n,
                n == self.mantissa@.len() == other.mantissa@.len(),
                forall|j: int| 0 <= j < i ==> self.mantissa@[j] == other.mantissa@[j],
            decreases n - i,
        {
            if self.mantissa[i] != other.mantissa[i] {
                return false;
            }
            i += 1;
        }
        proof {
            assert(self.mantissa@ =~= other.mantissa@);
        }
        true
    }
}

impl Eq for Scientific {

}

impl vstd::std_specs::cmp::PartialEqSpecImpl for Scientific {
    open spec fn obeys_eq_spec() -> bool {
        true
    }

    open spec fn eq_spec(&self, other: &Scientific) -> bool {
        self@ == other@
    }
}

/// Build a canonical number from a sign, raw digits, and an exponent:
/// leading zeros are dropped, trailing zeros are folded into the exponent,
/// and an all-zero mantissa collapses to the canonical zero.
pub fn normalize(negative: bool, m: Vec<u8>, exponent: isize) -> (r: Scientific)
    requires
        all_digits(m@),
        m@.len() < 0x4000_0000,
        exponent + m@.len() <= isize::MAX as int,
    ensures
        r.wf(),
        mant_val(m@) == 0 ==> r.spec_is_zero(),
        mant_val(m@) != 0 ==> {
            &&& r.negative == negative
            &&& !r.spec_is_zero()
            &&& r.exponent >= exponent
            &&& mant_val(r.mantissa@) * pow10((r.exponent - exponent) as nat) == mant_val(m@)
            &&& r.spec_exponent0() <= exponent + m@.len()
            &&& r.mantissa@.len() <= m@.len()
            &&& r.val_at(exponent as int) == (if negative { -1int } else { 1int }) * mant_val(m@)
        },
{
    let len = m.len();
    let mut first: usize = 0;
    while first < len && m[first] == 0
        invariant
            first <= len,
            len == m@.len(),
            forall|j: int| 0 <= j < first ==> m@[j] == 0,
        decreases len - first,
    {
        first += 1;
    }
    if first == len {
        proof {
            lemma_mant_val_zero(m@);
        }
        return sci_zero();
    }
    let mut last: usize = len;
    while last > first && m[last - 1] == 0
        invariant
            first < len,
            first <= last <= len,
            len == m@.len(),
            m@[first as int] != 0,
            forall|j: int| last <= j < len ==> m@[j] == 0,
        decreases last,
    {
        last -= 1;
    }
    proof {
        if last == first {
            assert(m@[first as int] == 0);
        }
    }
    let mut out: Vec<u8> = Vec::new();
    let mut i: usize = first;
    while i < last
        invariant
            first <= i <= last <= len,
            len == m@.len(),
            out@ == m@.subrange(first as int, i as int),
        decreases last - i,
    {
        out.push(m[i]);
        proof {
            assert(out@ =~= m@.subrange(first as int, i + 1));
        }
        i += 1;
    }
    let new_exp = exponent + (len - last) as isize;
    proof {
        let trimmed = m@.subrange(first as int, last as int);
        let lead = m@.subrange(first as int, len as int);
        lemma_strip_leading_zeros(m@, first as int);
        assert(lead.subrange(0, (last - first) as int) =~= trimmed);
        assert(forall|k: int| (last - first) <= k < lead.len() ==> lead[k] == 0);
        lemma_strip_trailing_zeros(lead, (last - first) as int);
        assert(mant_val(trimmed) * pow10((len - last) as nat) == mant_val(m@));
        assert(trimmed[0] != 0);
        assert(trimmed[trimmed.len() - 1] != 0);
        lemma_mant_val_zero(m@);
        assert(mant_val(m@) != 0) by {
            assert(m@[first as int] != 0);
        }
    }
    Scientific { negative, mantissa: out, exponent: new_exp }
}

/// At its own exponent, a non-zero value is just its signed mantissa.
pub proof fn lemma_val_at_self_scale(a: Scientific)
    requires
        !a.spec_is_zero(),
    ensures
        a.val_at(a.exponent as int) == a.sign_int() * mant_val(a.mantissa@),
{
    assert(pow10(0) == 1);
    assert(a.sign_int() * (mant_val(a.mantissa@) * 1) == a.sign_int() * mant_val(a.mantissa@))
        by (nonlinear_arith);
}

/// A value with the same digits and exponent but the opposite sign denotes
/// the negated value.
pub proof fn lemma_neg_val(a: Scientific, n: Scientific, s: int)
    requires
        n.mantissa@ == a.mantissa@,
        n.exponent == a.exponent,
        n.negative == (if a.spec_is_zero() {
            false
        } else {
            !a.negative
        }),
    ensures
        n.val_at(s) == -a.val_at(s),
{
    if !a.spec_is_zero() {
        let m = mant_val(a.mantissa@) * pow10((a.exponent - s) as nat);
        assert(n.val_at(s) == -a.val_at(s)) by (nonlinear_arith)
            requires
                a.val_at(s) == a.sign_int() * m,
                n.val_at(s) == n.sign_int() * m,
                n.sign_int() == -a.sign_int(),
        ;
    }
}

/// Moving to a finer scale multiplies the scaled value by the matching power
/// of ten.
pub proof fn lemma_val_at_scale(a: Scientific, s1: int, s2: int)
    requires
        a.scale_ok(s2),
        s1 <= s2,
    ensures
        a.val_at(s1) == a.val_at(s2) * pow10((s2 - s1) as nat),
{
    if a.spec_is_zero() {
        assert(a.val_at(s2) * pow10((s2 - s1) as nat) == 0) by (nonlinear_arith)
            requires a.val_at(s2) == 0;
    } else {
        let m = mant_val(a.mantissa@);
        let e = a.exponent as int;
        lemma_pow10_adds((e - s2) as nat, (s2 - s1) as nat);
        assert((e - s2) as nat + (s2 - s1) as nat == (e - s1) as nat);
        assert(a.sign_int() * (m * (pow10((e - s2) as nat) * pow10((s2 - s1) as nat))) == (
        a.sign_int() * (m * pow10((e - s2) as nat))) * pow10((s2 - s1) as nat))
            by (nonlinear_arith);
    }
}

/// Two canonical values that denote the same number are identical.
pub proof fn lemma_canonical_unique(a: Scientific, b: Scientific, s: int)
    requires
        a.wf(),
        b.wf(),
        a.scale_ok(s),
        b.scale_ok(s),
        a.val_at(s) == b.val_at(s),
    ensures
        a@ == b@,
{
    if a.spec_is_zero() && b.spec_is_zero() {
        assert(a@ == b@);
    } else if a.spec_is_zero() || b.spec_is_zero() {
        let nz = if a.spec_is_zero() { b } else { a };
        lemma_mant_val_first(nz.mantissa@);
        lemma_pow10_pos((nz.mantissa@.len() - 1) as nat);
        lemma_pow10_pos((nz.exponent - s) as nat);
        assert(nz.val_at(s) != 0) by (nonlinear_arith)
            requires
                mant_val(nz.mantissa@) >= 1,
                pow10((nz.exponent - s) as nat) >= 1,
                nz.val_at(s) == nz.sign_int() * (mant_val(nz.mantissa@) * pow10(
                    (nz.exponent - s) as nat,
                )),
                nz.sign_int() == 1 || nz.sign_int() == -1,
        ;
        assert(false);
    } else {
        let ma = mant_val(a.mantissa@);
        let mb = mant_val(b.mantissa@);
        let pa = pow10((a.exponent - s) as nat);
        let pb = pow10((b.exponent - s) as nat);
        lemma_mant_val_first(a.mantissa@);
        lemma_mant_val_first(b.mantissa@);
        lemma_pow10_pos((a.mantissa@.len() - 1) as nat);
        lemma_pow10_pos((b.mantissa@.len() - 1) as nat);
        lemma_pow10_pos((a.exponent - s) as nat);
        lemma_pow10_pos((b.exponent - s) as nat);
        assert(ma * pa >= 1) by (nonlinear_arith)
            requires ma >= 1, pa >= 1;
        assert(mb * pb >= 1) by (nonlinear_arith)
            requires mb >= 1, pb >= 1;
        assert(a.negative == b.negative) by (nonlinear_arith)
            requires
                a.sign_int() * (ma * pa) == b.sign_int() * (mb * pb),
                ma * pa >= 1,
                mb * pb >= 1,
                a.sign_int() == (if a.negative { -1int } else { 1int }),
                b.sign_int() == (if b.negative { -1int } else { 1int }),
        ;
        assert(ma * pa == mb * pb) by (nonlinear_arith)
            requires
                a.sign_int() * (ma * pa) == b.sign_int() * (mb * pb),
                a.sign_int() == b.sign_int(),
                a.sign_int() == 1 || a.sign_int() == -1,
        ;
        lemma_equal_scaled_mantissas(a.mantissa@, b.mantissa@, (a.exponent - s) as nat, (b.exponent
            - s) as nat);
        assert(a.exponent - s == b.exponent - s);
        assert(a@ == b@);
    }
}

/// Canonical mantissas with `ma * 10^ea == mb * 10^eb` have equal digits and
/// equal scale.
pub(crate) proof fn lemma_equal_scaled_mantissas(ma: Seq<u8>, mb: Seq<u8>, ea: nat, eb: nat)
    requires
        all_digits(ma),
        all_digits(mb),
        ma.len() > 0,
        mb.len() > 0,
        ma[0] != 0,
        mb[0] != 0,
        ma[ma.len() - 1] != 0,
        mb[mb.len() - 1] != 0,
        mant_val(ma) * pow10(ea) == mant_val(mb) * pow10(eb),
    ensures
        ea == eb,
        ma =~= mb,
    decreases ea + eb,
{
    if ea == eb {
        lemma_pow10_pos(ea);
        assert(mant_val(ma) == mant_val(mb)) by (nonlinear_arith)
            requires
                mant_val(ma) * pow10(ea) == mant_val(mb) * pow10(eb),
                pow10(ea) == pow10(eb),
                pow10(ea) >= 1,
        ;
        lemma_mant_val_bound(ma);
        lemma_mant_val_bound(mb);
        lemma_mant_val_first(ma);
        lemma_mant_val_first(mb);
        if ma.len() < mb.len() {
            lemma_pow10_increases(ma.len(), (mb.len() - 1) as nat);
            assert(false);
        }
        if mb.len() < ma.len() {
            lemma_pow10_increases(mb.len(), (ma.len() - 1) as nat);
            assert(false);
        }
        lemma_mant_val_injective(ma, mb);
    } else if ea > eb {
        // Cancel one factor of ten from both sides; the right side then shows
        // mant_val(mb) would have to be a multiple of ten, contradicting the
        // non-zero last digit, unless we can keep descending.
        lemma_pow10_pos(eb);
        assert(pow10(ea) == 10 * pow10((ea - 1) as nat));
        lemma_mant_val_last(mb);
        assert(mant_val(mb) % 10 != 0);
        if eb == 0 {
            assert(mant_val(ma) * (10 * pow10((ea - 1) as nat)) == 10 * (mant_val(ma) * pow10(
                (ea - 1) as nat,
            ))) by (nonlinear_arith);
            assert(pow10(0) == 1);
            assert(mant_val(mb) * pow10(0) == mant_val(mb)) by (nonlinear_arith)
                requires pow10(0) == 1;
            assert(mant_val(mb) % 10 == 0) by (nonlinear_arith)
                requires mant_val(mb) == 10 * (mant_val(ma) * pow10((ea - 1) as nat));
            assert(false);
        } else {
            assert(pow10(eb) == 10 * pow10((eb - 1) as nat));
            assert(mant_val(ma) * pow10((ea - 1) as nat) == mant_val(mb) * pow10((eb - 1) as nat))
                by (nonlinear_arith)
                requires
                    mant_val(ma) * (10 * pow10((ea - 1) as nat)) == mant_val(mb) * (10 * pow10(
                        (eb - 1) as nat,
                    )),
            ;
            lemma_equal_scaled_mantissas(ma, mb, (ea - 1) as nat, (eb - 1) as nat);
        }
    } else {
        lemma_pow10_pos(ea);
        assert(pow10(eb) == 10 * pow10((eb - 1) as nat));
        lemma_mant_val_last(ma);
        assert(mant_val(ma) % 10 != 0);
        if ea == 0 {
            assert(mant_val(mb) * (10 * pow10((eb - 1) as nat)) == 10 * (mant_val(mb) * pow10(
                (eb - 1) as nat,
            ))) by (nonlinear_arith);
            assert(pow10(0) == 1);
            assert(mant_val(ma) * pow10(0) == mant_val(ma)) by (nonlinear_arith)
                requires pow10(0) == 1;
            assert(mant_val(ma) % 10 == 0) by (nonlinear_arith)
                requires mant_val(ma) == 10 * (mant_val(mb) * pow10((eb - 1) as nat));
            assert(false);
        } else {
            assert(pow10(ea) == 10 * pow10((ea - 1) as nat));
            assert(mant_val(ma) * pow10((ea - 1) as nat) == mant_val(mb) * pow10((eb - 1) as nat))
                by (nonlinear_arith)
                requires
                    mant_val(ma) * (10 * pow10((ea - 1) as nat)) == mant_val(mb) * (10 * pow10(
                        (eb - 1) as nat,
                    )),
            ;
            lemma_equal_scaled_mantissas(ma, mb, (ea - 1) as nat, (eb - 1) as nat);
        }
    }
}

impl Scientific {
    /// Whether the value is zero.
    pub fn is_zero(&self) -> (r: bool)
        ensures
            r == self.spec_is_zero(),
    {
        self.mantissa.len() == 0
    }

    /// Length of the mantissa; zero for the value zero.
    pub fn len(&self) -> (r: isize)
        requires
            self.wf(),
        ensures
            r as int == self.mantissa@.len(),
    {
        self.mantissa.len() as isize
    }

    /// Number of decimals: `0.001` gives 3, `1000` gives -3.
    pub fn decimals(&self) -> (r: isize)
        requires
            self.wf(),
            self.exponent != isize::MIN,
        ensures
            r as int == -(self.exponent as int),
    {
        -self.exponent
    }

    /// Exponent of the least significant digit.
    pub fn exponent(&self) -> (r: isize)
        ensures
            r == self.exponent,
    {
        self.exponent
    }

    /// Exponent of the value written as `0.d0 d1 ... * 10^e0`.
    pub fn exponent0(&self) -> (r: isize)
        requires
            self.wf(),
            self.exponent + self.mantissa@.len() <= isize::MAX as int,
        ensures
            r as int == self.spec_exponent0(),
    {
        self.exponent + self.mantissa.len() as isize
    }

    /// Exponent of the value written as `d0.d1 ... * 10^e1`.
    pub fn exponent1(&self) -> (r: isize)
        requires
            self.wf(),
            self.exponent + self.mantissa@.len() <= isize::MAX as int,
        ensures
            r as int == self.spec_exponent0() - 1,
    {
        self.exponent + self.mantissa.len() as isize - 1
    }

    /// Whether the value is strictly positive.
    pub fn is_sign_positive(&self) -> (r: bool)
        ensures
            r == (!self.spec_is_zero() && !self.negative),
    {
        self.mantissa.len() != 0 && !self.negative
    }

    /// Whether the value is strictly negative.
    pub fn is_sign_negative(&self) -> (r: bool)
        ensures
            r == (!self.spec_is_zero() && self.negative),
    {
        self.mantissa.len() != 0 && self.negative
    }

    /// Negate in place; zero is unchanged.
    pub fn neg_assign(&mut self)
        requires
            old(self).wf(),
        ensures
            final(self).wf(),
            final(self).mantissa@ == old(self).mantissa@,
            final(self).exponent == old(self).exponent,
            final(self).negative == (if old(self).spec_is_zero() {
                false
            } else {
                !old(self).negative
            }),
    {
        if self.mantissa.len() != 0 {
            self.negative = !self.negative;
        }
    }

    /// Force the sign positive in place.
    pub fn abs_assign(&mut self)
        requires
            old(self).wf(),
        ensures
            final(self).wf(),
            final(self).mantissa@ == old(self).mantissa@,
            final(self).exponent == old(self).exponent,
            final(self).negative == false,
    {
        self.negative = false;
    }

    /// The absolute value.
    pub fn abs(&self) -> (r: Scientific)
        requires
            self.wf(),
        ensures
            r.wf(),
            r.mantissa@ == self.mantissa@,
            r.exponent == self.exponent,
            r.negative == false,
    {
        let mut r = self.clone();
        r.abs_assign();
        r
    }

    /// The negation.
    pub fn neg(&self) -> (r: Scientific)
        requires
            self.wf(),
        ensures
            r.wf(),
            r.mantissa@ == self.mantissa@,
            r.exponent == self.exponent,
            r.negative == (if self.spec_is_zero() {
                false
            } else {
                !self.negative
            }),
    {
        let mut r = self.clone();
        r.neg_assign();
        r
    }

    /// Decimal left shift in place: multiply by `10^rhs`; zero is unchanged.
    pub fn shl_assign(&mut self, rhs: isize)
        requires
            old(self).wf(),
            isize::MIN as int <= old(self).exponent + rhs <= isize::MAX as int,
        ensures
            final(self).wf(),
            final(self).mantissa@ == old(self).mantissa@,
            final(self).negative == old(self).negative,
            final(self).exponent as int == (if old(self).spec_is_zero() {
                old(self).exponent as int
            } else {
                old(self).exponent + rhs
            }),
    {
        if self.mantissa.len() != 0 {
            self.exponent = self.exponent + rhs;
        }
    }

    /// Decimal right shift in place: divide by `10^rhs` exactly; zero is unchanged.
    pub fn shr_assign(&mut self, rhs: isize)
        requires
            old(self).wf(),
            isize::MIN as int <= old(self).exponent - rhs <= isize::MAX as int,
        ensures
            final(self).wf(),
            final(self).mantissa@ == old(self).mantissa@,
            final(self).negative == old(self).negative,
            final(self).exponent as int == (if old(self).spec_is_zero() {
                old(self).exponent as int
            } else {
                old(self).exponent - rhs
            }),
    {
        if self.mantissa.len() != 0 {
            self.exponent = self.exponent - rhs;
        }
    }

    /// Decimal left shift: the value times `10^rhs`.
    pub fn shl(&self, rhs: isize) -> (r: Scientific)
        requires
            self.wf(),
            isize::MIN as int <= self.exponent + rhs <= isize::MAX as int,
        ensures
            r.wf(),
            r.mantissa@ == self.mantissa@,
            r.negative == self.negative,
            r.exponent as int == (if self.spec_is_zero() {
                self.exponent as int
            } else {
                self.exponent + rhs
            }),
    {
        let mut r = self.clone();
        r.shl_assign(rhs);
        r
    }

    /// Decimal right shift: the value divided by `10^rhs`, exactly.
    pub fn shr(&self, rhs: isize) -> (r: Scientific)
        requires
            self.wf(),
            isize::MIN as int <= self.exponent - rhs <= isize::MAX as int,
        ensures
            r.wf(),
            r.mantissa@ == self.mantissa@,
            r.negative == self.negative,
            r.exponent as int == (if self.spec_is_zero() {
                self.exponent as int
            } else {
                self.exponent - rhs
            }),
    {
        let mut r = self.clone();
        r.shr_assign(rhs);
        r
    }
}

} // verus!
