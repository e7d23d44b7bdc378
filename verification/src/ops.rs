//! Operator sugar over the verified arithmetic, and unchecked construction.

use vstd::prelude::*;

use crate::sci::Scientific;

verus! {

impl Scientific {
    /// Build a non-zero value from already-canonical digits without checks.
    /// The caller vouches that the digits are canonical.
    pub fn unchecked_non_zero_static_new(is_negative: bool, mantissa: &[u8], exponent: isize) -> (
        r: Scientific)
        requires
            crate::digits::all_digits(mantissa@),
            mantissa@.len() > 0,
            mantissa@[0] != 0,
            mantissa@[mantissa@.len() - 1] != 0,
            mantissa@.len() < 0x4000_0000,
        ensures
            r.wf(),
            r@ == (is_negative, mantissa@, exponent as int),
    {
        let mut m: Vec<u8> = Vec::new();
        let n = mantissa.len();
        let mut i: usize = 0;
        while i < n
            invariant
                i <= n,
                n == mantissa@.len(),
                m@ == mantissa@.subrange(0, i as int),
            decreases n - i,
        {
            m.push(mantissa[i]);
            proof {
                assert(m@ =~= mantissa@.subrange(0, i + 1));
            }
            i += 1;
        }
        proof {
            assert(m@ =~= mantissa@);
        }
        Scientific { negative: is_negative, mantissa: m, exponent }
    }
}

// The std arithmetic operators delegate to the verified methods.  Their trait
// contracts claim nothing (`obeys` is false): verified callers use the
// methods, whose contracts are exact; the operators exist for unverified
// callers' convenience.
impl core::ops::Add<&Scientific> for &Scientific {
    type Output = Scientific;

    fn add(self, rhs: &Scientific) -> Scientific {
        Scientific::add(self, rhs)
    }
}

impl vstd::std_specs::ops::AddSpecImpl<&Scientific> for &Scientific {
    open spec fn obeys_add_spec() -> bool {
        false
    }

    open spec fn add_req(self, rhs: &Scientific) -> bool {
        self.wf() && rhs.wf() && self.bounded() && rhs.bounded()
    }

    open spec fn add_spec(self, rhs: &Scientific) -> Scientific {
        *self
    }
}

impl core::ops::Sub<&Scientific> for &Scientific {
    type Output = Scientific;

    fn sub(self, rhs: &Scientific) -> Scientific {
        Scientific::sub(self, rhs)
    }
}

impl vstd::std_specs::ops::SubSpecImpl<&Scientific> for &Scientific {
    open spec fn obeys_sub_spec() -> bool {
        false
    }

    open spec fn sub_req(self, rhs: &Scientific) -> bool {
        self.wf() && rhs.wf() && self.bounded() && rhs.bounded()
    }

    open spec fn sub_spec(self, rhs: &Scientific) -> Scientific {
        *self
    }
}

impl core::ops::Mul<&Scientific> for &Scientific {
    type Output = Scientific;

    fn mul(self, rhs: &Scientific) -> Scientific {
        Scientific::mul(self, rhs)
    }
}

impl vstd::std_specs::ops::MulSpecImpl<&Scientific> for &Scientific {
    open spec fn obeys_mul_spec() -> bool {
        false
    }

    open spec fn mul_req(self, rhs: &Scientific) -> bool {
        self.wf() && rhs.wf() && self.bounded() && rhs.bounded()
    }

    open spec fn mul_spec(self, rhs: &Scientific) -> Scientific {
        *self
    }
}

impl core::ops::Neg for &Scientific {
    type Output = Scientific;

    fn neg(self) -> Scientific {
        Scientific::neg(self)
    }
}

impl vstd::std_specs::ops::NegSpecImpl for &Scientific {
    open spec fn obeys_neg_spec() -> bool {
        false
    }

    open spec fn neg_req(self) -> bool {
        self.wf()
    }

    open spec fn neg_spec(self) -> Scientific {
        *self
    }
}

impl core::ops::Shl<isize> for &Scientific {
    type Output = Scientific;

    fn shl(self, rhs: isize) -> Scientific {
        Scientific::shl(self, rhs)
    }
}

impl vstd::std_specs::ops::ShlSpecImpl<isize> for &Scientific {
    open spec fn obeys_shl_spec() -> bool {
        false
    }

    open spec fn shl_req(self, rhs: isize) -> bool {
        self.wf() && isize::MIN as int <= self.exponent + rhs <= isize::MAX as int
    }

    open spec fn shl_spec(self, rhs: isize) -> Scientific {
        *self
    }
}

impl core::ops::Shr<isize> for &Scientific {
    type Output = Scientific;

    fn shr(self, rhs: isize) -> Scientific {
        Scientific::shr(self, rhs)
    }
}

impl vstd::std_specs::ops::ShrSpecImpl<isize> for &Scientific {
    open spec fn obeys_shr_spec() -> bool {
        false
    }

    open spec fn shr_req(self, rhs: isize) -> bool {
        self.wf() && isize::MIN as int <= self.exponent - rhs <= isize::MAX as int
    }

    open spec fn shr_spec(self, rhs: isize) -> Scientific {
        *self
    }
}

impl core::ops::Add<isize> for crate::rounding::Precision {
    type Output = crate::rounding::Precision;

    fn add(self, rhs: isize) -> crate::rounding::Precision {
        crate::rounding::Precision::plus(self, rhs)
    }
}

impl vstd::std_specs::ops::AddSpecImpl<isize> for crate::rounding::Precision {
    open spec fn obeys_add_spec() -> bool {
        false
    }

    open spec fn add_req(self, rhs: isize) -> bool {
        isize::MIN as int <= self.inner() + rhs <= isize::MAX as int
    }

    open spec fn add_spec(self, rhs: isize) -> crate::rounding::Precision {
        self
    }
}

impl core::ops::Sub<isize> for crate::rounding::Precision {
    type Output = crate::rounding::Precision;

    fn sub(self, rhs: isize) -> crate::rounding::Precision {
        crate::rounding::Precision::minus(self, rhs)
    }
}

impl vstd::std_specs::ops::SubSpecImpl<isize> for crate::rounding::Precision {
    open spec fn obeys_sub_spec() -> bool {
        false
    }

    open spec fn sub_req(self, rhs: isize) -> bool {
        isize::MIN as int <= self.inner() - rhs <= isize::MAX as int
    }

    open spec fn sub_spec(self, rhs: isize) -> crate::rounding::Precision {
        self
    }
}

} // verus!
