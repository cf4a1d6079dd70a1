use vstd::prelude::*;
use vstd::std_specs::ops::{AddSpecImpl, MulSpecImpl, SubSpecImpl};
use std::ops::{Add, Mul, Sub};

verus! {

/// An exact rational number `num / den`.
#[derive(Debug, Clone, Copy, PartialEq, Eq, Structural)]
pub struct Ratio {
    pub num: i64,
    pub den: i64,
}

/// `x` is a value of `i64`.
pub open spec fn fits_i64(x: int) -> bool {
    i64::MIN <= x <= i64::MAX
}

/// The exact product of two `i64`.
fn mul_wide(a: i64, b: i64) -> (r: i128)
    ensures
        r == a * b,
{
    assert(-0x8000_0000_0000_0000 * 0x8000_0000_0000_0000 <= a * b <= 0x8000_0000_0000_0000
        * 0x8000_0000_0000_0000) by (nonlinear_arith)
        requires
            -0x8000_0000_0000_0000 <= a <= 0x7fff_ffff_ffff_ffff,
            -0x8000_0000_0000_0000 <= b <= 0x7fff_ffff_ffff_ffff,
    ;
    (a as i128) * (b as i128)
}

impl Ratio {
    /// A ratio is well formed when its denominator is positive.
    pub open spec fn wf(self) -> bool {
        self.den > 0
    }

    /// The two ratios stand for the same number.
    pub open spec fn same_value(self, other: Ratio) -> bool {
        self.num * other.den == other.num * self.den
    }

    /// This ratio stands for a smaller number than `other`.
    pub open spec fn less_than(self, other: Ratio) -> bool {
        self.num * other.den < other.num * self.den
    }

    /// Whether `self` and `other`, both well formed, stand for the same number.
    pub fn eq_value(&self, other: &Ratio) -> (r: bool)
        requires
            self.wf(),
            other.wf(),
        ensures
            r == self.same_value(*other),
    {
        mul_wide(self.num, other.den) == mul_wide(other.num, self.den)
    }

    /// Whether `self`, well formed, stands for a smaller number than `other`.
    pub fn lt_value(&self, other: &Ratio) -> (r: bool)
        requires
            self.wf(),
            other.wf(),
        ensures
            r == self.less_than(*other),
    {
        mul_wide(self.num, other.den) < mul_wide(other.num, self.den)
    }
}

impl AddSpecImpl for Ratio {
    open spec fn obeys_add_spec() -> bool {
        true
    }

    open spec fn add_req(self, rhs: Ratio) -> bool {
        &&& self.wf()
        &&& rhs.wf()
        &&& fits_i64(self.num * rhs.den + rhs.num * self.den)
        &&& fits_i64(self.den * rhs.den)
    }

    open spec fn add_spec(self, rhs: Ratio) -> Ratio {
        Ratio {
            num: (self.num * rhs.den + rhs.num * self.den) as i64,
            den: (self.den * rhs.den) as i64,
        }
    }
}

impl Add for Ratio {
    type Output = Ratio;

    /// The exact sum `a / b + c / d == (a * d + c * b) / (b * d)`.
    fn add(self, rhs: Ratio) -> (r: Ratio) {
        let num = mul_wide(self.num, rhs.den) + mul_wide(rhs.num, self.den);
        let den = mul_wide(self.den, rhs.den);
        Ratio { num: num as i64, den: den as i64 }
    }
}

impl SubSpecImpl for Ratio {
    open spec fn obeys_sub_spec() -> bool {
        true
    }

    open spec fn sub_req(self, rhs: Ratio) -> bool {
        &&& self.wf()
        &&& rhs.wf()
        &&& fits_i64(self.num * rhs.den - rhs.num * self.den)
        &&& fits_i64(self.den * rhs.den)
    }

    open spec fn sub_spec(self, rhs: Ratio) -> Ratio {
        Ratio {
            num: (self.num * rhs.den - rhs.num * self.den) as i64,
            den: (self.den * rhs.den) as i64,
        }
    }
}

impl Sub for Ratio {
    type Output = Ratio;

    /// The exact difference `a / b - c / d == (a * d - c * b) / (b * d)`.
    fn sub(self, rhs: Ratio) -> (r: Ratio) {
        let num = mul_wide(self.num, rhs.den) - mul_wide(rhs.num, self.den);
        let den = mul_wide(self.den, rhs.den);
        Ratio { num: num as i64, den: den as i64 }
    }
}

impl MulSpecImpl for Ratio {
    open spec fn obeys_mul_spec() -> bool {
        true
    }

    open spec fn mul_req(self, rhs: Ratio) -> bool {
        &&& self.wf()
        &&& rhs.wf()
        &&& fits_i64(self.num * rhs.num)
        &&& fits_i64(self.den * rhs.den)
    }

    open spec fn mul_spec(self, rhs: Ratio) -> Ratio {
        Ratio { num: (self.num * rhs.num) as i64, den: (self.den * rhs.den) as i64 }
    }
}

impl Mul for Ratio {
    type Output = Ratio;

    /// The exact product `(a / b) * (c / d) == (a * c) / (b * d)`.
    fn mul(self, rhs: Ratio) -> (r: Ratio) {
        let num = mul_wide(self.num, rhs.num);
        let den = mul_wide(self.den, rhs.den);
        Ratio { num: num as i64, den: den as i64 }
    }
}

} // verus!
