//! Floating-point numbers, held as their IEEE 754 bit patterns.
//!
//! The engine's arithmetic runs on hardware floats outside this crate. What this crate decides on
//! those numbers - which of two is larger, whether one is finite, whether two are the same to the
//! bit - depends on the bit pattern alone, so that is what it carries. A caller converts with
//! `to_bits` and `from_bits`, which lose nothing.
//!
//! `==` on these types is equality of the bits. The comparisons named after the arithmetic ones
//! ([`Double::lt`], [`Double::ge`] and so on) are IEEE's: the two zeros are equal, and a NaN is
//! neither below, above nor equal to anything.

use vstd::arithmetic::power2::{lemma_pow2_pos, lemma_pow2_strictly_increases, lemma_pow2_unfold, pow2};
use vstd::prelude::*;

verus! {

/// The bit pattern of a double-precision number.
#[derive(Clone, Copy, Debug, PartialEq, Eq, Structural, Hash)]
pub struct Double {
    pub bits: u64,
}

/// The bit pattern of a single-precision number.
#[derive(Clone, Copy, Debug, PartialEq, Eq, Structural, Hash)]
pub struct Single {
    pub bits: u32,
}

/// The bits of the double zero.
pub const ZERO: u64 = 0;

/// The bits of the double one.
pub const ONE: u64 = 0x3ff0_0000_0000_0000;

/// The bits of the double infinity.
pub const INFINITY: u64 = 0x7ff0_0000_0000_0000;

/// The bits of the double negative infinity.
pub const NEG_INFINITY: u64 = 0xfff0_0000_0000_0000;

impl Double {
    /// The bits below the sign bit. Larger bits are a number further from zero.
    pub open spec fn magnitude(self) -> int {
        if self.bits >= 0x8000_0000_0000_0000 {
            self.bits - 0x8000_0000_0000_0000
        } else {
            self.bits as int
        }
    }

    pub open spec fn negative(self) -> bool {
        self.bits >= 0x8000_0000_0000_0000
    }

    pub open spec fn nan(self) -> bool {
        self.magnitude() > 0x7ff0_0000_0000_0000
    }

    pub open spec fn finite(self) -> bool {
        self.magnitude() < 0x7ff0_0000_0000_0000
    }

    /// A number's place among the others, with the two zeros in one place.
    pub open spec fn ord(self) -> int {
        if self.negative() {
            -self.magnitude()
        } else {
            self.magnitude()
        }
    }

    /// A number's place in the total order: as [`Double::ord`], with negative zero just below
    /// positive zero and the NaNs beyond the infinities on their own side.
    pub open spec fn total(self) -> int {
        if self.negative() {
            -self.magnitude() - 1
        } else {
            self.magnitude()
        }
    }

    pub open spec fn less(self, other: Double) -> bool {
        !self.nan() && !other.nan() && self.ord() < other.ord()
    }

    pub open spec fn at_most(self, other: Double) -> bool {
        !self.nan() && !other.nan() && self.ord() <= other.ord()
    }

    /// The number a finite pattern stands for, times `2^1074`, which makes it whole.
    pub open spec fn scaled(self) -> int {
        let v = scaled_magnitude(self.magnitude());
        if self.negative() {
            -v
        } else {
            v
        }
    }

    pub fn is_nan(self) -> (r: bool)
        ensures
            r == self.nan(),
    {
        let m: u64 = if self.bits >= 0x8000_0000_0000_0000 {
            self.bits - 0x8000_0000_0000_0000
        } else {
            self.bits
        };
        m > 0x7ff0_0000_0000_0000
    }

    pub fn is_finite(self) -> (r: bool)
        ensures
            r == self.finite(),
    {
        let m: u64 = if self.bits >= 0x8000_0000_0000_0000 {
            self.bits - 0x8000_0000_0000_0000
        } else {
            self.bits
        };
        m < 0x7ff0_0000_0000_0000
    }

    /// `self < other`.
    pub fn lt(self, other: Double) -> (r: bool)
        ensures
            r == self.less(other),
    {
        if self.is_nan() || other.is_nan() {
            return false;
        }
        let neg: bool = self.bits >= 0x8000_0000_0000_0000;
        let other_neg: bool = other.bits >= 0x8000_0000_0000_0000;
        if neg && other_neg {
            other.bits < self.bits
        } else if neg {
            self.bits != 0x8000_0000_0000_0000 || other.bits != 0
        } else if other_neg {
            false
        } else {
            self.bits < other.bits
        }
    }

    /// `self <= other`.
    pub fn le(self, other: Double) -> (r: bool)
        ensures
            r == self.at_most(other),
    {
        !self.is_nan() && !other.is_nan() && !other.lt(self)
    }

    /// `self > other`.
    pub fn gt(self, other: Double) -> (r: bool)
        ensures
            r == other.less(self),
    {
        other.lt(self)
    }

    /// `self >= other`.
    pub fn ge(self, other: Double) -> (r: bool)
        ensures
            r == other.at_most(self),
    {
        other.le(self)
    }

    /// A number above zero, infinity included.
    pub open spec fn positive(self) -> bool {
        !self.nan() && self.ord() > 0
    }

    /// Whether `self` is a number above zero, infinity included.
    pub fn is_positive(self) -> (r: bool)
        ensures
            r == self.positive(),
    {
        !self.is_nan() && 0 < self.bits && self.bits < 0x8000_0000_0000_0000
    }

    /// `self == other` as numbers.
    pub open spec fn equals(self, other: Double) -> bool {
        !self.nan() && !other.nan() && self.ord() == other.ord()
    }

    /// `self == other` as numbers.
    pub fn same(self, other: Double) -> (r: bool)
        ensures
            r == self.equals(other),
    {
        self.le(other) && other.le(self)
    }

    /// The larger of the two; of a number and a NaN, the number.
    pub open spec fn larger(self, other: Double) -> Double {
        if other.nan() || other.at_most(self) {
            self
        } else {
            other
        }
    }

    /// The larger of the two; of a number and a NaN, the number.
    pub fn max(self, other: Double) -> (r: Double)
        ensures
            r == self.larger(other),
    {
        if other.is_nan() || other.le(self) {
            self
        } else {
            other
        }
    }

    /// The smaller of the two; of a number and a NaN, the number.
    pub open spec fn smaller(self, other: Double) -> Double {
        if other.nan() || self.at_most(other) {
            self
        } else {
            other
        }
    }

    /// The smaller of the two; of a number and a NaN, the number.
    pub fn min(self, other: Double) -> (r: Double)
        ensures
            r == self.smaller(other),
    {
        if other.is_nan() || self.le(other) {
            self
        } else {
            other
        }
    }

    /// The number with its sign turned.
    pub open spec fn mirrored(self) -> Double {
        if self.negative() {
            Double { bits: (self.bits - 0x8000_0000_0000_0000) as u64 }
        } else {
            Double { bits: (self.bits + 0x8000_0000_0000_0000) as u64 }
        }
    }

    /// The number with its sign turned.
    pub fn negated(self) -> (r: Double)
        ensures
            r == self.mirrored(),
    {
        if self.bits >= 0x8000_0000_0000_0000 {
            Double { bits: self.bits - 0x8000_0000_0000_0000 }
        } else {
            Double { bits: self.bits + 0x8000_0000_0000_0000 }
        }
    }

    /// The number without its sign.
    pub open spec fn unsigned(self) -> Double {
        Double { bits: self.magnitude() as u64 }
    }

    /// The number without its sign.
    pub fn abs(self) -> (r: Double)
        ensures
            r == self.unsigned(),
    {
        if self.bits >= 0x8000_0000_0000_0000 {
            Double { bits: self.bits - 0x8000_0000_0000_0000 }
        } else {
            self
        }
    }

    /// The number, or the end of the range it is beyond. A NaN stays one.
    pub open spec fn within(self, lo: Double, hi: Double) -> Double {
        if self.less(lo) {
            lo
        } else if hi.less(self) {
            hi
        } else {
            self
        }
    }

    /// The number, or the end of the range it is beyond. A NaN stays one.
    pub fn clamp(self, lo: Double, hi: Double) -> (r: Double)
        ensures
            r == self.within(lo, hi),
    {
        if self.lt(lo) {
            lo
        } else if hi.lt(self) {
            hi
        } else {
            self
        }
    }

    /// A number's place in the total order.
    pub fn total_key(&self) -> (r: i64)
        ensures
            r == self.total(),
    {
        if self.bits >= 0x8000_0000_0000_0000 {
            let m: i64 = (self.bits - 0x8000_0000_0000_0000) as i64;
            -m - 1
        } else {
            self.bits as i64
        }
    }

    /// Whether `self` comes before `other` in the total order.
    pub fn total_less(self, other: Double) -> (r: bool)
        ensures
            r == (self.total() < other.total()),
    {
        let neg: bool = self.bits >= 0x8000_0000_0000_0000;
        let other_neg: bool = other.bits >= 0x8000_0000_0000_0000;
        if neg && other_neg {
            other.bits < self.bits
        } else if neg {
            true
        } else if other_neg {
            false
        } else {
            self.bits < other.bits
        }
    }
}

impl Single {
    pub open spec fn magnitude(self) -> int {
        if self.bits >= 0x8000_0000 {
            self.bits - 0x8000_0000
        } else {
            self.bits as int
        }
    }

    pub open spec fn negative(self) -> bool {
        self.bits >= 0x8000_0000
    }

    pub open spec fn nan(self) -> bool {
        self.magnitude() > 0x7f80_0000
    }

    pub open spec fn finite(self) -> bool {
        self.magnitude() < 0x7f80_0000
    }

    /// A number's place among the others, with the two zeros in one place.
    pub open spec fn ord(self) -> int {
        if self.negative() {
            -self.magnitude()
        } else {
            self.magnitude()
        }
    }

    /// A number's place in the total order: as [`Single::ord`], with negative zero just below
    /// positive zero.
    pub open spec fn total(self) -> int {
        if self.negative() {
            -self.magnitude() - 1
        } else {
            self.magnitude()
        }
    }

    /// Whether `self` comes before `other` in the total order.
    pub fn total_less(self, other: Single) -> (r: bool)
        ensures
            r == (self.total() < other.total()),
    {
        let neg: bool = self.bits >= 0x8000_0000;
        let other_neg: bool = other.bits >= 0x8000_0000;
        if neg && other_neg {
            other.bits < self.bits
        } else if neg {
            true
        } else if other_neg {
            false
        } else {
            self.bits < other.bits
        }
    }

    pub open spec fn less(self, other: Single) -> bool {
        !self.nan() && !other.nan() && self.ord() < other.ord()
    }

    pub open spec fn at_most(self, other: Single) -> bool {
        !self.nan() && !other.nan() && self.ord() <= other.ord()
    }

    pub fn is_nan(self) -> (r: bool)
        ensures
            r == self.nan(),
    {
        let m: u32 = if self.bits >= 0x8000_0000 {
            self.bits - 0x8000_0000
        } else {
            self.bits
        };
        m > 0x7f80_0000
    }

    pub fn is_finite(self) -> (r: bool)
        ensures
            r == self.finite(),
    {
        let m: u32 = if self.bits >= 0x8000_0000 {
            self.bits - 0x8000_0000
        } else {
            self.bits
        };
        m < 0x7f80_0000
    }

    /// `self < other`.
    pub fn lt(self, other: Single) -> (r: bool)
        ensures
            r == self.less(other),
    {
        if self.is_nan() || other.is_nan() {
            return false;
        }
        let neg: bool = self.bits >= 0x8000_0000;
        let other_neg: bool = other.bits >= 0x8000_0000;
        if neg && other_neg {
            other.bits < self.bits
        } else if neg {
            self.bits != 0x8000_0000 || other.bits != 0
        } else if other_neg {
            false
        } else {
            self.bits < other.bits
        }
    }

    /// `self <= other`.
    pub fn le(self, other: Single) -> (r: bool)
        ensures
            r == self.at_most(other),
    {
        !self.is_nan() && !other.is_nan() && !other.lt(self)
    }

    /// A number above zero, infinity included.
    pub open spec fn above_zero(self) -> bool {
        !self.nan() && self.ord() > 0
    }

    /// Whether `self` is a number above zero, infinity included.
    pub fn is_above_zero(self) -> (r: bool)
        ensures
            r == self.above_zero(),
    {
        !self.is_nan() && 0 < self.bits && self.bits < 0x8000_0000
    }

    /// `self == other` as numbers.
    pub open spec fn equals(self, other: Single) -> bool {
        !self.nan() && !other.nan() && self.ord() == other.ord()
    }

    /// `self == other` as numbers.
    pub fn same(self, other: Single) -> (r: bool)
        ensures
            r == self.equals(other),
    {
        self.le(other) && other.le(self)
    }

    /// The larger of the two; of a number and a NaN, the number.
    pub fn max(self, other: Single) -> (r: Single)
        ensures
            r == self.larger(other),
    {
        if other.is_nan() || other.le(self) {
            self
        } else {
            other
        }
    }

    /// The larger of the two; of a number and a NaN, the number.
    pub open spec fn larger(self, other: Single) -> Single {
        if other.nan() || other.at_most(self) {
            self
        } else {
            other
        }
    }
    /// The smaller of the two; of a number and a NaN, the number.
    pub open spec fn smaller(self, other: Single) -> Single {
        if other.nan() || self.at_most(other) {
            self
        } else {
            other
        }
    }

    /// The smaller of the two; of a number and a NaN, the number.
    pub fn min(self, other: Single) -> (r: Single)
        ensures
            r == self.smaller(other),
    {
        if other.is_nan() || self.le(other) {
            self
        } else {
            other
        }
    }

    /// The number with its sign turned.
    pub open spec fn mirrored(self) -> Single {
        if self.negative() {
            Single { bits: (self.bits - 0x8000_0000) as u32 }
        } else {
            Single { bits: (self.bits + 0x8000_0000) as u32 }
        }
    }

    /// The number with its sign turned.
    pub fn negated(self) -> (r: Single)
        ensures
            r == self.mirrored(),
    {
        if self.bits >= 0x8000_0000 {
            Single { bits: self.bits - 0x8000_0000 }
        } else {
            Single { bits: self.bits + 0x8000_0000 }
        }
    }

    /// The number without its sign.
    pub open spec fn unsigned(self) -> Single {
        Single { bits: self.magnitude() as u32 }
    }

    /// The number without its sign.
    pub fn abs(self) -> (r: Single)
        ensures
            r == self.unsigned(),
    {
        if self.bits >= 0x8000_0000 {
            Single { bits: self.bits - 0x8000_0000 }
        } else {
            self
        }
    }
}

/// What `2^52` mantissa bits and the exponent above them stand for, in units of `2^-1074`.
pub open spec fn scaled_magnitude(m: int) -> int {
    let exponent = m / 0x10_0000_0000_0000;
    let mantissa = m % 0x10_0000_0000_0000;
    if exponent <= 0 {
        mantissa
    } else {
        (0x10_0000_0000_0000 + mantissa) * pow2((exponent - 1) as nat)
    }
}

/// A larger magnitude stands for a larger number.
proof fn lemma_scaled_magnitude_increases(a: int, b: int)
    requires
        0 <= a < b,
    ensures
        scaled_magnitude(a) < scaled_magnitude(b),
        0 <= scaled_magnitude(a),
{
    let (ea, ma) = (a / 0x10_0000_0000_0000, a % 0x10_0000_0000_0000);
    let (eb, mb) = (b / 0x10_0000_0000_0000, b % 0x10_0000_0000_0000);
    assert(0 <= ea <= eb);
    assert(0 <= ma < 0x10_0000_0000_0000);
    assert(0 <= mb < 0x10_0000_0000_0000);
    if ea >= 1 {
        lemma_pow2_pos((ea - 1) as nat);
        let p = pow2((ea - 1) as nat) as int;
        assert(0 <= (0x10_0000_0000_0000 + ma) * p) by (nonlinear_arith)
            requires
                p > 0,
                ma >= 0,
        ;
    }
    if eb >= 1 {
        lemma_pow2_pos((eb - 1) as nat);
        let q = pow2((eb - 1) as nat) as int;
        assert(0x10_0000_0000_0000 <= (0x10_0000_0000_0000 + mb) * q) by (nonlinear_arith)
            requires
                q >= 1,
                mb >= 0,
        ;
        if ea >= 1 {
            let p = pow2((ea - 1) as nat) as int;
            if ea == eb {
                assert(ma < mb);
                assert((0x10_0000_0000_0000 + ma) * p < (0x10_0000_0000_0000 + mb) * p)
                    by (nonlinear_arith)
                    requires
                        ma < mb,
                        p > 0,
                ;
            } else {
                lemma_pow2_unfold(ea as nat);
                assert(pow2(ea as nat) == 2 * p);
                if ea < eb - 1 {
                    lemma_pow2_strictly_increases(ea as nat, (eb - 1) as nat);
                }
                assert(q >= 2 * p);
                assert((0x10_0000_0000_0000 + ma) * p < (0x10_0000_0000_0000 + mb) * q)
                    by (nonlinear_arith)
                    requires
                        0 <= ma < 0x10_0000_0000_0000,
                        0 <= mb,
                        p > 0,
                        q >= 2 * p,
                ;
            }
        }
    }
}

/// The comparisons decided on bit patterns are those of the numbers the patterns stand for.
pub proof fn law_order_is_numeric(a: Double, b: Double)
    requires
        a.finite(),
        b.finite(),
    ensures
        a.less(b) <==> a.scaled() < b.scaled(),
        a.at_most(b) <==> a.scaled() <= b.scaled(),
{
    let (ma, mb) = (a.magnitude(), b.magnitude());
    assert(scaled_magnitude(0) == 0);
    if ma > 0 {
        lemma_scaled_magnitude_increases(0, ma);
    }
    if mb > 0 {
        lemma_scaled_magnitude_increases(0, mb);
    }
    if ma < mb {
        lemma_scaled_magnitude_increases(ma, mb);
    }
    if mb < ma {
        lemma_scaled_magnitude_increases(mb, ma);
    }
}

/// The total order tells any two different bit patterns apart.
pub proof fn law_total_order_separates(a: Double, b: Double)
    ensures
        a == b || a.total() < b.total() || b.total() < a.total(),
        a.less(b) ==> a.total() < b.total(),
        a.total() < b.total() && !a.nan() && !b.nan() ==> a.at_most(b),
{
}

} // verus!
