//! Scalars as the renderer's decisions see them: points of the extended real
//! line, ordered, plus the patterns that are no number.

use vstd::arithmetic::power2::{
    lemma2_to64,
    lemma_pow2_adds,
    lemma_pow2_pos,
    lemma_pow2_strictly_increases,
    lemma_pow2_unfold,
    pow2,
};
use vstd::prelude::*;

verus! {

/// The sign bit of a binary32 pattern.
pub const SIGN_BIT: u32 = 0x8000_0000;

/// The magnitude of an infinity. Every larger magnitude is no number.
pub const INFINITE: u32 = 0x7f80_0000;

/// The pattern of 1.
pub const ONE_BITS: u32 = 0x3f80_0000;

/// The number of patterns that share one exponent: two to the width of the
/// fraction field.
pub const FRACTIONS: u32 = 0x0080_0000;

/// The size, in units of the least positive binary32 value, of the finite
/// scalar with the given magnitude. A magnitude with exponent field 0 counts
/// its fraction in units; each further exponent doubles the unit, and the
/// fraction gains its hidden leading bit.
pub open spec fn size_of(magnitude: int) -> int {
    let exponent = magnitude / (FRACTIONS as int);
    let fraction = magnitude % (FRACTIONS as int);
    if exponent == 0 {
        fraction
    } else {
        (FRACTIONS + fraction) * pow2((exponent - 1) as nat)
    }
}

/// The unit in the last place, in units of the least positive binary32
/// value, of the finite scalar with the given magnitude.
pub open spec fn ulp_of(magnitude: int) -> int {
    let exponent = magnitude / (FRACTIONS as int);
    if exponent == 0 {
        1
    } else {
        pow2((exponent - 1) as nat) as int
    }
}

/// The number of least positive binary32 values that make up 1.
pub open spec fn units_in_one() -> int {
    pow2(149) as int
}

/// A binary32 scalar, held by its bit pattern.
///
/// The crate never computes with a scalar. It compares: two scalars that are
/// numbers stand in the order of their ranks, the two zeros share a rank, and
/// a scalar that is no number is neither below nor above anything.
#[derive(Clone, Copy, Debug, PartialEq, Eq, Structural)]
pub struct Scalar {
    pub bits: u32,
}

impl View for Scalar {
    type V = Option<int>;

    /// The rank of a number, and nothing for a pattern that is no number.
    open spec fn view(&self) -> Option<int> {
        if self.is_nan() {
            None
        } else {
            Some(self.rank())
        }
    }
}

impl Scalar {
    /// The pattern without its sign bit.
    pub open spec fn magnitude(self) -> int {
        if self.bits >= SIGN_BIT {
            self.bits - SIGN_BIT
        } else {
            self.bits as int
        }
    }

    /// Whether the pattern stands for no number.
    pub open spec fn is_nan(self) -> bool {
        self.magnitude() > INFINITE
    }

    /// The place of the scalar in the order of binary32 values: the signed
    /// magnitude. It grows strictly with the value, and both zeros have rank 0.
    pub open spec fn rank(self) -> int {
        if self.bits >= SIGN_BIT {
            -self.magnitude()
        } else {
            self.magnitude()
        }
    }

    /// `self < other` as binary32 decides it.
    pub open spec fn below(self, other: Scalar) -> bool {
        !self.is_nan() && !other.is_nan() && self.rank() < other.rank()
    }

    /// Whether the scalar is a number other than the infinities.
    pub open spec fn is_finite(self) -> bool {
        self.magnitude() < INFINITE
    }

    /// The value of a finite scalar, in units of the least positive binary32
    /// value: `value() / units_in_one()` is the real number it stands for.
    pub open spec fn value(self) -> int {
        if self.bits >= SIGN_BIT {
            -size_of(self.magnitude())
        } else {
            size_of(self.magnitude())
        }
    }

    /// Whether the scalar is a binary32 value nearest to the ratio
    /// `num / den`: finite, and no more than half a unit in its last place
    /// away from it.
    pub open spec fn is_nearest_to(self, num: int, den: int) -> bool {
        let error = den * self.value() - num * units_in_one();
        &&& self.is_finite()
        &&& den > 0
        &&& -den * ulp_of(self.magnitude()) <= 2 * error <= den * ulp_of(self.magnitude())
    }

    /// `self > 0` as binary32 decides it.
    pub open spec fn above_zero(self) -> bool {
        !self.is_nan() && self.rank() > 0
    }

    /// Positive infinity.
    pub open spec fn infinity_spec() -> Scalar {
        Scalar { bits: INFINITE }
    }

    /// The scalar with the given bit pattern.
    pub fn from_bits(bits: u32) -> (s: Scalar)
        ensures
            s.bits == bits,
    {
        Scalar { bits }
    }

    /// The bit pattern.
    pub fn to_bits(self) -> (bits: u32)
        ensures
            bits == self.bits,
    {
        self.bits
    }

    /// Zero, with the sign bit clear.
    pub fn zero() -> (s: Scalar)
        ensures
            s.bits == 0,
            s@ == Some(0int),
            s.value() == 0,
    {
        Scalar { bits: 0 }
    }

    /// One.
    pub fn one() -> (s: Scalar)
        ensures
            s.bits == ONE_BITS,
            s@ == Some(ONE_BITS as int),
            s.value() == units_in_one(),
    {
        proof {
            lemma_pow2_adds(23, 126);
            lemma2_to64();
        }
        Scalar { bits: ONE_BITS }
    }

    /// Positive infinity.
    pub fn infinity() -> (s: Scalar)
        ensures
            s == Self::infinity_spec(),
            s@ == Some(INFINITE as int),
    {
        Scalar { bits: INFINITE }
    }

    fn signed_magnitude(self) -> (k: i64)
        ensures
            k == self.rank(),
            self.is_nan() <==> (k > INFINITE || k < -INFINITE),
    {
        if self.bits >= SIGN_BIT {
            let m: u32 = self.bits - SIGN_BIT;
            -(m as i64)
        } else {
            self.bits as i64
        }
    }

    /// Whether the scalar is no number.
    pub fn nan(self) -> (r: bool)
        ensures
            r == self.is_nan(),
    {
        let k: i64 = self.signed_magnitude();
        k > INFINITE as i64 || k < -(INFINITE as i64)
    }

    /// `self < other`: both are numbers, and `self` has the smaller rank.
    pub fn lt(self, other: Scalar) -> (r: bool)
        ensures
            r == self.below(other),
    {
        !self.nan() && !other.nan() && self.signed_magnitude() < other.signed_magnitude()
    }

    /// `self > other`: both are numbers, and `other` has the smaller rank.
    pub fn gt(self, other: Scalar) -> (r: bool)
        ensures
            r == other.below(self),
    {
        other.lt(self)
    }
}

/// A scalar with exponent field `exponent` above 0 and leading bits
/// `mantissa` is nearest to `num / den` where `den * mantissa` differs from
/// `num` times two to the power `150 - exponent` by no more than half of
/// `den`.
pub proof fn lemma_nearest_by_mantissa(s: Scalar, exponent: nat, mantissa: int, num: int, den: int)
    requires
        0 < exponent <= 150,
        s.bits < SIGN_BIT,
        s.bits == exponent * FRACTIONS + (mantissa - FRACTIONS),
        FRACTIONS <= mantissa < 2 * FRACTIONS,
        den > 0,
        -den <= 2 * (den * mantissa - num * pow2((150 - exponent) as nat)) <= den,
    ensures
        s.is_nearest_to(num, den),
{
    let p = pow2((exponent - 1) as nat) as int;
    let k = pow2((150 - exponent) as nat) as int;
    lemma_pow2_pos((exponent - 1) as nat);
    lemma_pow2_adds((150 - exponent) as nat, (exponent - 1) as nat);
    assert(units_in_one() == k * p);
    assert(s.magnitude() / (FRACTIONS as int) == exponent && s.magnitude() % (FRACTIONS as int)
        == mantissa - FRACTIONS) by {
        assert(s.magnitude() == exponent * FRACTIONS + (mantissa - FRACTIONS));
        vstd::arithmetic::div_mod::lemma_fundamental_div_mod_converse(
            s.magnitude(),
            FRACTIONS as int,
            exponent as int,
            mantissa - FRACTIONS,
        );
    }
    assert(s.value() == mantissa * p);
    assert(ulp_of(s.magnitude()) == p);
    let d = den * mantissa - num * k;
    assert(den * (mantissa * p) - num * (k * p) == d * p) by (nonlinear_arith)
        requires
            d == den * mantissa - num * k,
    ;
    assert(-den * p <= 2 * (d * p) <= den * p) by (nonlinear_arith)
        requires
            -den <= 2 * d <= den,
            p > 0,
    ;
}

/// The size grows strictly with the magnitude.
pub proof fn lemma_size_grows(m1: int, m2: int)
    requires
        0 <= m1 < m2 < INFINITE,
    ensures
        0 <= size_of(m1) < size_of(m2),
{
    let e1 = m1 / (FRACTIONS as int);
    let f1 = m1 % (FRACTIONS as int);
    let e2 = m2 / (FRACTIONS as int);
    let f2 = m2 % (FRACTIONS as int);
    assert(0 <= e1 <= e2 < 255);
    assert(e1 == e2 ==> f1 < f2);
    if e1 == e2 {
        if e1 > 0 {
            let p = pow2((e1 - 1) as nat) as int;
            lemma_pow2_pos((e1 - 1) as nat);
            assert(0 <= (FRACTIONS + f1) * p < (FRACTIONS + f2) * p) by (nonlinear_arith)
                requires
                    0 <= f1 < f2,
                    p > 0,
            ;
        }
    } else {
        let p1 = pow2(e1 as nat) as int;
        let p2 = pow2((e2 - 1) as nat) as int;
        lemma_pow2_pos(e1 as nat);
        if e1 < e2 - 1 {
            lemma_pow2_strictly_increases(e1 as nat, (e2 - 1) as nat);
        }
        assert(0 < p1 <= p2);
        assert(0 <= size_of(m1) < FRACTIONS * p1) by {
            if e1 == 0 {
                lemma2_to64();
            } else {
                let q = pow2((e1 - 1) as nat) as int;
                lemma_pow2_unfold(e1 as nat);
                lemma_pow2_pos((e1 - 1) as nat);
                assert(0 <= (FRACTIONS + f1) * q < FRACTIONS * (2 * q)) by (nonlinear_arith)
                    requires
                        0 <= f1 < FRACTIONS,
                        q > 0,
                ;
            }
        }
        assert(FRACTIONS * p1 <= (FRACTIONS + f2) * p2) by (nonlinear_arith)
            requires
                0 <= f2,
                0 < p1 <= p2,
        ;
    }
}

/// The order by which the crate decides is the order of the values: of two
/// finite scalars, one is below the other exactly where its value is the
/// smaller. The infinities lie beyond every finite scalar by their ranks.
pub proof fn lemma_order_is_that_of_values(a: Scalar, b: Scalar)
    requires
        a.is_finite(),
        b.is_finite(),
    ensures
        a.below(b) <==> a.value() < b.value(),
        a.value() == b.value() <==> a.rank() == b.rank(),
{
    let ma = a.magnitude();
    let mb = b.magnitude();
    assert(size_of(0) == 0);
    if ma > 0 {
        lemma_size_grows(0, ma);
    }
    if mb > 0 {
        lemma_size_grows(0, mb);
    }
    if ma < mb {
        lemma_size_grows(ma, mb);
    }
    if mb < ma {
        lemma_size_grows(mb, ma);
    }
}

} // verus!
