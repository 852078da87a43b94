//! Double-precision numbers as plain data.
//!
//! The game computes positions and times with hardware doubles. The rules only store those
//! numbers, hand them on and compare them, so here a number is the 64 bits of its IEEE 754
//! encoding, and the comparison is proved to order the encoded values.
use vstd::arithmetic::power2::{
    lemma_pow2_pos, lemma_pow2_strictly_increases, lemma_pow2_unfold, pow2,
};
use vstd::prelude::*;

verus! {

/// A double-precision number, kept as the bits of its IEEE 754 encoding.
#[derive(Clone, Copy, Debug, PartialEq, Eq, Structural)]
pub struct Double {
    pub bits: u64,
}

/// A point or a vector of the plane.
#[derive(Clone, Copy, Debug, PartialEq, Eq, Structural)]
pub struct Vec2 {
    pub x: Double,
    pub y: Double,
}

impl Vec2 {
    /// The vector (0, 0).
    #[verifier::allow_in_spec]
    pub fn origin() -> Vec2
        returns
            (Vec2 { x: Double { bits: 0 }, y: Double { bits: 0 } }),
    {
        Vec2 { x: Double { bits: 0 }, y: Double { bits: 0 } }
    }
}

/// The sign bit; everything below it encodes the magnitude.
pub const SIGN: u64 = 0x8000_0000_0000_0000;

/// The magnitude bits of an infinity. Larger magnitudes encode "not a number".
pub const INFINITE: u64 = 0x7ff0_0000_0000_0000;

/// One more than the largest fraction field, and the weight of the implicit leading bit.
pub const FRACTIONS: u64 = 0x0010_0000_0000_0000;

/// The value that magnitude bits encode, as a multiple of the smallest positive double.
///
/// An infinity gets the value that the next exponent would give it, which is above the value
/// of every finite magnitude.
pub open spec fn magnitude_value(magnitude: nat) -> nat {
    let exponent = magnitude / (FRACTIONS as nat);
    let fraction = magnitude % (FRACTIONS as nat);
    if exponent == 0 {
        fraction
    } else {
        (FRACTIONS as nat + fraction) * pow2((exponent - 1) as nat)
    }
}

impl Double {
    /// The bits below the sign bit.
    pub open spec fn magnitude(self) -> nat {
        if self.bits >= SIGN {
            (self.bits - SIGN) as nat
        } else {
            self.bits as nat
        }
    }

    /// Whether the bits encode no number at all.
    pub open spec fn is_nan(self) -> bool {
        self.magnitude() > INFINITE
    }

    /// The encoded value, as a multiple of the smallest positive double. Both zeros are 0.
    pub open spec fn value(self) -> int {
        if self.bits >= SIGN {
            -(magnitude_value(self.magnitude()) as int)
        } else {
            magnitude_value(self.magnitude()) as int
        }
    }

    /// What one more in the last place of the number adds to its value.
    pub open spec fn last_place(self) -> nat {
        let exponent = self.magnitude() / (FRACTIONS as nat);
        if exponent == 0 {
            1
        } else {
            pow2((exponent - 1) as nat)
        }
    }

    /// The IEEE 754 order: false as soon as one side is not a number.
    pub open spec fn below(self, other: Double) -> bool {
        &&& !self.is_nan()
        &&& !other.is_nan()
        &&& self.value() < other.value()
    }

    /// `self < other`, as the hardware decides it for doubles.
    pub fn less(self, other: Double) -> (result: bool)
        ensures
            result == self.below(other),
    {
        let left: u64 = if self.bits >= SIGN {
            self.bits - SIGN
        } else {
            self.bits
        };
        let right: u64 = if other.bits >= SIGN {
            other.bits - SIGN
        } else {
            other.bits
        };
        proof {
            assert(magnitude_value(0) == 0);
            if 0 < left {
                lemma_magnitude_order(0, left as nat);
            }
            if 0 < right {
                lemma_magnitude_order(0, right as nat);
            }
            if left < right {
                lemma_magnitude_order(left as nat, right as nat);
            }
            if right < left {
                lemma_magnitude_order(right as nat, left as nat);
            }
        }
        if left > INFINITE || right > INFINITE {
            false
        } else if self.bits >= SIGN {
            if other.bits >= SIGN {
                right < left
            } else {
                left > 0 || right > 0
            }
        } else if other.bits >= SIGN {
            false
        } else {
            left < right
        }
    }
}

/// Whether a number is the square of another one, rounded to the nearest double: it is no more
/// than half of one in its last place away from it. Values are multiples of two to the power of
/// -1074, their products multiples of the square of that.
pub open spec fn is_rounded_square(root: Double, square: Double) -> bool {
    let exact = root.value() * root.value();
    let rounded = square.value() * pow2(1074);
    let unit = square.last_place() * pow2(1074);
    -unit <= 2 * (rounded - exact) <= unit
}

/// Larger magnitude bits encode larger values.
pub proof fn lemma_magnitude_order(a: nat, b: nat)
    requires
        a < b,
    ensures
        magnitude_value(a) < magnitude_value(b),
{
    let unit = FRACTIONS as nat;
    let (ea, fa) = (a / unit, a % unit);
    let (eb, fb) = (b / unit, b % unit);
    assert(ea < eb || (ea == eb && fa < fb));
    if eb > 0 {
        let top = pow2((eb - 1) as nat);
        lemma_pow2_pos((eb - 1) as nat);
        if ea == eb {
            assert((unit + fa) * top < (unit + fb) * top) by (nonlinear_arith)
                requires
                    fa < fb,
                    top > 0,
            ;
        } else {
            assert(unit * top <= (unit + fb) * top) by (nonlinear_arith);
            if ea == 0 {
                assert(unit <= unit * top) by (nonlinear_arith)
                    requires
                        top > 0,
                ;
            } else {
                let low = pow2((ea - 1) as nat);
                lemma_pow2_pos((ea - 1) as nat);
                lemma_pow2_unfold(ea);
                if ea < eb - 1 {
                    lemma_pow2_strictly_increases(ea, (eb - 1) as nat);
                }
                assert((unit + fa) * low < unit * top) by (nonlinear_arith)
                    requires
                        fa < unit,
                        low > 0,
                        2 * low <= top,
                ;
            }
        }
    }
}

/// No number is below itself.
pub proof fn below_is_irreflexive(a: Double)
    ensures
        !a.below(a),
{
}

/// The order is transitive.
pub proof fn below_is_transitive(a: Double, b: Double, c: Double)
    requires
        a.below(b),
        b.below(c),
    ensures
        a.below(c),
{
}

/// Of two numbers neither of which is below the other, both encode the same value.
pub proof fn below_is_total(a: Double, b: Double)
    requires
        !a.is_nan(),
        !b.is_nan(),
    ensures
        a.below(b) || b.below(a) || a.value() == b.value(),
{
}

} // verus!
