//! The mathematical model of single precision numbers.
//!
//! Every finite number of the format is a whole multiple of 2^-149, so a finite
//! value is modelled by its sign and by the natural number of such units.

use vstd::arithmetic::power2;
use vstd::prelude::*;

verus! {

/// What a single precision bit pattern stands for.
///
/// The sign of a finite number is kept beside its magnitude, so the two zeros
/// are two values.
pub enum Num {
    /// Not a number.
    Nan,
    /// One of the two infinities.
    Infinite { negative: bool },
    /// A finite number: `units` times 2^-149.
    Finite { negative: bool, units: nat },
}

impl Num {
    /// The number of units in 1.
    pub open spec fn one_units() -> nat {
        power2::pow2(149)
    }

    /// The least magnitude, in units, that is too large for the format: 2^128.
    pub open spec fn limit_units() -> nat {
        power2::pow2(277)
    }

    /// The exponent of the spacing of the format at the magnitude `n / d` units:
    /// the least `k` such that `n / d` is below 2^(24 + k).
    pub open spec fn spacing(n: nat, d: nat) -> nat
        decreases n - d,
    {
        if d == 0 || n < d * power2::pow2(24) {
            0
        } else {
            proof {
                power2::lemma2_to64();
            }
            1 + Self::spacing(n, 2 * d)
        }
    }

    /// The whole number nearest to `n / d`, and the even one of two that are
    /// equally near.
    pub open spec fn nearest_even(n: nat, d: nat) -> nat {
        let low = n / d;
        let twice_rest = 2 * (n % d);
        if twice_rest < d || (twice_rest == d && low % 2 == 0) {
            low
        } else {
            low + 1
        }
    }

    /// The magnitude nearest to `n / d` units with at most 24 significant bits,
    /// ties going to the even significand.
    pub open spec fn round_units(n: nat, d: nat) -> nat {
        let spacing = power2::pow2(Self::spacing(n, d));
        Self::nearest_even(n, d * spacing) * spacing
    }

    /// The number that stands for the magnitude `n / d` units with the sign given:
    /// rounded to the format, and infinite where that is too large for it.
    pub open spec fn rounded(negative: bool, n: nat, d: nat) -> Num {
        let units = Self::round_units(n, d);
        if units < Self::limit_units() {
            Num::Finite { negative, units }
        } else {
            Num::Infinite { negative }
        }
    }

    /// A natural number, rounded to the format.
    pub open spec fn of_nat(n: nat) -> Num {
        Self::rounded(false, n * Self::one_units(), 1)
    }

    /// Zero.
    pub open spec fn zero() -> Num {
        Num::Finite { negative: false, units: 0 }
    }

    /// The number with the opposite sign.
    pub open spec fn negated(self) -> Num {
        match self {
            Num::Nan => Num::Nan,
            Num::Infinite { negative } => Num::Infinite { negative: !negative },
            Num::Finite { negative, units } => Num::Finite { negative: !negative, units },
        }
    }

    /// The place of a number on the number line, in units. Infinity stands at the
    /// limit of the format, and both zeros stand at zero.
    pub open spec fn place(self) -> int {
        match self {
            Num::Nan => 0,
            Num::Infinite { negative } => if negative {
                -(Self::limit_units() as int)
            } else {
                Self::limit_units() as int
            },
            Num::Finite { negative, units } => if negative {
                -(units as int)
            } else {
                units as int
            },
        }
    }

    /// `self < other`.
    pub open spec fn below(self, other: Num) -> bool {
        &&& !(self is Nan)
        &&& !(other is Nan)
        &&& self.place() < other.place()
    }

    /// `self <= other`.
    pub open spec fn at_most(self, other: Num) -> bool {
        &&& !(self is Nan)
        &&& !(other is Nan)
        &&& self.place() <= other.place()
    }

    /// `self + other`.
    #[verifier::opaque]
    pub open spec fn plus(self, other: Num) -> Num {
        match (self, other) {
            (Num::Nan, _) => Num::Nan,
            (_, Num::Nan) => Num::Nan,
            (Num::Infinite { negative: a }, Num::Infinite { negative: b }) => if a == b {
                self
            } else {
                Num::Nan
            },
            (Num::Infinite { negative }, _) => self,
            (_, Num::Infinite { negative }) => other,
            (Num::Finite { negative: a, units: m }, Num::Finite { negative: b, units: n }) => {
                let sum = self.place() + other.place();
                if sum == 0 {
                    Num::Finite { negative: a && b, units: 0 }
                } else if sum < 0 {
                    Self::rounded(true, (-sum) as nat, 1)
                } else {
                    Self::rounded(false, sum as nat, 1)
                }
            },
        }
    }

    /// `self - other`.
    pub open spec fn minus(self, other: Num) -> Num {
        self.plus(other.negated())
    }

    /// `self * other`.
    #[verifier::opaque]
    pub open spec fn times(self, other: Num) -> Num {
        match (self, other) {
            (Num::Nan, _) => Num::Nan,
            (_, Num::Nan) => Num::Nan,
            (Num::Infinite { negative: a }, Num::Infinite { negative: b }) => Num::Infinite {
                negative: a != b,
            },
            (Num::Infinite { negative: a }, Num::Finite { negative: b, units }) => if units == 0 {
                Num::Nan
            } else {
                Num::Infinite { negative: a != b }
            },
            (Num::Finite { negative: a, units }, Num::Infinite { negative: b }) => if units == 0 {
                Num::Nan
            } else {
                Num::Infinite { negative: a != b }
            },
            (
                Num::Finite { negative: a, units: m },
                Num::Finite { negative: b, units: n },
            ) => Self::rounded(a != b, m * n, Self::one_units()),
        }
    }

    /// `self / other`.
    #[verifier::opaque]
    pub open spec fn over(self, other: Num) -> Num {
        match (self, other) {
            (Num::Nan, _) => Num::Nan,
            (_, Num::Nan) => Num::Nan,
            (Num::Infinite { .. }, Num::Infinite { .. }) => Num::Nan,
            (Num::Infinite { negative: a }, Num::Finite { negative: b, .. }) => Num::Infinite {
                negative: a != b,
            },
            (Num::Finite { negative: a, .. }, Num::Infinite { negative: b }) => Num::Finite {
                negative: a != b,
                units: 0,
            },
            (
                Num::Finite { negative: a, units: m },
                Num::Finite { negative: b, units: n },
            ) => if n == 0 {
                if m == 0 {
                    Num::Nan
                } else {
                    Num::Infinite { negative: a != b }
                }
            } else {
                Self::rounded(a != b, m * Self::one_units(), n)
            },
        }
    }

    /// The remainder of `self / other` with the quotient cut to a whole number;
    /// it has the sign of `self` and is never rounded.
    #[verifier::opaque]
    pub open spec fn remainder(self, other: Num) -> Num {
        match (self, other) {
            (Num::Nan, _) => Num::Nan,
            (_, Num::Nan) => Num::Nan,
            (Num::Infinite { .. }, _) => Num::Nan,
            (Num::Finite { .. }, Num::Infinite { .. }) => self,
            (
                Num::Finite { negative, units: m },
                Num::Finite { units: n, .. },
            ) => if n == 0 {
                Num::Nan
            } else {
                Num::Finite { negative, units: m % n }
            },
        }
    }

    /// The greatest whole number whose square is at most `n`.
    pub open spec fn floor_sqrt(n: nat) -> nat {
        choose|r: nat| #[trigger] (r * r) <= n < (r + 1) * (r + 1)
    }

    /// The square root.
    ///
    /// The root of a positive number is at least 2^74 units, where neither a number
    /// of the format nor a midpoint of two lies strictly between neighbouring whole
    /// numbers of units. So a root that is no whole number of units rounds as any
    /// point between its neighbours does; the middle is taken.
    #[verifier::opaque]
    pub open spec fn square_root(self) -> Num {
        match self {
            Num::Nan => Num::Nan,
            Num::Infinite { negative } => if negative {
                Num::Nan
            } else {
                self
            },
            Num::Finite { negative, units } => if units == 0 {
                self
            } else if negative {
                Num::Nan
            } else {
                let square = units * Self::one_units();
                let root = Self::floor_sqrt(square);
                if root * root == square {
                    Self::rounded(false, root, 1)
                } else {
                    Self::rounded(false, 2 * root + 1, 2)
                }
            },
        }
    }

    /// The greatest whole number that is at most `self`.
    #[verifier::opaque]
    pub open spec fn floored(self) -> Num {
        match self {
            Num::Finite { negative, units } => {
                let one = Self::one_units();
                let whole = if negative && units % one != 0 {
                    units / one + 1
                } else {
                    units / one
                };
                Num::Finite { negative, units: whole * one }
            },
            _ => self,
        }
    }

    /// The least whole number that is at least `self`.
    pub open spec fn ceiled(self) -> Num {
        self.negated().floored().negated()
    }

    /// The nearest whole number, halves going away from zero.
    #[verifier::opaque]
    pub open spec fn rounded_whole(self) -> Num {
        match self {
            Num::Finite { negative, units } => {
                let one = Self::one_units();
                let whole = if 2 * (units % one) >= one {
                    units / one + 1
                } else {
                    units / one
                };
                Num::Finite { negative, units: whole * one }
            },
            _ => self,
        }
    }

    /// The number cut to a whole number and kept within `0..=max`; not a number
    /// gives 0.
    #[verifier::opaque]
    pub open spec fn cut_to(self, max: nat) -> nat {
        match self {
            Num::Nan => 0,
            Num::Infinite { negative } => if negative {
                0
            } else {
                max
            },
            Num::Finite { negative, units } => if negative {
                0
            } else if units / Self::one_units() < max {
                units / Self::one_units()
            } else {
                max
            },
        }
    }

    /// The greater of two numbers; an operand that is not a number is passed over.
    pub open spec fn greater(self, other: Num) -> Num {
        if self is Nan || self.below(other) {
            other
        } else {
            self
        }
    }

    /// The lesser of two numbers; an operand that is not a number is passed over.
    pub open spec fn lesser(self, other: Num) -> Num {
        if self is Nan || other.below(self) {
            other
        } else {
            self
        }
    }

    /// The number kept within `low..=high`. What is not a number stays so.
    pub open spec fn clamped(self, low: Num, high: Num) -> Num {
        if self.below(low) {
            low
        } else if high.below(self) {
            high
        } else {
            self
        }
    }
}

} // verus!
