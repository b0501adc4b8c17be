//! Exact nonnegative rational numbers, kept as unreduced fractions of `u128`s.
//!
//! Every operation is checked: it returns `None` instead of overflowing, and
//! the spec-level mirror of each operation says exactly when that happens.

use vstd::prelude::*;

verus! {

/// A nonnegative rational `num / den`. Well-formed values have `den >= 1`.
#[derive(Clone, Copy, Debug, PartialEq, Eq, Structural)]
pub struct Rat {
    pub num: u128,
    pub den: u128,
}

impl Rat {
    /// The denominator is positive, so the fraction denotes a rational.
    pub open spec fn wf(self) -> bool {
        self.den >= 1
    }

    /// Value equality of two fractions, by cross-multiplication.
    pub open spec fn eq_val(self, other: Rat) -> bool {
        self.num * other.den == other.num * self.den
    }

    /// Value order of two fractions, by cross-multiplication.
    pub open spec fn le_val(self, other: Rat) -> bool {
        self.num * other.den <= other.num * self.den
    }

    pub open spec fn is_zero(self) -> bool {
        self.num == 0
    }

    /// What `add` returns: the textbook sum, or `None` where a component
    /// would not fit in a `u128`.
    pub open spec fn spec_add(self, other: Rat) -> Option<Rat> {
        if self.num * other.den + other.num * self.den <= u128::MAX && self.den * other.den
            <= u128::MAX {
            Some(
                Rat {
                    num: (self.num * other.den + other.num * self.den) as u128,
                    den: (self.den * other.den) as u128,
                },
            )
        } else {
            None
        }
    }

    /// What `sub` returns: the textbook difference, or `None` where the
    /// difference would be negative or a component would not fit.
    pub open spec fn spec_sub(self, other: Rat) -> Option<Rat> {
        if self.num * other.den <= u128::MAX && other.num * self.den <= u128::MAX && self.den
            * other.den <= u128::MAX && other.num * self.den <= self.num * other.den {
            Some(
                Rat {
                    num: (self.num * other.den - other.num * self.den) as u128,
                    den: (self.den * other.den) as u128,
                },
            )
        } else {
            None
        }
    }

    /// What `mul_nat` returns: the fraction scaled by an integer, or `None`
    /// where the numerator would not fit.
    pub open spec fn spec_mul_nat(self, k: u64) -> Option<Rat> {
        if self.num * k <= u128::MAX {
            Some(Rat { num: (self.num * k) as u128, den: self.den })
        } else {
            None
        }
    }

    /// What `le` returns: the value order, or `None` where a cross product
    /// would not fit.
    pub open spec fn spec_le(self, other: Rat) -> Option<bool> {
        if self.num * other.den <= u128::MAX && other.num * self.den <= u128::MAX {
            Some(self.le_val(other))
        } else {
            None
        }
    }

    /// A checked sum of well-formed fractions is well-formed.
    pub proof fn lemma_spec_add_wf(self, other: Rat)
        requires
            self.wf(),
            other.wf(),
        ensures
            self.spec_add(other) matches Some(r) ==> r.wf(),
    {
        if self.spec_add(other) is Some {
            assert(self.den * other.den >= 1) by (nonlinear_arith)
                requires
                    self.den >= 1,
                    other.den >= 1,
            ;
        }
    }

    /// A checked difference of well-formed fractions is well-formed.
    pub proof fn lemma_spec_sub_wf(self, other: Rat)
        requires
            self.wf(),
            other.wf(),
        ensures
            self.spec_sub(other) matches Some(r) ==> r.wf(),
    {
        if self.spec_sub(other) is Some {
            assert(self.den * other.den >= 1) by (nonlinear_arith)
                requires
                    self.den >= 1,
                    other.den >= 1,
            ;
        }
    }

    /// The rational `n / 1`.
    pub fn from_u64(n: u64) -> (r: Rat)
        ensures
            r == (Rat { num: n as u128, den: 1u128 }),
    {
        Rat { num: n as u128, den: 1 }
    }

    /// The rational zero.
    pub fn zero() -> (r: Rat)
        ensures
            r == (Rat { num: 0u128, den: 1u128 }),
    {
        Rat { num: 0, den: 1 }
    }

    /// Checked sum of two fractions.
    pub fn add(self, other: Rat) -> (r: Option<Rat>)
        requires
            self.wf(),
            other.wf(),
        ensures
            r == self.spec_add(other),
            r matches Some(v) ==> v.wf(),
    {
        match (self.num.checked_mul(other.den), other.num.checked_mul(self.den),
        self.den.checked_mul(other.den)) {
            (Some(a), Some(b), Some(d)) => {
                proof {
                    assert(self.den * other.den >= 1) by (nonlinear_arith)
                        requires
                            self.den >= 1,
                            other.den >= 1,
                    ;
                }
                match a.checked_add(b) {
                    Some(n) => Some(Rat { num: n, den: d }),
                    None => None,
                }
            },
            _ => None,
        }
    }

    /// Checked difference of two fractions; `None` when the result would be
    /// negative.
    pub fn sub(self, other: Rat) -> (r: Option<Rat>)
        requires
            self.wf(),
            other.wf(),
        ensures
            r == self.spec_sub(other),
            r matches Some(v) ==> v.wf(),
    {
        match (self.num.checked_mul(other.den), other.num.checked_mul(self.den),
        self.den.checked_mul(other.den)) {
            (Some(a), Some(b), Some(d)) => {
                proof {
                    assert(self.den * other.den >= 1) by (nonlinear_arith)
                        requires
                            self.den >= 1,
                            other.den >= 1,
                    ;
                }
                if b <= a {
                    Some(Rat { num: a - b, den: d })
                } else {
                    None
                }
            },
            _ => None,
        }
    }

    /// Checked product with an integer scalar.
    pub fn mul_nat(self, k: u64) -> (r: Option<Rat>)
        requires
            self.wf(),
        ensures
            r == self.spec_mul_nat(k),
            r matches Some(v) ==> v.wf(),
    {
        match self.num.checked_mul(k as u128) {
            Some(n) => Some(Rat { num: n, den: self.den }),
            None => None,
        }
    }

    /// Checked value order.
    pub fn le(self, other: Rat) -> (r: Option<bool>)
        requires
            self.wf(),
            other.wf(),
        ensures
            r == self.spec_le(other),
    {
        match (self.num.checked_mul(other.den), other.num.checked_mul(self.den)) {
            (Some(a), Some(b)) => Some(a <= b),
            _ => None,
        }
    }
}

} // verus!
