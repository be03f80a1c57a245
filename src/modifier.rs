use vstd::prelude::*;

verus! {

/// A transform of a stat's value.
///
/// `A` is the amount the transform carries; the arithmetic that applies it
/// lives with the numeric type, while the stat engine only stores, orders and
/// retires modifiers.
///
/// * `Flat(x)` adds `x`.
/// * `PercentAdd(x)` scales by `1 + x` (`0.4` raises the value by 40%).
/// * `PercentMultiply(x)` scales by `x` directly (`0.5` halves the value).
#[derive(Copy, Clone, Debug, PartialEq, Eq, Structural)]
pub enum StatModifier<A> {
    Flat(A),
    PercentAdd(A),
    PercentMultiply(A),
}

/// The order a modifier gets when none is given: flat additions first, then
/// percentage additions, then direct multiplications.
pub open spec fn default_order_of<A>(m: StatModifier<A>) -> i32 {
    match m {
        StatModifier::Flat(_) => 0,
        StatModifier::PercentAdd(_) => 1,
        StatModifier::PercentMultiply(_) => 2,
    }
}

impl<A> StatModifier<A> {
    /// Returns the default order of this variant.
    pub fn default_order(&self) -> (r: i32)
        ensures
            r == default_order_of(*self),
    {
        match self {
            StatModifier::Flat(_) => 0,
            StatModifier::PercentAdd(_) => 1,
            StatModifier::PercentMultiply(_) => 2,
        }
    }

    /// The amount carried by the modifier, whatever its variant.
    pub open spec fn amount_of(self) -> A {
        match self {
            StatModifier::Flat(x) => x,
            StatModifier::PercentAdd(x) => x,
            StatModifier::PercentMultiply(x) => x,
        }
    }
}

} // verus!
