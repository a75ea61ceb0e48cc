use vstd::prelude::*;

verus! {

/// A balanced ternary value: -1, 0 or +1.
#[derive(Debug, Clone, Copy, PartialEq, Eq, Structural, Hash)]
pub enum Ternary {
    Neg,
    Zero,
    Pos,
}

/// The integer a ternary value stands for.
pub open spec fn ternary_value(t: Ternary) -> int {
    match t {
        Ternary::Neg => -1,
        Ternary::Zero => 0,
        Ternary::Pos => 1,
    }
}

/// The ternary value standing for `v`, if `v` is -1, 0 or 1.
pub open spec fn ternary_of(v: int) -> Option<Ternary> {
    if v == -1 {
        Some(Ternary::Neg)
    } else if v == 0 {
        Some(Ternary::Zero)
    } else if v == 1 {
        Some(Ternary::Pos)
    } else {
        None
    }
}

impl Ternary {
    /// Converts -1, 0 and 1 to a ternary value; any other integer gives `None`.
    pub fn from_i8(v: i8) -> (r: Option<Ternary>)
        ensures
            r == ternary_of(v as int),
            r matches Some(t) ==> ternary_value(t) == v,
    {
        match v {
            -1 => Some(Ternary::Neg),
            0 => Some(Ternary::Zero),
            1 => Some(Ternary::Pos),
            _ => None,
        }
    }

    /// The integer (-1, 0 or 1) this value stands for.
    pub fn to_i8(self) -> (r: i8)
        ensures
            r == ternary_value(self),
            -1 <= r <= 1,
    {
        match self {
            Ternary::Neg => -1,
            Ternary::Zero => 0,
            Ternary::Pos => 1,
        }
    }
}

} // verus!
