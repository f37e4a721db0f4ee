//! The ternary alphabet {-1, 0, +1}.

use vstd::prelude::*;

verus! {

/// A ternary value: Negative (-1), Zero (0), or Positive (+1).
#[derive(Clone, Copy, Debug, PartialEq, Eq, Hash, Structural)]
pub enum Ternary {
    Neg,
    Zero,
    Pos,
}

/// The integer that a ternary value stands for.
pub open spec fn tval(t: Ternary) -> int {
    match t {
        Ternary::Neg => -1,
        Ternary::Zero => 0,
        Ternary::Pos => 1,
    }
}

/// The ternary value with the sign of `v`.
pub open spec fn sign_of(v: int) -> Ternary {
    if v < 0 {
        Ternary::Neg
    } else if v == 0 {
        Ternary::Zero
    } else {
        Ternary::Pos
    }
}

impl Ternary {
    /// Convert to i8 representation.
    pub fn to_i8(self) -> (r: i8)
        ensures
            r == tval(self),
    {
        match self {
            Ternary::Neg => -1,
            Ternary::Zero => 0,
            Ternary::Pos => 1,
        }
    }

    /// Convert from i8, clamping to {-1, 0, 1}.
    pub fn from_i8(v: i8) -> (t: Ternary)
        ensures
            t == sign_of(v as int),
    {
        if v < 0 {
            Ternary::Neg
        } else if v == 0 {
            Ternary::Zero
        } else {
            Ternary::Pos
        }
    }
}

/// Converting a ternary value to an integer and back gives the value again.
pub proof fn lemma_from_to_roundtrip(t: Ternary)
    ensures
        sign_of(tval(t)) == t,
        -1 <= tval(t) <= 1,
{
}

/// On -1, 0 and 1 the conversion from an integer is inverted by the conversion to one.
pub proof fn lemma_to_from_roundtrip(v: int)
    requires
        -1 <= v <= 1,
    ensures
        tval(sign_of(v)) == v,
{
}

} // verus!

verus! {

/// The mathematical view of a list of ternary vectors: a sequence of sequences.
pub open spec fn rows(s: Seq<Vec<Ternary>>) -> Seq<Seq<Ternary>> {
    s.map_values(|v: Vec<Ternary>| v@)
}

} // verus!
