//! Elemental power tags carried by absorbable objects and demanded by
//! breakable obstacles.

use vstd::prelude::*;

verus! {

/// A discrete elemental ability. Absorbed limbs carry one each; an
/// obstacle lists the powers whose joint presence destroys it.
/// `Neutral` marks the absence of an ability.
#[derive(Clone, Copy, Debug, PartialEq, Eq, Structural)]
pub enum Power {
    Fire,
    Water,
    Cat,
    AmberRod,
    Dig,
    Saw,
    Neutral,
}

impl Power {
    /// A human-readable name for UI layers outside this crate.
    pub fn label(self) -> (r: &'static str)
        ensures
            r@ == self.spec_label(),
    {
        match self {
            Power::Fire => "Fire",
            Power::Water => "Water",
            Power::Cat => "Cat",
            Power::AmberRod => "AmberRod",
            Power::Dig => "Dig",
            Power::Saw => "Saw",
            Power::Neutral => "Neutral",
        }
    }

    pub open spec fn spec_label(self) -> Seq<char> {
        match self {
            Power::Fire => "Fire"@,
            Power::Water => "Water"@,
            Power::Cat => "Cat"@,
            Power::AmberRod => "AmberRod"@,
            Power::Dig => "Dig"@,
            Power::Saw => "Saw"@,
            Power::Neutral => "Neutral"@,
        }
    }
}

} // verus!
