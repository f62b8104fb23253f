//! What the iteration at one point came to, in integers: how many steps were
//! taken, and towards which part of the plane the iterate settled.
//!
//! Attractors are told apart by the octant in which the last iterate lies,
//! read off the signs of its two coordinates against a tolerance. No list of
//! roots is needed for that; near the border between two basins the octant
//! can differ from the root that lies nearest.

use vstd::prelude::*;

verus! {

/// Where a coordinate lies against a tolerance band around zero.
#[derive(Clone, Copy, Debug, PartialEq, Eq, Structural)]
pub enum Sign {
    Negative,
    Zero,
    Positive,
}

/// The eight directions in which a settled iterate can lie from the origin,
/// named as on a map of the complex plane: east is the positive real axis,
/// north the positive imaginary axis.
#[derive(Clone, Copy, Debug, PartialEq, Eq, Structural)]
pub enum Octant {
    East,
    NorthEast,
    North,
    NorthWest,
    West,
    SouthWest,
    South,
    SouthEast,
}

/// Outcome of the iteration at one point.
#[derive(Clone, Copy, Debug, PartialEq, Eq, Structural)]
pub enum Classification {
    /// The budget ran out: the point is drawn as background.
    Background,
    /// The iteration stopped after `count` steps; `bucket` tells the
    /// attractors apart where the iteration has several.
    Reached { count: u32, bucket: Option<Octant> },
}

/// The octant with the given signs of its real and imaginary part; the origin
/// lies in none.
pub open spec fn octant_with(re: Sign, im: Sign) -> Option<Octant> {
    match (re, im) {
        (Sign::Positive, Sign::Zero) => Some(Octant::East),
        (Sign::Positive, Sign::Positive) => Some(Octant::NorthEast),
        (Sign::Zero, Sign::Positive) => Some(Octant::North),
        (Sign::Negative, Sign::Positive) => Some(Octant::NorthWest),
        (Sign::Negative, Sign::Zero) => Some(Octant::West),
        (Sign::Negative, Sign::Negative) => Some(Octant::SouthWest),
        (Sign::Zero, Sign::Negative) => Some(Octant::South),
        (Sign::Positive, Sign::Negative) => Some(Octant::SouthEast),
        (Sign::Zero, Sign::Zero) => None,
    }
}

/// Outcome of an escape-time run: the step at which the orbit left the escape
/// radius, if it did.
pub open spec fn escape_outcome(escaped_at: Option<u32>) -> Classification {
    match escaped_at {
        Some(count) => Classification::Reached { count, bucket: None },
        None => Classification::Background,
    }
}

/// Outcome of a Newton run that started with `budget` steps and stopped with
/// `remaining` of them unused, at an iterate with the given signs.
pub open spec fn newton_outcome(budget: u32, remaining: u32, re: Sign, im: Sign) -> Classification {
    if remaining == 0 {
        Classification::Background
    } else {
        Classification::Reached {
            count: (budget - remaining) as u32,
            bucket: octant_with(re, im),
        }
    }
}

/// The sign of a coordinate from its two comparisons against the tolerance:
/// positive where it lies above the tolerance, negative where it lies below
/// the tolerance's negative, zero in between. The first comparison decides
/// where both are claimed.
pub open spec fn sign_of(above: bool, below: bool) -> Sign {
    if above {
        Sign::Positive
    } else if below {
        Sign::Negative
    } else {
        Sign::Zero
    }
}

impl Sign {
    /// The sign of a coordinate, given whether it lies above the tolerance
    /// and whether it lies below the tolerance's negative.
    pub fn from_tests(above: bool, below: bool) -> (sign: Sign)
        ensures
            sign == sign_of(above, below),
    {
        if above {
            Sign::Positive
        } else if below {
            Sign::Negative
        } else {
            Sign::Zero
        }
    }
}

impl Octant {
    /// Signs of the real and the imaginary part in this octant.
    pub open spec fn spec_signs(self) -> (Sign, Sign) {
        match self {
            Octant::East => (Sign::Positive, Sign::Zero),
            Octant::NorthEast => (Sign::Positive, Sign::Positive),
            Octant::North => (Sign::Zero, Sign::Positive),
            Octant::NorthWest => (Sign::Negative, Sign::Positive),
            Octant::West => (Sign::Negative, Sign::Zero),
            Octant::SouthWest => (Sign::Negative, Sign::Negative),
            Octant::South => (Sign::Zero, Sign::Negative),
            Octant::SouthEast => (Sign::Positive, Sign::Negative),
        }
    }

    /// The octant in which a point with these signs lies.
    pub fn from_signs(re: Sign, im: Sign) -> (octant: Option<Octant>)
        ensures
            octant == octant_with(re, im),
            octant.is_none() <==> (re == Sign::Zero && im == Sign::Zero),
    {
        match (re, im) {
            (Sign::Positive, Sign::Zero) => Some(Octant::East),
            (Sign::Positive, Sign::Positive) => Some(Octant::NorthEast),
            (Sign::Zero, Sign::Positive) => Some(Octant::North),
            (Sign::Negative, Sign::Positive) => Some(Octant::NorthWest),
            (Sign::Negative, Sign::Zero) => Some(Octant::West),
            (Sign::Negative, Sign::Negative) => Some(Octant::SouthWest),
            (Sign::Zero, Sign::Negative) => Some(Octant::South),
            (Sign::Positive, Sign::Negative) => Some(Octant::SouthEast),
            (Sign::Zero, Sign::Zero) => None,
        }
    }

    /// Signs of the real and the imaginary part in this octant.
    pub fn signs(self) -> (pair: (Sign, Sign))
        ensures
            pair == self.spec_signs(),
            octant_with(pair.0, pair.1) == Some(self),
    {
        match self {
            Octant::East => (Sign::Positive, Sign::Zero),
            Octant::NorthEast => (Sign::Positive, Sign::Positive),
            Octant::North => (Sign::Zero, Sign::Positive),
            Octant::NorthWest => (Sign::Negative, Sign::Positive),
            Octant::West => (Sign::Negative, Sign::Zero),
            Octant::SouthWest => (Sign::Negative, Sign::Negative),
            Octant::South => (Sign::Zero, Sign::Negative),
            Octant::SouthEast => (Sign::Positive, Sign::Negative),
        }
    }
}

impl Classification {
    /// Whether the count lies below the budget that the run was given.
    pub open spec fn within(self, budget: u32) -> bool {
        match self {
            Classification::Background => true,
            Classification::Reached { count, .. } => count < budget,
        }
    }

    /// Classifies an escape-time run from the step at which the orbit escaped.
    pub fn from_escape(escaped_at: Option<u32>) -> (outcome: Classification)
        ensures
            outcome == escape_outcome(escaped_at),
    {
        match escaped_at {
            Some(count) => Classification::Reached { count, bucket: None },
            None => Classification::Background,
        }
    }

    /// Classifies a Newton run. A run that used up its budget did not
    /// converge and is background, whatever its last iterate; any other run
    /// converged after `budget - remaining` steps, into the octant that the
    /// signs of the last iterate name.
    pub fn from_newton(budget: u32, remaining: u32, re: Sign, im: Sign) -> (outcome:
        Classification)
        requires
            remaining <= budget,
        ensures
            outcome == newton_outcome(budget, remaining, re, im),
            outcome.within(budget),
    {
        if remaining == 0 {
            Classification::Background
        } else {
            Classification::Reached {
                count: budget - remaining,
                bucket: Octant::from_signs(re, im),
            }
        }
    }

    /// Whether the point is drawn as background.
    pub fn is_background(&self) -> (answer: bool)
        ensures
            answer == (*self == Classification::Background),
    {
        match self {
            Classification::Background => true,
            Classification::Reached { .. } => false,
        }
    }
}

/// Each pair of signs but that of the origin names one octant, and each
/// octant is named by its own signs alone.
pub proof fn lemma_octant_signs_inverse(re: Sign, im: Sign, octant: Octant)
    ensures
        octant_with(re, im) == Some(octant) <==> octant.spec_signs() == (re, im),
        octant_with(re, im).is_none() <==> (re == Sign::Zero && im == Sign::Zero),
{
}

} // verus!
