//! Shrines: important destinations and how much they matter.

use vstd::prelude::*;
use crate::text::owned;

verus! {

/// How important a shrine is.
#[derive(Clone, Copy, Debug, PartialEq, Eq, Structural)]
pub enum ShrineSignificance {
    /// A nice-to-visit waypoint.
    Minor,
    /// A standard important location.
    Major,
    /// A critical must-visit destination.
    Sacred,
}

/// An important destination in the fleet — a "shrine" agents may visit.
#[derive(Clone, Debug, PartialEq)]
pub struct Shrine {
    pub name: String,
    pub room: String,
    pub significance: ShrineSignificance,
}

impl Shrine {
    pub fn new(name: &str, room: &str, significance: ShrineSignificance) -> (s: Self)
        ensures
            s.name@ == name@,
            s.room@ == room@,
            s.significance == significance,
    {
        Shrine { name: owned(name), room: owned(room), significance }
    }
}

} // verus!
