//! Where a point lies relative to a rectangle of coordinates.
//!
//! The library does not compute with coordinates. A caller compares latitude
//! and longitude of a point with the four bounds of the rectangle and hands
//! over the outcomes; what follows from them is decided here.
use vstd::prelude::*;

verus! {

/// Compass directions related to grid bounds.
#[derive(Debug, Clone, Copy, PartialEq, Eq, Structural)]
pub enum CompassDirection {
    North,
    NorthEast,
    East,
    SouthEast,
    South,
    SouthWest,
    West,
    NorthWest,
    Zero,
}

/// The outcome of comparing a coordinate with a bound. Two coordinates need
/// not be comparable: one of them may be no number.
#[derive(Debug, Clone, Copy, PartialEq, Eq, Structural)]
pub enum Side {
    Below,
    At,
    Above,
    Unordered,
}

/// A point compared with the four bounds of a rectangle.
#[derive(Debug, Clone, Copy, PartialEq, Eq, Structural)]
pub struct Placement {
    pub lat_to_min: Side,
    pub lat_to_max: Side,
    pub lon_to_min: Side,
    pub lon_to_max: Side,
}

impl Placement {
    /// The latitude is neither below the least nor above the greatest.
    pub open spec fn lat_within(self) -> bool {
        (self.lat_to_min == Side::At || self.lat_to_min == Side::Above) && (self.lat_to_max
            == Side::At || self.lat_to_max == Side::Below)
    }

    /// The longitude is neither below the least nor above the greatest.
    pub open spec fn lon_within(self) -> bool {
        (self.lon_to_min == Side::At || self.lon_to_min == Side::Above) && (self.lon_to_max
            == Side::At || self.lon_to_max == Side::Below)
    }

    /// The point lies in the rectangle, its border included.
    pub open spec fn inside(self) -> bool {
        self.lat_within() && self.lon_within()
    }

    /// The direction in which the point lies as seen from the rectangle, and
    /// `Zero` for a point in the rectangle or not comparable with it. Where
    /// the least bound exceeds the greatest, several directions may apply;
    /// the first in the order north, north-east, east, south-east, south,
    /// south-west, west, north-west is taken.
    pub open spec fn direction(self) -> CompassDirection {
        let north = self.lat_to_max == Side::Above;
        let south = self.lat_to_min == Side::Below;
        let east = self.lon_to_max == Side::Above;
        let west = self.lon_to_min == Side::Below;
        if self.lon_within() && north {
            CompassDirection::North
        } else if east && north {
            CompassDirection::NorthEast
        } else if east && self.lat_within() {
            CompassDirection::East
        } else if east && south {
            CompassDirection::SouthEast
        } else if self.lon_within() && south {
            CompassDirection::South
        } else if west && south {
            CompassDirection::SouthWest
        } else if west && self.lat_within() {
            CompassDirection::West
        } else if west && north {
            CompassDirection::NorthWest
        } else {
            CompassDirection::Zero
        }
    }

    /// Returns true if the point is located within the rectangle.
    pub fn is_located_in(&self) -> (inside: bool)
        ensures
            inside == self.inside(),
    {
        is_within(self.lat_to_min, self.lat_to_max) && is_within(self.lon_to_min, self.lon_to_max)
    }

    /// Get the compass direction of the point relative to the rectangle.
    pub fn get_relative_compass_direction(&self) -> (direction: CompassDirection)
        ensures
            direction == self.direction(),
    {
        let lat_within = is_within(self.lat_to_min, self.lat_to_max);
        let lon_within = is_within(self.lon_to_min, self.lon_to_max);
        let north = self.lat_to_max == Side::Above;
        let south = self.lat_to_min == Side::Below;
        let east = self.lon_to_max == Side::Above;
        let west = self.lon_to_min == Side::Below;
        if lon_within && north {
            CompassDirection::North
        } else if east && north {
            CompassDirection::NorthEast
        } else if east && lat_within {
            CompassDirection::East
        } else if east && south {
            CompassDirection::SouthEast
        } else if lon_within && south {
            CompassDirection::South
        } else if west && south {
            CompassDirection::SouthWest
        } else if west && lat_within {
            CompassDirection::West
        } else if west && north {
            CompassDirection::NorthWest
        } else {
            CompassDirection::Zero
        }
    }
}

/// A coordinate is at or above the least and at or below the greatest.
fn is_within(to_min: Side, to_max: Side) -> (within: bool)
    ensures
        within == ((to_min == Side::At || to_min == Side::Above) && (to_max == Side::At || to_max
            == Side::Below)),
{
    (to_min == Side::At || to_min == Side::Above) && (to_max == Side::At || to_max == Side::Below)
}

} // verus!
