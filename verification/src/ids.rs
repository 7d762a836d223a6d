//! Stable identifiers of tiers, boundaries, intervals and points.
use vstd::prelude::*;

verus! {

/// Stable identifier for a tier in an annotation document.
#[derive(Clone, Copy, Debug, Hash, Eq, Ord, PartialEq, PartialOrd, Structural)]
pub struct TierId(pub u64);

impl TierId {
    /// Wraps a raw value as a tier identifier for importer-built documents.
    pub fn new(value: u64) -> (id: Self)
        ensures
            id.0 == value,
    {
        TierId(value)
    }

    /// Returns the numeric value carried by this stable identifier.
    pub fn get(self) -> (value: u64)
        ensures
            value == self.0,
    {
        self.0
    }
}

/// Stable identifier for a boundary shared by adjacent intervals.
#[derive(Clone, Copy, Debug, Hash, Eq, Ord, PartialEq, PartialOrd, Structural)]
pub struct BoundaryId(pub u64);

impl BoundaryId {
    /// Wraps a raw value as a boundary identifier for importer-built documents.
    pub fn new(value: u64) -> (id: Self)
        ensures
            id.0 == value,
    {
        BoundaryId(value)
    }

    /// Returns the numeric value carried by this stable identifier.
    pub fn get(self) -> (value: u64)
        ensures
            value == self.0,
    {
        self.0
    }
}

/// Stable identifier for an interval.
#[derive(Clone, Copy, Debug, Hash, Eq, Ord, PartialEq, PartialOrd, Structural)]
pub struct IntervalId(pub u64);

impl IntervalId {
    /// Wraps a raw value as an interval identifier for importer-built documents.
    pub fn new(value: u64) -> (id: Self)
        ensures
            id.0 == value,
    {
        IntervalId(value)
    }

    /// Returns the numeric value carried by this stable identifier.
    pub fn get(self) -> (value: u64)
        ensures
            value == self.0,
    {
        self.0
    }
}

/// Stable identifier for a point annotation.
#[derive(Clone, Copy, Debug, Hash, Eq, Ord, PartialEq, PartialOrd, Structural)]
pub struct PointId(pub u64);

impl PointId {
    /// Wraps a raw value as a point identifier for importer-built documents.
    pub fn new(value: u64) -> (id: Self)
        ensures
            id.0 == value,
    {
        PointId(value)
    }

    /// Returns the numeric value carried by this stable identifier.
    pub fn get(self) -> (value: u64)
        ensures
            value == self.0,
    {
        self.0
    }
}

} // verus!
