//! Integrity issues found by validation and errors raised by mutations.
use vstd::prelude::*;

use crate::ids::{BoundaryId, IntervalId, PointId, TierId};
use crate::model::{RelationKind, TierKind, TimeRole};
use crate::time::Time;

verus! {

/// Integrity issue found during document validation.
#[allow(inconsistent_fields)]
#[derive(Clone, Copy, Debug, PartialEq, Structural)]
pub enum IntegrityIssue {
    /// Document time domain is empty or reversed.
    InvalidTimeDomain { xmin: Time, xmax: Time },
    /// A time value is not finite.
    NonFiniteTime { value: Time, context: TimeRole },
    /// A tier identifier appears more than once.
    DuplicateTierId { tier: TierId },
    /// An interval identifier appears more than once.
    DuplicateIntervalId { tier: TierId, interval: IntervalId },
    /// A point identifier appears more than once.
    DuplicatePointId { tier: TierId, point: PointId },
    /// A boundary identifier appears in more than one logical boundary position.
    DuplicateBoundaryId { tier: TierId, boundary: BoundaryId },
    /// Interval tier contains no intervals.
    IntervalTierEmpty { tier: TierId },
    /// First interval does not begin at the document start.
    DomainStartMismatch { tier: TierId, found: Time, expected: Time },
    /// Last interval does not end at the document end.
    DomainEndMismatch { tier: TierId, found: Time, expected: Time },
    /// Interval boundaries are reversed or equal.
    IntervalUnsorted { tier: TierId, previous: Time, next: Time },
    /// Adjacent intervals overlap.
    IntervalOverlap {
        tier: TierId,
        left: IntervalId,
        right: IntervalId,
        overlap_start: Time,
        overlap_end: Time,
    },
    /// Adjacent intervals leave an uncovered gap.
    IntervalGap {
        tier: TierId,
        left: IntervalId,
        right: IntervalId,
        gap_start: Time,
        gap_end: Time,
    },
    /// Adjacent intervals do not share the same boundary identifier.
    BoundaryContinuityMismatch { tier: TierId, left: IntervalId, right: IntervalId },
    /// Point time is outside the document domain.
    PointOutsideDomain { tier: TierId, point: PointId, time: Time },
    /// Point times are out of order.
    PointUnsorted { tier: TierId, previous: PointId, next: PointId },
    /// Two adjacent points have the same time.
    DuplicatePointTime { tier: TierId, previous: PointId, next: PointId, time: Time },
    /// Tier relation points to a missing tier.
    MissingTierRelationTarget { tier: TierId, target: TierId },
    /// Tier relation is attached to an unsupported tier kind.
    RelationTierKindMismatch { tier: TierId, target: TierId, relation: RelationKind },
    /// An aligned boundary is missing from the related tier.
    AlignedBoundaryMissing { tier: TierId, target: TierId, boundary: BoundaryId, time: Time },
    /// A child interval is not nested inside any parent interval.
    OrphanChildInterval {
        tier: TierId,
        parent: TierId,
        interval: IntervalId,
        xmin: Time,
        xmax: Time,
    },
}

/// Errors produced by annotation mutation and validation guards.
#[derive(Clone, Copy, Debug, PartialEq, Structural)]
pub enum AnnotationError {
    /// Document time domain is empty or reversed.
    InvalidTimeDomain { xmin: Time, xmax: Time },
    /// A time value is not finite.
    NonFiniteTime { value: Time, context: TimeRole },
    /// Tier identifier is unknown.
    UnknownTier { tier: TierId },
    /// Boundary identifier is unknown.
    UnknownBoundary { boundary: BoundaryId },
    /// No boundary exists at the requested time in the tier.
    UnknownBoundaryAt { tier: TierId, at: Time },
    /// Interval identifier is unknown.
    UnknownInterval { interval: IntervalId },
    /// Point identifier is unknown.
    UnknownPoint { point: PointId },
    /// Tier has the wrong kind for the requested operation.
    InvalidTierKind { tier: TierId, expected: TierKind },
    /// Boundary insertion attempted to reuse an existing boundary time.
    BoundaryAlreadyExists { tier: TierId, at: Time },
    /// Boundary insertion time is outside every interval.
    BoundaryOutsideInterval { tier: TierId, at: Time },
    /// Boundary movement would collapse an adjacent interval.
    BoundaryWouldCollapseInterval { tier: TierId, at: Time },
    /// Boundary removal attempted to remove a domain edge.
    BoundaryAtDomainEdge { tier: TierId, at: Time },
    /// An aligned boundary was moved with `AlignMode::SingleTier`.
    AlignedBoundaryRequiresLinkedMode { boundary: BoundaryId },
    /// Label text contains a rejected control character.
    InvalidLabelControl { codepoint: u32, index: usize },
    /// A candidate mutation would leave the document invalid.
    IntegrityViolation(IntegrityIssue),
    /// Merged interval stored in an inverse operation was not found.
    MergedIntervalNotFound { tier: TierId, interval: IntervalId },
}

} // verus!
