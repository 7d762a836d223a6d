//! Results of successful edits and the stored inverses that undo them.
use vstd::prelude::*;

use crate::ids::{BoundaryId, PointId, TierId};
use crate::model::{Interval, IntervalView, LabelTarget, Point, PointView};
use crate::time::Time;

verus! {

/// One boundary movement inside a single interval tier.
#[derive(Clone, Copy, Debug, PartialEq, Structural)]
pub struct BoundaryMove {
    /// Tier containing the boundary.
    pub tier: TierId,
    /// Boundary that moved.
    pub boundary: BoundaryId,
    /// Previous boundary time in seconds.
    pub from: Time,
    /// New boundary time in seconds.
    pub to: Time,
}

/// Successful boundary movement payload.
#[derive(Debug)]
pub struct Moved {
    /// Boundary movements performed by the call.
    pub moves: Vec<BoundaryMove>,
}

/// Merge performed within one interval tier.
#[derive(Debug)]
pub struct TierMerge {
    /// Tier where the merge occurred.
    pub tier: TierId,
    /// Boundary removed by the merge.
    pub boundary: BoundaryId,
    /// Removed boundary time in seconds.
    pub at: Time,
    /// Left interval before the merge.
    pub left: Interval,
    /// Right interval before the merge.
    pub right: Interval,
    /// Merged interval after the boundary was removed.
    pub merged: Interval,
}

/// Successful boundary removal payload.
#[derive(Debug)]
pub struct Merged {
    /// Per-tier merges performed by the call.
    pub merges: Vec<TierMerge>,
}

/// Successful label replacement payload.
#[derive(Debug)]
pub struct LabelChange {
    /// Label target that was changed.
    pub target: LabelTarget,
    /// Previous label text.
    pub old_text: String,
    /// New label text.
    pub new_text: String,
}

/// Successful point insertion payload.
#[derive(Debug)]
pub struct PointInsertion {
    /// Tier that received the point.
    pub tier: TierId,
    /// Inserted point, carrying its allocated identifier.
    pub point: Point,
}

/// Successful point movement payload.
#[derive(Clone, Copy, Debug, PartialEq, Structural)]
pub struct PointMoved {
    /// Tier containing the point.
    pub tier: TierId,
    /// Point that moved.
    pub point: PointId,
    /// Previous point time in seconds.
    pub from: Time,
    /// New point time in seconds.
    pub to: Time,
}

/// Successful point removal payload.
#[derive(Debug)]
pub struct PointRemoval {
    /// Tier that held the point.
    pub tier: TierId,
    /// Removed point, carrying its identifier, time, and label.
    pub point: Point,
}

/// Successful tier reorder payload.
#[derive(Clone, Copy, Debug, PartialEq, Structural)]
pub struct TierReorder {
    /// Tier that moved.
    pub tier: TierId,
    /// Index the tier occupied before the move.
    pub from_index: usize,
    /// Index the tier occupies after the move.
    pub to_index: usize,
}

/// Stored inverse mutation that can undo a successful mutator call.
#[allow(inconsistent_fields)]
#[derive(Debug)]
pub enum InverseMutation {
    /// Undo an insertion by removing the inserted boundary.
    RemoveBoundary { boundary: BoundaryId },
    /// Undo a movement by restoring every listed boundary to its previous time.
    MoveBoundaries { moves: Vec<BoundaryMove> },
    /// Undo a merge by restoring the removed boundary and both original intervals.
    RestoreMergedBoundary { merged: Merged },
    /// Undo a label replacement by writing the previous label text.
    SetLabel { target: LabelTarget, text: String },
    /// Undo a point insertion by removing the inserted point.
    RemovePoint { point: PointId },
    /// Undo a point removal by restoring the exact point at its sorted position.
    RestorePoint { tier: TierId, point: Point },
    /// Undo a point movement by returning the point to its previous time.
    MovePoint { point: PointId, to: Time },
    /// Undo a tier reorder by moving the tier back to its previous index.
    ReorderTier { tier: TierId, to_index: usize },
}

/// Value of a tier merge.
pub struct TierMergeView {
    pub tier: TierId,
    pub boundary: BoundaryId,
    pub at: Time,
    pub left: IntervalView,
    pub right: IntervalView,
    pub merged: IntervalView,
}

impl View for TierMerge {
    type V = TierMergeView;

    open spec fn view(&self) -> TierMergeView {
        TierMergeView {
            tier: self.tier,
            boundary: self.boundary,
            at: self.at,
            left: self.left@,
            right: self.right@,
            merged: self.merged@,
        }
    }
}

/// The values of a sequence of merges.
pub open spec fn merges_view(s: Seq<TierMerge>) -> Seq<TierMergeView> {
    s.map_values(|m: TierMerge| m@)
}

/// Value of an inverse mutation.
#[allow(inconsistent_fields)]
pub enum InverseView {
    RemoveBoundary { boundary: BoundaryId },
    MoveBoundaries { moves: Seq<BoundaryMove> },
    RestoreMergedBoundary { merges: Seq<TierMergeView> },
    SetLabel { target: LabelTarget, text: Seq<char> },
    RemovePoint { point: PointId },
    RestorePoint { tier: TierId, point: PointView },
    MovePoint { point: PointId, to: Time },
    ReorderTier { tier: TierId, to_index: int },
}

impl View for InverseMutation {
    type V = InverseView;

    open spec fn view(&self) -> InverseView {
        match self {
            InverseMutation::RemoveBoundary { boundary } => InverseView::RemoveBoundary {
                boundary: *boundary,
            },
            InverseMutation::MoveBoundaries { moves } => InverseView::MoveBoundaries {
                moves: moves@,
            },
            InverseMutation::RestoreMergedBoundary { merged } => InverseView::RestoreMergedBoundary {
                merges: merges_view(merged.merges@),
            },
            InverseMutation::SetLabel { target, text } => InverseView::SetLabel {
                target: *target,
                text: text@,
            },
            InverseMutation::RemovePoint { point } => InverseView::RemovePoint { point: *point },
            InverseMutation::RestorePoint { tier, point } => InverseView::RestorePoint {
                tier: *tier,
                point: point@,
            },
            InverseMutation::MovePoint { point, to } => InverseView::MovePoint {
                point: *point,
                to: *to,
            },
            InverseMutation::ReorderTier { tier, to_index } => InverseView::ReorderTier {
                tier: *tier,
                to_index: *to_index as int,
            },
        }
    }
}

impl TierMerge {
    /// A copy carrying the same value.
    pub fn duplicate(&self) -> (r: TierMerge)
        ensures
            r@ == self@,
    {
        TierMerge {
            tier: self.tier,
            boundary: self.boundary,
            at: self.at,
            left: self.left.duplicate(),
            right: self.right.duplicate(),
            merged: self.merged.duplicate(),
        }
    }
}

impl Merged {
    /// A copy carrying the same value.
    pub fn duplicate(&self) -> (r: Merged)
        ensures
            merges_view(r.merges@) == merges_view(self.merges@),
    {
        let mut merges: Vec<TierMerge> = Vec::new();
        let mut k: usize = 0;
        while k < self.merges.len()
            invariant
                k <= self.merges.len(),
                merges_view(merges@) =~= merges_view(self.merges@).take(k as int),
            decreases self.merges.len() - k,
        {
            let d = self.merges[k].duplicate();
            let ghost prev = merges@;
            merges.push(d);
            assert(merges_view(merges@) =~= merges_view(prev).push(d@));
            assert(merges_view(self.merges@).take(k + 1) =~= merges_view(self.merges@).take(
                k as int,
            ).push(self.merges@[k as int]@));
            k += 1;
        }
        assert(merges_view(self.merges@).take(self.merges.len() as int) =~= merges_view(
            self.merges@,
        ));
        Merged { merges }
    }

    /// Builds the inverse operation for a successful `Annotation::remove_boundary` call.
    ///
    /// The payload stores both original intervals, labels, identifiers, and the
    /// removed boundary, so applying the inverse restores the exact tier content.
    pub fn inverse(&self) -> (r: InverseMutation)
        ensures
            r@ == (InverseView::RestoreMergedBoundary { merges: merges_view(self.merges@) }),
    {
        InverseMutation::RestoreMergedBoundary { merged: self.duplicate() }
    }
}

/// A copy of a sequence of boundary moves.
pub fn copy_moves(s: &Vec<BoundaryMove>) -> (r: Vec<BoundaryMove>)
    ensures
        r@ == s@,
{
    let mut r: Vec<BoundaryMove> = Vec::new();
    let mut k: usize = 0;
    while k < s.len()
        invariant
            k <= s.len(),
            r@ =~= s@.take(k as int),
        decreases s.len() - k,
    {
        r.push(s[k]);
        assert(s@.take(k + 1) =~= s@.take(k as int).push(s@[k as int]));
        k += 1;
    }
    assert(s@.take(s.len() as int) =~= s@);
    r
}

impl Moved {
    /// Builds the inverse operation for a successful `Annotation::move_boundary` call.
    ///
    /// The original call's `id`, `to`, and `mode` arguments are represented by
    /// the stored movement set, including aligned peer boundaries.
    pub fn inverse(&self) -> (r: InverseMutation)
        ensures
            r@ == (InverseView::MoveBoundaries { moves: self.moves@ }),
    {
        InverseMutation::MoveBoundaries { moves: copy_moves(&self.moves) }
    }
}

impl BoundaryId {
    /// Builds the inverse operation for a successful `Annotation::insert_boundary` call.
    ///
    /// The boundary identifier locates the split, so applying the inverse
    /// removes it, together with the aligned boundaries inserted alongside it.
    pub fn inverse_insert(self) -> (r: InverseMutation)
        ensures
            r@ == (InverseView::RemoveBoundary { boundary: self }),
    {
        InverseMutation::RemoveBoundary { boundary: self }
    }
}

impl LabelChange {
    /// Builds the inverse operation for a successful `Annotation::set_label` call.
    ///
    /// Applying the inverse writes the previous label text back.
    pub fn inverse(&self) -> (r: InverseMutation)
        ensures
            r@ == (InverseView::SetLabel { target: self.target, text: self.old_text@ }),
    {
        InverseMutation::SetLabel { target: self.target, text: self.old_text.clone() }
    }
}

impl PointInsertion {
    /// Builds the inverse operation for a successful `Annotation::insert_point` call.
    ///
    /// Applying the inverse removes the inserted point by its allocated id.
    pub fn inverse(&self) -> (r: InverseMutation)
        ensures
            r@ == (InverseView::RemovePoint { point: self.point.id }),
    {
        InverseMutation::RemovePoint { point: self.point.id }
    }
}

impl PointMoved {
    /// Builds the inverse operation for a successful `Annotation::move_point` call.
    ///
    /// Applying the inverse returns the point to its previous time.
    pub fn inverse(&self) -> (r: InverseMutation)
        ensures
            r@ == (InverseView::MovePoint { point: self.point, to: self.from }),
    {
        InverseMutation::MovePoint { point: self.point, to: self.from }
    }
}

impl PointRemoval {
    /// Builds the inverse operation for a successful `Annotation::remove_point` call.
    ///
    /// Applying the inverse restores the exact point at its time-sorted position.
    pub fn inverse(&self) -> (r: InverseMutation)
        ensures
            r@ == (InverseView::RestorePoint { tier: self.tier, point: self.point@ }),
    {
        InverseMutation::RestorePoint { tier: self.tier, point: self.point.duplicate() }
    }
}

impl TierReorder {
    /// Builds the inverse operation for a successful `Annotation::reorder_tier` call.
    ///
    /// Applying the inverse moves the tier back to the index it left.
    pub fn inverse(&self) -> (r: InverseMutation)
        ensures
            r@ == (InverseView::ReorderTier { tier: self.tier, to_index: self.from_index as int }),
    {
        InverseMutation::ReorderTier { tier: self.tier, to_index: self.from_index }
    }
}

impl InverseMutation {
    /// A copy carrying the same value.
    pub fn duplicate(&self) -> (r: InverseMutation)
        ensures
            r@ == self@,
    {
        match self {
            InverseMutation::RemoveBoundary { boundary } => InverseMutation::RemoveBoundary {
                boundary: *boundary,
            },
            InverseMutation::MoveBoundaries { moves } => InverseMutation::MoveBoundaries {
                moves: copy_moves(moves),
            },
            InverseMutation::RestoreMergedBoundary { merged } => {
                InverseMutation::RestoreMergedBoundary { merged: merged.duplicate() }
            },
            InverseMutation::SetLabel { target, text } => InverseMutation::SetLabel {
                target: *target,
                text: text.clone(),
            },
            InverseMutation::RemovePoint { point } => InverseMutation::RemovePoint {
                point: *point,
            },
            InverseMutation::RestorePoint { tier, point } => InverseMutation::RestorePoint {
                tier: *tier,
                point: point.duplicate(),
            },
            InverseMutation::MovePoint { point, to } => InverseMutation::MovePoint {
                point: *point,
                to: *to,
            },
            InverseMutation::ReorderTier { tier, to_index } => InverseMutation::ReorderTier {
                tier: *tier,
                to_index: *to_index,
            },
        }
    }
}

} // verus!
