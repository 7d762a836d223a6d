//! What applying a stored inverse does to a document's value: restoring merged
//! boundaries, moving boundaries back, and the candidate each inverse builds.
use vstd::prelude::*;

use crate::boundary_edits::{move_in_tier, spec_remove_boundary, with_intervals};
use crate::edits::{
    first_control_of, first_tier, spec_insert_point, spec_move_point, spec_remove_point,
    spec_reorder_tier, spec_replace_label, with_tier,
};
use crate::issues::AnnotationError;
use crate::model::{DocView, IntervalView, TierKind, TimeRole, ids_below_max};
use crate::payloads::{BoundaryMove, InverseView, TierMergeView};

verus! {

/// Interval equality as the derived `==` computes it: ids and labels equal,
/// times IEEE-equal.
pub open spec fn interval_ieee_eq(a: IntervalView, b: IntervalView) -> bool {
    &&& a.id == b.id
    &&& a.start_boundary == b.start_boundary
    &&& a.end_boundary == b.end_boundary
    &&& a.xmin.spec_ieee_eq(b.xmin)
    &&& a.xmax.spec_ieee_eq(b.xmax)
    &&& a.label == b.label
}

/// `p` is the first interval equal to `m`.
pub open spec fn is_merged_at(s: Seq<IntervalView>, m: IntervalView, p: int) -> bool {
    &&& 0 <= p < s.len()
    &&& interval_ieee_eq(s[p], m)
    &&& forall|j: int| 0 <= j < p ==> !interval_ieee_eq(s[j], m)
}

/// Position of the first interval equal to `m`.
pub open spec fn merged_position(s: Seq<IntervalView>, m: IntervalView) -> Option<int> {
    if exists|p: int| is_merged_at(s, m, p) {
        Some(choose|p: int| is_merged_at(s, m, p))
    } else {
        None
    }
}

/// Restoring one merge: the merged interval of its tier split back into the
/// two original intervals.
pub open spec fn restore_in_tier(d: DocView, m: TierMergeView) -> Result<DocView, AnnotationError> {
    match first_tier(d.tiers, m.tier) {
        None => Err(AnnotationError::UnknownTier { tier: m.tier }),
        Some(i) => if !(d.tiers[i].tier is Interval) {
            Err(AnnotationError::InvalidTierKind { tier: m.tier, expected: TierKind::Interval })
        } else {
            let s = d.tiers[i].tier.intervals();
            match merged_position(s, m.merged) {
                None => Err(
                    AnnotationError::MergedIntervalNotFound { tier: m.tier, interval: m.merged.id },
                ),
                Some(p) => Ok(
                    with_tier(
                        d,
                        i,
                        with_intervals(
                            d.tiers[i].tier,
                            s.subrange(0, p) + seq![m.left, m.right] + s.subrange(
                                p + 1,
                                s.len() as int,
                            ),
                        ),
                    ),
                ),
            }
        },
    }
}

/// Restoring each merge in turn.
pub open spec fn restore_all(d: DocView, ms: Seq<TierMergeView>) -> Result<DocView, AnnotationError>
    decreases ms.len(),
{
    if ms.len() == 0 {
        Ok(d)
    } else {
        match restore_in_tier(d, ms[0]) {
            Err(e) => Err(e),
            Ok(d2) => restore_all(d2, ms.drop_first()),
        }
    }
}

/// Every document a sequence of restores passes through keeps its ids below
/// the largest `u64`, so the generators can be recomputed after each step.
pub open spec fn restores_in_range(d: DocView, ms: Seq<TierMergeView>) -> bool
    decreases ms.len(),
{
    if ms.len() == 0 {
        true
    } else {
        match restore_in_tier(d, ms[0]) {
            Err(_) => true,
            Ok(d2) => ids_below_max(d2.tiers) && restores_in_range(d2, ms.drop_first()),
        }
    }
}

/// Moving each recorded boundary back from its new time to its old one; a
/// move that lands on another boundary is refused.
pub open spec fn move_back_all(d: DocView, moves: Seq<BoundaryMove>) -> Result<
    DocView,
    AnnotationError,
>
    decreases moves.len(),
{
    if moves.len() == 0 {
        Ok(d)
    } else {
        let mv = moves[0];
        match first_tier(d.tiers, mv.tier) {
            None => Err(AnnotationError::UnknownTier { tier: mv.tier }),
            Some(i) => if !(d.tiers[i].tier is Interval) {
                Err(
                    AnnotationError::InvalidTierKind {
                        tier: d.tiers[i].id,
                        expected: TierKind::Interval,
                    },
                )
            } else {
                match move_in_tier(d.tiers[i].tier.intervals(), d.tiers[i].id, mv.to, mv.from) {
                    Err(e) => Err(e),
                    Ok((s, done)) => if done.boundary != mv.boundary {
                        Err(AnnotationError::UnknownBoundary { boundary: mv.boundary })
                    } else {
                        move_back_all(
                            with_tier(d, i, with_intervals(d.tiers[i].tier, s)),
                            moves.drop_first(),
                        )
                    },
                }
            },
        }
    }
}

/// The error a label with a control character is refused with.
pub open spec fn control_error(text: Seq<char>) -> Option<AnnotationError> {
    match first_control_of(text) {
        Some(k) => Some(
            AnnotationError::InvalidLabelControl {
                codepoint: vstd::utf8::encode_utf8(text)[k] as u32,
                index: k as usize,
            },
        ),
        None => None,
    }
}

/// The candidate document applying an inverse builds before the integrity
/// check, or the error that stops it first.
pub open spec fn spec_apply_inverse(d: DocView, inv: InverseView) -> Result<
    DocView,
    AnnotationError,
> {
    match inv {
        InverseView::RemoveBoundary { boundary } => match spec_remove_boundary(d, boundary) {
            Err(e) => Err(e),
            Ok((c, _)) => Ok(c),
        },
        InverseView::MoveBoundaries { moves } => move_back_all(d, moves),
        InverseView::RestoreMergedBoundary { merges } => restore_all(d, merges),
        InverseView::SetLabel { target, text } => match control_error(text) {
            Some(e) => Err(e),
            None => match spec_replace_label(d, target, text) {
                Err(e) => Err(e),
                Ok((c, _)) => Ok(c),
            },
        },
        InverseView::RemovePoint { point } => match spec_remove_point(d, point) {
            Err(e) => Err(e),
            Ok((c, _, _)) => Ok(c),
        },
        InverseView::RestorePoint { tier, point } => spec_insert_point(d, tier, point),
        InverseView::MovePoint { point, to } => if !to.spec_is_finite() {
            Err(AnnotationError::NonFiniteTime { value: to, context: TimeRole::Point })
        } else {
            match spec_move_point(d, point, to) {
                Err(e) => Err(e),
                Ok((c, _, _)) => Ok(c),
            }
        },
        InverseView::ReorderTier { tier, to_index } => match spec_reorder_tier(d, tier, to_index) {
            Err(e) => Err(e),
            Ok((c, _, _)) => Ok(c),
        },
    }
}

/// What applying an inverse needs so that recomputing the identifier
/// generators cannot overflow.
pub open spec fn inverse_in_range(d: DocView, inv: InverseView) -> bool {
    match inv {
        InverseView::RestoreMergedBoundary { merges } => restores_in_range(d, merges),
        InverseView::RestorePoint { tier, point } => spec_insert_point(d, tier, point) matches Ok(
            c,
        ) ==> ids_below_max(c.tiers),
        _ => true,
    }
}

} // verus!
