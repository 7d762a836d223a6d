//! What each document edit does to the document's value, stated over views.
//!
//! Each function describes the candidate document an edit builds before the
//! integrity check, or the error that stops it first. The edit commits the
//! candidate exactly when the candidate is valid.
use vstd::prelude::*;

use crate::ids::{BoundaryId, IntervalId, PointId, TierId};
use crate::issues::AnnotationError;
use crate::model::{
    DocView, IntervalView, LabelTarget, PointView, SlotView, TierKind, TierRelation, TierView,
};
use crate::time::Time;

verus! {

/// `k` is the first position of `s` whose tier id is `id`.
pub open spec fn is_first_tier(s: Seq<SlotView>, id: TierId, k: int) -> bool {
    &&& 0 <= k < s.len()
    &&& s[k].id == id
    &&& forall|j: int| 0 <= j < k ==> s[j].id != id
}

/// Position of the first tier carrying `id`.
pub open spec fn first_tier(s: Seq<SlotView>, id: TierId) -> Option<int> {
    if exists|k: int| is_first_tier(s, id, k) {
        Some(choose|k: int| is_first_tier(s, id, k))
    } else {
        None
    }
}

/// `k` is the first position of `s` whose interval id is `id`.
pub open spec fn is_first_interval(s: Seq<IntervalView>, id: IntervalId, k: int) -> bool {
    &&& 0 <= k < s.len()
    &&& s[k].id == id
    &&& forall|j: int| 0 <= j < k ==> s[j].id != id
}

/// Position of the first interval carrying `id`.
pub open spec fn first_interval(s: Seq<IntervalView>, id: IntervalId) -> Option<int> {
    if exists|k: int| is_first_interval(s, id, k) {
        Some(choose|k: int| is_first_interval(s, id, k))
    } else {
        None
    }
}

/// `k` is the first position of `s` whose point id is `id`.
pub open spec fn is_first_point(s: Seq<PointView>, id: PointId, k: int) -> bool {
    &&& 0 <= k < s.len()
    &&& s[k].id == id
    &&& forall|j: int| 0 <= j < k ==> s[j].id != id
}

/// Position of the first point carrying `id`.
pub open spec fn first_point(s: Seq<PointView>, id: PointId) -> Option<int> {
    if exists|k: int| is_first_point(s, id, k) {
        Some(choose|k: int| is_first_point(s, id, k))
    } else {
        None
    }
}

/// A point tier that holds a point carrying `id`.
pub open spec fn holds_point(t: TierView, id: PointId) -> bool {
    t is Point && exists|k: int| 0 <= k < t.points().len() && t.points()[k].id == id
}

/// `k` is the first tier position holding the point `id`.
pub open spec fn is_first_point_tier(s: Seq<SlotView>, id: PointId, k: int) -> bool {
    &&& 0 <= k < s.len()
    &&& holds_point(s[k].tier, id)
    &&& forall|j: int| 0 <= j < k ==> !holds_point(s[j].tier, id)
}

/// Position of the first tier holding the point `id`.
pub open spec fn first_point_tier(s: Seq<SlotView>, id: PointId) -> Option<int> {
    if exists|k: int| is_first_point_tier(s, id, k) {
        Some(choose|k: int| is_first_point_tier(s, id, k))
    } else {
        None
    }
}

/// A control byte: C0 controls and `DEL`. In UTF-8 these bytes only ever
/// encode the control characters themselves.
pub open spec fn is_control_byte(b: u8) -> bool {
    b <= 0x1f || b == 0x7f
}

/// `k` is the first position of a control byte in `bytes`.
pub open spec fn is_first_control(bytes: Seq<u8>, k: int) -> bool {
    &&& 0 <= k < bytes.len()
    &&& is_control_byte(bytes[k])
    &&& forall|j: int| 0 <= j < k ==> !is_control_byte(bytes[j])
}

/// Whether a label's UTF-8 bytes hold no control character.
pub open spec fn label_clean(bytes: Seq<u8>) -> bool {
    forall|j: int| 0 <= j < bytes.len() ==> !is_control_byte(#[trigger] bytes[j])
}

/// The tier payload with the label of interval `k` replaced.
pub open spec fn relabel_interval(t: TierView, k: int, text: Seq<char>) -> TierView {
    match t {
        TierView::Interval { name, intervals } => TierView::Interval {
            name,
            intervals: intervals.update(k, IntervalView { label: text, ..intervals[k] }),
        },
        TierView::Point { .. } => t,
    }
}

/// The tier payload with the label of point `k` replaced.
pub open spec fn relabel_point(t: TierView, k: int, text: Seq<char>) -> TierView {
    match t {
        TierView::Point { name, points } => TierView::Point {
            name,
            points: points.update(k, PointView { label: text, ..points[k] }),
        },
        TierView::Interval { .. } => t,
    }
}

/// The document with tier `i` holding payload `t`.
pub open spec fn with_tier(d: DocView, i: int, t: TierView) -> DocView {
    DocView { tiers: d.tiers.update(i, SlotView { tier: t, ..d.tiers[i] }), ..d }
}

/// Replacing a label: the new document and the previous label text.
pub open spec fn spec_replace_label(d: DocView, target: LabelTarget, text: Seq<char>) -> Result<
    (DocView, Seq<char>),
    AnnotationError,
> {
    match target {
        LabelTarget::Interval { tier, interval } => match first_tier(d.tiers, tier) {
            None => Err(AnnotationError::UnknownTier { tier }),
            Some(i) => if !(d.tiers[i].tier is Interval) {
                Err(AnnotationError::InvalidTierKind { tier, expected: TierKind::Interval })
            } else {
                match first_interval(d.tiers[i].tier.intervals(), interval) {
                    None => Err(AnnotationError::UnknownInterval { interval }),
                    Some(k) => Ok(
                        (
                            with_tier(d, i, relabel_interval(d.tiers[i].tier, k, text)),
                            d.tiers[i].tier.intervals()[k].label,
                        ),
                    ),
                }
            },
        },
        LabelTarget::Point { tier, point } => match first_tier(d.tiers, tier) {
            None => Err(AnnotationError::UnknownTier { tier }),
            Some(i) => if !(d.tiers[i].tier is Point) {
                Err(AnnotationError::InvalidTierKind { tier, expected: TierKind::Point })
            } else {
                match first_point(d.tiers[i].tier.points(), point) {
                    None => Err(AnnotationError::UnknownPoint { point }),
                    Some(k) => Ok(
                        (
                            with_tier(d, i, relabel_point(d.tiers[i].tier, k, text)),
                            d.tiers[i].tier.points()[k].label,
                        ),
                    ),
                }
            },
        },
    }
}

/// `k` is where a point at `time` enters `s`: the first point not earlier
/// than `time`.
pub open spec fn is_insert_position(s: Seq<PointView>, time: Time, k: int) -> bool {
    &&& 0 <= k <= s.len()
    &&& (k < s.len() ==> !s[k].time.spec_lt(time))
    &&& forall|j: int| 0 <= j < k ==> s[j].time.spec_lt(time)
}

/// Position a point at `time` takes in `s`.
pub open spec fn insert_position(s: Seq<PointView>, time: Time) -> int {
    choose|k: int| is_insert_position(s, time, k)
}

/// The point tier with `p` inserted at its time-sorted position.
pub open spec fn tier_with_point(t: TierView, p: PointView) -> TierView {
    match t {
        TierView::Point { name, points } => TierView::Point {
            name,
            points: points.insert(insert_position(points, p.time), p),
        },
        TierView::Interval { .. } => t,
    }
}

/// Inserting point `p` into tier `tier`.
pub open spec fn spec_insert_point(d: DocView, tier: TierId, p: PointView) -> Result<
    DocView,
    AnnotationError,
> {
    match first_tier(d.tiers, tier) {
        None => Err(AnnotationError::UnknownTier { tier }),
        Some(i) => if !(d.tiers[i].tier is Point) {
            Err(AnnotationError::InvalidTierKind { tier, expected: TierKind::Point })
        } else {
            Ok(with_tier(d, i, tier_with_point(d.tiers[i].tier, p)))
        },
    }
}

/// The tier payload with point `k` moved to `to`.
pub open spec fn retime_point(t: TierView, k: int, to: Time) -> TierView {
    match t {
        TierView::Point { name, points } => TierView::Point {
            name,
            points: points.update(k, PointView { time: to, ..points[k] }),
        },
        TierView::Interval { .. } => t,
    }
}

/// Moving point `id` to `to`: the new document, the tier holding the point and
/// its previous time.
pub open spec fn spec_move_point(d: DocView, id: PointId, to: Time) -> Result<
    (DocView, TierId, Time),
    AnnotationError,
> {
    match first_point_tier(d.tiers, id) {
        None => Err(AnnotationError::UnknownPoint { point: id }),
        Some(i) => {
            let k = first_point(d.tiers[i].tier.points(), id).unwrap();
            Ok(
                (
                    with_tier(d, i, retime_point(d.tiers[i].tier, k, to)),
                    d.tiers[i].id,
                    d.tiers[i].tier.points()[k].time,
                ),
            )
        },
    }
}

/// The tier payload with point `k` removed.
pub open spec fn without_point(t: TierView, k: int) -> TierView {
    match t {
        TierView::Point { name, points } => TierView::Point { name, points: points.remove(k) },
        TierView::Interval { .. } => t,
    }
}

/// Removing point `id`: the new document, the tier that held it, and the point.
pub open spec fn spec_remove_point(d: DocView, id: PointId) -> Result<
    (DocView, TierId, PointView),
    AnnotationError,
> {
    match first_point_tier(d.tiers, id) {
        None => Err(AnnotationError::UnknownPoint { point: id }),
        Some(i) => {
            let k = first_point(d.tiers[i].tier.points(), id).unwrap();
            Ok(
                (
                    with_tier(d, i, without_point(d.tiers[i].tier, k)),
                    d.tiers[i].id,
                    d.tiers[i].tier.points()[k],
                ),
            )
        },
    }
}

/// Moving tier `tier` to position `to_index` (clamped to the last position):
/// the new document and the positions it left and took.
pub open spec fn spec_reorder_tier(d: DocView, tier: TierId, to_index: int) -> Result<
    (DocView, int, int),
    AnnotationError,
> {
    match first_tier(d.tiers, tier) {
        None => Err(AnnotationError::UnknownTier { tier }),
        Some(from) => {
            let to = if to_index < d.tiers.len() - 1 {
                to_index
            } else {
                d.tiers.len() - 1
            };
            Ok(
                (
                    DocView { tiers: d.tiers.remove(from).insert(to, d.tiers[from]), ..d },
                    from,
                    to,
                ),
            )
        },
    }
}

/// The slot `add_interval_tier` appends: one unlabeled interval over the domain
/// with fresh tier, boundary and interval ids.
pub open spec fn new_interval_slot(
    d: DocView,
    name: Seq<char>,
    relation: TierRelation,
    tier: u64,
    boundary: u64,
    interval: u64,
) -> SlotView {
    SlotView {
        id: TierId(tier),
        relation,
        tier: TierView::Interval {
            name,
            intervals: seq![
                IntervalView {
                    id: IntervalId(interval),
                    start_boundary: BoundaryId(boundary),
                    end_boundary: BoundaryId((boundary + 1) as u64),
                    xmin: d.xmin,
                    xmax: d.xmax,
                    label: Seq::empty(),
                },
            ],
        },
    }
}

/// Position of the first label holding a control byte.
pub open spec fn first_dirty_label(labels: Seq<Seq<char>>) -> Option<int> {
    if exists|k: int|
        0 <= k < labels.len() && first_control_of(labels[k]) is Some && forall|j: int|
            0 <= j < k ==> first_control_of(labels[j]) is None {
        Some(
            choose|k: int|
                0 <= k < labels.len() && first_control_of(labels[k]) is Some && forall|j: int|
                    0 <= j < k ==> first_control_of(labels[j]) is None,
        )
    } else {
        None
    }
}

/// Position of the first control byte in the UTF-8 encoding of a label.
pub open spec fn first_control_of(label: Seq<char>) -> Option<int> {
    let bytes = vstd::utf8::encode_utf8(label);
    if exists|k: int| is_first_control(bytes, k) {
        Some(choose|k: int| is_first_control(bytes, k))
    } else {
        None
    }
}

/// The points `add_point_tier` stores, with ids drawn upward from `first`.
pub open spec fn stored_points(points: Seq<(Time, Seq<char>)>, first: int) -> Seq<PointView> {
    Seq::new(
        points.len(),
        |k: int| PointView { id: PointId((first + k) as u64), time: points[k].0, label: points[k].1 },
    )
}

/// The first dirty label is the one found by a scan that saw only clean
/// labels before it.
pub proof fn lemma_first_dirty_at(labels: Seq<Seq<char>>, k: int)
    requires
        0 <= k < labels.len(),
        first_control_of(labels[k]) is Some,
        forall|j: int| 0 <= j < k ==> first_control_of(#[trigger] labels[j]) is None,
    ensures
        first_dirty_label(labels) == Some(k),
{
    let w = choose|w: int|
        0 <= w < labels.len() && first_control_of(labels[w]) is Some && forall|j: int|
            0 <= j < w ==> first_control_of(labels[j]) is None;
    assert(0 <= k < labels.len() && first_control_of(labels[k]) is Some && forall|j: int|
        0 <= j < k ==> first_control_of(labels[j]) is None);
    if w < k {
        assert(first_control_of(labels[w]) is None);
    } else if w > k {
        assert(first_control_of(labels[k]) is None);
    }
}

/// No label is dirty when a scan found every label clean.
pub proof fn lemma_no_dirty(labels: Seq<Seq<char>>)
    requires
        forall|j: int| 0 <= j < labels.len() ==> first_control_of(#[trigger] labels[j]) is None,
    ensures
        first_dirty_label(labels) is None,
{
}

} // verus!
