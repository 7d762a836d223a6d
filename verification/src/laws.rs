//! Laws of the annotation edits: what an inverse gives back, stated over the
//! document values the edits' own contracts use.
use vstd::prelude::*;

use crate::edits::{
    first_interval, first_point, first_point_tier, first_tier, holds_point, is_first_interval,
    is_first_point, is_first_point_tier, is_first_tier, relabel_interval, relabel_point,
    spec_reorder_tier, spec_replace_label, with_tier, spec_move_point, retime_point,
    spec_insert_point, spec_remove_point, insert_position, is_insert_position, tier_with_point,
    without_point,
};
use crate::ids::PointId;
use crate::time::Time;
use crate::model::{PointView, point_ok, tier_content_ok, point_tier_ok, adjacent_points_ok};
use crate::model::{DocView, LabelTarget, SlotView, TierView, tier_ids};
use crate::model::{
    TierRelation, all_boundary_ids, all_interval_ids, all_point_ids, boundary_times_covered,
    fresh_ids, lemma_fresh_push, lemma_no_dup_concat, nested_in, point_ids_of, relation_ok,
    slot_boundary_ids, slot_interval_ids,
};
use crate::edits::{new_interval_slot, stored_points};
use crate::model::{interval_tier_ok, slot_point_ids};
use crate::issues::AnnotationError;
use crate::ids::TierId;
use crate::payloads::InverseView;
use crate::undo::{control_error, spec_apply_inverse};

verus! {

// ----------------------------------------------------------------------------
// Locating by id
// ----------------------------------------------------------------------------

/// The first tier carrying an id is the position a scan stops at.
pub proof fn lemma_first_tier_at(s: Seq<SlotView>, id: TierId, k: int)
    requires
        is_first_tier(s, id, k),
    ensures
        first_tier(s, id) == Some(k),
{
    let c = choose|c: int| is_first_tier(s, id, c);
    assert(is_first_tier(s, id, c));
    if c < k {
        assert(s[c].id != id);
    } else if c > k {
        assert(s[k].id != id);
    }
}

/// Two tier lists with the same ids position every id alike.
pub proof fn lemma_first_tier_same_ids(a: Seq<SlotView>, b: Seq<SlotView>, id: TierId)
    requires
        a.len() == b.len(),
        forall|j: int| 0 <= j < a.len() ==> a[j].id == #[trigger] b[j].id,
    ensures
        first_tier(a, id) == first_tier(b, id),
{
    if first_tier(a, id) is Some {
        let k = choose|k: int| is_first_tier(a, id, k);
        assert(is_first_tier(b, id, k)) by {
            assert forall|j: int| 0 <= j < k implies b[j].id != id by {
                assert(a[j].id == b[j].id);
            }
        }
        lemma_first_tier_at(a, id, k);
        lemma_first_tier_at(b, id, k);
    } else if first_tier(b, id) is Some {
        let k = choose|k: int| is_first_tier(b, id, k);
        assert(is_first_tier(a, id, k)) by {
            assert forall|j: int| 0 <= j < k implies a[j].id != id by {
                assert(a[j].id == b[j].id);
            }
        }
    }
}

/// Replacing the payload of one tier keeps every tier id where it was.
pub proof fn lemma_with_tier_ids(d: DocView, i: int, t: TierView)
    requires
        0 <= i < d.tiers.len(),
    ensures
        with_tier(d, i, t).tiers.len() == d.tiers.len(),
        forall|j: int|
            0 <= j < d.tiers.len() ==> #[trigger] with_tier(d, i, t).tiers[j].id == d.tiers[j].id,
        with_tier(d, i, t).tiers[i].tier == t,
        forall|j: int|
            0 <= j < d.tiers.len() && j != i ==> #[trigger] with_tier(d, i, t).tiers[j]
                == d.tiers[j],
{
}

// ----------------------------------------------------------------------------
// Labels
// ----------------------------------------------------------------------------

/// Writing a label and then writing the previous label back gives back the
/// document: the inverse of a label change restores the document value,
/// provided the previous label holds no control character (an inverse writing
/// it would be refused).
pub proof fn law_set_label_inverse(d: DocView, target: LabelTarget, text: Seq<char>)
    requires
        spec_replace_label(d, target, text) is Ok,
        control_error(spec_replace_label(d, target, text)->Ok_0.1) is None,
    ensures
        spec_apply_inverse(
            spec_replace_label(d, target, text)->Ok_0.0,
            InverseView::SetLabel { target, text: spec_replace_label(d, target, text)->Ok_0.1 },
        ) == Ok::<DocView, crate::issues::AnnotationError>(d),
{
    let (c, old) = spec_replace_label(d, target, text)->Ok_0;
    match target {
        LabelTarget::Interval { tier, interval } => {
            let i = first_tier(d.tiers, tier)->Some_0;
            let s = d.tiers[i].tier.intervals();
            let k = first_interval(s, interval)->Some_0;
            let t2 = relabel_interval(d.tiers[i].tier, k, text);
            lemma_with_tier_ids(d, i, t2);
            lemma_first_tier_same_ids(d.tiers, c.tiers, tier);
            let s2 = c.tiers[i].tier.intervals();
            assert(s2.len() == s.len());
            assert forall|j: int| 0 <= j < s.len() implies s2[j].id == #[trigger] s[j].id by {}
            let w = choose|w: int| is_first_interval(s, interval, w);
            assert(is_first_interval(s2, interval, k)) by {
                assert(is_first_interval(s, interval, k));
                assert forall|j: int| 0 <= j < k implies s2[j].id != interval by {
                    assert(s2[j].id == s[j].id);
                }
            }
            let w2 = choose|w: int| is_first_interval(s2, interval, w);
            if w2 < k {
                assert(s2[w2].id != interval);
            } else if w2 > k {
                assert(s2[k].id != interval);
            }
            assert(first_interval(s2, interval) == Some(k));
            let back = with_tier(c, i, relabel_interval(c.tiers[i].tier, k, old));
            assert(relabel_interval(c.tiers[i].tier, k, old) == d.tiers[i].tier) by {
                assert(s2.update(k, crate::model::IntervalView { label: old, ..s2[k] }) =~= s);
            }
            assert(back.tiers =~= d.tiers);
        },
        LabelTarget::Point { tier, point } => {
            let i = first_tier(d.tiers, tier)->Some_0;
            let s = d.tiers[i].tier.points();
            let k = first_point(s, point)->Some_0;
            let t2 = relabel_point(d.tiers[i].tier, k, text);
            lemma_with_tier_ids(d, i, t2);
            lemma_first_tier_same_ids(d.tiers, c.tiers, tier);
            let s2 = c.tiers[i].tier.points();
            assert(s2.len() == s.len());
            assert forall|j: int| 0 <= j < s.len() implies s2[j].id == #[trigger] s[j].id by {}
            assert(is_first_point(s2, point, k)) by {
                assert(is_first_point(s, point, k));
                assert forall|j: int| 0 <= j < k implies s2[j].id != point by {
                    assert(s2[j].id == s[j].id);
                }
            }
            let w2 = choose|w: int| is_first_point(s2, point, w);
            if w2 < k {
                assert(s2[w2].id != point);
            } else if w2 > k {
                assert(s2[k].id != point);
            }
            assert(first_point(s2, point) == Some(k));
            let back = with_tier(c, i, relabel_point(c.tiers[i].tier, k, old));
            assert(relabel_point(c.tiers[i].tier, k, old) == d.tiers[i].tier) by {
                assert(s2.update(k, crate::model::PointView { label: old, ..s2[k] }) =~= s);
            }
            assert(back.tiers =~= d.tiers);
        },
    }
}

// ----------------------------------------------------------------------------
// Tier order
// ----------------------------------------------------------------------------

/// Distinct tier ids: two positions carrying the same id are the same.
pub proof fn lemma_tier_ids_distinct(d: DocView, a: int, b: int)
    requires
        tier_ids(d.tiers).no_duplicates(),
        0 <= a < d.tiers.len(),
        0 <= b < d.tiers.len(),
        d.tiers[a].id == d.tiers[b].id,
    ensures
        a == b,
{
    assert(tier_ids(d.tiers)[a] == d.tiers[a].id.0);
    assert(tier_ids(d.tiers)[b] == d.tiers[b].id.0);
}

/// Moving a tier and then moving it back to the index it left gives back the
/// document, when tier ids are distinct (as in every valid document).
pub proof fn law_reorder_tier_inverse(d: DocView, tier: TierId, to_index: int)
    requires
        tier_ids(d.tiers).no_duplicates(),
        0 <= to_index,
        spec_reorder_tier(d, tier, to_index) is Ok,
    ensures
        spec_apply_inverse(
            spec_reorder_tier(d, tier, to_index)->Ok_0.0,
            InverseView::ReorderTier { tier, to_index: spec_reorder_tier(d, tier, to_index)->Ok_0.1 },
        ) == Ok::<DocView, crate::issues::AnnotationError>(d),
{
    let (c, from, to) = spec_reorder_tier(d, tier, to_index)->Ok_0;
    let slot = d.tiers[from];
    let n = d.tiers.len();
    assert(is_first_tier(d.tiers, tier, from));
    assert(c.tiers.len() == n);
    assert(c.tiers[to] == slot);
    assert(is_first_tier(c.tiers, tier, to)) by {
        assert forall|j: int| 0 <= j < to implies c.tiers[j].id != tier by {
            if j < from {
                assert(c.tiers[j] == d.tiers[j]);
                if d.tiers[j].id == tier {
                    lemma_tier_ids_distinct(d, j, from);
                }
            } else {
                assert(c.tiers[j] == d.tiers[j + 1]);
                if d.tiers[j + 1].id == tier {
                    lemma_tier_ids_distinct(d, j + 1, from);
                }
            }
        }
    }
    lemma_first_tier_at(c.tiers, tier, to);
    let back = c.tiers.remove(to).insert(from, c.tiers[to]);
    assert(c.tiers.remove(to) =~= d.tiers.remove(from));
    assert(back =~= d.tiers);
}

// ----------------------------------------------------------------------------
// Points
// ----------------------------------------------------------------------------

/// The first point carrying an id is the position a scan stops at.
pub proof fn lemma_first_point_at(s: Seq<PointView>, id: PointId, k: int)
    requires
        is_first_point(s, id, k),
    ensures
        first_point(s, id) == Some(k),
{
    let c = choose|c: int| is_first_point(s, id, c);
    if c < k {
        assert(s[c].id != id);
    } else if c > k {
        assert(s[k].id != id);
    }
}

/// The first tier holding a point is the position a scan stops at.
pub proof fn lemma_first_point_tier_at(s: Seq<SlotView>, id: PointId, k: int)
    requires
        is_first_point_tier(s, id, k),
    ensures
        first_point_tier(s, id) == Some(k),
{
    let c = choose|c: int| is_first_point_tier(s, id, c);
    if c < k {
        assert(!holds_point(s[c].tier, id));
    } else if c > k {
        assert(!holds_point(s[k].tier, id));
    }
}

/// Moving a point and then moving it back to its previous time gives back the
/// document, when the document is valid (so the previous time is finite).
pub proof fn law_move_point_inverse(d: DocView, id: PointId, to: Time)
    requires
        d.valid(),
        spec_move_point(d, id, to) is Ok,
    ensures
        spec_apply_inverse(
            spec_move_point(d, id, to)->Ok_0.0,
            InverseView::MovePoint { point: id, to: spec_move_point(d, id, to)->Ok_0.2 },
        ) == Ok::<DocView, crate::issues::AnnotationError>(d),
{
    let (c, tier, from) = spec_move_point(d, id, to)->Ok_0;
    let i = first_point_tier(d.tiers, id)->Some_0;
    let w = choose|w: int| is_first_point_tier(d.tiers, id, w);
    assert(is_first_point_tier(d.tiers, id, i));
    let s = d.tiers[i].tier.points();
    assert(holds_point(d.tiers[i].tier, id));
    let q = choose|q: int| 0 <= q < s.len() && s[q].id == id;
    assert(exists|q: int| is_first_point(s, id, q)) by {
        let m = choose|m: int| 0 <= m < s.len() && s[m].id == id && forall|j: int|
            0 <= j < m ==> s[j].id != id;
        assert(exists|m: int| 0 <= m < s.len() && s[m].id == id && forall|j: int|
            0 <= j < m ==> s[j].id != id) by {
            lemma_least_point_index(s, id, q);
        }
        assert(is_first_point(s, id, m));
    }
    let k = first_point(s, id)->Some_0;
    assert(is_first_point(s, id, k));
    let t2 = retime_point(d.tiers[i].tier, k, to);
    lemma_with_tier_ids(d, i, t2);
    assert(tier_content_ok(d.xmin, d.xmax, d.tiers[i].tier));
    assert(point_ok(d.xmin, d.xmax, s[k]));
    assert(from.spec_is_finite());
    let s2 = c.tiers[i].tier.points();
    assert(s2 == s.update(k, PointView { time: to, ..s[k] }));
    assert(is_first_point(s2, id, k));
    lemma_first_point_at(s2, id, k);
    assert(is_first_point_tier(c.tiers, id, i)) by {
        assert(holds_point(c.tiers[i].tier, id)) by {
            assert(s2[k].id == id);
        }
        assert forall|j: int| 0 <= j < i implies !holds_point(c.tiers[j].tier, id) by {
            assert(c.tiers[j] == d.tiers[j]);
        }
    }
    lemma_first_point_tier_at(c.tiers, id, i);
    let back = with_tier(c, i, retime_point(c.tiers[i].tier, k, from));
    assert(s2.update(k, PointView { time: from, ..s2[k] }) =~= s);
    assert(back.tiers =~= d.tiers);
}

/// Some position carries `id` when one does: the least such position.
pub proof fn lemma_least_point_index(s: Seq<PointView>, id: PointId, q: int)
    requires
        0 <= q < s.len(),
        s[q].id == id,
    ensures
        exists|m: int|
            0 <= m < s.len() && s[m].id == id && forall|j: int| 0 <= j < m ==> s[j].id != id,
    decreases q,
{
    if exists|j: int| 0 <= j < q && s[j].id == id {
        let j = choose|j: int| 0 <= j < q && s[j].id == id;
        lemma_least_point_index(s, id, j);
    } else {
        assert(0 <= q < s.len() && s[q].id == id && forall|j: int| 0 <= j < q ==> s[j].id != id);
    }
}

/// IEEE `<=` chains on times that are not NaN.
pub proof fn lemma_le_trans(a: Time, b: Time, c: Time)
    requires
        a.spec_le(b),
        b.spec_le(c),
    ensures
        a.spec_le(c),
{
}

/// Points of a valid tier never decrease: each is IEEE-at-most every later one.
pub proof fn lemma_points_sorted(xmin: Time, xmax: Time, s: Seq<PointView>, a: int, b: int)
    requires
        point_tier_ok(xmin, xmax, s),
        0 <= a <= b < s.len(),
    ensures
        s[a].time.spec_le(s[b].time),
    decreases b - a,
{
    if a < b {
        lemma_points_sorted(xmin, xmax, s, a, b - 1);
        assert(point_ok(xmin, xmax, s[b - 1]));
        assert(point_ok(xmin, xmax, s[b]));
        assert(adjacent_points_ok(s[b - 1], s[b]));
        lemma_le_trans(s[a].time, s[b - 1].time, s[b].time);
    } else {
        assert(point_ok(xmin, xmax, s[a]));
    }
}

/// Every sequence has exactly one insertion position for a time.
pub proof fn lemma_insert_position_unique(s: Seq<PointView>, time: Time, k: int)
    requires
        is_insert_position(s, time, k),
    ensures
        insert_position(s, time) == k,
{
    let c = choose|c: int| is_insert_position(s, time, c);
    assert(is_insert_position(s, time, c));
    if c < k {
        assert(s[c].time.spec_lt(time));
    } else if c > k {
        assert(s[k].time.spec_lt(time));
    }
}

/// Some position is the insertion position of a time: the first point not
/// earlier than it, or the end.
pub proof fn lemma_insert_position_exists(s: Seq<PointView>, time: Time)
    ensures
        is_insert_position(s, time, insert_position(s, time)),
    decreases s.len(),
{
    if s.len() == 0 {
        assert(is_insert_position(s, time, 0));
    } else {
        let t = s.drop_last();
        lemma_insert_position_exists(t, time);
        let k = insert_position(t, time);
        assert(forall|j: int| 0 <= j < t.len() ==> s[j] == #[trigger] t[j]);
        if k < s.len() - 1 {
            assert(s[k] == t[k]);
            assert forall|j: int| 0 <= j < k implies s[j].time.spec_lt(time) by {
                assert(s[j] == t[j]);
            }
            assert(is_insert_position(s, time, k));
        } else if s.last().time.spec_lt(time) {
            assert forall|j: int| 0 <= j < s.len() implies s[j].time.spec_lt(time) by {
                if j < t.len() {
                    assert(s[j] == t[j]);
                }
            }
            assert(is_insert_position(s, time, s.len() as int));
        } else {
            assert forall|j: int| 0 <= j < s.len() - 1 implies s[j].time.spec_lt(time) by {
                assert(s[j] == t[j]);
            }
            assert(is_insert_position(s, time, s.len() - 1));
        }
    }
}

/// Inserting a point whose id no point of the document carries and then
/// removing it by that id gives back the document.
pub proof fn law_insert_point_inverse(d: DocView, tier: TierId, p: PointView)
    requires
        spec_insert_point(d, tier, p) is Ok,
        forall|j: int| 0 <= j < d.tiers.len() ==> !holds_point(#[trigger] d.tiers[j].tier, p.id),
    ensures
        spec_apply_inverse(
            spec_insert_point(d, tier, p)->Ok_0,
            InverseView::RemovePoint { point: p.id },
        ) == Ok::<DocView, crate::issues::AnnotationError>(d),
{
    let c = spec_insert_point(d, tier, p)->Ok_0;
    let i = first_tier(d.tiers, tier)->Some_0;
    assert(is_first_tier(d.tiers, tier, i));
    let s = d.tiers[i].tier.points();
    lemma_insert_position_exists(s, p.time);
    let k = insert_position(s, p.time);
    let t2 = tier_with_point(d.tiers[i].tier, p);
    lemma_with_tier_ids(d, i, t2);
    let s2 = c.tiers[i].tier.points();
    assert(s2 == s.insert(k, p));
    assert(is_first_point(s2, p.id, k)) by {
        assert forall|j: int| 0 <= j < k implies s2[j].id != p.id by {
            assert(s2[j] == s[j]);
            if s[j].id == p.id {
                assert(holds_point(d.tiers[i].tier, p.id));
            }
        }
    }
    lemma_first_point_at(s2, p.id, k);
    assert(is_first_point_tier(c.tiers, p.id, i)) by {
        assert(holds_point(c.tiers[i].tier, p.id)) by {
            assert(s2[k].id == p.id);
        }
        assert forall|j: int| 0 <= j < i implies !holds_point(c.tiers[j].tier, p.id) by {
            assert(c.tiers[j] == d.tiers[j]);
        }
    }
    lemma_first_point_tier_at(c.tiers, p.id, i);
    assert(s2.remove(k) =~= s);
    let back = with_tier(c, i, without_point(c.tiers[i].tier, k));
    assert(back.tiers =~= d.tiers);
}

/// Removing a point and then restoring it into the tier it left gives back
/// the document, when the document is valid and no other point of that tier
/// has an IEEE-equal time (a `+0.0` point and a `-0.0` point may sit in
/// either order, and a restore puts the point before its equal).
pub proof fn law_remove_point_inverse(d: DocView, id: PointId)
    requires
        d.valid(),
        spec_remove_point(d, id) is Ok,
        ({
            let i = first_point_tier(d.tiers, id)->Some_0;
            let s = d.tiers[i].tier.points();
            let k = first_point(s, id)->Some_0;
            forall|j: int| 0 <= j < s.len() && j != k ==> !(#[trigger] s[j].time).spec_ieee_eq(s[k].time)
        }),
    ensures
        spec_apply_inverse(
            spec_remove_point(d, id)->Ok_0.0,
            InverseView::RestorePoint {
                tier: spec_remove_point(d, id)->Ok_0.1,
                point: spec_remove_point(d, id)->Ok_0.2,
            },
        ) == Ok::<DocView, crate::issues::AnnotationError>(d),
{
    let (c, tier, p) = spec_remove_point(d, id)->Ok_0;
    let i = first_point_tier(d.tiers, id)->Some_0;
    assert(is_first_point_tier(d.tiers, id, i));
    let s = d.tiers[i].tier.points();
    let q = choose|q: int| 0 <= q < s.len() && s[q].id == id;
    lemma_least_point_index(s, id, q);
    let m = choose|m: int| 0 <= m < s.len() && s[m].id == id && forall|j: int|
        0 <= j < m ==> s[j].id != id;
    assert(is_first_point(s, id, m));
    let k = first_point(s, id)->Some_0;
    assert(is_first_point(s, id, k));
    let t2 = without_point(d.tiers[i].tier, k);
    lemma_with_tier_ids(d, i, t2);
    assert(tier == d.tiers[i].id);
    assert(is_first_tier(d.tiers, tier, i)) by {
        assert forall|j: int| 0 <= j < i implies d.tiers[j].id != tier by {
            if d.tiers[j].id == tier {
                lemma_tier_ids_distinct(d, j, i);
            }
        }
    }
    lemma_first_tier_at(d.tiers, tier, i);
    lemma_first_tier_same_ids(d.tiers, c.tiers, tier);
    let s2 = c.tiers[i].tier.points();
    assert(s2 == s.remove(k));
    assert(tier_content_ok(d.xmin, d.xmax, d.tiers[i].tier));
    assert(point_tier_ok(d.xmin, d.xmax, s));
    assert(is_insert_position(s2, p.time, k)) by {
        assert forall|j: int| 0 <= j < k implies s2[j].time.spec_lt(p.time) by {
            assert(s2[j] == s[j]);
            lemma_points_sorted(d.xmin, d.xmax, s, j, k);
            assert(!s[j].time.spec_ieee_eq(s[k].time));
        }
        if k < s2.len() {
            assert(s2[k] == s[k + 1]);
            assert(adjacent_points_ok(s[k], s[k + 1]));
        }
    }
    lemma_insert_position_unique(s2, p.time, k);
    assert(s2.insert(k, p) =~= s);
    let back = with_tier(c, i, tier_with_point(c.tiers[i].tier, p));
    assert(back.tiers =~= d.tiers);
}

// ----------------------------------------------------------------------------
// Adding a point tier
// ----------------------------------------------------------------------------

/// Every id of `s` lies below `bound`.
pub open spec fn ids_below(s: Seq<u64>, bound: u64) -> bool {
    forall|k: int| 0 <= k < s.len() ==> #[trigger] s[k] < bound
}

/// A relation of a valid document's tier still holds once a tier with an
/// unused id is appended.
proof fn lemma_relation_kept_by_push(tiers: Seq<SlotView>, s: SlotView, slot: SlotView)
    requires
        relation_ok(tiers, s),
        !tier_ids(tiers).contains(slot.id.0),
    ensures
        relation_ok(tiers.push(slot), s),
{
    let t2 = tiers.push(slot);
    match s.relation {
        TierRelation::Independent => {},
        TierRelation::AlignedBoundaries { with } => {
            let j0 = choose|j: int| 0 <= j < tiers.len() && tiers[j].id == with;
            assert(t2[j0] == tiers[j0]);
            assert(slot.id != with) by {
                assert(tier_ids(tiers)[j0] == with.0);
            }
            assert forall|j: int| 0 <= j < t2.len() && #[trigger] t2[j].id == with implies {
                &&& s.tier.is_interval()
                &&& t2[j].tier.is_interval()
                &&& boundary_times_covered(s.tier.intervals(), t2[j].tier.intervals())
                &&& boundary_times_covered(t2[j].tier.intervals(), s.tier.intervals())
            } by {
                assert(j < tiers.len());
                assert(t2[j] == tiers[j]);
            }
        },
        TierRelation::ChildOf { parent } => {
            let j0 = choose|j: int| 0 <= j < tiers.len() && tiers[j].id == parent;
            assert(t2[j0] == tiers[j0]);
            assert(slot.id != parent) by {
                assert(tier_ids(tiers)[j0] == parent.0);
            }
            assert forall|j: int| 0 <= j < t2.len() && #[trigger] t2[j].id == parent implies {
                &&& t2[j].tier.is_interval()
                &&& s.tier.is_interval()
                &&& forall|k: int|
                    0 <= k < s.tier.intervals().len() ==> nested_in(
                        #[trigger] s.tier.intervals()[k],
                        t2[j].tier.intervals(),
                    )
            } by {
                assert(j < tiers.len());
                assert(t2[j] == tiers[j]);
            }
        },
    }
}

/// Appending an independent point tier to a valid document, with a tier id
/// and point ids above every id already in use (as the identifier
/// generators hand out), gives a valid document exactly when the points are
/// finite, inside the time domain, and strictly increasing in time.
pub proof fn law_add_point_tier_valid(
    d: DocView,
    tier_id: u64,
    first_point: u64,
    name: Seq<char>,
    given: Seq<(Time, Seq<char>)>,
)
    requires
        d.valid(),
        ids_below(tier_ids(d.tiers), tier_id),
        ids_below(all_point_ids(d.tiers), first_point),
        first_point + given.len() <= u64::MAX,
    ensures
        ({
            let pts = stored_points(given, first_point as int);
            let slot = SlotView {
                id: TierId(tier_id),
                relation: TierRelation::Independent,
                tier: TierView::Point { name, points: pts },
            };
            (DocView { tiers: d.tiers.push(slot), ..d }).valid() == point_tier_ok(d.xmin, d.xmax, pts)
        }),
{
    let pts = stored_points(given, first_point as int);
    let slot = SlotView {
        id: TierId(tier_id),
        relation: TierRelation::Independent,
        tier: TierView::Point { name, points: pts },
    };
    let t2 = d.tiers.push(slot);
    let d2 = DocView { tiers: t2, ..d };
    assert(t2.drop_last() =~= d.tiers);
    assert(t2.last() == slot);
    assert(tier_ids(t2) =~= tier_ids(d.tiers).push(tier_id));
    assert(!tier_ids(d.tiers).contains(tier_id)) by {
        if tier_ids(d.tiers).contains(tier_id) {
            let k = choose|k: int| 0 <= k < tier_ids(d.tiers).len() && tier_ids(d.tiers)[k] == tier_id;
            assert(tier_ids(d.tiers)[k] < tier_id);
        }
    }
    lemma_fresh_push(Set::empty(), tier_ids(d.tiers), tier_id);
    lemma_no_dup_concat(Seq::<u64>::empty(), tier_ids(d.tiers));
    assert(Seq::<u64>::empty() + tier_ids(d.tiers) =~= tier_ids(d.tiers));
    assert(Set::<u64>::empty() + tier_ids(d.tiers).to_set() =~= tier_ids(d.tiers).to_set());
    assert(slot_interval_ids(slot) =~= Seq::<u64>::empty());
    assert(slot_boundary_ids(slot) =~= Seq::<u64>::empty());
    assert(all_interval_ids(t2) =~= all_interval_ids(d.tiers));
    assert(all_boundary_ids(t2) =~= all_boundary_ids(d.tiers));
    let new_ids = point_ids_of(pts);
    assert(all_point_ids(t2) == all_point_ids(d.tiers) + new_ids);
    assert forall|k: int| 0 <= k < new_ids.len() implies #[trigger] new_ids[k] == first_point + k by {}
    assert(fresh_ids(all_point_ids(d.tiers).to_set(), new_ids)) by {
        assert forall|a: int, b: int| 0 <= a < new_ids.len() && 0 <= b < new_ids.len() && a != b
            implies new_ids[a] != new_ids[b] by {
            assert(new_ids[a] == first_point + a);
            assert(new_ids[b] == first_point + b);
        }
        assert forall|k: int| 0 <= k < new_ids.len() implies !all_point_ids(d.tiers).to_set().contains(
            #[trigger] new_ids[k],
        ) by {
            if all_point_ids(d.tiers).to_set().contains(new_ids[k]) {
                let q = choose|q: int| 0 <= q < all_point_ids(d.tiers).len() && all_point_ids(d.tiers)[q] == new_ids[k];
                assert(all_point_ids(d.tiers)[q] < first_point);
            }
        }
    }
    lemma_no_dup_concat(all_point_ids(d.tiers), new_ids);
    assert(d2.ids_distinct());
    assert forall|i: int| 0 <= i < d.tiers.len() implies #[trigger] t2[i] == d.tiers[i] by {}
    assert forall|i: int| 0 <= i < d.tiers.len() implies relation_ok(t2, #[trigger] t2[i]) by {
        lemma_relation_kept_by_push(d.tiers, d.tiers[i], slot);
    }
    assert(relation_ok(t2, t2[d.tiers.len() as int]));
    if point_tier_ok(d.xmin, d.xmax, pts) {
        assert forall|i: int| 0 <= i < t2.len() implies tier_content_ok(
            d.xmin,
            d.xmax,
            #[trigger] t2[i].tier,
        ) by {
            if i < d.tiers.len() {
                assert(t2[i] == d.tiers[i]);
            }
        }
        assert forall|i: int| 0 <= i < t2.len() implies relation_ok(t2, #[trigger] t2[i]) by {
            if i < d.tiers.len() {
                assert(t2[i] == d.tiers[i]);
            }
        }
        assert(d2.valid());
    }
    if d2.valid() {
        assert(tier_content_ok(d.xmin, d.xmax, t2[d.tiers.len() as int].tier));
    }
}

// ----------------------------------------------------------------------------
// Runs of edits
// ----------------------------------------------------------------------------

/// Applies `inverses` to `d` newest first: the document reached, or the
/// first refusal.
pub open spec fn undo_all(d: DocView, inverses: Seq<InverseView>) -> Result<DocView, AnnotationError>
    decreases inverses.len(),
{
    if inverses.len() == 0 {
        Ok(d)
    } else {
        match spec_apply_inverse(d, inverses.last()) {
            Ok(c) => undo_all(c, inverses.drop_last()),
            Err(e) => Err(e),
        }
    }
}

/// A run of edits is undone by its inverses taken newest first: when each
/// inverse takes the document after its edit back to the document before it
/// (as the one-step inverse laws show of each edit), applying them all to
/// the last document, newest first, succeeds at every step and gives back
/// the first document.
pub proof fn law_inverses_undo_run(docs: Seq<DocView>, inverses: Seq<InverseView>)
    requires
        docs.len() == inverses.len() + 1,
        forall|k: int|
            0 <= k < inverses.len() ==> spec_apply_inverse(docs[k + 1], #[trigger] inverses[k])
                == Ok::<DocView, AnnotationError>(docs[k]),
    ensures
        undo_all(docs.last(), inverses) == Ok::<DocView, AnnotationError>(docs[0]),
    decreases inverses.len(),
{
    if inverses.len() > 0 {
        let n = inverses.len() - 1;
        let rest = docs.drop_last();
        assert forall|k: int| 0 <= k < inverses.drop_last().len() implies spec_apply_inverse(
            rest[k + 1],
            #[trigger] inverses.drop_last()[k],
        ) == Ok::<DocView, AnnotationError>(rest[k]) by {
            assert(inverses.drop_last()[k] == inverses[k]);
            assert(rest[k + 1] == docs[k + 1]);
            assert(rest[k] == docs[k]);
        }
        law_inverses_undo_run(rest, inverses.drop_last());
        assert(spec_apply_inverse(docs[n + 1], inverses[n]) == Ok::<DocView, AnnotationError>(docs[n]));
        assert(rest.last() == docs[n]);
        assert(rest[0] == docs[0]);
    }
}

/// Appending an independent interval tier (one unlabeled interval over the
/// domain) to a valid document, with tier, boundary and interval ids above
/// every id already in use (as the identifier generators hand out), gives a
/// valid document.
pub proof fn law_add_interval_tier_valid(
    d: DocView,
    tier_id: u64,
    first_boundary: u64,
    interval_id: u64,
    name: Seq<char>,
)
    requires
        d.valid(),
        ids_below(tier_ids(d.tiers), tier_id),
        ids_below(all_boundary_ids(d.tiers), first_boundary),
        ids_below(all_interval_ids(d.tiers), interval_id),
        first_boundary < u64::MAX,
    ensures
        (DocView {
            tiers: d.tiers.push(
                new_interval_slot(
                    d,
                    name,
                    TierRelation::Independent,
                    tier_id,
                    first_boundary,
                    interval_id,
                ),
            ),
            ..d
        }).valid(),
{
    let slot = new_interval_slot(d, name, TierRelation::Independent, tier_id, first_boundary, interval_id);
    let t2 = d.tiers.push(slot);
    let d2 = DocView { tiers: t2, ..d };
    let iv = slot.tier.intervals()[0];
    assert(t2.drop_last() =~= d.tiers);
    assert(t2.last() == slot);
    assert(tier_ids(t2) =~= tier_ids(d.tiers).push(tier_id));
    assert(!tier_ids(d.tiers).contains(tier_id)) by {
        if tier_ids(d.tiers).contains(tier_id) {
            let k = choose|k: int| 0 <= k < tier_ids(d.tiers).len() && tier_ids(d.tiers)[k] == tier_id;
            assert(tier_ids(d.tiers)[k] < tier_id);
        }
    }
    lemma_fresh_push(Set::empty(), tier_ids(d.tiers), tier_id);
    lemma_no_dup_concat(Seq::<u64>::empty(), tier_ids(d.tiers));
    assert(Seq::<u64>::empty() + tier_ids(d.tiers) =~= tier_ids(d.tiers));
    assert(Set::<u64>::empty() + tier_ids(d.tiers).to_set() =~= tier_ids(d.tiers).to_set());
    assert(slot_point_ids(slot) =~= Seq::<u64>::empty());
    assert(all_point_ids(t2) =~= all_point_ids(d.tiers));
    let new_iv = slot_interval_ids(slot);
    assert(new_iv =~= seq![interval_id]);
    assert(all_interval_ids(t2) == all_interval_ids(d.tiers) + new_iv);
    assert(fresh_ids(all_interval_ids(d.tiers).to_set(), new_iv)) by {
        if all_interval_ids(d.tiers).to_set().contains(interval_id) {
            let q = choose|q: int| 0 <= q < all_interval_ids(d.tiers).len() && all_interval_ids(d.tiers)[q] == interval_id;
            assert(all_interval_ids(d.tiers)[q] < interval_id);
        }
        assert(new_iv[0] == interval_id);
    }
    lemma_no_dup_concat(all_interval_ids(d.tiers), new_iv);
    let new_b = slot_boundary_ids(slot);
    assert(new_b =~= seq![first_boundary, (first_boundary + 1) as u64]);
    assert(all_boundary_ids(t2) == all_boundary_ids(d.tiers) + new_b);
    assert(fresh_ids(all_boundary_ids(d.tiers).to_set(), new_b)) by {
        assert forall|k: int| 0 <= k < new_b.len() implies !all_boundary_ids(d.tiers).to_set().contains(
            #[trigger] new_b[k],
        ) by {
            if all_boundary_ids(d.tiers).to_set().contains(new_b[k]) {
                let q = choose|q: int| 0 <= q < all_boundary_ids(d.tiers).len() && all_boundary_ids(d.tiers)[q] == new_b[k];
                assert(all_boundary_ids(d.tiers)[q] < first_boundary);
            }
        }
    }
    lemma_no_dup_concat(all_boundary_ids(d.tiers), new_b);
    assert(d2.ids_distinct());
    assert(interval_tier_ok(d.xmin, d.xmax, slot.tier.intervals()));
    assert forall|i: int| 0 <= i < t2.len() implies tier_content_ok(d.xmin, d.xmax, #[trigger] t2[i].tier) by {
        if i < d.tiers.len() {
            assert(t2[i] == d.tiers[i]);
        }
    }
    assert forall|i: int| 0 <= i < t2.len() implies relation_ok(t2, #[trigger] t2[i]) by {
        if i < d.tiers.len() {
            assert(t2[i] == d.tiers[i]);
            lemma_relation_kept_by_push(d.tiers, d.tiers[i], slot);
        }
    }
}

// ----------------------------------------------------------------------------
// Inserting a point
// ----------------------------------------------------------------------------

/// An element of a concatenation lies in one of its parts.
proof fn lemma_concat_contains(a: Seq<u64>, b: Seq<u64>, y: u64)
    ensures
        (a + b).contains(y) <==> (a.contains(y) || b.contains(y)),
{
    if (a + b).contains(y) {
        let q = choose|q: int| 0 <= q < (a + b).len() && (a + b)[q] == y;
        if q < a.len() {
            assert(a[q] == y);
        } else {
            assert(b[q - a.len()] == y);
        }
    }
    if a.contains(y) {
        let q = choose|q: int| 0 <= q < a.len() && a[q] == y;
        assert((a + b)[q] == y);
    }
    if b.contains(y) {
        let q = choose|q: int| 0 <= q < b.len() && b[q] == y;
        assert((a + b)[a.len() + q] == y);
    }
}

/// Replacing tier `i` by one with the same interval and boundary ids keeps
/// the document's interval and boundary ids.
proof fn lemma_interval_ids_update_same(tiers: Seq<SlotView>, i: int, s2: SlotView)
    requires
        0 <= i < tiers.len(),
        slot_interval_ids(s2) == slot_interval_ids(tiers[i]),
        slot_boundary_ids(s2) == slot_boundary_ids(tiers[i]),
    ensures
        all_interval_ids(tiers.update(i, s2)) == all_interval_ids(tiers),
        all_boundary_ids(tiers.update(i, s2)) == all_boundary_ids(tiers),
    decreases tiers.len(),
{
    let t2 = tiers.update(i, s2);
    if i == tiers.len() - 1 {
        assert(t2.drop_last() =~= tiers.drop_last());
    } else {
        assert(t2.drop_last() =~= tiers.drop_last().update(i, s2));
        lemma_interval_ids_update_same(tiers.drop_last(), i, s2);
    }
}

/// After tier `i` takes its point ids with `x` inserted, every point id of
/// the document is an old one or `x`.
proof fn lemma_point_ids_insert_member(
    tiers: Seq<SlotView>,
    i: int,
    s2: SlotView,
    pos: int,
    x: u64,
    y: u64,
)
    requires
        0 <= i < tiers.len(),
        0 <= pos <= slot_point_ids(tiers[i]).len(),
        slot_point_ids(s2) == slot_point_ids(tiers[i]).insert(pos, x),
        all_point_ids(tiers.update(i, s2)).contains(y),
    ensures
        all_point_ids(tiers).contains(y) || y == x,
    decreases tiers.len(),
{
    let t2 = tiers.update(i, s2);
    let a = all_point_ids(tiers.drop_last());
    let b = slot_point_ids(tiers.last());
    lemma_concat_contains(a, b, y);
    assert(all_point_ids(tiers) == a + b);
    assert(all_point_ids(t2) == all_point_ids(t2.drop_last()) + slot_point_ids(t2.last()));
    lemma_concat_contains(all_point_ids(t2.drop_last()), slot_point_ids(t2.last()), y);
    if i == tiers.len() - 1 {
        assert(t2.drop_last() =~= tiers.drop_last());
        if slot_point_ids(s2).contains(y) && y != x {
            let q = choose|q: int| 0 <= q < slot_point_ids(s2).len() && slot_point_ids(s2)[q] == y;
            if q < pos {
                assert(b[q] == y);
            } else {
                assert(b[q - 1] == y);
            }
        }
    } else {
        assert(t2.drop_last() =~= tiers.drop_last().update(i, s2));
        assert(t2.last() == tiers.last());
        if all_point_ids(t2.drop_last()).contains(y) {
            lemma_point_ids_insert_member(tiers.drop_last(), i, s2, pos, x, y);
        }
    }
}

/// After tier `i` takes its point ids with an unused `x` inserted, the
/// document's point ids stay free of duplicates.
proof fn lemma_point_ids_insert_no_dup(tiers: Seq<SlotView>, i: int, s2: SlotView, pos: int, x: u64)
    requires
        0 <= i < tiers.len(),
        0 <= pos <= slot_point_ids(tiers[i]).len(),
        slot_point_ids(s2) == slot_point_ids(tiers[i]).insert(pos, x),
        all_point_ids(tiers).no_duplicates(),
        !all_point_ids(tiers).contains(x),
    ensures
        all_point_ids(tiers.update(i, s2)).no_duplicates(),
    decreases tiers.len(),
{
    let t2 = tiers.update(i, s2);
    let a = all_point_ids(tiers.drop_last());
    let b = slot_point_ids(tiers.last());
    assert(all_point_ids(tiers) == a + b);
    lemma_no_dup_concat(a, b);
    lemma_concat_contains(a, b, x);
    let a2 = all_point_ids(t2.drop_last());
    let b2 = slot_point_ids(t2.last());
    assert(all_point_ids(t2) == a2 + b2);
    if i == tiers.len() - 1 {
        assert(t2.drop_last() =~= tiers.drop_last());
        assert(b2 == b.insert(pos, x));
        assert(fresh_ids(a2.to_set(), b2)) by {
            assert forall|p: int, q: int| 0 <= p < b2.len() && 0 <= q < b2.len() && p != q implies b2[p] != b2[q] by {
                if b2[p] == b2[q] {
                    if p == pos {
                        assert(b.contains(b2[q]));
                    } else if q == pos {
                        assert(b.contains(b2[p]));
                    } else {
                        let p0 = if p < pos { p } else { p - 1 };
                        let q0 = if q < pos { q } else { q - 1 };
                        assert(b[p0] == b2[p]);
                        assert(b[q0] == b2[q]);
                    }
                }
            }
            assert forall|q: int| 0 <= q < b2.len() implies !a2.to_set().contains(#[trigger] b2[q]) by {
                if q != pos {
                    let q0 = if q < pos { q } else { q - 1 };
                    assert(b[q0] == b2[q]);
                }
            }
        }
    } else {
        assert(t2.drop_last() =~= tiers.drop_last().update(i, s2));
        assert(t2.last() == tiers.last());
        assert(b2 == b);
        lemma_point_ids_insert_no_dup(tiers.drop_last(), i, s2, pos, x);
        assert forall|q: int| 0 <= q < b2.len() implies !a2.to_set().contains(#[trigger] b2[q]) by {
            if a2.contains(b2[q]) {
                lemma_point_ids_insert_member(tiers.drop_last(), i, s2, pos, x, b2[q]);
                assert(b.contains(b2[q]));
            }
        }
    }
    lemma_no_dup_concat(a2, b2);
}

/// A relation holds the same way over tiers with the same ids, kinds and
/// intervals position by position.
proof fn lemma_relation_same_shape(a: Seq<SlotView>, b: Seq<SlotView>, s: SlotView, s2: SlotView)
    requires
        relation_ok(a, s),
        a.len() == b.len(),
        forall|j: int| 0 <= j < a.len() ==> (#[trigger] b[j]).id == a[j].id
            && b[j].tier.is_interval() == a[j].tier.is_interval() && b[j].tier.intervals()
            == a[j].tier.intervals(),
        s2.relation == s.relation,
        s2.tier.is_interval() == s.tier.is_interval(),
        s2.tier.intervals() == s.tier.intervals(),
    ensures
        relation_ok(b, s2),
{
    match s.relation {
        TierRelation::Independent => {},
        TierRelation::AlignedBoundaries { with } => {
            let j0 = choose|j: int| 0 <= j < a.len() && a[j].id == with;
            assert(b[j0].id == with);
            assert forall|j: int| 0 <= j < b.len() && #[trigger] b[j].id == with implies {
                &&& s2.tier.is_interval()
                &&& b[j].tier.is_interval()
                &&& boundary_times_covered(s2.tier.intervals(), b[j].tier.intervals())
                &&& boundary_times_covered(b[j].tier.intervals(), s2.tier.intervals())
            } by {
                assert(a[j].id == with);
            }
        },
        TierRelation::ChildOf { parent } => {
            let j0 = choose|j: int| 0 <= j < a.len() && a[j].id == parent;
            assert(b[j0].id == parent);
            assert forall|j: int| 0 <= j < b.len() && #[trigger] b[j].id == parent implies {
                &&& b[j].tier.is_interval()
                &&& s2.tier.is_interval()
                &&& forall|k: int|
                    0 <= k < s2.tier.intervals().len() ==> nested_in(
                        #[trigger] s2.tier.intervals()[k],
                        b[j].tier.intervals(),
                    )
            } by {
                assert(a[j].id == parent);
            }
        },
    }
}

/// Inserting a point into a point tier of a valid document, with an id
/// above every point id in use (as the point generator hands out), a finite
/// time inside the domain and no point of that tier at the same time,
/// succeeds and gives a valid document.
pub proof fn law_insert_point_valid(d: DocView, tier: TierId, p: PointView)
    requires
        d.valid(),
        ids_below(all_point_ids(d.tiers), p.id.0),
        first_tier(d.tiers, tier) is Some,
        d.tiers[first_tier(d.tiers, tier)->Some_0].tier is Point,
        point_ok(d.xmin, d.xmax, p),
        forall|k: int|
            0 <= k < d.tiers[first_tier(d.tiers, tier)->Some_0].tier.points().len() ==> (
            #[trigger] d.tiers[first_tier(d.tiers, tier)->Some_0].tier.points()[k]).time != p.time,
    ensures
        spec_insert_point(d, tier, p) is Ok,
        spec_insert_point(d, tier, p)->Ok_0.valid(),
{
    let i = first_tier(d.tiers, tier)->Some_0;
    assert(is_first_tier(d.tiers, tier, i));
    let s = d.tiers[i].tier.points();
    lemma_insert_position_exists(s, p.time);
    let k = insert_position(s, p.time);
    let t2 = tier_with_point(d.tiers[i].tier, p);
    let c = with_tier(d, i, t2);
    let s2 = SlotView { tier: t2, ..d.tiers[i] };
    assert(c.tiers == d.tiers.update(i, s2));
    lemma_with_tier_ids(d, i, t2);
    let q = s.insert(k, p);
    assert(t2.points() == q);
    // ids
    assert(tier_ids(c.tiers) =~= tier_ids(d.tiers));
    assert(slot_interval_ids(s2) =~= slot_interval_ids(d.tiers[i]));
    assert(slot_boundary_ids(s2) =~= slot_boundary_ids(d.tiers[i]));
    lemma_interval_ids_update_same(d.tiers, i, s2);
    assert(slot_point_ids(s2) =~= slot_point_ids(d.tiers[i]).insert(k, p.id.0));
    assert(!all_point_ids(d.tiers).contains(p.id.0)) by {
        if all_point_ids(d.tiers).contains(p.id.0) {
            let r = choose|r: int| 0 <= r < all_point_ids(d.tiers).len() && all_point_ids(d.tiers)[r] == p.id.0;
            assert(all_point_ids(d.tiers)[r] < p.id.0);
        }
    }
    lemma_point_ids_insert_no_dup(d.tiers, i, s2, k, p.id.0);
    assert(c.ids_distinct());
    // content of the edited tier
    assert(tier_content_ok(d.xmin, d.xmax, d.tiers[i].tier));
    assert(point_tier_ok(d.xmin, d.xmax, q)) by {
        assert forall|m: int| 0 <= m < q.len() implies point_ok(d.xmin, d.xmax, #[trigger] q[m]) by {
            if m < k {
                assert(q[m] == s[m]);
            } else if m > k {
                assert(q[m] == s[m - 1]);
            }
        }
        assert forall|m: int| 0 < m < q.len() implies adjacent_points_ok(q[m - 1], #[trigger] q[m]) by {
            if m < k {
                assert(q[m] == s[m]);
                assert(q[m - 1] == s[m - 1]);
            } else if m == k {
                assert(q[m - 1] == s[m - 1]);
                assert(s[m - 1].time.spec_lt(p.time));
            } else if m == k + 1 {
                assert(q[m] == s[k]);
            } else {
                assert(q[m] == s[m - 1]);
                assert(q[m - 1] == s[m - 2]);
            }
        }
    }
    assert forall|j: int| 0 <= j < c.tiers.len() implies tier_content_ok(
        c.xmin,
        c.xmax,
        #[trigger] c.tiers[j].tier,
    ) by {
        if j != i {
            assert(c.tiers[j] == d.tiers[j]);
        }
    }
    assert forall|j: int| 0 <= j < c.tiers.len() implies relation_ok(c.tiers, #[trigger] c.tiers[j]) by {
        assert(relation_ok(d.tiers, d.tiers[j]));
        lemma_relation_same_shape(d.tiers, c.tiers, d.tiers[j], c.tiers[j]);
    }
}

} // verus!
