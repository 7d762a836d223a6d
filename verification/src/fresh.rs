//! Identifier generators and the ids a document holds: each generator lies
//! above every id of its class, so the ids it hands out are unused.
use vstd::prelude::*;

use crate::time::Time;
use crate::payloads::BoundaryMove;
use crate::undo::move_back_all;
use crate::ids::{BoundaryId, IntervalId, PointId, TierId};
use crate::boundary_edits::{
    boundary_location, move_targets, skeleton, spec_aligned_indices, spec_insert_boundary,
    spec_move_boundary, spec_remove_boundary, interior_at, is_interior_at, is_split_at, merge_all, merge_in_tier, move_all, move_in_tier,
    split_all, split_position, split_tier, with_intervals,
};
use crate::laws::{lemma_insert_position_exists, lemma_least_point_index};
use crate::edits::{
    first_interval, first_point, first_point_tier, is_first_point, is_first_point_tier, first_tier, insert_position, relabel_interval,
    relabel_point, retime_point, spec_insert_point, spec_move_point, spec_remove_point,
    spec_reorder_tier, spec_replace_label, tier_with_point, with_tier, without_point,
};
use crate::model::{
    adjacent_ok, all_boundary_ids, slot_boundary_ids, tier_content_ok, all_interval_ids, all_listed_boundary_ids, all_point_ids, ids_below_max, listed_boundary_ids,
    lemma_seq_max_bounds, reseeded_ids, slot_interval_ids, slot_point_ids, tier_boundaries, tier_ids,
    DocView, IntervalView, LabelTarget, PointView, SlotView, TierView,
};

verus! {

/// Interval ids lie below `ni`; the listed boundary ids (the first start and
/// every end) lie below `nb`.
pub open spec fn intervals_below(s: Seq<IntervalView>, nb: int, ni: int) -> bool {
    &&& forall|k: int| 0 <= k < s.len() ==> #[trigger] s[k].id.0 < ni
    &&& forall|k: int| 0 <= k < s.len() ==> #[trigger] s[k].end_boundary.0 < nb
    &&& s.len() > 0 ==> s[0].start_boundary.0 < nb
}

/// Point ids lie below `np`.
pub open spec fn points_below(s: Seq<PointView>, np: int) -> bool {
    forall|k: int| 0 <= k < s.len() ==> #[trigger] s[k].id.0 < np
}

/// Every id of one tier lies below the generator of its class.
pub open spec fn slot_below(s: SlotView, n: (u64, u64, u64, u64)) -> bool {
    &&& s.id.0 < n.0
    &&& intervals_below(s.tier.intervals(), n.1 as int, n.2 as int)
    &&& points_below(s.tier.points(), n.3 as int)
}

/// Each identifier generator of `n` (tier, boundary, interval, point) lies
/// above every id of its class in `tiers`.
pub open spec fn gens_above(tiers: Seq<SlotView>, n: (u64, u64, u64, u64)) -> bool {
    forall|j: int| 0 <= j < tiers.len() ==> slot_below(#[trigger] tiers[j], n)
}

/// Generators recomputed as one past the largest id lie above every id.
pub proof fn lemma_reseeded_above(tiers: Seq<SlotView>)
    requires
        ids_below_max(tiers),
    ensures
        gens_above(tiers, reseeded_ids(tiers)),
{
    let n = reseeded_ids(tiers);
    lemma_seq_max_bounds(tier_ids(tiers));
    lemma_seq_max_bounds(all_listed_boundary_ids(tiers));
    lemma_seq_max_bounds(all_interval_ids(tiers));
    lemma_seq_max_bounds(all_point_ids(tiers));
    assert forall|j: int| 0 <= j < tiers.len() implies slot_below(#[trigger] tiers[j], n) by {
        assert(tier_ids(tiers)[j] == tiers[j].id.0);
        let s = tiers[j].tier.intervals();
        assert forall|k: int| 0 <= k < s.len() implies #[trigger] s[k].id.0 < n.2 as int by {
            lemma_interval_id_listed(tiers, j, k);
        }
        assert forall|k: int| 0 <= k < s.len() implies #[trigger] s[k].end_boundary.0 < n.1 as int by {
            lemma_boundary_listed(tiers, j, k + 1);
        }
        if s.len() > 0 {
            lemma_boundary_listed(tiers, j, 0);
        }
        let p = tiers[j].tier.points();
        assert forall|k: int| 0 <= k < p.len() implies #[trigger] p[k].id.0 < n.3 as int by {
            lemma_point_id_listed(tiers, j, k);
        }
    }
}

/// Interval `k` of tier `j` has its id among the document's interval ids.
proof fn lemma_interval_id_listed(tiers: Seq<SlotView>, j: int, k: int)
    requires
        0 <= j < tiers.len(),
        0 <= k < tiers[j].tier.intervals().len(),
    ensures
        all_interval_ids(tiers).contains(tiers[j].tier.intervals()[k].id.0),
    decreases tiers.len(),
{
    let a = all_interval_ids(tiers.drop_last());
    let b = slot_interval_ids(tiers.last());
    assert(all_interval_ids(tiers) == a + b);
    if j == tiers.len() - 1 {
        assert(b[k] == tiers[j].tier.intervals()[k].id.0);
        assert((a + b)[a.len() + k] == b[k]);
    } else {
        assert(tiers.drop_last()[j] == tiers[j]);
        lemma_interval_id_listed(tiers.drop_last(), j, k);
        let q = choose|q: int| 0 <= q < a.len() && a[q] == tiers[j].tier.intervals()[k].id.0;
        assert((a + b)[q] == a[q]);
    }
}

/// Point `k` of tier `j` has its id among the document's point ids.
proof fn lemma_point_id_listed(tiers: Seq<SlotView>, j: int, k: int)
    requires
        0 <= j < tiers.len(),
        0 <= k < tiers[j].tier.points().len(),
    ensures
        all_point_ids(tiers).contains(tiers[j].tier.points()[k].id.0),
    decreases tiers.len(),
{
    let a = all_point_ids(tiers.drop_last());
    let b = slot_point_ids(tiers.last());
    assert(all_point_ids(tiers) == a + b);
    if j == tiers.len() - 1 {
        assert(b[k] == tiers[j].tier.points()[k].id.0);
        assert((a + b)[a.len() + k] == b[k]);
    } else {
        assert(tiers.drop_last()[j] == tiers[j]);
        lemma_point_id_listed(tiers.drop_last(), j, k);
        let q = choose|q: int| 0 <= q < a.len() && a[q] == tiers[j].tier.points()[k].id.0;
        assert((a + b)[q] == a[q]);
    }
}

/// Listed boundary `k` of tier `j` is among the document's listed boundary ids.
proof fn lemma_boundary_listed(tiers: Seq<SlotView>, j: int, k: int)
    requires
        0 <= j < tiers.len(),
        0 <= k < tier_boundaries(tiers[j].tier.intervals()).len(),
    ensures
        all_listed_boundary_ids(tiers).contains(tier_boundaries(tiers[j].tier.intervals())[k].0.0),
    decreases tiers.len(),
{
    let a = all_listed_boundary_ids(tiers.drop_last());
    let b = listed_boundary_ids(tiers.last());
    assert(all_listed_boundary_ids(tiers) == a + b);
    if j == tiers.len() - 1 {
        assert(b[k] == tier_boundaries(tiers[j].tier.intervals())[k].0.0);
        assert((a + b)[a.len() + k] == b[k]);
    } else {
        assert(tiers.drop_last()[j] == tiers[j]);
        lemma_boundary_listed(tiers.drop_last(), j, k);
        let q = choose|q: int| 0 <= q < a.len() && a[q] == tier_boundaries(
            tiers[j].tier.intervals(),
        )[k].0.0;
        assert((a + b)[q] == a[q]);
    }
}

/// Below the generators, every tier id and every point id of the document
/// lies below its generator.
pub proof fn lemma_listed_below(tiers: Seq<SlotView>, n: (u64, u64, u64, u64))
    requires
        gens_above(tiers, n),
    ensures
        forall|q: int| 0 <= q < tier_ids(tiers).len() ==> #[trigger] tier_ids(tiers)[q] < n.0,
        forall|q: int| 0 <= q < all_point_ids(tiers).len() ==> #[trigger] all_point_ids(tiers)[q] < n.3,
    decreases tiers.len(),
{
    assert forall|q: int| 0 <= q < tier_ids(tiers).len() implies #[trigger] tier_ids(tiers)[q] < n.0 by {
        assert(slot_below(tiers[q], n));
    }
    if tiers.len() > 0 {
        let t0 = tiers.drop_last();
        assert forall|j: int| 0 <= j < t0.len() implies slot_below(#[trigger] t0[j], n) by {
            assert(t0[j] == tiers[j]);
        }
        lemma_listed_below(t0, n);
        let a = all_point_ids(t0);
        let b = slot_point_ids(tiers.last());
        assert(all_point_ids(tiers) == a + b);
        assert(slot_below(tiers[tiers.len() - 1], n));
        assert forall|q: int| 0 <= q < (a + b).len() implies #[trigger] (a + b)[q] < n.3 by {
            if q >= a.len() {
                assert(b[q - a.len()] == tiers.last().tier.points()[q - a.len()].id.0);
            }
        }
    }
}

/// Generators `m` no lower than `n` component by component.
pub open spec fn gens_le(n: (u64, u64, u64, u64), m: (u64, u64, u64, u64)) -> bool {
    n.0 <= m.0 && n.1 <= m.1 && n.2 <= m.2 && n.3 <= m.3
}

/// Raising the generators keeps them above every id.
pub proof fn lemma_gens_grow(tiers: Seq<SlotView>, n: (u64, u64, u64, u64), m: (u64, u64, u64, u64))
    requires
        gens_above(tiers, n),
        gens_le(n, m),
    ensures
        gens_above(tiers, m),
{
    assert forall|j: int| 0 <= j < tiers.len() implies slot_below(#[trigger] tiers[j], m) by {
        assert(slot_below(tiers[j], n));
    }
}

/// Appending a tier whose ids lie below the generators keeps them above
/// every id.
pub proof fn lemma_gens_push(
    tiers: Seq<SlotView>,
    n: (u64, u64, u64, u64),
    m: (u64, u64, u64, u64),
    slot: SlotView,
)
    requires
        gens_above(tiers, n),
        gens_le(n, m),
        slot_below(slot, m),
    ensures
        gens_above(tiers.push(slot), m),
{
    lemma_gens_grow(tiers, n, m);
    assert forall|j: int| 0 <= j < tiers.push(slot).len() implies slot_below(
        #[trigger] tiers.push(slot)[j],
        m,
    ) by {
        if j < tiers.len() {
            assert(tiers.push(slot)[j] == tiers[j]);
        }
    }
}

/// Replacing tier `i` by a tier with the same id whose ids lie below the
/// generators keeps them above every id.
pub proof fn lemma_gens_update(
    tiers: Seq<SlotView>,
    n: (u64, u64, u64, u64),
    m: (u64, u64, u64, u64),
    i: int,
    slot: SlotView,
)
    requires
        gens_above(tiers, n),
        gens_le(n, m),
        0 <= i < tiers.len(),
        slot_below(slot, m),
    ensures
        gens_above(tiers.update(i, slot), m),
{
    lemma_gens_grow(tiers, n, m);
    assert forall|j: int| 0 <= j < tiers.update(i, slot).len() implies slot_below(
        #[trigger] tiers.update(i, slot)[j],
        m,
    ) by {
        if j != i {
            assert(tiers.update(i, slot)[j] == tiers[j]);
        }
    }
}

/// In a document whose interval tiers are contiguous, every interval id and
/// every boundary id lies below its generator.
pub proof fn lemma_content_ids_below(tiers: Seq<SlotView>, n: (u64, u64, u64, u64), xmin: Time, xmax: Time)
    requires
        gens_above(tiers, n),
        forall|j: int| 0 <= j < tiers.len() ==> tier_content_ok(xmin, xmax, #[trigger] tiers[j].tier),
    ensures
        forall|q: int|
            0 <= q < all_interval_ids(tiers).len() ==> #[trigger] all_interval_ids(tiers)[q] < n.2,
        forall|q: int|
            0 <= q < all_boundary_ids(tiers).len() ==> #[trigger] all_boundary_ids(tiers)[q] < n.1,
    decreases tiers.len(),
{
    if tiers.len() > 0 {
        let t0 = tiers.drop_last();
        assert forall|j: int| 0 <= j < t0.len() implies slot_below(#[trigger] t0[j], n) by {
            assert(t0[j] == tiers[j]);
        }
        assert forall|j: int| 0 <= j < t0.len() implies tier_content_ok(xmin, xmax, #[trigger] t0[j].tier) by {
            assert(t0[j] == tiers[j]);
        }
        lemma_content_ids_below(t0, n, xmin, xmax);
        let last = tiers.last();
        assert(slot_below(tiers[tiers.len() - 1], n));
        assert(tier_content_ok(xmin, xmax, tiers[tiers.len() - 1].tier));
        let s = last.tier.intervals();
        let a = all_interval_ids(t0);
        let b = slot_interval_ids(last);
        assert(all_interval_ids(tiers) == a + b);
        assert forall|q: int| 0 <= q < (a + b).len() implies #[trigger] (a + b)[q] < n.2 by {
            if q >= a.len() {
                assert(b[q - a.len()] == s[q - a.len()].id.0);
            }
        }
        let c = all_boundary_ids(t0);
        let e = slot_boundary_ids(last);
        assert(all_boundary_ids(tiers) == c + e);
        assert forall|q: int| 0 <= q < (c + e).len() implies #[trigger] (c + e)[q] < n.1 by {
            if q >= c.len() {
                let r = q - c.len();
                if r < s.len() {
                    assert(e[r] == s[r].start_boundary.0);
                    if r > 0 {
                        assert(last.tier is Interval);
                        assert(adjacent_ok(s[r - 1], s[r]));
                    }
                } else {
                    assert(e[r] == s.last().end_boundary.0);
                    assert(s[s.len() - 1].end_boundary.0 < n.1);
                }
            }
        }
    }
}

/// A tier rewritten by a label, time or removal edit keeps its ids below
/// the generators.
proof fn lemma_with_tier_below(d: DocView, n: (u64, u64, u64, u64), i: int, t: TierView)
    requires
        gens_above(d.tiers, n),
        0 <= i < d.tiers.len(),
        intervals_below(t.intervals(), n.1 as int, n.2 as int),
        points_below(t.points(), n.3 as int),
    ensures
        gens_above(with_tier(d, i, t).tiers, n),
{
    assert(slot_below(d.tiers[i], n));
    lemma_gens_update(d.tiers, n, n, i, SlotView { tier: t, ..d.tiers[i] });
}

/// Replacing a label keeps every id below the generators.
pub proof fn lemma_replace_label_below(d: DocView, n: (u64, u64, u64, u64), target: LabelTarget, text: Seq<char>)
    requires
        gens_above(d.tiers, n),
        spec_replace_label(d, target, text) is Ok,
    ensures
        gens_above(spec_replace_label(d, target, text)->Ok_0.0.tiers, n),
{
    match target {
        LabelTarget::Interval { tier, interval } => {
            let i = first_tier(d.tiers, tier)->Some_0;
            let k = first_interval(d.tiers[i].tier.intervals(), interval)->Some_0;
            let t = relabel_interval(d.tiers[i].tier, k, text);
            assert(slot_below(d.tiers[i], n));
            assert(t.intervals() =~= d.tiers[i].tier.intervals().update(k, IntervalView { label: text, ..d.tiers[i].tier.intervals()[k] }));
            lemma_with_tier_below(d, n, i, t);
        },
        LabelTarget::Point { tier, point } => {
            let i = first_tier(d.tiers, tier)->Some_0;
            let k = first_point(d.tiers[i].tier.points(), point)->Some_0;
            let t = relabel_point(d.tiers[i].tier, k, text);
            assert(slot_below(d.tiers[i], n));
            lemma_with_tier_below(d, n, i, t);
        },
    }
}

/// Moving a point keeps every id below the generators.
pub proof fn lemma_move_point_below(d: DocView, n: (u64, u64, u64, u64), id: PointId, to: Time)
    requires
        gens_above(d.tiers, n),
        spec_move_point(d, id, to) is Ok,
    ensures
        gens_above(spec_move_point(d, id, to)->Ok_0.0.tiers, n),
{
    let i = first_point_tier(d.tiers, id)->Some_0;
    lemma_first_point_found(d.tiers, id);
    let k = first_point(d.tiers[i].tier.points(), id).unwrap();
    assert(slot_below(d.tiers[i], n));
    lemma_with_tier_below(d, n, i, retime_point(d.tiers[i].tier, k, to));
}

/// Removing a point keeps every id below the generators.
pub proof fn lemma_remove_point_below(d: DocView, n: (u64, u64, u64, u64), id: PointId)
    requires
        gens_above(d.tiers, n),
        spec_remove_point(d, id) is Ok,
    ensures
        gens_above(spec_remove_point(d, id)->Ok_0.0.tiers, n),
{
    let i = first_point_tier(d.tiers, id)->Some_0;
    lemma_first_point_found(d.tiers, id);
    let k = first_point(d.tiers[i].tier.points(), id).unwrap();
    let t = without_point(d.tiers[i].tier, k);
    assert(slot_below(d.tiers[i], n));
    let p = d.tiers[i].tier.points();
    assert forall|q: int| 0 <= q < t.points().len() implies #[trigger] t.points()[q].id.0 < n.3 as int by {
        if q < k {
            assert(t.points()[q] == p[q]);
        } else {
            assert(t.points()[q] == p[q + 1]);
        }
    }
    lemma_with_tier_below(d, n, i, t);
}

/// Inserting a point whose id lies below the generators keeps every id below
/// them.
pub proof fn lemma_insert_point_below(d: DocView, n: (u64, u64, u64, u64), tier: TierId, p: PointView)
    requires
        gens_above(d.tiers, n),
        spec_insert_point(d, tier, p) is Ok,
        p.id.0 < n.3,
    ensures
        gens_above(spec_insert_point(d, tier, p)->Ok_0.tiers, n),
{
    let i = first_tier(d.tiers, tier)->Some_0;
    let t = tier_with_point(d.tiers[i].tier, p);
    assert(slot_below(d.tiers[i], n));
    let old_p = d.tiers[i].tier.points();
    let pos = insert_position(old_p, p.time);
    lemma_insert_position_exists(old_p, p.time);
    assert forall|q: int| 0 <= q < t.points().len() implies #[trigger] t.points()[q].id.0 < n.3 as int by {
        if q < pos {
            assert(t.points()[q] == old_p[q]);
        } else if q > pos {
            assert(t.points()[q] == old_p[q - 1]);
        }
    }
    lemma_with_tier_below(d, n, i, t);
}

/// Reordering tiers keeps every id below the generators.
pub proof fn lemma_reorder_tier_below(d: DocView, n: (u64, u64, u64, u64), tier: TierId, to_index: int)
    requires
        gens_above(d.tiers, n),
        spec_reorder_tier(d, tier, to_index) is Ok,
        0 <= to_index,
    ensures
        gens_above(spec_reorder_tier(d, tier, to_index)->Ok_0.0.tiers, n),
{
    let from = first_tier(d.tiers, tier)->Some_0;
    let (c, _, to) = spec_reorder_tier(d, tier, to_index)->Ok_0;
    let r = d.tiers.remove(from);
    assert forall|j: int| 0 <= j < r.len() implies slot_below(#[trigger] r[j], n) by {
        if j < from {
            assert(r[j] == d.tiers[j]);
        } else {
            assert(r[j] == d.tiers[j + 1]);
        }
    }
    assert(slot_below(d.tiers[from], n));
    assert forall|j: int| 0 <= j < c.tiers.len() implies slot_below(#[trigger] c.tiers[j], n) by {
        if j < to {
            assert(c.tiers[j] == r[j]);
        } else if j > to {
            assert(c.tiers[j] == r[j - 1]);
        }
    }
}

/// The tier found to hold a point holds it at a first position.
proof fn lemma_first_point_found(tiers: Seq<SlotView>, id: PointId)
    requires
        first_point_tier(tiers, id) is Some,
    ensures
        ({
            let i = first_point_tier(tiers, id)->Some_0;
            &&& 0 <= i < tiers.len()
            &&& tiers[i].tier is Point
            &&& first_point(tiers[i].tier.points(), id) is Some
            &&& is_first_point(
                tiers[i].tier.points(),
                id,
                first_point(tiers[i].tier.points(), id)->Some_0,
            )
        }),
{
    let i = first_point_tier(tiers, id)->Some_0;
    assert(is_first_point_tier(tiers, id, i));
    let s = tiers[i].tier.points();
    let q = choose|q: int| 0 <= q < s.len() && s[q].id == id;
    lemma_least_point_index(s, id, q);
    let m = choose|m: int| 0 <= m < s.len() && s[m].id == id && forall|j: int| 0 <= j < m ==> s[j].id != id;
    assert(is_first_point(s, id, m));
}

/// Moving the boundary at `at` in each tier of `idxs` keeps every id below
/// the generators.
pub proof fn lemma_move_all_below(d: DocView, n: (u64, u64, u64, u64), idxs: Seq<int>, at: Time, to: Time)
    requires
        gens_above(d.tiers, n),
        move_all(d, idxs, at, to) is Ok,
    ensures
        gens_above(move_all(d, idxs, at, to)->Ok_0.0.tiers, n),
    decreases idxs.len(),
{
    if idxs.len() > 0 {
        let i = idxs[0];
        if 0 <= i < d.tiers.len() {
            let old_s = d.tiers[i].tier.intervals();
            let (s2, _) = move_in_tier(old_s, d.tiers[i].id, at, to)->Ok_0;
            let k = interior_at(old_s, at)->Some_0;
            assert(is_interior_at(old_s, at, k));
            assert(slot_below(d.tiers[i], n));
            let t = with_intervals(d.tiers[i].tier, s2);
            assert(t.intervals() == s2);
            assert forall|q: int| 0 <= q < s2.len() implies s2[q].id == old_s[q].id
                && s2[q].start_boundary == old_s[q].start_boundary && s2[q].end_boundary
                == old_s[q].end_boundary by {}
            lemma_with_tier_below(d, n, i, t);
            lemma_move_all_below(with_tier(d, i, t), n, idxs.drop_first(), at, to);
        }
    }
}

/// Merging at `at` in each tier of `idxs` keeps every id below the
/// generators.
pub proof fn lemma_merge_all_below(d: DocView, n: (u64, u64, u64, u64), idxs: Seq<int>, at: Time)
    requires
        gens_above(d.tiers, n),
        merge_all(d, idxs, at) is Ok,
    ensures
        gens_above(merge_all(d, idxs, at)->Ok_0.0.tiers, n),
    decreases idxs.len(),
{
    if idxs.len() > 0 {
        let i = idxs[0];
        if 0 <= i < d.tiers.len() {
            let old_s = d.tiers[i].tier.intervals();
            let (s2, _) = merge_in_tier(old_s, d.tiers[i].id, at)->Ok_0;
            let k = interior_at(old_s, at)->Some_0;
            assert(is_interior_at(old_s, at, k));
            assert(slot_below(d.tiers[i], n));
            let t = with_intervals(d.tiers[i].tier, s2);
            assert(t.intervals() == s2);
            assert forall|q: int| 0 <= q < s2.len() implies #[trigger] s2[q].id.0 < n.2 as int
                && s2[q].end_boundary.0 < n.1 as int by {
                if q < k {
                    assert(s2[q] == old_s[q]);
                } else if q == k {
                    assert(s2[q].id == old_s[k].id);
                    assert(s2[q].end_boundary == old_s[k + 1].end_boundary);
                } else {
                    assert(s2[q] == old_s[q + 1]);
                }
            }
            if s2.len() > 0 {
                if k == 0 {
                    assert(s2[0].start_boundary == old_s[0].start_boundary);
                } else {
                    assert(s2[0] == old_s[0]);
                }
            }
            lemma_with_tier_below(d, n, i, t);
            lemma_merge_all_below(with_tier(d, i, t), n, idxs.drop_first(), at);
        }
    }
}

/// Splitting at `at` in each tier of `idxs`, drawing ids upward from `nb`
/// and `ni`, keeps every id below the generators raised past the ids drawn.
pub proof fn lemma_split_all_below(d: DocView, n: (u64, u64, u64, u64), idxs: Seq<int>, at: Time, nb: int, ni: int)
    requires
        gens_above(d.tiers, n),
        split_all(d, idxs, at, nb, ni) is Ok,
        n.1 == nb,
        n.2 == ni,
        nb + idxs.len() <= u64::MAX,
        ni + idxs.len() <= u64::MAX,
    ensures
        gens_above(
            split_all(d, idxs, at, nb, ni)->Ok_0.tiers,
            (n.0, (nb + idxs.len()) as u64, (ni + idxs.len()) as u64, n.3),
        ),
    decreases idxs.len(),
{
    let m = (n.0, (nb + idxs.len()) as u64, (ni + idxs.len()) as u64, n.3);
    if idxs.len() == 0 {
        lemma_gens_grow(d.tiers, n, m);
    } else {
        let i = idxs[0];
        if !(0 <= i < d.tiers.len()) {
            lemma_gens_grow(d.tiers, n, m);
        } else {
            let old_s = d.tiers[i].tier.intervals();
            let s2 = split_tier(old_s, at, BoundaryId(nb as u64), IntervalId(ni as u64), d.tiers[i].id)->Ok_0;
            let k = split_position(old_s, at)->Some_0;
            assert(is_split_at(old_s, at, k));
            let n1 = (n.0, (nb + 1) as u64, (ni + 1) as u64, n.3);
            assert(slot_below(d.tiers[i], n));
            let t = with_intervals(d.tiers[i].tier, s2);
            assert(t.intervals() == s2);
            let u = old_s.update(k, IntervalView { end_boundary: BoundaryId(nb as u64), xmax: at, ..old_s[k] });
            assert forall|q: int| 0 <= q < s2.len() implies #[trigger] s2[q].id.0 < n1.2 as int
                && s2[q].end_boundary.0 < n1.1 as int by {
                if q <= k {
                    assert(s2[q] == u[q]);
                } else if q > k + 1 {
                    assert(s2[q] == u[q - 1]);
                }
            }
            assert(s2[0].start_boundary == old_s[0].start_boundary) by {
                if k == 0 {
                    assert(s2[0] == u[0]);
                } else {
                    assert(s2[0] == old_s[0]);
                }
            }
            lemma_gens_update(d.tiers, n, n1, i, SlotView { tier: t, ..d.tiers[i] });
            lemma_split_all_below(with_tier(d, i, t), n1, idxs.drop_first(), at, nb + 1, ni + 1);
        }
    }
}

/// Removing a boundary keeps every id below the generators.
pub proof fn lemma_remove_boundary_below(d: DocView, n: (u64, u64, u64, u64), id: BoundaryId)
    requires
        gens_above(d.tiers, n),
        spec_remove_boundary(d, id) is Ok,
    ensures
        gens_above(spec_remove_boundary(d, id)->Ok_0.0.tiers, n),
{
    let (tier, at) = boundary_location(d.tiers, id)->Some_0;
    let idxs = spec_aligned_indices(skeleton(d.tiers), tier)->Ok_0;
    lemma_merge_all_below(d, n, idxs, at);
}

/// Moving a boundary keeps every id below the generators.
pub proof fn lemma_move_boundary_below(d: DocView, n: (u64, u64, u64, u64), id: BoundaryId, to: Time, linked: bool)
    requires
        gens_above(d.tiers, n),
        spec_move_boundary(d, id, to, linked) is Ok,
    ensures
        gens_above(spec_move_boundary(d, id, to, linked)->Ok_0.0.tiers, n),
{
    let (tier, at) = boundary_location(d.tiers, id)->Some_0;
    let idxs = move_targets(d.tiers, id, tier, linked)->Ok_0;
    lemma_move_all_below(d, n, idxs, at, to);
}

/// Inserting a boundary keeps every id below the generators raised past the
/// ids drawn, one boundary and one interval per split tier.
pub proof fn lemma_insert_boundary_below(d: DocView, n: (u64, u64, u64, u64), tier: TierId, at: Time)
    requires
        gens_above(d.tiers, n),
        spec_insert_boundary(d, tier, at, n.1 as int, n.2 as int) is Ok,
        n.1 + spec_insert_boundary(d, tier, at, n.1 as int, n.2 as int)->Ok_0.1.len() <= u64::MAX,
        n.2 + spec_insert_boundary(d, tier, at, n.1 as int, n.2 as int)->Ok_0.1.len() <= u64::MAX,
    ensures
        ({
            let (c, idxs) = spec_insert_boundary(d, tier, at, n.1 as int, n.2 as int)->Ok_0;
            gens_above(c.tiers, (n.0, (n.1 + idxs.len()) as u64, (n.2 + idxs.len()) as u64, n.3))
        }),
{
    let idxs = spec_aligned_indices(skeleton(d.tiers), tier)->Ok_0;
    lemma_split_all_below(d, n, idxs, at, n.1 as int, n.2 as int);
}

/// Moving recorded boundaries back keeps every id below the generators.
pub proof fn lemma_move_back_all_below(d: DocView, n: (u64, u64, u64, u64), moves: Seq<BoundaryMove>)
    requires
        gens_above(d.tiers, n),
        move_back_all(d, moves) is Ok,
    ensures
        gens_above(move_back_all(d, moves)->Ok_0.tiers, n),
    decreases moves.len(),
{
    if moves.len() > 0 {
        let mv = moves[0];
        let i = first_tier(d.tiers, mv.tier)->Some_0;
        let old_s = d.tiers[i].tier.intervals();
        let (s2, _) = move_in_tier(old_s, d.tiers[i].id, mv.to, mv.from)->Ok_0;
        let k = interior_at(old_s, mv.to)->Some_0;
        assert(is_interior_at(old_s, mv.to, k));
        assert(slot_below(d.tiers[i], n));
        let t = with_intervals(d.tiers[i].tier, s2);
        assert(t.intervals() == s2);
        assert forall|q: int| 0 <= q < s2.len() implies s2[q].id == old_s[q].id
            && s2[q].start_boundary == old_s[q].start_boundary && s2[q].end_boundary
            == old_s[q].end_boundary by {}
        lemma_with_tier_below(d, n, i, t);
        lemma_move_back_all_below(with_tier(d, i, t), n, moves.drop_first());
    }
}

} // verus!
