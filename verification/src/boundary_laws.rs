//! Laws of the boundary edits: a move, a merge and a split are each undone by
//! the inverse they report, stated over the document values their contracts
//! use.
use vstd::prelude::*;

use crate::boundary_edits::{
    interior_at, is_interior_at, merge_all, merge_in_tier, move_all, move_in_tier, move_targets,
    sk_members, skeleton, spec_move_boundary, spec_remove_boundary, with_intervals, split_all,
    split_tier, split_position, is_split_at, last_with_id, spec_insert_boundary,
};
use crate::edits::{first_tier, is_first_tier, with_tier};
use crate::laws::{lemma_first_tier_at, lemma_tier_ids_distinct};
use crate::model::{
    interval_tier_ok, tier_boundaries, tier_content_ok, tier_ids, DocView, IntervalView, SlotView,
    TierView,
};
use crate::ids::{BoundaryId, IntervalId, TierId};
use crate::payloads::{BoundaryMove, InverseView};
use crate::time::Time;
use crate::undo::{
    is_merged_at, merged_position, move_back_all, restore_all, restore_in_tier, spec_apply_inverse,
};

verus! {

// ----------------------------------------------------------------------------
// Order within a tier
// ----------------------------------------------------------------------------

/// In a well-formed tier, interval ends and interval starts strictly increase.
pub proof fn lemma_tier_increasing(xmin: Time, xmax: Time, s: Seq<IntervalView>, a: int, b: int)
    requires
        interval_tier_ok(xmin, xmax, s),
        0 <= a < b < s.len(),
    ensures
        s[a].xmax.spec_lt(s[b].xmax),
        s[a].xmin.spec_lt(s[b].xmin),
        s[a].xmax.spec_le(s[b].xmin),
    decreases b - a,
{
    crate::time::lemma_lt_strict_order(s[a].xmin, s[a].xmax, s[b].xmin);
    if b == a + 1 {
        assert(adjacent_ok_at(s, b));
        crate::time::lemma_lt_strict_order(s[a].xmax, s[b].xmin, s[b].xmax);
        crate::time::lemma_lt_strict_order(s[a].xmin, s[a].xmax, s[b].xmin);
    } else {
        lemma_tier_increasing(xmin, xmax, s, a, b - 1);
        assert(adjacent_ok_at(s, b));
        crate::time::lemma_lt_strict_order(s[a].xmax, s[b - 1].xmax, s[b].xmin);
        crate::time::lemma_lt_strict_order(s[a].xmax, s[b].xmin, s[b].xmax);
        crate::time::lemma_lt_strict_order(s[a].xmin, s[b - 1].xmin, s[b].xmin);
        crate::time::lemma_lt_strict_order(s[b - 1].xmin, s[b - 1].xmax, s[b].xmin);
    }
}

spec fn adjacent_ok_at(s: Seq<IntervalView>, k: int) -> bool {
    crate::model::adjacent_ok(s[k - 1], s[k]) && crate::model::interval_ok(s[k]) && crate::model::interval_ok(s[k - 1])
}

/// In a well-formed tier the interior boundary at a time of interval `k`'s end
/// is `k` itself.
pub proof fn lemma_interior_at_unique(xmin: Time, xmax: Time, s: Seq<IntervalView>, k: int)
    requires
        interval_tier_ok(xmin, xmax, s),
        0 <= k && k + 1 < s.len(),
        s[k + 1].xmin == s[k].xmax,
    ensures
        interior_at(s, s[k].xmax) == Some(k),
{
    let at = s[k].xmax;
    assert forall|j: int| 0 <= j < k implies !(s[j].xmax == at && s[j + 1].xmin == at) by {
        lemma_tier_increasing(xmin, xmax, s, j, k);
    }
    assert(is_interior_at(s, at, k));
    let c = choose|c: int| is_interior_at(s, at, c);
    if c < k {
        lemma_tier_increasing(xmin, xmax, s, c, k);
    } else if c > k {
        lemma_tier_increasing(xmin, xmax, s, k, c);
    }
}

// ----------------------------------------------------------------------------
// Moves
// ----------------------------------------------------------------------------

/// Moving a boundary within one well-formed tier and moving it back from its
/// new time restores the tier and names the same boundary.
pub proof fn lemma_move_in_tier_round(
    xmin: Time,
    xmax: Time,
    s: Seq<IntervalView>,
    tier: crate::ids::TierId,
    at: Time,
    to: Time,
)
    requires
        interval_tier_ok(xmin, xmax, s),
        move_in_tier(s, tier, at, to) is Ok,
        interval_tier_ok(xmin, xmax, move_in_tier(s, tier, at, to)->Ok_0.0),
    ensures
        ({
            let (s2, mv) = move_in_tier(s, tier, at, to)->Ok_0;
            &&& move_in_tier(s2, tier, to, at) is Ok
            &&& move_in_tier(s2, tier, to, at)->Ok_0.0 == s
            &&& move_in_tier(s2, tier, to, at)->Ok_0.1.boundary == mv.boundary
            &&& mv.from == at
            &&& mv.to == to
        }),
{
    let k = interior_at(s, at)->Some_0;
    let c = choose|c: int| is_interior_at(s, at, c);
    assert(is_interior_at(s, at, k));
    let (s2, mv) = move_in_tier(s, tier, at, to)->Ok_0;
    assert(s2[k].xmax == to && s2[k + 1].xmin == to);
    lemma_interior_at_unique(xmin, xmax, s2, k);
    assert(crate::model::interval_ok(s[k]));
    assert(adjacent_ok_at(s, k + 1));
    crate::time::lemma_lt_strict_order(at, s[k + 1].xmin, s[k + 1].xmax);
    crate::time::lemma_lt_strict_order(s[k].xmin, at, s[k].xmax);
    crate::time::lemma_lt_strict_order(s[k].xmin, at, at);
    crate::time::lemma_lt_strict_order(at, s[k + 1].xmax, at);
    let back = move_in_tier(s2, tier, to, at)->Ok_0.0;
    assert(back =~= s);
}

/// The positions in `idxs` lie in range and strictly increase.
pub open spec fn positions_ok(idxs: Seq<int>, len: int) -> bool {
    &&& forall|k: int| 0 <= k < idxs.len() ==> 0 <= #[trigger] idxs[k] < len
    &&& forall|a: int, b: int| 0 <= a < b < idxs.len() ==> idxs[a] < idxs[b]
}

/// The tiers of `e` at the positions in `idxs` replaced by those of `d`.
pub open spec fn restore_at(e: Seq<SlotView>, d: Seq<SlotView>, idxs: Seq<int>) -> Seq<SlotView> {
    Seq::new(e.len(), |j: int| if idxs.contains(j) { d[j] } else { e[j] })
}

/// Moving boundaries in the tiers of `idxs` changes only those tiers and
/// records one move per tier.
pub proof fn lemma_move_all_frame(d: DocView, idxs: Seq<int>, at: Time, to: Time)
    requires
        move_all(d, idxs, at, to) is Ok,
        positions_ok(idxs, d.tiers.len() as int),
    ensures
        ({
            let (c, moves) = move_all(d, idxs, at, to)->Ok_0;
            &&& c.xmin == d.xmin
            &&& c.xmax == d.xmax
            &&& c.tiers.len() == d.tiers.len()
            &&& moves.len() == idxs.len()
            &&& forall|j: int| 0 <= j < d.tiers.len() ==> #[trigger] c.tiers[j].id == d.tiers[j].id
            &&& forall|j: int|
                0 <= j < d.tiers.len() && !idxs.contains(j) ==> #[trigger] c.tiers[j] == d.tiers[j]
        }),
    decreases idxs.len(),
{
    if idxs.len() > 0 {
        let i = idxs[0];
        let (s, mv) = move_in_tier(d.tiers[i].tier.intervals(), d.tiers[i].id, at, to)->Ok_0;
        let d1 = with_tier(d, i, with_intervals(d.tiers[i].tier, s));
        let rest = idxs.drop_first();
        assert(positions_ok(rest, d1.tiers.len() as int)) by {
            assert forall|k: int| 0 <= k < rest.len() implies 0 <= #[trigger] rest[k] < d1.tiers.len() by {
                assert(rest[k] == idxs[k + 1]);
            }
            assert forall|a: int, b: int| 0 <= a < b < rest.len() implies rest[a] < rest[b] by {
                assert(rest[a] == idxs[a + 1] && rest[b] == idxs[b + 1]);
            }
        }
        lemma_move_all_frame(d1, rest, at, to);
        let c = move_all(d, idxs, at, to)->Ok_0.0;
        assert forall|j: int| 0 <= j < d.tiers.len() && !idxs.contains(j) implies #[trigger] c.tiers[j]
            == d.tiers[j] by {
            if rest.contains(j) {
                let k = choose|k: int| 0 <= k < rest.len() && rest[k] == j;
                assert(idxs[k + 1] == j);
            }
            assert(j != i) by {
                assert(idxs[0] == i);
            }
        }
    }
}

/// Moving the recorded boundaries back, in order, from any document that
/// agrees with the moved one on the moved tiers, restores those tiers.
pub proof fn lemma_move_back_round(d: DocView, idxs: Seq<int>, at: Time, to: Time, e: DocView)
    requires
        move_all(d, idxs, at, to) is Ok,
        positions_ok(idxs, d.tiers.len() as int),
        tier_ids(d.tiers).no_duplicates(),
        forall|k: int|
            0 <= k < idxs.len() ==> tier_content_ok(d.xmin, d.xmax, #[trigger] d.tiers[idxs[k]].tier),
        ({
            let c = move_all(d, idxs, at, to)->Ok_0.0;
            &&& forall|k: int|
                0 <= k < idxs.len() ==> tier_content_ok(
                    d.xmin,
                    d.xmax,
                    #[trigger] c.tiers[idxs[k]].tier,
                )
            &&& forall|k: int| 0 <= k < idxs.len() ==> #[trigger] e.tiers[idxs[k]] == c.tiers[idxs[k]]
        }),
        e.tiers.len() == d.tiers.len(),
        forall|j: int| 0 <= j < d.tiers.len() ==> #[trigger] e.tiers[j].id == d.tiers[j].id,
    ensures
        move_back_all(e, move_all(d, idxs, at, to)->Ok_0.1) == Ok::<
            DocView,
            crate::issues::AnnotationError,
        >(DocView { tiers: restore_at(e.tiers, d.tiers, idxs), ..e }),
    decreases idxs.len(),
{
    let (c, moves) = move_all(d, idxs, at, to)->Ok_0;
    lemma_move_all_frame(d, idxs, at, to);
    if idxs.len() == 0 {
        assert(restore_at(e.tiers, d.tiers, idxs) =~= e.tiers);
    } else {
        let i = idxs[0];
        let t = d.tiers[i].tier;
        let (s, mv) = move_in_tier(t.intervals(), d.tiers[i].id, at, to)->Ok_0;
        let d1 = with_tier(d, i, with_intervals(t, s));
        let rest = idxs.drop_first();
        assert(positions_ok(rest, d1.tiers.len() as int)) by {
            assert forall|k: int| 0 <= k < rest.len() implies 0 <= #[trigger] rest[k] < d1.tiers.len() by {
                assert(rest[k] == idxs[k + 1]);
            }
            assert forall|a: int, b: int| 0 <= a < b < rest.len() implies rest[a] < rest[b] by {
                assert(rest[a] == idxs[a + 1] && rest[b] == idxs[b + 1]);
            }
        }
        lemma_move_all_frame(d1, rest, at, to);
        let rest_moves = move_all(d1, rest, at, to)->Ok_0.1;
        assert(moves == seq![mv] + rest_moves);
        assert(!rest.contains(i)) by {
            if rest.contains(i) {
                let k = choose|k: int| 0 <= k < rest.len() && rest[k] == i;
                assert(idxs[k + 1] == i && idxs[0] == i);
            }
        }
        // The moved tier as the inverse finds it.
        assert(c.tiers[i] == d1.tiers[i]);
        assert(e.tiers[idxs[0]] == c.tiers[idxs[0]]);
        assert(tier_content_ok(d.xmin, d.xmax, d.tiers[idxs[0]].tier));
        assert(tier_content_ok(d.xmin, d.xmax, c.tiers[idxs[0]].tier));
        assert(t is Interval);
        lemma_move_in_tier_round(d.xmin, d.xmax, t.intervals(), d.tiers[i].id, at, to);
        assert(first_tier(e.tiers, mv.tier) == Some(i)) by {
            assert forall|j: int| 0 <= j < i implies e.tiers[j].id != mv.tier by {
                if e.tiers[j].id == mv.tier {
                    lemma_tier_ids_distinct(d, j, i);
                }
            }
            assert(is_first_tier(e.tiers, mv.tier, i));
            lemma_first_tier_at(e.tiers, mv.tier, i);
        }
        let ei = e.tiers[i].tier;
        assert(ei == with_intervals(t, s));
        let (s_back, done) = move_in_tier(ei.intervals(), e.tiers[i].id, mv.to, mv.from)->Ok_0;
        assert(with_intervals(ei, s_back) == t);
        let e1 = with_tier(e, i, with_intervals(ei, s_back));
        assert(moves[0] == mv);
        assert(moves.drop_first() =~= rest_moves);
        // The remaining moves, from the document with this tier restored.
        assert forall|k: int| 0 <= k < rest.len() implies #[trigger] e1.tiers[rest[k]] == c.tiers[rest[k]] by {
            assert(rest[k] == idxs[k + 1]);
            assert(rest[k] != i);
            assert(e.tiers[idxs[k + 1]] == c.tiers[idxs[k + 1]]);
        }
        assert forall|k: int| 0 <= k < rest.len() implies tier_content_ok(
            d1.xmin,
            d1.xmax,
            #[trigger] d1.tiers[rest[k]].tier,
        ) by {
            assert(rest[k] == idxs[k + 1]);
            assert(tier_content_ok(d.xmin, d.xmax, d.tiers[idxs[k + 1]].tier));
        }
        assert forall|k: int| 0 <= k < rest.len() implies tier_content_ok(
            d1.xmin,
            d1.xmax,
            #[trigger] c.tiers[rest[k]].tier,
        ) by {
            assert(rest[k] == idxs[k + 1]);
            assert(tier_content_ok(d.xmin, d.xmax, c.tiers[idxs[k + 1]].tier));
        }
        assert(tier_ids(d1.tiers) =~= tier_ids(d.tiers)) by {
            assert forall|j: int| 0 <= j < d.tiers.len() implies tier_ids(d1.tiers)[j] == tier_ids(
                d.tiers,
            )[j] by {}
        }
        lemma_move_back_round(d1, rest, at, to, e1);
        assert(restore_at(e1.tiers, d1.tiers, rest) =~= restore_at(e.tiers, d.tiers, idxs)) by {
            assert forall|j: int| 0 <= j < e.tiers.len() implies #[trigger] restore_at(
                e1.tiers,
                d1.tiers,
                rest,
            )[j] == restore_at(e.tiers, d.tiers, idxs)[j] by {
                if j == i {
                } else if rest.contains(j) {
                    let k = choose|k: int| 0 <= k < rest.len() && rest[k] == j;
                    assert(idxs[k + 1] == j);
                    assert(idxs.contains(j));
                } else {
                    if idxs.contains(j) {
                        let k = choose|k: int| 0 <= k < idxs.len() && idxs[k] == j;
                        if k > 0 {
                            assert(rest[k - 1] == j);
                        }
                    }
                }
            }
        }
    }
}

/// The members collected from `j` on strictly increase and lie in `j..`.
pub proof fn lemma_members_increasing(
    sk: Seq<(crate::ids::TierId, crate::model::TierRelation, bool)>,
    s: Set<crate::ids::TierId>,
    j: int,
)
    requires
        0 <= j <= sk.len(),
    ensures
        sk_members(sk, s, j) matches Ok(idxs) ==> {
            &&& forall|k: int| 0 <= k < idxs.len() ==> j <= #[trigger] idxs[k] < sk.len()
            &&& forall|a: int, b: int| 0 <= a < b < idxs.len() ==> idxs[a] < idxs[b]
        },
    decreases sk.len() - j,
{
    if j < sk.len() {
        lemma_members_increasing(sk, s, j + 1);
        if let Ok(idxs) = sk_members(sk, s, j) {
            if s.contains(sk[j].0) {
                let rest = sk_members(sk, s, j + 1)->Ok_0;
                assert(idxs == seq![j] + rest);
                assert forall|a: int, b: int| 0 <= a < b < idxs.len() implies idxs[a] < idxs[b] by {
                    if a == 0 {
                        assert(idxs[b] == rest[b - 1]);
                    } else {
                        assert(idxs[a] == rest[a - 1] && idxs[b] == rest[b - 1]);
                    }
                }
                assert forall|k: int| 0 <= k < idxs.len() implies j <= #[trigger] idxs[k] < sk.len() by {
                    if k > 0 {
                        assert(idxs[k] == rest[k - 1]);
                    }
                }
            }
        }
    }
}

/// The aligned component of a tier is a set of distinct positions in
/// increasing order.
pub proof fn lemma_aligned_positions(tiers: Seq<SlotView>, tier: crate::ids::TierId)
    ensures
        crate::boundary_edits::spec_aligned_indices(skeleton(tiers), tier) matches Ok(idxs)
            ==> positions_ok(idxs, tiers.len() as int),
{
    let sk = skeleton(tiers);
    if crate::boundary_edits::sk_first(sk, tier) is Some {
        let i = crate::boundary_edits::sk_first(sk, tier)->Some_0;
        if sk[i].2 {
            if let Ok(set) = crate::boundary_edits::sk_closure(sk, set![tier], (sk.len() + 1) as nat) {
                lemma_members_increasing(sk, set, 0);
            }
        }
    }
}

/// The tiers a move spreads over are distinct positions in increasing order.
pub proof fn lemma_move_targets_ok(
    tiers: Seq<SlotView>,
    id: crate::ids::BoundaryId,
    tier: crate::ids::TierId,
    linked: bool,
)
    requires
        move_targets(tiers, id, tier, linked) is Ok,
    ensures
        positions_ok(move_targets(tiers, id, tier, linked)->Ok_0, tiers.len() as int),
{
    let sk = skeleton(tiers);
    let targets = move_targets(tiers, id, tier, linked)->Ok_0;
    let idxs = crate::boundary_edits::spec_aligned_indices(sk, tier)->Ok_0;
    lemma_aligned_positions(tiers, tier);
    if !linked && idxs.len() <= 1 {
        let i = first_tier(tiers, tier)->Some_0;
        let w = choose|k: int| is_first_tier(tiers, tier, k);
        assert(is_first_tier(tiers, tier, w));
        assert(targets == seq![i]);
    }
}

/// Moving a boundary and then moving the recorded boundaries back gives back
/// the document: the inverse of a successful boundary move restores the
/// document value.
pub proof fn law_move_boundary_inverse(
    d: DocView,
    id: crate::ids::BoundaryId,
    to: Time,
    linked: bool,
)
    requires
        d.valid(),
        spec_move_boundary(d, id, to, linked) is Ok,
        spec_move_boundary(d, id, to, linked)->Ok_0.0.valid(),
    ensures
        spec_apply_inverse(
            spec_move_boundary(d, id, to, linked)->Ok_0.0,
            InverseView::MoveBoundaries { moves: spec_move_boundary(d, id, to, linked)->Ok_0.1 },
        ) == Ok::<DocView, crate::issues::AnnotationError>(d),
{
    let (tier, at) = crate::boundary_edits::boundary_location(d.tiers, id)->Some_0;
    let idxs = move_targets(d.tiers, id, tier, linked)->Ok_0;
    lemma_move_targets_ok(d.tiers, id, tier, linked);
    let (c, moves) = move_all(d, idxs, at, to)->Ok_0;
    lemma_move_all_frame(d, idxs, at, to);
    assert forall|k: int| 0 <= k < idxs.len() implies tier_content_ok(
        d.xmin,
        d.xmax,
        #[trigger] d.tiers[idxs[k]].tier,
    ) by {}
    assert forall|k: int| 0 <= k < idxs.len() implies tier_content_ok(
        d.xmin,
        d.xmax,
        #[trigger] c.tiers[idxs[k]].tier,
    ) by {}
    lemma_move_back_round(d, idxs, at, to, c);
    assert(restore_at(c.tiers, d.tiers, idxs) =~= d.tiers);
}

// ----------------------------------------------------------------------------
// Merges
// ----------------------------------------------------------------------------

/// Merging at a boundary of one well-formed tier and restoring the merge
/// record gives back the tier.
pub proof fn lemma_merge_in_tier_round(
    xmin: Time,
    xmax: Time,
    s: Seq<IntervalView>,
    tier: crate::ids::TierId,
    at: Time,
)
    requires
        interval_tier_ok(xmin, xmax, s),
        merge_in_tier(s, tier, at) is Ok,
    ensures
        ({
            let (s2, m) = merge_in_tier(s, tier, at)->Ok_0;
            &&& merged_position(s2, m.merged) is Some
            &&& s2.subrange(0, merged_position(s2, m.merged)->Some_0) + seq![m.left, m.right]
                + s2.subrange(merged_position(s2, m.merged)->Some_0 + 1, s2.len() as int) == s
            &&& m.tier == tier
        }),
{
    let k = interior_at(s, at)->Some_0;
    let c = choose|c: int| is_interior_at(s, at, c);
    assert(is_interior_at(s, at, k));
    let (s2, m) = merge_in_tier(s, tier, at)->Ok_0;
    let n = s.len() as int;
    assert(s2.len() == n - 1);
    assert(forall|j: int| 0 <= j < k ==> s2[j] == s[j]);
    assert(s2[k] == m.merged);
    assert(forall|j: int| k < j < n - 1 ==> s2[j] == s[j + 1]);
    assert(m.left == s[k] && m.right == s[k + 1]);
    assert(crate::model::interval_ok(s[k]));
    lemma_merged_first(xmin, xmax, s, s2, m.merged, k);
    let rebuilt = s2.subrange(0, k) + seq![m.left, m.right] + s2.subrange(k + 1, s2.len() as int);
    assert(rebuilt.len() == n);
    assert forall|j: int| 0 <= j < n implies rebuilt[j] == s[j] by {
        if j < k {
        } else if j == k {
        } else if j == k + 1 {
        } else {
            assert(rebuilt[j] == s2[j - 1]);
        }
    }
    assert(rebuilt =~= s);
}

/// The merged interval is the first interval equal to it.
proof fn lemma_merged_first(
    xmin: Time,
    xmax: Time,
    s: Seq<IntervalView>,
    s2: Seq<IntervalView>,
    merged: IntervalView,
    k: int,
)
    requires
        interval_tier_ok(xmin, xmax, s),
        0 <= k < s2.len(),
        k < s.len(),
        s2[k] == merged,
        merged.xmin == s[k].xmin,
        crate::model::interval_ok(s[k]),
        merged.xmax.spec_is_finite(),
        forall|j: int| 0 <= j < k ==> s2[j] == s[j],
    ensures
        merged_position(s2, merged) == Some(k),
{
    assert forall|j: int| 0 <= j < k implies !crate::undo::interval_ieee_eq(s2[j], merged) by {
        lemma_tier_increasing(xmin, xmax, s, j, k);
    }
    assert(crate::undo::interval_ieee_eq(s2[k], merged));
    assert(is_merged_at(s2, merged, k));
    let p = choose|p: int| is_merged_at(s2, merged, p);
    assert(is_merged_at(s2, merged, p));
    if p > k {
        assert(crate::undo::interval_ieee_eq(s2[k], merged));
    }
}

/// Merging in the tiers of `idxs` changes only those tiers and records one
/// merge per tier.
pub proof fn lemma_merge_all_frame(d: DocView, idxs: Seq<int>, at: Time)
    requires
        merge_all(d, idxs, at) is Ok,
        positions_ok(idxs, d.tiers.len() as int),
    ensures
        ({
            let (c, merges) = merge_all(d, idxs, at)->Ok_0;
            &&& c.xmin == d.xmin
            &&& c.xmax == d.xmax
            &&& c.tiers.len() == d.tiers.len()
            &&& merges.len() == idxs.len()
            &&& forall|j: int| 0 <= j < d.tiers.len() ==> #[trigger] c.tiers[j].id == d.tiers[j].id
            &&& forall|j: int|
                0 <= j < d.tiers.len() && !idxs.contains(j) ==> #[trigger] c.tiers[j] == d.tiers[j]
        }),
    decreases idxs.len(),
{
    if idxs.len() > 0 {
        let i = idxs[0];
        let (s, m) = merge_in_tier(d.tiers[i].tier.intervals(), d.tiers[i].id, at)->Ok_0;
        let d1 = with_tier(d, i, with_intervals(d.tiers[i].tier, s));
        let rest = idxs.drop_first();
        lemma_positions_rest(idxs, d.tiers.len() as int);
        lemma_merge_all_frame(d1, rest, at);
        let c = merge_all(d, idxs, at)->Ok_0.0;
        assert forall|j: int| 0 <= j < d.tiers.len() && !idxs.contains(j) implies #[trigger] c.tiers[j]
            == d.tiers[j] by {
            if rest.contains(j) {
                let k = choose|k: int| 0 <= k < rest.len() && rest[k] == j;
                assert(idxs[k + 1] == j);
            }
            assert(j != i) by {
                assert(idxs[0] == i);
            }
        }
    }
}

/// Dropping the first position keeps the rest in order, without it.
pub proof fn lemma_positions_rest(idxs: Seq<int>, len: int)
    requires
        positions_ok(idxs, len),
        idxs.len() > 0,
    ensures
        positions_ok(idxs.drop_first(), len),
        !idxs.drop_first().contains(idxs[0]),
        forall|j: int| idxs.drop_first().contains(j) ==> idxs.contains(j) && j != idxs[0],
        forall|j: int| idxs.contains(j) && j != idxs[0] ==> idxs.drop_first().contains(j),
{
    let rest = idxs.drop_first();
    assert forall|k: int| 0 <= k < rest.len() implies 0 <= #[trigger] rest[k] < len by {
        assert(rest[k] == idxs[k + 1]);
    }
    assert forall|a: int, b: int| 0 <= a < b < rest.len() implies rest[a] < rest[b] by {
        assert(rest[a] == idxs[a + 1] && rest[b] == idxs[b + 1]);
    }
    if rest.contains(idxs[0]) {
        let k = choose|k: int| 0 <= k < rest.len() && rest[k] == idxs[0];
        assert(idxs[k + 1] == idxs[0]);
    }
    assert forall|j: int| rest.contains(j) implies idxs.contains(j) && j != idxs[0] by {
        let k = choose|k: int| 0 <= k < rest.len() && rest[k] == j;
        assert(idxs[k + 1] == j);
    }
    assert forall|j: int| idxs.contains(j) && j != idxs[0] implies rest.contains(j) by {
        let k = choose|k: int| 0 <= k < idxs.len() && idxs[k] == j;
        assert(k > 0);
        assert(rest[k - 1] == j);
    }
}

/// Restoring the recorded merges, in order, from any document that agrees
/// with the merged one on the merged tiers, restores those tiers.
pub proof fn lemma_restore_round(d: DocView, idxs: Seq<int>, at: Time, e: DocView)
    requires
        merge_all(d, idxs, at) is Ok,
        positions_ok(idxs, d.tiers.len() as int),
        tier_ids(d.tiers).no_duplicates(),
        forall|k: int|
            0 <= k < idxs.len() ==> tier_content_ok(d.xmin, d.xmax, #[trigger] d.tiers[idxs[k]].tier),
        forall|k: int|
            0 <= k < idxs.len() ==> #[trigger] e.tiers[idxs[k]] == merge_all(d, idxs, at)->Ok_0.0.tiers[idxs[k]],
        e.tiers.len() == d.tiers.len(),
        forall|j: int| 0 <= j < d.tiers.len() ==> #[trigger] e.tiers[j].id == d.tiers[j].id,
    ensures
        restore_all(e, merge_all(d, idxs, at)->Ok_0.1) == Ok::<
            DocView,
            crate::issues::AnnotationError,
        >(DocView { tiers: restore_at(e.tiers, d.tiers, idxs), ..e }),
    decreases idxs.len(),
{
    let (c, merges) = merge_all(d, idxs, at)->Ok_0;
    lemma_merge_all_frame(d, idxs, at);
    if idxs.len() == 0 {
        assert(restore_at(e.tiers, d.tiers, idxs) =~= e.tiers);
    } else {
        let i = idxs[0];
        let t = d.tiers[i].tier;
        let (s, m) = merge_in_tier(t.intervals(), d.tiers[i].id, at)->Ok_0;
        let d1 = with_tier(d, i, with_intervals(t, s));
        let rest = idxs.drop_first();
        lemma_positions_rest(idxs, d.tiers.len() as int);
        lemma_merge_all_frame(d1, rest, at);
        let rest_merges = merge_all(d1, rest, at)->Ok_0.1;
        assert(merges == seq![m] + rest_merges);
        assert(c.tiers[i] == d1.tiers[i]);
        assert(e.tiers[idxs[0]] == c.tiers[idxs[0]]);
        assert(tier_content_ok(d.xmin, d.xmax, d.tiers[idxs[0]].tier));
        assert(t is Interval);
        lemma_merge_in_tier_round(d.xmin, d.xmax, t.intervals(), d.tiers[i].id, at);
        assert(first_tier(e.tiers, m.tier) == Some(i)) by {
            assert forall|j: int| 0 <= j < i implies e.tiers[j].id != m.tier by {
                if e.tiers[j].id == m.tier {
                    lemma_tier_ids_distinct(d, j, i);
                }
            }
            assert(is_first_tier(e.tiers, m.tier, i));
            lemma_first_tier_at(e.tiers, m.tier, i);
        }
        let ei = e.tiers[i].tier;
        assert(ei == with_intervals(t, s));
        let p = merged_position(s, m.merged)->Some_0;
        let rebuilt = s.subrange(0, p) + seq![m.left, m.right] + s.subrange(p + 1, s.len() as int);
        assert(with_intervals(ei, rebuilt) == t);
        let e1 = with_tier(e, i, with_intervals(ei, rebuilt));
        assert(restore_in_tier(e, m) == Ok::<DocView, crate::issues::AnnotationError>(e1));
        assert(merges[0] == m);
        assert(merges.drop_first() =~= rest_merges);
        assert forall|k: int| 0 <= k < rest.len() implies #[trigger] e1.tiers[rest[k]]
            == merge_all(d1, rest, at)->Ok_0.0.tiers[rest[k]] by {
            assert(rest[k] == idxs[k + 1]);
            assert(e.tiers[idxs[k + 1]] == c.tiers[idxs[k + 1]]);
        }
        assert forall|k: int| 0 <= k < rest.len() implies tier_content_ok(
            d1.xmin,
            d1.xmax,
            #[trigger] d1.tiers[rest[k]].tier,
        ) by {
            assert(rest[k] == idxs[k + 1]);
            assert(tier_content_ok(d.xmin, d.xmax, d.tiers[idxs[k + 1]].tier));
        }
        assert(tier_ids(d1.tiers) =~= tier_ids(d.tiers)) by {
            assert forall|j: int| 0 <= j < d.tiers.len() implies tier_ids(d1.tiers)[j] == tier_ids(
                d.tiers,
            )[j] by {}
        }
        lemma_restore_round(d1, rest, at, e1);
        assert(restore_at(e1.tiers, d1.tiers, rest) =~= restore_at(e.tiers, d.tiers, idxs)) by {
            assert forall|j: int| 0 <= j < e.tiers.len() implies #[trigger] restore_at(
                e1.tiers,
                d1.tiers,
                rest,
            )[j] == restore_at(e.tiers, d.tiers, idxs)[j] by {
                if j == i {
                } else if rest.contains(j) {
                } else {
                }
            }
        }
    }
}

/// Removing a boundary and then restoring the recorded merges gives back the
/// document: the inverse of a successful boundary removal restores the
/// document value.
pub proof fn law_remove_boundary_inverse(d: DocView, id: crate::ids::BoundaryId)
    requires
        d.valid(),
        spec_remove_boundary(d, id) is Ok,
    ensures
        spec_apply_inverse(
            spec_remove_boundary(d, id)->Ok_0.0,
            InverseView::RestoreMergedBoundary { merges: spec_remove_boundary(d, id)->Ok_0.1 },
        ) == Ok::<DocView, crate::issues::AnnotationError>(d),
{
    let (tier, at) = crate::boundary_edits::boundary_location(d.tiers, id)->Some_0;
    let idxs = crate::boundary_edits::spec_aligned_indices(skeleton(d.tiers), tier)->Ok_0;
    lemma_aligned_positions(d.tiers, tier);
    let (c, merges) = merge_all(d, idxs, at)->Ok_0;
    lemma_merge_all_frame(d, idxs, at);
    assert forall|k: int| 0 <= k < idxs.len() implies tier_content_ok(
        d.xmin,
        d.xmax,
        #[trigger] d.tiers[idxs[k]].tier,
    ) by {}
    lemma_restore_round(d, idxs, at, c);
    assert(restore_at(c.tiers, d.tiers, idxs) =~= d.tiers);
}

// ----------------------------------------------------------------------------
// Splits
// ----------------------------------------------------------------------------

/// Every boundary an interval tier lists has an id below `nb`.
pub open spec fn listed_below(t: TierView, nb: int) -> bool {
    t is Interval ==> forall|m: int|
        0 <= m < tier_boundaries(t.intervals()).len() ==> (#[trigger] tier_boundaries(
            t.intervals(),
        )[m]).0.0 < nb
}

/// The interval `k` a split cuts, and the two halves that replace it.
pub open spec fn split_at_k(
    s: Seq<IntervalView>,
    k: int,
    at: Time,
    nb: BoundaryId,
    ni: IntervalId,
) -> Seq<IntervalView> {
    let o = s[k];
    s.update(k, IntervalView { end_boundary: nb, xmax: at, ..o }).insert(
        k + 1,
        IntervalView {
            id: ni,
            start_boundary: nb,
            end_boundary: o.end_boundary,
            xmin: at,
            xmax: o.xmax,
            label: o.label,
        },
    )
}

/// A split tier lists the boundaries the tier listed and the new one; the new
/// one is listed first at the split position, at the split time.
pub proof fn lemma_split_listing(
    s: Seq<IntervalView>,
    k: int,
    at: Time,
    nb: BoundaryId,
    ni: IntervalId,
    below: int,
)
    requires
        0 <= k < s.len(),
        forall|m: int|
            0 <= m < tier_boundaries(s).len() ==> (#[trigger] tier_boundaries(s)[m]).0.0 < below,
        nb.0 >= below,
    ensures
        ({
            let b2 = tier_boundaries(split_at_k(s, k, at, nb, ni));
            &&& forall|m: int|
                0 <= m < b2.len() ==> (#[trigger] b2[m]).0.0 < below || b2[m].0 == nb
            &&& crate::boundary_edits::is_first_listing(b2, nb, k + 1)
            &&& b2[k + 1].1 == at
        }),
{
    let s2 = split_at_k(s, k, at, nb, ni);
    let b = tier_boundaries(s);
    let b2 = tier_boundaries(s2);
    let n = s.len() as int;
    assert(s2.len() == n + 1);
    assert(b.len() == n + 1);
    assert(b2.len() == n + 2);
    assert(forall|j: int| 0 <= j < n ==> b[j + 1] == (s[j].end_boundary, s[j].xmax));
    assert(forall|j: int| 0 <= j < n + 1 ==> b2[j + 1] == (s2[j].end_boundary, s2[j].xmax));
    assert(b[0] == (s[0].start_boundary, s[0].xmin));
    assert(b2[0] == (s2[0].start_boundary, s2[0].xmin));
    assert(s2[0].start_boundary == s[0].start_boundary);
    assert(b2[0].0.0 < below) by {
        assert(b[0].0.0 < below);
    }
    assert forall|m: int| 0 <= m < b2.len() implies (#[trigger] b2[m]).0.0 < below || b2[m].0 == nb by {
        if m == 0 {
        } else if m <= k {
            assert(s2[m - 1] == s[m - 1]);
            assert(b[m].0.0 < below);
        } else if m == k + 1 {
        } else if m == k + 2 {
            assert(s2[k + 1].end_boundary == s[k].end_boundary);
            assert(b[k + 1].0.0 < below);
        } else {
            assert(s2[m - 1] == s[m - 2]);
            assert(b[m - 1].0.0 < below);
        }
    }
    assert forall|j: int| 0 <= j < k + 1 implies b2[j].0 != nb by {
        if j == 0 {
        } else {
            assert(s2[j - 1] == s[j - 1]);
            assert(b[j].0.0 < below);
        }
    }
}

/// Splitting a well-formed tier and merging at the split time gives back the
/// tier.
pub proof fn lemma_split_in_tier_round(
    xmin: Time,
    xmax: Time,
    s: Seq<IntervalView>,
    tier: TierId,
    at: Time,
    nb: BoundaryId,
    ni: IntervalId,
)
    requires
        split_tier(s, at, nb, ni, tier) is Ok,
        interval_tier_ok(xmin, xmax, split_tier(s, at, nb, ni, tier)->Ok_0),
    ensures
        merge_in_tier(split_tier(s, at, nb, ni, tier)->Ok_0, tier, at) is Ok,
        merge_in_tier(split_tier(s, at, nb, ni, tier)->Ok_0, tier, at)->Ok_0.0 == s,
{
    let k = split_position(s, at)->Some_0;
    let w = choose|w: int| is_split_at(s, at, w);
    assert(is_split_at(s, at, w));
    let s2 = split_tier(s, at, nb, ni, tier)->Ok_0;
    assert(s2 == split_at_k(s, k, at, nb, ni));
    let n = s.len() as int;
    assert(s2.len() == n + 1);
    assert(s2[k].xmax == at && s2[k + 1].xmin == at);
    lemma_interior_at_unique(xmin, xmax, s2, k);
    let (s3, m) = merge_in_tier(s2, tier, at)->Ok_0;
    assert(m.merged == s[k]);
    assert(s3.len() == n);
    assert forall|j: int| 0 <= j < n implies s3[j] == s[j] by {
        if j < k {
        } else if j == k {
        } else {
            assert(s3[j] == s2[j + 1]);
        }
    }
    assert(s3 =~= s);
}

/// Splitting the tiers of `idxs` changes only those tiers, keeps every
/// tier's id, relation and kind, and gives tier `idxs[q]` the new boundary
/// `nb + q`, listed first at the split time next to the ids it listed before.
pub proof fn lemma_split_all_frame(d: DocView, idxs: Seq<int>, at: Time, nb: int, ni: int, below: int)
    requires
        split_all(d, idxs, at, nb, ni) is Ok,
        positions_ok(idxs, d.tiers.len() as int),
        0 <= below <= nb,
        nb + idxs.len() <= u64::MAX + 1,
        forall|k: int| 0 <= k < idxs.len() ==> listed_below(#[trigger] d.tiers[idxs[k]].tier, below),
    ensures
        ({
            let c = split_all(d, idxs, at, nb, ni)->Ok_0;
            &&& c.xmin == d.xmin
            &&& c.xmax == d.xmax
            &&& c.tiers.len() == d.tiers.len()
            &&& forall|j: int| 0 <= j < d.tiers.len() ==> #[trigger] c.tiers[j].id == d.tiers[j].id
            &&& forall|j: int|
                0 <= j < d.tiers.len() ==> #[trigger] c.tiers[j].relation == d.tiers[j].relation
            &&& forall|j: int|
                0 <= j < d.tiers.len() ==> (#[trigger] c.tiers[j].tier is Interval
                    <==> d.tiers[j].tier is Interval)
            &&& forall|j: int|
                0 <= j < d.tiers.len() && !idxs.contains(j) ==> #[trigger] c.tiers[j] == d.tiers[j]
            &&& forall|q: int| 0 <= q < idxs.len() ==> split_listed(d, c, idxs[q], at, nb + q, below)
        }),
    decreases idxs.len(),
{
    if idxs.len() > 0 {
        let i = idxs[0];
        let t = d.tiers[i].tier;
        let s2 = split_tier(t.intervals(), at, BoundaryId(nb as u64), IntervalId(ni as u64), d.tiers[i].id)->Ok_0;
        let d1 = with_tier(d, i, with_intervals(t, s2));
        let rest = idxs.drop_first();
        lemma_positions_rest(idxs, d.tiers.len() as int);
        assert forall|k: int| 0 <= k < rest.len() implies listed_below(#[trigger] d1.tiers[rest[k]].tier, below) by {
            assert(rest[k] == idxs[k + 1]);
            assert(listed_below(d.tiers[idxs[k + 1]].tier, below));
        }
        lemma_split_all_frame(d1, rest, at, nb + 1, ni + 1, below);
        let c = split_all(d, idxs, at, nb, ni)->Ok_0;
        assert(c == split_all(d1, rest, at, nb + 1, ni + 1)->Ok_0);
        assert forall|j: int| 0 <= j < d.tiers.len() && !idxs.contains(j) implies #[trigger] c.tiers[j]
            == d.tiers[j] by {
            assert(!rest.contains(j));
        }
        assert forall|q: int| 0 <= q < idxs.len() implies split_listed(d, c, idxs[q], at, nb + q, below) by {
            if q == 0 {
                let k = split_position(t.intervals(), at)->Some_0;
                let w = choose|w: int| is_split_at(t.intervals(), at, w);
                assert(is_split_at(t.intervals(), at, w));
                assert(s2 == split_at_k(t.intervals(), k, at, BoundaryId(nb as u64), IntervalId(ni as u64)));
                assert(listed_below(d.tiers[idxs[0]].tier, below));
                lemma_split_listing(t.intervals(), k, at, BoundaryId(nb as u64), IntervalId(ni as u64), below);
                assert(c.tiers[i] == d1.tiers[i]);
            } else {
                assert(rest[q - 1] == idxs[q]);
                assert(split_listed(d1, c, rest[q - 1], at, nb + 1 + (q - 1), below));
                assert(idxs[q] != i);
                assert(d1.tiers[idxs[q]] == d.tiers[idxs[q]]);
            }
        }
    }
}

/// Tier `j` of `c` is tier `j` of `d` split at `at` with new boundary `id`:
/// it lists `id` first at the split position, at time `at`, and otherwise
/// only ids below `below`.
pub open spec fn split_listed(d: DocView, c: DocView, j: int, at: Time, id: int, below: int) -> bool {
    let k = split_position(d.tiers[j].tier.intervals(), at)->Some_0;
    let b2 = tier_boundaries(c.tiers[j].tier.intervals());
    &&& c.tiers[j].tier is Interval
    &&& split_position(d.tiers[j].tier.intervals(), at) is Some
    &&& crate::boundary_edits::is_first_listing(b2, BoundaryId(id as u64), k + 1)
    &&& b2[k + 1].1 == at
    &&& forall|m: int| 0 <= m < b2.len() ==> (#[trigger] b2[m]).0.0 < below || b2[m].0.0 == id
}

/// Splitting the tiers of `idxs` changes only those tiers and keeps every
/// tier's id.
pub proof fn lemma_split_all_keeps(d: DocView, idxs: Seq<int>, at: Time, nb: int, ni: int)
    requires
        split_all(d, idxs, at, nb, ni) is Ok,
        positions_ok(idxs, d.tiers.len() as int),
    ensures
        ({
            let c = split_all(d, idxs, at, nb, ni)->Ok_0;
            &&& c.xmin == d.xmin
            &&& c.xmax == d.xmax
            &&& c.tiers.len() == d.tiers.len()
            &&& forall|j: int| 0 <= j < d.tiers.len() ==> #[trigger] c.tiers[j].id == d.tiers[j].id
            &&& forall|j: int|
                0 <= j < d.tiers.len() && !idxs.contains(j) ==> #[trigger] c.tiers[j] == d.tiers[j]
        }),
    decreases idxs.len(),
{
    if idxs.len() > 0 {
        let i = idxs[0];
        let t = d.tiers[i].tier;
        let s2 = split_tier(t.intervals(), at, BoundaryId(nb as u64), IntervalId(ni as u64), d.tiers[i].id)->Ok_0;
        let d1 = with_tier(d, i, with_intervals(t, s2));
        let rest = idxs.drop_first();
        lemma_positions_rest(idxs, d.tiers.len() as int);
        lemma_split_all_keeps(d1, rest, at, nb + 1, ni + 1);
        let c = split_all(d, idxs, at, nb, ni)->Ok_0;
        assert forall|j: int| 0 <= j < d.tiers.len() && !idxs.contains(j) implies #[trigger] c.tiers[j]
            == d.tiers[j] by {
            assert(!rest.contains(j));
        }
    }
}

/// Merging at the split time, in order, from any document that agrees with
/// the split one on the split tiers, restores those tiers.
pub proof fn lemma_unsplit_round(d: DocView, idxs: Seq<int>, at: Time, nb: int, ni: int, e: DocView)
    requires
        split_all(d, idxs, at, nb, ni) is Ok,
        positions_ok(idxs, d.tiers.len() as int),
        forall|k: int|
            0 <= k < idxs.len() ==> tier_content_ok(
                d.xmin,
                d.xmax,
                #[trigger] split_all(d, idxs, at, nb, ni)->Ok_0.tiers[idxs[k]].tier,
            ),
        forall|k: int|
            0 <= k < idxs.len() ==> #[trigger] e.tiers[idxs[k]] == split_all(d, idxs, at, nb, ni)->Ok_0.tiers[idxs[k]],
        e.tiers.len() == d.tiers.len(),
    ensures
        merge_all(e, idxs, at) is Ok,
        merge_all(e, idxs, at)->Ok_0.0 == (DocView { tiers: restore_at(e.tiers, d.tiers, idxs), ..e }),
    decreases idxs.len(),
{
    let c = split_all(d, idxs, at, nb, ni)->Ok_0;
    lemma_split_all_keeps(d, idxs, at, nb, ni);
    if idxs.len() == 0 {
        assert(restore_at(e.tiers, d.tiers, idxs) =~= e.tiers);
    } else {
        let i = idxs[0];
        let t = d.tiers[i].tier;
        let s2 = split_tier(t.intervals(), at, BoundaryId(nb as u64), IntervalId(ni as u64), d.tiers[i].id)->Ok_0;
        let d1 = with_tier(d, i, with_intervals(t, s2));
        let rest = idxs.drop_first();
        lemma_positions_rest(idxs, d.tiers.len() as int);
        lemma_split_all_keeps(d1, rest, at, nb + 1, ni + 1);
        assert(c == split_all(d1, rest, at, nb + 1, ni + 1)->Ok_0);
        assert(c.tiers[i] == d1.tiers[i]);
        assert(e.tiers[idxs[0]] == c.tiers[idxs[0]]);
        assert(tier_content_ok(d.xmin, d.xmax, c.tiers[idxs[0]].tier));
        assert(t is Interval);
        assert(e.tiers[i].id == d.tiers[i].id);
        lemma_split_in_tier_round(d.xmin, d.xmax, t.intervals(), d.tiers[i].id, at, BoundaryId(nb as u64), IntervalId(ni as u64));
        let ei = e.tiers[i].tier;
        assert(ei == with_intervals(t, s2));
        let (s_back, m) = merge_in_tier(ei.intervals(), e.tiers[i].id, at)->Ok_0;
        assert(s_back == t.intervals());
        assert(with_intervals(ei, s_back) == t);
        let e1 = with_tier(e, i, with_intervals(ei, s_back));
        assert forall|k: int| 0 <= k < rest.len() implies #[trigger] e1.tiers[rest[k]]
            == split_all(d1, rest, at, nb + 1, ni + 1)->Ok_0.tiers[rest[k]] by {
            assert(rest[k] == idxs[k + 1]);
            assert(e.tiers[idxs[k + 1]] == c.tiers[idxs[k + 1]]);
        }
        assert forall|k: int| 0 <= k < rest.len() implies tier_content_ok(
            d1.xmin,
            d1.xmax,
            #[trigger] split_all(d1, rest, at, nb + 1, ni + 1)->Ok_0.tiers[rest[k]].tier,
        ) by {
            assert(rest[k] == idxs[k + 1]);
            assert(tier_content_ok(d.xmin, d.xmax, c.tiers[idxs[k + 1]].tier));
        }
        lemma_unsplit_round(d1, rest, at, nb + 1, ni + 1, e1);
        assert(restore_at(e1.tiers, d1.tiers, rest) =~= restore_at(e.tiers, d.tiers, idxs)) by {
            assert forall|j: int| 0 <= j < e.tiers.len() implies #[trigger] restore_at(
                e1.tiers,
                d1.tiers,
                rest,
            )[j] == restore_at(e.tiers, d.tiers, idxs)[j] by {
                if j == i {
                } else if rest.contains(j) {
                } else {
                }
            }
        }
    }
}

/// The position `last_with_id` reports carries the id it looked for.
pub proof fn lemma_last_with_id_carries(tiers: Seq<SlotView>, idxs: Seq<int>, tier: TierId)
    ensures
        last_with_id(tiers, idxs, tier) matches Some(q) ==> 0 <= q < idxs.len() && 0 <= idxs[q]
            < tiers.len() && tiers[idxs[q]].id == tier,
    decreases idxs.len(),
{
    if idxs.len() > 0 {
        lemma_last_with_id_carries(tiers, idxs.drop_last(), tier);
    }
}

/// Inserting a boundary and then removing the boundary the insertion reports
/// gives back the document: the inverse of a successful boundary insertion
/// restores the document value, when the new boundary ids are fresh (every id
/// the document lists is below the first one drawn).
#[verifier::spinoff_prover]
#[verifier::rlimit(60)]
pub proof fn law_insert_boundary_inverse(d: DocView, tier: TierId, at: Time, nb: int, ni: int)
    requires
        d.valid(),
        0 <= nb,
        nb + d.tiers.len() <= u64::MAX,
        forall|j: int| 0 <= j < d.tiers.len() ==> listed_below(#[trigger] d.tiers[j].tier, nb),
        spec_insert_boundary(d, tier, at, nb, ni) is Ok,
        spec_insert_boundary(d, tier, at, nb, ni)->Ok_0.0.valid(),
        last_with_id(d.tiers, spec_insert_boundary(d, tier, at, nb, ni)->Ok_0.1, tier) is Some,
    ensures
        ({
            let (c, idxs) = spec_insert_boundary(d, tier, at, nb, ni)->Ok_0;
            let q = last_with_id(d.tiers, idxs, tier)->Some_0;
            spec_apply_inverse(c, InverseView::RemoveBoundary { boundary: BoundaryId((nb + q) as u64) })
                == Ok::<DocView, crate::issues::AnnotationError>(d)
        }),
{
    let (c, idxs) = spec_insert_boundary(d, tier, at, nb, ni)->Ok_0;
    lemma_aligned_positions(d.tiers, tier);
    lemma_members_len(d.tiers, tier);
    let q = last_with_id(d.tiers, idxs, tier)->Some_0;
    lemma_last_with_id_carries(d.tiers, idxs, tier);
    let b = BoundaryId((nb + q) as u64);
    let home = idxs[q];
    assert forall|k: int| 0 <= k < idxs.len() implies listed_below(#[trigger] d.tiers[idxs[k]].tier, nb) by {}
    lemma_split_all_frame(d, idxs, at, nb, ni, nb);
    lemma_split_all_keeps(d, idxs, at, nb, ni);
    // The new boundary's home is the split tier carrying `tier`.
    assert(split_listed(d, c, idxs[q], at, nb + q, nb));
    let k = split_position(d.tiers[home].tier.intervals(), at)->Some_0;
    let b2 = tier_boundaries(c.tiers[home].tier.intervals());
    assert(crate::boundary_edits::lists_boundary(c.tiers[home].tier, b)) by {
        assert(b2[k + 1].0 == b);
    }
    assert forall|j: int| 0 <= j < home implies !crate::boundary_edits::lists_boundary(c.tiers[j].tier, b) by {
        if crate::boundary_edits::lists_boundary(c.tiers[j].tier, b) {
            let bj = tier_boundaries(c.tiers[j].tier.intervals());
            let m = choose|m: int| 0 <= m < bj.len() && bj[m].0 == b;
            if idxs.contains(j) {
                let q2 = choose|q2: int| 0 <= q2 < idxs.len() && idxs[q2] == j;
                assert(split_listed(d, c, idxs[q2], at, nb + q2, nb));
                assert(q2 < q);
                assert(bj[m].0.0 < nb || bj[m].0.0 == nb + q2);
            } else {
                assert(c.tiers[j] == d.tiers[j]);
                assert(listed_below(d.tiers[j].tier, nb));
                assert(bj[m].0.0 < nb);
            }
        }
    }
    assert(crate::boundary_edits::is_boundary_home(c.tiers, b, home));
    let hi = choose|hi: int| crate::boundary_edits::is_boundary_home(c.tiers, b, hi);
    assert(crate::boundary_edits::is_boundary_home(c.tiers, b, hi));
    if hi < home {
    } else if hi > home {
    }
    assert(hi == home);
    let mm = choose|mm: int| crate::boundary_edits::is_first_listing(b2, b, mm);
    assert(crate::boundary_edits::is_first_listing(b2, b, mm));
    if mm < k + 1 {
    } else if mm > k + 1 {
    }
    assert(crate::boundary_edits::boundary_location(c.tiers, b) == Some((tier, at)));
    // The same component, merged back at the split time.
    assert(skeleton(c.tiers) =~= skeleton(d.tiers)) by {
        assert forall|j: int| 0 <= j < d.tiers.len() implies #[trigger] skeleton(c.tiers)[j]
            == skeleton(d.tiers)[j] by {}
    }
    assert forall|kk: int| 0 <= kk < idxs.len() implies tier_content_ok(
        d.xmin,
        d.xmax,
        #[trigger] split_all(d, idxs, at, nb, ni)->Ok_0.tiers[idxs[kk]].tier,
    ) by {}
    lemma_unsplit_round(d, idxs, at, nb, ni, c);
    assert(restore_at(c.tiers, d.tiers, idxs) =~= d.tiers);
}

/// The aligned component of a tier has at most as many positions as tiers.
pub proof fn lemma_members_len(tiers: Seq<SlotView>, tier: TierId)
    ensures
        crate::boundary_edits::spec_aligned_indices(skeleton(tiers), tier) matches Ok(idxs)
            ==> idxs.len() <= tiers.len(),
{
    let sk = skeleton(tiers);
    if crate::boundary_edits::sk_first(sk, tier) is Some {
        let i = crate::boundary_edits::sk_first(sk, tier)->Some_0;
        if sk[i].2 {
            if let Ok(set) = crate::boundary_edits::sk_closure(sk, set![tier], (sk.len() + 1) as nat) {
                crate::boundary_edits::lemma_members_bounded(sk, set, 0);
            }
        }
    }
}

} // verus!

