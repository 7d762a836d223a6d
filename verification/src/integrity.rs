//! What each integrity issue asserts about a document: a report names a rule
//! the document breaks, and where.
use vstd::prelude::*;

use crate::ids::{BoundaryId, TierId};
use crate::issues::IntegrityIssue;
use crate::model::{
    all_boundary_ids, all_interval_ids, all_point_ids, has_tier, interval_ids_of, nested_in,
    point_ids_of, slot_boundary_ids, slot_interval_ids, slot_point_ids, tier_boundaries,
    tier_boundary_ids, tier_boundary_times, SlotView, DocView, IntervalView, PointView, RelationKind, TierRelation, TimeRole,
};
use crate::time::Time;

verus! {

/// Tier `j` of `d` carries `tier` and is an interval tier holding `s`.
pub open spec fn interval_tier_at(d: DocView, j: int, tier: TierId, s: Seq<IntervalView>) -> bool {
    &&& 0 <= j < d.tiers.len()
    &&& d.tiers[j].id == tier
    &&& d.tiers[j].tier is Interval
    &&& d.tiers[j].tier.intervals() == s
}

/// Tier `j` of `d` carries `tier` and is a point tier holding `s`.
pub open spec fn point_tier_at(d: DocView, j: int, tier: TierId, s: Seq<PointView>) -> bool {
    &&& 0 <= j < d.tiers.len()
    &&& d.tiers[j].id == tier
    &&& d.tiers[j].tier is Point
    &&& d.tiers[j].tier.points() == s
}

/// Some interval tier of `d` carries `tier` and satisfies `p` on its intervals.
pub open spec fn some_interval_tier(d: DocView, tier: TierId, p: spec_fn(Seq<IntervalView>) -> bool) -> bool {
    exists|j: int| #[trigger] interval_tier_at(d, j, tier, d.tiers[j].tier.intervals()) && p(d.tiers[j].tier.intervals())
}

/// Some point tier of `d` carries `tier` and satisfies `p` on its points.
pub open spec fn some_point_tier(d: DocView, tier: TierId, p: spec_fn(Seq<PointView>) -> bool) -> bool {
    exists|j: int| #[trigger] point_tier_at(d, j, tier, d.tiers[j].tier.points()) && p(d.tiers[j].tier.points())
}

/// Some tier of `d` carries `tier` with relation `relation`.
pub open spec fn tier_related(d: DocView, tier: TierId, relation: TierRelation) -> bool {
    exists|j: int| 0 <= j < d.tiers.len() && #[trigger] d.tiers[j].id == tier && d.tiers[j].relation == relation
}

/// The relation kinds and their targets.
pub open spec fn relation_of(kind: RelationKind, target: TierId) -> TierRelation {
    match kind {
        RelationKind::AlignedBoundaries => TierRelation::AlignedBoundaries { with: target },
        RelationKind::ChildOf => TierRelation::ChildOf { parent: target },
    }
}

/// Some interval, or some point, of `d` sits at the non-finite `value` in
/// the role `context` names.
pub open spec fn non_finite_at(d: DocView, value: Time, context: TimeRole) -> bool {
    match context {
        TimeRole::DomainStart => value == d.xmin,
        TimeRole::DomainEnd => value == d.xmax,
        TimeRole::IntervalStart => exists|j: int, k: int|
            0 <= j < d.tiers.len() && d.tiers[j].tier is Interval && 0 <= k < d.tiers[j].tier.intervals().len()
                && #[trigger] d.tiers[j].tier.intervals()[k].xmin == value,
        TimeRole::IntervalEnd => exists|j: int, k: int|
            0 <= j < d.tiers.len() && d.tiers[j].tier is Interval && 0 <= k < d.tiers[j].tier.intervals().len()
                && #[trigger] d.tiers[j].tier.intervals()[k].xmax == value,
        TimeRole::Point => exists|j: int, k: int|
            0 <= j < d.tiers.len() && d.tiers[j].tier is Point && 0 <= k < d.tiers[j].tier.points().len()
                && #[trigger] d.tiers[j].tier.points()[k].time == value,
        TimeRole::Boundary => false,
    }
}

/// The rule violation an issue reports holds of `d`, at the place it names.
pub open spec fn issue_holds(d: DocView, issue: IntegrityIssue) -> bool {
    match issue {
        IntegrityIssue::InvalidTimeDomain { xmin, xmax } => xmin == d.xmin && xmax == d.xmax
            && xmax.spec_le(xmin),
        IntegrityIssue::NonFiniteTime { value, context } => !value.spec_is_finite()
            && non_finite_at(d, value, context),
        IntegrityIssue::DuplicateTierId { tier } => exists|a: int, b: int|
            0 <= a < b < d.tiers.len() && #[trigger] d.tiers[a].id == tier && #[trigger] d.tiers[b].id
                == tier,
        IntegrityIssue::DuplicateIntervalId { tier, interval } => !all_interval_ids(d.tiers).no_duplicates()
            && some_interval_tier(d, tier, |s: Seq<IntervalView>| exists|k: int| 0 <= k < s.len() && #[trigger] s[k].id == interval),
        IntegrityIssue::DuplicatePointId { tier, point } => !all_point_ids(d.tiers).no_duplicates()
            && some_point_tier(d, tier, |s: Seq<PointView>| exists|k: int| 0 <= k < s.len() && #[trigger] s[k].id == point),
        IntegrityIssue::DuplicateBoundaryId { tier, boundary } => !all_boundary_ids(d.tiers).no_duplicates()
            && some_interval_tier(d, tier, |s: Seq<IntervalView>| crate::model::tier_boundary_ids(s).contains(boundary.0)),
        IntegrityIssue::IntervalTierEmpty { tier } => some_interval_tier(d, tier, |s: Seq<IntervalView>| s.len() == 0),
        IntegrityIssue::DomainStartMismatch { tier, found, expected } => expected == d.xmin && found
            != expected && some_interval_tier(d, tier, |s: Seq<IntervalView>| s.len() > 0 && s[0].xmin == found),
        IntegrityIssue::DomainEndMismatch { tier, found, expected } => expected == d.xmax && found
            != expected && some_interval_tier(d, tier, |s: Seq<IntervalView>| s.len() > 0 && s.last().xmax == found),
        IntegrityIssue::IntervalUnsorted { tier, previous, next } => next.spec_le(previous)
            && some_interval_tier(d, tier, |s: Seq<IntervalView>| exists|k: int| 0 <= k < s.len() && #[trigger] s[k].xmin == previous && s[k].xmax == next),
        IntegrityIssue::IntervalOverlap { tier, left, right, overlap_start, overlap_end } => overlap_start.spec_lt(overlap_end)
            && some_interval_tier(d, tier, |s: Seq<IntervalView>| exists|k: int| 0 < k < s.len() && #[trigger] s[k].id == right && s[k - 1].id == left
                && s[k].xmin == overlap_start && s[k - 1].xmax == overlap_end),
        IntegrityIssue::IntervalGap { tier, left, right, gap_start, gap_end } => gap_start.spec_lt(gap_end)
            && some_interval_tier(d, tier, |s: Seq<IntervalView>| exists|k: int| 0 < k < s.len() && #[trigger] s[k].id == right && s[k - 1].id == left
                && s[k - 1].xmax == gap_start && s[k].xmin == gap_end),
        IntegrityIssue::BoundaryContinuityMismatch { tier, left, right } => some_interval_tier(d, tier, |s: Seq<IntervalView>| exists|k: int| 0 < k < s.len() && #[trigger] s[k].id == right && s[k - 1].id == left
                && s[k - 1].end_boundary != s[k].start_boundary),
        IntegrityIssue::PointOutsideDomain { tier, point, time } => (time.spec_lt(d.xmin) || d.xmax.spec_lt(time))
            && some_point_tier(d, tier, |s: Seq<PointView>| exists|k: int| 0 <= k < s.len() && #[trigger] s[k].id == point && s[k].time == time),
        IntegrityIssue::PointUnsorted { tier, previous, next } => some_point_tier(d, tier, |s: Seq<PointView>| exists|k: int| 0 < k < s.len() && #[trigger] s[k].id == next && s[k - 1].id == previous
                && s[k].time.spec_lt(s[k - 1].time)),
        IntegrityIssue::DuplicatePointTime { tier, previous, next, time } => some_point_tier(d, tier, |s: Seq<PointView>| exists|k: int| 0 < k < s.len() && #[trigger] s[k].id == next && s[k - 1].id == previous
                && s[k].time == time && s[k - 1].time == time),
        IntegrityIssue::MissingTierRelationTarget { tier, target } => !has_tier(d.tiers, target)
            && (tier_related(d, tier, TierRelation::AlignedBoundaries { with: target }) || tier_related(d, tier, TierRelation::ChildOf { parent: target })),
        IntegrityIssue::RelationTierKindMismatch { tier, target, relation } => tier_related(d, tier, relation_of(relation, target))
            && has_tier(d.tiers, target) && exists|a: int, b: int|
                0 <= a < d.tiers.len() && 0 <= b < d.tiers.len() && #[trigger] d.tiers[a].id == tier && #[trigger] d.tiers[b].id == target
                    && !(d.tiers[a].tier is Interval && d.tiers[b].tier is Interval),
        IntegrityIssue::AlignedBoundaryMissing { tier, target, boundary, time } => (tier_related(d, tier, TierRelation::AlignedBoundaries { with: target })
            || tier_related(d, target, TierRelation::AlignedBoundaries { with: tier }))
            && some_interval_tier(d, tier, |s: Seq<IntervalView>| tier_boundaries(s).contains((boundary, time)))
            && some_interval_tier(d, target, |s: Seq<IntervalView>| !tier_boundary_times(s).contains(time)),
        IntegrityIssue::OrphanChildInterval { tier, parent, interval, xmin, xmax } => tier_related(d, tier, TierRelation::ChildOf { parent })
            && some_interval_tier(d, tier, |s: Seq<IntervalView>| exists|k: int| 0 <= k < s.len() && #[trigger] s[k].id == interval && s[k].xmin == xmin && s[k].xmax == xmax)
            && some_interval_tier(d, parent, |s: Seq<IntervalView>| !nested_in(IntervalView { id: interval, start_boundary: crate::ids::BoundaryId(0), end_boundary: crate::ids::BoundaryId(0), xmin, xmax, label: Seq::empty() }, s)),
    }
}

/// `e` is an integrity violation naming the first issue validation reports
/// for `d`, a rule `d` breaks.
pub open spec fn violation_of(d: DocView, e: crate::issues::AnnotationError) -> bool {
    e matches crate::issues::AnnotationError::IntegrityViolation(issue) && doc_issues(d).len() > 0
        && issue == doc_issues(d)[0] && issue_holds(d, issue)
}

/// Every issue of `issues` from position `from` on holds of `d`.
#[verifier::opaque]
pub open spec fn all_hold(d: DocView, issues: Seq<IntegrityIssue>, from: int) -> bool {
    forall|q: int| from <= q < issues.len() ==> issue_holds(d, #[trigger] issues[q])
}

/// A sequence with a duplicate keeps it in any extension.
pub proof fn lemma_dup_extends(a: Seq<u64>, b: Seq<u64>)
    requires
        a.len() <= b.len(),
        b.take(a.len() as int) == a,
        !a.no_duplicates(),
    ensures
        !b.no_duplicates(),
{
    let (x, y) = choose|x: int, y: int| 0 <= x < a.len() && 0 <= y < a.len() && x != y && a[x] == a[y];
    assert(b[x] == a[x] && b[y] == a[y]);
}

/// The ids of the first `m` tiers lead the ids of all tiers.
pub proof fn lemma_ids_prefix(tiers: Seq<crate::model::SlotView>, m: int)
    requires
        0 <= m <= tiers.len(),
    ensures
        all_interval_ids(tiers).take(all_interval_ids(tiers.take(m)).len() as int) == all_interval_ids(tiers.take(m)),
        all_point_ids(tiers).take(all_point_ids(tiers.take(m)).len() as int) == all_point_ids(tiers.take(m)),
        all_boundary_ids(tiers).take(all_boundary_ids(tiers.take(m)).len() as int) == all_boundary_ids(tiers.take(m)),
        all_interval_ids(tiers.take(m)).len() <= all_interval_ids(tiers).len(),
        all_point_ids(tiers.take(m)).len() <= all_point_ids(tiers).len(),
        all_boundary_ids(tiers.take(m)).len() <= all_boundary_ids(tiers).len(),
    decreases tiers.len(),
{
    if m == tiers.len() {
        assert(tiers.take(m) =~= tiers);
    } else {
        let t = tiers.drop_last();
        lemma_ids_prefix(t, m);
        assert(t.take(m) =~= tiers.take(m));
        let ai = all_interval_ids(t);
        assert(all_interval_ids(tiers) == ai + crate::model::slot_interval_ids(tiers.last()));
        assert((ai + crate::model::slot_interval_ids(tiers.last())).take(all_interval_ids(t.take(m)).len() as int) =~= ai.take(all_interval_ids(t.take(m)).len() as int));
        let ap = all_point_ids(t);
        assert(all_point_ids(tiers) == ap + crate::model::slot_point_ids(tiers.last()));
        assert((ap + crate::model::slot_point_ids(tiers.last())).take(all_point_ids(t.take(m)).len() as int) =~= ap.take(all_point_ids(t.take(m)).len() as int));
        let ab = all_boundary_ids(t);
        assert(all_boundary_ids(tiers) == ab + crate::model::slot_boundary_ids(tiers.last()));
        assert((ab + crate::model::slot_boundary_ids(tiers.last())).take(all_boundary_ids(t.take(m)).len() as int) =~= ab.take(all_boundary_ids(t.take(m)).len() as int));
    }
}

/// An id of tier `slot` that was already seen, among the ids of earlier
/// tiers (`seen`) or earlier in its own list, makes the document's id list
/// hold a duplicate.
pub proof fn lemma_seen_twice(prev: Seq<u64>, own: Seq<u64>, k: int, whole: Seq<u64>)
    requires
        0 <= k < own.len(),
        (prev.to_set().contains(own[k]) || own.take(k).contains(own[k])),
        (prev + own).len() <= whole.len(),
        whole.take((prev + own).len() as int) == prev + own,
    ensures
        !whole.no_duplicates(),
{
    let c = prev + own;
    assert(c[prev.len() + k] == own[k]);
    if prev.to_set().contains(own[k]) {
        let x = choose|x: int| 0 <= x < prev.len() && prev[x] == own[k];
        assert(c[x] == own[k]);
    } else {
        let x = choose|x: int| 0 <= x < own.take(k).len() && own.take(k)[x] == own[k];
        assert(c[prev.len() + x] == own[k]);
    }
    lemma_dup_extends(c, whole);
}


/// Appending an issue that holds keeps every issue from `base` on holding,
/// and leaves the first `base` issues alone.
pub proof fn lemma_push_holds(
    d: DocView,
    before: Seq<IntegrityIssue>,
    x: IntegrityIssue,
    base: int,
    base_seq: Seq<IntegrityIssue>,
)
    requires
        0 <= base <= before.len(),
        before.take(base) == base_seq,
        all_hold(d, before, base),
        issue_holds(d, x),
    ensures
        before.push(x).take(base) == base_seq,
        all_hold(d, before.push(x), base),
{
    reveal(all_hold);
    assert(before.push(x).take(base) =~= before.take(base));
    assert forall|q: int| base <= q < before.push(x).len() implies issue_holds(
        d,
        #[trigger] before.push(x)[q],
    ) by {
        if q < before.len() {
            assert(before.push(x)[q] == before[q]);
        }
    }
}

/// No issue lies at or past the end of a list.
pub proof fn lemma_hold_none(d: DocView, issues: Seq<IntegrityIssue>)
    ensures
        all_hold(d, issues, issues.len() as int),
{
    reveal(all_hold);
}

/// Issues that hold from `base` on, behind a prefix that holds from `from`
/// on, hold from `from` on.
pub proof fn lemma_hold_extend(d: DocView, prefix: Seq<IntegrityIssue>, whole: Seq<IntegrityIssue>, from: int)
    requires
        0 <= from <= prefix.len() <= whole.len(),
        whole.take(prefix.len() as int) == prefix,
        all_hold(d, prefix, from),
        all_hold(d, whole, prefix.len() as int),
    ensures
        all_hold(d, whole, from),
{
    reveal(all_hold);
    assert forall|q: int| from <= q < whole.len() implies issue_holds(d, #[trigger] whole[q]) by {
        if q < prefix.len() {
            assert(whole[q] == whole.take(prefix.len() as int)[q]);
        }
    }
}

/// The ids of the tiers before `slot`, then those of tier `slot`, lead the
/// ids of all tiers.
proof fn lemma_slot_prefix(tiers: Seq<SlotView>, slot: int)
    requires
        0 <= slot < tiers.len(),
    ensures
        all_point_ids(tiers.take(slot + 1)) == all_point_ids(tiers.take(slot)) + slot_point_ids(tiers[slot]),
        all_interval_ids(tiers.take(slot + 1)) == all_interval_ids(tiers.take(slot)) + slot_interval_ids(tiers[slot]),
        all_boundary_ids(tiers.take(slot + 1)) == all_boundary_ids(tiers.take(slot)) + slot_boundary_ids(tiers[slot]),
{
    assert(tiers.take(slot + 1).drop_last() =~= tiers.take(slot));
    assert(tiers.take(slot + 1).last() == tiers[slot]);
}

/// A point id that tier `slot` meets a second time, after the tiers before it
/// or earlier in its own list, is a duplicate the report may name.
pub proof fn lemma_point_seen_twice(d: DocView, slot: int, k: int, seen: Set<u64>)
    requires
        0 <= slot < d.tiers.len(),
        d.tiers[slot].tier is Point,
        0 <= k < d.tiers[slot].tier.points().len(),
        seen == all_point_ids(d.tiers.take(slot)).to_set(),
        (seen + point_ids_of(d.tiers[slot].tier.points()).take(k).to_set()).contains(
            d.tiers[slot].tier.points()[k].id.0,
        ),
    ensures
        issue_holds(
            d,
            IntegrityIssue::DuplicatePointId {
                tier: d.tiers[slot].id,
                point: d.tiers[slot].tier.points()[k].id,
            },
        ),
{
    let pts = d.tiers[slot].tier.points();
    let own = point_ids_of(pts);
    lemma_slot_prefix(d.tiers, slot);
    lemma_ids_prefix(d.tiers, slot + 1);
    assert(own[k] == pts[k].id.0);
    if !seen.contains(own[k]) {
        assert(own.take(k).to_set().contains(own[k]));
        assert(own.take(k).contains(own[k]));
    }
    lemma_seen_twice(all_point_ids(d.tiers.take(slot)), own, k, all_point_ids(d.tiers));
    assert(point_tier_at(d, slot, d.tiers[slot].id, d.tiers[slot].tier.points()));
    assert(pts[k].id == pts[k].id);
}

/// An interval id that tier `slot` meets a second time is a duplicate the
/// report may name.
pub proof fn lemma_interval_seen_twice(d: DocView, slot: int, k: int, seen: Set<u64>)
    requires
        0 <= slot < d.tiers.len(),
        d.tiers[slot].tier is Interval,
        0 <= k < d.tiers[slot].tier.intervals().len(),
        seen == all_interval_ids(d.tiers.take(slot)).to_set(),
        (seen + interval_ids_of(d.tiers[slot].tier.intervals()).take(k).to_set()).contains(
            d.tiers[slot].tier.intervals()[k].id.0,
        ),
    ensures
        issue_holds(
            d,
            IntegrityIssue::DuplicateIntervalId {
                tier: d.tiers[slot].id,
                interval: d.tiers[slot].tier.intervals()[k].id,
            },
        ),
{
    let ivs = d.tiers[slot].tier.intervals();
    let own = interval_ids_of(ivs);
    lemma_slot_prefix(d.tiers, slot);
    lemma_ids_prefix(d.tiers, slot + 1);
    assert(own[k] == ivs[k].id.0);
    if !seen.contains(own[k]) {
        assert(own.take(k).to_set().contains(own[k]));
        assert(own.take(k).contains(own[k]));
    }
    lemma_seen_twice(all_interval_ids(d.tiers.take(slot)), own, k, all_interval_ids(d.tiers));
    assert(interval_tier_at(d, slot, d.tiers[slot].id, d.tiers[slot].tier.intervals()));
    assert(ivs[k].id == ivs[k].id);
}

/// A boundary id that tier `slot` meets a second time is a duplicate the
/// report may name.
pub proof fn lemma_boundary_seen_twice(d: DocView, slot: int, k: int, seen: Set<u64>)
    requires
        0 <= slot < d.tiers.len(),
        d.tiers[slot].tier is Interval,
        0 <= k < tier_boundary_ids(d.tiers[slot].tier.intervals()).len(),
        seen == all_boundary_ids(d.tiers.take(slot)).to_set(),
        (seen + tier_boundary_ids(d.tiers[slot].tier.intervals()).take(k).to_set()).contains(
            tier_boundary_ids(d.tiers[slot].tier.intervals())[k],
        ),
    ensures
        issue_holds(
            d,
            IntegrityIssue::DuplicateBoundaryId {
                tier: d.tiers[slot].id,
                boundary: BoundaryId(tier_boundary_ids(d.tiers[slot].tier.intervals())[k]),
            },
        ),
{
    let ivs = d.tiers[slot].tier.intervals();
    let own = tier_boundary_ids(ivs);
    lemma_slot_prefix(d.tiers, slot);
    lemma_ids_prefix(d.tiers, slot + 1);
    if !seen.contains(own[k]) {
        assert(own.take(k).to_set().contains(own[k]));
        assert(own.take(k).contains(own[k]));
    }
    lemma_seen_twice(all_boundary_ids(d.tiers.take(slot)), own, k, all_boundary_ids(d.tiers));
    assert(interval_tier_at(d, slot, d.tiers[slot].id, d.tiers[slot].tier.intervals()));
    assert(own.contains(own[k]));
}


/// `x` when `c` holds, else nothing.
pub open spec fn opt_issue(c: bool, x: IntegrityIssue) -> Seq<IntegrityIssue> {
    if c {
        seq![x]
    } else {
        Seq::empty()
    }
}

/// The issues point `k` of point tier `tier` raises, in the order they are
/// checked: its id seen before (among `seen` or earlier points), a
/// non-finite time, a time outside the domain, then against the point
/// before it: out of order, or at the same time.
pub open spec fn point_step(d: DocView, tier: TierId, pts: Seq<PointView>, seen: Set<u64>, k: int) -> Seq<
    IntegrityIssue,
> {
    let p = pts[k];
    opt_issue(
        (seen + point_ids_of(pts).take(k).to_set()).contains(p.id.0),
        IntegrityIssue::DuplicatePointId { tier, point: p.id },
    ) + opt_issue(
        !p.time.spec_is_finite(),
        IntegrityIssue::NonFiniteTime { value: p.time, context: TimeRole::Point },
    ) + opt_issue(
        p.time.spec_lt(d.xmin) || d.xmax.spec_lt(p.time),
        IntegrityIssue::PointOutsideDomain { tier, point: p.id, time: p.time },
    ) + (if k > 0 {
        let q = pts[k - 1];
        if p.time.spec_lt(q.time) {
            seq![IntegrityIssue::PointUnsorted { tier, previous: q.id, next: p.id }]
        } else if q.time == p.time {
            seq![IntegrityIssue::DuplicatePointTime { tier, previous: q.id, next: p.id, time: p.time }]
        } else {
            Seq::empty()
        }
    } else {
        Seq::empty()
    })
}

/// The issues of the first `k` points of point tier `tier`, in order.
pub open spec fn point_steps(d: DocView, tier: TierId, pts: Seq<PointView>, seen: Set<u64>, k: nat) -> Seq<
    IntegrityIssue,
>
    decreases k,
{
    if k == 0 {
        Seq::empty()
    } else {
        point_steps(d, tier, pts, seen, (k - 1) as nat) + point_step(d, tier, pts, seen, k - 1)
    }
}


/// The issues interval `k` of interval tier `tier` raises, in the order they
/// are checked: its id seen before, a non-finite start or end, an end not
/// after its start, then against the interval before it: an overlap or a
/// gap, and boundaries that do not continue.
pub open spec fn interval_step(tier: TierId, ivs: Seq<IntervalView>, seen: Set<u64>, k: int) -> Seq<
    IntegrityIssue,
> {
    let iv = ivs[k];
    opt_issue(
        (seen + interval_ids_of(ivs).take(k).to_set()).contains(iv.id.0),
        IntegrityIssue::DuplicateIntervalId { tier, interval: iv.id },
    ) + opt_issue(
        !iv.xmin.spec_is_finite(),
        IntegrityIssue::NonFiniteTime { value: iv.xmin, context: TimeRole::IntervalStart },
    ) + opt_issue(
        !iv.xmax.spec_is_finite(),
        IntegrityIssue::NonFiniteTime { value: iv.xmax, context: TimeRole::IntervalEnd },
    ) + opt_issue(
        iv.xmax.spec_le(iv.xmin),
        IntegrityIssue::IntervalUnsorted { tier, previous: iv.xmin, next: iv.xmax },
    ) + adjacent_interval_issues(tier, ivs, k)
}

/// What interval `k` raises against the interval before it.
pub open spec fn adjacent_interval_issues(tier: TierId, ivs: Seq<IntervalView>, k: int) -> Seq<
    IntegrityIssue,
> {
    if k > 0 {
        let iv = ivs[k];
        let q = ivs[k - 1];
        (if iv.xmin.spec_lt(q.xmax) {
            seq![
                IntegrityIssue::IntervalOverlap {
                    tier,
                    left: q.id,
                    right: iv.id,
                    overlap_start: iv.xmin,
                    overlap_end: q.xmax,
                },
            ]
        } else if q.xmax.spec_lt(iv.xmin) {
            seq![
                IntegrityIssue::IntervalGap {
                    tier,
                    left: q.id,
                    right: iv.id,
                    gap_start: q.xmax,
                    gap_end: iv.xmin,
                },
            ]
        } else {
            Seq::empty()
        }) + opt_issue(
            q.end_boundary != iv.start_boundary,
            IntegrityIssue::BoundaryContinuityMismatch { tier, left: q.id, right: iv.id },
        )
    } else {
        Seq::empty()
    }
}

/// The issues of the first `k` intervals of interval tier `tier`, in order.
pub open spec fn interval_steps(tier: TierId, ivs: Seq<IntervalView>, seen: Set<u64>, k: nat) -> Seq<
    IntegrityIssue,
>
    decreases k,
{
    if k == 0 {
        Seq::empty()
    } else {
        interval_steps(tier, ivs, seen, (k - 1) as nat) + interval_step(tier, ivs, seen, k - 1)
    }
}

/// The duplicate-boundary issues of the first `k` boundary ids `bids` of a
/// tier, an id counting as a duplicate when `seen` or an earlier id holds it.
pub open spec fn boundary_steps(tier: TierId, bids: Seq<u64>, seen: Set<u64>, k: nat) -> Seq<
    IntegrityIssue,
>
    decreases k,
{
    if k == 0 {
        Seq::empty()
    } else {
        boundary_steps(tier, bids, seen, (k - 1) as nat) + opt_issue(
            (seen + bids.take(k - 1).to_set()).contains(bids[k - 1]),
            IntegrityIssue::DuplicateBoundaryId { tier, boundary: BoundaryId(bids[k - 1]) },
        )
    }
}

/// Every issue of interval tier `tier`, in scan order: an empty tier, or a
/// first start off the domain start, each interval's issues, a last end off
/// the domain end, then boundary ids seen before.
pub open spec fn interval_tier_issues(
    d: DocView,
    tier: TierId,
    ivs: Seq<IntervalView>,
    seen_iv: Set<u64>,
    seen_b: Set<u64>,
) -> Seq<IntegrityIssue> {
    if ivs.len() == 0 {
        seq![IntegrityIssue::IntervalTierEmpty { tier }]
    } else {
        opt_issue(
            ivs[0].xmin != d.xmin,
            IntegrityIssue::DomainStartMismatch { tier, found: ivs[0].xmin, expected: d.xmin },
        ) + interval_steps(tier, ivs, seen_iv, ivs.len()) + opt_issue(
            ivs.last().xmax != d.xmax,
            IntegrityIssue::DomainEndMismatch { tier, found: ivs.last().xmax, expected: d.xmax },
        ) + boundary_steps(tier, tier_boundary_ids(ivs), seen_b, tier_boundary_ids(ivs).len())
    }
}


/// The aligned-boundary issues of the first `k` boundaries of `left`: each
/// boundary whose time `right` lacks, reported against `tier` and `target`.
pub open spec fn missing_steps(left: Seq<IntervalView>, right: Seq<IntervalView>, tier: TierId, target: TierId, k: nat) -> Seq<
    IntegrityIssue,
>
    decreases k,
{
    if k == 0 {
        Seq::empty()
    } else {
        let b = tier_boundaries(left)[k - 1];
        missing_steps(left, right, tier, target, (k - 1) as nat) + opt_issue(
            !tier_boundary_times(right).contains(b.1),
            IntegrityIssue::AlignedBoundaryMissing { tier, target, boundary: b.0, time: b.1 },
        )
    }
}

/// Every boundary of `left` whose time `right` lacks, in boundary order.
pub open spec fn missing_boundaries(left: Seq<IntervalView>, right: Seq<IntervalView>, tier: TierId, target: TierId) -> Seq<
    IntegrityIssue,
> {
    missing_steps(left, right, tier, target, tier_boundaries(left).len())
}

/// The issues of the aligned relation of tier `index` with the tier `with`:
/// a missing target, a tier kind that is not interval on either side, or the
/// boundaries each side lacks of the other (the relating tier's first).
pub open spec fn aligned_issues(d: DocView, index: int, with: TierId) -> Seq<IntegrityIssue> {
    let tier = d.tiers[index].id;
    match crate::edits::first_tier(d.tiers, tier) {
        None => Seq::empty(),
        Some(i) => match crate::edits::first_tier(d.tiers, with) {
            None => seq![IntegrityIssue::MissingTierRelationTarget { tier, target: with }],
            Some(j) => if d.tiers[i].tier is Interval && d.tiers[j].tier is Interval {
                missing_boundaries(d.tiers[i].tier.intervals(), d.tiers[j].tier.intervals(), tier, with)
                    + missing_boundaries(
                    d.tiers[j].tier.intervals(),
                    d.tiers[i].tier.intervals(),
                    with,
                    tier,
                )
            } else {
                seq![
                    IntegrityIssue::RelationTierKindMismatch {
                        tier,
                        target: with,
                        relation: RelationKind::AlignedBoundaries,
                    },
                ]
            },
        },
    }
}

/// The orphan issues of the first `k` child intervals `cv` against the
/// parent intervals `pv`.
pub open spec fn orphan_steps(cv: Seq<IntervalView>, pv: Seq<IntervalView>, tier: TierId, parent: TierId, k: nat) -> Seq<
    IntegrityIssue,
>
    decreases k,
{
    if k == 0 {
        Seq::empty()
    } else {
        let c = cv[k - 1];
        orphan_steps(cv, pv, tier, parent, (k - 1) as nat) + opt_issue(
            !nested_in(c, pv),
            IntegrityIssue::OrphanChildInterval { tier, parent, interval: c.id, xmin: c.xmin, xmax: c.xmax },
        )
    }
}

/// The issues of the child relation of tier `index` to the tier `parent`: a
/// missing parent, a parent or child that is not an interval tier, or each
/// child interval no parent interval holds.
pub open spec fn child_issues(d: DocView, index: int, parent: TierId) -> Seq<IntegrityIssue> {
    let tier = d.tiers[index].id;
    match crate::edits::first_tier(d.tiers, tier) {
        None => Seq::empty(),
        Some(i) => match crate::edits::first_tier(d.tiers, parent) {
            None => seq![IntegrityIssue::MissingTierRelationTarget { tier, target: parent }],
            Some(j) => if !(d.tiers[j].tier is Interval) || !(d.tiers[i].tier is Interval) {
                seq![
                    IntegrityIssue::RelationTierKindMismatch {
                        tier,
                        target: parent,
                        relation: RelationKind::ChildOf,
                    },
                ]
            } else {
                orphan_steps(
                    d.tiers[i].tier.intervals(),
                    d.tiers[j].tier.intervals(),
                    tier,
                    parent,
                    d.tiers[i].tier.intervals().len(),
                )
            },
        },
    }
}

/// The issues of tier `index`'s relation.
pub open spec fn relation_issues(d: DocView, index: int) -> Seq<IntegrityIssue> {
    match d.tiers[index].relation {
        TierRelation::Independent => Seq::empty(),
        TierRelation::AlignedBoundaries { with } => aligned_issues(d, index, with),
        TierRelation::ChildOf { parent } => child_issues(d, index, parent),
    }
}

/// The relation issues of the first `k` tiers, in order.
pub open spec fn relation_steps(d: DocView, k: nat) -> Seq<IntegrityIssue>
    decreases k,
{
    if k == 0 {
        Seq::empty()
    } else {
        relation_steps(d, (k - 1) as nat) + relation_issues(d, k - 1)
    }
}

/// The content issues of tier `i`: its id seen on an earlier tier, then the
/// issues of its intervals or points against the ids of earlier tiers.
pub open spec fn tier_step(d: DocView, i: int) -> Seq<IntegrityIssue> {
    let slot = d.tiers[i];
    let before = d.tiers.take(i);
    opt_issue(
        crate::model::tier_ids(before).contains(slot.id.0),
        IntegrityIssue::DuplicateTierId { tier: slot.id },
    ) + match slot.tier {
        crate::model::TierView::Interval { .. } => interval_tier_issues(
            d,
            slot.id,
            slot.tier.intervals(),
            all_interval_ids(before).to_set(),
            all_boundary_ids(before).to_set(),
        ),
        crate::model::TierView::Point { .. } => point_steps(
            d,
            slot.id,
            slot.tier.points(),
            all_point_ids(before).to_set(),
            slot.tier.points().len(),
        ),
    }
}

/// The content issues of the first `k` tiers, in order.
pub open spec fn content_steps(d: DocView, k: nat) -> Seq<IntegrityIssue>
    decreases k,
{
    if k == 0 {
        Seq::empty()
    } else {
        content_steps(d, (k - 1) as nat) + tier_step(d, k - 1)
    }
}

/// The time-domain issues: a non-finite start, a non-finite end, an end not
/// after the start.
pub open spec fn domain_issues(d: DocView) -> Seq<IntegrityIssue> {
    opt_issue(
        !d.xmin.spec_is_finite(),
        IntegrityIssue::NonFiniteTime { value: d.xmin, context: TimeRole::DomainStart },
    ) + opt_issue(
        !d.xmax.spec_is_finite(),
        IntegrityIssue::NonFiniteTime { value: d.xmax, context: TimeRole::DomainEnd },
    ) + opt_issue(d.xmax.spec_le(d.xmin), IntegrityIssue::InvalidTimeDomain { xmin: d.xmin, xmax: d.xmax })
}

/// Every integrity issue of a document, each once, in the order validation
/// scans for them: the time domain, each tier's content in document order,
/// then each tier's relation in document order.
pub open spec fn doc_issues(d: DocView) -> Seq<IntegrityIssue> {
    domain_issues(d) + content_steps(d, d.tiers.len()) + relation_steps(d, d.tiers.len())
}

} // verus!
