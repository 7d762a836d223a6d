//! Annotation tiers, their mathematical views, and the integrity rules a
//! document must satisfy.
use vstd::prelude::*;

use crate::ids::{BoundaryId, IntervalId, PointId, TierId};
use crate::time::Time;

verus! {

/// Labeled interval bounded by two stable boundary identifiers.
#[derive(Debug)]
pub struct Interval {
    /// Stable interval identifier.
    pub id: IntervalId,
    /// Stable identifier for the interval start boundary.
    pub start_boundary: BoundaryId,
    /// Stable identifier for the interval end boundary.
    pub end_boundary: BoundaryId,
    /// Start time in seconds.
    pub xmin: Time,
    /// End time in seconds.
    pub xmax: Time,
    /// Label text; an empty string represents an unlabeled interval.
    pub label: String,
}

/// Labeled point annotation.
#[derive(Debug)]
pub struct Point {
    /// Stable point identifier.
    pub id: PointId,
    /// Point time in seconds.
    pub time: Time,
    /// Label text.
    pub label: String,
}

/// Interval tier with sorted, contiguous intervals over the document domain.
#[derive(Debug)]
pub struct IntervalTier {
    /// Display name for the tier.
    pub name: String,
    /// Ordered intervals.
    pub intervals: Vec<Interval>,
}

/// Point tier with sorted, strictly increasing points.
#[derive(Debug)]
pub struct PointTier {
    /// Display name for the tier.
    pub name: String,
    /// Ordered point annotations.
    pub points: Vec<Point>,
}

/// Annotation tier variant.
#[derive(Debug)]
pub enum Tier {
    /// Interval tier with contiguous spans.
    Interval(IntervalTier),
    /// Point tier with strictly increasing point times.
    Point(PointTier),
}

/// Relationship between a tier and another tier.
#[derive(Clone, Copy, Debug, Eq, PartialEq, Structural)]
pub enum TierRelation {
    /// The tier has no cross-tier integrity relation.
    Independent,
    /// The tier shares interval boundaries with another interval tier.
    AlignedBoundaries {
        /// Related tier whose boundary times must match this tier.
        with: TierId,
    },
    /// The tier's intervals must be nested inside intervals on a parent tier.
    ChildOf {
        /// Parent interval tier.
        parent: TierId,
    },
}

/// Ordered tier entry carrying the tier identifier and relation.
#[derive(Debug)]
pub struct TierSlot {
    /// Stable tier identifier.
    pub id: TierId,
    /// Relation between this tier and another tier.
    pub relation: TierRelation,
    /// Tier payload.
    pub tier: Tier,
}

/// Boundary movement mode.
#[derive(Clone, Copy, Debug, Eq, PartialEq, Structural)]
pub enum AlignMode {
    /// Move all boundaries at the same time in the aligned tier component.
    Linked,
    /// Move one tier only; this fails when the boundary belongs to an aligned component.
    SingleTier,
}

/// Label target for interval and point labels.
#[derive(Clone, Copy, Debug, Eq, Hash, PartialEq, Structural)]
pub enum LabelTarget {
    /// Label of an interval in a tier.
    Interval {
        /// Tier containing the interval.
        tier: TierId,
        /// Interval whose label is addressed.
        interval: IntervalId,
    },
    /// Label of a point in a tier.
    Point {
        /// Tier containing the point.
        tier: TierId,
        /// Point whose label is addressed.
        point: PointId,
    },
}

/// Expected tier kind for validation and mutation errors.
#[derive(Clone, Copy, Debug, Eq, PartialEq, Structural)]
pub enum TierKind {
    /// Interval tier.
    Interval,
    /// Point tier.
    Point,
}

/// Relation kind used in integrity reports.
#[derive(Clone, Copy, Debug, Eq, PartialEq, Structural)]
pub enum RelationKind {
    /// Shared-boundary relation.
    AlignedBoundaries,
    /// Parent-child nesting relation.
    ChildOf,
}

/// Role of a time value in an annotation document.
#[derive(Clone, Copy, Debug, Eq, PartialEq, Structural)]
pub enum TimeRole {
    /// Document domain start.
    DomainStart,
    /// Document domain end.
    DomainEnd,
    /// Boundary time.
    Boundary,
    /// Interval start.
    IntervalStart,
    /// Interval end.
    IntervalEnd,
    /// Point time.
    Point,
}

// ----------------------------------------------------------------------------
// Mathematical views
// ----------------------------------------------------------------------------

/// Value of an interval.
pub struct IntervalView {
    pub id: IntervalId,
    pub start_boundary: BoundaryId,
    pub end_boundary: BoundaryId,
    pub xmin: Time,
    pub xmax: Time,
    pub label: Seq<char>,
}

/// Value of a point.
pub struct PointView {
    pub id: PointId,
    pub time: Time,
    pub label: Seq<char>,
}

/// Value of a tier payload.
pub enum TierView {
    Interval { name: Seq<char>, intervals: Seq<IntervalView> },
    Point { name: Seq<char>, points: Seq<PointView> },
}

/// Value of a tier slot.
pub struct SlotView {
    pub id: TierId,
    pub relation: TierRelation,
    pub tier: TierView,
}

/// Value of an annotation document: its time domain and its tiers in order.
pub struct DocView {
    pub xmin: Time,
    pub xmax: Time,
    pub tiers: Seq<SlotView>,
}

impl View for Interval {
    type V = IntervalView;

    open spec fn view(&self) -> IntervalView {
        IntervalView {
            id: self.id,
            start_boundary: self.start_boundary,
            end_boundary: self.end_boundary,
            xmin: self.xmin,
            xmax: self.xmax,
            label: self.label@,
        }
    }
}

impl View for Point {
    type V = PointView;

    open spec fn view(&self) -> PointView {
        PointView { id: self.id, time: self.time, label: self.label@ }
    }
}

/// The values of a sequence of intervals.
pub open spec fn intervals_view(s: Seq<Interval>) -> Seq<IntervalView> {
    s.map_values(|i: Interval| i@)
}

/// The values of a sequence of points.
pub open spec fn points_view(s: Seq<Point>) -> Seq<PointView> {
    s.map_values(|p: Point| p@)
}

impl View for Tier {
    type V = TierView;

    open spec fn view(&self) -> TierView {
        match self {
            Tier::Interval(t) => TierView::Interval {
                name: t.name@,
                intervals: intervals_view(t.intervals@),
            },
            Tier::Point(t) => TierView::Point { name: t.name@, points: points_view(t.points@) },
        }
    }
}

impl View for TierSlot {
    type V = SlotView;

    open spec fn view(&self) -> SlotView {
        SlotView { id: self.id, relation: self.relation, tier: self.tier@ }
    }
}

/// The values of a sequence of tier slots.
pub open spec fn slots_view(s: Seq<TierSlot>) -> Seq<SlotView> {
    s.map_values(|t: TierSlot| t@)
}

// ----------------------------------------------------------------------------
// Integrity rules
// ----------------------------------------------------------------------------

impl TierView {
    pub open spec fn is_interval(self) -> bool {
        self is Interval
    }

    pub open spec fn intervals(self) -> Seq<IntervalView> {
        match self {
            TierView::Interval { intervals, .. } => intervals,
            TierView::Point { .. } => Seq::empty(),
        }
    }

    pub open spec fn points(self) -> Seq<PointView> {
        match self {
            TierView::Interval { .. } => Seq::empty(),
            TierView::Point { points, .. } => points,
        }
    }
}

/// Boundary ids of an interval tier in order: every interval start, then the
/// last interval end. Empty for an empty tier.
pub open spec fn tier_boundary_ids(intervals: Seq<IntervalView>) -> Seq<u64> {
    if intervals.len() == 0 {
        Seq::empty()
    } else {
        intervals.map_values(|i: IntervalView| i.start_boundary.0).push(
            intervals.last().end_boundary.0,
        )
    }
}

/// Boundary times of an interval tier in order: the first start, then every end.
pub open spec fn tier_boundary_times(intervals: Seq<IntervalView>) -> Seq<Time> {
    if intervals.len() == 0 {
        Seq::empty()
    } else {
        seq![intervals[0].xmin] + intervals.map_values(|i: IntervalView| i.xmax)
    }
}

/// Boundary ids paired with times, as the tier reports them: the first start
/// boundary at the first start, then every end boundary at its interval end.
pub open spec fn tier_boundaries(intervals: Seq<IntervalView>) -> Seq<(BoundaryId, Time)> {
    if intervals.len() == 0 {
        Seq::empty()
    } else {
        seq![(intervals[0].start_boundary, intervals[0].xmin)] + intervals.map_values(
            |i: IntervalView| (i.end_boundary, i.xmax),
        )
    }
}

/// Tier ids in document order.
pub open spec fn tier_ids(tiers: Seq<SlotView>) -> Seq<u64> {
    tiers.map_values(|s: SlotView| s.id.0)
}

/// Ids of a sequence of intervals.
pub open spec fn interval_ids_of(s: Seq<IntervalView>) -> Seq<u64> {
    s.map_values(|i: IntervalView| i.id.0)
}

/// Ids of a sequence of points.
pub open spec fn point_ids_of(s: Seq<PointView>) -> Seq<u64> {
    s.map_values(|p: PointView| p.id.0)
}

/// Interval ids of one tier (empty for a point tier or an empty interval tier).
pub open spec fn slot_interval_ids(s: SlotView) -> Seq<u64> {
    interval_ids_of(s.tier.intervals())
}

/// Boundary ids of one tier (empty for a point tier).
pub open spec fn slot_boundary_ids(s: SlotView) -> Seq<u64> {
    tier_boundary_ids(s.tier.intervals())
}

/// Point ids of one tier (empty for an interval tier).
pub open spec fn slot_point_ids(s: SlotView) -> Seq<u64> {
    point_ids_of(s.tier.points())
}

/// Every interval id of the document, tier by tier.
pub open spec fn all_interval_ids(tiers: Seq<SlotView>) -> Seq<u64>
    decreases tiers.len(),
{
    if tiers.len() == 0 {
        Seq::empty()
    } else {
        all_interval_ids(tiers.drop_last()) + slot_interval_ids(tiers.last())
    }
}

/// Every boundary position of the document, tier by tier.
pub open spec fn all_boundary_ids(tiers: Seq<SlotView>) -> Seq<u64>
    decreases tiers.len(),
{
    if tiers.len() == 0 {
        Seq::empty()
    } else {
        all_boundary_ids(tiers.drop_last()) + slot_boundary_ids(tiers.last())
    }
}

/// Every point id of the document, tier by tier.
pub open spec fn all_point_ids(tiers: Seq<SlotView>) -> Seq<u64>
    decreases tiers.len(),
{
    if tiers.len() == 0 {
        Seq::empty()
    } else {
        all_point_ids(tiers.drop_last()) + slot_point_ids(tiers.last())
    }
}

/// One interval is well formed: finite, non-empty span.
pub open spec fn interval_ok(i: IntervalView) -> bool {
    &&& i.xmin.spec_is_finite()
    &&& i.xmax.spec_is_finite()
    &&& !i.xmax.spec_le(i.xmin)
}

/// Two adjacent intervals touch exactly and share their boundary id.
pub open spec fn adjacent_ok(prev: IntervalView, next: IntervalView) -> bool {
    &&& !next.xmin.spec_lt(prev.xmax)
    &&& !prev.xmax.spec_lt(next.xmin)
    &&& prev.end_boundary == next.start_boundary
}

/// An interval tier covers `[xmin, xmax]` with sorted, contiguous intervals.
pub open spec fn interval_tier_ok(xmin: Time, xmax: Time, s: Seq<IntervalView>) -> bool {
    &&& s.len() > 0
    &&& s[0].xmin == xmin
    &&& s.last().xmax == xmax
    &&& forall|k: int| 0 <= k < s.len() ==> interval_ok(#[trigger] s[k])
    &&& forall|k: int| 0 < k < s.len() ==> adjacent_ok(s[k - 1], #[trigger] s[k])
}

/// One point is finite and inside the domain.
pub open spec fn point_ok(xmin: Time, xmax: Time, p: PointView) -> bool {
    &&& p.time.spec_is_finite()
    &&& !p.time.spec_lt(xmin)
    &&& !xmax.spec_lt(p.time)
}

/// Two adjacent points are in order and do not share a time.
pub open spec fn adjacent_points_ok(prev: PointView, next: PointView) -> bool {
    &&& !next.time.spec_lt(prev.time)
    &&& prev.time != next.time
}

/// A point tier holds sorted points inside the domain.
pub open spec fn point_tier_ok(xmin: Time, xmax: Time, s: Seq<PointView>) -> bool {
    &&& forall|k: int| 0 <= k < s.len() ==> point_ok(xmin, xmax, #[trigger] s[k])
    &&& forall|k: int| 0 < k < s.len() ==> adjacent_points_ok(s[k - 1], #[trigger] s[k])
}

/// A tier's own content is well formed.
pub open spec fn tier_content_ok(xmin: Time, xmax: Time, t: TierView) -> bool {
    match t {
        TierView::Interval { intervals, .. } => interval_tier_ok(xmin, xmax, intervals),
        TierView::Point { points, .. } => point_tier_ok(xmin, xmax, points),
    }
}

/// Index of the first tier carrying id `id`, if any.
pub open spec fn has_tier(tiers: Seq<SlotView>, id: TierId) -> bool {
    exists|j: int| 0 <= j < tiers.len() && tiers[j].id == id
}

/// Every boundary time of `a` occurs among the boundary times of `b`.
pub open spec fn boundary_times_covered(a: Seq<IntervalView>, b: Seq<IntervalView>) -> bool {
    forall|k: int|
        0 <= k < tier_boundary_times(a).len() ==> tier_boundary_times(b).contains(
            #[trigger] tier_boundary_times(a)[k],
        )
}

/// An aligned relation from `left` to the tier `with` holds.
pub open spec fn aligned_ok(tiers: Seq<SlotView>, left: SlotView, with: TierId) -> bool {
    &&& has_tier(tiers, with)
    &&& forall|j: int|
        0 <= j < tiers.len() && #[trigger] tiers[j].id == with ==> {
            &&& left.tier.is_interval()
            &&& tiers[j].tier.is_interval()
            &&& boundary_times_covered(left.tier.intervals(), tiers[j].tier.intervals())
            &&& boundary_times_covered(tiers[j].tier.intervals(), left.tier.intervals())
        }
}

/// A child interval lies inside some interval of the parent.
pub open spec fn nested_in(c: IntervalView, parent: Seq<IntervalView>) -> bool {
    exists|m: int|
        0 <= m < parent.len() && #[trigger] parent[m].xmin.spec_le(c.xmin) && c.xmax.spec_le(
            parent[m].xmax,
        )
}

/// A child relation from `child` to the tier `parent` holds.
pub open spec fn child_ok(tiers: Seq<SlotView>, child: SlotView, parent: TierId) -> bool {
    &&& has_tier(tiers, parent)
    &&& forall|j: int|
        0 <= j < tiers.len() && #[trigger] tiers[j].id == parent ==> {
            &&& tiers[j].tier.is_interval()
            &&& child.tier.is_interval()
            &&& forall|k: int|
                0 <= k < child.tier.intervals().len() ==> nested_in(
                    #[trigger] child.tier.intervals()[k],
                    tiers[j].tier.intervals(),
                )
        }
}

/// The relation a slot carries holds.
pub open spec fn relation_ok(tiers: Seq<SlotView>, s: SlotView) -> bool {
    match s.relation {
        TierRelation::Independent => true,
        TierRelation::AlignedBoundaries { with } => aligned_ok(tiers, s, with),
        TierRelation::ChildOf { parent } => child_ok(tiers, s, parent),
    }
}

impl DocView {
    /// The time domain is finite and non-empty.
    pub open spec fn domain_ok(self) -> bool {
        &&& self.xmin.spec_is_finite()
        &&& self.xmax.spec_is_finite()
        &&& !self.xmax.spec_le(self.xmin)
    }

    /// Every identifier class is free of duplicates.
    pub open spec fn ids_distinct(self) -> bool {
        &&& tier_ids(self.tiers).no_duplicates()
        &&& all_interval_ids(self.tiers).no_duplicates()
        &&& all_boundary_ids(self.tiers).no_duplicates()
        &&& all_point_ids(self.tiers).no_duplicates()
    }

    /// The document satisfies every integrity rule: `validate` reports nothing.
    pub open spec fn valid(self) -> bool {
        &&& self.domain_ok()
        &&& self.ids_distinct()
        &&& forall|i: int|
            0 <= i < self.tiers.len() ==> tier_content_ok(
                self.xmin,
                self.xmax,
                #[trigger] self.tiers[i].tier,
            )
        &&& forall|i: int|
            0 <= i < self.tiers.len() ==> relation_ok(self.tiers, #[trigger] self.tiers[i])
    }
}


// ----------------------------------------------------------------------------
// Identifier freshness
// ----------------------------------------------------------------------------

/// `s` is duplicate-free and shares nothing with `seen`.
pub open spec fn fresh_ids(seen: Set<u64>, s: Seq<u64>) -> bool {
    &&& s.no_duplicates()
    &&& forall|k: int| 0 <= k < s.len() ==> !seen.contains(#[trigger] s[k])
}

/// Extending a fresh sequence by one id keeps it fresh exactly when the id is
/// new to both the seen set and the sequence.
pub proof fn lemma_fresh_push(seen: Set<u64>, s: Seq<u64>, x: u64)
    ensures
        fresh_ids(seen, s.push(x)) == (fresh_ids(seen, s) && !(seen + s.to_set()).contains(x)),
{
    let t = s.push(x);
    assert(forall|k: int| 0 <= k < s.len() ==> t[k] == s[k]);
    assert(t[s.len() as int] == x);
    if fresh_ids(seen, t) {
        if s.to_set().contains(x) {
            let k = choose|k: int| 0 <= k < s.len() && s[k] == x;
            assert(t[k] == t[s.len() as int]);
        }
    }
    if fresh_ids(seen, s) && !(seen + s.to_set()).contains(x) {
        assert forall|a: int, b: int| 0 <= a < t.len() && 0 <= b < t.len() && a != b implies t[a]
            != t[b] by {
            if a < s.len() && b < s.len() {
            } else if a == s.len() {
                assert(s.to_set().contains(s[b]));
            } else {
                assert(s.to_set().contains(s[a]));
            }
        }
    }
}

/// A concatenation is duplicate-free exactly when its first part is and the
/// second part is fresh with respect to it.
pub proof fn lemma_no_dup_concat(a: Seq<u64>, b: Seq<u64>)
    ensures
        (a + b).no_duplicates() == (a.no_duplicates() && fresh_ids(a.to_set(), b)),
    decreases b.len(),
{
    if b.len() == 0 {
        assert(a + b =~= a);
    } else {
        let b0 = b.drop_last();
        let x = b.last();
        lemma_no_dup_concat(a, b0);
        assert(a + b =~= (a + b0).push(x));
        assert(b =~= b0.push(x));
        lemma_fresh_push(a.to_set(), b0, x);
        lemma_fresh_push(Set::empty(), a + b0, x);
        assert(fresh_ids(Set::empty(), a + b0) == (a + b0).no_duplicates());
        assert(fresh_ids(Set::empty(), (a + b0).push(x)) == (a + b0).push(x).no_duplicates());
        assert((a + b0).to_set() =~= a.to_set() + b0.to_set()) by {
            assert forall|v: u64| (a + b0).to_set().contains(v) implies (a.to_set()
                + b0.to_set()).contains(v) by {
                let k = choose|k: int| 0 <= k < (a + b0).len() && (a + b0)[k] == v;
                if k < a.len() {
                    assert(a[k] == v);
                } else {
                    assert(b0[k - a.len()] == v);
                }
            }
            assert forall|v: u64| (a.to_set() + b0.to_set()).contains(v) implies (a
                + b0).to_set().contains(v) by {
                if a.to_set().contains(v) {
                    let k = choose|k: int| 0 <= k < a.len() && a[k] == v;
                    assert((a + b0)[k] == v);
                } else {
                    let k = choose|k: int| 0 <= k < b0.len() && b0[k] == v;
                    assert((a + b0)[k + a.len()] == v);
                }
            }
        }
        assert((Set::<u64>::empty() + (a + b0).to_set()) =~= (a + b0).to_set());
    }
}


/// The set of a sequence extended by one element.
pub proof fn lemma_to_set_push(s: Seq<u64>, x: u64)
    ensures
        s.push(x).to_set() == s.to_set().insert(x),
        forall|seen: Set<u64>| #[trigger] (seen + s.to_set()).insert(x) == seen + s.push(x).to_set(),
{
    let t = s.push(x);
    assert(t[s.len() as int] == x);
    assert forall|v: u64| t.to_set().contains(v) implies s.to_set().insert(x).contains(v) by {
        let k = choose|k: int| 0 <= k < t.len() && t[k] == v;
        if k < s.len() {
            assert(s[k] == v);
        }
    }
    assert forall|v: u64| s.to_set().insert(x).contains(v) implies t.to_set().contains(v) by {
        if v != x {
            let k = choose|k: int| 0 <= k < s.len() && s[k] == v;
            assert(t[k] == v);
        }
    }
    assert(t.to_set() =~= s.to_set().insert(x));
    assert forall|seen: Set<u64>| #[trigger] (seen + s.to_set()).insert(x) == seen + t.to_set() by {
        assert((seen + s.to_set()).insert(x) =~= seen + t.to_set());
    }
}

/// The set of a concatenation is the union of the sets.
pub proof fn lemma_to_set_concat(a: Seq<u64>, b: Seq<u64>)
    ensures
        (a + b).to_set() == a.to_set() + b.to_set(),
{
    assert forall|v: u64| (a + b).to_set().contains(v) implies (a.to_set() + b.to_set()).contains(
        v,
    ) by {
        let k = choose|k: int| 0 <= k < (a + b).len() && (a + b)[k] == v;
        if k < a.len() {
            assert(a[k] == v);
        } else {
            assert(b[k - a.len()] == v);
        }
    }
    assert forall|v: u64| (a.to_set() + b.to_set()).contains(v) implies (a + b).to_set().contains(
        v,
    ) by {
        if a.to_set().contains(v) {
            let k = choose|k: int| 0 <= k < a.len() && a[k] == v;
            assert((a + b)[k] == v);
        } else {
            let k = choose|k: int| 0 <= k < b.len() && b[k] == v;
            assert((a + b)[k + a.len()] == v);
        }
    }
    assert((a + b).to_set() =~= a.to_set() + b.to_set());
}


// ----------------------------------------------------------------------------
// Copies
// ----------------------------------------------------------------------------

impl Interval {
    /// A copy carrying the same value.
    pub fn duplicate(&self) -> (r: Interval)
        ensures
            r@ == self@,
    {
        Interval {
            id: self.id,
            start_boundary: self.start_boundary,
            end_boundary: self.end_boundary,
            xmin: self.xmin,
            xmax: self.xmax,
            label: self.label.clone(),
        }
    }
}

impl Point {
    /// A copy carrying the same value.
    pub fn duplicate(&self) -> (r: Point)
        ensures
            r@ == self@,
    {
        Point { id: self.id, time: self.time, label: self.label.clone() }
    }
}

/// A copy of a sequence of intervals.
pub fn duplicate_intervals(s: &Vec<Interval>) -> (r: Vec<Interval>)
    ensures
        intervals_view(r@) == intervals_view(s@),
{
    let mut r: Vec<Interval> = Vec::new();
    let mut k: usize = 0;
    while k < s.len()
        invariant
            k <= s.len(),
            intervals_view(r@) =~= intervals_view(s@).take(k as int),
        decreases s.len() - k,
    {
        let d = s[k].duplicate();
        let ghost prev = r@;
        r.push(d);
        assert(intervals_view(r@) =~= intervals_view(prev).push(d@));
        assert(intervals_view(s@).take(k + 1) =~= intervals_view(s@).take(k as int).push(s@[k as int]@));
        k += 1;
    }
    assert(intervals_view(s@).take(s.len() as int) =~= intervals_view(s@));
    r
}

/// A copy of a sequence of points.
pub fn duplicate_points(s: &Vec<Point>) -> (r: Vec<Point>)
    ensures
        points_view(r@) == points_view(s@),
{
    let mut r: Vec<Point> = Vec::new();
    let mut k: usize = 0;
    while k < s.len()
        invariant
            k <= s.len(),
            points_view(r@) =~= points_view(s@).take(k as int),
        decreases s.len() - k,
    {
        let d = s[k].duplicate();
        let ghost prev = r@;
        r.push(d);
        assert(points_view(r@) =~= points_view(prev).push(d@));
        assert(points_view(s@).take(k + 1) =~= points_view(s@).take(k as int).push(s@[k as int]@));
        k += 1;
    }
    assert(points_view(s@).take(s.len() as int) =~= points_view(s@));
    r
}

impl Tier {
    /// A copy carrying the same value.
    pub fn duplicate(&self) -> (r: Tier)
        ensures
            r@ == self@,
    {
        match self {
            Tier::Interval(t) => Tier::Interval(
                IntervalTier { name: t.name.clone(), intervals: duplicate_intervals(&t.intervals) },
            ),
            Tier::Point(t) => Tier::Point(
                PointTier { name: t.name.clone(), points: duplicate_points(&t.points) },
            ),
        }
    }
}

impl TierSlot {
    /// A copy carrying the same value.
    pub fn duplicate(&self) -> (r: TierSlot)
        ensures
            r@ == self@,
    {
        TierSlot { id: self.id, relation: self.relation, tier: self.tier.duplicate() }
    }
}

/// A copy of a sequence of tier slots.
pub fn duplicate_slots(s: &Vec<TierSlot>) -> (r: Vec<TierSlot>)
    ensures
        slots_view(r@) == slots_view(s@),
{
    let mut r: Vec<TierSlot> = Vec::new();
    let mut k: usize = 0;
    while k < s.len()
        invariant
            k <= s.len(),
            slots_view(r@) =~= slots_view(s@).take(k as int),
        decreases s.len() - k,
    {
        let d = s[k].duplicate();
        let ghost prev = r@;
        r.push(d);
        assert(slots_view(r@) =~= slots_view(prev).push(d@));
        assert(slots_view(s@).take(k + 1) =~= slots_view(s@).take(k as int).push(s@[k as int]@));
        k += 1;
    }
    assert(slots_view(s@).take(s.len() as int) =~= slots_view(s@));
    r
}

/// A copy of a slice of tier slots.
pub fn duplicate_slots_of(s: &[TierSlot]) -> (r: Vec<TierSlot>)
    ensures
        slots_view(r@) == slots_view(s@),
{
    let mut r: Vec<TierSlot> = Vec::new();
    let mut k: usize = 0;
    while k < s.len()
        invariant
            k <= s.len(),
            slots_view(r@) =~= slots_view(s@).take(k as int),
        decreases s.len() - k,
    {
        let d = s[k].duplicate();
        let ghost prev = r@;
        r.push(d);
        assert(slots_view(r@) =~= slots_view(prev).push(d@));
        assert(slots_view(s@).take(k + 1) =~= slots_view(s@).take(k as int).push(s@[k as int]@));
        k += 1;
    }
    assert(slots_view(s@).take(s.len() as int) =~= slots_view(s@));
    r
}

// ----------------------------------------------------------------------------
// Identifier generators
// ----------------------------------------------------------------------------

/// Largest value of a sequence of ids, 0 for an empty one.
pub open spec fn seq_max(s: Seq<u64>) -> int
    decreases s.len(),
{
    if s.len() == 0 {
        0
    } else {
        let m = seq_max(s.drop_last());
        if s.last() > m {
            s.last() as int
        } else {
            m
        }
    }
}

/// The boundary ids a tier lists (first start, then every end), as numbers.
pub open spec fn listed_boundary_ids(s: SlotView) -> Seq<u64> {
    tier_boundaries(s.tier.intervals()).map_values(|b: (BoundaryId, Time)| b.0.0)
}

/// Every listed boundary id of the document, tier by tier.
pub open spec fn all_listed_boundary_ids(tiers: Seq<SlotView>) -> Seq<u64>
    decreases tiers.len(),
{
    if tiers.len() == 0 {
        Seq::empty()
    } else {
        all_listed_boundary_ids(tiers.drop_last()) + listed_boundary_ids(tiers.last())
    }
}

/// Every id of the document lies below the largest `u64`, so one more than the
/// largest of each class is representable.
pub open spec fn ids_below_max(tiers: Seq<SlotView>) -> bool {
    &&& seq_max(tier_ids(tiers)) < u64::MAX
    &&& seq_max(all_listed_boundary_ids(tiers)) < u64::MAX
    &&& seq_max(all_interval_ids(tiers)) < u64::MAX
    &&& seq_max(all_point_ids(tiers)) < u64::MAX
}

/// The generators recomputed from the tiers: one past the largest id of each
/// class (tier, boundary, interval, point), 1 where a class is empty.
pub open spec fn reseeded_ids(tiers: Seq<SlotView>) -> (u64, u64, u64, u64) {
    (
        (seq_max(tier_ids(tiers)) + 1) as u64,
        (seq_max(all_listed_boundary_ids(tiers)) + 1) as u64,
        (seq_max(all_interval_ids(tiers)) + 1) as u64,
        (seq_max(all_point_ids(tiers)) + 1) as u64,
    )
}

/// The largest of a concatenation is the larger of the two largests.
pub proof fn lemma_seq_max_concat(a: Seq<u64>, b: Seq<u64>)
    ensures
        seq_max(a + b) == if seq_max(a) >= seq_max(b) {
            seq_max(a)
        } else {
            seq_max(b)
        },
    decreases b.len(),
{
    if b.len() == 0 {
        assert(a + b =~= a);
    } else {
        assert((a + b).drop_last() =~= a + b.drop_last());
        lemma_seq_max_concat(a, b.drop_last());
    }
}

/// Pushing one id: the largest grows to it when it is larger.
pub proof fn lemma_seq_max_push(a: Seq<u64>, x: u64)
    ensures
        seq_max(a.push(x)) == if x > seq_max(a) {
            x as int
        } else {
            seq_max(a)
        },
{
    assert(a.push(x).drop_last() =~= a);
}

/// The largest bounds every element and is 0 or one of them.
pub proof fn lemma_seq_max_bounds(a: Seq<u64>)
    ensures
        forall|k: int| 0 <= k < a.len() ==> a[k] <= seq_max(a),
        seq_max(a) >= 0,
    decreases a.len(),
{
    if a.len() > 0 {
        lemma_seq_max_bounds(a.drop_last());
        assert forall|k: int| 0 <= k < a.len() implies a[k] <= seq_max(a) by {
            if k < a.len() - 1 {
                assert(a[k] == a.drop_last()[k]);
            }
        }
    }
}

} // verus!
