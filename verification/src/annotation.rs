//! Annotation documents: construction, integrity validation and lookups.
use crate::fresh::{lemma_move_back_all_below, lemma_insert_boundary_below, lemma_insert_point_below, lemma_move_boundary_below, lemma_move_point_below, lemma_remove_boundary_below, lemma_remove_point_below, lemma_reorder_tier_below, lemma_replace_label_below, gens_above, gens_le, lemma_gens_grow, lemma_gens_push, lemma_gens_update, lemma_content_ids_below, lemma_listed_below, lemma_reseeded_above, slot_below};
use crate::laws::{law_insert_point_valid, law_add_interval_tier_valid, law_add_point_tier_valid};
use vstd::prelude::*;
use std::collections::HashSet;

use crate::ids::{BoundaryId, IntervalId, PointId, TierId};
use crate::issues::{AnnotationError, IntegrityIssue};
use crate::model::{
    adjacent_ok, adjacent_points_ok, all_boundary_ids, all_interval_ids, all_point_ids,
    boundary_times_covered, fresh_ids, has_tier, interval_ids_of, interval_ok, interval_tier_ok,
    intervals_view, lemma_fresh_push, lemma_no_dup_concat, lemma_to_set_concat, lemma_to_set_push,
    nested_in, point_ids_of, point_ok, point_tier_ok, points_view, relation_ok, slot_boundary_ids,
    slot_interval_ids, slot_point_ids, slots_view, tier_boundaries, tier_boundary_ids,
    tier_boundary_times, tier_content_ok, tier_ids, DocView, Interval, IntervalTier, IntervalView,
    PointTier, RelationKind, SlotView, Tier, TierRelation, TierSlot, TimeRole,
};
use crate::time::Time;
use crate::integrity::{
    missing_boundaries, missing_steps, aligned_issues, child_issues, orphan_steps,
    relation_issues, relation_steps, tier_step, content_steps, domain_issues, doc_issues,
    adjacent_interval_issues, all_hold, lemma_hold_none, boundary_steps, interval_step, interval_steps,
    interval_tier_issues, issue_holds, opt_issue, point_step, point_steps, violation_of, interval_tier_at, lemma_boundary_seen_twice, lemma_hold_extend,
    lemma_interval_seen_twice, lemma_point_seen_twice, lemma_push_holds, point_tier_at,
};
use crate::undo::{
    inverse_in_range, interval_ieee_eq, is_merged_at, merged_position, move_back_all,
    restore_all, restore_in_tier, restores_in_range, spec_apply_inverse,
};
use crate::payloads::{InverseMutation, InverseView};
use crate::model::{
    all_listed_boundary_ids, ids_below_max, lemma_seq_max_concat, lemma_seq_max_push,
    listed_boundary_ids, reseeded_ids, seq_max,
};
use crate::edits::{
    first_interval, first_point, first_point_tier, first_tier, holds_point, insert_position,
    is_control_byte, is_first_control, is_first_interval, is_first_point, is_first_point_tier,
    is_first_tier, is_insert_position, spec_insert_point, spec_move_point, spec_remove_point,
    spec_reorder_tier, spec_replace_label,
};
use crate::model::{duplicate_slots, Point, PointView, TierView, LabelTarget, TierKind};
use crate::payloads::{
    merges_view, BoundaryMove, LabelChange, Merged, Moved, PointInsertion, PointMoved,
    PointRemoval, TierMerge, TierMergeView, TierReorder,
};
use crate::edits::{first_control_of, first_dirty_label, lemma_first_dirty_at, lemma_no_dirty, new_interval_slot, stored_points, with_tier};
use crate::model::{duplicate_intervals, AlignMode};
use vstd::string::StringSliceAdditionalSpecFns;
use crate::boundary_edits::{
    boundary_location, interior_at, is_boundary_home, is_first_listing, is_interior_at, is_split_at,
    last_with_id, lists_boundary, merge_all, merge_in_tier, move_all, move_in_tier, move_targets,
    split_all, split_position, split_tier, spec_insert_boundary, spec_move_boundary,
    spec_remove_boundary, with_intervals, lemma_pass, lemma_sk_ids_len, sk_closure, sk_first, sk_has, sk_ids, sk_members, sk_pass,
    skeleton, spec_aligned_indices,
};

verus! {

broadcast use vstd::std_specs::hash::group_hash_axioms;

/// Annotation document with ordered tiers and a finite time domain in seconds.
#[derive(Debug)]
pub struct Annotation {
    xmin: Time,
    xmax: Time,
    tiers: Vec<TierSlot>,
    next_tier_id: u64,
    next_boundary_id: u64,
    next_interval_id: u64,
    next_point_id: u64,
}

impl View for Annotation {
    type V = DocView;

    closed spec fn view(&self) -> DocView {
        DocView { xmin: self.xmin, xmax: self.xmax, tiers: slots_view(self.tiers@) }
    }
}

impl Annotation {
    /// The next identifier each allocator hands out: tier, boundary, interval, point.
    pub closed spec fn next_ids(&self) -> (u64, u64, u64, u64) {
        (self.next_tier_id, self.next_boundary_id, self.next_interval_id, self.next_point_id)
    }

    /// Each identifier generator lies above every id of its class the
    /// document holds, so the next id it hands out is unused.
    pub open spec fn ids_fresh(&self) -> bool {
        gens_above(self@.tiers, self.next_ids())
    }

    /// Creates an empty document over the finite time domain `[xmin, xmax]`.
    pub fn new(xmin: Time, xmax: Time) -> (r: Result<Self, AnnotationError>)
        ensures
            !xmin.spec_is_finite() ==> r == Err::<Self, AnnotationError>(
                AnnotationError::NonFiniteTime { value: xmin, context: TimeRole::DomainStart },
            ),
            xmin.spec_is_finite() && !xmax.spec_is_finite() ==> r == Err::<Self, AnnotationError>(
                AnnotationError::NonFiniteTime { value: xmax, context: TimeRole::DomainEnd },
            ),
            xmin.spec_is_finite() && xmax.spec_is_finite() && xmax.spec_le(xmin) ==> r == Err::<
                Self,
                AnnotationError,
            >(AnnotationError::InvalidTimeDomain { xmin, xmax }),
            r is Ok <==> (xmin.spec_is_finite() && xmax.spec_is_finite() && !xmax.spec_le(xmin)),
            r matches Ok(doc) ==> {
                &&& doc@ == DocView { xmin, xmax, tiers: Seq::empty() }
                &&& doc.next_ids() == (1u64, 1u64, 1u64, 1u64)
                &&& doc@.valid()
                &&& doc.ids_fresh()
            },
    {
        if !xmin.is_finite() {
            return Err(AnnotationError::NonFiniteTime { value: xmin, context: TimeRole::DomainStart });
        }
        if !xmax.is_finite() {
            return Err(AnnotationError::NonFiniteTime { value: xmax, context: TimeRole::DomainEnd });
        }
        if xmax.le(xmin) {
            return Err(AnnotationError::InvalidTimeDomain { xmin, xmax });
        }
        let doc = Annotation {
            xmin,
            xmax,
            tiers: Vec::new(),
            next_tier_id: 1,
            next_boundary_id: 1,
            next_interval_id: 1,
            next_point_id: 1,
        };
        proof {
            assert(doc@.tiers =~= Seq::<SlotView>::empty());
            assert(tier_ids(doc@.tiers) =~= Seq::<u64>::empty());
        }
        Ok(doc)
    }

    /// Returns the start of the document time domain in seconds.
    pub fn xmin(&self) -> (t: Time)
        ensures
            t == self@.xmin,
    {
        self.xmin
    }

    /// Returns the end of the document time domain in seconds.
    pub fn xmax(&self) -> (t: Time)
        ensures
            t == self@.xmax,
    {
        self.xmax
    }

    /// Returns tiers in their explicit document order.
    pub fn tiers(&self) -> (t: &[TierSlot])
        ensures
            slots_view(t@) == self@.tiers,
    {
        self.tiers.as_slice()
    }

    /// Position of the first tier carrying `id`.
    pub fn tier_position(&self, id: TierId) -> (r: Option<usize>)
        ensures
            match r {
                Some(i) => {
                    &&& i < self@.tiers.len()
                    &&& self@.tiers[i as int].id == id
                    &&& forall|j: int| 0 <= j < i ==> self@.tiers[j].id != id
                    &&& first_tier(self@.tiers, id) == Some(i as int)
                },
                None => !has_tier(self@.tiers, id) && first_tier(self@.tiers, id) is None,
            },
    {
        let mut i: usize = 0;
        while i < self.tiers.len()
            invariant
                i <= self.tiers.len(),
                forall|j: int| 0 <= j < i ==> self@.tiers[j].id != id,
            decreases self.tiers.len() - i,
        {
            if self.tiers[i].id == id {
                assert(is_first_tier(self@.tiers, id, i as int));
                let ghost c = choose|c: int| is_first_tier(self@.tiers, id, c);
                assert(c == i);
                return Some(i);
            }
            i += 1;
        }
        None
    }

    /// Returns a tier slot by stable tier identifier.
    pub fn tier(&self, id: TierId) -> (r: Option<&TierSlot>)
        ensures
            match r {
                Some(slot) => exists|i: int|
                    0 <= i < self@.tiers.len() && self@.tiers[i] == slot@ && slot.id == id && (
                    forall|j: int| 0 <= j < i ==> self@.tiers[j].id != id),
                None => !has_tier(self@.tiers, id),
            },
    {
        match self.tier_position(id) {
            Some(i) => Some(&self.tiers[i]),
            None => None,
        }
    }

    /// Position of `tier` in document order, or `UnknownTier`.
    fn tier_index(&self, tier: TierId) -> (r: Result<usize, AnnotationError>)
        ensures
            match r {
                Ok(i) => {
                    &&& i < self@.tiers.len()
                    &&& self@.tiers[i as int].id == tier
                    &&& forall|j: int| 0 <= j < i ==> self@.tiers[j].id != tier
                },
                Err(e) => !has_tier(self@.tiers, tier) && e == AnnotationError::UnknownTier {
                    tier,
                },
            },
    {
        match self.tier_position(tier) {
            Some(i) => Ok(i),
            None => Err(AnnotationError::UnknownTier { tier }),
        }
    }

    /// Reports all integrity issues that can be found without panicking.
    ///
    /// The report is empty exactly when the document satisfies every integrity
    /// rule.
    pub fn validate(&self) -> (issues: Vec<IntegrityIssue>)
        ensures
            (issues.len() == 0) == self@.valid(),
            all_hold(self@, issues@, 0),
            issues@ == doc_issues(self@),
    {
        let mut issues: Vec<IntegrityIssue> = Vec::new();
        proof {
            lemma_hold_none(self@, issues@);
        }
        if !self.xmin.is_finite() {
            let issue = IntegrityIssue::NonFiniteTime { value: self.xmin, context: TimeRole::DomainStart };
            proof {
                lemma_push_holds(self@, issues@, issue, 0, issues@.take(0));
            }
            issues.push(issue);
        }
        if !self.xmax.is_finite() {
            let issue = IntegrityIssue::NonFiniteTime { value: self.xmax, context: TimeRole::DomainEnd };
            proof {
                lemma_push_holds(self@, issues@, issue, 0, issues@.take(0));
            }
            issues.push(issue);
        }
        if self.xmax.le(self.xmin) {
            let issue = IntegrityIssue::InvalidTimeDomain { xmin: self.xmin, xmax: self.xmax };
            proof {
                lemma_push_holds(self@, issues@, issue, 0, issues@.take(0));
            }
            issues.push(issue);
        }
        let ghost base_ok = self@.domain_ok();
        assert((issues.len() == 0) == base_ok);
        assert(issues@ =~= domain_issues(self@) + content_steps(self@, 0));

        let mut tier_ids_seen: HashSet<u64> = HashSet::new();
        let mut interval_ids: HashSet<u64> = HashSet::new();
        let mut point_ids: HashSet<u64> = HashSet::new();
        let mut boundary_ids: HashSet<u64> = HashSet::new();
        let ghost tiers = self@.tiers;
        let mut i: usize = 0;
        while i < self.tiers.len()
            invariant
                i <= self.tiers.len(),
                tiers == self@.tiers,
                tiers.len() == self.tiers.len(),
                base_ok == self@.domain_ok(),
                tier_ids_seen@ == tier_ids(tiers.take(i as int)).to_set(),
                interval_ids@ == all_interval_ids(tiers.take(i as int)).to_set(),
                boundary_ids@ == all_boundary_ids(tiers.take(i as int)).to_set(),
                point_ids@ == all_point_ids(tiers.take(i as int)).to_set(),
                all_hold(self@, issues@, 0),
                issues@ == domain_issues(self@) + content_steps(self@, i as nat),
                (issues.len() == 0) == (base_ok && tier_ids(tiers.take(i as int)).no_duplicates()
                    && all_interval_ids(tiers.take(i as int)).no_duplicates() && all_boundary_ids(
                    tiers.take(i as int),
                ).no_duplicates() && all_point_ids(tiers.take(i as int)).no_duplicates() && (
                forall|j: int|
                    0 <= j < i ==> tier_content_ok(self.xmin, self.xmax, #[trigger] tiers[j].tier))),
            decreases self.tiers.len() - i,
        {
            let ghost prev = tiers.take(i as int);
            let ghost next = tiers.take(i + 1);
            let ghost old_len = issues.len();
            let ghost old_tiers_seen = tier_ids_seen@;
            let ghost old_iv = interval_ids@;
            let ghost old_b = boundary_ids@;
            let ghost old_p = point_ids@;
            proof {
                assert(next.drop_last() =~= prev);
                assert(next.last() == tiers[i as int]);
                assert(tier_ids(next) =~= tier_ids(prev).push(tiers[i as int].id.0));
                lemma_fresh_push(Set::empty(), tier_ids(prev), tiers[i as int].id.0);
                assert(Set::<u64>::empty() + tier_ids(prev).to_set() =~= tier_ids(prev).to_set());
                lemma_no_dup_concat(all_interval_ids(prev), slot_interval_ids(tiers[i as int]));
                lemma_no_dup_concat(all_boundary_ids(prev), slot_boundary_ids(tiers[i as int]));
                lemma_no_dup_concat(all_point_ids(prev), slot_point_ids(tiers[i as int]));
                lemma_to_set_concat(all_interval_ids(prev), slot_interval_ids(tiers[i as int]));
                lemma_to_set_concat(all_boundary_ids(prev), slot_boundary_ids(tiers[i as int]));
                lemma_to_set_concat(all_point_ids(prev), slot_point_ids(tiers[i as int]));
                lemma_to_set_push(tier_ids(prev), tiers[i as int].id.0);
            }
            let slot = &self.tiers[i];
            let ghost step_start = issues@;
            let fresh_tier = tier_ids_seen.insert(slot.id.0);
            if !fresh_tier {
                let issue = IntegrityIssue::DuplicateTierId { tier: slot.id };
                proof {
                    let a = choose|a: int| 0 <= a < prev.len() && tier_ids(prev)[a] == slot.id.0;
                    assert(tier_ids(prev)[a] == tiers[a].id.0);
                    assert(tiers[a].id == tiers[i as int].id);
                    lemma_push_holds(self@, issues@, issue, 0, issues@.take(0));
                }
                issues.push(issue);
            }
            let ghost before = issues@;
            assert(before =~= step_start + opt_issue(
                tier_ids(prev).contains(slot.id.0),
                IntegrityIssue::DuplicateTierId { tier: slot.id },
            ));
            match &slot.tier {
                Tier::Interval(tier) => {
                    self.validate_interval_tier(
                        i,
                        slot.id,
                        tier,
                        &mut interval_ids,
                        &mut boundary_ids,
                        &mut issues,
                    );
                    proof {
                        lemma_hold_extend(self@, before, issues@, 0);
                        assert(issues@ =~= step_start + tier_step(self@, i as int));
                        assert(slot_point_ids(tiers[i as int]) =~= Seq::<u64>::empty());
                        assert(old_p + Seq::<u64>::empty().to_set() =~= old_p);
                    }
                },
                Tier::Point(tier) => {
                    self.validate_point_tier(i, slot.id, tier, &mut point_ids, &mut issues);
                    proof {
                        lemma_hold_extend(self@, before, issues@, 0);
                        assert(issues@ =~= step_start + tier_step(self@, i as int));
                        assert(slot_interval_ids(tiers[i as int]) =~= Seq::<u64>::empty());
                        assert(slot_boundary_ids(tiers[i as int]) =~= Seq::<u64>::empty());
                        assert(old_iv + Seq::<u64>::empty().to_set() =~= old_iv);
                        assert(old_b + Seq::<u64>::empty().to_set() =~= old_b);
                    }
                },
            }
            proof {
                assert forall|j: int| 0 <= j < i + 1 implies #[trigger] next[j] == tiers[j] by {}
                assert(content_steps(self@, (i + 1) as nat) == content_steps(self@, i as nat)
                    + tier_step(self@, i as int));
                assert(issues@ =~= domain_issues(self@) + content_steps(self@, (i + 1) as nat));
                if issues.len() == 0 {
                    assert(tier_content_ok(self.xmin, self.xmax, tiers[i as int].tier));
                }
            }
            i += 1;
        }
        proof {
            assert(tiers.take(tiers.len() as int) =~= tiers);
        }
        let ghost content_ok = issues.len() == 0;
        assert(content_ok == (self@.domain_ok() && self@.ids_distinct() && forall|j: int|
            0 <= j < tiers.len() ==> tier_content_ok(
                self.xmin,
                self.xmax,
                #[trigger] tiers[j].tier,
            )));

        assert(issues@ =~= domain_issues(self@) + content_steps(self@, tiers.len()) + relation_steps(
            self@,
            0,
        ));
        let mut i: usize = 0;
        while i < self.tiers.len()
            invariant
                i <= self.tiers.len(),
                tiers == self@.tiers,
                tiers.len() == self.tiers.len(),
                content_ok ==> self@.ids_distinct(),
                all_hold(self@, issues@, 0),
                issues@ == domain_issues(self@) + content_steps(self@, tiers.len()) + relation_steps(
                    self@,
                    i as nat,
                ),
                (issues.len() == 0) == (content_ok && forall|j: int|
                    0 <= j < i ==> relation_ok(tiers, #[trigger] tiers[j])),
            decreases self.tiers.len() - i,
        {
            let slot = &self.tiers[i];
            let ghost before = issues@;
            match slot.relation {
                TierRelation::Independent => {},
                TierRelation::AlignedBoundaries { with } => {
                    self.validate_aligned_relation(i, with, &mut issues);
                    proof {
                        lemma_hold_extend(self@, before, issues@, 0);
                    }
                },
                TierRelation::ChildOf { parent } => {
                    self.validate_child_relation(i, parent, &mut issues);
                    proof {
                        lemma_hold_extend(self@, before, issues@, 0);
                    }
                },
            }
            proof {
                assert(relation_steps(self@, (i + 1) as nat) == relation_steps(self@, i as nat)
                    + relation_issues(self@, i as int));
                assert(issues@ =~= domain_issues(self@) + content_steps(self@, tiers.len())
                    + relation_steps(self@, (i + 1) as nat));
            }
            i += 1;
        }
        issues
    }

    /// The checks of interval `index` of interval tier `tier_id`: its id is
    /// recorded as seen and the issues it raises are appended.
    #[verifier::spinoff_prover]
    #[verifier::rlimit(100)]
    fn check_interval(
        &self,
        slot: usize,
        tier_id: TierId,
        tier: &IntervalTier,
        index: usize,
        interval_ids: &mut HashSet<u64>,
        issues: &mut Vec<IntegrityIssue>,
        Ghost(seen_iv): Ghost<Set<u64>>,
        Ghost(base): Ghost<int>,
        Ghost(base_seq): Ghost<Seq<IntegrityIssue>>,
    ) -> (ok: bool)
        requires
            index < tier.intervals.len(),
            slot < self@.tiers.len(),
            interval_tier_at(self@, slot as int, tier_id, intervals_view(tier.intervals@)),
            seen_iv == all_interval_ids(self@.tiers.take(slot as int)).to_set(),
            old(interval_ids)@ == seen_iv + interval_ids_of(intervals_view(tier.intervals@)).take(
                index as int,
            ).to_set(),
            0 <= base <= old(issues).len(),
            old(issues)@.take(base) == base_seq,
            all_hold(self@, old(issues)@, base),
        ensures
            final(interval_ids)@ == old(interval_ids)@.insert(tier.intervals@[index as int].id.0),
            final(issues)@ == old(issues)@ + interval_step(
                tier_id,
                intervals_view(tier.intervals@),
                seen_iv,
                index as int,
            ),
            final(issues)@.take(base) == base_seq,
            all_hold(self@, final(issues)@, base),
            (final(issues).len() == old(issues).len()) == ok,
            ok == (!old(interval_ids)@.contains(tier.intervals@[index as int].id.0) && interval_ok(
                intervals_view(tier.intervals@)[index as int],
            ) && (index > 0 ==> adjacent_ok(
                intervals_view(tier.intervals@)[index - 1],
                intervals_view(tier.intervals@)[index as int],
            ))),
    {
        let ghost ivs = intervals_view(tier.intervals@);
        let interval = &tier.intervals[index];
        let ghost prev = issues@;
        let ghost mut acc: Seq<IntegrityIssue> = Seq::empty();
        let fresh = interval_ids.insert(interval.id.0);
        let mut ok = fresh;
        proof {
            assert(ivs[index as int] == interval@);
            assert(self@.tiers[slot as int].tier.intervals()[index as int] == interval@);
        }
        if !fresh {
            let issue = IntegrityIssue::DuplicateIntervalId { tier: tier_id, interval: interval.id };
            proof {
                lemma_interval_seen_twice(self@, slot as int, index as int, seen_iv);
                lemma_push_holds(self@, issues@, issue, base as int, base_seq);
            }
            issues.push(issue);
        }
        proof {
            acc = acc + opt_issue(
                !fresh,
                IntegrityIssue::DuplicateIntervalId { tier: tier_id, interval: interval.id },
            );
            assert(issues@ =~= prev + acc);
        }
        if !interval.xmin.is_finite() {
            ok = false;
            let issue = IntegrityIssue::NonFiniteTime {
                value: interval.xmin,
                context: TimeRole::IntervalStart,
            };
            proof {
                assert(self@.tiers[slot as int].tier.intervals()[index as int].xmin == interval.xmin);
                lemma_push_holds(self@, issues@, issue, base as int, base_seq);
            }
            issues.push(issue);
        }
        proof {
            acc = acc + opt_issue(
                !interval.xmin.spec_is_finite(),
                IntegrityIssue::NonFiniteTime { value: interval.xmin, context: TimeRole::IntervalStart },
            );
            assert(issues@ =~= prev + acc);
        }
        if !interval.xmax.is_finite() {
            ok = false;
            let issue = IntegrityIssue::NonFiniteTime {
                value: interval.xmax,
                context: TimeRole::IntervalEnd,
            };
            proof {
                assert(self@.tiers[slot as int].tier.intervals()[index as int].xmax == interval.xmax);
                lemma_push_holds(self@, issues@, issue, base as int, base_seq);
            }
            issues.push(issue);
        }
        proof {
            acc = acc + opt_issue(
                !interval.xmax.spec_is_finite(),
                IntegrityIssue::NonFiniteTime { value: interval.xmax, context: TimeRole::IntervalEnd },
            );
            assert(issues@ =~= prev + acc);
        }
        if interval.xmax.le(interval.xmin) {
            ok = false;
            let issue = IntegrityIssue::IntervalUnsorted {
                tier: tier_id,
                previous: interval.xmin,
                next: interval.xmax,
            };
            proof {
                assert(ivs[index as int].xmin == interval.xmin);
                lemma_push_holds(self@, issues@, issue, base as int, base_seq);
            }
            issues.push(issue);
        }
        proof {
            acc = acc + opt_issue(
                interval.xmax.spec_le(interval.xmin),
                IntegrityIssue::IntervalUnsorted { tier: tier_id, previous: interval.xmin, next: interval.xmax },
            );
            assert(issues@ =~= prev + acc);
        }
        let adjacent = self.check_adjacent(
            slot,
            tier_id,
            tier,
            index,
            issues,
            Ghost(base),
            Ghost(base_seq),
        );
        ok = ok && adjacent;
        proof {
            acc = acc + adjacent_interval_issues(tier_id, ivs, index as int);
            assert(issues@ =~= prev + acc);
            assert(acc =~= interval_step(tier_id, ivs, seen_iv, index as int));
            assert(ok == (fresh && interval_ok(ivs[index as int]) && (index > 0 ==> adjacent_ok(
                ivs[index - 1],
                ivs[index as int],
            ))));
            assert((issues.len() == prev.len()) == ok);
        }
        ok
    }

    /// The checks of interval `index` against the interval before it: the
    /// issues it raises are appended, and whether there were none returned.
    #[verifier::spinoff_prover]
    #[verifier::rlimit(100)]
    fn check_adjacent(
        &self,
        slot: usize,
        tier_id: TierId,
        tier: &IntervalTier,
        index: usize,
        issues: &mut Vec<IntegrityIssue>,
        Ghost(base): Ghost<int>,
        Ghost(base_seq): Ghost<Seq<IntegrityIssue>>,
    ) -> (ok: bool)
        requires
            index < tier.intervals.len(),
            slot < self@.tiers.len(),
            interval_tier_at(self@, slot as int, tier_id, intervals_view(tier.intervals@)),
            0 <= base <= old(issues).len(),
            old(issues)@.take(base) == base_seq,
            all_hold(self@, old(issues)@, base),
        ensures
            final(issues)@ == old(issues)@ + adjacent_interval_issues(
                tier_id,
                intervals_view(tier.intervals@),
                index as int,
            ),
            final(issues)@.take(base) == base_seq,
            all_hold(self@, final(issues)@, base),
            (final(issues).len() == old(issues).len()) == ok,
            ok == (index > 0 ==> adjacent_ok(
                intervals_view(tier.intervals@)[index - 1],
                intervals_view(tier.intervals@)[index as int],
            )),
    {
        let ghost ivs = intervals_view(tier.intervals@);
        let interval = &tier.intervals[index];
        proof {
            assert(ivs[index as int] == interval@);
        }
        let mut adjacent_ok_flag = true;
        let ghost before_adjacent = issues@;
        if index > 0 {
            let previous = &tier.intervals[index - 1];
            proof {
                assert(ivs[index - 1] == previous@);
            }
            if interval.xmin.lt(previous.xmax) {
                adjacent_ok_flag = false;
                let issue = IntegrityIssue::IntervalOverlap {
                    tier: tier_id,
                    left: previous.id,
                    right: interval.id,
                    overlap_start: interval.xmin,
                    overlap_end: previous.xmax,
                };
                proof {
                    assert(ivs[index as int].id == interval.id);
                    lemma_push_holds(self@, issues@, issue, base as int, base_seq);
                }
                issues.push(issue);
            } else if previous.xmax.lt(interval.xmin) {
                adjacent_ok_flag = false;
                let issue = IntegrityIssue::IntervalGap {
                    tier: tier_id,
                    left: previous.id,
                    right: interval.id,
                    gap_start: previous.xmax,
                    gap_end: interval.xmin,
                };
                proof {
                    assert(ivs[index as int].id == interval.id);
                    lemma_push_holds(self@, issues@, issue, base as int, base_seq);
                }
                issues.push(issue);
            }
            if previous.end_boundary != interval.start_boundary {
                adjacent_ok_flag = false;
                let issue = IntegrityIssue::BoundaryContinuityMismatch {
                    tier: tier_id,
                    left: previous.id,
                    right: interval.id,
                };
                proof {
                    assert(ivs[index as int].id == interval.id);
                    lemma_push_holds(self@, issues@, issue, base as int, base_seq);
                }
                issues.push(issue);
            }
        }
        proof {
            assert(issues@ =~= before_adjacent + adjacent_interval_issues(tier_id, ivs, index as int));
        }
        adjacent_ok_flag
    }

    #[verifier::spinoff_prover]
    #[verifier::rlimit(100)]
    fn validate_interval_tier(
        &self,
        slot: usize,
        tier_id: TierId,
        tier: &IntervalTier,
        interval_ids: &mut HashSet<u64>,
        boundary_ids: &mut HashSet<u64>,
        issues: &mut Vec<IntegrityIssue>,
    )
        requires
            slot < self@.tiers.len(),
            interval_tier_at(self@, slot as int, tier_id, intervals_view(tier.intervals@)),
            old(interval_ids)@ == all_interval_ids(self@.tiers.take(slot as int)).to_set(),
            old(boundary_ids)@ == all_boundary_ids(self@.tiers.take(slot as int)).to_set(),
        ensures
            final(issues)@ == old(issues)@ + interval_tier_issues(
                self@,
                tier_id,
                intervals_view(tier.intervals@),
                old(interval_ids)@,
                old(boundary_ids)@,
            ),
            final(issues)@.take(old(issues)@.len() as int) == old(issues)@,
            all_hold(self@, final(issues)@, old(issues)@.len() as int),
            final(interval_ids)@ == old(interval_ids)@ + interval_ids_of(
                intervals_view(tier.intervals@),
            ).to_set(),
            final(boundary_ids)@ == old(boundary_ids)@ + tier_boundary_ids(
                intervals_view(tier.intervals@),
            ).to_set(),
            final(issues).len() >= old(issues).len(),
            (final(issues).len() == old(issues).len()) == (interval_tier_ok(
                self@.xmin,
                self@.xmax,
                intervals_view(tier.intervals@),
            ) && fresh_ids(old(interval_ids)@, interval_ids_of(intervals_view(tier.intervals@)))
                && fresh_ids(
                old(boundary_ids)@,
                tier_boundary_ids(intervals_view(tier.intervals@)),
            )),
    {
        let ghost ivs = intervals_view(tier.intervals@);
        let ghost base = issues.len();
        let ghost base_seq = issues@;
        proof {
            lemma_hold_none(self@, issues@);
            assert(issues@.take(base as int) =~= base_seq);
            assert(interval_tier_at(self@, slot as int, tier_id, self@.tiers[slot as int].tier.intervals()));
        }
        if tier.intervals.len() == 0 {
            let issue = IntegrityIssue::IntervalTierEmpty { tier: tier_id };
            proof {
                lemma_push_holds(self@, issues@, issue, base as int, base_seq);
            }
            issues.push(issue);
            proof {
                assert(issues@ =~= base_seq + seq![issue]);
                assert(interval_ids_of(ivs) =~= Seq::<u64>::empty());
                assert(tier_boundary_ids(ivs) =~= Seq::<u64>::empty());
                assert(old(interval_ids)@ + Seq::<u64>::empty().to_set() =~= old(interval_ids)@);
                assert(old(boundary_ids)@ + Seq::<u64>::empty().to_set() =~= old(boundary_ids)@);
            }
            return ;
        }
        let ghost seen_iv = interval_ids@;
        let ghost seen_b = boundary_ids@;
        let mut tier_boundaries: Vec<u64> = Vec::new();
        let first = &tier.intervals[0];
        let start_ok = first.xmin.same(self.xmin);
        if !start_ok {
            let issue = IntegrityIssue::DomainStartMismatch {
                tier: tier_id,
                found: first.xmin,
                expected: self.xmin,
            };
            proof {
                assert(ivs[0] == first@);
                lemma_push_holds(self@, issues@, issue, base as int, base_seq);
            }
            issues.push(issue);
        }
        let ghost start_seq = issues@;
        proof {
            assert(issues@ =~= base_seq + opt_issue(
                ivs[0].xmin != self@.xmin,
                IntegrityIssue::DomainStartMismatch { tier: tier_id, found: ivs[0].xmin, expected: self@.xmin },
            ));
            assert(issues@ =~= start_seq + interval_steps(tier_id, ivs, seen_iv, 0));
        }
        let n = tier.intervals.len();
        let mut index: usize = 0;
        while index < n
            invariant
                n == tier.intervals.len(),
                ivs == intervals_view(tier.intervals@),
                n > 0,
                index <= n,
                start_ok == (ivs[0].xmin == self@.xmin),
                interval_ids@ == seen_iv + interval_ids_of(ivs).take(index as int).to_set(),
                boundary_ids@ == seen_b,
                tier_boundaries@ == ivs.take(index as int).map_values(
                    |i: IntervalView| i.start_boundary.0,
                ),
                issues.len() >= base,
                issues@.take(base as int) == base_seq,
                all_hold(self@, issues@, base as int),
                slot < self@.tiers.len(),
                interval_tier_at(self@, slot as int, tier_id, ivs),
                seen_iv == all_interval_ids(self@.tiers.take(slot as int)).to_set(),
                issues@ == start_seq + interval_steps(tier_id, ivs, seen_iv, index as nat),
                (issues.len() == base) == (start_ok && fresh_ids(
                    seen_iv,
                    interval_ids_of(ivs).take(index as int),
                ) && (forall|k: int| 0 <= k < index ==> interval_ok(#[trigger] ivs[k])) && (
                forall|k: int| 0 < k < index ==> adjacent_ok(ivs[k - 1], #[trigger] ivs[k]))),
            decreases n - index,
        {
            let interval = &tier.intervals[index];
            let ghost ids_prev = interval_ids_of(ivs).take(index as int);
            let ghost ok_prev = issues.len() == base;
            proof {
                assert(interval_ids_of(ivs).take(index + 1) =~= ids_prev.push(interval.id.0));
                lemma_fresh_push(seen_iv, ids_prev, interval.id.0);
                lemma_to_set_push(ids_prev, interval.id.0);
                assert(ivs.take(index + 1).map_values(|i: IntervalView| i.start_boundary.0)
                    =~= ivs.take(index as int).map_values(
                    |i: IntervalView| i.start_boundary.0,
                ).push(interval.start_boundary.0));
            }
            let ok = self.check_interval(
                slot,
                tier_id,
                tier,
                index,
                interval_ids,
                issues,
                Ghost(seen_iv),
                Ghost(base as int),
                Ghost(base_seq),
            );
            tier_boundaries.push(interval.start_boundary.0);
            proof {
                assert(interval_steps(tier_id, ivs, seen_iv, (index + 1) as nat) == interval_steps(
                    tier_id,
                    ivs,
                    seen_iv,
                    index as nat,
                ) + interval_step(tier_id, ivs, seen_iv, index as int));
                assert(issues@ =~= start_seq + interval_steps(tier_id, ivs, seen_iv, (index + 1) as nat));
                let fresh = !(seen_iv + ids_prev.to_set()).contains(interval.id.0);
                assert(interval_steps(tier_id, ivs, seen_iv, (index + 1) as nat) == interval_steps(
                    tier_id,
                    ivs,
                    seen_iv,
                    index as nat,
                ) + interval_step(tier_id, ivs, seen_iv, index as int));
                assert(issues@ =~= start_seq + interval_steps(tier_id, ivs, seen_iv, (index + 1) as nat));
                assert(ok == (fresh && interval_ok(ivs[index as int]) && (index > 0 ==> adjacent_ok(
                    ivs[index - 1],
                    ivs[index as int],
                ))));
                assert((issues.len() == base) == (ok_prev && ok));
                if issues.len() == base {
                    assert forall|k: int| 0 <= k < index + 1 implies interval_ok(
                        #[trigger] ivs[k],
                    ) by {}
                    assert forall|k: int| 0 < k < index + 1 implies adjacent_ok(
                        ivs[k - 1],
                        #[trigger] ivs[k],
                    ) by {}
                }
            }
            index += 1;
        }
        let ghost steps_seq = issues@;
        let last = &tier.intervals[n - 1];
        let end_ok = last.xmax.same(self.xmax);
        if !end_ok {
            let issue = IntegrityIssue::DomainEndMismatch {
                tier: tier_id,
                found: last.xmax,
                expected: self.xmax,
            };
            proof {
                assert(ivs.last() == last@);
                lemma_push_holds(self@, issues@, issue, base as int, base_seq);
            }
            issues.push(issue);
        }
        tier_boundaries.push(last.end_boundary.0);
        let ghost mid_seq = issues@;
        proof {
            assert(ivs.last() == last@);
            assert(issues@ =~= steps_seq + opt_issue(
                ivs.last().xmax != self@.xmax,
                IntegrityIssue::DomainEndMismatch { tier: tier_id, found: ivs.last().xmax, expected: self@.xmax },
            ));
            assert(ivs.take(n as int) =~= ivs);
            assert(interval_ids_of(ivs).take(n as int) =~= interval_ids_of(ivs));
            assert(tier_boundaries@ =~= tier_boundary_ids(ivs));
        }
        let ghost ok_before_b = issues.len() == base;
        let ghost bids = tier_boundary_ids(ivs);
        let mut k: usize = 0;
        while k < tier_boundaries.len()
            invariant
                tier_boundaries@ == bids,
                k <= tier_boundaries.len(),
                boundary_ids@ == seen_b + bids.take(k as int).to_set(),
                issues.len() >= base,
                issues@.take(base as int) == base_seq,
                all_hold(self@, issues@, base as int),
                slot < self@.tiers.len(),
                interval_tier_at(self@, slot as int, tier_id, ivs),
                seen_b == all_boundary_ids(self@.tiers.take(slot as int)).to_set(),
                bids == tier_boundary_ids(ivs),
                issues@ == mid_seq + boundary_steps(tier_id, bids, seen_b, k as nat),
                (issues.len() == base) == (ok_before_b && fresh_ids(seen_b, bids.take(k as int))),
            decreases tier_boundaries.len() - k,
        {
            let b = tier_boundaries[k];
            proof {
                assert(bids.take(k + 1) =~= bids.take(k as int).push(b));
                lemma_fresh_push(seen_b, bids.take(k as int), b);
                lemma_to_set_push(bids.take(k as int), b);
            }
            let ghost prev = issues@;
            if !boundary_ids.insert(b) {
                let issue = IntegrityIssue::DuplicateBoundaryId { tier: tier_id, boundary: BoundaryId(b) };
                proof {
                    lemma_boundary_seen_twice(self@, slot as int, k as int, seen_b);
                    lemma_push_holds(self@, issues@, issue, base as int, base_seq);
                }
                issues.push(issue);
            }
            proof {
                assert(boundary_steps(tier_id, bids, seen_b, (k + 1) as nat) == boundary_steps(
                    tier_id,
                    bids,
                    seen_b,
                    k as nat,
                ) + opt_issue(
                    (seen_b + bids.take(k as int).to_set()).contains(bids[k as int]),
                    IntegrityIssue::DuplicateBoundaryId { tier: tier_id, boundary: BoundaryId(bids[k as int]) },
                ));
                assert(issues@ =~= mid_seq + boundary_steps(tier_id, bids, seen_b, (k + 1) as nat));
            }
            k += 1;
        }
        proof {
            assert(bids.take(bids.len() as int) =~= bids);
            assert(fresh_ids(seen_b, Seq::<u64>::empty()));
            assert(bids.take(0) =~= Seq::<u64>::empty());
        }
    }

    #[verifier::spinoff_prover]
    #[verifier::rlimit(40)]
    fn validate_point_tier(
        &self,
        slot: usize,
        tier_id: TierId,
        tier: &PointTier,
        point_ids: &mut HashSet<u64>,
        issues: &mut Vec<IntegrityIssue>,
    )
        requires
            slot < self@.tiers.len(),
            point_tier_at(self@, slot as int, tier_id, points_view(tier.points@)),
            old(point_ids)@ == all_point_ids(self@.tiers.take(slot as int)).to_set(),
        ensures
            final(issues)@ == old(issues)@ + point_steps(
                self@,
                tier_id,
                points_view(tier.points@),
                old(point_ids)@,
                tier.points@.len(),
            ),
            final(issues)@.take(old(issues)@.len() as int) == old(issues)@,
            all_hold(self@, final(issues)@, old(issues)@.len() as int),
            final(point_ids)@ == old(point_ids)@ + point_ids_of(points_view(tier.points@)).to_set(),
            final(issues).len() >= old(issues).len(),
            (final(issues).len() == old(issues).len()) == (point_tier_ok(
                self@.xmin,
                self@.xmax,
                points_view(tier.points@),
            ) && fresh_ids(old(point_ids)@, point_ids_of(points_view(tier.points@)))),
    {
        let ghost pts = points_view(tier.points@);
        let ghost base = issues.len();
        let ghost base_seq = issues@;
        let ghost seen = point_ids@;
        proof {
            lemma_hold_none(self@, issues@);
        }
        let n = tier.points.len();
        let mut index: usize = 0;
        proof {
            assert(point_ids_of(pts).take(0) =~= Seq::<u64>::empty());
            assert(seen + Seq::<u64>::empty().to_set() =~= seen);
            assert(issues@ =~= base_seq + point_steps(self@, tier_id, pts, seen, 0));
        }
        while index < n
            invariant
                n == tier.points.len(),
                pts == points_view(tier.points@),
                index <= n,
                point_ids@ == seen + point_ids_of(pts).take(index as int).to_set(),
                slot < self@.tiers.len(),
                point_tier_at(self@, slot as int, tier_id, pts),
                seen == all_point_ids(self@.tiers.take(slot as int)).to_set(),
                issues.len() >= base,
                issues@.take(base as int) == base_seq,
                issues@ == base_seq + point_steps(self@, tier_id, pts, seen, index as nat),
                all_hold(self@, issues@, base as int),
                (issues.len() == base) == (fresh_ids(seen, point_ids_of(pts).take(index as int)) && (
                forall|k: int| 0 <= k < index ==> point_ok(self@.xmin, self@.xmax, #[trigger] pts[k]))
                    && (forall|k: int|
                    0 < k < index ==> adjacent_points_ok(pts[k - 1], #[trigger] pts[k]))),
            decreases n - index,
        {
            let point = &tier.points[index];
            let ghost ids_prev = point_ids_of(pts).take(index as int);
            let ghost ok_prev = issues.len() == base;
            proof {
                assert(point_ids_of(pts).take(index + 1) =~= ids_prev.push(point.id.0));
                lemma_fresh_push(seen, ids_prev, point.id.0);
                lemma_to_set_push(ids_prev, point.id.0);
            }
            let ghost prev = issues@;
            let ghost mut acc: Seq<IntegrityIssue> = Seq::empty();
            let fresh = point_ids.insert(point.id.0);
            let mut ok = fresh;
            proof {
                assert(pts[index as int] == point@);
                assert(point_tier_at(self@, slot as int, tier_id, self@.tiers[slot as int].tier.points()));
            }
            if !fresh {
                let issue = IntegrityIssue::DuplicatePointId { tier: tier_id, point: point.id };
                proof {
                    lemma_point_seen_twice(self@, slot as int, index as int, seen);
                    lemma_push_holds(self@, issues@, issue, base as int, base_seq);
                }
                issues.push(issue);
            }
            proof {
                acc = acc + opt_issue(
                    !fresh,
                    IntegrityIssue::DuplicatePointId { tier: tier_id, point: point.id },
                );
                assert(issues@ =~= prev + acc);
            }
            if !point.time.is_finite() {
                ok = false;
                let issue = IntegrityIssue::NonFiniteTime { value: point.time, context: TimeRole::Point };
                proof {
                    assert(self@.tiers[slot as int].tier.points()[index as int].time == point.time);
                    lemma_push_holds(self@, issues@, issue, base as int, base_seq);
                }
                issues.push(issue);
            }
            proof {
                acc = acc + opt_issue(
                    !point.time.spec_is_finite(),
                    IntegrityIssue::NonFiniteTime { value: point.time, context: TimeRole::Point },
                );
                assert(issues@ =~= prev + acc);
            }
            if point.time.lt(self.xmin) || self.xmax.lt(point.time) {
                ok = false;
                let issue = IntegrityIssue::PointOutsideDomain {
                    tier: tier_id,
                    point: point.id,
                    time: point.time,
                };
                proof {
                    assert(pts[index as int].id == point.id);
                    lemma_push_holds(self@, issues@, issue, base as int, base_seq);
                }
                issues.push(issue);
            }
            proof {
                acc = acc + opt_issue(
                    point.time.spec_lt(self@.xmin) || self@.xmax.spec_lt(point.time),
                    IntegrityIssue::PointOutsideDomain { tier: tier_id, point: point.id, time: point.time },
                );
                assert(issues@ =~= prev + acc);
            }
            let ghost before_adjacent = issues@;
            if index > 0 {
                let previous = &tier.points[index - 1];
                proof {
                    assert(pts[index - 1] == previous@);
                }
                if point.time.lt(previous.time) {
                    ok = false;
                    let issue = IntegrityIssue::PointUnsorted {
                        tier: tier_id,
                        previous: previous.id,
                        next: point.id,
                    };
                    proof {
                        assert(pts[index as int].id == point.id);
                        lemma_push_holds(self@, issues@, issue, base as int, base_seq);
                    }
                    issues.push(issue);
                } else if previous.time.same(point.time) {
                    ok = false;
                    let issue = IntegrityIssue::DuplicatePointTime {
                        tier: tier_id,
                        previous: previous.id,
                        next: point.id,
                        time: point.time,
                    };
                    proof {
                        assert(pts[index as int].id == point.id);
                        lemma_push_holds(self@, issues@, issue, base as int, base_seq);
                    }
                    issues.push(issue);
                }
            }
            proof {
                let tail = if index > 0 {
                    let q = pts[index - 1];
                    if point.time.spec_lt(q.time) {
                        seq![IntegrityIssue::PointUnsorted { tier: tier_id, previous: q.id, next: point.id }]
                    } else if q.time == point.time {
                        seq![
                            IntegrityIssue::DuplicatePointTime {
                                tier: tier_id,
                                previous: q.id,
                                next: point.id,
                                time: point.time,
                            },
                        ]
                    } else {
                        Seq::empty()
                    }
                } else {
                    Seq::empty()
                };
                assert(issues@ =~= before_adjacent + tail);
                acc = acc + tail;
                assert(acc =~= point_step(self@, tier_id, pts, seen, index as int));
                assert(point_steps(self@, tier_id, pts, seen, (index + 1) as nat) == point_steps(
                    self@,
                    tier_id,
                    pts,
                    seen,
                    index as nat,
                ) + point_step(self@, tier_id, pts, seen, index as int));
                assert(issues@ =~= base_seq + point_steps(self@, tier_id, pts, seen, (index + 1) as nat));
                assert(ok == (fresh && point_ok(self@.xmin, self@.xmax, pts[index as int]) && (index
                    > 0 ==> adjacent_points_ok(pts[index - 1], pts[index as int]))));
                if issues.len() == base {
                    assert forall|k: int| 0 <= k < index + 1 implies point_ok(
                        self@.xmin,
                        self@.xmax,
                        #[trigger] pts[k],
                    ) by {}
                    assert forall|k: int| 0 < k < index + 1 implies adjacent_points_ok(
                        pts[k - 1],
                        #[trigger] pts[k],
                    ) by {}
                }
            }
            index += 1;
        }
        proof {
            assert(point_ids_of(pts).take(n as int) =~= point_ids_of(pts));
            assert(pts.len() == n);
        }
    }

    /// Whether some boundary time of `intervals` is bit-identical to `time`.
    fn boundary_time_present(intervals: &Vec<Interval>, time: Time) -> (r: bool)
        ensures
            r == tier_boundary_times(intervals_view(intervals@)).contains(time),
    {
        let ghost ivs = intervals_view(intervals@);
        let ghost times = tier_boundary_times(ivs);
        if intervals.len() == 0 {
            return false;
        }
        if intervals[0].xmin.same(time) {
            assert(times[0] == time);
            return true;
        }
        let mut k: usize = 0;
        while k < intervals.len()
            invariant
                k <= intervals.len(),
                ivs == intervals_view(intervals@),
                times == tier_boundary_times(ivs),
                intervals.len() > 0,
                times[0] != time,
                forall|m: int| 0 <= m < k + 1 ==> times[m] != time,
            decreases intervals.len() - k,
        {
            assert(times[k + 1] == ivs[k as int].xmax);
            if intervals[k].xmax.same(time) {
                return true;
            }
            k += 1;
        }
        proof {
            assert(times.len() == intervals.len() + 1);
        }
        false
    }

    /// The boundary at position `k` of a non-empty interval list, as validation
    /// reports it.
    fn boundary_at(intervals: &Vec<Interval>, k: usize) -> (r: (BoundaryId, Time))
        requires
            intervals.len() > 0,
            k <= intervals.len(),
        ensures
            r == tier_boundaries(intervals_view(intervals@))[k as int],
            r.1 == tier_boundary_times(intervals_view(intervals@))[k as int],
    {
        if k == 0 {
            (intervals[0].start_boundary, intervals[0].xmin)
        } else {
            (intervals[k - 1].end_boundary, intervals[k - 1].xmax)
        }
    }

    /// Reports every boundary time of `left` that `right` lacks; returns whether
    /// all were present.
    fn report_missing_boundaries(
        left: &Vec<Interval>,
        right: &Vec<Interval>,
        tier: TierId,
        target: TierId,
        issues: &mut Vec<IntegrityIssue>,
        Ghost(d): Ghost<DocView>,
    ) -> (all_present: bool)
        requires
            forall|boundary: BoundaryId, time: Time|
                tier_boundaries(intervals_view(left@)).contains((boundary, time))
                    && !tier_boundary_times(intervals_view(right@)).contains(time) ==> #[trigger] issue_holds(
                    d,
                    IntegrityIssue::AlignedBoundaryMissing { tier, target, boundary, time },
                ),
        ensures
            final(issues)@ == old(issues)@ + missing_boundaries(
                intervals_view(left@),
                intervals_view(right@),
                tier,
                target,
            ),
            final(issues)@.take(old(issues)@.len() as int) == old(issues)@,
            all_hold(d, final(issues)@, old(issues)@.len() as int),
            all_present == boundary_times_covered(
                intervals_view(left@),
                intervals_view(right@),
            ),
            all_present == (final(issues).len() == old(issues).len()),
            final(issues).len() >= old(issues).len(),
    {
        let ghost a = tier_boundary_times(intervals_view(left@));
        let ghost b = tier_boundary_times(intervals_view(right@));
        let ghost bs = tier_boundaries(intervals_view(left@));
        let ghost base = issues.len();
        let ghost base_seq = issues@;
        proof {
            lemma_hold_none(d, issues@);
            assert(issues@.take(base as int) =~= base_seq);
        }
        if left.len() == 0 {
            proof {
                assert(bs.len() == 0);
                assert(issues@ =~= base_seq + missing_boundaries(
                    intervals_view(left@),
                    intervals_view(right@),
                    tier,
                    target,
                ));
            }
            return true;
        }
        let ghost lv = intervals_view(left@);
        let ghost rv = intervals_view(right@);
        let (boundary, time) = Self::boundary_at(left, 0);
        let mut all_present = true;
        if !Self::boundary_time_present(right, time) {
            all_present = false;
            let issue = IntegrityIssue::AlignedBoundaryMissing { tier, target, boundary, time };
            proof {
                assert(bs[0] == (boundary, time));
                assert(bs.contains((boundary, time)));
                lemma_push_holds(d, issues@, issue, base as int, base_seq);
            }
            issues.push(issue);
        }
        proof {
            assert(missing_steps(lv, rv, tier, target, 1) == missing_steps(lv, rv, tier, target, 0)
                + opt_issue(
                !tier_boundary_times(rv).contains(bs[0].1),
                IntegrityIssue::AlignedBoundaryMissing { tier, target, boundary: bs[0].0, time: bs[0].1 },
            ));
            assert(issues@ =~= base_seq + missing_steps(lv, rv, tier, target, 1));
        }
        let mut k: usize = 0;
        while k < left.len()
            invariant
                left.len() > 0,
                a == tier_boundary_times(intervals_view(left@)),
                b == tier_boundary_times(intervals_view(right@)),
                a.len() == left.len() + 1,
                k <= left.len(),
                issues.len() >= old(issues).len(),
                base == old(issues).len(),
                bs == tier_boundaries(intervals_view(left@)),
                lv == intervals_view(left@),
                rv == intervals_view(right@),
                bs.len() == left.len() + 1,
                issues@ == base_seq + missing_steps(lv, rv, tier, target, (k + 1) as nat),
                issues@.take(base as int) == base_seq,
                all_hold(d, issues@, base as int),
                forall|boundary: BoundaryId, time: Time|
                    tier_boundaries(intervals_view(left@)).contains((boundary, time))
                        && !tier_boundary_times(intervals_view(right@)).contains(time) ==> #[trigger] issue_holds(
                        d,
                        IntegrityIssue::AlignedBoundaryMissing { tier, target, boundary, time },
                    ),
                all_present == (issues.len() == old(issues).len()),
                all_present == (forall|m: int| 0 <= m < k + 1 ==> b.contains(#[trigger] a[m])),
            decreases left.len() - k,
        {
            let (boundary, time) = Self::boundary_at(left, k + 1);
            let ghost prev = issues@;
            if !Self::boundary_time_present(right, time) {
                all_present = false;
                let issue = IntegrityIssue::AlignedBoundaryMissing { tier, target, boundary, time };
                proof {
                    assert(bs[k + 1] == (boundary, time));
                    assert(bs.contains((boundary, time)));
                    lemma_push_holds(d, issues@, issue, base as int, base_seq);
                }
                issues.push(issue);
            }
            proof {
                assert(missing_steps(lv, rv, tier, target, (k + 2) as nat) == missing_steps(
                    lv,
                    rv,
                    tier,
                    target,
                    (k + 1) as nat,
                ) + opt_issue(
                    !tier_boundary_times(rv).contains(bs[k + 1].1),
                    IntegrityIssue::AlignedBoundaryMissing {
                        tier,
                        target,
                        boundary: bs[k + 1].0,
                        time: bs[k + 1].1,
                    },
                ));
                assert(issues@ =~= base_seq + missing_steps(lv, rv, tier, target, (k + 2) as nat));
            }
            k += 1;
        }
        all_present
    }

    #[verifier::spinoff_prover]
    #[verifier::rlimit(40)]
    fn validate_aligned_relation(
        &self,
        index: usize,
        with: TierId,
        issues: &mut Vec<IntegrityIssue>,
    )
        requires
            index < self@.tiers.len(),
            self@.tiers[index as int].relation == (TierRelation::AlignedBoundaries { with }),
        ensures
            final(issues)@ == old(issues)@ + aligned_issues(self@, index as int, with),
            final(issues)@.take(old(issues)@.len() as int) == old(issues)@,
            all_hold(self@, final(issues)@, old(issues)@.len() as int),
            final(issues).len() >= old(issues).len(),
            tier_ids(self@.tiers).no_duplicates() ==> ((final(issues).len() == old(issues).len())
                == relation_ok(self@.tiers, self@.tiers[index as int])),
    {
        let tier = self.tiers[index].id;
        let ghost base = issues.len();
        let ghost base_seq = issues@;
        proof {
            lemma_hold_none(self@, issues@);
            assert(issues@.take(base as int) =~= base_seq);
            assert(self@.tiers[index as int].id == tier);
        }
        let Some(left_slot) = self.tier(tier) else {
            proof {
                assert(crate::model::has_tier(self@.tiers, tier));
            }
            return ;
        };
        let ghost tiers = self@.tiers;
        let ghost i0 = choose|i: int|
            0 <= i < tiers.len() && tiers[i] == left_slot@ && left_slot.id == tier && (forall|
                j: int,
            |
                0 <= j < i ==> tiers[j].id != tier);
        proof {
            crate::laws::lemma_first_tier_at(tiers, tier, i0);
            if tier_ids(tiers).no_duplicates() {
                let i = choose|i: int|
                    0 <= i < tiers.len() && tiers[i] == left_slot@ && left_slot.id == tier && (
                    forall|j: int| 0 <= j < i ==> tiers[j].id != tier);
                if i != index {
                    assert(tier_ids(tiers)[i] == tier_ids(tiers)[index as int]);
                }
                assert(left_slot@ == tiers[index as int]);
            }
        }
        let Some(right_slot) = self.tier(with) else {
            let issue = IntegrityIssue::MissingTierRelationTarget { tier, target: with };
            proof {
                lemma_push_holds(self@, issues@, issue, base as int, base_seq);
                assert(!exists|k: int| crate::edits::is_first_tier(tiers, with, k));
                assert(crate::edits::first_tier(tiers, with) is None);
            }
            issues.push(issue);
            proof {
                assert(issues@ =~= base_seq + aligned_issues(self@, index as int, with));
            }
            return ;
        };
        let ghost j0 = choose|i: int|
            0 <= i < tiers.len() && tiers[i] == right_slot@ && right_slot.id == with && (forall|
                j: int,
            |
                0 <= j < i ==> tiers[j].id != with);
        proof {
            crate::laws::lemma_first_tier_at(tiers, with, j0);
            if tier_ids(tiers).no_duplicates() {
                assert forall|j: int| 0 <= j < tiers.len() && tiers[j].id == with implies j == j0 by {
                    if j != j0 {
                        assert(tier_ids(tiers)[j] == tier_ids(tiers)[j0]);
                    }
                }
            }
        }
        match (&left_slot.tier, &right_slot.tier) {
            (Tier::Interval(left), Tier::Interval(right)) => {
                let ghost lv = intervals_view(left.intervals@);
                let ghost rv = intervals_view(right.intervals@);
                proof {
                    assert(interval_tier_at(self@, i0, tier, lv));
                    assert(interval_tier_at(self@, j0, with, rv));
                    assert forall|boundary: BoundaryId, time: Time|
                        tier_boundaries(lv).contains((boundary, time)) && !tier_boundary_times(
                            rv,
                        ).contains(time) implies #[trigger] issue_holds(
                        self@,
                        IntegrityIssue::AlignedBoundaryMissing { tier, target: with, boundary, time },
                    ) by {
                        assert(interval_tier_at(self@, i0, tier, tiers[i0].tier.intervals()));
                        assert(interval_tier_at(self@, j0, with, tiers[j0].tier.intervals()));
                    }
                    assert forall|boundary: BoundaryId, time: Time|
                        tier_boundaries(rv).contains((boundary, time)) && !tier_boundary_times(
                            lv,
                        ).contains(time) implies #[trigger] issue_holds(
                        self@,
                        IntegrityIssue::AlignedBoundaryMissing { tier: with, target: tier, boundary, time },
                    ) by {
                        assert(interval_tier_at(self@, i0, tier, tiers[i0].tier.intervals()));
                        assert(interval_tier_at(self@, j0, with, tiers[j0].tier.intervals()));
                    }
                }
                let ghost mid0 = issues@;
                let ok_left = Self::report_missing_boundaries(
                    &left.intervals,
                    &right.intervals,
                    tier,
                    with,
                    issues,
                    Ghost(self@),
                );
                let ghost mid1 = issues@;
                let ok_right = Self::report_missing_boundaries(
                    &right.intervals,
                    &left.intervals,
                    with,
                    tier,
                    issues,
                    Ghost(self@),
                );
                proof {
                    lemma_hold_extend(self@, mid1, issues@, base as int);
                    assert(issues@.take(base as int) =~= mid1.take(base as int));
                    assert(tiers[i0].tier.intervals() == lv);
                    assert(tiers[j0].tier.intervals() == rv);
                    assert(issues@ =~= base_seq + aligned_issues(self@, index as int, with));
                }
            },
            _ => {
                let issue = IntegrityIssue::RelationTierKindMismatch {
                    tier,
                    target: with,
                    relation: RelationKind::AlignedBoundaries,
                };
                proof {
                    assert(tiers[i0].id == tier && tiers[j0].id == with);
                    lemma_push_holds(self@, issues@, issue, base as int, base_seq);
                }
                issues.push(issue);
                proof {
                    assert(!(tiers[i0].tier is Interval && tiers[j0].tier is Interval));
                    assert(issues@ =~= base_seq + aligned_issues(self@, index as int, with));
                }
            },
        }
    }

    #[verifier::spinoff_prover]
    #[verifier::rlimit(40)]
    fn validate_child_relation(
        &self,
        index: usize,
        parent: TierId,
        issues: &mut Vec<IntegrityIssue>,
    )
        requires
            index < self@.tiers.len(),
            self@.tiers[index as int].relation == (TierRelation::ChildOf { parent }),
        ensures
            final(issues)@ == old(issues)@ + child_issues(self@, index as int, parent),
            final(issues)@.take(old(issues)@.len() as int) == old(issues)@,
            all_hold(self@, final(issues)@, old(issues)@.len() as int),
            final(issues).len() >= old(issues).len(),
            tier_ids(self@.tiers).no_duplicates() ==> ((final(issues).len() == old(issues).len())
                == relation_ok(self@.tiers, self@.tiers[index as int])),
    {
        let tier = self.tiers[index].id;
        let ghost start = issues.len();
        let ghost start_seq = issues@;
        proof {
            lemma_hold_none(self@, issues@);
            assert(issues@.take(start as int) =~= start_seq);
            assert(self@.tiers[index as int].id == tier);
        }
        let Some(child_slot) = self.tier(tier) else {
            proof {
                assert(has_tier(self@.tiers, tier));
            }
            return ;
        };
        let ghost tiers = self@.tiers;
        let ghost i0 = choose|i: int|
            0 <= i < tiers.len() && tiers[i] == child_slot@ && child_slot.id == tier && (forall|
                j: int,
            |
                0 <= j < i ==> tiers[j].id != tier);
        proof {
            crate::laws::lemma_first_tier_at(tiers, tier, i0);
            if tier_ids(tiers).no_duplicates() {
                let i = choose|i: int|
                    0 <= i < tiers.len() && tiers[i] == child_slot@ && child_slot.id == tier && (
                    forall|j: int| 0 <= j < i ==> tiers[j].id != tier);
                if i != index {
                    assert(tier_ids(tiers)[i] == tier_ids(tiers)[index as int]);
                }
                assert(child_slot@ == tiers[index as int]);
            }
        }
        let Some(parent_slot) = self.tier(parent) else {
            let issue = IntegrityIssue::MissingTierRelationTarget { tier, target: parent };
            proof {
                lemma_push_holds(self@, issues@, issue, start as int, start_seq);
                assert(!exists|k: int| crate::edits::is_first_tier(tiers, parent, k));
                assert(crate::edits::first_tier(tiers, parent) is None);
            }
            issues.push(issue);
            proof {
                assert(issues@ =~= start_seq + child_issues(self@, index as int, parent));
            }
            return ;
        };
        let ghost j0 = choose|i: int|
            0 <= i < tiers.len() && tiers[i] == parent_slot@ && parent_slot.id == parent && (
            forall|j: int| 0 <= j < i ==> tiers[j].id != parent);
        proof {
            crate::laws::lemma_first_tier_at(tiers, parent, j0);
            if tier_ids(tiers).no_duplicates() {
                assert forall|j: int| 0 <= j < tiers.len() && tiers[j].id == parent implies j
                    == j0 by {
                    if j != j0 {
                        assert(tier_ids(tiers)[j] == tier_ids(tiers)[j0]);
                    }
                }
            }
        }
        let Tier::Interval(parent_tier) = &parent_slot.tier else {
            let issue = IntegrityIssue::RelationTierKindMismatch {
                tier,
                target: parent,
                relation: RelationKind::ChildOf,
            };
            proof {
                assert(tiers[i0].id == tier && tiers[j0].id == parent);
                lemma_push_holds(self@, issues@, issue, start as int, start_seq);
            }
            issues.push(issue);
            proof {
                assert(!(tiers[j0].tier is Interval));
                assert(issues@ =~= start_seq + child_issues(self@, index as int, parent));
            }
            return ;
        };
        match &child_slot.tier {
            Tier::Interval(child_tier) => {
                let ghost pv = intervals_view(parent_tier.intervals@);
                let ghost cv = intervals_view(child_tier.intervals@);
                let base = issues.len();
                proof {
                    assert(interval_tier_at(self@, i0, tier, cv));
                    assert(interval_tier_at(self@, j0, parent, pv));
                }
                let mut k: usize = 0;
                while k < child_tier.intervals.len()
                    invariant
                        k <= child_tier.intervals.len(),
                        pv == intervals_view(parent_tier.intervals@),
                        cv == intervals_view(child_tier.intervals@),
                        issues.len() >= base,
                        base == start,
                        issues@.take(start as int) == start_seq,
                        all_hold(self@, issues@, start as int),
                        interval_tier_at(self@, i0, tier, cv),
                        interval_tier_at(self@, j0, parent, pv),
                        tiers == self@.tiers,
                        index < tiers.len(),
                        tiers[index as int].id == tier,
                        tiers[index as int].relation == (TierRelation::ChildOf { parent }),
                        issues@ == start_seq + orphan_steps(cv, pv, tier, parent, k as nat),
                        (issues.len() == base) == (forall|m: int|
                            0 <= m < k ==> nested_in(#[trigger] cv[m], pv)),
                    decreases child_tier.intervals.len() - k,
                {
                    let child = &child_tier.intervals[k];
                    let ghost prev = issues@;
                    let mut found = false;
                    let mut m: usize = 0;
                    while m < parent_tier.intervals.len()
                        invariant
                            m <= parent_tier.intervals.len(),
                            pv == intervals_view(parent_tier.intervals@),
                            cv == intervals_view(child_tier.intervals@),
                            k < cv.len(),
                            child@ == cv[k as int],
                            found == (exists|q: int|
                                0 <= q < m && #[trigger] pv[q].xmin.spec_le(child.xmin)
                                    && child.xmax.spec_le(pv[q].xmax)),
                        decreases parent_tier.intervals.len() - m,
                    {
                        let p = &parent_tier.intervals[m];
                        if p.xmin.le(child.xmin) && child.xmax.le(p.xmax) {
                            found = true;
                            assert(pv[m as int].xmin.spec_le(child.xmin) && child.xmax.spec_le(
                                pv[m as int].xmax,
                            ));
                        }
                        m += 1;
                    }
                    if !found {
                        let issue = IntegrityIssue::OrphanChildInterval {
                            tier,
                            parent,
                            interval: child.id,
                            xmin: child.xmin,
                            xmax: child.xmax,
                        };
                        proof {
                            let c = IntervalView {
                                id: child.id,
                                start_boundary: BoundaryId(0),
                                end_boundary: BoundaryId(0),
                                xmin: child.xmin,
                                xmax: child.xmax,
                                label: Seq::empty(),
                            };
                            if nested_in(c, pv) {
                                let q = choose|q: int|
                                    0 <= q < pv.len() && #[trigger] pv[q].xmin.spec_le(c.xmin)
                                        && c.xmax.spec_le(pv[q].xmax);
                                assert(pv[q].xmin.spec_le(child.xmin));
                            }
                            assert(interval_tier_at(self@, i0, tier, tiers[i0].tier.intervals()));
                            assert(interval_tier_at(self@, j0, parent, tiers[j0].tier.intervals()));
                            assert(cv[k as int].id == child.id);
                            lemma_push_holds(self@, issues@, issue, start as int, start_seq);
                        }
                        issues.push(issue);
                    }
                    proof {
                        if found {
                            let q = choose|q: int|
                                0 <= q < parent_tier.intervals.len() && #[trigger] pv[q].xmin.spec_le(
                                    child.xmin,
                                ) && child.xmax.spec_le(pv[q].xmax);
                            assert(pv[q].xmin.spec_le(cv[k as int].xmin));
                        } else {
                            if nested_in(cv[k as int], pv) {
                                let q = choose|q: int|
                                    0 <= q < pv.len() && #[trigger] pv[q].xmin.spec_le(
                                        cv[k as int].xmin,
                                    ) && cv[k as int].xmax.spec_le(pv[q].xmax);
                                assert(pv[q].xmin.spec_le(child.xmin));
                            }
                        }
                        assert(found == nested_in(cv[k as int], pv));
                        assert(cv[k as int] == child@);
                        assert(orphan_steps(cv, pv, tier, parent, (k + 1) as nat) == orphan_steps(
                            cv,
                            pv,
                            tier,
                            parent,
                            k as nat,
                        ) + opt_issue(
                            !nested_in(cv[k as int], pv),
                            IntegrityIssue::OrphanChildInterval {
                                tier,
                                parent,
                                interval: cv[k as int].id,
                                xmin: cv[k as int].xmin,
                                xmax: cv[k as int].xmax,
                            },
                        ));
                        assert(issues@ =~= start_seq + orphan_steps(cv, pv, tier, parent, (k + 1) as nat));
                    }
                    k += 1;
                }
                proof {
                    assert(tiers[i0].tier.intervals() == cv);
                    assert(tiers[j0].tier.intervals() == pv);
                    assert(issues@ =~= start_seq + child_issues(self@, index as int, parent));
                    if tier_ids(tiers).no_duplicates() {
                        assert(tiers[j0].tier.intervals() == pv);
                        assert(tiers[index as int].tier.intervals() == cv);
                        if issues.len() == base {
                            assert forall|j: int|
                                0 <= j < tiers.len() && #[trigger] tiers[j].id == parent implies {
                                &&& tiers[j].tier.is_interval()
                                &&& tiers[index as int].tier.is_interval()
                                &&& forall|k: int|
                                    0 <= k < tiers[index as int].tier.intervals().len() ==> nested_in(
                                        #[trigger] tiers[index as int].tier.intervals()[k],
                                        tiers[j].tier.intervals(),
                                    )
                            } by {
                                assert(j == j0);
                                assert forall|k: int|
                                    0 <= k < tiers[index as int].tier.intervals().len() implies nested_in(
                                        #[trigger] tiers[index as int].tier.intervals()[k],
                                        tiers[j].tier.intervals(),
                                    ) by {
                                    assert(cv[k] == tiers[index as int].tier.intervals()[k]);
                                }
                            }
                            assert(has_tier(tiers, parent));
                        } else {
                            let m = choose|m: int| 0 <= m < cv.len() && !nested_in(#[trigger] cv[m], pv);
                            assert(cv[m] == tiers[index as int].tier.intervals()[m]);
                        }
                    }
                }
            },
            Tier::Point(_) => {
                let issue = IntegrityIssue::RelationTierKindMismatch {
                    tier,
                    target: parent,
                    relation: RelationKind::ChildOf,
                };
                proof {
                    assert(tiers[i0].id == tier && tiers[j0].id == parent);
                    lemma_push_holds(self@, issues@, issue, start as int, start_seq);
                }
                issues.push(issue);
                proof {
                    assert(!(tiers[i0].tier is Interval));
                    assert(issues@ =~= start_seq + child_issues(self@, index as int, parent));
                }
            },
        }
    }

    /// Fails with the first integrity issue when the document is invalid.
    fn commit_if_valid(&self) -> (r: Result<(), AnnotationError>)
        ensures
            r is Ok <==> self@.valid(),
            r matches Err(e) ==> violation_of(self@, e),
    {
        let issues = self.validate();
        if issues.len() == 0 {
            Ok(())
        } else {
            proof {
                reveal(all_hold);
                assert(issue_holds(self@, issues@[0]));
            }
            Err(AnnotationError::IntegrityViolation(issues[0]))
        }
    }

    /// A copy carrying the same value and identifier generators.
    pub fn duplicate(&self) -> (r: Annotation)
        ensures
            r@ == self@,
            r.next_ids() == self.next_ids(),
    {
        Annotation {
            xmin: self.xmin,
            xmax: self.xmax,
            tiers: duplicate_slots(&self.tiers),
            next_tier_id: self.next_tier_id,
            next_boundary_id: self.next_boundary_id,
            next_interval_id: self.next_interval_id,
            next_point_id: self.next_point_id,
        }
    }

    /// Whether two documents hold the same domain and tiers, regardless of
    /// their identifier generators.
    pub fn same_content(&self, other: &Annotation) -> (r: bool)
        ensures
            r == (self@ == other@),
    {
        if !self.xmin.same(other.xmin) || !self.xmax.same(other.xmax) {
            assert(self@.xmin != other@.xmin || self@.xmax != other@.xmax);
            return false;
        }
        if self.tiers.len() != other.tiers.len() {
            assert(self@.tiers.len() != other@.tiers.len());
            return false;
        }
        let mut i: usize = 0;
        while i < self.tiers.len()
            invariant
                i <= self.tiers.len(),
                self.tiers.len() == other.tiers.len(),
                self.xmin == other.xmin,
                self.xmax == other.xmax,
                forall|j: int| 0 <= j < i ==> self@.tiers[j] == other@.tiers[j],
            decreases self.tiers.len() - i,
        {
            if !same_slot(&self.tiers[i], &other.tiers[i]) {
                assert(self@.tiers[i as int] != other@.tiers[i as int]);
                return false;
            }
            i += 1;
        }
        assert(self@.tiers =~= other@.tiers);
        true
    }

    /// Replaces a label after rejecting C0 control characters and `DEL`.
    pub fn set_label(&mut self, target: LabelTarget, text: &str) -> (r: Result<
        LabelChange,
        AnnotationError,
    >)
        ensures
            final(self).next_ids() == old(self).next_ids(),
            match first_control(text.spec_bytes()) {
                Some(k) => {
                    &&& r matches Err(AnnotationError::InvalidLabelControl { codepoint, index })
                        && index as int == k && codepoint == text.spec_bytes()[k] as u32
                    &&& final(self)@ == old(self)@
                },
                None => match spec_replace_label(old(self)@, target, text@) {
                    Err(e) => r matches Err(x) && x == e && final(self)@ == old(self)@,
                    Ok((d, old_label)) => if d.valid() {
                        &&& r matches Ok(c) && c.target == target && c.old_text@ == old_label
                            && c.new_text@ == text@
                        &&& final(self)@ == d
                    } else {
                        &&& r matches Err(e) && violation_of(d, e)
                        &&& final(self)@ == old(self)@
                    },
                },
            },
            old(self).ids_fresh() ==> final(self).ids_fresh(),
    {
        match reject_control_label(text) {
            Ok(()) => {},
            Err(e) => return Err(e),
        }
        let mut candidate = self.duplicate();
        let old_text = match candidate.replace_label(target, text) {
            Ok(t) => t,
            Err(e) => return Err(e),
        };
        match candidate.commit_if_valid() {
            Ok(()) => {},
            Err(e) => return Err(e),
        }
        proof {
            if self.ids_fresh() {
                lemma_replace_label_below(self@, self.next_ids(), target, text@);
            }
        }
        *self = candidate;
        Ok(LabelChange { target, old_text, new_text: text.to_owned() })
    }

    /// Replaces the label at `target`, returning the previous label.
    fn replace_label(&mut self, target: LabelTarget, text: &str) -> (r: Result<
        String,
        AnnotationError,
    >)
        ensures
            final(self).next_ids() == old(self).next_ids(),
            match spec_replace_label(old(self)@, target, text@) {
                Err(e) => r matches Err(x) && x == e && final(self)@ == old(self)@,
                Ok((d, old_label)) => r matches Ok(t) && t@ == old_label && final(self)@ == d,
            },
    {
        let ghost d0 = self@;
        match target {
            LabelTarget::Interval { tier, interval } => {
                let i = match self.tier_position(tier) {
                    Some(i) => i,
                    None => return Err(AnnotationError::UnknownTier { tier }),
                };
                let k = match &self.tiers[i].tier {
                    Tier::Interval(t) => match interval_position(&t.intervals, interval) {
                        Some(k) => k,
                        None => return Err(AnnotationError::UnknownInterval { interval }),
                    },
                    Tier::Point(_) => return Err(
                        AnnotationError::InvalidTierKind { tier, expected: TierKind::Interval },
                    ),
                };
                let slot = self.tiers.remove(i);
                let TierSlot { id, relation, tier: payload } = slot;
                let (name, mut intervals) = match payload {
                    Tier::Interval(t) => (t.name, t.intervals),
                    Tier::Point(_) => {
                        proof {
                            assert(false);
                        }
                        return Err(AnnotationError::UnknownTier { tier });
                    },
                };
                let old_iv = intervals.remove(k);
                let Interval { id: iid, start_boundary, end_boundary, xmin, xmax, label } = old_iv;
                intervals.insert(
                    k,
                    Interval {
                        id: iid,
                        start_boundary,
                        end_boundary,
                        xmin,
                        xmax,
                        label: text.to_owned(),
                    },
                );
                self.tiers.insert(
                    i,
                    TierSlot { id, relation, tier: Tier::Interval(IntervalTier { name, intervals }) },
                );
                proof {
                    assert(intervals_view(intervals@) =~= d0.tiers[i as int].tier.intervals().update(
                        k as int,
                        IntervalView { label: text@, ..d0.tiers[i as int].tier.intervals()[k as int] },
                    ));
                    assert(self@.tiers =~= d0.tiers.update(
                        i as int,
                        SlotView { tier: crate::edits::relabel_interval(d0.tiers[i as int].tier, k as int, text@), ..d0.tiers[i as int] },
                    ));
                }
                Ok(label)
            },
            LabelTarget::Point { tier, point } => {
                let i = match self.tier_position(tier) {
                    Some(i) => i,
                    None => return Err(AnnotationError::UnknownTier { tier }),
                };
                let k = match &self.tiers[i].tier {
                    Tier::Point(t) => match point_position(&t.points, point) {
                        Some(k) => k,
                        None => return Err(AnnotationError::UnknownPoint { point }),
                    },
                    Tier::Interval(_) => return Err(
                        AnnotationError::InvalidTierKind { tier, expected: TierKind::Point },
                    ),
                };
                let slot = self.tiers.remove(i);
                let TierSlot { id, relation, tier: payload } = slot;
                let (name, mut points) = match payload {
                    Tier::Point(t) => (t.name, t.points),
                    Tier::Interval(_) => {
                        proof {
                            assert(false);
                        }
                        return Err(AnnotationError::UnknownTier { tier });
                    },
                };
                let old_p = points.remove(k);
                let Point { id: pid, time, label } = old_p;
                points.insert(k, Point { id: pid, time, label: text.to_owned() });
                self.tiers.insert(
                    i,
                    TierSlot { id, relation, tier: Tier::Point(PointTier { name, points }) },
                );
                proof {
                    assert(points_view(points@) =~= d0.tiers[i as int].tier.points().update(
                        k as int,
                        PointView { label: text@, ..d0.tiers[i as int].tier.points()[k as int] },
                    ));
                    assert(self@.tiers =~= d0.tiers.update(
                        i as int,
                        SlotView { tier: crate::edits::relabel_point(d0.tiers[i as int].tier, k as int, text@), ..d0.tiers[i as int] },
                    ));
                }
                Ok(label)
            },
        }
    }
}


impl Annotation {
    /// Inserts a point into a point tier at its time-sorted position.
    pub fn insert_point(&mut self, tier: TierId, time: Time, label: &str) -> (r: Result<
        PointInsertion,
        AnnotationError,
    >)
        requires
            old(self).next_ids().3 < u64::MAX,
        ensures
            !time.spec_is_finite() ==> (r matches Err(e) && e == (AnnotationError::NonFiniteTime {
                value: time,
                context: TimeRole::Point,
            })),
            time.spec_is_finite() ==> (match first_control(label.spec_bytes()) {
                Some(k) => r matches Err(AnnotationError::InvalidLabelControl { codepoint, index })
                    && index as int == k && codepoint == label.spec_bytes()[k] as u32,
                None => {
                    let p = PointView { id: PointId(old(self).next_ids().3), time, label: label@ };
                    match spec_insert_point(old(self)@, tier, p) {
                        Err(e) => r matches Err(x) && x == e,
                        Ok(d) => if d.valid() {
                            &&& r matches Ok(ins) && ins.tier == tier && ins.point@ == p
                            &&& final(self)@ == d
                            &&& final(self).next_ids() == (
                                old(self).next_ids().0,
                                old(self).next_ids().1,
                                old(self).next_ids().2,
                                (old(self).next_ids().3 + 1) as u64,
                            )
                        } else {
                            r matches Err(e) && violation_of(d, e)
                        },
                    }
                },
            }),
            r is Err ==> final(self)@ == old(self)@ && final(self).next_ids() == old(
                self,
            ).next_ids(),
            old(self).ids_fresh() ==> final(self).ids_fresh(),
            ({
                let d = old(self)@;
                let p = PointView { id: PointId(old(self).next_ids().3), time, label: label@ };
                let i = first_tier(d.tiers, tier)->Some_0;
                old(self).ids_fresh() && d.valid() && first_control(label.spec_bytes()) is None
                    && first_tier(d.tiers, tier) is Some && d.tiers[i].tier is Point && point_ok(
                    d.xmin,
                    d.xmax,
                    p,
                ) && (forall|k: int|
                    0 <= k < d.tiers[i].tier.points().len() ==> (
                    #[trigger] d.tiers[i].tier.points()[k]).time != time) ==> r is Ok
            }),
    {
        proof {
            let p = PointView { id: PointId(self.next_ids().3), time, label: label@ };
            if self.ids_fresh() && self@.valid() && first_tier(self@.tiers, tier) is Some
                && self@.tiers[first_tier(self@.tiers, tier)->Some_0].tier is Point && point_ok(
                self@.xmin,
                self@.xmax,
                p,
            ) && (forall|k: int|
                0 <= k < self@.tiers[first_tier(self@.tiers, tier)->Some_0].tier.points().len() ==> (
                #[trigger] self@.tiers[first_tier(self@.tiers, tier)->Some_0].tier.points()[k]).time
                    != time) {
                lemma_listed_below(self@.tiers, self.next_ids());
                law_insert_point_valid(self@, tier, p);
            }
        }
        if !time.is_finite() {
            return Err(AnnotationError::NonFiniteTime { value: time, context: TimeRole::Point });
        }
        match reject_control_label(label) {
            Ok(()) => {},
            Err(e) => return Err(e),
        }
        let mut candidate = self.duplicate();
        let id = PointId(candidate.next_point_id);
        candidate.next_point_id = candidate.next_point_id + 1;
        let point = match candidate.insert_point_into_tier(
            tier,
            Point { id, time, label: label.to_owned() },
        ) {
            Ok(p) => p,
            Err(e) => return Err(e),
        };
        match candidate.commit_if_valid() {
            Ok(()) => {},
            Err(e) => return Err(e),
        }
        proof {
            if self.ids_fresh() {
                lemma_gens_grow(self@.tiers, self.next_ids(), candidate.next_ids());
                lemma_insert_point_below(self@, candidate.next_ids(), tier, PointView { id: PointId(self.next_ids().3), time, label: label@ });
            }
        }
        *self = candidate;
        Ok(PointInsertion { tier, point })
    }

    /// Puts `point` into the point tier `tier` at its time-sorted position and
    /// returns a copy of it.
    fn insert_point_into_tier(&mut self, tier: TierId, point: Point) -> (r: Result<
        Point,
        AnnotationError,
    >)
        ensures
            final(self).next_ids() == old(self).next_ids(),
            match spec_insert_point(old(self)@, tier, point@) {
                Err(e) => r matches Err(x) && x == e && final(self)@ == old(self)@,
                Ok(d) => r matches Ok(p) && p@ == point@ && final(self)@ == d,
            },
    {
        let ghost d0 = self@;
        let i = match self.tier_position(tier) {
            Some(i) => i,
            None => return Err(AnnotationError::UnknownTier { tier }),
        };
        let k = match &self.tiers[i].tier {
            Tier::Point(t) => insert_index(&t.points, point.time),
            Tier::Interval(_) => {
                return Err(AnnotationError::InvalidTierKind { tier, expected: TierKind::Point })
            },
        };
        let copy = point.duplicate();
        let slot = self.tiers.remove(i);
        let TierSlot { id, relation, tier: payload } = slot;
        let (name, mut points) = match payload {
            Tier::Point(t) => (t.name, t.points),
            Tier::Interval(_) => {
                proof {
                    assert(false);
                }
                return Err(AnnotationError::UnknownTier { tier });
            },
        };
        let ghost pv = point@;
        points.insert(k, point);
        self.tiers.insert(i, TierSlot { id, relation, tier: Tier::Point(PointTier { name, points }) });
        proof {
            assert(points_view(points@) =~= d0.tiers[i as int].tier.points().insert(k as int, pv));
            assert(self@.tiers =~= d0.tiers.update(
                i as int,
                SlotView {
                    tier: crate::edits::tier_with_point(d0.tiers[i as int].tier, pv),
                    ..d0.tiers[i as int]
                },
            ));
        }
        Ok(copy)
    }

    /// Moves a point to `to` seconds, keeping its stable identifier.
    pub fn move_point(&mut self, id: PointId, to: Time) -> (r: Result<PointMoved, AnnotationError>)
        ensures
            final(self).next_ids() == old(self).next_ids(),
            !to.spec_is_finite() ==> (r matches Err(e) && e == (AnnotationError::NonFiniteTime {
                value: to,
                context: TimeRole::Point,
            })),
            to.spec_is_finite() ==> (match spec_move_point(old(self)@, id, to) {
                Err(e) => r matches Err(x) && x == e,
                Ok((d, tier, from)) => if d.valid() {
                    &&& r == Ok::<PointMoved, AnnotationError>(
                        PointMoved { tier, point: id, from, to },
                    )
                    &&& final(self)@ == d
                } else {
                    r matches Err(e) && violation_of(d, e)
                },
            }),
            r is Err ==> final(self)@ == old(self)@,
            old(self).ids_fresh() ==> final(self).ids_fresh(),
    {
        if !to.is_finite() {
            return Err(AnnotationError::NonFiniteTime { value: to, context: TimeRole::Point });
        }
        let mut candidate = self.duplicate();
        let (tier, from) = match candidate.move_point_time(id, to) {
            Ok(x) => x,
            Err(e) => return Err(e),
        };
        match candidate.commit_if_valid() {
            Ok(()) => {},
            Err(e) => return Err(e),
        }
        proof {
            if self.ids_fresh() {
                lemma_move_point_below(self@, self.next_ids(), id, to);
            }
        }
        *self = candidate;
        Ok(PointMoved { tier, point: id, from, to })
    }

    /// Position of the first point tier holding the point `id`, and the
    /// point's position in it.
    fn find_point(&self, id: PointId) -> (r: Option<(usize, usize)>)
        ensures
            match r {
                Some((i, k)) => {
                    &&& first_point_tier(self@.tiers, id) == Some(i as int)
                    &&& i < self@.tiers.len()
                    &&& self@.tiers[i as int].tier is Point
                    &&& first_point(self@.tiers[i as int].tier.points(), id) == Some(k as int)
                    &&& k < self@.tiers[i as int].tier.points().len()
                },
                None => first_point_tier(self@.tiers, id) is None,
            },
    {
        let ghost tiers = self@.tiers;
        let mut i: usize = 0;
        while i < self.tiers.len()
            invariant
                i <= self.tiers.len(),
                tiers == self@.tiers,
                forall|j: int| 0 <= j < i ==> !holds_point(#[trigger] tiers[j].tier, id),
            decreases self.tiers.len() - i,
        {
            match &self.tiers[i].tier {
                Tier::Point(t) => {
                    match point_position(&t.points, id) {
                        Some(k) => {
                            assert(tiers[i as int].tier.points()[k as int].id == id);
                            assert(is_first_point_tier(tiers, id, i as int));
                            let ghost c = choose|c: int| is_first_point_tier(tiers, id, c);
                            assert(c == i);
                            return Some((i, k));
                        },
                        None => {
                            assert(!holds_point(tiers[i as int].tier, id));
                        },
                    }
                },
                Tier::Interval(_) => {},
            }
            i += 1;
        }
        assert(!exists|c: int| is_first_point_tier(tiers, id, c));
        None
    }

    /// Sets the time of the point `id`, returning its tier and previous time.
    fn move_point_time(&mut self, id: PointId, to: Time) -> (r: Result<
        (TierId, Time),
        AnnotationError,
    >)
        ensures
            final(self).next_ids() == old(self).next_ids(),
            match spec_move_point(old(self)@, id, to) {
                Err(e) => r matches Err(x) && x == e && final(self)@ == old(self)@,
                Ok((d, tier, from)) => r == Ok::<(TierId, Time), AnnotationError>((tier, from))
                    && final(self)@ == d,
            },
    {
        let ghost d0 = self@;
        let (i, k) = match self.find_point(id) {
            Some(x) => x,
            None => return Err(AnnotationError::UnknownPoint { point: id }),
        };
        let slot = self.tiers.remove(i);
        let TierSlot { id: tier_id, relation, tier: payload } = slot;
        let (name, mut points) = match payload {
            Tier::Point(t) => (t.name, t.points),
            Tier::Interval(_) => {
                proof {
                    assert(false);
                }
                return Err(AnnotationError::UnknownPoint { point: id });
            },
        };
        let old_p = points.remove(k);
        let Point { id: pid, time: from, label } = old_p;
        points.insert(k, Point { id: pid, time: to, label });
        self.tiers.insert(
            i,
            TierSlot { id: tier_id, relation, tier: Tier::Point(PointTier { name, points }) },
        );
        proof {
            assert(points_view(points@) =~= d0.tiers[i as int].tier.points().update(
                k as int,
                PointView { time: to, ..d0.tiers[i as int].tier.points()[k as int] },
            ));
            assert(self@.tiers =~= d0.tiers.update(
                i as int,
                SlotView {
                    tier: crate::edits::retime_point(d0.tiers[i as int].tier, k as int, to),
                    ..d0.tiers[i as int]
                },
            ));
        }
        Ok((tier_id, from))
    }

    /// Removes a point by stable identifier.
    pub fn remove_point(&mut self, id: PointId) -> (r: Result<PointRemoval, AnnotationError>)
        ensures
            final(self).next_ids() == old(self).next_ids(),
            match spec_remove_point(old(self)@, id) {
                Err(e) => r matches Err(x) && x == e,
                Ok((d, tier, point)) => if d.valid() {
                    &&& r matches Ok(rem) && rem.tier == tier && rem.point@ == point
                    &&& final(self)@ == d
                } else {
                    r matches Err(e) && violation_of(d, e)
                },
            },
            r is Err ==> final(self)@ == old(self)@,
            old(self).ids_fresh() ==> final(self).ids_fresh(),
    {
        let mut candidate = self.duplicate();
        let (tier, point) = match candidate.remove_point_by_id(id) {
            Ok(x) => x,
            Err(e) => return Err(e),
        };
        match candidate.commit_if_valid() {
            Ok(()) => {},
            Err(e) => return Err(e),
        }
        proof {
            if self.ids_fresh() {
                lemma_remove_point_below(self@, self.next_ids(), id);
            }
        }
        *self = candidate;
        Ok(PointRemoval { tier, point })
    }

    /// Takes the point `id` out of its tier.
    fn remove_point_by_id(&mut self, id: PointId) -> (r: Result<(TierId, Point), AnnotationError>)
        ensures
            final(self).next_ids() == old(self).next_ids(),
            match spec_remove_point(old(self)@, id) {
                Err(e) => r matches Err(x) && x == e && final(self)@ == old(self)@,
                Ok((d, tier, point)) => r matches Ok((t, p)) && t == tier && p@ == point
                    && final(self)@ == d,
            },
    {
        let ghost d0 = self@;
        let (i, k) = match self.find_point(id) {
            Some(x) => x,
            None => return Err(AnnotationError::UnknownPoint { point: id }),
        };
        let slot = self.tiers.remove(i);
        let TierSlot { id: tier_id, relation, tier: payload } = slot;
        let (name, mut points) = match payload {
            Tier::Point(t) => (t.name, t.points),
            Tier::Interval(_) => {
                proof {
                    assert(false);
                }
                return Err(AnnotationError::UnknownPoint { point: id });
            },
        };
        let removed = points.remove(k);
        self.tiers.insert(
            i,
            TierSlot { id: tier_id, relation, tier: Tier::Point(PointTier { name, points }) },
        );
        proof {
            assert(points_view(points@) =~= d0.tiers[i as int].tier.points().remove(k as int));
            assert(self@.tiers =~= d0.tiers.update(
                i as int,
                SlotView {
                    tier: crate::edits::without_point(d0.tiers[i as int].tier, k as int),
                    ..d0.tiers[i as int]
                },
            ));
        }
        Ok((tier_id, removed))
    }

    /// Moves a tier to `to_index` in document order, keeping every stable id.
    ///
    /// `to_index` is clamped to the last position.
    pub fn reorder_tier(&mut self, tier: TierId, to_index: usize) -> (r: Result<
        TierReorder,
        AnnotationError,
    >)
        ensures
            final(self).next_ids() == old(self).next_ids(),
            match spec_reorder_tier(old(self)@, tier, to_index as int) {
                Err(e) => r matches Err(x) && x == e,
                Ok((d, from, to)) => if d.valid() {
                    &&& r matches Ok(x) && x.tier == tier && x.from_index as int == from
                        && x.to_index as int == to
                    &&& final(self)@ == d
                } else {
                    r matches Err(e) && violation_of(d, e)
                },
            },
            r is Err ==> final(self)@ == old(self)@,
            old(self).ids_fresh() ==> final(self).ids_fresh(),
    {
        let from_index = match self.tier_position(tier) {
            Some(i) => i,
            None => return Err(AnnotationError::UnknownTier { tier }),
        };
        let last = self.tiers.len() - 1;
        let to = if to_index < last {
            to_index
        } else {
            last
        };
        let mut candidate = self.duplicate();
        let ghost d0 = candidate@;
        let slot = candidate.tiers.remove(from_index);
        let ghost sv = slot@;
        candidate.tiers.insert(to, slot);
        proof {
            assert(candidate@.tiers =~= d0.tiers.remove(from_index as int).insert(to as int, sv));
        }
        match candidate.commit_if_valid() {
            Ok(()) => {},
            Err(e) => return Err(e),
        }
        proof {
            if self.ids_fresh() {
                lemma_reorder_tier_below(self@, self.next_ids(), tier, to_index as int);
            }
        }
        *self = candidate;
        Ok(TierReorder { tier, from_index, to_index: to })
    }
}

/// Position a point at `time` takes: the first point not earlier than `time`.
fn insert_index(points: &Vec<Point>, time: Time) -> (k: usize)
    ensures
        k as int == insert_position(points_view(points@), time),
        k <= points.len(),
{
    let ghost s = points_view(points@);
    let mut k: usize = 0;
    while k < points.len() && points[k].time.lt(time)
        invariant
            k <= points.len(),
            s == points_view(points@),
            forall|j: int| 0 <= j < k ==> s[j].time.spec_lt(time),
        decreases points.len() - k,
    {
        k += 1;
    }
    assert(is_insert_position(s, time, k as int));
    let ghost c = choose|c: int| is_insert_position(s, time, c);
    assert(c == k);
    k
}


/// Whether `id` occurs in `v`.
fn contains_id(v: &Vec<TierId>, id: TierId) -> (r: bool)
    ensures
        r == v@.contains(id),
{
    let mut k: usize = 0;
    while k < v.len()
        invariant
            k <= v.len(),
            forall|j: int| 0 <= j < k ==> v@[j] != id,
        decreases v.len() - k,
    {
        if v[k] == id {
            return true;
        }
        k += 1;
    }
    false
}

/// Adds `id` to `v` unless present; reports whether it was new.
fn add_id(v: &mut Vec<TierId>, id: TierId) -> (added: bool)
    ensures
        final(v)@.to_set() == old(v)@.to_set().insert(id),
        added == !old(v)@.contains(id),
{
    if contains_id(v, id) {
        assert(old(v)@.to_set().insert(id) =~= old(v)@.to_set());
        false
    } else {
        let ghost prev = v@;
        v.push(id);
        assert(v@ =~= prev.push(id));
        assert forall|t: TierId| v@.to_set().contains(t) <==> prev.to_set().insert(id).contains(t) by {
            if v@.to_set().contains(t) {
                let j = choose|j: int| 0 <= j < v@.len() && v@[j] == t;
                if j < prev.len() {
                    assert(prev[j] == t);
                }
            }
            if prev.to_set().contains(t) && t != id {
                let j = choose|j: int| 0 <= j < prev.len() && prev[j] == t;
                assert(v@[j] == t);
            }
            if t == id {
                assert(v@[prev.len() as int] == id);
            }
        }
        assert(v@.to_set() =~= prev.to_set().insert(id));
        true
    }
}

impl Annotation {
    /// Positions of the interval tiers aligned with `tier` (itself included), in
    /// document order.
    fn aligned_interval_indices_for_tier(&self, tier: TierId) -> (r: Result<
        Vec<usize>,
        AnnotationError,
    >)
        ensures
            match spec_aligned_indices(skeleton(self@.tiers), tier) {
                Ok(idxs) => r matches Ok(v) && v@.map_values(|x: usize| x as int) == idxs && (
                forall|k: int| 0 <= k < v@.len() ==> v@[k] < self@.tiers.len()),
                Err(e) => r matches Err(x) && x == e,
            },
    {
        let ghost tiers = self@.tiers;
        let ghost sk = skeleton(tiers);
        let ghost len = tiers.len();
        let start_index = match self.tier_position(tier) {
            Some(i) => i,
            None => {
                proof {
                    if sk_first(sk, tier) is Some {
                        let k = choose|k: int|
                            0 <= k < sk.len() && sk[k].0 == tier && (forall|j: int|
                                0 <= j < k ==> sk[j].0 != tier);
                        assert(tiers[k].id == tier);
                    }
                }
                return Err(AnnotationError::UnknownTier { tier });
            },
        };
        proof {
            let k = start_index as int;
            assert(0 <= k < sk.len() && sk[k].0 == tier && (forall|j: int|
                0 <= j < k ==> sk[j].0 != tier));
            let c = choose|c: int|
                0 <= c < sk.len() && sk[c].0 == tier && (forall|j: int| 0 <= j < c ==> sk[j].0 != tier);
            assert(c == k);
        }
        match &self.tiers[start_index].tier {
            Tier::Interval(_) => {},
            Tier::Point(_) => {
                return Err(AnnotationError::InvalidTierKind { tier, expected: TierKind::Interval });
            },
        }
        let mut included: Vec<TierId> = Vec::new();
        included.push(tier);
        proof {
            assert(included@ =~= seq![tier]);
            assert forall|t: TierId| included@.to_set().contains(t) <==> set![tier].contains(t) by {
                if included@.to_set().contains(t) {
                    let q = choose|q: int| 0 <= q < included@.len() && included@[q] == t;
                }
                if t == tier {
                    assert(included@[0] == tier);
                }
            }
            assert(included@.to_set() =~= set![tier]);
            assert(sk_has(sk, tier));
            lemma_sk_ids_len(sk);
            assert(sk[start_index as int].2);
        }
        let ghost aligned = match sk_closure(sk, set![tier], (len + 1) as nat) {
            Err(e) => Err(e),
            Ok(s) => sk_members(sk, s, 0),
        };
        assert(spec_aligned_indices(sk, tier) == aligned);
        let ghost mut fuel: nat = (len + 1) as nat;
        let mut changed = true;
        while changed
            invariant
                tiers == self@.tiers,
                sk == skeleton(tiers),
                len == tiers.len(),
                self.tiers.len() == len,
                spec_aligned_indices(sk, tier) == aligned,
                aligned == match sk_closure(sk, set![tier], (len + 1) as nat) {
                    Err(e) => Err(e),
                    Ok(s) => sk_members(sk, s, 0),
                },
                sk_ids(sk).finite(),
                sk_ids(sk).len() <= len,
                included@.to_set().subset_of(sk_ids(sk)),
                included@.to_set().finite(),
                fuel >= len + 1 - included@.to_set().len(),
                changed ==> sk_closure(sk, set![tier], (len + 1) as nat) == sk_closure(
                    sk,
                    included@.to_set(),
                    fuel,
                ),
                !changed ==> sk_closure(sk, set![tier], (len + 1) as nat) == Ok::<
                    Set<TierId>,
                    AnnotationError,
                >(included@.to_set()),
            decreases len + 1 - included@.to_set().len() + (if changed {
                1int
            } else {
                0int
            }),
        {
            let ghost s0 = included@.to_set();
            changed = false;
            let mut j: usize = 0;
            while j < self.tiers.len()
                invariant
                    tiers == self@.tiers,
                    sk == skeleton(tiers),
                    len == tiers.len(),
                    self.tiers.len() == len,
                    spec_aligned_indices(sk, tier) == aligned,
                    aligned == match sk_closure(sk, set![tier], (len + 1) as nat) {
                        Err(e) => Err(e),
                        Ok(s) => sk_members(sk, s, 0),
                    },
                    sk_closure(sk, set![tier], (len + 1) as nat) == sk_closure(sk, s0, fuel),
                    j <= len,
                    sk_ids(sk).finite(),
                    s0.finite(),
                    s0.subset_of(sk_ids(sk)),
                    included@.to_set().finite(),
                    sk_pass(sk, 0, s0, false) == sk_pass(sk, j as int, included@.to_set(), changed),
                decreases len - j,
            {
                let slot = &self.tiers[j];
                proof {
                    assert(sk[j as int] == (slot.id, slot.relation, slot.tier@ is Interval));
                }
                match slot.relation {
                    TierRelation::AlignedBoundaries { with } => {
                        let a = contains_id(&included, slot.id);
                        let b = contains_id(&included, with);
                        if a || b {
                            if self.tier_position(with).is_none() {
                                proof {
                                    if sk_has(sk, with) {
                                        let q = choose|q: int| 0 <= q < sk.len() && sk[q].0 == with;
                                        assert(tiers[q].id == with);
                                    }
                                }
                                return Err(AnnotationError::UnknownTier { tier: with });
                            }
                            proof {
                                let q = choose|q: int| 0 <= q < tiers.len() && tiers[q].id == with;
                                assert(sk[q].0 == with);
                            }
                            let ghost sprev = included@.to_set();
                            let ghost qprev = included@;
                            let ghost cprev = changed;
                            let n1 = add_id(&mut included, slot.id);
                            let ghost qmid = included@;
                            let n2 = add_id(&mut included, with);
                            proof {
                                assert(qprev.to_set().contains(slot.id) == qprev.contains(slot.id));
                                assert(qmid.to_set().contains(with) == qmid.contains(with));
                                assert(qmid.to_set() == sprev.insert(slot.id));
                            }
                            if n1 || n2 {
                                changed = true;
                            }
                            proof {
                                assert(changed == (cprev || !sprev.contains(slot.id) || !sprev.contains(with)));
                                assert(included@.to_set() == sprev.insert(slot.id).insert(with));
                            }
                        }
                    },
                    _ => {},
                }
                j += 1;
            }
            proof {
                lemma_pass(sk, 0, s0, false);
                lemma_sk_ids_len(sk);
                vstd::set_lib::lemma_len_subset(included@.to_set(), sk_ids(sk));
                if changed {
                    assert(fuel > 0);
                    fuel = (fuel - 1) as nat;
                }
            }
        }
        let ghost s = included@.to_set();
        let mut indices: Vec<usize> = Vec::new();
        let mut j: usize = 0;
        while j < self.tiers.len()
            invariant
                tiers == self@.tiers,
                sk == skeleton(tiers),
                len == tiers.len(),
                self.tiers.len() == len,
                spec_aligned_indices(sk, tier) == aligned,
                aligned == sk_members(sk, s, 0),
                j <= len,
                s == included@.to_set(),
                forall|k: int| 0 <= k < indices@.len() ==> indices@[k] < len,
                sk_members(sk, s, 0) == match sk_members(sk, s, j as int) {
                    Ok(rest) => Ok::<Seq<int>, AnnotationError>(
                        indices@.map_values(|x: usize| x as int) + rest,
                    ),
                    Err(e) => Err(e),
                },
            decreases len - j,
        {
            let slot = &self.tiers[j];
            proof {
                assert(sk[j as int] == (slot.id, slot.relation, slot.tier@ is Interval));
            }
            if contains_id(&included, slot.id) {
                match &slot.tier {
                    Tier::Interval(_) => {},
                    Tier::Point(_) => {
                        return Err(
                            AnnotationError::InvalidTierKind {
                                tier: slot.id,
                                expected: TierKind::Interval,
                            },
                        );
                    },
                }
                let ghost prev = indices@;
                indices.push(j);
                proof {
                    assert(indices@.map_values(|x: usize| x as int) =~= prev.map_values(
                        |x: usize| x as int,
                    ) + seq![j as int]);
                    if let Ok(rest) = sk_members(sk, s, j + 1) {
                        assert(prev.map_values(|x: usize| x as int) + (seq![j as int] + rest)
                            =~= indices@.map_values(|x: usize| x as int) + rest);
                    }
                }
            }
            j += 1;
        }
        proof {
            assert(indices@.map_values(|x: usize| x as int) + Seq::<int>::empty() =~= indices@.map_values(
                |x: usize| x as int,
            ));
        }
        Ok(indices)
    }
}


/// Position of the first interior boundary at exactly `at`.
fn interior_index(intervals: &Vec<Interval>, at: Time) -> (r: Option<usize>)
    ensures
        match r {
            Some(k) => interior_at(intervals_view(intervals@), at) == Some(k as int) && k + 1
                < intervals.len(),
            None => interior_at(intervals_view(intervals@), at) is None,
        },
{
    let ghost s = intervals_view(intervals@);
    if intervals.len() < 2 {
        return None;
    }
    let mut k: usize = 0;
    while k + 1 < intervals.len()
        invariant
            s == intervals_view(intervals@),
            intervals.len() >= 2,
            k + 1 <= intervals.len(),
            forall|j: int| 0 <= j < k ==> !(s[j].xmax == at && s[j + 1].xmin == at),
        decreases intervals.len() - k,
    {
        if intervals[k].xmax.same(at) && intervals[k + 1].xmin.same(at) {
            assert(is_interior_at(s, at, k as int));
            let ghost c = choose|c: int| is_interior_at(s, at, c);
            assert(c == k);
            return Some(k);
        }
        k += 1;
    }
    None
}

/// Position of the first interval strictly containing `at`.
fn split_index(intervals: &Vec<Interval>, at: Time) -> (r: Option<usize>)
    ensures
        match r {
            Some(k) => split_position(intervals_view(intervals@), at) == Some(k as int) && k
                < intervals.len(),
            None => split_position(intervals_view(intervals@), at) is None,
        },
{
    let ghost s = intervals_view(intervals@);
    let mut k: usize = 0;
    while k < intervals.len()
        invariant
            s == intervals_view(intervals@),
            k <= intervals.len(),
            forall|j: int| 0 <= j < k ==> !(s[j].xmin.spec_lt(at) && at.spec_lt(s[j].xmax)),
        decreases intervals.len() - k,
    {
        if intervals[k].xmin.lt(at) && at.lt(intervals[k].xmax) {
            assert(is_split_at(s, at, k as int));
            let ghost c = choose|c: int| is_split_at(s, at, c);
            assert(c == k);
            return Some(k);
        }
        k += 1;
    }
    None
}

impl Annotation {
    /// Replaces the intervals of interval tier `i`.
    fn set_tier_intervals(&mut self, i: usize, intervals: Vec<Interval>)
        requires
            i < old(self)@.tiers.len(),
            old(self)@.tiers[i as int].tier is Interval,
        ensures
            final(self)@ == with_tier(
                old(self)@,
                i as int,
                with_intervals(old(self)@.tiers[i as int].tier, intervals_view(intervals@)),
            ),
            final(self).next_ids() == old(self).next_ids(),
    {
        let ghost d0 = self@;
        let slot = self.tiers.remove(i);
        let TierSlot { id, relation, tier: payload } = slot;
        let name = match payload {
            Tier::Interval(t) => t.name,
            Tier::Point(t) => {
                proof {
                    assert(false);
                }
                t.name
            },
        };
        self.tiers.insert(
            i,
            TierSlot { id, relation, tier: Tier::Interval(IntervalTier { name, intervals }) },
        );
        proof {
            assert(self@.tiers =~= d0.tiers.update(
                i as int,
                SlotView {
                    tier: with_intervals(d0.tiers[i as int].tier, intervals_view(intervals@)),
                    ..d0.tiers[i as int]
                },
            ));
        }
    }

    /// The tier and time of boundary `id`.
    fn locate_boundary(&self, id: BoundaryId) -> (r: Result<(TierId, Time), AnnotationError>)
        ensures
            match boundary_location(self@.tiers, id) {
                Some(loc) => r == Ok::<(TierId, Time), AnnotationError>(loc),
                None => r == Err::<(TierId, Time), AnnotationError>(
                    AnnotationError::UnknownBoundary { boundary: id },
                ),
            },
    {
        let ghost tiers = self@.tiers;
        let mut i: usize = 0;
        while i < self.tiers.len()
            invariant
                i <= self.tiers.len(),
                tiers == self@.tiers,
                forall|j: int| 0 <= j < i ==> !lists_boundary(#[trigger] tiers[j].tier, id),
            decreases self.tiers.len() - i,
        {
            match &self.tiers[i].tier {
                Tier::Interval(t) => {
                    let ghost b = tier_boundaries(intervals_view(t.intervals@));
                    assert(tiers[i as int].tier.intervals() == intervals_view(t.intervals@));
                    match listing_index(&t.intervals, id) {
                        Some(k) => {
                            let (_, time) = Self::boundary_at(&t.intervals, k);
                            proof {
                                assert(lists_boundary(tiers[i as int].tier, id));
                                assert(is_boundary_home(tiers, id, i as int));
                                let h = choose|h: int| is_boundary_home(tiers, id, h);
                                assert(h == i);
                                let m = choose|m: int| is_first_listing(b, id, m);
                                assert(m == k);
                            }
                            return Ok((self.tiers[i].id, time));
                        },
                        None => {
                            assert(!lists_boundary(tiers[i as int].tier, id));
                        },
                    }
                },
                Tier::Point(_) => {},
            }
            i += 1;
        }
        assert(!exists|h: int| is_boundary_home(tiers, id, h));
        Err(AnnotationError::UnknownBoundary { boundary: id })
    }

    /// Splits the interval of tier `tier_index` that strictly contains `at`.
    fn split_interval_at_index(&mut self, tier_index: usize, at: Time) -> (r: Result<
        BoundaryId,
        AnnotationError,
    >)
        requires
            tier_index < old(self)@.tiers.len(),
            old(self).next_ids().1 < u64::MAX,
            old(self).next_ids().2 < u64::MAX,
        ensures
            final(self).next_ids() == (
                old(self).next_ids().0,
                (old(self).next_ids().1 + 1) as u64,
                (old(self).next_ids().2 + 1) as u64,
                old(self).next_ids().3,
            ),
            !(old(self)@.tiers[tier_index as int].tier is Interval) ==> (r matches Err(e) && e == (
            AnnotationError::InvalidTierKind {
                tier: old(self)@.tiers[tier_index as int].id,
                expected: TierKind::Interval,
            })),
            old(self)@.tiers[tier_index as int].tier is Interval ==> match split_tier(
                old(self)@.tiers[tier_index as int].tier.intervals(),
                at,
                BoundaryId(old(self).next_ids().1),
                IntervalId(old(self).next_ids().2),
                old(self)@.tiers[tier_index as int].id,
            ) {
                Err(e) => r matches Err(x) && x == e,
                Ok(s) => r == Ok::<BoundaryId, AnnotationError>(BoundaryId(old(self).next_ids().1))
                    && final(self)@ == with_tier(
                    old(self)@,
                    tier_index as int,
                    with_intervals(old(self)@.tiers[tier_index as int].tier, s),
                ),
            },
    {
        let new_boundary = BoundaryId(self.next_boundary_id);
        self.next_boundary_id = self.next_boundary_id + 1;
        let new_interval = IntervalId(self.next_interval_id);
        self.next_interval_id = self.next_interval_id + 1;
        let tier_id = self.tiers[tier_index].id;
        let mut copy = match &self.tiers[tier_index].tier {
            Tier::Interval(t) => {
                match split_index(&t.intervals, at) {
                    Some(_) => {},
                    None => {
                        if Self::boundary_time_present(&t.intervals, at) {
                            return Err(AnnotationError::BoundaryAlreadyExists { tier: tier_id, at });
                        }
                        return Err(AnnotationError::BoundaryOutsideInterval { tier: tier_id, at });
                    },
                }
                duplicate_intervals(&t.intervals)
            },
            Tier::Point(_) => {
                return Err(
                    AnnotationError::InvalidTierKind { tier: tier_id, expected: TierKind::Interval },
                );
            },
        };
        let ghost s0 = intervals_view(copy@);
        let k = match split_index(&copy, at) {
            Some(k) => k,
            None => {
                proof {
                    assert(false);
                }
                return Err(AnnotationError::BoundaryOutsideInterval { tier: tier_id, at });
            },
        };
        let original = copy.remove(k);
        let ghost ov = original@;
        let Interval { id, start_boundary, end_boundary, xmin, xmax, label } = original;
        let left_label = label.clone();
        copy.insert(
            k,
            Interval {
                id,
                start_boundary,
                end_boundary: new_boundary,
                xmin,
                xmax: at,
                label: left_label,
            },
        );
        copy.insert(
            k + 1,
            Interval {
                id: new_interval,
                start_boundary: new_boundary,
                end_boundary,
                xmin: at,
                xmax,
                label,
            },
        );
        proof {
            assert(intervals_view(copy@) =~= s0.update(
                k as int,
                IntervalView { end_boundary: new_boundary, xmax: at, ..ov },
            ).insert(
                k as int + 1,
                IntervalView {
                    id: new_interval,
                    start_boundary: new_boundary,
                    end_boundary: ov.end_boundary,
                    xmin: at,
                    xmax: ov.xmax,
                    label: ov.label,
                },
            ));
        }
        self.set_tier_intervals(tier_index, copy);
        Ok(new_boundary)
    }

    /// Moves the interior boundary at `at` of tier `tier_index` to `to`.
    fn move_boundary_in_tier_at(&mut self, tier_index: usize, at: Time, to: Time) -> (r: Result<
        BoundaryMove,
        AnnotationError,
    >)
        requires
            tier_index < old(self)@.tiers.len(),
        ensures
            final(self).next_ids() == old(self).next_ids(),
            !(old(self)@.tiers[tier_index as int].tier is Interval) ==> (r matches Err(e) && e == (
            AnnotationError::InvalidTierKind {
                tier: old(self)@.tiers[tier_index as int].id,
                expected: TierKind::Interval,
            })),
            old(self)@.tiers[tier_index as int].tier is Interval ==> match move_in_tier(
                old(self)@.tiers[tier_index as int].tier.intervals(),
                old(self)@.tiers[tier_index as int].id,
                at,
                to,
            ) {
                Err(e) => r matches Err(x) && x == e,
                Ok((s, mv)) => r == Ok::<BoundaryMove, AnnotationError>(mv) && final(self)@
                    == with_tier(
                    old(self)@,
                    tier_index as int,
                    with_intervals(old(self)@.tiers[tier_index as int].tier, s),
                ),
            },
    {
        let tier_id = self.tiers[tier_index].id;
        let mut copy = match &self.tiers[tier_index].tier {
            Tier::Interval(t) => duplicate_intervals(&t.intervals),
            Tier::Point(_) => {
                return Err(
                    AnnotationError::InvalidTierKind { tier: tier_id, expected: TierKind::Interval },
                );
            },
        };
        let ghost s0 = intervals_view(copy@);
        let k = match interior_index(&copy, at) {
            Some(k) => k,
            None => return Err(AnnotationError::UnknownBoundaryAt { tier: tier_id, at }),
        };
        let left_start = copy[k].xmin;
        let right_end = copy[k + 1].xmax;
        if to.le(left_start) || right_end.le(to) {
            return Err(AnnotationError::BoundaryWouldCollapseInterval { tier: tier_id, at: to });
        }
        let boundary = copy[k].end_boundary;
        let left = copy.remove(k);
        let Interval { id, start_boundary, end_boundary, xmin, xmax: _, label } = left;
        copy.insert(k, Interval { id, start_boundary, end_boundary, xmin, xmax: to, label });
        let right = copy.remove(k + 1);
        let Interval { id, start_boundary, end_boundary, xmin: _, xmax, label } = right;
        copy.insert(k + 1, Interval { id, start_boundary, end_boundary, xmin: to, xmax, label });
        proof {
            assert(intervals_view(copy@) =~= s0.update(
                k as int,
                IntervalView { xmax: to, ..s0[k as int] },
            ).update(k + 1, IntervalView { xmin: to, ..s0[k + 1] }));
        }
        self.set_tier_intervals(tier_index, copy);
        Ok(BoundaryMove { tier: tier_id, boundary, from: at, to })
    }

    /// Removes the interior boundary at `at` of tier `tier_index`, merging its
    /// two intervals.
    fn merge_boundary_in_tier_at(&mut self, tier_index: usize, at: Time) -> (r: Result<
        TierMerge,
        AnnotationError,
    >)
        requires
            tier_index < old(self)@.tiers.len(),
        ensures
            final(self).next_ids() == old(self).next_ids(),
            !(old(self)@.tiers[tier_index as int].tier is Interval) ==> (r matches Err(e) && e == (
            AnnotationError::InvalidTierKind {
                tier: old(self)@.tiers[tier_index as int].id,
                expected: TierKind::Interval,
            })),
            old(self)@.tiers[tier_index as int].tier is Interval ==> match merge_in_tier(
                old(self)@.tiers[tier_index as int].tier.intervals(),
                old(self)@.tiers[tier_index as int].id,
                at,
            ) {
                Err(e) => r matches Err(x) && x == e,
                Ok((s, m)) => r matches Ok(tm) && tm@ == m && final(self)@ == with_tier(
                    old(self)@,
                    tier_index as int,
                    with_intervals(old(self)@.tiers[tier_index as int].tier, s),
                ),
            },
    {
        let tier_id = self.tiers[tier_index].id;
        let mut copy = match &self.tiers[tier_index].tier {
            Tier::Interval(t) => duplicate_intervals(&t.intervals),
            Tier::Point(_) => {
                return Err(
                    AnnotationError::InvalidTierKind { tier: tier_id, expected: TierKind::Interval },
                );
            },
        };
        let ghost s0 = intervals_view(copy@);
        let k = match interior_index(&copy, at) {
            Some(k) => k,
            None => return Err(AnnotationError::BoundaryAtDomainEdge { tier: tier_id, at }),
        };
        let left = copy.remove(k);
        let right = copy.remove(k);
        let merged = Interval {
            id: left.id,
            start_boundary: left.start_boundary,
            end_boundary: right.end_boundary,
            xmin: left.xmin,
            xmax: right.xmax,
            label: left.label.clone(),
        };
        copy.insert(k, merged.duplicate());
        proof {
            assert(intervals_view(copy@) =~= s0.subrange(0, k as int).push(merged@) + s0.subrange(
                k + 2,
                s0.len() as int,
            ));
        }
        self.set_tier_intervals(tier_index, copy);
        Ok(TierMerge { tier: tier_id, boundary: left.end_boundary, at, left, right, merged })
    }
}

impl Annotation {
    /// Splits one interval tier boundary, or all aligned peers, at `at`.
    ///
    /// Every tier aligned with `tier` is split in document order, each split
    /// drawing the next boundary and interval identifiers; the boundary created
    /// in `tier` itself is returned. The document is left untouched on error.
    #[verifier::spinoff_prover]
    pub fn insert_boundary(&mut self, tier: TierId, at: Time) -> (r: Result<
        BoundaryId,
        AnnotationError,
    >)
        requires
            old(self).next_ids().1 + old(self)@.tiers.len() < u64::MAX,
            old(self).next_ids().2 + old(self)@.tiers.len() < u64::MAX,
        ensures
            !at.spec_is_finite() ==> (r matches Err(e) && e == (AnnotationError::NonFiniteTime {
                value: at,
                context: TimeRole::Boundary,
            })),
            at.spec_is_finite() ==> match spec_insert_boundary(
                old(self)@,
                tier,
                at,
                old(self).next_ids().1 as int,
                old(self).next_ids().2 as int,
            ) {
                Err(e) => r matches Err(x) && x == e,
                Ok((c, idxs)) => if !c.valid() {
                    r matches Err(e) && violation_of(c, e)
                } else {
                    match last_with_id(old(self)@.tiers, idxs, tier) {
                        None => r matches Err(e) && e == (AnnotationError::UnknownTier { tier }),
                        Some(q) => {
                            &&& r matches Ok(b) && b.0 == old(self).next_ids().1 + q
                            &&& final(self)@ == c
                            &&& final(self).next_ids() == (
                                old(self).next_ids().0,
                                (old(self).next_ids().1 + idxs.len()) as u64,
                                (old(self).next_ids().2 + idxs.len()) as u64,
                                old(self).next_ids().3,
                            )
                        },
                    }
                },
            },
            r is Err ==> final(self)@ == old(self)@ && final(self).next_ids() == old(
                self,
            ).next_ids(),
            old(self).ids_fresh() ==> final(self).ids_fresh(),
    {
        if !at.is_finite() {
            return Err(AnnotationError::NonFiniteTime { value: at, context: TimeRole::Boundary });
        }
        let ghost d0 = self@;
        let ghost nb = self.next_boundary_id as int;
        let ghost ni = self.next_interval_id as int;
        let idxs = match self.aligned_interval_indices_for_tier(tier) {
            Ok(v) => v,
            Err(e) => return Err(e),
        };
        let ghost ii = idxs@.map_values(|x: usize| x as int);
        proof {
            let sk = skeleton(d0.tiers);
            if let Ok(s) = sk_closure(sk, set![tier], (sk.len() + 1) as nat) {
                crate::boundary_edits::lemma_members_bounded(sk, s, 0);
            }
            assert(ii.len() == idxs.len());
            assert(idxs.len() <= d0.tiers.len());
        }
        let mut candidate = self.duplicate();
        let mut returned: Option<BoundaryId> = None;
        let mut p: usize = 0;
        assert(ii.skip(0) =~= ii);
        assert(ii.take(0) =~= Seq::<int>::empty());
        while p < idxs.len()
            invariant
                p <= idxs.len(),
                idxs.len() <= d0.tiers.len(),
                ii == idxs@.map_values(|x: usize| x as int),
                forall|k: int| 0 <= k < idxs@.len() ==> idxs@[k] < d0.tiers.len(),
                nb + d0.tiers.len() < u64::MAX,
                ni + d0.tiers.len() < u64::MAX,
                candidate@.tiers.len() == d0.tiers.len(),
                forall|j: int| 0 <= j < d0.tiers.len() ==> candidate@.tiers[j].id == d0.tiers[j].id,
                candidate.next_ids().0 == self.next_ids().0,
                candidate.next_ids().1 == nb + p,
                candidate.next_ids().2 == ni + p,
                candidate.next_ids().3 == self.next_ids().3,
                split_all(d0, ii, at, nb, ni) == split_all(
                    candidate@,
                    ii.skip(p as int),
                    at,
                    nb + p,
                    ni + p,
                ),
                returned == (match last_with_id(d0.tiers, ii.take(p as int), tier) {
                    Some(q) => Some(BoundaryId((nb + q) as u64)),
                    None => None::<BoundaryId>,
                }),
                self@ == d0,
                self.next_ids().1 == nb,
                self.next_ids().2 == ni,
                spec_aligned_indices(skeleton(d0.tiers), tier) == Ok::<Seq<int>, AnnotationError>(
                    ii,
                ),
                at.spec_is_finite(),
            decreases idxs.len() - p,
        {
            let index = idxs[p];
            assert(nb + p < u64::MAX && ni + p < u64::MAX);
            proof {
                assert(ii.skip(p as int)[0] == index as int);
                assert(ii.skip(p as int).drop_first() =~= ii.skip(p as int + 1));
                assert(ii.take(p as int + 1).drop_last() =~= ii.take(p as int));
                assert(ii.take(p as int + 1).last() == index as int);
            }
            let ghost c0 = candidate@;
            let boundary = match candidate.split_interval_at_index(index, at) {
                Ok(b) => b,
                Err(e) => {
                    proof {
                        assert(split_all(c0, ii.skip(p as int), at, nb + p, ni + p) == Err::<
                            DocView,
                            AnnotationError,
                        >(e));
                    }
                    return Err(e);
                },
            };
            proof {
                assert(boundary.0 == nb + p);
                assert(candidate@.tiers[index as int].id == d0.tiers[index as int].id);
            }
            if candidate.tiers[index].id == tier {
                returned = Some(boundary);
                proof {
                    assert(last_with_id(d0.tiers, ii.take(p as int + 1), tier) == Some(p as int));
                }
            } else {
                proof {
                    assert(last_with_id(d0.tiers, ii.take(p as int + 1), tier) == last_with_id(
                        d0.tiers,
                        ii.take(p as int),
                        tier,
                    ));
                }
            }
            p += 1;
        }
        proof {
            assert(ii.skip(p as int).len() == 0);
            assert(ii.take(p as int) =~= ii);
            assert(split_all(d0, ii, at, nb, ni) == Ok::<DocView, AnnotationError>(candidate@));
            assert(spec_insert_boundary(d0, tier, at, nb, ni) == Ok::<
                (DocView, Seq<int>),
                AnnotationError,
            >((candidate@, ii)));
        }
        match candidate.commit_if_valid() {
            Ok(()) => {},
            Err(e) => return Err(e),
        }
        let boundary = match returned {
            Some(b) => b,
            None => return Err(AnnotationError::UnknownTier { tier }),
        };
        proof {
            crate::boundary_edits::lemma_last_with_id_bounded(d0.tiers, ii, tier);
        }
        proof {
            if self.ids_fresh() {
                lemma_insert_boundary_below(self@, self.next_ids(), tier, at);
            }
        }
        *self = candidate;
        Ok(boundary)
    }
}

impl Annotation {
    /// Moves a boundary while preserving tier order and relation integrity.
    ///
    /// In linked mode every aligned peer moves with it; in single-tier mode a
    /// boundary with aligned peers is refused. The document is left untouched
    /// on error.
    pub fn move_boundary(&mut self, id: BoundaryId, to: Time, mode: AlignMode) -> (r: Result<
        Moved,
        AnnotationError,
    >)
        ensures
            final(self).next_ids() == old(self).next_ids(),
            !to.spec_is_finite() ==> (r matches Err(e) && e == (AnnotationError::NonFiniteTime {
                value: to,
                context: TimeRole::Boundary,
            })),
            to.spec_is_finite() ==> match spec_move_boundary(
                old(self)@,
                id,
                to,
                mode == AlignMode::Linked,
            ) {
                Err(e) => r matches Err(x) && x == e,
                Ok((c, moves)) => if c.valid() {
                    &&& r matches Ok(m) && m.moves@ == moves
                    &&& final(self)@ == c
                } else {
                    r matches Err(e) && violation_of(c, e)
                },
            },
            r is Err ==> final(self)@ == old(self)@,
            old(self).ids_fresh() ==> final(self).ids_fresh(),
    {
        if !to.is_finite() {
            return Err(AnnotationError::NonFiniteTime { value: to, context: TimeRole::Boundary });
        }
        let ghost d0 = self@;
        let (tier, at) = match self.locate_boundary(id) {
            Ok(loc) => loc,
            Err(e) => return Err(e),
        };
        let indices = match mode {
            AlignMode::Linked => match self.aligned_interval_indices_for_tier(tier) {
                Ok(v) => v,
                Err(e) => return Err(e),
            },
            AlignMode::SingleTier => {
                let peers = match self.aligned_interval_indices_for_tier(tier) {
                    Ok(v) => v,
                    Err(e) => return Err(e),
                };
                if peers.len() > 1 {
                    proof {
                        assert(peers@.map_values(|x: usize| x as int).len() == peers.len());
                    }
                    return Err(AnnotationError::AlignedBoundaryRequiresLinkedMode { boundary: id });
                }
                proof {
                    assert(peers@.map_values(|x: usize| x as int).len() == peers.len());
                }
                match self.tier_position(tier) {
                    Some(i) => {
                        let v = vec![i];
                        proof {
                            assert(v@.map_values(|x: usize| x as int) =~= seq![i as int]);
                        }
                        v
                    },
                    None => return Err(AnnotationError::UnknownTier { tier }),
                }
            },
        };
        let ghost ii = indices@.map_values(|x: usize| x as int);
        let ghost linked = mode == AlignMode::Linked;
        proof {
            assert(move_targets(d0.tiers, id, tier, linked) == Ok::<Seq<int>, AnnotationError>(ii));
        }
        let mut candidate = self.duplicate();
        let mut moves: Vec<BoundaryMove> = Vec::new();
        let mut p: usize = 0;
        assert(ii.skip(0) =~= ii);
        while p < indices.len()
            invariant
                p <= indices.len(),
                ii == indices@.map_values(|x: usize| x as int),
                forall|k: int| 0 <= k < indices@.len() ==> indices@[k] < d0.tiers.len(),
                candidate@.tiers.len() == d0.tiers.len(),
                candidate.next_ids() == self.next_ids(),
                move_all(d0, ii, at, to) == match move_all(candidate@, ii.skip(p as int), at, to) {
                    Err(e) => Err(e),
                    Ok((d2, ms)) => Ok((d2, moves@ + ms)),
                },
                self@ == d0,
                boundary_location(d0.tiers, id) == Some((tier, at)),
                move_targets(d0.tiers, id, tier, linked) == Ok::<Seq<int>, AnnotationError>(ii),
                linked == (mode == AlignMode::Linked),
                to.spec_is_finite(),
            decreases indices.len() - p,
        {
            let index = indices[p];
            proof {
                assert(ii.skip(p as int)[0] == index as int);
                assert(ii.skip(p as int).drop_first() =~= ii.skip(p as int + 1));
            }
            let ghost c0 = candidate@;
            let moved = match candidate.move_boundary_in_tier_at(index, at, to) {
                Ok(m) => m,
                Err(e) => {
                    proof {
                        assert(move_all(c0, ii.skip(p as int), at, to) is Err);
                    }
                    return Err(e);
                },
            };
            let ghost before = moves@;
            moves.push(moved);
            proof {
                assert(moves@ == before.push(moved));
                assert forall|ms: Seq<BoundaryMove>| before + (seq![moved] + ms) == moves@ + ms by {
                    assert(before + (seq![moved] + ms) =~= moves@ + ms);
                }
            }
            p += 1;
        }
        proof {
            assert(ii.skip(p as int).len() == 0);
            assert(moves@ + Seq::<BoundaryMove>::empty() =~= moves@);
        }
        match candidate.commit_if_valid() {
            Ok(()) => {},
            Err(e) => return Err(e),
        }
        proof {
            if self.ids_fresh() {
                lemma_move_boundary_below(self@, self.next_ids(), id, to, mode == AlignMode::Linked);
            }
        }
        *self = candidate;
        Ok(Moved { moves })
    }

    /// Removes an interior boundary by merging adjacent intervals, in the
    /// boundary's tier and in every tier aligned with it.
    pub fn remove_boundary(&mut self, id: BoundaryId) -> (r: Result<Merged, AnnotationError>)
        ensures
            final(self).next_ids() == old(self).next_ids(),
            match spec_remove_boundary(old(self)@, id) {
                Err(e) => r matches Err(x) && x == e,
                Ok((c, merges)) => if c.valid() {
                    &&& r matches Ok(m) && merges_view(m.merges@) == merges
                    &&& final(self)@ == c
                } else {
                    r matches Err(e) && violation_of(c, e)
                },
            },
            r is Err ==> final(self)@ == old(self)@,
            old(self).ids_fresh() ==> final(self).ids_fresh(),
    {
        let ghost d0 = self@;
        let (tier, at) = match self.locate_boundary(id) {
            Ok(loc) => loc,
            Err(e) => return Err(e),
        };
        let indices = match self.aligned_interval_indices_for_tier(tier) {
            Ok(v) => v,
            Err(e) => return Err(e),
        };
        let ghost ii = indices@.map_values(|x: usize| x as int);
        let mut candidate = self.duplicate();
        let mut merges: Vec<TierMerge> = Vec::new();
        let mut p: usize = 0;
        assert(ii.skip(0) =~= ii);
        assert(merges_view(merges@) =~= Seq::<TierMergeView>::empty());
        while p < indices.len()
            invariant
                p <= indices.len(),
                ii == indices@.map_values(|x: usize| x as int),
                forall|k: int| 0 <= k < indices@.len() ==> indices@[k] < d0.tiers.len(),
                candidate@.tiers.len() == d0.tiers.len(),
                candidate.next_ids() == self.next_ids(),
                merge_all(d0, ii, at) == match merge_all(candidate@, ii.skip(p as int), at) {
                    Err(e) => Err(e),
                    Ok((d2, ms)) => Ok((d2, merges_view(merges@) + ms)),
                },
                self@ == d0,
                boundary_location(d0.tiers, id) == Some((tier, at)),
                spec_aligned_indices(skeleton(d0.tiers), tier) == Ok::<Seq<int>, AnnotationError>(
                    ii,
                ),
            decreases indices.len() - p,
        {
            let index = indices[p];
            proof {
                assert(ii.skip(p as int)[0] == index as int);
                assert(ii.skip(p as int).drop_first() =~= ii.skip(p as int + 1));
            }
            let ghost c0 = candidate@;
            let merge = match candidate.merge_boundary_in_tier_at(index, at) {
                Ok(m) => m,
                Err(e) => {
                    proof {
                        assert(merge_all(c0, ii.skip(p as int), at) is Err);
                    }
                    return Err(e);
                },
            };
            let ghost before = merges_view(merges@);
            let ghost mv = merge@;
            merges.push(merge);
            proof {
                assert(merges_view(merges@) =~= before.push(mv));
                assert forall|ms: Seq<TierMergeView>| before + (seq![mv] + ms) == merges_view(
                    merges@,
                ) + ms by {
                    assert(before + (seq![mv] + ms) =~= merges_view(merges@) + ms);
                }
            }
            p += 1;
        }
        proof {
            assert(ii.skip(p as int).len() == 0);
            assert(merges_view(merges@) + Seq::<TierMergeView>::empty() =~= merges_view(merges@));
        }
        match candidate.commit_if_valid() {
            Ok(()) => {},
            Err(e) => return Err(e),
        }
        proof {
            if self.ids_fresh() {
                lemma_remove_boundary_below(self@, self.next_ids(), id);
            }
        }
        *self = candidate;
        Ok(Merged { merges })
    }
}

// ----------------------------------------------------------------------------
// Identifier generators
// ----------------------------------------------------------------------------

/// Largest interval id of a tier's intervals, 0 when there are none.
fn max_interval_id(intervals: &Vec<Interval>) -> (m: u64)
    ensures
        m == seq_max(interval_ids_of(intervals_view(intervals@))),
{
    let ghost ids = interval_ids_of(intervals_view(intervals@));
    let mut m: u64 = 0;
    let mut k: usize = 0;
    while k < intervals.len()
        invariant
            k <= intervals.len(),
            ids == interval_ids_of(intervals_view(intervals@)),
            m == seq_max(ids.take(k as int)),
        decreases intervals.len() - k,
    {
        proof {
            assert(ids.take(k as int + 1) =~= ids.take(k as int).push(intervals@[k as int].id.0));
            lemma_seq_max_push(ids.take(k as int), intervals@[k as int].id.0);
        }
        if intervals[k].id.0 > m {
            m = intervals[k].id.0;
        }
        k += 1;
    }
    assert(ids.take(k as int) =~= ids);
    m
}

/// Largest boundary id a tier lists, 0 when it lists none.
fn max_listed_boundary_id(intervals: &Vec<Interval>) -> (m: u64)
    ensures
        m == seq_max(
            tier_boundaries(intervals_view(intervals@)).map_values(
                |b: (BoundaryId, Time)| b.0.0,
            ),
        ),
{
    let ghost ids = tier_boundaries(intervals_view(intervals@)).map_values(
        |b: (BoundaryId, Time)| b.0.0,
    );
    if intervals.len() == 0 {
        assert(ids =~= Seq::<u64>::empty());
        return 0;
    }
    let mut m: u64 = intervals[0].start_boundary.0;
    proof {
        assert(ids.take(1) =~= Seq::<u64>::empty().push(m));
        lemma_seq_max_push(Seq::<u64>::empty(), m);
    }
    let mut k: usize = 0;
    while k < intervals.len()
        invariant
            intervals.len() > 0,
            k <= intervals.len(),
            ids == tier_boundaries(intervals_view(intervals@)).map_values(
                |b: (BoundaryId, Time)| b.0.0,
            ),
            ids.len() == intervals.len() + 1,
            m == seq_max(ids.take(k as int + 1)),
        decreases intervals.len() - k,
    {
        proof {
            assert(ids[k as int + 1] == intervals@[k as int].end_boundary.0);
            assert(ids.take(k as int + 2) =~= ids.take(k as int + 1).push(
                intervals@[k as int].end_boundary.0,
            ));
            lemma_seq_max_push(ids.take(k as int + 1), intervals@[k as int].end_boundary.0);
        }
        if intervals[k].end_boundary.0 > m {
            m = intervals[k].end_boundary.0;
        }
        k += 1;
    }
    assert(ids.take(k as int + 1) =~= ids);
    m
}

/// Largest point id of a tier's points, 0 when there are none.
fn max_point_id(points: &Vec<Point>) -> (m: u64)
    ensures
        m == seq_max(point_ids_of(points_view(points@))),
{
    let ghost ids = point_ids_of(points_view(points@));
    let mut m: u64 = 0;
    let mut k: usize = 0;
    while k < points.len()
        invariant
            k <= points.len(),
            ids == point_ids_of(points_view(points@)),
            m == seq_max(ids.take(k as int)),
        decreases points.len() - k,
    {
        proof {
            assert(ids.take(k as int + 1) =~= ids.take(k as int).push(points@[k as int].id.0));
            lemma_seq_max_push(ids.take(k as int), points@[k as int].id.0);
        }
        if points[k].id.0 > m {
            m = points[k].id.0;
        }
        k += 1;
    }
    assert(ids.take(k as int) =~= ids);
    m
}

/// The larger of two ids.
fn larger(a: u64, b: u64) -> (m: u64)
    ensures
        m == if a as int >= b as int {
            a
        } else {
            b
        },
{
    if a >= b {
        a
    } else {
        b
    }
}

/// The largest id of each class (tier, listed boundary, interval, point) a
/// list of tiers carries, 0 where a class is empty.
fn max_ids(tiers: &Vec<TierSlot>) -> (m: (u64, u64, u64, u64))
    ensures
        m.0 == seq_max(tier_ids(slots_view(tiers@))),
        m.1 == seq_max(all_listed_boundary_ids(slots_view(tiers@))),
        m.2 == seq_max(all_interval_ids(slots_view(tiers@))),
        m.3 == seq_max(all_point_ids(slots_view(tiers@))),
{
    let ghost sv = slots_view(tiers@);
    let mut tier_max: u64 = 0;
    let mut boundary_max: u64 = 0;
    let mut interval_max: u64 = 0;
    let mut point_max: u64 = 0;
    let mut i: usize = 0;
    assert(sv.take(0) =~= Seq::<SlotView>::empty());
    assert(tier_ids(sv.take(0)) =~= Seq::<u64>::empty());
    while i < tiers.len()
        invariant
            i <= tiers.len(),
            sv == slots_view(tiers@),
            tier_max == seq_max(tier_ids(sv.take(i as int))),
            boundary_max == seq_max(all_listed_boundary_ids(sv.take(i as int))),
            interval_max == seq_max(all_interval_ids(sv.take(i as int))),
            point_max == seq_max(all_point_ids(sv.take(i as int))),
        decreases tiers.len() - i,
    {
        let slot = &tiers[i];
        let ghost t = sv.take(i as int);
        let ghost t1 = sv.take(i as int + 1);
        proof {
            assert(t1.drop_last() =~= t);
            assert(t1.last() == slot@);
            assert(tier_ids(t1) =~= tier_ids(t).push(slot.id.0));
            lemma_seq_max_push(tier_ids(t), slot.id.0);
            lemma_seq_max_concat(all_listed_boundary_ids(t), listed_boundary_ids(slot@));
            lemma_seq_max_concat(all_interval_ids(t), slot_interval_ids(slot@));
            lemma_seq_max_concat(all_point_ids(t), slot_point_ids(slot@));
        }
        tier_max = larger(slot.id.0, tier_max);
        match &slot.tier {
            Tier::Interval(tier) => {
                let b = max_listed_boundary_id(&tier.intervals);
                let n = max_interval_id(&tier.intervals);
                proof {
                    assert(slot@.tier.intervals() == intervals_view(tier.intervals@));
                    assert(slot_point_ids(slot@) =~= Seq::<u64>::empty());
                    assert(seq_max(Seq::<u64>::empty()) == 0);
                }
                boundary_max = larger(boundary_max, b);
                interval_max = larger(interval_max, n);
            },
            Tier::Point(tier) => {
                let n = max_point_id(&tier.points);
                proof {
                    assert(slot@.tier.points() == points_view(tier.points@));
                    assert(slot_interval_ids(slot@) =~= Seq::<u64>::empty());
                    assert(listed_boundary_ids(slot@) =~= Seq::<u64>::empty());
                    assert(seq_max(Seq::<u64>::empty()) == 0);
                }
                point_max = larger(point_max, n);
            },
        }
        i += 1;
    }
    assert(sv.take(i as int) =~= sv);
    (tier_max, boundary_max, interval_max, point_max)
}

/// Whether every id of a list of tiers lies below the largest `u64`, so the
/// identifier generators can be recomputed from it.
pub fn ids_fit(tiers: &[TierSlot]) -> (r: bool)
    ensures
        r == ids_below_max(slots_view(tiers@)),
{
    let v = crate::model::duplicate_slots_of(tiers);
    let m = max_ids(&v);
    m.0 < u64::MAX && m.1 < u64::MAX && m.2 < u64::MAX && m.3 < u64::MAX
}

impl Annotation {
    /// Recomputes every identifier generator as one past the largest id in use.
    fn reseed_ids(&mut self)
        requires
            ids_below_max(old(self)@.tiers),
        ensures
            final(self)@ == old(self)@,
            final(self).next_ids() == reseeded_ids(old(self)@.tiers),
    {
        let m = max_ids(&self.tiers);
        self.next_tier_id = m.0 + 1;
        self.next_boundary_id = m.1 + 1;
        self.next_interval_id = m.2 + 1;
        self.next_point_id = m.3 + 1;
    }

    /// Builds a document from raw tiers and recomputes identifier generators.
    ///
    /// This constructor accepts invalid tier contents so importers can preserve
    /// source data and call `validate` to report every issue.
    pub fn from_raw(xmin: Time, xmax: Time, tiers: Vec<TierSlot>) -> (r: Annotation)
        requires
            ids_below_max(slots_view(tiers@)),
        ensures
            r@ == (DocView { xmin, xmax, tiers: slots_view(tiers@) }),
            r.next_ids() == reseeded_ids(slots_view(tiers@)),
            r.ids_fresh(),
    {
        let mut annotation = Annotation {
            xmin,
            xmax,
            tiers,
            next_tier_id: 1,
            next_boundary_id: 1,
            next_interval_id: 1,
            next_point_id: 1,
        };
        annotation.reseed_ids();
        proof {
            lemma_reseeded_above(slots_view(tiers@));
        }
        annotation
    }
}

impl Annotation {
    /// Adds an interval tier containing one unlabeled interval covering the
    /// document domain.
    pub fn add_interval_tier(&mut self, name: &str, relation: TierRelation) -> (r: Result<
        TierId,
        AnnotationError,
    >)
        requires
            old(self).next_ids().0 < u64::MAX,
            old(self).next_ids().1 + 1 < u64::MAX,
            old(self).next_ids().2 < u64::MAX,
        ensures
            ({
                let n = old(self).next_ids();
                let d = DocView {
                    tiers: old(self)@.tiers.push(
                        new_interval_slot(old(self)@, name@, relation, n.0, n.1, n.2),
                    ),
                    ..old(self)@
                };
                if d.valid() {
                    &&& r == Ok::<TierId, AnnotationError>(TierId(n.0))
                    &&& final(self)@ == d
                    &&& final(self).next_ids() == (
                        (n.0 + 1) as u64,
                        (n.1 + 2) as u64,
                        (n.2 + 1) as u64,
                        n.3,
                    )
                } else {
                    &&& r matches Err(e) && violation_of(d, e)
                    &&& final(self)@ == old(self)@
                    &&& final(self).next_ids() == n
                }
            }),
            old(self).ids_fresh() ==> final(self).ids_fresh(),
            old(self).ids_fresh() && old(self)@.valid() && relation is Independent ==> r is Ok,
    {
        let mut candidate = self.duplicate();
        let id = TierId(candidate.next_tier_id);
        candidate.next_tier_id = candidate.next_tier_id + 1;
        let start = BoundaryId(candidate.next_boundary_id);
        candidate.next_boundary_id = candidate.next_boundary_id + 1;
        let end = BoundaryId(candidate.next_boundary_id);
        candidate.next_boundary_id = candidate.next_boundary_id + 1;
        let interval = IntervalId(candidate.next_interval_id);
        candidate.next_interval_id = candidate.next_interval_id + 1;
        let xmin = candidate.xmin;
        let xmax = candidate.xmax;
        let ghost before = candidate@.tiers;
        let first = Interval {
            id: interval,
            start_boundary: start,
            end_boundary: end,
            xmin,
            xmax,
            label: String::new(),
        };
        let ghost fv = first@;
        let intervals = vec![first];
        assert(intervals_view(intervals@) =~= seq![fv]);
        let tier_name = name.to_owned();
        candidate.tiers.push(
            TierSlot {
                id,
                relation,
                tier: Tier::Interval(IntervalTier { name: tier_name, intervals }),
            },
        );
        proof {
            let slot = new_interval_slot(self@, name@, relation, id.0, start.0, interval.0);
            assert(candidate@.tiers =~= before.push(slot));
            if self.ids_fresh() && self@.valid() && relation is Independent {
                lemma_listed_below(self@.tiers, self.next_ids());
                lemma_content_ids_below(self@.tiers, self.next_ids(), self@.xmin, self@.xmax);
                law_add_interval_tier_valid(self@, id.0, start.0, interval.0, name@);
            }
            if self.ids_fresh() {
                assert(slot_below(slot, candidate.next_ids()));
                lemma_gens_push(self@.tiers, self.next_ids(), candidate.next_ids(), slot);
            }
        }
        match candidate.commit_if_valid() {
            Ok(()) => {},
            Err(e) => return Err(e),
        }
        *self = candidate;
        Ok(id)
    }

    /// Adds a point tier whose points take fresh ids in the order given.
    ///
    /// The first label holding a control character is refused; the document
    /// must stay valid, so the times must be finite, inside the domain and
    /// strictly increasing.
    pub fn add_point_tier(
        &mut self,
        name: &str,
        points: Vec<(Time, String)>,
        relation: TierRelation,
    ) -> (r: Result<TierId, AnnotationError>)
        requires
            old(self).next_ids().0 < u64::MAX,
            old(self).next_ids().3 + points.len() <= u64::MAX,
        ensures
            ({
                let n = old(self).next_ids();
                let given = points@.map_values(|p: (Time, String)| (p.0, p.1@));
                let labels = given.map_values(|p: (Time, Seq<char>)| p.1);
                match first_dirty_label(labels) {
                    Some(k) => {
                        let bytes = vstd::utf8::encode_utf8(labels[k]);
                        let c = first_control_of(labels[k])->0;
                        &&& r matches Err(AnnotationError::InvalidLabelControl { codepoint, index })
                            && index as int == c && codepoint == bytes[c] as u32
                        &&& final(self)@ == old(self)@
                        &&& final(self).next_ids() == n
                    },
                    None => {
                        let slot = SlotView {
                            id: TierId(n.0),
                            relation,
                            tier: TierView::Point {
                                name: name@,
                                points: stored_points(given, n.3 as int),
                            },
                        };
                        let d = DocView { tiers: old(self)@.tiers.push(slot), ..old(self)@ };
                        if d.valid() {
                            &&& r == Ok::<TierId, AnnotationError>(TierId(n.0))
                            &&& final(self)@ == d
                            &&& final(self).next_ids() == (
                                (n.0 + 1) as u64,
                                n.1,
                                n.2,
                                (n.3 + points.len()) as u64,
                            )
                        } else {
                            &&& r matches Err(e) && violation_of(d, e)
                            &&& final(self)@ == old(self)@
                            &&& final(self).next_ids() == n
                        }
                    },
                }
            }),
            ({
                let n = old(self).next_ids();
                let given = points@.map_values(|p: (Time, String)| (p.0, p.1@));
                let labels = given.map_values(|p: (Time, Seq<char>)| p.1);
                &&& old(self).ids_fresh() ==> final(self).ids_fresh()
                &&& old(self).ids_fresh() && old(self)@.valid() && relation is Independent
                    && first_dirty_label(labels) is None ==> (r is Ok <==> point_tier_ok(
                    old(self)@.xmin,
                    old(self)@.xmax,
                    stored_points(given, n.3 as int),
                ))
            }),
    {
        let ghost given = points@.map_values(|p: (Time, String)| (p.0, p.1@));
        let ghost labels = given.map_values(|p: (Time, Seq<char>)| p.1);
        let mut candidate = self.duplicate();
        let id = TierId(candidate.next_tier_id);
        candidate.next_tier_id = candidate.next_tier_id + 1;
        let mut stored: Vec<Point> = Vec::new();
        let mut k: usize = 0;
        while k < points.len()
            invariant
                k <= points.len(),
                given == points@.map_values(|p: (Time, String)| (p.0, p.1@)),
                labels == given.map_values(|p: (Time, Seq<char>)| p.1),
                candidate@ == self@,
                candidate.next_ids() == (
                    (self.next_ids().0 + 1) as u64,
                    self.next_ids().1,
                    self.next_ids().2,
                    (self.next_ids().3 + k) as u64,
                ),
                self.next_ids().0 < u64::MAX,
                self.next_ids().3 + points.len() <= u64::MAX,
                points_view(stored@) == stored_points(given, self.next_ids().3 as int).take(
                    k as int,
                ),
                forall|j: int| 0 <= j < k ==> first_control_of(#[trigger] labels[j]) is None,
            decreases points.len() - k,
        {
            let label = points[k].1.as_str();
            proof {
                assert(label@ == labels[k as int]);
            }
            match reject_control_label(label) {
                Ok(()) => {},
                Err(e) => {
                    proof {
                        lemma_first_dirty_at(labels, k as int);
                    }
                    return Err(e);
                },
            }
            let pid = PointId(candidate.next_point_id);
            candidate.next_point_id = candidate.next_point_id + 1;
            let ghost before = stored@;
            let text = points[k].1.clone();
            let np = Point { id: pid, time: points[k].0, label: text };
            proof {
                let sp = stored_points(given, self.next_ids().3 as int);
                assert(given[k as int] == (points@[k as int].0, points@[k as int].1@));
                assert(np@ == sp[k as int]);
                assert(points_view(before.push(np)) =~= points_view(before).push(np@));
                assert(sp.take(k as int + 1) =~= sp.take(k as int).push(sp[k as int]));
            }
            stored.push(np);
            proof {
                assert(points_view(stored@) =~= stored_points(given, self.next_ids().3 as int).take(
                    k as int + 1,
                ));
            }
            k += 1;
        }
        proof {
            assert(stored_points(given, self.next_ids().3 as int).take(k as int) =~= stored_points(
                given,
                self.next_ids().3 as int,
            ));
            lemma_no_dirty(labels);
        }
        let ghost before = candidate@.tiers;
        let ghost pv = points_view(stored@);
        candidate.tiers.push(
            TierSlot {
                id,
                relation,
                tier: Tier::Point(PointTier { name: name.to_owned(), points: stored }),
            },
        );
        proof {
            let slot = SlotView { id, relation, tier: TierView::Point { name: name@, points: pv } };
            assert(candidate@.tiers =~= before.push(slot));
            if self.ids_fresh() && self@.valid() && relation is Independent {
                lemma_listed_below(self@.tiers, self.next_ids());
                law_add_point_tier_valid(self@, self.next_ids().0, self.next_ids().3, name@, given);
            }
            if self.ids_fresh() {
                assert(slot_below(slot, candidate.next_ids()));
                lemma_gens_push(self@.tiers, self.next_ids(), candidate.next_ids(), slot);
            }
        }
        match candidate.commit_if_valid() {
            Ok(()) => {},
            Err(e) => return Err(e),
        }
        *self = candidate;
        Ok(id)
    }
}

/// Interval equality as the derived `==` computes it.
fn interval_matches(a: &Interval, b: &Interval) -> (r: bool)
    ensures
        r == interval_ieee_eq(a@, b@),
{
    a.id == b.id && a.start_boundary == b.start_boundary && a.end_boundary == b.end_boundary
        && a.xmin.ieee_eq(b.xmin) && a.xmax.ieee_eq(b.xmax) && a.label == b.label
}

/// Position of the first interval equal to `m`.
fn merged_index(intervals: &Vec<Interval>, m: &Interval) -> (r: Option<usize>)
    ensures
        match r {
            Some(p) => p < intervals.len() && merged_position(intervals_view(intervals@), m@)
                == Some(p as int),
            None => merged_position(intervals_view(intervals@), m@) is None,
        },
{
    let ghost s = intervals_view(intervals@);
    let mut k: usize = 0;
    while k < intervals.len()
        invariant
            k <= intervals.len(),
            s == intervals_view(intervals@),
            forall|j: int| 0 <= j < k ==> !interval_ieee_eq(s[j], m@),
        decreases intervals.len() - k,
    {
        if interval_matches(&intervals[k], m) {
            assert(is_merged_at(s, m@, k as int));
            let ghost c = choose|c: int| is_merged_at(s, m@, c);
            assert(c == k);
            return Some(k);
        }
        k += 1;
    }
    None
}

impl Annotation {
    /// Splits the merged interval of a merge record back into its two
    /// original intervals, leaving the identifier generators as they are.
    fn splice_merge(&mut self, merge: &TierMerge) -> (r: Result<(), AnnotationError>)
        ensures
            final(self).next_ids() == old(self).next_ids(),
            match restore_in_tier(old(self)@, merge@) {
                Err(e) => r == Err::<(), AnnotationError>(e) && final(self)@ == old(self)@,
                Ok(c) => r is Ok && final(self)@ == c,
            },
    {
        let index = match self.tier_position(merge.tier) {
            Some(i) => i,
            None => return Err(AnnotationError::UnknownTier { tier: merge.tier }),
        };
        let mut copy = match &self.tiers[index].tier {
            Tier::Interval(t) => {
                proof {
                    assert(self@.tiers[index as int].tier.intervals() == intervals_view(
                        t.intervals@,
                    ));
                }
                duplicate_intervals(&t.intervals)
            },
            Tier::Point(_) => {
                return Err(
                    AnnotationError::InvalidTierKind { tier: merge.tier, expected: TierKind::Interval },
                );
            },
        };
        let ghost s0 = intervals_view(copy@);
        let position = match merged_index(&copy, &merge.merged) {
            Some(p) => p,
            None => {
                return Err(
                    AnnotationError::MergedIntervalNotFound {
                        tier: merge.tier,
                        interval: merge.merged.id,
                    },
                );
            },
        };
        copy.remove(position);
        copy.insert(position, merge.left.duplicate());
        copy.insert(position + 1, merge.right.duplicate());
        proof {
            assert(intervals_view(copy@) =~= s0.subrange(0, position as int) + seq![
                merge@.left,
                merge@.right,
            ] + s0.subrange(position + 1, s0.len() as int));
        }
        self.set_tier_intervals(index, copy);
        Ok(())
    }

    /// Splits the merged interval of a merge record back into its two
    /// original intervals, then recomputes the identifier generators.
    fn restore_merge(&mut self, merge: &TierMerge) -> (r: Result<(), AnnotationError>)
        requires
            restore_in_tier(old(self)@, merge@) matches Ok(c) ==> ids_below_max(c.tiers),
        ensures
            match restore_in_tier(old(self)@, merge@) {
                Err(e) => r == Err::<(), AnnotationError>(e) && final(self)@ == old(self)@
                    && final(self).next_ids() == old(self).next_ids(),
                Ok(c) => r is Ok && final(self)@ == c && final(self).next_ids() == reseeded_ids(
                    c.tiers,
                ),
            },
    {
        match self.splice_merge(merge) {
            Ok(()) => {},
            Err(e) => return Err(e),
        }
        self.reseed_ids();
        Ok(())
    }

    /// Whether applying an inverse keeps every id the identifier generators
    /// are recomputed from below the largest `u64`.
    pub fn inverse_fits(&self, inverse: &InverseMutation) -> (r: bool)
        ensures
            r == inverse_in_range(self@, inverse@),
    {
        match inverse {
            InverseMutation::RestoreMergedBoundary { merged } => {
                let ghost ms = merges_view(merged.merges@);
                let mut current = self.duplicate();
                let mut p: usize = 0;
                assert(ms.skip(0) =~= ms);
                while p < merged.merges.len()
                    invariant
                        p <= merged.merges.len(),
                        ms == merges_view(merged.merges@),
                        inverse_in_range(self@, inverse@) == restores_in_range(self@, ms),
                        restores_in_range(self@, ms) == restores_in_range(
                            current@,
                            ms.skip(p as int),
                        ),
                    decreases merged.merges.len() - p,
                {
                    proof {
                        assert(ms.skip(p as int)[0] == merged.merges@[p as int]@);
                        assert(ms.skip(p as int).drop_first() =~= ms.skip(p as int + 1));
                    }
                    match current.splice_merge(&merged.merges[p]) {
                        Ok(()) => {},
                        Err(_) => return true,
                    }
                    if !ids_fit(current.tiers()) {
                        return false;
                    }
                    p += 1;
                }
                proof {
                    assert(ms.skip(p as int).len() == 0);
                }
                true
            },
            InverseMutation::RestorePoint { tier, point } => {
                let mut current = self.duplicate();
                match current.insert_point_into_tier(*tier, point.duplicate()) {
                    Ok(_) => ids_fit(current.tiers()),
                    Err(_) => true,
                }
            },
            _ => true,
        }
    }

    /// The identifier generators: the next tier, boundary, interval and point
    /// ids this document hands out.
    pub fn next_ids_now(&self) -> (r: (u64, u64, u64, u64))
        ensures
            r == self.next_ids(),
    {
        (self.next_tier_id, self.next_boundary_id, self.next_interval_id, self.next_point_id)
    }

    /// Applies a stored inverse mutation.
    ///
    /// The inverse runs on a candidate copy that is committed only when it
    /// passes every integrity rule; on error the document is left untouched.
    pub fn apply_inverse(&mut self, inverse: &InverseMutation) -> (r: Result<(), AnnotationError>)
        requires
            inverse_in_range(old(self)@, inverse@),
        ensures
            match spec_apply_inverse(old(self)@, inverse@) {
                Err(e) => r == Err::<(), AnnotationError>(e),
                Ok(c) => if c.valid() {
                    r is Ok && final(self)@ == c
                } else {
                    r matches Err(e) && violation_of(c, e)
                },
            },
            r is Err ==> final(self)@ == old(self)@ && final(self).next_ids() == old(
                self,
            ).next_ids(),
            r is Ok ==> match inverse@ {
                InverseView::RestorePoint { .. } => final(self).next_ids() == reseeded_ids(
                    final(self)@.tiers,
                ),
                InverseView::RestoreMergedBoundary { merges } => if merges.len() == 0 {
                    final(self).next_ids() == old(self).next_ids()
                } else {
                    final(self).next_ids() == reseeded_ids(final(self)@.tiers)
                },
                _ => final(self).next_ids() == old(self).next_ids(),
            },
            old(self).ids_fresh() ==> final(self).ids_fresh(),
    {
        match inverse {
            InverseMutation::RemoveBoundary { boundary } => {
                match self.remove_boundary(*boundary) {
                    Ok(_) => Ok(()),
                    Err(e) => Err(e),
                }
            },
            InverseMutation::MoveBoundaries { moves } => self.move_back(moves),
            InverseMutation::RestoreMergedBoundary { merged } => self.restore_merges(merged),
            InverseMutation::SetLabel { target, text } => {
                match self.set_label(*target, text.as_str()) {
                    Ok(_) => Ok(()),
                    Err(e) => Err(e),
                }
            },
            InverseMutation::RemovePoint { point } => {
                match self.remove_point(*point) {
                    Ok(_) => Ok(()),
                    Err(e) => Err(e),
                }
            },
            InverseMutation::RestorePoint { tier, point } => {
                let mut candidate = self.duplicate();
                match candidate.insert_point_into_tier(*tier, point.duplicate()) {
                    Ok(_) => {},
                    Err(e) => return Err(e),
                }
                candidate.reseed_ids();
                proof {
                    lemma_reseeded_above(candidate@.tiers);
                }
                match candidate.commit_if_valid() {
                    Ok(()) => {},
                    Err(e) => return Err(e),
                }
                *self = candidate;
                Ok(())
            },
            InverseMutation::MovePoint { point, to } => {
                match self.move_point(*point, *to) {
                    Ok(_) => Ok(()),
                    Err(e) => Err(e),
                }
            },
            InverseMutation::ReorderTier { tier, to_index } => {
                match self.reorder_tier(*tier, *to_index) {
                    Ok(_) => Ok(()),
                    Err(e) => Err(e),
                }
            },
        }
    }

    /// Moves every recorded boundary back to its previous time.
    fn move_back(&mut self, moves: &Vec<BoundaryMove>) -> (r: Result<(), AnnotationError>)
        ensures
            final(self).next_ids() == old(self).next_ids(),
            match move_back_all(old(self)@, moves@) {
                Err(e) => r == Err::<(), AnnotationError>(e),
                Ok(c) => if c.valid() {
                    r is Ok && final(self)@ == c
                } else {
                    r matches Err(e) && violation_of(c, e)
                },
            },
            r is Err ==> final(self)@ == old(self)@,
            old(self).ids_fresh() ==> final(self).ids_fresh(),
    {
        let ghost d0 = self@;
        let mut candidate = self.duplicate();
        let mut p: usize = 0;
        assert(moves@.skip(0) =~= moves@);
        while p < moves.len()
            invariant
                p <= moves.len(),
                candidate.next_ids() == self.next_ids(),
                move_back_all(d0, moves@) == move_back_all(candidate@, moves@.skip(p as int)),
                self@ == d0,
            decreases moves.len() - p,
        {
            let movement = moves[p];
            proof {
                assert(moves@.skip(p as int)[0] == movement);
                assert(moves@.skip(p as int).drop_first() =~= moves@.skip(p as int + 1));
            }
            let index = match candidate.tier_position(movement.tier) {
                Some(i) => i,
                None => return Err(AnnotationError::UnknownTier { tier: movement.tier }),
            };
            let moved = match candidate.move_boundary_in_tier_at(index, movement.to, movement.from) {
                Ok(m) => m,
                Err(e) => return Err(e),
            };
            if moved.boundary != movement.boundary {
                return Err(AnnotationError::UnknownBoundary { boundary: movement.boundary });
            }
            p += 1;
        }
        proof {
            assert(moves@.skip(p as int).len() == 0);
        }
        match candidate.commit_if_valid() {
            Ok(()) => {},
            Err(e) => return Err(e),
        }
        proof {
            if self.ids_fresh() {
                lemma_move_back_all_below(self@, self.next_ids(), moves@);
            }
        }
        *self = candidate;
        Ok(())
    }

    /// Restores every recorded merge in turn.
    fn restore_merges(&mut self, merged: &Merged) -> (r: Result<(), AnnotationError>)
        requires
            restores_in_range(old(self)@, merges_view(merged.merges@)),
        ensures
            match restore_all(old(self)@, merges_view(merged.merges@)) {
                Err(e) => r == Err::<(), AnnotationError>(e),
                Ok(c) => if c.valid() {
                    r is Ok && final(self)@ == c
                } else {
                    r matches Err(e) && violation_of(c, e)
                },
            },
            r is Err ==> final(self)@ == old(self)@ && final(self).next_ids() == old(
                self,
            ).next_ids(),
            r is Ok ==> if merged.merges.len() == 0 {
                final(self).next_ids() == old(self).next_ids()
            } else {
                final(self).next_ids() == reseeded_ids(final(self)@.tiers)
            },
            old(self).ids_fresh() ==> final(self).ids_fresh(),
    {
        let ghost d0 = self@;
        let ghost ms = merges_view(merged.merges@);
        let mut candidate = self.duplicate();
        let mut p: usize = 0;
        assert(ms.skip(0) =~= ms);
        while p < merged.merges.len()
            invariant
                p <= merged.merges.len(),
                ms == merges_view(merged.merges@),
                restore_all(d0, ms) == restore_all(candidate@, ms.skip(p as int)),
                restores_in_range(candidate@, ms.skip(p as int)),
                p == 0 ==> candidate.next_ids() == self.next_ids(),
                p > 0 ==> candidate.next_ids() == reseeded_ids(candidate@.tiers),
                p == 0 ==> candidate@ == self@,
                p > 0 ==> candidate.ids_fresh(),
                self@ == d0,
            decreases merged.merges.len() - p,
        {
            proof {
                assert(ms.skip(p as int)[0] == merged.merges@[p as int]@);
                assert(ms.skip(p as int).drop_first() =~= ms.skip(p as int + 1));
            }
            match candidate.restore_merge(&merged.merges[p]) {
                Ok(()) => {},
                Err(e) => return Err(e),
            }
            proof {
                lemma_reseeded_above(candidate@.tiers);
            }
            p += 1;
        }
        proof {
            assert(ms.skip(p as int).len() == 0);
        }
        match candidate.commit_if_valid() {
            Ok(()) => {},
            Err(e) => return Err(e),
        }
        *self = candidate;
        Ok(())
    }
}

/// Position of the first listing of boundary `id` among the boundaries of a
/// tier's intervals.
fn listing_index(intervals: &Vec<Interval>, id: BoundaryId) -> (r: Option<usize>)
    ensures
        match r {
            Some(k) => intervals.len() > 0 && k <= intervals.len() && is_first_listing(
                tier_boundaries(intervals_view(intervals@)),
                id,
                k as int,
            ),
            None => forall|j: int|
                0 <= j < tier_boundaries(intervals_view(intervals@)).len() ==> (
                #[trigger] tier_boundaries(intervals_view(intervals@))[j]).0 != id,
        },
{
    let ghost b = tier_boundaries(intervals_view(intervals@));
    if intervals.len() == 0 {
        return None;
    }
    if intervals[0].start_boundary == id {
        return Some(0);
    }
    let mut k: usize = 0;
    while k < intervals.len()
        invariant
            intervals.len() > 0,
            k <= intervals.len(),
            b == tier_boundaries(intervals_view(intervals@)),
            b.len() == intervals.len() + 1,
            forall|j: int| 0 <= j <= k ==> b[j].0 != id,
        decreases intervals.len() - k,
    {
        if intervals[k].end_boundary == id {
            return Some(k + 1);
        }
        k += 1;
    }
    None
}

/// Position of the first interval carrying `id`.
fn interval_position(intervals: &Vec<Interval>, id: IntervalId) -> (r: Option<usize>)
    ensures
        match r {
            Some(k) => k < intervals.len() && first_interval(intervals_view(intervals@), id) == Some(
                k as int,
            ),
            None => first_interval(intervals_view(intervals@), id) is None,
        },
{
    let ghost s = intervals_view(intervals@);
    let mut k: usize = 0;
    while k < intervals.len()
        invariant
            k <= intervals.len(),
            s == intervals_view(intervals@),
            forall|j: int| 0 <= j < k ==> s[j].id != id,
        decreases intervals.len() - k,
    {
        if intervals[k].id == id {
            assert(is_first_interval(s, id, k as int));
            let ghost c = choose|c: int| is_first_interval(s, id, c);
            assert(c == k);
            return Some(k);
        }
        k += 1;
    }
    None
}

/// Position of the first point carrying `id`.
fn point_position(points: &Vec<Point>, id: PointId) -> (r: Option<usize>)
    ensures
        match r {
            Some(k) => k < points.len() && first_point(points_view(points@), id) == Some(k as int)
                && points@[k as int].id == id,
            None => first_point(points_view(points@), id) is None && forall|j: int|
                0 <= j < points.len() ==> points@[j].id != id,
        },
{
    let ghost s = points_view(points@);
    let mut k: usize = 0;
    while k < points.len()
        invariant
            k <= points.len(),
            s == points_view(points@),
            forall|j: int| 0 <= j < k ==> s[j].id != id,
        decreases points.len() - k,
    {
        if points[k].id == id {
            assert(is_first_point(s, id, k as int));
            let ghost c = choose|c: int| is_first_point(s, id, c);
            assert(c == k);
            return Some(k);
        }
        k += 1;
    }
    assert forall|j: int| 0 <= j < points.len() implies points@[j].id != id by {
        assert(s[j].id == points@[j].id);
    }
    None
}

/// Position of the first control byte of a label.
pub open spec fn first_control(bytes: Seq<u8>) -> Option<int> {
    if exists|k: int| is_first_control(bytes, k) {
        Some(choose|k: int| is_first_control(bytes, k))
    } else {
        None
    }
}

/// Some control byte in `bytes` has a first one.
proof fn lemma_first_control_exists(bytes: Seq<u8>, q: int)
    requires
        0 <= q < bytes.len(),
        is_control_byte(bytes[q]),
    ensures
        exists|k: int| is_first_control(bytes, k),
    decreases q,
{
    if exists|j: int| 0 <= j < q && is_control_byte(bytes[j]) {
        let j = choose|j: int| 0 <= j < q && is_control_byte(bytes[j]);
        lemma_first_control_exists(bytes, j);
    } else {
        assert(is_first_control(bytes, q));
    }
}

/// A label is refused exactly when one of its bytes is a C0 control
/// (`0x00..=0x1f`) or `DEL` (`0x7f`), and the byte reported is the first such
/// byte: every other byte, printable ASCII `0x20..=0x7e` and every byte of a
/// multi-byte character among them, is accepted.
pub proof fn law_label_refusal(bytes: Seq<u8>)
    ensures
        first_control(bytes) is None <==> forall|j: int|
            0 <= j < bytes.len() ==> #[trigger] bytes[j] > 0x1f && bytes[j] != 0x7f,
        first_control(bytes) matches Some(k) ==> {
            &&& 0 <= k < bytes.len()
            &&& bytes[k] <= 0x1f || bytes[k] == 0x7f
            &&& forall|j: int| 0 <= j < k ==> #[trigger] bytes[j] > 0x1f && bytes[j] != 0x7f
        },
{
    if first_control(bytes) is Some {
        let k = choose|k: int| is_first_control(bytes, k);
        assert(is_first_control(bytes, k));
        assert(first_control(bytes) == Some(k));
    } else {
        assert forall|j: int| 0 <= j < bytes.len() implies #[trigger] bytes[j] > 0x1f && bytes[j]
            != 0x7f by {
            if !(bytes[j] > 0x1f && bytes[j] != 0x7f) {
                lemma_first_control_exists(bytes, j);
            }
        }
    }
}

/// Rejects labels holding a C0 control character or `DEL`, reporting the first
/// one with its code point and byte index.
pub fn reject_control_label(text: &str) -> (r: Result<(), AnnotationError>)
    ensures
        match first_control(text.spec_bytes()) {
            Some(k) => r matches Err(AnnotationError::InvalidLabelControl { codepoint, index })
                && index as int == k && codepoint == text.spec_bytes()[k] as u32,
            None => r is Ok,
        },
{
    let bytes = text.as_bytes();
    let ghost b = text.spec_bytes();
    let mut k: usize = 0;
    while k < bytes.len()
        invariant
            k <= bytes.len(),
            bytes@ == b,
            b == text.spec_bytes(),
            forall|j: int| 0 <= j < k ==> !is_control_byte(b[j]),
        decreases bytes.len() - k,
    {
        let c = bytes[k];
        if c <= 0x1f || c == 0x7f {
            assert(is_first_control(b, k as int));
            let ghost w = choose|w: int| is_first_control(b, w);
            assert(w == k);
            assert(first_control(b) == Some(k as int));
            assert(b[k as int] == c);
            assert((k as int) as usize == k);
            assert(first_control(b) == Some(k as int));
            return Err(AnnotationError::InvalidLabelControl { codepoint: c as u32, index: k });
        }
        k += 1;
    }
    assert(!exists|w: int| is_first_control(b, w));
    Ok(())
}

/// Whether two tier slots hold the same value.
fn same_slot(a: &TierSlot, b: &TierSlot) -> (r: bool)
    ensures
        r == (a@ == b@),
{
    if a.id != b.id || a.relation != b.relation {
        assert(a@.id != b@.id || a@.relation != b@.relation);
        return false;
    }
    match &a.tier {
        Tier::Interval(x) => {
            let Tier::Interval(y) = &b.tier else {
                return false;
            };
            if x.name != y.name || x.intervals.len() != y.intervals.len() {
                assert(a@.tier->Interval_name != b@.tier->Interval_name || a@.tier->Interval_intervals.len() != b@.tier->Interval_intervals.len());
                return false;
            }
            let mut k: usize = 0;
            while k < x.intervals.len()
                invariant
                    k <= x.intervals.len(),
                    x.intervals.len() == y.intervals.len(),
                    forall|j: int| 0 <= j < k ==> x.intervals@[j]@ == y.intervals@[j]@,
                    a@.tier.intervals() == intervals_view(x.intervals@),
                    b@.tier.intervals() == intervals_view(y.intervals@),
                decreases x.intervals.len() - k,
            {
                let p = &x.intervals[k];
                let q = &y.intervals[k];
                if p.id != q.id || p.start_boundary != q.start_boundary || p.end_boundary
                    != q.end_boundary || !p.xmin.same(q.xmin) || !p.xmax.same(q.xmax) || p.label
                    != q.label {
                    assert(p@.id != q@.id || p@.start_boundary != q@.start_boundary
                        || p@.end_boundary != q@.end_boundary || p@.xmin != q@.xmin || p@.xmax
                        != q@.xmax || p@.label != q@.label);
                    assert(p@ != q@);
                    assert(a@.tier.intervals()[k as int] == p@);
                    return false;
                }
                k += 1;
            }
            assert(intervals_view(x.intervals@) =~= intervals_view(y.intervals@));
            true
        },
        Tier::Point(x) => {
            let Tier::Point(y) = &b.tier else {
                return false;
            };
            if x.name != y.name || x.points.len() != y.points.len() {
                assert(a@.tier->Point_name != b@.tier->Point_name || a@.tier->Point_points.len() != b@.tier->Point_points.len());
                return false;
            }
            let mut k: usize = 0;
            while k < x.points.len()
                invariant
                    k <= x.points.len(),
                    x.points.len() == y.points.len(),
                    forall|j: int| 0 <= j < k ==> x.points@[j]@ == y.points@[j]@,
                    a@.tier.points() == points_view(x.points@),
                    b@.tier.points() == points_view(y.points@),
                decreases x.points.len() - k,
            {
                let p = &x.points[k];
                let q = &y.points[k];
                if p.id != q.id || !p.time.same(q.time) || p.label != q.label {
                    assert(p@.id != q@.id || p@.time != q@.time || p@.label != q@.label);
                    assert(p@ != q@);
                    assert(a@.tier.points()[k as int] == p@);
                    return false;
                }
                k += 1;
            }
            assert(points_view(x.points@) =~= points_view(y.points@));
            true
        },
    }
}


/// The earlier of two times as `f64::min` picks it: a NaN gives way to the
/// other time.
pub open spec fn spec_time_min(a: Time, b: Time) -> Time {
    if a.spec_is_nan() {
        b
    } else if b.spec_is_nan() {
        a
    } else if b.spec_lt(a) {
        b
    } else {
        a
    }
}

/// The later of two times as `f64::max` picks it: a NaN gives way to the
/// other time.
pub open spec fn spec_time_max(a: Time, b: Time) -> Time {
    if a.spec_is_nan() {
        b
    } else if b.spec_is_nan() {
        a
    } else if a.spec_lt(b) {
        b
    } else {
        a
    }
}

/// The earlier of two times; a NaN gives way to the other.
pub fn time_min(a: Time, b: Time) -> (r: Time)
    ensures
        r == spec_time_min(a, b),
{
    if a.is_nan() {
        b
    } else if b.is_nan() {
        a
    } else if b.lt(a) {
        b
    } else {
        a
    }
}

/// The later of two times; a NaN gives way to the other.
pub fn time_max(a: Time, b: Time) -> (r: Time)
    ensures
        r == spec_time_max(a, b),
{
    if a.is_nan() {
        b
    } else if b.is_nan() {
        a
    } else if a.lt(b) {
        b
    } else {
        a
    }
}

/// An interval reaches into the window: it ends after `lo` and starts
/// before `hi`.
pub open spec fn overlaps_window(lo: Time, hi: Time) -> spec_fn(IntervalView) -> bool {
    |iv: IntervalView| lo.spec_lt(iv.xmax) && iv.xmin.spec_lt(hi)
}

/// A point lies in the window `[lo, hi)`.
pub open spec fn inside_window(lo: Time, hi: Time) -> spec_fn(PointView) -> bool {
    |p: PointView| lo.spec_le(p.time) && p.time.spec_lt(hi)
}

impl Annotation {
    /// The intervals of interval tier `tier` that reach into the window
    /// between `t0` and `t1`, taken in either order, in tier order.
    pub fn intervals_in_range(&self, tier: TierId, t0: Time, t1: Time) -> (r: Result<
        Vec<Interval>,
        AnnotationError,
    >)
        ensures
            match first_tier(self@.tiers, tier) {
                None => r == Err::<Vec<Interval>, AnnotationError>(
                    AnnotationError::UnknownTier { tier },
                ),
                Some(i) => if self@.tiers[i].tier is Interval {
                    r matches Ok(v) && intervals_view(v@) == self@.tiers[i].tier.intervals().filter(
                        overlaps_window(spec_time_min(t0, t1), spec_time_max(t0, t1)),
                    )
                } else {
                    r == Err::<Vec<Interval>, AnnotationError>(
                        AnnotationError::InvalidTierKind { tier, expected: TierKind::Interval },
                    )
                },
            },
    {
        let Some(i) = self.tier_position(tier) else {
            return Err(AnnotationError::UnknownTier { tier });
        };
        let slot = &self.tiers[i];
        assert(slot@ == self@.tiers[i as int]);
        match &slot.tier {
            Tier::Interval(t) => {
                let lo = time_min(t0, t1);
                let hi = time_max(t0, t1);
                let ghost all = intervals_view(t.intervals@);
                let ghost keep = overlaps_window(lo, hi);
                let mut out: Vec<Interval> = Vec::new();
                let mut k: usize = 0;
                while k < t.intervals.len()
                    invariant
                        k <= t.intervals.len(),
                        all == intervals_view(t.intervals@),
                        keep == overlaps_window(lo, hi),
                        intervals_view(out@) == all.take(k as int).filter(keep),
                    decreases t.intervals.len() - k,
                {
                    let iv = &t.intervals[k];
                    proof {
                        assert(all.take(k + 1) =~= all.take(k as int).push(all[k as int]));
                        all.take(k as int).lemma_filter_push(all[k as int], keep);
                        assert(all[k as int] == iv@);
                    }
                    if lo.lt(iv.xmax) && iv.xmin.lt(hi) {
                        let copy = iv.duplicate();
                        let ghost before = out@;
                        out.push(copy);
                        proof {
                            assert(intervals_view(out@) =~= intervals_view(before).push(iv@));
                        }
                    }
                    k += 1;
                }
                proof {
                    assert(all.take(all.len() as int) =~= all);
                }
                Ok(out)
            },
            Tier::Point(_) => Err(AnnotationError::InvalidTierKind { tier, expected: TierKind::Interval }),
        }
    }
}


impl Annotation {
    /// The points of point tier `tier` in the window from the earlier of `t0`
    /// and `t1` (inclusive) to the later (exclusive), in tier order.
    pub fn points_in_range(&self, tier: TierId, t0: Time, t1: Time) -> (r: Result<
        Vec<Point>,
        AnnotationError,
    >)
        ensures
            match first_tier(self@.tiers, tier) {
                None => r == Err::<Vec<Point>, AnnotationError>(
                    AnnotationError::UnknownTier { tier },
                ),
                Some(i) => if self@.tiers[i].tier is Point {
                    r matches Ok(v) && points_view(v@) == self@.tiers[i].tier.points().filter(
                        inside_window(spec_time_min(t0, t1), spec_time_max(t0, t1)),
                    )
                } else {
                    r == Err::<Vec<Point>, AnnotationError>(
                        AnnotationError::InvalidTierKind { tier, expected: TierKind::Point },
                    )
                },
            },
    {
        let Some(i) = self.tier_position(tier) else {
            return Err(AnnotationError::UnknownTier { tier });
        };
        let slot = &self.tiers[i];
        assert(slot@ == self@.tiers[i as int]);
        match &slot.tier {
            Tier::Point(t) => {
                let lo = time_min(t0, t1);
                let hi = time_max(t0, t1);
                let ghost all = points_view(t.points@);
                let ghost keep = inside_window(lo, hi);
                let mut out: Vec<Point> = Vec::new();
                let mut k: usize = 0;
                while k < t.points.len()
                    invariant
                        k <= t.points.len(),
                        all == points_view(t.points@),
                        keep == inside_window(lo, hi),
                        points_view(out@) == all.take(k as int).filter(keep),
                    decreases t.points.len() - k,
                {
                    let p = &t.points[k];
                    proof {
                        assert(all.take(k + 1) =~= all.take(k as int).push(all[k as int]));
                        all.take(k as int).lemma_filter_push(all[k as int], keep);
                        assert(all[k as int] == p@);
                    }
                    if lo.le(p.time) && p.time.lt(hi) {
                        let copy = p.duplicate();
                        let ghost before = out@;
                        out.push(copy);
                        proof {
                            assert(points_view(out@) =~= points_view(before).push(p@));
                        }
                    }
                    k += 1;
                }
                proof {
                    assert(all.take(all.len() as int) =~= all);
                }
                Ok(out)
            },
            Tier::Interval(_) => Err(AnnotationError::InvalidTierKind { tier, expected: TierKind::Point }),
        }
    }
}

} // verus!
