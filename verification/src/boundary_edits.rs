//! What boundary edits do to a document's value: the aligned-tier component
//! an edit spreads over, and the split, move and merge of boundaries.
use vstd::prelude::*;

use crate::ids::{BoundaryId, IntervalId, TierId};
use crate::issues::AnnotationError;
use crate::model::{
    tier_boundaries, tier_boundary_times, DocView, IntervalView, SlotView, TierKind,
    TierRelation, TierView,
};
use crate::edits::{first_tier, with_tier};
use crate::payloads::{BoundaryMove, TierMergeView};
use crate::time::Time;

verus! {

// ----------------------------------------------------------------------------
// Aligned component
// ----------------------------------------------------------------------------

/// What the aligned-component search reads of a tier: its id, its relation and
/// whether it is an interval tier.
pub open spec fn skeleton(tiers: Seq<SlotView>) -> Seq<(TierId, TierRelation, bool)> {
    tiers.map_values(|s: SlotView| (s.id, s.relation, s.tier is Interval))
}

/// Some tier carries `id`.
pub open spec fn sk_has(sk: Seq<(TierId, TierRelation, bool)>, id: TierId) -> bool {
    exists|j: int| 0 <= j < sk.len() && sk[j].0 == id
}

/// One pass over tiers `j..` growing the set `s` of aligned tier ids: every
/// aligned relation touching the set adds both of its ends. A touching
/// relation whose target is missing stops the search. The flag records growth.
pub open spec fn sk_pass(
    sk: Seq<(TierId, TierRelation, bool)>,
    j: int,
    s: Set<TierId>,
    grew: bool,
) -> Result<(Set<TierId>, bool), AnnotationError>
    decreases sk.len() - j,
{
    if j >= sk.len() || j < 0 {
        Ok((s, grew))
    } else {
        match sk[j].1 {
            TierRelation::AlignedBoundaries { with } => if s.contains(sk[j].0) || s.contains(with) {
                if !sk_has(sk, with) {
                    Err(AnnotationError::UnknownTier { tier: with })
                } else {
                    sk_pass(
                        sk,
                        j + 1,
                        s.insert(sk[j].0).insert(with),
                        grew || !s.contains(sk[j].0) || !s.contains(with),
                    )
                }
            } else {
                sk_pass(sk, j + 1, s, grew)
            },
            _ => sk_pass(sk, j + 1, s, grew),
        }
    }
}

/// Passes repeated until one adds nothing (at most `fuel` more passes).
pub open spec fn sk_closure(sk: Seq<(TierId, TierRelation, bool)>, s: Set<TierId>, fuel: nat) -> Result<
    Set<TierId>,
    AnnotationError,
>
    decreases fuel,
{
    match sk_pass(sk, 0, s, false) {
        Err(e) => Err(e),
        Ok((s2, grew)) => if !grew || fuel == 0 {
            Ok(s2)
        } else {
            sk_closure(sk, s2, (fuel - 1) as nat)
        },
    }
}

/// Positions `j..` of the tiers whose id is in `s`, in order; a non-interval
/// member stops the collection.
pub open spec fn sk_members(sk: Seq<(TierId, TierRelation, bool)>, s: Set<TierId>, j: int) -> Result<
    Seq<int>,
    AnnotationError,
>
    decreases sk.len() - j,
{
    if j >= sk.len() || j < 0 {
        Ok(Seq::empty())
    } else if s.contains(sk[j].0) {
        if !sk[j].2 {
            Err(AnnotationError::InvalidTierKind { tier: sk[j].0, expected: TierKind::Interval })
        } else {
            match sk_members(sk, s, j + 1) {
                Err(e) => Err(e),
                Ok(rest) => Ok(seq![j] + rest),
            }
        }
    } else {
        sk_members(sk, s, j + 1)
    }
}

/// Position of the first tier carrying `id` in a skeleton.
pub open spec fn sk_first(sk: Seq<(TierId, TierRelation, bool)>, id: TierId) -> Option<int> {
    if exists|k: int|
        0 <= k < sk.len() && sk[k].0 == id && (forall|j: int| 0 <= j < k ==> sk[j].0 != id) {
        Some(
            choose|k: int|
                0 <= k < sk.len() && sk[k].0 == id && (forall|j: int| 0 <= j < k ==> sk[j].0 != id),
        )
    } else {
        None
    }
}

/// Positions of the interval tiers aligned with `tier`, in document order.
pub open spec fn spec_aligned_indices(sk: Seq<(TierId, TierRelation, bool)>, tier: TierId) -> Result<
    Seq<int>,
    AnnotationError,
> {
    match sk_first(sk, tier) {
        None => Err(AnnotationError::UnknownTier { tier }),
        Some(i) => if !sk[i].2 {
            Err(AnnotationError::InvalidTierKind { tier, expected: TierKind::Interval })
        } else {
            match sk_closure(sk, set![tier], (sk.len() + 1) as nat) {
                Err(e) => Err(e),
                Ok(s) => sk_members(sk, s, 0),
            }
        },
    }
}

// ----------------------------------------------------------------------------
// Locating boundaries
// ----------------------------------------------------------------------------

/// An interval tier lists boundary `id`.
pub open spec fn lists_boundary(t: TierView, id: BoundaryId) -> bool {
    t is Interval && exists|m: int|
        0 <= m < tier_boundaries(t.intervals()).len() && tier_boundaries(t.intervals())[m].0 == id
}

/// `i` is the first tier listing boundary `id`.
pub open spec fn is_boundary_home(tiers: Seq<SlotView>, id: BoundaryId, i: int) -> bool {
    &&& 0 <= i < tiers.len()
    &&& lists_boundary(tiers[i].tier, id)
    &&& forall|j: int| 0 <= j < i ==> !lists_boundary(tiers[j].tier, id)
}

/// `m` is the first position of boundary `id` in a boundary list.
pub open spec fn is_first_listing(b: Seq<(BoundaryId, Time)>, id: BoundaryId, m: int) -> bool {
    &&& 0 <= m < b.len()
    &&& b[m].0 == id
    &&& forall|j: int| 0 <= j < m ==> b[j].0 != id
}

/// The tier and time of boundary `id`: the first tier listing it, at the time
/// of its first listing there.
pub open spec fn boundary_location(tiers: Seq<SlotView>, id: BoundaryId) -> Option<(TierId, Time)> {
    if exists|i: int| is_boundary_home(tiers, id, i) {
        let i = choose|i: int| is_boundary_home(tiers, id, i);
        let b = tier_boundaries(tiers[i].tier.intervals());
        let m = choose|m: int| is_first_listing(b, id, m);
        Some((tiers[i].id, b[m].1))
    } else {
        None
    }
}

/// `k` is the first interior boundary of `s` at exactly `at`: interval `k`
/// ends there and interval `k + 1` starts there.
pub open spec fn is_interior_at(s: Seq<IntervalView>, at: Time, k: int) -> bool {
    &&& 0 <= k && k + 1 < s.len()
    &&& s[k].xmax == at
    &&& s[k + 1].xmin == at
    &&& forall|j: int| 0 <= j < k ==> !(s[j].xmax == at && s[j + 1].xmin == at)
}

/// Position of the first interior boundary at `at`.
pub open spec fn interior_at(s: Seq<IntervalView>, at: Time) -> Option<int> {
    if exists|k: int| is_interior_at(s, at, k) {
        Some(choose|k: int| is_interior_at(s, at, k))
    } else {
        None
    }
}

/// The interval payload of a tier replaced.
pub open spec fn with_intervals(t: TierView, s: Seq<IntervalView>) -> TierView {
    match t {
        TierView::Interval { name, .. } => TierView::Interval { name, intervals: s },
        TierView::Point { .. } => t,
    }
}

// ----------------------------------------------------------------------------
// Splitting
// ----------------------------------------------------------------------------

/// `k` is the first interval strictly containing `at`.
pub open spec fn is_split_at(s: Seq<IntervalView>, at: Time, k: int) -> bool {
    &&& 0 <= k < s.len()
    &&& s[k].xmin.spec_lt(at) && at.spec_lt(s[k].xmax)
    &&& forall|j: int| 0 <= j < k ==> !(s[j].xmin.spec_lt(at) && at.spec_lt(s[j].xmax))
}

/// Position of the first interval strictly containing `at`.
pub open spec fn split_position(s: Seq<IntervalView>, at: Time) -> Option<int> {
    if exists|k: int| is_split_at(s, at, k) {
        Some(choose|k: int| is_split_at(s, at, k))
    } else {
        None
    }
}

/// Splitting the intervals of tier `tier` at `at`, the new boundary and the
/// new right-hand interval taking ids `nb` and `ni`.
pub open spec fn split_tier(
    s: Seq<IntervalView>,
    at: Time,
    nb: BoundaryId,
    ni: IntervalId,
    tier: TierId,
) -> Result<Seq<IntervalView>, AnnotationError> {
    match split_position(s, at) {
        None => if tier_boundary_times(s).contains(at) {
            Err(AnnotationError::BoundaryAlreadyExists { tier, at })
        } else {
            Err(AnnotationError::BoundaryOutsideInterval { tier, at })
        },
        Some(k) => {
            let o = s[k];
            Ok(
                s.update(k, IntervalView { end_boundary: nb, xmax: at, ..o }).insert(
                    k + 1,
                    IntervalView {
                        id: ni,
                        start_boundary: nb,
                        end_boundary: o.end_boundary,
                        xmin: at,
                        xmax: o.xmax,
                        label: o.label,
                    },
                ),
            )
        },
    }
}

/// Splitting each tier of `idxs` in turn at `at`, drawing boundary and interval
/// ids upward from `nb` and `ni`.
pub open spec fn split_all(d: DocView, idxs: Seq<int>, at: Time, nb: int, ni: int) -> Result<
    DocView,
    AnnotationError,
>
    decreases idxs.len(),
{
    if idxs.len() == 0 {
        Ok(d)
    } else {
        let i = idxs[0];
        if !(0 <= i < d.tiers.len()) {
            Ok(d)
        } else if !(d.tiers[i].tier is Interval) {
            Err(AnnotationError::InvalidTierKind { tier: d.tiers[i].id, expected: TierKind::Interval })
        } else {
            match split_tier(
                d.tiers[i].tier.intervals(),
                at,
                BoundaryId(nb as u64),
                IntervalId(ni as u64),
                d.tiers[i].id,
            ) {
                Err(e) => Err(e),
                Ok(s) => split_all(
                    with_tier(d, i, with_intervals(d.tiers[i].tier, s)),
                    idxs.drop_first(),
                    at,
                    nb + 1,
                    ni + 1,
                ),
            }
        }
    }
}

/// Last position in `idxs` of a tier carrying `tier`.
pub open spec fn last_with_id(tiers: Seq<SlotView>, idxs: Seq<int>, tier: TierId) -> Option<int>
    decreases idxs.len(),
{
    if idxs.len() == 0 {
        None
    } else if 0 <= idxs.last() < tiers.len() && tiers[idxs.last()].id == tier {
        Some(idxs.len() - 1)
    } else {
        last_with_id(tiers, idxs.drop_last(), tier)
    }
}

// ----------------------------------------------------------------------------
// Moving
// ----------------------------------------------------------------------------

/// Moving the interior boundary at `at` of tier `tier` to `to`: the new
/// intervals and the move record.
pub open spec fn move_in_tier(s: Seq<IntervalView>, tier: TierId, at: Time, to: Time) -> Result<
    (Seq<IntervalView>, BoundaryMove),
    AnnotationError,
> {
    match interior_at(s, at) {
        None => Err(AnnotationError::UnknownBoundaryAt { tier, at }),
        Some(k) => if to.spec_le(s[k].xmin) || s[k + 1].xmax.spec_le(to) {
            Err(AnnotationError::BoundaryWouldCollapseInterval { tier, at: to })
        } else {
            Ok(
                (
                    s.update(k, IntervalView { xmax: to, ..s[k] }).update(
                        k + 1,
                        IntervalView { xmin: to, ..s[k + 1] },
                    ),
                    BoundaryMove { tier, boundary: s[k].end_boundary, from: at, to },
                ),
            )
        },
    }
}

/// Moving the boundary at `at` to `to` in each tier of `idxs` in turn.
pub open spec fn move_all(d: DocView, idxs: Seq<int>, at: Time, to: Time) -> Result<
    (DocView, Seq<BoundaryMove>),
    AnnotationError,
>
    decreases idxs.len(),
{
    if idxs.len() == 0 {
        Ok((d, Seq::empty()))
    } else {
        let i = idxs[0];
        if !(0 <= i < d.tiers.len()) {
            Ok((d, Seq::empty()))
        } else if !(d.tiers[i].tier is Interval) {
            Err(AnnotationError::InvalidTierKind { tier: d.tiers[i].id, expected: TierKind::Interval })
        } else {
            match move_in_tier(d.tiers[i].tier.intervals(), d.tiers[i].id, at, to) {
                Err(e) => Err(e),
                Ok((s, mv)) => match move_all(
                    with_tier(d, i, with_intervals(d.tiers[i].tier, s)),
                    idxs.drop_first(),
                    at,
                    to,
                ) {
                    Err(e) => Err(e),
                    Ok((d2, moves)) => Ok((d2, seq![mv] + moves)),
                },
            }
        }
    }
}

/// The tiers a boundary move spreads over: the aligned component when linked,
/// the boundary's own tier alone otherwise (refused when it has aligned peers).
pub open spec fn move_targets(
    tiers: Seq<SlotView>,
    id: BoundaryId,
    tier: TierId,
    linked: bool,
) -> Result<Seq<int>, AnnotationError> {
    match spec_aligned_indices(skeleton(tiers), tier) {
        Err(e) => Err(e),
        Ok(idxs) => if linked {
            Ok(idxs)
        } else if idxs.len() > 1 {
            Err(AnnotationError::AlignedBoundaryRequiresLinkedMode { boundary: id })
        } else {
            match first_tier(tiers, tier) {
                None => Err(AnnotationError::UnknownTier { tier }),
                Some(i) => Ok(seq![i]),
            }
        }
    }
}

// ----------------------------------------------------------------------------
// Merging
// ----------------------------------------------------------------------------

/// Removing the interior boundary at `at` of tier `tier`: the new intervals
/// and the merge record.
pub open spec fn merge_in_tier(s: Seq<IntervalView>, tier: TierId, at: Time) -> Result<
    (Seq<IntervalView>, TierMergeView),
    AnnotationError,
> {
    match interior_at(s, at) {
        None => Err(AnnotationError::BoundaryAtDomainEdge { tier, at }),
        Some(k) => {
            let left = s[k];
            let right = s[k + 1];
            let merged = IntervalView {
                id: left.id,
                start_boundary: left.start_boundary,
                end_boundary: right.end_boundary,
                xmin: left.xmin,
                xmax: right.xmax,
                label: left.label,
            };
            Ok(
                (
                    s.subrange(0, k).push(merged) + s.subrange(k + 2, s.len() as int),
                    TierMergeView {
                        tier,
                        boundary: left.end_boundary,
                        at,
                        left,
                        right,
                        merged,
                    },
                ),
            )
        },
    }
}

/// Merging at `at` in each tier of `idxs` in turn.
pub open spec fn merge_all(d: DocView, idxs: Seq<int>, at: Time) -> Result<
    (DocView, Seq<TierMergeView>),
    AnnotationError,
>
    decreases idxs.len(),
{
    if idxs.len() == 0 {
        Ok((d, Seq::empty()))
    } else {
        let i = idxs[0];
        if !(0 <= i < d.tiers.len()) {
            Ok((d, Seq::empty()))
        } else if !(d.tiers[i].tier is Interval) {
            Err(AnnotationError::InvalidTierKind { tier: d.tiers[i].id, expected: TierKind::Interval })
        } else {
            match merge_in_tier(d.tiers[i].tier.intervals(), d.tiers[i].id, at) {
                Err(e) => Err(e),
                Ok((s, m)) => match merge_all(
                    with_tier(d, i, with_intervals(d.tiers[i].tier, s)),
                    idxs.drop_first(),
                    at,
                ) {
                    Err(e) => Err(e),
                    Ok((d2, ms)) => Ok((d2, seq![m] + ms)),
                },
            }
        }
    }
}

/// Removing boundary `id`: the merged document and the merge records, before
/// the integrity check.
pub open spec fn spec_remove_boundary(d: DocView, id: BoundaryId) -> Result<
    (DocView, Seq<TierMergeView>),
    AnnotationError,
> {
    match boundary_location(d.tiers, id) {
        None => Err(AnnotationError::UnknownBoundary { boundary: id }),
        Some((tier, at)) => match spec_aligned_indices(skeleton(d.tiers), tier) {
            Err(e) => Err(e),
            Ok(idxs) => merge_all(d, idxs, at),
        },
    }
}

/// Moving boundary `id` to `to`: the moved document and the move records,
/// before the integrity check.
pub open spec fn spec_move_boundary(d: DocView, id: BoundaryId, to: Time, linked: bool) -> Result<
    (DocView, Seq<BoundaryMove>),
    AnnotationError,
> {
    match boundary_location(d.tiers, id) {
        None => Err(AnnotationError::UnknownBoundary { boundary: id }),
        Some((tier, at)) => match move_targets(d.tiers, id, tier, linked) {
            Err(e) => Err(e),
            Ok(idxs) => move_all(d, idxs, at, to),
        },
    }
}

/// Inserting a boundary into `tier` at `at`: the split document and the
/// position among the split tiers of the one carrying `tier`, before the
/// integrity check. New ids are drawn from `nb` and `ni`.
pub open spec fn spec_insert_boundary(d: DocView, tier: TierId, at: Time, nb: int, ni: int) -> Result<
    (DocView, Seq<int>),
    AnnotationError,
> {
    match spec_aligned_indices(skeleton(d.tiers), tier) {
        Err(e) => Err(e),
        Ok(idxs) => match split_all(d, idxs, at, nb, ni) {
            Err(e) => Err(e),
            Ok(c) => Ok((c, idxs)),
        },
    }
}


// ----------------------------------------------------------------------------
// Facts about the component search
// ----------------------------------------------------------------------------

/// The ids the tiers carry.
pub open spec fn sk_ids(sk: Seq<(TierId, TierRelation, bool)>) -> Set<TierId> {
    Set::new(|t: TierId| sk_has(sk, t))
}

/// A pass only grows its set, stays among the tier ids, and reports growth
/// exactly when the set got larger.
pub proof fn lemma_pass(sk: Seq<(TierId, TierRelation, bool)>, j: int, s: Set<TierId>, grew: bool)
    requires
        s.finite(),
        s.subset_of(sk_ids(sk)),
        0 <= j,
    ensures
        sk_pass(sk, j, s, grew) matches Ok((s2, g2)) ==> {
            &&& s.subset_of(s2)
            &&& s2.finite()
            &&& s2.subset_of(sk_ids(sk))
            &&& (g2 ==> grew || s2.len() > s.len())
            &&& (!g2 ==> !grew && s2 == s)
        },
    decreases sk.len() - j,
{
    if j >= sk.len() {
    } else {
        match sk[j].1 {
            TierRelation::AlignedBoundaries { with } => {
                if s.contains(sk[j].0) || s.contains(with) {
                    if sk_has(sk, with) {
                        let s1 = s.insert(sk[j].0).insert(with);
                        assert(sk_has(sk, sk[j].0));
                        assert(s1.subset_of(sk_ids(sk)));
                        lemma_pass(sk, j + 1, s1, grew || !s.contains(sk[j].0) || !s.contains(with));
                        if !s.contains(sk[j].0) {
                            assert(s.insert(sk[j].0).len() == s.len() + 1);
                            vstd::set_lib::lemma_len_subset(s.insert(sk[j].0), s1);
                        } else if !s.contains(with) {
                            assert(s1 == s.insert(with));
                        } else {
                            assert(s1 =~= s);
                        }
                        if let Ok((s2, g2)) = sk_pass(sk, j + 1, s1, grew || !s.contains(sk[j].0) || !s.contains(with)) {
                            if g2 {
                                if !grew && s.contains(sk[j].0) && s.contains(with) {
                                    assert(s1 =~= s);
                                } else if !grew {
                                    vstd::set_lib::lemma_len_subset(s1, s2);
                                }
                            }
                        }
                    }
                } else {
                    lemma_pass(sk, j + 1, s, grew);
                }
            },
            _ => {
                lemma_pass(sk, j + 1, s, grew);
            },
        }
    }
}

/// At most as many tier ids as tiers.
pub proof fn lemma_sk_ids_len(sk: Seq<(TierId, TierRelation, bool)>)
    ensures
        sk_ids(sk).finite(),
        sk_ids(sk).len() <= sk.len(),
{
    let ids = sk.map_values(|e: (TierId, TierRelation, bool)| e.0);
    assert(sk_ids(sk) =~= ids.to_set()) by {
        assert forall|t: TierId| sk_ids(sk).contains(t) implies ids.to_set().contains(t) by {
            let j = choose|j: int| 0 <= j < sk.len() && sk[j].0 == t;
            assert(ids[j] == t);
        }
        assert forall|t: TierId| ids.to_set().contains(t) implies sk_ids(sk).contains(t) by {
            let j = choose|j: int| 0 <= j < ids.len() && ids[j] == t;
            assert(sk[j].0 == t);
        }
    }
    ids.lemma_cardinality_of_set();
}

/// The members collected from position `j` on are positions `j..` of the
/// skeleton in increasing order, so there are at most as many as tiers left.
pub proof fn lemma_members_bounded(sk: Seq<(TierId, TierRelation, bool)>, s: Set<TierId>, j: int)
    requires
        0 <= j <= sk.len(),
    ensures
        sk_members(sk, s, j) matches Ok(idxs) ==> {
            &&& idxs.len() <= sk.len() - j
            &&& forall|k: int| 0 <= k < idxs.len() ==> j <= #[trigger] idxs[k] < sk.len()
        },
    decreases sk.len() - j,
{
    if j < sk.len() {
        lemma_members_bounded(sk, s, j + 1);
    }
}

/// The position `last_with_id` reports lies within the list.
pub proof fn lemma_last_with_id_bounded(tiers: Seq<SlotView>, idxs: Seq<int>, tier: TierId)
    ensures
        last_with_id(tiers, idxs, tier) matches Some(q) ==> 0 <= q < idxs.len(),
    decreases idxs.len(),
{
    if idxs.len() > 0 {
        lemma_last_with_id_bounded(tiers, idxs.drop_last(), tier);
    }
}

// ----------------------------------------------------------------------------
// What a split keeps
// ----------------------------------------------------------------------------

/// `s2` is `s` with interval `k`, which strictly contains `at`, cut at
/// `at`: the left piece keeps the interval's id, start and label and ends at
/// the new boundary `nb`; the right piece, interval `ni`, starts at `nb`,
/// keeps the interval's end and carries the same label; every other
/// interval stays as it was, in order.
pub open spec fn split_shape(
    s: Seq<IntervalView>,
    s2: Seq<IntervalView>,
    at: Time,
    nb: BoundaryId,
    ni: IntervalId,
    k: int,
) -> bool {
    &&& 0 <= k < s.len()
    &&& s2.len() == s.len() + 1
    &&& s[k].xmin.spec_lt(at) && at.spec_lt(s[k].xmax)
    &&& s2[k].label == s[k].label
    &&& s2[k + 1].label == s[k].label
    &&& s2[k].xmin == s[k].xmin && s2[k].xmax == at
    &&& s2[k + 1].xmin == at && s2[k + 1].xmax == s[k].xmax
    &&& s2[k].id == s[k].id && s2[k + 1].id == ni
    &&& s2[k].start_boundary == s[k].start_boundary && s2[k].end_boundary == nb
    &&& s2[k + 1].start_boundary == nb && s2[k + 1].end_boundary == s[k].end_boundary
    &&& forall|j: int| 0 <= j < k ==> #[trigger] s2[j] == s[j]
    &&& forall|j: int| k + 1 < j < s2.len() ==> #[trigger] s2[j] == s[j - 1]
}

/// Splitting a tier's intervals at `at` cuts one interval that strictly
/// contains `at` into two that meet at `at`: the left keeps the cut
/// interval's id and start, the right takes the new ids and keeps its end,
/// and both carry its label; every other interval stays as it was, in
/// order.
pub proof fn law_split_keeps_labels(s: Seq<IntervalView>, at: Time, nb: BoundaryId, ni: IntervalId, tier: TierId)
    requires
        split_tier(s, at, nb, ni, tier) is Ok,
    ensures
        ({
            let s2 = split_tier(s, at, nb, ni, tier)->Ok_0;
            exists|k: int| split_shape(s, s2, at, nb, ni, k)
        }),
{
    let k = split_position(s, at)->Some_0;
    assert(is_split_at(s, at, k));
    let s2 = split_tier(s, at, nb, ni, tier)->Ok_0;
    assert forall|j: int| 0 <= j < k implies #[trigger] s2[j] == s[j] by {}
    assert forall|j: int| k + 1 < j < s2.len() implies #[trigger] s2[j] == s[j - 1] by {}
    assert(s2[k].label == s[k].label);
    assert(split_shape(s, s2, at, nb, ni, k));
}

/// `x` carries the label of an interval of `b` whose span, by order key,
/// contains its own.
pub open spec fn labelled_piece(x: IntervalView, b: Seq<IntervalView>) -> bool {
    exists|m: int|
        0 <= m < b.len() && (#[trigger] b[m]).label == x.label && b[m].xmin.key <= x.xmin.key
            && x.xmax.key <= b[m].xmax.key
}

/// Each interval of `a` is a labelled piece of an interval of `b`.
pub open spec fn labelled_within(a: Seq<IntervalView>, b: Seq<IntervalView>) -> bool {
    forall|q: int| 0 <= q < a.len() ==> labelled_piece(#[trigger] a[q], b)
}

/// Tier by tier, `c` keeps the ids of `d` and its intervals are labelled
/// pieces of the intervals of `d`.
pub open spec fn tiers_labelled_within(c: Seq<SlotView>, d: Seq<SlotView>) -> bool {
    &&& c.len() == d.len()
    &&& forall|j: int|
        0 <= j < c.len() ==> (#[trigger] c[j]).id == d[j].id && labelled_within(
            c[j].tier.intervals(),
            d[j].tier.intervals(),
        )
}

proof fn lemma_labelled_within_refl(a: Seq<IntervalView>)
    ensures
        labelled_within(a, a),
{
    assert forall|q: int| 0 <= q < a.len() implies labelled_piece(#[trigger] a[q], a) by {
        assert(a[q].label == a[q].label);
    }
}

proof fn lemma_labelled_within_trans(a: Seq<IntervalView>, b: Seq<IntervalView>, c: Seq<IntervalView>)
    requires
        labelled_within(a, b),
        labelled_within(b, c),
    ensures
        labelled_within(a, c),
{
    assert forall|q: int| 0 <= q < a.len() implies labelled_piece(#[trigger] a[q], c) by {
        assert(labelled_piece(a[q], b));
        let m1 = choose|m: int|
            0 <= m < b.len() && (#[trigger] b[m]).label == a[q].label && b[m].xmin.key <= a[q].xmin.key
                && a[q].xmax.key <= b[m].xmax.key;
        assert(labelled_piece(b[m1], c));
        let m2 = choose|m: int|
            0 <= m < c.len() && (#[trigger] c[m]).label == b[m1].label && c[m].xmin.key <= b[m1].xmin.key
                && b[m1].xmax.key <= c[m].xmax.key;
        assert(c[m2].label == a[q].label);
    }
}

proof fn lemma_split_all_labelled(d: DocView, d0: Seq<SlotView>, idxs: Seq<int>, at: Time, nb: int, ni: int)
    requires
        tiers_labelled_within(d.tiers, d0),
        split_all(d, idxs, at, nb, ni) is Ok,
    ensures
        tiers_labelled_within(split_all(d, idxs, at, nb, ni)->Ok_0.tiers, d0),
    decreases idxs.len(),
{
    if idxs.len() > 0 {
        let i = idxs[0];
        if 0 <= i < d.tiers.len() {
            let s = d.tiers[i].tier.intervals();
            let nbb = BoundaryId(nb as u64);
            let nii = IntervalId(ni as u64);
            let s2 = split_tier(s, at, nbb, nii, d.tiers[i].id)->Ok_0;
            law_split_keeps_labels(s, at, nbb, nii, d.tiers[i].id);
            let k = choose|k: int| split_shape(s, s2, at, nbb, nii, k);
            assert(labelled_within(s2, s)) by {
                assert forall|q: int| 0 <= q < s2.len() implies labelled_piece(#[trigger] s2[q], s) by {
                    if q < k {
                        assert(s2[q] == s[q]);
                    } else if q == k {
                        assert(s[k].label == s2[q].label);
                    } else if q == k + 1 {
                        assert(s[k].label == s2[q].label);
                    } else {
                        assert(s2[q] == s[q - 1]);
                    }
                }
            }
            let t = with_intervals(d.tiers[i].tier, s2);
            let d2 = with_tier(d, i, t);
            assert(t.intervals() == s2);
            assert(tiers_labelled_within(d2.tiers, d0)) by {
                assert forall|j: int| 0 <= j < d2.tiers.len() implies (#[trigger] d2.tiers[j]).id
                    == d0[j].id && labelled_within(d2.tiers[j].tier.intervals(), d0[j].tier.intervals()) by {
                    assert(d.tiers[j].id == d0[j].id);
                    assert(labelled_within(d.tiers[j].tier.intervals(), d0[j].tier.intervals()));
                    if j == i {
                        lemma_labelled_within_trans(s2, s, d0[j].tier.intervals());
                    } else {
                        assert(d2.tiers[j] == d.tiers[j]);
                    }
                }
            }
            lemma_split_all_labelled(d2, d0, idxs.drop_first(), at, nb + 1, ni + 1);
        }
    }
}

/// Inserting a boundary keeps every tier's id in place and gives every
/// interval of the result the label of an interval of the same tier before
/// whose span contains it: a split never changes, clears or invents a label.
pub proof fn law_insert_boundary_keeps_labels(d: DocView, tier: TierId, at: Time, nb: int, ni: int)
    requires
        spec_insert_boundary(d, tier, at, nb, ni) is Ok,
    ensures
        tiers_labelled_within(spec_insert_boundary(d, tier, at, nb, ni)->Ok_0.0.tiers, d.tiers),
{
    let idxs = spec_aligned_indices(skeleton(d.tiers), tier)->Ok_0;
    assert forall|j: int| 0 <= j < d.tiers.len() implies (#[trigger] d.tiers[j]).id == d.tiers[j].id
        && labelled_within(d.tiers[j].tier.intervals(), d.tiers[j].tier.intervals()) by {
        lemma_labelled_within_refl(d.tiers[j].tier.intervals());
    }
    lemma_split_all_labelled(d, d.tiers, idxs, at, nb, ni);
}

} // verus!
