//! The journaled engine state: audio entries, annotation documents, and the
//! unified undo/redo journal every mutation goes through.
//!
//! Every applied command pushes one journal entry holding two fully resolved,
//! id-stable transitions: an undo that returns the state to what it was, and a
//! redo that reproduces the change. Both name objects by the stable ids
//! captured at apply time, never by replaying the original mutator, so undo
//! and redo never allocate fresh ids.
use vstd::prelude::*;

use crate::annotation::Annotation;
use crate::engine::{AnnotationId, AudioId, AudioSlots, Document, DocumentStore, EngineError};
use crate::ids::{BoundaryId, PointId, TierId};
use crate::issues::{AnnotationError, IntegrityIssue};
use crate::journal::{Journal, JournalEntry, Transition};
use crate::model::{AlignMode, DocView, LabelTarget, TierRelation, TierSlot};
use crate::integrity::{all_hold, doc_issues, violation_of};
use crate::payloads::{
    BoundaryMove, InverseMutation, InverseView, Merged, TierMerge, TierMergeView, merges_view,
};
use crate::search::{Hit, LabelQuery};
use crate::time::Time;

verus! {

/// What a successful command, undo, or redo changed, by stable id and, where a
/// frontend needs it to repaint, the spans that moved or merged.
#[derive(Debug)]
pub enum Applied {
    /// A buffer entered the audio store.
    AudioImported { audio: AudioId },
    /// A buffer left the store (an import undone).
    AudioRemoved { audio: AudioId },
    /// A buffer's display name changed.
    AudioRenamed { audio: AudioId, name: String },
    /// A buffer left the live set together with the documents annotating it.
    AudioDetached { audio: AudioId, annotations: Vec<AnnotationId> },
    /// A detached buffer returned together with its documents.
    AudioRestored { audio: AudioId, annotations: Vec<AnnotationId> },
    /// A document was attached to audio.
    AnnotationAttached { annotation: AnnotationId, audio: AudioId },
    /// A document was detached (an attachment undone).
    AnnotationDetached { annotation: AnnotationId },
    /// A tier entered a document.
    TierAdded { annotation: AnnotationId, tier: TierId },
    /// A tier left a document.
    TierRemoved { annotation: AnnotationId, tier: TierId },
    /// A tier moved to another position in document order.
    TierReordered { annotation: AnnotationId, tier: TierId, to_index: usize },
    /// A boundary was inserted, splitting one interval into two.
    BoundaryInserted { annotation: AnnotationId, tier: TierId, boundary: BoundaryId, at: Time },
    /// One or more boundaries moved.
    BoundaryMoved { annotation: AnnotationId, moves: Vec<BoundaryMove> },
    /// A boundary was removed, merging two intervals per affected tier.
    BoundaryRemoved { annotation: AnnotationId, boundary: BoundaryId },
    /// A boundary was restored, re-splitting merged intervals.
    BoundaryRestored { annotation: AnnotationId, merges: Vec<TierMerge> },
    /// An interval or point label changed.
    LabelSet { annotation: AnnotationId, target: LabelTarget, text: String },
    /// A point entered a tier.
    PointInserted { annotation: AnnotationId, tier: TierId, point: PointId, at: Time },
    /// A point moved.
    PointMoved { annotation: AnnotationId, point: PointId, to: Time },
    /// A point left its tier.
    PointRemoved { annotation: AnnotationId, point: PointId },
}

/// Value of an `Applied` report.
#[allow(inconsistent_fields)]
pub enum AppliedView {
    AudioImported { audio: AudioId },
    AudioRemoved { audio: AudioId },
    AudioRenamed { audio: AudioId, name: Seq<char> },
    AudioDetached { audio: AudioId, annotations: Seq<AnnotationId> },
    AudioRestored { audio: AudioId, annotations: Seq<AnnotationId> },
    AnnotationAttached { annotation: AnnotationId, audio: AudioId },
    AnnotationDetached { annotation: AnnotationId },
    TierAdded { annotation: AnnotationId, tier: TierId },
    TierRemoved { annotation: AnnotationId, tier: TierId },
    TierReordered { annotation: AnnotationId, tier: TierId, to_index: int },
    BoundaryInserted { annotation: AnnotationId, tier: TierId, boundary: BoundaryId, at: Time },
    BoundaryMoved { annotation: AnnotationId, moves: Seq<BoundaryMove> },
    BoundaryRemoved { annotation: AnnotationId, boundary: BoundaryId },
    BoundaryRestored { annotation: AnnotationId, merges: Seq<TierMergeView> },
    LabelSet { annotation: AnnotationId, target: LabelTarget, text: Seq<char> },
    PointInserted { annotation: AnnotationId, tier: TierId, point: PointId, at: Time },
    PointMoved { annotation: AnnotationId, point: PointId, to: Time },
    PointRemoved { annotation: AnnotationId, point: PointId },
}

impl View for Applied {
    type V = AppliedView;

    open spec fn view(&self) -> AppliedView {
        match self {
            Applied::AudioImported { audio } => AppliedView::AudioImported { audio: *audio },
            Applied::AudioRemoved { audio } => AppliedView::AudioRemoved { audio: *audio },
            Applied::AudioRenamed { audio, name } => AppliedView::AudioRenamed {
                audio: *audio,
                name: name@,
            },
            Applied::AudioDetached { audio, annotations } => AppliedView::AudioDetached {
                audio: *audio,
                annotations: annotations@,
            },
            Applied::AudioRestored { audio, annotations } => AppliedView::AudioRestored {
                audio: *audio,
                annotations: annotations@,
            },
            Applied::AnnotationAttached { annotation, audio } => AppliedView::AnnotationAttached {
                annotation: *annotation,
                audio: *audio,
            },
            Applied::AnnotationDetached { annotation } => AppliedView::AnnotationDetached {
                annotation: *annotation,
            },
            Applied::TierAdded { annotation, tier } => AppliedView::TierAdded {
                annotation: *annotation,
                tier: *tier,
            },
            Applied::TierRemoved { annotation, tier } => AppliedView::TierRemoved {
                annotation: *annotation,
                tier: *tier,
            },
            Applied::TierReordered { annotation, tier, to_index } => AppliedView::TierReordered {
                annotation: *annotation,
                tier: *tier,
                to_index: *to_index as int,
            },
            Applied::BoundaryInserted { annotation, tier, boundary, at } =>
                AppliedView::BoundaryInserted {
                annotation: *annotation,
                tier: *tier,
                boundary: *boundary,
                at: *at,
            },
            Applied::BoundaryMoved { annotation, moves } => AppliedView::BoundaryMoved {
                annotation: *annotation,
                moves: moves@,
            },
            Applied::BoundaryRemoved { annotation, boundary } => AppliedView::BoundaryRemoved {
                annotation: *annotation,
                boundary: *boundary,
            },
            Applied::BoundaryRestored { annotation, merges } => AppliedView::BoundaryRestored {
                annotation: *annotation,
                merges: merges_view(merges@),
            },
            Applied::LabelSet { annotation, target, text } => AppliedView::LabelSet {
                annotation: *annotation,
                target: *target,
                text: text@,
            },
            Applied::PointInserted { annotation, tier, point, at } => AppliedView::PointInserted {
                annotation: *annotation,
                tier: *tier,
                point: *point,
                at: *at,
            },
            Applied::PointMoved { annotation, point, to } => AppliedView::PointMoved {
                annotation: *annotation,
                point: *point,
                to: *to,
            },
            Applied::PointRemoved { annotation, point } => AppliedView::PointRemoved {
                annotation: *annotation,
                point: *point,
            },
        }
    }
}

/// A label search hit paired with the document it was found in.
#[derive(Clone, Copy, Debug, PartialEq, Eq, Structural)]
pub struct EngineHit {
    /// Document containing the match.
    pub annotation: AnnotationId,
    /// Match location within that document.
    pub hit: Hit,
}

/// The moves with each boundary's from and to swapped: the motion an inverse
/// of the moves performs.
pub open spec fn swapped_moves(moves: Seq<BoundaryMove>) -> Seq<BoundaryMove> {
    moves.map_values(
        |m: BoundaryMove| BoundaryMove { tier: m.tier, boundary: m.boundary, from: m.to, to: m.from },
    )
}

/// Swaps the from and to of every move.
fn swap_moves(moves: &Vec<BoundaryMove>) -> (r: Vec<BoundaryMove>)
    ensures
        r@ == swapped_moves(moves@),
{
    let mut r: Vec<BoundaryMove> = Vec::new();
    let mut k: usize = 0;
    while k < moves.len()
        invariant
            k <= moves.len(),
            r@ == swapped_moves(moves@).take(k as int),
        decreases moves.len() - k,
    {
        let m = moves[k];
        r.push(BoundaryMove { tier: m.tier, boundary: m.boundary, from: m.to, to: m.from });
        assert(swapped_moves(moves@).take(k as int + 1) =~= swapped_moves(moves@).take(k as int).push(
            BoundaryMove { tier: m.tier, boundary: m.boundary, from: m.to, to: m.from },
        ));
        k += 1;
    }
    assert(swapped_moves(moves@).take(k as int) =~= swapped_moves(moves@));
    r
}

/// The report a content inverse produces: the same shape of change the
/// forward command reported, naming the ids the inverse carries.
pub open spec fn content_applied(doc: AnnotationId, m: InverseView) -> AppliedView {
    match m {
        InverseView::RemoveBoundary { boundary } => AppliedView::BoundaryRemoved {
            annotation: doc,
            boundary,
        },
        InverseView::MoveBoundaries { moves } => AppliedView::BoundaryMoved {
            annotation: doc,
            moves: swapped_moves(moves),
        },
        InverseView::RestoreMergedBoundary { merges } => AppliedView::BoundaryRestored {
            annotation: doc,
            merges,
        },
        InverseView::SetLabel { target, text } => AppliedView::LabelSet {
            annotation: doc,
            target,
            text,
        },
        InverseView::RemovePoint { point } => AppliedView::PointRemoved { annotation: doc, point },
        InverseView::RestorePoint { tier, point } => AppliedView::PointInserted {
            annotation: doc,
            tier,
            point: point.id,
            at: point.time,
        },
        InverseView::MovePoint { point, to } => AppliedView::PointMoved { annotation: doc, point, to },
        InverseView::ReorderTier { tier, to_index } => AppliedView::TierReordered {
            annotation: doc,
            tier,
            to_index,
        },
    }
}

/// Describes the effect of a content inverse for a frontend patch.
///
/// The inverse carries enough to name the affected ids without re-reading the
/// document; a move inverse drives each boundary from its stored `to` back to
/// its stored `from`, so that real motion is what is reported.
pub fn applied_for_content(doc: AnnotationId, mutation: &InverseMutation) -> (r: Applied)
    ensures
        r@ == content_applied(doc, mutation@),
{
    match mutation {
        InverseMutation::RemoveBoundary { boundary } => Applied::BoundaryRemoved {
            annotation: doc,
            boundary: *boundary,
        },
        InverseMutation::MoveBoundaries { moves } => Applied::BoundaryMoved {
            annotation: doc,
            moves: swap_moves(moves),
        },
        InverseMutation::RestoreMergedBoundary { merged } => Applied::BoundaryRestored {
            annotation: doc,
            merges: merged.duplicate().merges,
        },
        InverseMutation::SetLabel { target, text } => Applied::LabelSet {
            annotation: doc,
            target: *target,
            text: text.clone(),
        },
        InverseMutation::RemovePoint { point } => Applied::PointRemoved {
            annotation: doc,
            point: *point,
        },
        InverseMutation::RestorePoint { tier, point } => Applied::PointInserted {
            annotation: doc,
            tier: *tier,
            point: point.id,
            at: point.time,
        },
        InverseMutation::MovePoint { point, to } => Applied::PointMoved {
            annotation: doc,
            point: *point,
            to: *to,
        },
        InverseMutation::ReorderTier { tier, to_index } => Applied::TierReordered {
            annotation: doc,
            tier: *tier,
            to_index: *to_index,
        },
    }
}

/// A single journaled mutation of engine state.
#[allow(inconsistent_fields)]
#[derive(Debug)]
pub enum Command<E> {
    /// Add a decoded audio entry to the audio store.
    ImportAudio {
        /// The entry the store keeps for the buffer.
        audio: E,
    },
    /// Attach an annotation document to a stored audio buffer.
    AttachAnnotation {
        /// Audio buffer the document annotates.
        audio: AudioId,
        /// Annotation content; validated before it enters the store.
        annotation: Annotation,
    },
    /// Add an interval tier holding one unlabeled interval over the domain.
    AddIntervalTier { annotation: AnnotationId, name: String, relation: TierRelation },
    /// Add a point tier with sorted, strictly increasing point times.
    AddPointTier {
        annotation: AnnotationId,
        name: String,
        points: Vec<(Time, String)>,
        relation: TierRelation,
    },
    /// Remove a tier and everything it holds.
    RemoveTier { annotation: AnnotationId, tier: TierId },
    /// Split an interval by inserting a boundary at `at` seconds.
    InsertBoundary { annotation: AnnotationId, tier: TierId, at: Time },
    /// Move a boundary to `to` seconds.
    MoveBoundary { annotation: AnnotationId, boundary: BoundaryId, to: Time, mode: AlignMode },
    /// Remove an interior boundary, merging its two intervals.
    RemoveBoundary { annotation: AnnotationId, boundary: BoundaryId },
    /// Replace an interval or point label.
    SetLabel { annotation: AnnotationId, target: LabelTarget, text: String },
    /// Insert a point into a point tier.
    InsertPoint { annotation: AnnotationId, tier: TierId, time: Time, label: String },
    /// Move a point to `to` seconds.
    MovePoint { annotation: AnnotationId, point: PointId, to: Time },
    /// Remove a point.
    RemovePoint { annotation: AnnotationId, point: PointId },
    /// Move a tier to another position in document order.
    ReorderTier { annotation: AnnotationId, tier: TierId, to_index: usize },
}

/// A resolved, id-stable state transition in one direction.
#[allow(inconsistent_fields)]
#[derive(Debug)]
pub enum Reverse<E> {
    /// Reinsert a previously removed audio entry under its original id.
    ImportAudio { id: AudioId, audio: E },
    /// Remove an audio entry.
    RemoveAudio { id: AudioId },
    /// Reattach a previously detached document under its original id.
    Attach { id: AnnotationId, document: Document },
    /// Detach a document.
    Detach { id: AnnotationId },
    /// Reinstate a tier at a fixed position, restoring every stable id it held.
    InsertTier { doc: AnnotationId, index: usize, slot: TierSlot },
    /// Remove a tier.
    RemoveTier { doc: AnnotationId, tier: TierId },
    /// Apply an id-stable content inverse to a document.
    Content { doc: AnnotationId, mutation: InverseMutation },
}

/// A document's value together with its identifier generators.
pub type AnnState = (DocView, (u64, u64, u64, u64));

/// Value of a transition; an audio entry to reinsert is named by its id only.
#[allow(inconsistent_fields)]
pub enum ReverseView {
    ImportAudio { id: AudioId },
    RemoveAudio { id: AudioId },
    Attach { id: AnnotationId, audio: AudioId, state: AnnState },
    Detach { id: AnnotationId },
    InsertTier { doc: AnnotationId, index: int, slot: crate::model::SlotView },
    RemoveTier { doc: AnnotationId, tier: TierId },
    Content { doc: AnnotationId, mutation: InverseView },
}

impl<E> View for Reverse<E> {
    type V = ReverseView;

    open spec fn view(&self) -> ReverseView {
        match self {
            Reverse::ImportAudio { id, .. } => ReverseView::ImportAudio { id: *id },
            Reverse::RemoveAudio { id } => ReverseView::RemoveAudio { id: *id },
            Reverse::Attach { id, document } => ReverseView::Attach {
                id: *id,
                audio: document.audio,
                state: (document.annotation@, document.annotation.next_ids()),
            },
            Reverse::Detach { id } => ReverseView::Detach { id: *id },
            Reverse::InsertTier { doc, index, slot } => ReverseView::InsertTier {
                doc: *doc,
                index: *index as int,
                slot: slot@,
            },
            Reverse::RemoveTier { doc, tier } => ReverseView::RemoveTier { doc: *doc, tier: *tier },
            Reverse::Content { doc, mutation } => ReverseView::Content {
                doc: *doc,
                mutation: mutation@,
            },
        }
    }
}

/// Why a command or transition was refused.
pub enum Refusal {
    /// This exact error.
    Engine(EngineError),
    /// The edit would leave the document invalid, as `doc`: an annotation
    /// integrity violation naming the first issue found, a rule `doc` breaks.
    Integrity { doc: DocView },
    /// A rebuilt or offered document, `doc`, failed validation: the list of
    /// all its issues in scan order, never empty, each a rule `doc` breaks.
    Rejected { doc: DocView },
}

/// The error a refusal stands for.
pub open spec fn refused_with(e: EngineError, f: Refusal) -> bool {
    match f {
        Refusal::Engine(x) => e == x,
        Refusal::Integrity { doc } => e matches EngineError::Annotation(x) && violation_of(doc, x),
        Refusal::Rejected { doc } => e matches EngineError::InvalidAnnotation(issues)
            && issues@ == doc_issues(doc) && issues.len() > 0 && all_hold(doc, issues@, 0),
    }
}

/// An annotation's value together with its identifier generators.
pub open spec fn ann_state(a: Annotation) -> AnnState {
    (a@, a.next_ids())
}

// ----------------------------------------------------------------------------
// Rebuilding documents tier by tier
// ----------------------------------------------------------------------------

/// The tiers left after removing every tier carrying `tier`.
pub open spec fn without_tier(tiers: Seq<crate::model::SlotView>, tier: TierId) -> Seq<
    crate::model::SlotView,
>
    decreases tiers.len(),
{
    if tiers.len() == 0 {
        tiers
    } else if tiers.last().id != tier {
        without_tier(tiers.drop_last(), tier).push(tiers.last())
    } else {
        without_tier(tiers.drop_last(), tier)
    }
}

/// The tiers with `slot` inserted at `index`, clamped to the end.
pub open spec fn with_tier_at(
    tiers: Seq<crate::model::SlotView>,
    index: int,
    slot: crate::model::SlotView,
) -> Seq<crate::model::SlotView> {
    tiers.insert(if index < tiers.len() { index } else { tiers.len() as int }, slot)
}

/// Rebuilding a document from tiers: the new state when it validates.
pub open spec fn rebuilt(d: DocView, tiers: Seq<crate::model::SlotView>) -> Option<AnnState> {
    let d2 = DocView { tiers, ..d };
    if d2.valid() {
        Some((d2, crate::model::reseeded_ids(tiers)))
    } else {
        None
    }
}

/// Fails with the document's issues when it is invalid.
fn reject_invalid(annotation: Annotation) -> (r: Result<Annotation, EngineError>)
    ensures
        annotation@.valid() ==> (r matches Ok(a) && a == annotation),
        !annotation@.valid() ==> refused_with(r->Err_0, Refusal::Rejected { doc: annotation@ })
            && r is Err,
{
    let issues = annotation.validate();
    if issues.len() == 0 {
        Ok(annotation)
    } else {
        Err(EngineError::InvalidAnnotation(issues))
    }
}

/// Rebuilds a document with `slot` reinserted at `index` (clamped to the
/// end), keeping every other tier and stable id, then rejects the result if
/// it fails validation.
pub fn insert_tier(annotation: &Annotation, index: usize, slot: TierSlot) -> (r: Result<
    Annotation,
    EngineError,
>)
    requires
        crate::model::ids_below_max(with_tier_at(annotation@.tiers, index as int, slot@)),
    ensures
        match rebuilt(annotation@, with_tier_at(annotation@.tiers, index as int, slot@)) {
            Some(st) => r matches Ok(a) && ann_state(a) == st,
            None => r is Err && refused_with(
                r->Err_0,
                Refusal::Rejected {
                    doc: (DocView {
                        tiers: with_tier_at(annotation@.tiers, index as int, slot@),
                        ..annotation@
                    }),
                },
            ),
        },
{
    let mut tiers = crate::model::duplicate_slots_of(annotation.tiers());
    let index = if index < tiers.len() {
        index
    } else {
        tiers.len()
    };
    let ghost before = tiers@;
    let ghost sv = slot@;
    tiers.insert(index, slot);
    proof {
        assert(crate::model::slots_view(tiers@) =~= crate::model::slots_view(before).insert(
            index as int,
            sv,
        ));
    }
    let rebuilt = Annotation::from_raw(annotation.xmin(), annotation.xmax(), tiers);
    reject_invalid(rebuilt)
}

/// Copies of the tiers that do not carry `tier`, in order.
fn tiers_without(source: &[TierSlot], tier: TierId) -> (r: Vec<TierSlot>)
    ensures
        crate::model::slots_view(r@) == without_tier(crate::model::slots_view(source@), tier),
{
    let ghost sv = crate::model::slots_view(source@);
    let mut tiers: Vec<TierSlot> = Vec::new();
    let mut k: usize = 0;
    while k < source.len()
        invariant
            k <= source.len(),
            sv == crate::model::slots_view(source@),
            crate::model::slots_view(tiers@) == without_tier(sv.take(k as int), tier),
        decreases source.len() - k,
    {
        proof {
            assert(sv.take(k as int + 1).drop_last() =~= sv.take(k as int));
            assert(sv.take(k as int + 1).last() == sv[k as int]);
        }
        if source[k].id != tier {
            let ghost before = tiers@;
            tiers.push(source[k].duplicate());
            proof {
                assert(crate::model::slots_view(tiers@) =~= crate::model::slots_view(before).push(
                    sv[k as int],
                ));
            }
        }
        k += 1;
    }
    proof {
        assert(sv.take(k as int) =~= sv);
    }
    tiers
}

/// Rebuilds a document with every tier carrying `tier` removed, keeping every
/// other tier and stable id, then rejects the result if it fails validation.
pub fn remove_tier(annotation: &Annotation, tier: TierId) -> (r: Result<Annotation, EngineError>)
    requires
        crate::model::ids_below_max(without_tier(annotation@.tiers, tier)),
    ensures
        !crate::model::has_tier(annotation@.tiers, tier) ==> r is Err && refused_with(
            r->Err_0,
            Refusal::Engine(EngineError::Annotation(AnnotationError::UnknownTier { tier })),
        ),
        crate::model::has_tier(annotation@.tiers, tier) ==> match rebuilt(
            annotation@,
            without_tier(annotation@.tiers, tier),
        ) {
            Some(st) => r matches Ok(a) && ann_state(a) == st,
            None => r is Err && refused_with(
                r->Err_0,
                Refusal::Rejected {
                    doc: (DocView { tiers: without_tier(annotation@.tiers, tier), ..annotation@ }),
                },
            ),
        },
{
    if annotation.tier_position(tier).is_none() {
        return Err(EngineError::Annotation(AnnotationError::UnknownTier { tier }));
    }
    let tiers = tiers_without(annotation.tiers(), tier);
    let rebuilt = Annotation::from_raw(annotation.xmin(), annotation.xmax(), tiers);
    reject_invalid(rebuilt)
}

/// A tier's document position and full slot, so undo or redo can reinstate it
/// with every stable id intact.
fn captured_tier(annotation: &Annotation, tier: TierId) -> (r: Result<(usize, TierSlot), EngineError>)
    ensures
        match crate::edits::first_tier(annotation@.tiers, tier) {
            Some(i) => r matches Ok((k, slot)) && k == i && slot@ == annotation@.tiers[i],
            None => r is Err && refused_with(
                r->Err_0,
                Refusal::Engine(EngineError::Annotation(AnnotationError::UnknownTier { tier })),
            ),
        },
{
    match annotation.tier_position(tier) {
        Some(i) => {
            let tiers = annotation.tiers();
            assert(tiers@[i as int]@ == annotation@.tiers[i as int]);
            Ok((i, tiers[i].duplicate()))
        },
        None => Err(EngineError::Annotation(AnnotationError::UnknownTier { tier })),
    }
}

// ----------------------------------------------------------------------------
// Document edits
// ----------------------------------------------------------------------------

/// The document a command edits, when it edits one.
pub open spec fn edit_target<E>(cmd: Command<E>) -> Option<AnnotationId> {
    match cmd {
        Command::ImportAudio { .. } => None,
        Command::AttachAnnotation { .. } => None,
        Command::AddIntervalTier { annotation, .. } => Some(annotation),
        Command::AddPointTier { annotation, .. } => Some(annotation),
        Command::RemoveTier { annotation, .. } => Some(annotation),
        Command::InsertBoundary { annotation, .. } => Some(annotation),
        Command::MoveBoundary { annotation, .. } => Some(annotation),
        Command::RemoveBoundary { annotation, .. } => Some(annotation),
        Command::SetLabel { annotation, .. } => Some(annotation),
        Command::InsertPoint { annotation, .. } => Some(annotation),
        Command::MovePoint { annotation, .. } => Some(annotation),
        Command::RemovePoint { annotation, .. } => Some(annotation),
        Command::ReorderTier { annotation, .. } => Some(annotation),
    }
}

/// What a document edit needs so that no identifier generator overflows.
pub open spec fn edit_fits<E>(st: AnnState, cmd: Command<E>) -> bool {
    let (d, n) = st;
    match cmd {
        Command::AddIntervalTier { .. } => n.0 < u64::MAX && n.1 + 1 < u64::MAX && n.2 < u64::MAX,
        Command::AddPointTier { points, .. } => n.0 < u64::MAX && n.3 + points.len() <= u64::MAX,
        Command::RemoveTier { tier, .. } => crate::model::ids_below_max(without_tier(d.tiers, tier)),
        Command::InsertBoundary { .. } => n.1 + d.tiers.len() < u64::MAX && n.2 + d.tiers.len()
            < u64::MAX,
        Command::InsertPoint { .. } => n.3 < u64::MAX,
        _ => true,
    }
}

/// A successful edit: its report and the undo and redo transitions it records.
pub type EditDone = (AppliedView, ReverseView, ReverseView);

/// An edit refused before anything changed.
pub open spec fn refuse(st: AnnState, f: Refusal) -> (AnnState, Result<EditDone, Refusal>) {
    (st, Err(f))
}

/// An annotation error refusing an edit.
pub open spec fn annotation_refusal(e: AnnotationError) -> Refusal {
    Refusal::Engine(EngineError::Annotation(e))
}

/// What a document edit does to document `a`: the new document state and the
/// report with its transitions, or the refusal.
pub open spec fn edit_outcome<E>(a: AnnotationId, st: AnnState, cmd: Command<E>) -> (
    AnnState,
    Result<EditDone, Refusal>,
) {
    let (d, n) = st;
    match cmd {
        Command::AddIntervalTier { name, relation, .. } => {
            let slot = crate::edits::new_interval_slot(d, name@, relation, n.0, n.1, n.2);
            let d2 = DocView { tiers: d.tiers.push(slot), ..d };
            if !d2.valid() {
                refuse(st, Refusal::Integrity { doc: d2 })
            } else {
                let tier = TierId(n.0);
                match crate::edits::first_tier(d2.tiers, tier) {
                    None => (
                        (d2, ((n.0 + 1) as u64, (n.1 + 2) as u64, (n.2 + 1) as u64, n.3)),
                        Err(annotation_refusal(AnnotationError::UnknownTier { tier })),
                    ),
                    Some(i) => (
                        (d2, ((n.0 + 1) as u64, (n.1 + 2) as u64, (n.2 + 1) as u64, n.3)),
                        Ok(
                            (
                                AppliedView::TierAdded { annotation: a, tier },
                                ReverseView::RemoveTier { doc: a, tier },
                                ReverseView::InsertTier { doc: a, index: i, slot: d2.tiers[i] },
                            ),
                        ),
                    ),
                }
            }
        },
        Command::AddPointTier { name, points, relation, .. } => {
            let given = points@.map_values(|p: (Time, String)| (p.0, p.1@));
            let labels = given.map_values(|p: (Time, Seq<char>)| p.1);
            match crate::edits::first_dirty_label(labels) {
                Some(k) => refuse(
                    st,
                    annotation_refusal(crate::undo::control_error(labels[k])->Some_0),
                ),
                None => {
                    let slot = crate::model::SlotView {
                        id: TierId(n.0),
                        relation,
                        tier: crate::model::TierView::Point {
                            name: name@,
                            points: crate::edits::stored_points(given, n.3 as int),
                        },
                    };
                    let d2 = DocView { tiers: d.tiers.push(slot), ..d };
                    let n2 = ((n.0 + 1) as u64, n.1, n.2, (n.3 + points.len()) as u64);
                    if !d2.valid() {
                        refuse(st, Refusal::Integrity { doc: d2 })
                    } else {
                        let tier = TierId(n.0);
                        match crate::edits::first_tier(d2.tiers, tier) {
                            None => (
                                (d2, n2),
                                Err(annotation_refusal(AnnotationError::UnknownTier { tier })),
                            ),
                            Some(i) => (
                                (d2, n2),
                                Ok(
                                    (
                                        AppliedView::TierAdded { annotation: a, tier },
                                        ReverseView::RemoveTier { doc: a, tier },
                                        ReverseView::InsertTier {
                                            doc: a,
                                            index: i,
                                            slot: d2.tiers[i],
                                        },
                                    ),
                                ),
                            ),
                        }
                    }
                },
            }
        },
        Command::RemoveTier { tier, .. } => match crate::edits::first_tier(d.tiers, tier) {
            None => refuse(st, annotation_refusal(AnnotationError::UnknownTier { tier })),
            Some(i) => match rebuilt(d, without_tier(d.tiers, tier)) {
                None => refuse(
                    st,
                    Refusal::Rejected { doc: DocView { tiers: without_tier(d.tiers, tier), ..d } },
                ),
                Some(st2) => (
                    st2,
                    Ok(
                        (
                            AppliedView::TierRemoved { annotation: a, tier },
                            ReverseView::InsertTier { doc: a, index: i, slot: d.tiers[i] },
                            ReverseView::RemoveTier { doc: a, tier },
                        ),
                    ),
                ),
            },
        },
        Command::InsertBoundary { tier, at, .. } => if !at.spec_is_finite() {
            refuse(
                st,
                annotation_refusal(
                    AnnotationError::NonFiniteTime {
                        value: at,
                        context: crate::model::TimeRole::Boundary,
                    },
                ),
            )
        } else {
            match crate::boundary_edits::spec_insert_boundary(d, tier, at, n.1 as int, n.2 as int) {
                Err(e) => refuse(st, annotation_refusal(e)),
                Ok((c, idxs)) => if !c.valid() {
                    refuse(st, Refusal::Integrity { doc: c })
                } else {
                    match crate::boundary_edits::last_with_id(d.tiers, idxs, tier) {
                        None => refuse(st, annotation_refusal(AnnotationError::UnknownTier { tier })),
                        Some(q) => {
                            let b = BoundaryId((n.1 + q) as u64);
                            let st2 = (
                                c,
                                (n.0, (n.1 + idxs.len()) as u64, (n.2 + idxs.len()) as u64, n.3),
                            );
                            match crate::boundary_edits::spec_remove_boundary(c, b) {
                                Err(e) => (st2, Err(annotation_refusal(e))),
                                Ok((c3, ms)) => if !c3.valid() {
                                    (st2, Err(Refusal::Integrity { doc: c3 }))
                                } else {
                                    (
                                        st2,
                                        Ok(
                                            (
                                                AppliedView::BoundaryInserted {
                                                    annotation: a,
                                                    tier,
                                                    boundary: b,
                                                    at,
                                                },
                                                ReverseView::Content {
                                                    doc: a,
                                                    mutation: InverseView::RemoveBoundary {
                                                        boundary: b,
                                                    },
                                                },
                                                ReverseView::Content {
                                                    doc: a,
                                                    mutation: InverseView::RestoreMergedBoundary {
                                                        merges: ms,
                                                    },
                                                },
                                            ),
                                        ),
                                    )
                                },
                            }
                        },
                    }
                },
            }
        },
        Command::MoveBoundary { boundary, to, mode, .. } => if !to.spec_is_finite() {
            refuse(
                st,
                annotation_refusal(
                    AnnotationError::NonFiniteTime {
                        value: to,
                        context: crate::model::TimeRole::Boundary,
                    },
                ),
            )
        } else {
            match crate::boundary_edits::spec_move_boundary(d, boundary, to, mode == AlignMode::Linked) {
                Err(e) => refuse(st, annotation_refusal(e)),
                Ok((c, moves)) => if !c.valid() {
                    refuse(st, Refusal::Integrity { doc: c })
                } else {
                    (
                        (c, n),
                        Ok(
                            (
                                AppliedView::BoundaryMoved { annotation: a, moves },
                                ReverseView::Content {
                                    doc: a,
                                    mutation: InverseView::MoveBoundaries { moves },
                                },
                                ReverseView::Content {
                                    doc: a,
                                    mutation: InverseView::MoveBoundaries {
                                        moves: swapped_moves(moves),
                                    },
                                },
                            ),
                        ),
                    )
                },
            }
        },
        Command::RemoveBoundary { boundary, .. } => match crate::boundary_edits::spec_remove_boundary(
            d,
            boundary,
        ) {
            Err(e) => refuse(st, annotation_refusal(e)),
            Ok((c, ms)) => if !c.valid() {
                refuse(st, Refusal::Integrity { doc: c })
            } else {
                (
                    (c, n),
                    Ok(
                        (
                            AppliedView::BoundaryRemoved { annotation: a, boundary },
                            ReverseView::Content {
                                doc: a,
                                mutation: InverseView::RestoreMergedBoundary { merges: ms },
                            },
                            ReverseView::Content {
                                doc: a,
                                mutation: InverseView::RemoveBoundary { boundary },
                            },
                        ),
                    ),
                )
            },
        },
        Command::SetLabel { target, text, .. } => match crate::undo::control_error(text@) {
            Some(e) => refuse(st, annotation_refusal(e)),
            None => match crate::edits::spec_replace_label(d, target, text@) {
                Err(e) => refuse(st, annotation_refusal(e)),
                Ok((c, old)) => if !c.valid() {
                    refuse(st, Refusal::Integrity { doc: c })
                } else {
                    (
                        (c, n),
                        Ok(
                            (
                                AppliedView::LabelSet { annotation: a, target, text: text@ },
                                ReverseView::Content {
                                    doc: a,
                                    mutation: InverseView::SetLabel { target, text: old },
                                },
                                ReverseView::Content {
                                    doc: a,
                                    mutation: InverseView::SetLabel { target, text: text@ },
                                },
                            ),
                        ),
                    )
                },
            },
        },
        Command::InsertPoint { tier, time, label, .. } => if !time.spec_is_finite() {
            refuse(
                st,
                annotation_refusal(
                    AnnotationError::NonFiniteTime {
                        value: time,
                        context: crate::model::TimeRole::Point,
                    },
                ),
            )
        } else {
            match crate::undo::control_error(label@) {
                Some(e) => refuse(st, annotation_refusal(e)),
                None => {
                    let p = crate::model::PointView { id: PointId(n.3), time, label: label@ };
                    match crate::edits::spec_insert_point(d, tier, p) {
                        Err(e) => refuse(st, annotation_refusal(e)),
                        Ok(c) => if !c.valid() {
                            refuse(st, Refusal::Integrity { doc: c })
                        } else {
                            (
                                (c, (n.0, n.1, n.2, (n.3 + 1) as u64)),
                                Ok(
                                    (
                                        AppliedView::PointInserted {
                                            annotation: a,
                                            tier,
                                            point: p.id,
                                            at: time,
                                        },
                                        ReverseView::Content {
                                            doc: a,
                                            mutation: InverseView::RemovePoint { point: p.id },
                                        },
                                        ReverseView::Content {
                                            doc: a,
                                            mutation: InverseView::RestorePoint { tier, point: p },
                                        },
                                    ),
                                ),
                            )
                        },
                    }
                },
            }
        },
        Command::MovePoint { point, to, .. } => if !to.spec_is_finite() {
            refuse(
                st,
                annotation_refusal(
                    AnnotationError::NonFiniteTime {
                        value: to,
                        context: crate::model::TimeRole::Point,
                    },
                ),
            )
        } else {
            match crate::edits::spec_move_point(d, point, to) {
                Err(e) => refuse(st, annotation_refusal(e)),
                Ok((c, _, from)) => if !c.valid() {
                    refuse(st, Refusal::Integrity { doc: c })
                } else {
                    (
                        (c, n),
                        Ok(
                            (
                                AppliedView::PointMoved { annotation: a, point, to },
                                ReverseView::Content {
                                    doc: a,
                                    mutation: InverseView::MovePoint { point, to: from },
                                },
                                ReverseView::Content {
                                    doc: a,
                                    mutation: InverseView::MovePoint { point, to },
                                },
                            ),
                        ),
                    )
                },
            }
        },
        Command::RemovePoint { point, .. } => match crate::edits::spec_remove_point(d, point) {
            Err(e) => refuse(st, annotation_refusal(e)),
            Ok((c, tier, p)) => if !c.valid() {
                refuse(st, Refusal::Integrity { doc: c })
            } else {
                (
                    (c, n),
                    Ok(
                        (
                            AppliedView::PointRemoved { annotation: a, point },
                            ReverseView::Content {
                                doc: a,
                                mutation: InverseView::RestorePoint { tier, point: p },
                            },
                            ReverseView::Content {
                                doc: a,
                                mutation: InverseView::RemovePoint { point },
                            },
                        ),
                    ),
                )
            },
        },
        Command::ReorderTier { tier, to_index, .. } => match crate::edits::spec_reorder_tier(
            d,
            tier,
            to_index as int,
        ) {
            Err(e) => refuse(st, annotation_refusal(e)),
            Ok((c, from, to)) => if !c.valid() {
                refuse(st, Refusal::Integrity { doc: c })
            } else {
                (
                    (c, n),
                    Ok(
                        (
                            AppliedView::TierReordered { annotation: a, tier, to_index: to },
                            ReverseView::Content {
                                doc: a,
                                mutation: InverseView::ReorderTier { tier, to_index: from },
                            },
                            ReverseView::Content {
                                doc: a,
                                mutation: InverseView::ReorderTier { tier, to_index: to },
                            },
                        ),
                    ),
                )
            },
        },
        _ => refuse(st, Refusal::Integrity { doc: d }),
    }
}

/// A successful edit as values: its report and transitions.
pub open spec fn edit_done<E>(r: (Applied, Transition<Reverse<E>>), done: EditDone) -> bool {
    &&& r.0@ == done.0
    &&& r.1.undo@ == done.1
    &&& r.1.redo@ == done.2
}

/// The transitions recording a content edit.
fn content_pair<E>(a: AnnotationId, undo: InverseMutation, redo: InverseMutation) -> (t: Transition<
    Reverse<E>,
>)
    ensures
        t.undo@ == (ReverseView::Content { doc: a, mutation: undo@ }),
        t.redo@ == (ReverseView::Content { doc: a, mutation: redo@ }),
{
    Transition {
        undo: Reverse::Content { doc: a, mutation: undo },
        redo: Reverse::Content { doc: a, mutation: redo },
    }
}

/// The `AddIntervalTier` edit of document `a`.
fn edit_add_interval_tier<E>(a: AnnotationId, ann: &mut Annotation, name: String, relation: TierRelation) -> (r: Result<
    (Applied, Transition<Reverse<E>>),
    EngineError,
>)
    requires
        edit_fits(ann_state(*old(ann)), Command::<E>::AddIntervalTier { annotation: a, name, relation }),
    ensures
        ann_state(*final(ann)) == edit_outcome(a, ann_state(*old(ann)), Command::<E>::AddIntervalTier { annotation: a, name, relation }).0,
        match edit_outcome(a, ann_state(*old(ann)), Command::<E>::AddIntervalTier { annotation: a, name, relation }).1 {
            Ok(done) => r matches Ok(x) && edit_done(x, done),
            Err(f) => r is Err && refused_with(r->Err_0, f),
        },
{
    let tier = match ann.add_interval_tier(name.as_str(), relation) {
        Ok(t) => t,
        Err(e) => return Err(EngineError::Annotation(e)),
    };
    let (index, slot) = match captured_tier(ann, tier) {
        Ok(x) => x,
        Err(e) => return Err(e),
    };
    Ok(
        (
            Applied::TierAdded { annotation: a, tier },
            Transition {
                undo: Reverse::RemoveTier { doc: a, tier },
                redo: Reverse::InsertTier { doc: a, index, slot },
            },
        ),
    )
}

/// The `AddPointTier` edit of document `a`.
fn edit_add_point_tier<E>(a: AnnotationId, ann: &mut Annotation, name: String, points: Vec<(Time, String)>, relation: TierRelation) -> (r: Result<
    (Applied, Transition<Reverse<E>>),
    EngineError,
>)
    requires
        edit_fits(ann_state(*old(ann)), Command::<E>::AddPointTier { annotation: a, name, points, relation }),
    ensures
        ann_state(*final(ann)) == edit_outcome(a, ann_state(*old(ann)), Command::<E>::AddPointTier { annotation: a, name, points, relation }).0,
        match edit_outcome(a, ann_state(*old(ann)), Command::<E>::AddPointTier { annotation: a, name, points, relation }).1 {
            Ok(done) => r matches Ok(x) && edit_done(x, done),
            Err(f) => r is Err && refused_with(r->Err_0, f),
        },
{
    let tier = match ann.add_point_tier(name.as_str(), points, relation) {
        Ok(t) => t,
        Err(e) => return Err(EngineError::Annotation(e)),
    };
    let (index, slot) = match captured_tier(ann, tier) {
        Ok(x) => x,
        Err(e) => return Err(e),
    };
    Ok(
        (
            Applied::TierAdded { annotation: a, tier },
            Transition {
                undo: Reverse::RemoveTier { doc: a, tier },
                redo: Reverse::InsertTier { doc: a, index, slot },
            },
        ),
    )
}

/// The `RemoveTier` edit of document `a`.
fn edit_remove_tier<E>(a: AnnotationId, ann: &mut Annotation, tier: TierId) -> (r: Result<
    (Applied, Transition<Reverse<E>>),
    EngineError,
>)
    requires
        edit_fits(ann_state(*old(ann)), Command::<E>::RemoveTier { annotation: a, tier }),
    ensures
        ann_state(*final(ann)) == edit_outcome(a, ann_state(*old(ann)), Command::<E>::RemoveTier { annotation: a, tier }).0,
        match edit_outcome(a, ann_state(*old(ann)), Command::<E>::RemoveTier { annotation: a, tier }).1 {
            Ok(done) => r matches Ok(x) && edit_done(x, done),
            Err(f) => r is Err && refused_with(r->Err_0, f),
        },
{
    let (index, slot) = match captured_tier(ann, tier) {
        Ok(x) => x,
        Err(e) => return Err(e),
    };
    let reduced = match remove_tier(ann, tier) {
        Ok(x) => x,
        Err(e) => return Err(e),
    };
    *ann = reduced;
    Ok(
        (
            Applied::TierRemoved { annotation: a, tier },
            Transition {
                undo: Reverse::InsertTier { doc: a, index, slot },
                redo: Reverse::RemoveTier { doc: a, tier },
            },
        ),
    )
}

/// The `InsertBoundary` edit of document `a`.
fn edit_insert_boundary<E>(a: AnnotationId, ann: &mut Annotation, tier: TierId, at: Time) -> (r: Result<
    (Applied, Transition<Reverse<E>>),
    EngineError,
>)
    requires
        edit_fits(ann_state(*old(ann)), Command::<E>::InsertBoundary { annotation: a, tier, at }),
    ensures
        ann_state(*final(ann)) == edit_outcome(a, ann_state(*old(ann)), Command::<E>::InsertBoundary { annotation: a, tier, at }).0,
        match edit_outcome(a, ann_state(*old(ann)), Command::<E>::InsertBoundary { annotation: a, tier, at }).1 {
            Ok(done) => r matches Ok(x) && edit_done(x, done),
            Err(f) => r is Err && refused_with(r->Err_0, f),
        },
{
    let boundary = match ann.insert_boundary(tier, at) {
        Ok(b) => b,
        Err(e) => return Err(EngineError::Annotation(e)),
    };
    let mut probe = ann.duplicate();
    let merged = match probe.remove_boundary(boundary) {
        Ok(m) => m,
        Err(e) => return Err(EngineError::Annotation(e)),
    };
    Ok(
        (
            Applied::BoundaryInserted { annotation: a, tier, boundary, at },
            content_pair(
                a,
                InverseMutation::RemoveBoundary { boundary },
                InverseMutation::RestoreMergedBoundary { merged },
            ),
        ),
    )
}

/// The `MoveBoundary` edit of document `a`.
fn edit_move_boundary<E>(a: AnnotationId, ann: &mut Annotation, boundary: BoundaryId, to: Time, mode: AlignMode) -> (r: Result<
    (Applied, Transition<Reverse<E>>),
    EngineError,
>)
    requires
        edit_fits(ann_state(*old(ann)), Command::<E>::MoveBoundary { annotation: a, boundary, to, mode }),
    ensures
        ann_state(*final(ann)) == edit_outcome(a, ann_state(*old(ann)), Command::<E>::MoveBoundary { annotation: a, boundary, to, mode }).0,
        match edit_outcome(a, ann_state(*old(ann)), Command::<E>::MoveBoundary { annotation: a, boundary, to, mode }).1 {
            Ok(done) => r matches Ok(x) && edit_done(x, done),
            Err(f) => r is Err && refused_with(r->Err_0, f),
        },
{
    let moved = match ann.move_boundary(boundary, to, mode) {
        Ok(m) => m,
        Err(e) => return Err(EngineError::Annotation(e)),
    };
    let redo_moves = swap_moves(&moved.moves);
    let report = crate::payloads::copy_moves(&moved.moves);
    Ok(
        (
            Applied::BoundaryMoved { annotation: a, moves: report },
            content_pair(
                a,
                InverseMutation::MoveBoundaries { moves: moved.moves },
                InverseMutation::MoveBoundaries { moves: redo_moves },
            ),
        ),
    )
}

/// The `RemoveBoundary` edit of document `a`.
fn edit_remove_boundary<E>(a: AnnotationId, ann: &mut Annotation, boundary: BoundaryId) -> (r: Result<
    (Applied, Transition<Reverse<E>>),
    EngineError,
>)
    requires
        edit_fits(ann_state(*old(ann)), Command::<E>::RemoveBoundary { annotation: a, boundary }),
    ensures
        ann_state(*final(ann)) == edit_outcome(a, ann_state(*old(ann)), Command::<E>::RemoveBoundary { annotation: a, boundary }).0,
        match edit_outcome(a, ann_state(*old(ann)), Command::<E>::RemoveBoundary { annotation: a, boundary }).1 {
            Ok(done) => r matches Ok(x) && edit_done(x, done),
            Err(f) => r is Err && refused_with(r->Err_0, f),
        },
{
    let merged = match ann.remove_boundary(boundary) {
        Ok(m) => m,
        Err(e) => return Err(EngineError::Annotation(e)),
    };
    Ok(
        (
            Applied::BoundaryRemoved { annotation: a, boundary },
            content_pair(
                a,
                InverseMutation::RestoreMergedBoundary { merged },
                InverseMutation::RemoveBoundary { boundary },
            ),
        ),
    )
}

/// The `SetLabel` edit of document `a`.
fn edit_set_label<E>(a: AnnotationId, ann: &mut Annotation, target: LabelTarget, text: String) -> (r: Result<
    (Applied, Transition<Reverse<E>>),
    EngineError,
>)
    requires
        edit_fits(ann_state(*old(ann)), Command::<E>::SetLabel { annotation: a, target, text }),
    ensures
        ann_state(*final(ann)) == edit_outcome(a, ann_state(*old(ann)), Command::<E>::SetLabel { annotation: a, target, text }).0,
        match edit_outcome(a, ann_state(*old(ann)), Command::<E>::SetLabel { annotation: a, target, text }).1 {
            Ok(done) => r matches Ok(x) && edit_done(x, done),
            Err(f) => r is Err && refused_with(r->Err_0, f),
        },
{
    let change = match ann.set_label(target, text.as_str()) {
        Ok(c) => c,
        Err(e) => return Err(EngineError::Annotation(e)),
    };
    let reported = change.new_text.clone();
    Ok(
        (
            Applied::LabelSet { annotation: a, target, text: reported },
            content_pair(
                a,
                InverseMutation::SetLabel { target, text: change.old_text },
                InverseMutation::SetLabel { target, text: change.new_text },
            ),
        ),
    )
}

/// The `InsertPoint` edit of document `a`.
fn edit_insert_point<E>(a: AnnotationId, ann: &mut Annotation, tier: TierId, time: Time, label: String) -> (r: Result<
    (Applied, Transition<Reverse<E>>),
    EngineError,
>)
    requires
        edit_fits(ann_state(*old(ann)), Command::<E>::InsertPoint { annotation: a, tier, time, label }),
    ensures
        ann_state(*final(ann)) == edit_outcome(a, ann_state(*old(ann)), Command::<E>::InsertPoint { annotation: a, tier, time, label }).0,
        match edit_outcome(a, ann_state(*old(ann)), Command::<E>::InsertPoint { annotation: a, tier, time, label }).1 {
            Ok(done) => r matches Ok(x) && edit_done(x, done),
            Err(f) => r is Err && refused_with(r->Err_0, f),
        },
{
    let insertion = match ann.insert_point(tier, time, label.as_str()) {
        Ok(i) => i,
        Err(e) => return Err(EngineError::Annotation(e)),
    };
    let point = insertion.point;
    let id = point.id;
    let at = point.time;
    Ok(
        (
            Applied::PointInserted { annotation: a, tier, point: id, at },
            content_pair(
                a,
                InverseMutation::RemovePoint { point: id },
                InverseMutation::RestorePoint { tier, point },
            ),
        ),
    )
}

/// The `MovePoint` edit of document `a`.
fn edit_move_point<E>(a: AnnotationId, ann: &mut Annotation, point: PointId, to: Time) -> (r: Result<
    (Applied, Transition<Reverse<E>>),
    EngineError,
>)
    requires
        edit_fits(ann_state(*old(ann)), Command::<E>::MovePoint { annotation: a, point, to }),
    ensures
        ann_state(*final(ann)) == edit_outcome(a, ann_state(*old(ann)), Command::<E>::MovePoint { annotation: a, point, to }).0,
        match edit_outcome(a, ann_state(*old(ann)), Command::<E>::MovePoint { annotation: a, point, to }).1 {
            Ok(done) => r matches Ok(x) && edit_done(x, done),
            Err(f) => r is Err && refused_with(r->Err_0, f),
        },
{
    let moved = match ann.move_point(point, to) {
        Ok(m) => m,
        Err(e) => return Err(EngineError::Annotation(e)),
    };
    Ok(
        (
            Applied::PointMoved { annotation: a, point, to: moved.to },
            content_pair(
                a,
                InverseMutation::MovePoint { point, to: moved.from },
                InverseMutation::MovePoint { point, to: moved.to },
            ),
        ),
    )
}

/// The `RemovePoint` edit of document `a`.
fn edit_remove_point<E>(a: AnnotationId, ann: &mut Annotation, point: PointId) -> (r: Result<
    (Applied, Transition<Reverse<E>>),
    EngineError,
>)
    requires
        edit_fits(ann_state(*old(ann)), Command::<E>::RemovePoint { annotation: a, point }),
    ensures
        ann_state(*final(ann)) == edit_outcome(a, ann_state(*old(ann)), Command::<E>::RemovePoint { annotation: a, point }).0,
        match edit_outcome(a, ann_state(*old(ann)), Command::<E>::RemovePoint { annotation: a, point }).1 {
            Ok(done) => r matches Ok(x) && edit_done(x, done),
            Err(f) => r is Err && refused_with(r->Err_0, f),
        },
{
    let removal = match ann.remove_point(point) {
        Ok(r) => r,
        Err(e) => return Err(EngineError::Annotation(e)),
    };
    Ok(
        (
            Applied::PointRemoved { annotation: a, point },
            content_pair(
                a,
                InverseMutation::RestorePoint { tier: removal.tier, point: removal.point },
                InverseMutation::RemovePoint { point },
            ),
        ),
    )
}

/// The `ReorderTier` edit of document `a`.
fn edit_reorder_tier<E>(a: AnnotationId, ann: &mut Annotation, tier: TierId, to_index: usize) -> (r: Result<
    (Applied, Transition<Reverse<E>>),
    EngineError,
>)
    requires
        edit_fits(ann_state(*old(ann)), Command::<E>::ReorderTier { annotation: a, tier, to_index }),
    ensures
        ann_state(*final(ann)) == edit_outcome(a, ann_state(*old(ann)), Command::<E>::ReorderTier { annotation: a, tier, to_index }).0,
        match edit_outcome(a, ann_state(*old(ann)), Command::<E>::ReorderTier { annotation: a, tier, to_index }).1 {
            Ok(done) => r matches Ok(x) && edit_done(x, done),
            Err(f) => r is Err && refused_with(r->Err_0, f),
        },
{
    let reorder = match ann.reorder_tier(tier, to_index) {
        Ok(r) => r,
        Err(e) => return Err(EngineError::Annotation(e)),
    };
    Ok(
        (
            Applied::TierReordered { annotation: a, tier, to_index: reorder.to_index },
            content_pair(
                a,
                InverseMutation::ReorderTier { tier, to_index: reorder.from_index },
                InverseMutation::ReorderTier { tier, to_index: reorder.to_index },
            ),
        ),
    )
}

/// Runs a document edit on the annotation of document `a`, returning the
/// report and the transitions that reverse and reproduce it.
fn edit<E>(a: AnnotationId, ann: &mut Annotation, cmd: Command<E>) -> (r: Result<
    (Applied, Transition<Reverse<E>>),
    EngineError,
>)
    requires
        edit_target(cmd) == Some(a),
        edit_fits(ann_state(*old(ann)), cmd),
    ensures
        ann_state(*final(ann)) == edit_outcome(a, ann_state(*old(ann)), cmd).0,
        match edit_outcome(a, ann_state(*old(ann)), cmd).1 {
            Ok(done) => r matches Ok(x) && edit_done(x, done),
            Err(f) => r is Err && refused_with(r->Err_0, f),
        },
{
    match cmd {
        Command::AddIntervalTier { name, relation, .. } => edit_add_interval_tier::<E>(a, ann, name, relation),
        Command::AddPointTier { name, points, relation, .. } => edit_add_point_tier::<E>(a, ann, name, points, relation),
        Command::RemoveTier { tier, .. } => edit_remove_tier::<E>(a, ann, tier),
        Command::InsertBoundary { tier, at, .. } => edit_insert_boundary::<E>(a, ann, tier, at),
        Command::MoveBoundary { boundary, to, mode, .. } => edit_move_boundary::<E>(a, ann, boundary, to, mode),
        Command::RemoveBoundary { boundary, .. } => edit_remove_boundary::<E>(a, ann, boundary),
        Command::SetLabel { target, text, .. } => edit_set_label::<E>(a, ann, target, text),
        Command::InsertPoint { tier, time, label, .. } => edit_insert_point::<E>(a, ann, tier, time, label),
        Command::MovePoint { point, to, .. } => edit_move_point::<E>(a, ann, point, to),
        Command::RemovePoint { point, .. } => edit_remove_point::<E>(a, ann, point),
        Command::ReorderTier { tier, to_index, .. } => edit_reorder_tier::<E>(a, ann, tier, to_index),
        Command::ImportAudio { .. } => {
            proof {
                assert(false);
            }
            Err(EngineError::UnknownAnnotationId(a))
        },
        Command::AttachAnnotation { .. } => {
            proof {
                assert(false);
            }
            Err(EngineError::UnknownAnnotationId(a))
        },
    }
}

// ----------------------------------------------------------------------------
// Transitions
// ----------------------------------------------------------------------------

/// A document in the store as a value: the audio it annotates and its state.
pub type DocState = (AudioId, AnnState);

/// The identifier generators after applying a content inverse.
pub open spec fn ids_after_inverse(n: (u64, u64, u64, u64), c: DocView, m: InverseView) -> (
    u64,
    u64,
    u64,
    u64,
) {
    match m {
        InverseView::RestorePoint { .. } => crate::model::reseeded_ids(c.tiers),
        InverseView::RestoreMergedBoundary { merges } => if merges.len() == 0 {
            n
        } else {
            crate::model::reseeded_ids(c.tiers)
        },
        _ => n,
    }
}

/// What a transition does to the documents: the new document states and the
/// report, or the refusal (documents unchanged).
pub open spec fn reverse_outcome(docs: Map<u64, DocState>, rev: ReverseView) -> (
    Map<u64, DocState>,
    Result<AppliedView, Refusal>,
) {
    match rev {
        ReverseView::ImportAudio { id } => (docs, Ok(AppliedView::AudioImported { audio: id })),
        ReverseView::RemoveAudio { id } => (docs, Ok(AppliedView::AudioRemoved { audio: id })),
        ReverseView::Attach { id, audio, state } => (
            docs.insert(id.0, (audio, state)),
            Ok(AppliedView::AnnotationAttached { annotation: id, audio }),
        ),
        ReverseView::Detach { id } => (
            docs.remove(id.0),
            Ok(AppliedView::AnnotationDetached { annotation: id }),
        ),
        ReverseView::InsertTier { doc, index, slot } => if !docs.contains_key(doc.0) {
            (docs, Err(Refusal::Engine(EngineError::UnknownAnnotationId(doc))))
        } else {
            let (au, (d, _)) = docs[doc.0];
            match rebuilt(d, with_tier_at(d.tiers, index, slot)) {
                None => (
                    docs,
                    Err(
                        Refusal::Rejected {
                            doc: DocView { tiers: with_tier_at(d.tiers, index, slot), ..d },
                        },
                    ),
                ),
                Some(st) => (
                    docs.insert(doc.0, (au, st)),
                    Ok(AppliedView::TierAdded { annotation: doc, tier: slot.id }),
                ),
            }
        },
        ReverseView::RemoveTier { doc, tier } => if !docs.contains_key(doc.0) {
            (docs, Err(Refusal::Engine(EngineError::UnknownAnnotationId(doc))))
        } else {
            let (au, (d, _)) = docs[doc.0];
            if !crate::model::has_tier(d.tiers, tier) {
                (docs, Err(annotation_refusal(AnnotationError::UnknownTier { tier })))
            } else {
                match rebuilt(d, without_tier(d.tiers, tier)) {
                    None => (
                        docs,
                        Err(
                            Refusal::Rejected {
                                doc: DocView { tiers: without_tier(d.tiers, tier), ..d },
                            },
                        ),
                    ),
                    Some(st) => (
                        docs.insert(doc.0, (au, st)),
                        Ok(AppliedView::TierRemoved { annotation: doc, tier }),
                    ),
                }
            }
        },
        ReverseView::Content { doc, mutation } => if !docs.contains_key(doc.0) {
            (docs, Err(Refusal::Engine(EngineError::UnknownAnnotationId(doc))))
        } else {
            let (au, (d, n)) = docs[doc.0];
            match crate::undo::spec_apply_inverse(d, mutation) {
                Err(e) => (docs, Err(annotation_refusal(e))),
                Ok(c) => if !c.valid() {
                    (docs, Err(Refusal::Integrity { doc: c }))
                } else {
                    (
                        docs.insert(doc.0, (au, (c, ids_after_inverse(n, c, mutation)))),
                        Ok(content_applied(doc, mutation)),
                    )
                },
            }
        },
    }
}

/// What a transition needs so that no identifier generator overflows.
pub open spec fn reverse_fits(docs: Map<u64, DocState>, rev: ReverseView) -> bool {
    match rev {
        ReverseView::InsertTier { doc, index, slot } => docs.contains_key(doc.0)
            ==> crate::model::ids_below_max(with_tier_at(docs[doc.0].1.0.tiers, index, slot)),
        ReverseView::RemoveTier { doc, tier } => docs.contains_key(doc.0)
            ==> crate::model::ids_below_max(without_tier(docs[doc.0].1.0.tiers, tier)),
        ReverseView::Content { doc, mutation } => docs.contains_key(doc.0)
            ==> crate::undo::inverse_in_range(docs[doc.0].1.0, mutation),
        _ => true,
    }
}

/// The ids a transition reinstates were issued by the stores.
pub open spec fn reverse_issued(rev: ReverseView, audio_next: u64, doc_next: u64) -> bool {
    match rev {
        ReverseView::ImportAudio { id } => id.0 < audio_next,
        ReverseView::Attach { id, .. } => id.0 < doc_next,
        _ => true,
    }
}

/// A journal entry as a value: its id and its two transitions.
pub open spec fn entry_view<E>(e: JournalEntry<Reverse<E>>) -> (u64, ReverseView, ReverseView) {
    (e.id, e.undo@, e.redo@)
}

/// The journaled engine state: audio entries, annotation documents, and the
/// undo/redo journal.
pub struct Session<E> {
    store: AudioSlots<E>,
    documents: DocumentStore,
    journal: Journal<Reverse<E>>,
}

impl<E: Clone> Session<E> {
    /// The documents as values, by id.
    pub closed spec fn docs(&self) -> Map<u64, DocState> {
        doc_states(self.documents.docs())
    }

    /// The ids of the live audio entries.
    pub closed spec fn audio_ids(&self) -> Set<u64> {
        self.store.entries().dom()
    }

    /// The live audio entries by id.
    pub closed spec fn audio(&self) -> Map<u64, E> {
        self.store.entries()
    }

    /// The id the next audio entry receives.
    pub closed spec fn audio_next(&self) -> u64 {
        self.store.next_id()
    }

    /// The id the next document receives.
    pub closed spec fn doc_next(&self) -> u64 {
        self.documents.next_id()
    }

    /// The id the next journal entry receives.
    pub closed spec fn journal_next(&self) -> u64 {
        self.journal.next_id()
    }

    /// The audio entry, with its id, that redoing the newest undoable entry
    /// reinstates, when that entry is an import.
    pub closed spec fn undone_import(&self) -> Option<(AudioId, E)> {
        reimport_of(self.journal.undo_entries())
    }

    /// The audio entry, with its id, that the next redo reinstates, when that
    /// entry is an import.
    pub closed spec fn redo_import(&self) -> Option<(AudioId, E)> {
        reimport_of(self.journal.redo_entries())
    }

    /// The entries that can be undone, oldest first, as values.
    pub closed spec fn undo_views(&self) -> Seq<(u64, ReverseView, ReverseView)> {
        self.journal.undo_entries().map_values(|e: JournalEntry<Reverse<E>>| entry_view(e))
    }

    /// The entries that can be redone, least recently undone first, as values.
    pub closed spec fn redo_views(&self) -> Seq<(u64, ReverseView, ReverseView)> {
        self.journal.redo_entries().map_values(|e: JournalEntry<Reverse<E>>| entry_view(e))
    }

    /// The stores' ids are issued ones, and so are the ids every journaled
    /// transition reinstates.
    pub closed spec fn wf(&self) -> bool {
        &&& self.store.wf()
        &&& self.documents.wf()
        &&& forall|k: int|
            0 <= k < self.undo_views().len() ==> {
                &&& reverse_issued(#[trigger] self.undo_views()[k].1, self.audio_next(), self.doc_next())
                &&& reverse_issued(self.undo_views()[k].2, self.audio_next(), self.doc_next())
            }
        &&& forall|k: int|
            0 <= k < self.redo_views().len() ==> {
                &&& reverse_issued(#[trigger] self.redo_views()[k].1, self.audio_next(), self.doc_next())
                &&& reverse_issued(self.redo_views()[k].2, self.audio_next(), self.doc_next())
            }
    }

    /// An engine with no audio, no documents and an empty journal.
    pub fn new() -> (s: Session<E>)
        ensures
            s.wf(),
            s.docs() == Map::<u64, DocState>::empty(),
            s.audio_ids() == Set::<u64>::empty(),
            s.undo_views().len() == 0,
            s.redo_views().len() == 0,
            s.audio_next() == 0,
            s.doc_next() == 0,
            s.journal_next() == 0,
    {
        let s = Session { store: AudioSlots::new(), documents: DocumentStore::new(), journal: Journal::new() };
        assert(s.docs() =~= Map::<u64, DocState>::empty());
        assert(s.audio_ids() =~= Set::<u64>::empty());
        s
    }
}

/// Documents as values, by id.
pub open spec fn doc_states(m: Map<u64, Document>) -> Map<u64, DocState> {
    m.map_values(|d: Document| (d.audio, (d.annotation@, d.annotation.next_ids())))
}

/// Replacing one document replaces its value.
pub proof fn lemma_doc_states_insert(m: Map<u64, Document>, k: u64, d: Document)
    ensures
        doc_states(m.insert(k, d)) == doc_states(m).insert(
            k,
            (d.audio, (d.annotation@, d.annotation.next_ids())),
        ),
{
    assert(doc_states(m.insert(k, d)) =~= doc_states(m).insert(
        k,
        (d.audio, (d.annotation@, d.annotation.next_ids())),
    ));
}

/// Removing one document removes its value.
pub proof fn lemma_doc_states_remove(m: Map<u64, Document>, k: u64)
    ensures
        doc_states(m.remove(k)) == doc_states(m).remove(k),
{
    assert(doc_states(m.remove(k)) =~= doc_states(m).remove(k));
}

/// Takes document `id` out, runs a content inverse on it, and puts it back.
fn apply_content(
    documents: &mut DocumentStore,
    doc: AnnotationId,
    mutation: &InverseMutation,
) -> (r: Result<Applied, EngineError>)
    requires
        old(documents).wf(),
        reverse_fits(
            doc_states(old(documents).docs()),
            ReverseView::Content { doc, mutation: mutation@ },
        ),
    ensures
        final(documents).wf(),
        final(documents).next_id() == old(documents).next_id(),
        doc_states(final(documents).docs()) == reverse_outcome(
            doc_states(old(documents).docs()),
            ReverseView::Content { doc, mutation: mutation@ },
        ).0,
        match reverse_outcome(
            doc_states(old(documents).docs()),
            ReverseView::Content { doc, mutation: mutation@ },
        ).1 {
            Ok(ap) => r matches Ok(x) && x@ == ap,
            Err(f) => r is Err && refused_with(r->Err_0, f),
        },
{
    let ghost m0 = documents.docs();
    let mut document = match documents.detach(doc) {
        Some(d) => d,
        None => return Err(EngineError::UnknownAnnotationId(doc)),
    };
    let ghost d0 = document;
    let result = document.annotation.apply_inverse(mutation);
    proof {
        assert(m0.remove(doc.0).insert(doc.0, d0) =~= m0);
        lemma_doc_states_insert(m0.remove(doc.0), doc.0, document);
    }
    documents.reattach(doc, document);
    match result {
        Ok(()) => Ok(applied_for_content(doc, mutation)),
        Err(e) => Err(EngineError::Annotation(e)),
    }
}

/// Takes document `doc` out, rebuilds it with a tier reinstated, and puts it
/// back.
fn apply_insert_tier(
    documents: &mut DocumentStore,
    doc: AnnotationId,
    index: usize,
    slot: &TierSlot,
) -> (r: Result<Applied, EngineError>)
    requires
        old(documents).wf(),
        reverse_fits(
            doc_states(old(documents).docs()),
            ReverseView::InsertTier { doc, index: index as int, slot: slot@ },
        ),
    ensures
        final(documents).wf(),
        final(documents).next_id() == old(documents).next_id(),
        doc_states(final(documents).docs()) == reverse_outcome(
            doc_states(old(documents).docs()),
            ReverseView::InsertTier { doc, index: index as int, slot: slot@ },
        ).0,
        match reverse_outcome(
            doc_states(old(documents).docs()),
            ReverseView::InsertTier { doc, index: index as int, slot: slot@ },
        ).1 {
            Ok(ap) => r matches Ok(x) && x@ == ap,
            Err(f) => r is Err && refused_with(r->Err_0, f),
        },
{
    let ghost m0 = documents.docs();
    let mut document = match documents.detach(doc) {
        Some(d) => d,
        None => return Err(EngineError::UnknownAnnotationId(doc)),
    };
    let ghost d0 = document;
    proof {
        assert(m0.remove(doc.0).insert(doc.0, d0) =~= m0);
    }
    match insert_tier(&document.annotation, index, slot.duplicate()) {
        Ok(restored) => {
            document.annotation = restored;
            proof {
                lemma_doc_states_insert(m0.remove(doc.0), doc.0, document);
            }
            documents.reattach(doc, document);
            Ok(Applied::TierAdded { annotation: doc, tier: slot.id })
        },
        Err(e) => {
            documents.reattach(doc, document);
            Err(e)
        },
    }
}

/// Takes document `doc` out, rebuilds it without a tier, and puts it back.
fn apply_remove_tier(documents: &mut DocumentStore, doc: AnnotationId, tier: TierId) -> (r: Result<
    Applied,
    EngineError,
>)
    requires
        old(documents).wf(),
        reverse_fits(doc_states(old(documents).docs()), ReverseView::RemoveTier { doc, tier }),
    ensures
        final(documents).wf(),
        final(documents).next_id() == old(documents).next_id(),
        doc_states(final(documents).docs()) == reverse_outcome(
            doc_states(old(documents).docs()),
            ReverseView::RemoveTier { doc, tier },
        ).0,
        match reverse_outcome(
            doc_states(old(documents).docs()),
            ReverseView::RemoveTier { doc, tier },
        ).1 {
            Ok(ap) => r matches Ok(x) && x@ == ap,
            Err(f) => r is Err && refused_with(r->Err_0, f),
        },
{
    let ghost m0 = documents.docs();
    let mut document = match documents.detach(doc) {
        Some(d) => d,
        None => return Err(EngineError::UnknownAnnotationId(doc)),
    };
    let ghost d0 = document;
    proof {
        assert(m0.remove(doc.0).insert(doc.0, d0) =~= m0);
    }
    match remove_tier(&document.annotation, tier) {
        Ok(reduced) => {
            document.annotation = reduced;
            proof {
                lemma_doc_states_insert(m0.remove(doc.0), doc.0, document);
            }
            documents.reattach(doc, document);
            Ok(Applied::TierRemoved { annotation: doc, tier })
        },
        Err(e) => {
            documents.reattach(doc, document);
            Err(e)
        },
    }
}

/// Applies a transition to the stores and reports what changed.
fn apply_reverse<E: Clone>(
    rev: &Reverse<E>,
    store: &mut AudioSlots<E>,
    documents: &mut DocumentStore,
) -> (r: Result<Applied, EngineError>)
    requires
        old(store).wf(),
        old(documents).wf(),
        reverse_issued(rev@, old(store).next_id(), old(documents).next_id()),
        reverse_fits(doc_states(old(documents).docs()), rev@),
    ensures
        final(store).wf(),
        final(documents).wf(),
        final(store).next_id() == old(store).next_id(),
        final(documents).next_id() == old(documents).next_id(),
        doc_states(final(documents).docs()) == reverse_outcome(
            doc_states(old(documents).docs()),
            rev@,
        ).0,
        match reverse_outcome(doc_states(old(documents).docs()), rev@).1 {
            Ok(ap) => r matches Ok(x) && x@ == ap,
            Err(f) => r is Err && refused_with(r->Err_0, f),
        },
        match rev@ {
            ReverseView::ImportAudio { id } => final(store).entries().dom() == old(
                store,
            ).entries().dom().insert(id.0),
            ReverseView::RemoveAudio { id } => final(store).entries() == old(
                store,
            ).entries().remove(id.0),
            _ => final(store).entries() == old(store).entries(),
        },
        *rev matches Reverse::ImportAudio { id, audio } ==> cloned(
            audio,
            final(store).entries()[id.0],
        ),
{
    match rev {
        Reverse::ImportAudio { id, audio } => {
            store.restore(*id, audio.clone());
            Ok(Applied::AudioImported { audio: *id })
        },
        Reverse::RemoveAudio { id } => {
            store.remove(*id);
            Ok(Applied::AudioRemoved { audio: *id })
        },
        Reverse::Attach { id, document } => {
            let ghost m0 = documents.docs();
            let copy = document.duplicate();
            proof {
                lemma_doc_states_insert(m0, id.0, copy);
            }
            documents.reattach(*id, copy);
            Ok(Applied::AnnotationAttached { annotation: *id, audio: document.audio })
        },
        Reverse::Detach { id } => {
            let ghost m0 = documents.docs();
            proof {
                lemma_doc_states_remove(m0, id.0);
            }
            documents.detach(*id);
            Ok(Applied::AnnotationDetached { annotation: *id })
        },
        Reverse::InsertTier { doc, index, slot } => apply_insert_tier(documents, *doc, *index, slot),
        Reverse::RemoveTier { doc, tier } => apply_remove_tier(documents, *doc, *tier),
        Reverse::Content { doc, mutation } => apply_content(documents, *doc, mutation),
    }
}

/// The transitions a document edit records never reinstate audio or a
/// document, so they name no id a store must have issued.
pub proof fn lemma_edit_transitions_issued<E>(a: AnnotationId, st: AnnState, cmd: Command<E>)
    ensures
        edit_outcome(a, st, cmd).1 matches Ok((_, u, rd)) ==> forall|x: u64, y: u64|
            reverse_issued(u, x, y) && reverse_issued(rd, x, y),
{
}

/// The document a command edits, as an exec value.
fn command_target<E>(cmd: &Command<E>) -> (r: Option<AnnotationId>)
    ensures
        r == edit_target(*cmd),
{
    match cmd {
        Command::ImportAudio { .. } => None,
        Command::AttachAnnotation { .. } => None,
        Command::AddIntervalTier { annotation, .. } => Some(*annotation),
        Command::AddPointTier { annotation, .. } => Some(*annotation),
        Command::RemoveTier { annotation, .. } => Some(*annotation),
        Command::InsertBoundary { annotation, .. } => Some(*annotation),
        Command::MoveBoundary { annotation, .. } => Some(*annotation),
        Command::RemoveBoundary { annotation, .. } => Some(*annotation),
        Command::SetLabel { annotation, .. } => Some(*annotation),
        Command::InsertPoint { annotation, .. } => Some(*annotation),
        Command::MovePoint { annotation, .. } => Some(*annotation),
        Command::RemovePoint { annotation, .. } => Some(*annotation),
        Command::ReorderTier { annotation, .. } => Some(*annotation),
    }
}

impl<E: Clone> Session<E> {
    /// What applying a command needs so that no id generator overflows.
    pub open spec fn command_fits(&self, cmd: Command<E>) -> bool {
        &&& self.journal_next() < u64::MAX
        &&& match cmd {
            Command::ImportAudio { .. } => self.audio_next() < u64::MAX,
            Command::AttachAnnotation { .. } => self.doc_next() < u64::MAX,
            _ => edit_target(cmd) matches Some(a) && (self.docs().contains_key(a.0) ==> edit_fits(
                self.docs()[a.0].1,
                cmd,
            )),
        }
    }

    /// The journal recorded one entry with these transitions and dropped the
    /// redo history.
    pub open spec fn journaled(&self, before: &Session<E>, undo: ReverseView, redo: ReverseView) -> bool {
        &&& self.undo_views() == before.undo_views().push((before.journal_next(), undo, redo))
        &&& self.redo_views().len() == 0
        &&& self.journal_next() == before.journal_next() + 1
    }

    /// The journal is as it was.
    pub open spec fn journal_kept(&self, before: &Session<E>) -> bool {
        &&& self.undo_views() == before.undo_views()
        &&& self.redo_views() == before.redo_views()
        &&& self.journal_next() == before.journal_next()
    }

    /// Imports an audio entry under a fresh id, journaling its removal.
    fn apply_import(&mut self, audio: E) -> (r: Result<Applied, EngineError>)
        requires
            old(self).wf(),
            old(self).command_fits(Command::<E>::ImportAudio { audio }),
        ensures
            final(self).wf(),
            ({
                let id = AudioId(old(self).audio_next());
                &&& r matches Ok(x) && x@ == (AppliedView::AudioImported { audio: id })
                &&& final(self).audio() == old(self).audio().insert(id.0, audio)
                &&& final(self).audio_next() == old(self).audio_next() + 1
                &&& final(self).docs() == old(self).docs()
                &&& final(self).journaled(
                    old(self),
                    ReverseView::RemoveAudio { id },
                    ReverseView::ImportAudio { id },
                )
                &&& final(self).undone_import() matches Some((i, a)) && i == id && cloned(audio, a)
            }),
    {
        let replay = audio.clone();
        let id = self.store.insert(audio);
        let ghost u0 = self.undo_views();
        self.journal.record(
            Transition {
                undo: Reverse::RemoveAudio { id },
                redo: Reverse::ImportAudio { id, audio: replay },
            },
        );
        proof {
            assert(self.undo_views() =~= u0.push(
                (
                    old(self).journal_next(),
                    ReverseView::RemoveAudio { id },
                    ReverseView::ImportAudio { id },
                ),
            ));
            assert(self.redo_views() =~= Seq::<(u64, ReverseView, ReverseView)>::empty());
            assert(u0 == old(self).undo_views());
            assert forall|k: int| 0 <= k < self.undo_views().len() implies {
                &&& reverse_issued(#[trigger] self.undo_views()[k].1, self.audio_next(), self.doc_next())
                &&& reverse_issued(self.undo_views()[k].2, self.audio_next(), self.doc_next())
            } by {
                if k < u0.len() {
                    assert(self.undo_views()[k] == old(self).undo_views()[k]);
                }
            }
        }
        Ok(Applied::AudioImported { audio: id })
    }

    /// Attaches a validated document to stored audio, journaling its
    /// detachment.
    fn apply_attach(&mut self, audio: AudioId, annotation: Annotation) -> (r: Result<
        Applied,
        EngineError,
    >)
        requires
            old(self).wf(),
            old(self).command_fits(Command::<E>::AttachAnnotation { audio, annotation }),
        ensures
            final(self).wf(),
            final(self).audio() == old(self).audio(),
            final(self).audio_next() == old(self).audio_next(),
            r is Err ==> final(self).doc_next() == old(self).doc_next(),
            if !old(self).audio_ids().contains(audio.0) {
                &&& r is Err && refused_with(
                    r->Err_0,
                    Refusal::Engine(EngineError::UnknownAudioId(audio)),
                )
                &&& final(self).docs() == old(self).docs()
                &&& final(self).journal_kept(old(self))
            } else if !annotation@.valid() {
                &&& r is Err && refused_with(r->Err_0, Refusal::Rejected { doc: annotation@ })
                &&& final(self).docs() == old(self).docs()
                &&& final(self).journal_kept(old(self))
            } else {
                let id = AnnotationId(old(self).doc_next());
                &&& r matches Ok(x) && x@ == (AppliedView::AnnotationAttached {
                    annotation: id,
                    audio,
                })
                &&& !old(self).docs().contains_key(id.0)
                &&& final(self).docs() == old(self).docs().insert(id.0, (audio, ann_state(annotation)))
                &&& final(self).journaled(
                    old(self),
                    ReverseView::Detach { id },
                    ReverseView::Attach { id, audio, state: ann_state(annotation) },
                )
            },
    {
        if !self.store.contains(audio) {
            return Err(EngineError::UnknownAudioId(audio));
        }
        let issues = annotation.validate();
        if issues.len() > 0 {
            return Err(EngineError::InvalidAnnotation(issues));
        }
        let document = Document { audio, annotation: annotation.duplicate() };
        let ghost m0 = self.documents.docs();
        let ghost st = ann_state(annotation);
        let id = self.documents.attach(audio, annotation);
        proof {
            lemma_doc_states_insert(m0, id.0, Document { audio, annotation });
        }
        let ghost u0 = self.undo_views();
        self.journal.record(
            Transition { undo: Reverse::Detach { id }, redo: Reverse::Attach { id, document } },
        );
        proof {
            assert(self.undo_views() =~= u0.push(
                (
                    old(self).journal_next(),
                    ReverseView::Detach { id },
                    ReverseView::Attach { id, audio, state: st },
                ),
            ));
            assert(self.redo_views() =~= Seq::<(u64, ReverseView, ReverseView)>::empty());
            assert(u0 == old(self).undo_views());
            assert forall|k: int| 0 <= k < self.undo_views().len() implies {
                &&& reverse_issued(#[trigger] self.undo_views()[k].1, self.audio_next(), self.doc_next())
                &&& reverse_issued(self.undo_views()[k].2, self.audio_next(), self.doc_next())
            } by {
                if k < u0.len() {
                    assert(self.undo_views()[k] == old(self).undo_views()[k]);
                }
            }
        }
        Ok(Applied::AnnotationAttached { annotation: id, audio })
    }

    /// Runs a document edit, journaling its transitions on success.
    #[verifier::spinoff_prover]
    #[verifier::rlimit(50)]
    fn apply_edit(&mut self, cmd: Command<E>) -> (r: Result<Applied, EngineError>)
        requires
            old(self).wf(),
            old(self).command_fits(cmd),
            edit_target(cmd) is Some,
        ensures
            final(self).wf(),
            final(self).audio() == old(self).audio(),
            final(self).audio_next() == old(self).audio_next(),
            final(self).doc_next() == old(self).doc_next(),
            ({
                let a = edit_target(cmd)->Some_0;
                if !old(self).docs().contains_key(a.0) {
                    &&& r is Err && refused_with(
                        r->Err_0,
                        Refusal::Engine(EngineError::UnknownAnnotationId(a)),
                    )
                    &&& final(self).docs() == old(self).docs()
                    &&& final(self).journal_kept(old(self))
                } else {
                    let (au, st) = old(self).docs()[a.0];
                    let (st2, res) = edit_outcome(a, st, cmd);
                    match res {
                        Ok((ap, u, rd)) => {
                            &&& r matches Ok(x) && x@ == ap
                            &&& final(self).docs() == old(self).docs().insert(a.0, (au, st2))
                            &&& final(self).journaled(old(self), u, rd)
                        },
                        Err(f) => {
                            &&& r is Err && refused_with(r->Err_0, f)
                            &&& final(self).docs() == old(self).docs()
                            &&& final(self).journal_kept(old(self))
                        },
                    }
                }
            }),
    {
        let a = match command_target(&cmd) {
            Some(a) => a,
            None => {
                proof {
                    assert(false);
                }
                return Err(EngineError::UnknownAnnotationId(AnnotationId(0)));
            },
        };
        let ghost m0 = self.documents.docs();
        let mut document = match self.documents.detach(a) {
            Some(d) => d,
            None => {
                proof {
                    assert(self.undo_views() == old(self).undo_views());
                    assert(self.redo_views() == old(self).redo_views());
                    assert(self.documents.docs() =~= m0);
                }
                return Err(EngineError::UnknownAnnotationId(a));
            },
        };
        let ghost d0 = document;
        proof {
            assert(m0.remove(a.0).insert(a.0, d0) =~= m0);
        }
        let backup = document.annotation.duplicate();
        let result = edit(a, &mut document.annotation, cmd);
        if result.is_err() {
            document.annotation = backup;
        }
        proof {
            lemma_doc_states_insert(m0.remove(a.0), a.0, document);
            lemma_doc_states_insert(m0.remove(a.0), a.0, d0);
        }
        self.documents.reattach(a, document);
        match result {
            Ok((applied, transition)) => {
                let ghost u0 = self.undo_views();
                let ghost uv = transition.undo@;
                let ghost rv = transition.redo@;
                self.journal.record(transition);
                proof {
                    lemma_edit_transitions_issued(a, old(self).docs()[a.0].1, cmd);
                    assert(self.undo_views() =~= u0.push((old(self).journal_next(), uv, rv)));
                    assert(self.redo_views() =~= Seq::<(u64, ReverseView, ReverseView)>::empty());
                    assert(u0 == old(self).undo_views());
                    assert(reverse_issued(uv, self.audio_next(), self.doc_next()));
                    assert(reverse_issued(rv, self.audio_next(), self.doc_next()));
                }
                Ok(applied)
            },
            Err(e) => {
                proof {
                    assert(self.undo_views() == old(self).undo_views());
                    assert(self.redo_views() == old(self).redo_views());
                }
                Err(e)
            },
        }
    }

    /// Applies one command through the journal and reports what changed.
    ///
    /// This is the only path that mutates a document: it runs the command,
    /// records the id-stable undo and redo transitions, and clears the redo
    /// history. On error the state is left untouched: a document edit runs on
    /// a copy that replaces the document only when the edit succeeds.
    pub fn apply(&mut self, cmd: Command<E>) -> (r: Result<Applied, EngineError>)
        requires
            old(self).wf(),
            old(self).command_fits(cmd),
        ensures
            final(self).wf(),
            match cmd {
                Command::ImportAudio { audio } => {
                    let id = AudioId(old(self).audio_next());
                    &&& r matches Ok(x) && x@ == (AppliedView::AudioImported { audio: id })
                    &&& final(self).audio() == old(self).audio().insert(id.0, audio)
                    &&& final(self).audio_next() == old(self).audio_next() + 1
                    &&& final(self).docs() == old(self).docs()
                    &&& final(self).journaled(
                        old(self),
                        ReverseView::RemoveAudio { id },
                        ReverseView::ImportAudio { id },
                    )
                    &&& final(self).undone_import() matches Some((i, a)) && i == id && cloned(
                        audio,
                        a,
                    )
                },
                Command::AttachAnnotation { audio, annotation } => if !old(self).audio_ids().contains(
                    audio.0,
                ) {
                    &&& r is Err && refused_with(
                        r->Err_0,
                        Refusal::Engine(EngineError::UnknownAudioId(audio)),
                    )
                    &&& final(self).docs() == old(self).docs()
                    &&& final(self).journal_kept(old(self))
                } else if !annotation@.valid() {
                    &&& r is Err && refused_with(r->Err_0, Refusal::Rejected { doc: annotation@ })
                    &&& final(self).docs() == old(self).docs()
                    &&& final(self).journal_kept(old(self))
                } else {
                    let id = AnnotationId(old(self).doc_next());
                    &&& r matches Ok(x) && x@ == (AppliedView::AnnotationAttached {
                        annotation: id,
                        audio,
                    })
                    &&& !old(self).docs().contains_key(id.0)
                    &&& final(self).docs() == old(self).docs().insert(
                        id.0,
                        (audio, ann_state(annotation)),
                    )
                    &&& final(self).journaled(
                        old(self),
                        ReverseView::Detach { id },
                        ReverseView::Attach { id, audio, state: ann_state(annotation) },
                    )
                },
                _ => {
                    let a = edit_target(cmd)->Some_0;
                    if !old(self).docs().contains_key(a.0) {
                        &&& r is Err && refused_with(
                            r->Err_0,
                            Refusal::Engine(EngineError::UnknownAnnotationId(a)),
                        )
                        &&& final(self).docs() == old(self).docs()
                        &&& final(self).journal_kept(old(self))
                    } else {
                        let (au, st) = old(self).docs()[a.0];
                        let (st2, res) = edit_outcome(a, st, cmd);
                        match res {
                            Ok((ap, u, rd)) => {
                                &&& r matches Ok(x) && x@ == ap
                                &&& final(self).docs() == old(self).docs().insert(a.0, (au, st2))
                                &&& final(self).journaled(old(self), u, rd)
                            },
                            Err(f) => {
                                &&& r is Err && refused_with(r->Err_0, f)
                                &&& final(self).docs() == old(self).docs()
                                &&& final(self).journal_kept(old(self))
                            },
                        }
                    }
                },
            },
            !(cmd is ImportAudio) ==> final(self).audio() == old(self).audio() && final(self).audio_next()
                == old(self).audio_next(),
            r is Err ==> final(self).docs() == old(self).docs() && final(self).journal_kept(old(self))
                && final(self).audio() == old(self).audio() && final(self).audio_next() == old(
                self,
            ).audio_next() && final(self).doc_next() == old(self).doc_next(),
    {
        match cmd {
            Command::ImportAudio { audio } => self.apply_import(audio),
            Command::AttachAnnotation { audio, annotation } => self.apply_attach(audio, annotation),
            other => self.apply_edit(other),
        }
    }
}

/// The audio entry the newest of `entries` reinstates when redone, with its
/// id, when that entry is an import.
pub open spec fn reimport_of<E>(entries: Seq<JournalEntry<Reverse<E>>>) -> Option<(AudioId, E)> {
    if entries.len() == 0 {
        None
    } else {
        match entries.last().redo {
            Reverse::ImportAudio { id, audio } => Some((id, audio)),
            _ => None,
        }
    }
}

/// What a transition does to the audio entries.
pub open spec fn audio_after<E>(before: Map<u64, E>, after: Map<u64, E>, rev: ReverseView) -> bool {
    match rev {
        ReverseView::ImportAudio { id } => after.dom() == before.dom().insert(id.0),
        ReverseView::RemoveAudio { id } => after == before.remove(id.0),
        _ => after == before,
    }
}

impl<E: Clone> Session<E> {
    /// What undoing needs so that no id generator overflows.
    pub open spec fn undo_fits(&self) -> bool {
        self.undo_views().len() > 0 ==> reverse_fits(self.docs(), self.undo_views().last().1)
    }

    /// What redoing needs so that no id generator overflows.
    pub open spec fn redo_fits(&self) -> bool {
        self.redo_views().len() > 0 ==> reverse_fits(self.docs(), self.redo_views().last().2)
    }

    /// Undoes the most recent command and reports what changed; `None` when
    /// nothing is left to undo. When the transition is refused, its entry
    /// stays where it was and the state is unchanged.
    pub fn undo(&mut self) -> (r: Result<Option<Applied>, EngineError>)
        requires
            old(self).wf(),
            old(self).undo_fits(),
        ensures
            final(self).wf(),
            final(self).audio_next() == old(self).audio_next(),
            final(self).doc_next() == old(self).doc_next(),
            final(self).journal_next() == old(self).journal_next(),
            old(self).undo_views().len() == 0 ==> {
                &&& r matches Ok(x) && x is None
                &&& final(self).docs() == old(self).docs()
                &&& final(self).audio() == old(self).audio()
                &&& final(self).journal_kept(old(self))
            },
            old(self).undo_views().len() > 0 ==> {
                let entry = old(self).undo_views().last();
                let (docs2, res) = reverse_outcome(old(self).docs(), entry.1);
                &&& final(self).docs() == docs2
                &&& match res {
                    Ok(ap) => {
                        &&& r matches Ok(x) && x matches Some(y) && y@ == ap
                        &&& audio_after(old(self).audio(), final(self).audio(), entry.1)
                        &&& final(self).undo_views() == old(self).undo_views().drop_last()
                        &&& final(self).redo_views() == old(self).redo_views().push(entry)
                        &&& final(self).redo_import() == old(self).undone_import()
                    },
                    Err(f) => {
                        &&& r is Err && refused_with(r->Err_0, f)
                        &&& final(self).journal_kept(old(self))
                        &&& audio_after(old(self).audio(), final(self).audio(), entry.1)
                    },
                }
            },
    {
        let ghost u0 = self.undo_views();
        let ghost rd0 = self.redo_views();
        let ghost e0 = self.journal.undo_entries();
        let entry = match self.journal.take_undo() {
            Some(e) => e,
            None => {
                return Ok(None);
            },
        };
        proof {
            assert(entry_view(entry) == u0.last());
            assert(self.undo_views() =~= u0.drop_last());
            assert(reverse_issued(entry.undo@, self.audio_next(), self.doc_next()));
        }
        match apply_reverse(&entry.undo, &mut self.store, &mut self.documents) {
            Ok(applied) => {
                self.journal.park_redo(entry);
                proof {
                    assert(self.redo_views() =~= rd0.push(u0.last()));
                    assert forall|k: int| 0 <= k < self.undo_views().len() implies {
                        &&& reverse_issued(#[trigger] self.undo_views()[k].1, self.audio_next(), self.doc_next())
                        &&& reverse_issued(self.undo_views()[k].2, self.audio_next(), self.doc_next())
                    } by {
                        assert(self.undo_views()[k] == u0[k]);
                    }
                    assert forall|k: int| 0 <= k < self.redo_views().len() implies {
                        &&& reverse_issued(#[trigger] self.redo_views()[k].1, self.audio_next(), self.doc_next())
                        &&& reverse_issued(self.redo_views()[k].2, self.audio_next(), self.doc_next())
                    } by {
                        if k < rd0.len() {
                            assert(self.redo_views()[k] == rd0[k]);
                        } else {
                            assert(self.redo_views()[k] == u0[u0.len() - 1]);
                        }
                    }
                }
                Ok(Some(applied))
            },
            Err(e) => {
                self.journal.park_undo(entry);
                proof {
                    assert(self.undo_views() =~= u0);
                    assert(self.redo_views() =~= rd0);
                }
                Err(e)
            },
        }
    }

    /// Redoes the most recently undone command and reports what changed;
    /// `None` when nothing is left to redo. When the transition is refused, its
    /// entry stays where it was and the state is unchanged.
    pub fn redo(&mut self) -> (r: Result<Option<Applied>, EngineError>)
        requires
            old(self).wf(),
            old(self).redo_fits(),
        ensures
            final(self).wf(),
            final(self).audio_next() == old(self).audio_next(),
            final(self).doc_next() == old(self).doc_next(),
            final(self).journal_next() == old(self).journal_next(),
            old(self).redo_views().len() == 0 ==> {
                &&& r matches Ok(x) && x is None
                &&& final(self).docs() == old(self).docs()
                &&& final(self).audio() == old(self).audio()
                &&& final(self).journal_kept(old(self))
            },
            old(self).redo_import() matches Some((id, a)) ==> r is Ok && cloned(
                a,
                final(self).audio()[id.0],
            ),
            old(self).redo_views().len() > 0 ==> {
                let entry = old(self).redo_views().last();
                let (docs2, res) = reverse_outcome(old(self).docs(), entry.2);
                &&& final(self).docs() == docs2
                &&& match res {
                    Ok(ap) => {
                        &&& r matches Ok(x) && x matches Some(y) && y@ == ap
                        &&& audio_after(old(self).audio(), final(self).audio(), entry.2)
                        &&& final(self).redo_views() == old(self).redo_views().drop_last()
                        &&& final(self).undo_views() == old(self).undo_views().push(entry)
                        &&& final(self).undone_import() == old(self).redo_import()
                    },
                    Err(f) => {
                        &&& r is Err && refused_with(r->Err_0, f)
                        &&& final(self).journal_kept(old(self))
                        &&& audio_after(old(self).audio(), final(self).audio(), entry.2)
                    },
                }
            },
    {
        let ghost u0 = self.undo_views();
        let ghost rd0 = self.redo_views();
        let entry = match self.journal.take_redo() {
            Some(e) => e,
            None => {
                return Ok(None);
            },
        };
        proof {
            assert(entry_view(entry) == rd0.last());
            assert(self.redo_views() =~= rd0.drop_last());
            assert(reverse_issued(rd0[rd0.len() - 1].1, self.audio_next(), self.doc_next()));
            assert(reverse_issued(entry.redo@, self.audio_next(), self.doc_next()));
        }
        match apply_reverse(&entry.redo, &mut self.store, &mut self.documents) {
            Ok(applied) => {
                self.journal.park_undo(entry);
                proof {
                    assert(self.undo_views() =~= u0.push(rd0.last()));
                    assert forall|k: int| 0 <= k < self.redo_views().len() implies {
                        &&& reverse_issued(#[trigger] self.redo_views()[k].1, self.audio_next(), self.doc_next())
                        &&& reverse_issued(self.redo_views()[k].2, self.audio_next(), self.doc_next())
                    } by {
                        assert(self.redo_views()[k] == rd0[k]);
                    }
                    assert forall|k: int| 0 <= k < self.undo_views().len() implies {
                        &&& reverse_issued(#[trigger] self.undo_views()[k].1, self.audio_next(), self.doc_next())
                        &&& reverse_issued(self.undo_views()[k].2, self.audio_next(), self.doc_next())
                    } by {
                        if k < u0.len() {
                            assert(self.undo_views()[k] == u0[k]);
                        } else {
                            assert(self.undo_views()[k] == rd0[rd0.len() - 1]);
                        }
                    }
                }
                Ok(Some(applied))
            },
            Err(e) => {
                self.journal.park_redo(entry);
                proof {
                    assert(self.undo_views() =~= u0);
                    assert(self.redo_views() =~= rd0);
                }
                Err(e)
            },
        }
    }

    /// Number of commands that can still be undone.
    pub fn undo_depth(&self) -> (n: usize)
        ensures
            n == self.undo_views().len(),
    {
        self.journal.undo_depth()
    }

    /// Number of commands that can still be redone.
    pub fn redo_depth(&self) -> (n: usize)
        ensures
            n == self.redo_views().len(),
    {
        self.journal.redo_depth()
    }

    /// Id of the journal entry `undo` would target right now, or `None` when
    /// there is nothing to undo.
    pub fn journal_head_id(&self) -> (r: Option<u64>)
        ensures
            self.undo_views().len() == 0 ==> r is None,
            self.undo_views().len() > 0 ==> r == Some(self.undo_views().last().0),
    {
        self.journal.head_id()
    }
}

/// Every hit of a query across documents, visiting ids in the order given and
/// tagging each hit with its document.
pub open spec fn engine_hits(ids: Seq<AnnotationId>, docs: Map<u64, DocState>, query: LabelQuery) -> Seq<
    EngineHit,
>
    decreases ids.len(),
{
    if ids.len() == 0 {
        Seq::empty()
    } else {
        let id = ids.last();
        engine_hits(ids.drop_last(), docs, query) + crate::search::query_hits(
            docs[id.0].1.0.tiers,
            query,
        ).map_values(|h: Hit| EngineHit { annotation: id, hit: h })
    }
}

impl<E: Clone> Session<E> {
    /// Searches interval and point labels across every attached document,
    /// visiting documents in ascending id order and tagging each hit with the
    /// document it was found in.
    pub fn search_labels(&self, query: &LabelQuery) -> (r: Vec<EngineHit>)
        requires
            self.wf(),
        ensures
            exists|ids: Seq<AnnotationId>|
                {
                    &&& forall|a: int, b: int| 0 <= a < b < ids.len() ==> ids[a].0 < ids[b].0
                    &&& forall|k: u64| self.docs().contains_key(k) <==> exists|j: int|
                        0 <= j < ids.len() && #[trigger] ids[j].0 == k
                    &&& r@ == engine_hits(ids, self.docs(), *query)
                },
    {
        let ids = self.documents.ids_sorted();
        let mut hits: Vec<EngineHit> = Vec::new();
        let mut i: usize = 0;
        while i < ids.len()
            invariant
                i <= ids.len(),
                forall|k: u64| self.docs().contains_key(k) <==> exists|j: int|
                    0 <= j < ids.len() && #[trigger] ids@[j].0 == k,
                hits@ == engine_hits(ids@.take(i as int), self.docs(), *query),
            decreases ids.len() - i,
        {
            let id = ids[i];
            proof {
                assert(self.docs().contains_key(id.0));
                assert(ids@.take(i as int + 1).drop_last() =~= ids@.take(i as int));
                assert(ids@.take(i as int + 1).last() == id);
            }
            match self.documents.get(id) {
                Ok(document) => {
                    let found = document.annotation.search(query);
                    let ghost before = hits@;
                    let mut k: usize = 0;
                    while k < found.len()
                        invariant
                            k <= found.len(),
                            hits@ == before + found@.take(k as int).map_values(
                                |h: Hit| EngineHit { annotation: id, hit: h },
                            ),
                        decreases found.len() - k,
                    {
                        hits.push(EngineHit { annotation: id, hit: found[k] });
                        proof {
                            assert(found@.take(k as int + 1).map_values(
                                |h: Hit| EngineHit { annotation: id, hit: h },
                            ) =~= found@.take(k as int).map_values(
                                |h: Hit| EngineHit { annotation: id, hit: h },
                            ).push(EngineHit { annotation: id, hit: found@[k as int] }));
                        }
                        k += 1;
                    }
                    proof {
                        assert(found@.take(k as int) =~= found@);
                    }
                },
                Err(_) => {
                    proof {
                        assert(false);
                    }
                },
            }
            i += 1;
        }
        proof {
            assert(ids@.take(i as int) =~= ids@);
        }
        hits
    }

    /// The annotation content of a document, for read-only rendering.
    pub fn annotation(&self, id: AnnotationId) -> (r: Result<&Annotation, EngineError>)
        ensures
            match r {
                Ok(a) => self.docs().contains_key(id.0) && ann_state(*a) == self.docs()[id.0].1,
                Err(e) => !self.docs().contains_key(id.0) && e == EngineError::UnknownAnnotationId(
                    id,
                ),
            },
    {
        match self.documents.get(id) {
            Ok(d) => Ok(&d.annotation),
            Err(e) => Err(e),
        }
    }

    /// The audio a document annotates.
    pub fn annotation_audio(&self, id: AnnotationId) -> (r: Result<AudioId, EngineError>)
        ensures
            match r {
                Ok(a) => self.docs().contains_key(id.0) && a == self.docs()[id.0].0,
                Err(e) => !self.docs().contains_key(id.0) && e == EngineError::UnknownAnnotationId(
                    id,
                ),
            },
    {
        match self.documents.get(id) {
            Ok(d) => Ok(d.audio),
            Err(e) => Err(e),
        }
    }

    /// Every live annotation id in ascending order.
    pub fn annotation_ids(&self) -> (r: Vec<AnnotationId>)
        requires
            self.wf(),
        ensures
            forall|a: int, b: int| 0 <= a < b < r.len() ==> r@[a].0 < r@[b].0,
            forall|k: u64| self.docs().contains_key(k) <==> exists|j: int|
                0 <= j < r.len() && #[trigger] r@[j].0 == k,
    {
        self.documents.ids_sorted()
    }

    /// Inserts an audio entry under a fresh id without journaling it.
    pub fn insert_audio(&mut self, audio: E) -> (id: AudioId)
        requires
            old(self).wf(),
            old(self).audio_next() < u64::MAX,
        ensures
            final(self).wf(),
            id.0 == old(self).audio_next(),
            final(self).audio() == old(self).audio().insert(id.0, audio),
            final(self).audio_next() == old(self).audio_next() + 1,
            final(self).docs() == old(self).docs(),
            final(self).journal_kept(old(self)),
            final(self).doc_next() == old(self).doc_next(),
    {
        let id = self.store.insert(audio);
        proof {
            assert forall|k: int| 0 <= k < self.undo_views().len() implies {
                &&& reverse_issued(#[trigger] self.undo_views()[k].1, self.audio_next(), self.doc_next())
                &&& reverse_issued(self.undo_views()[k].2, self.audio_next(), self.doc_next())
            } by {
                assert(self.undo_views()[k] == old(self).undo_views()[k]);
            }
            assert forall|k: int| 0 <= k < self.redo_views().len() implies {
                &&& reverse_issued(#[trigger] self.redo_views()[k].1, self.audio_next(), self.doc_next())
                &&& reverse_issued(self.redo_views()[k].2, self.audio_next(), self.doc_next())
            } by {
                assert(self.redo_views()[k] == old(self).redo_views()[k]);
            }
        }
        id
    }

    /// The audio entry for `id`, if live.
    pub fn audio_entry(&self, id: AudioId) -> (r: Option<&E>)
        ensures
            match r {
                Some(e) => self.audio().contains_key(id.0) && *e == self.audio()[id.0],
                None => !self.audio().contains_key(id.0),
            },
    {
        self.store.get(id)
    }

    /// Whether `id` names a live audio entry.
    pub fn contains_audio(&self, id: AudioId) -> (r: bool)
        ensures
            r == self.audio().contains_key(id.0),
    {
        self.store.contains(id)
    }

    /// Every live audio id in ascending order.
    pub fn audio_ids_sorted(&self) -> (r: Vec<AudioId>)
        requires
            self.wf(),
        ensures
            forall|a: int, b: int| 0 <= a < b < r.len() ==> r@[a].0 < r@[b].0,
            forall|k: u64| self.audio().contains_key(k) <==> exists|j: int|
                0 <= j < r.len() && #[trigger] r@[j].0 == k,
    {
        self.store.ids_sorted()
    }
}

/// Whether a transition keeps every id the identifier generators are
/// recomputed from below the largest `u64`.
fn reverse_fits_now<E>(documents: &DocumentStore, rev: &Reverse<E>) -> (r: bool)
    ensures
        r == reverse_fits(doc_states(documents.docs()), rev@),
{
    match rev {
        Reverse::InsertTier { doc, index, slot } => match documents.get(*doc) {
            Ok(d) => {
                let mut tiers = crate::model::duplicate_slots_of(d.annotation.tiers());
                let at = if *index < tiers.len() {
                    *index
                } else {
                    tiers.len()
                };
                let ghost before = tiers@;
                let copy = slot.duplicate();
                let ghost cv = copy@;
                tiers.insert(at, copy);
                proof {
                    assert(crate::model::slots_view(tiers@) =~= crate::model::slots_view(before).insert(
                        at as int,
                        cv,
                    ));
                }
                crate::annotation::ids_fit(tiers.as_slice())
            },
            Err(_) => true,
        },
        Reverse::RemoveTier { doc, tier } => match documents.get(*doc) {
            Ok(d) => {
                let tiers = tiers_without(d.annotation.tiers(), *tier);
                crate::annotation::ids_fit(tiers.as_slice())
            },
            Err(_) => true,
        },
        Reverse::Content { doc, mutation } => match documents.get(*doc) {
            Ok(d) => d.annotation.inverse_fits(mutation),
            Err(_) => true,
        },
        _ => true,
    }
}

impl<E: Clone> Session<E> {
    /// Whether applying `cmd` keeps every identifier generator in range; the
    /// precondition of `apply`.
    pub fn fits(&self, cmd: &Command<E>) -> (r: bool)
        ensures
            r == self.command_fits(*cmd),
    {
        if self.journal.next_entry_id() == u64::MAX {
            return false;
        }
        match cmd {
            Command::ImportAudio { .. } => self.store.next() < u64::MAX,
            Command::AttachAnnotation { .. } => self.documents.next() < u64::MAX,
            _ => {
                let a = match command_target(cmd) {
                    Some(a) => a,
                    None => return false,
                };
                let d = match self.documents.get(a) {
                    Ok(d) => d,
                    Err(_) => return true,
                };
                let n = d.annotation.next_ids_now();
                let count = d.annotation.tiers().len();
                match cmd {
                    Command::AddIntervalTier { .. } => n.0 < u64::MAX && n.1 < u64::MAX - 1 && n.2
                        < u64::MAX,
                    Command::AddPointTier { points, .. } => n.0 < u64::MAX && (points.len() as u64)
                        <= u64::MAX - n.3,
                    Command::RemoveTier { tier, .. } => {
                        let tiers = tiers_without(d.annotation.tiers(), *tier);
                        crate::annotation::ids_fit(tiers.as_slice())
                    },
                    Command::InsertBoundary { .. } => (count as u64) < u64::MAX - n.1 && (
                    count as u64) < u64::MAX - n.2,
                    Command::InsertPoint { .. } => n.3 < u64::MAX,
                    _ => true,
                }
            },
        }
    }

    /// Whether undoing now keeps every identifier generator in range; the
    /// precondition of `undo`.
    pub fn undo_fits_now(&self) -> (r: bool)
        ensures
            r == self.undo_fits(),
    {
        match self.journal.peek_undo() {
            Some(entry) => reverse_fits_now(&self.documents, &entry.undo),
            None => true,
        }
    }

    /// Whether redoing now keeps every identifier generator in range; the
    /// precondition of `redo`.
    pub fn redo_fits_now(&self) -> (r: bool)
        ensures
            r == self.redo_fits(),
    {
        match self.journal.peek_redo() {
            Some(entry) => reverse_fits_now(&self.documents, &entry.redo),
            None => true,
        }
    }
}

} // verus!