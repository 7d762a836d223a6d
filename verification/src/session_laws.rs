//! Laws of the journal over documents: undoing a successful edit gives back
//! the document it edited, stated over the transitions the session records.
use vstd::prelude::*;

use crate::boundary_laws::{
    law_insert_boundary_inverse, law_move_boundary_inverse, law_remove_boundary_inverse,
    lemma_move_all_frame, lemma_move_targets_ok, lemma_positions_rest, listed_below, positions_ok,
    restore_at,
};
use crate::boundary_edits::{
    last_with_id, move_all, move_in_tier, move_targets, spec_insert_boundary, with_intervals,
};
use crate::payloads::BoundaryMove;
use crate::session::swapped_moves;
use crate::time::Time;
use crate::undo::move_back_all;
use crate::edits::{first_point, first_point_tier, first_tier, holds_point, is_first_tier, with_tier};
use crate::engine::{AnnotationId, AudioId};
use crate::ids::{BoundaryId, PointId, TierId};
use crate::edits::spec_reorder_tier;
use crate::laws::{
    law_insert_point_inverse, law_move_point_inverse, law_remove_point_inverse,
    law_reorder_tier_inverse, law_set_label_inverse, lemma_first_tier_at, lemma_tier_ids_distinct,
};
use crate::model::{tier_ids, DocView, SlotView};
use crate::session::{
    edit_outcome, reverse_outcome, with_tier_at, without_tier, AnnState, Command, DocState,
    ReverseView,
};

verus! {

/// What undoing an edit needs of the document beyond its validity: the ids
/// an edit draws are fresh, a label to be replaced holds no control character
/// (writing it back would be refused), and a point to be removed shares its time with no
/// other point of its tier (IEEE `==`, so `+0.0` and `-0.0` count as one time).
pub open spec fn undo_conditions<E>(st: AnnState, cmd: Command<E>) -> bool {
    let (d, n) = st;
    match cmd {
        Command::AddIntervalTier { .. } => forall|j: int|
            0 <= j < d.tiers.len() ==> (#[trigger] d.tiers[j]).id != TierId(n.0),
        Command::AddPointTier { .. } => forall|j: int|
            0 <= j < d.tiers.len() ==> (#[trigger] d.tiers[j]).id != TierId(n.0),
        Command::InsertBoundary { .. } => n.1 + d.tiers.len() <= u64::MAX && forall|j: int|
            0 <= j < d.tiers.len() ==> listed_below(#[trigger] d.tiers[j].tier, n.1 as int),
        Command::InsertPoint { .. } => forall|j: int|
            0 <= j < d.tiers.len() ==> !holds_point(#[trigger] d.tiers[j].tier, PointId(n.3)),
        Command::SetLabel { target, text, .. } => crate::edits::spec_replace_label(d, target, text@) matches Ok(
            r,
        ) ==> crate::undo::control_error(r.1) is None,
        Command::RemovePoint { point, .. } => first_point_tier(d.tiers, point) is Some ==> {
            let i = first_point_tier(d.tiers, point)->Some_0;
            let s = d.tiers[i].tier.points();
            let k = first_point(s, point)->Some_0;
            forall|j: int| 0 <= j < s.len() && j != k ==> !(#[trigger] s[j].time).spec_ieee_eq(s[k].time)
        },
        _ => true,
    }
}

/// Removing every tier that carries an id no tier carries leaves the tiers.
proof fn lemma_without_absent(tiers: Seq<SlotView>, id: TierId)
    requires
        forall|j: int| 0 <= j < tiers.len() ==> (#[trigger] tiers[j]).id != id,
    ensures
        without_tier(tiers, id) == tiers,
    decreases tiers.len(),
{
    if tiers.len() > 0 {
        lemma_without_absent(tiers.drop_last(), id);
        assert(tiers.drop_last().push(tiers.last()) =~= tiers);
    }
}

/// Removing the one tier that carries `id` drops exactly its position.
proof fn lemma_without_single(tiers: Seq<SlotView>, id: TierId, i: int)
    requires
        0 <= i < tiers.len(),
        tiers[i].id == id,
        forall|j: int| 0 <= j < tiers.len() && j != i ==> (#[trigger] tiers[j]).id != id,
    ensures
        without_tier(tiers, id) == tiers.remove(i),
    decreases tiers.len(),
{
    let last = tiers.len() - 1;
    if i == last {
        lemma_without_absent(tiers.drop_last(), id);
        assert(tiers.drop_last() =~= tiers.remove(i));
    } else {
        lemma_without_single(tiers.drop_last(), id, i);
        assert(tiers.drop_last().remove(i).push(tiers.last()) =~= tiers.remove(i));
    }
}

/// Undoing the edit `cmd` of document `a` in `docs` gives back the
/// document's value and leaves every other document as it was.
pub open spec fn undo_restores<E>(docs: Map<u64, DocState>, a: AnnotationId, cmd: Command<E>) -> bool {
    let (au, st) = docs[a.0];
    let (st2, res) = edit_outcome(a, st, cmd);
    let (docs3, r3) = reverse_outcome(docs.insert(a.0, (au, st2)), res->Ok_0.1);
    &&& r3 is Ok
    &&& docs3.contains_key(a.0)
    &&& docs3[a.0].0 == au
    &&& docs3[a.0].1.0 == st.0
    &&& docs3.remove(a.0) == docs.remove(a.0)
}

/// Undoing a successful edit of a valid document gives back the document's
/// value: the undo transition the edit records, applied to the edited
/// document, restores it and leaves every other document as it was. Only the
/// document's identifier generators may have moved on.
pub proof fn law_edit_undo_restores<E>(docs: Map<u64, DocState>, a: AnnotationId, cmd: Command<E>)
    requires
        docs.contains_key(a.0),
        docs[a.0].1.0.valid(),
        undo_conditions(docs[a.0].1, cmd),
        edit_outcome(a, docs[a.0].1, cmd).1 is Ok,
    ensures
        undo_restores(docs, a, cmd),
{
    match cmd {
        Command::AddIntervalTier { .. } => lemma_undo_add_interval_tier(docs, a, cmd),
        Command::AddPointTier { .. } => lemma_undo_add_point_tier(docs, a, cmd),
        Command::RemoveTier { .. } => lemma_undo_remove_tier(docs, a, cmd),
        Command::InsertBoundary { .. } => lemma_undo_insert_boundary(docs, a, cmd),
        Command::MoveBoundary { .. } => lemma_undo_move_boundary(docs, a, cmd),
        Command::RemoveBoundary { .. } => lemma_undo_remove_boundary(docs, a, cmd),
        Command::SetLabel { .. } => lemma_undo_set_label(docs, a, cmd),
        Command::InsertPoint { .. } => lemma_undo_insert_point(docs, a, cmd),
        Command::MovePoint { .. } => lemma_undo_move_point(docs, a, cmd),
        Command::RemovePoint { .. } => lemma_undo_remove_point(docs, a, cmd),
        Command::ReorderTier { .. } => lemma_undo_reorder_tier(docs, a, cmd),
        _ => {},
    }
}

#[verifier::spinoff_prover]
#[verifier::rlimit(40)]
proof fn lemma_undo_add_interval_tier<E>(docs: Map<u64, DocState>, a: AnnotationId, cmd: Command<E>)
    requires
        docs.contains_key(a.0),
        docs[a.0].1.0.valid(),
        undo_conditions(docs[a.0].1, cmd),
        edit_outcome(a, docs[a.0].1, cmd).1 is Ok,
        cmd is AddIntervalTier,
    ensures
        undo_restores(docs, a, cmd),
{
    let (au, st) = docs[a.0];
    let (d, n) = st;
    let (st2, res) = edit_outcome(a, st, cmd);
    let docs2 = docs.insert(a.0, (au, st2));
    assert(docs2.remove(a.0) =~= docs.remove(a.0));
    match cmd {
        Command::AddIntervalTier { .. } => {
            let d2 = st2.0;
            let tier = TierId(n.0);
            assert(d2.tiers.last().id == tier);
            assert(d2.tiers.drop_last() =~= d.tiers);
            lemma_without_absent(d.tiers, tier);
            assert(crate::model::has_tier(d2.tiers, tier)) by {
                assert(d2.tiers[d2.tiers.len() - 1].id == tier);
            }
            assert(without_tier(d2.tiers, tier) == d.tiers);
            assert(DocView { tiers: d.tiers, ..d2 } == d);
            let docs3 = reverse_outcome(docs2, res->Ok_0.1).0;
            assert(docs3.remove(a.0) =~= docs.remove(a.0));
        },
        _ => {},
    }
}

#[verifier::spinoff_prover]
proof fn lemma_undo_add_point_tier<E>(docs: Map<u64, DocState>, a: AnnotationId, cmd: Command<E>)
    requires
        docs.contains_key(a.0),
        docs[a.0].1.0.valid(),
        undo_conditions(docs[a.0].1, cmd),
        edit_outcome(a, docs[a.0].1, cmd).1 is Ok,
        cmd is AddPointTier,
    ensures
        undo_restores(docs, a, cmd),
{
    let (au, st) = docs[a.0];
    let (d, n) = st;
    let (st2, res) = edit_outcome(a, st, cmd);
    let docs2 = docs.insert(a.0, (au, st2));
    assert(docs2.remove(a.0) =~= docs.remove(a.0));
    match cmd {
        Command::AddPointTier { .. } => {
            let d2 = st2.0;
            let tier = TierId(n.0);
            assert(d2.tiers.last().id == tier);
            assert(d2.tiers.drop_last() =~= d.tiers);
            lemma_without_absent(d.tiers, tier);
            assert(crate::model::has_tier(d2.tiers, tier)) by {
                assert(d2.tiers[d2.tiers.len() - 1].id == tier);
            }
            assert(without_tier(d2.tiers, tier) == d.tiers);
            assert(DocView { tiers: d.tiers, ..d2 } == d);
            let docs3 = reverse_outcome(docs2, res->Ok_0.1).0;
            assert(docs3.remove(a.0) =~= docs.remove(a.0));
        },
        _ => {},
    }
}

#[verifier::spinoff_prover]
proof fn lemma_undo_remove_tier<E>(docs: Map<u64, DocState>, a: AnnotationId, cmd: Command<E>)
    requires
        docs.contains_key(a.0),
        docs[a.0].1.0.valid(),
        undo_conditions(docs[a.0].1, cmd),
        edit_outcome(a, docs[a.0].1, cmd).1 is Ok,
        cmd is RemoveTier,
    ensures
        undo_restores(docs, a, cmd),
{
    let (au, st) = docs[a.0];
    let (d, n) = st;
    let (st2, res) = edit_outcome(a, st, cmd);
    let docs2 = docs.insert(a.0, (au, st2));
    assert(docs2.remove(a.0) =~= docs.remove(a.0));
    match cmd {
        Command::RemoveTier { tier, .. } => {
            let i = first_tier(d.tiers, tier)->Some_0;
            let w = choose|k: int| is_first_tier(d.tiers, tier, k);
            assert(is_first_tier(d.tiers, tier, w));
            lemma_first_tier_at(d.tiers, tier, w);
            assert forall|j: int| 0 <= j < d.tiers.len() && j != i implies (#[trigger] d.tiers[j]).id
                != tier by {
                if d.tiers[j].id == tier {
                    lemma_tier_ids_distinct(d, j, i);
                }
            }
            lemma_without_single(d.tiers, tier, i);
            let d2 = st2.0;
            assert(d2.tiers == d.tiers.remove(i));
            assert(with_tier_at(d2.tiers, i, d.tiers[i]) =~= d.tiers);
            assert(DocView { tiers: d.tiers, ..d2 } == d);
            let docs3 = reverse_outcome(docs2, res->Ok_0.1).0;
            assert(docs3.remove(a.0) =~= docs.remove(a.0));
        },
        _ => {},
    }
}

#[verifier::spinoff_prover]
proof fn lemma_undo_insert_boundary<E>(docs: Map<u64, DocState>, a: AnnotationId, cmd: Command<E>)
    requires
        docs.contains_key(a.0),
        docs[a.0].1.0.valid(),
        undo_conditions(docs[a.0].1, cmd),
        edit_outcome(a, docs[a.0].1, cmd).1 is Ok,
        cmd is InsertBoundary,
    ensures
        undo_restores(docs, a, cmd),
{
    let (au, st) = docs[a.0];
    let (d, n) = st;
    let (st2, res) = edit_outcome(a, st, cmd);
    let docs2 = docs.insert(a.0, (au, st2));
    assert(docs2.remove(a.0) =~= docs.remove(a.0));
    match cmd {
        Command::InsertBoundary { tier, at, .. } => {
            law_insert_boundary_inverse(d, tier, at, n.1 as int, n.2 as int);
            let docs3 = reverse_outcome(docs2, res->Ok_0.1).0;
            assert(docs3.remove(a.0) =~= docs.remove(a.0));
        },
        _ => {},
    }
}

#[verifier::spinoff_prover]
proof fn lemma_undo_move_boundary<E>(docs: Map<u64, DocState>, a: AnnotationId, cmd: Command<E>)
    requires
        docs.contains_key(a.0),
        docs[a.0].1.0.valid(),
        undo_conditions(docs[a.0].1, cmd),
        edit_outcome(a, docs[a.0].1, cmd).1 is Ok,
        cmd is MoveBoundary,
    ensures
        undo_restores(docs, a, cmd),
{
    let (au, st) = docs[a.0];
    let (d, n) = st;
    let (st2, res) = edit_outcome(a, st, cmd);
    let docs2 = docs.insert(a.0, (au, st2));
    assert(docs2.remove(a.0) =~= docs.remove(a.0));
    match cmd {
        Command::MoveBoundary { boundary, to, mode, .. } => {
            law_move_boundary_inverse(d, boundary, to, mode == crate::model::AlignMode::Linked);
            let docs3 = reverse_outcome(docs2, res->Ok_0.1).0;
            assert(docs3.remove(a.0) =~= docs.remove(a.0));
        },
        _ => {},
    }
}

#[verifier::spinoff_prover]
proof fn lemma_undo_remove_boundary<E>(docs: Map<u64, DocState>, a: AnnotationId, cmd: Command<E>)
    requires
        docs.contains_key(a.0),
        docs[a.0].1.0.valid(),
        undo_conditions(docs[a.0].1, cmd),
        edit_outcome(a, docs[a.0].1, cmd).1 is Ok,
        cmd is RemoveBoundary,
    ensures
        undo_restores(docs, a, cmd),
{
    let (au, st) = docs[a.0];
    let (d, n) = st;
    let (st2, res) = edit_outcome(a, st, cmd);
    let docs2 = docs.insert(a.0, (au, st2));
    assert(docs2.remove(a.0) =~= docs.remove(a.0));
    match cmd {
        Command::RemoveBoundary { boundary, .. } => {
            law_remove_boundary_inverse(d, boundary);
            let docs3 = reverse_outcome(docs2, res->Ok_0.1).0;
            assert(docs3.remove(a.0) =~= docs.remove(a.0));
        },
        _ => {},
    }
}

#[verifier::spinoff_prover]
proof fn lemma_undo_set_label<E>(docs: Map<u64, DocState>, a: AnnotationId, cmd: Command<E>)
    requires
        docs.contains_key(a.0),
        docs[a.0].1.0.valid(),
        undo_conditions(docs[a.0].1, cmd),
        edit_outcome(a, docs[a.0].1, cmd).1 is Ok,
        cmd is SetLabel,
    ensures
        undo_restores(docs, a, cmd),
{
    let (au, st) = docs[a.0];
    let (d, n) = st;
    let (st2, res) = edit_outcome(a, st, cmd);
    let docs2 = docs.insert(a.0, (au, st2));
    assert(docs2.remove(a.0) =~= docs.remove(a.0));
    match cmd {
        Command::SetLabel { target, text, .. } => {
            law_set_label_inverse(d, target, text@);
            let docs3 = reverse_outcome(docs2, res->Ok_0.1).0;
            assert(docs3.remove(a.0) =~= docs.remove(a.0));
        },
        _ => {},
    }
}

#[verifier::spinoff_prover]
proof fn lemma_undo_insert_point<E>(docs: Map<u64, DocState>, a: AnnotationId, cmd: Command<E>)
    requires
        docs.contains_key(a.0),
        docs[a.0].1.0.valid(),
        undo_conditions(docs[a.0].1, cmd),
        edit_outcome(a, docs[a.0].1, cmd).1 is Ok,
        cmd is InsertPoint,
    ensures
        undo_restores(docs, a, cmd),
{
    let (au, st) = docs[a.0];
    let (d, n) = st;
    let (st2, res) = edit_outcome(a, st, cmd);
    let docs2 = docs.insert(a.0, (au, st2));
    assert(docs2.remove(a.0) =~= docs.remove(a.0));
    match cmd {
        Command::InsertPoint { tier, time, label, .. } => {
            let p = crate::model::PointView { id: PointId(n.3), time, label: label@ };
            law_insert_point_inverse(d, tier, p);
            let docs3 = reverse_outcome(docs2, res->Ok_0.1).0;
            assert(docs3.remove(a.0) =~= docs.remove(a.0));
        },
        _ => {},
    }
}

#[verifier::spinoff_prover]
proof fn lemma_undo_move_point<E>(docs: Map<u64, DocState>, a: AnnotationId, cmd: Command<E>)
    requires
        docs.contains_key(a.0),
        docs[a.0].1.0.valid(),
        undo_conditions(docs[a.0].1, cmd),
        edit_outcome(a, docs[a.0].1, cmd).1 is Ok,
        cmd is MovePoint,
    ensures
        undo_restores(docs, a, cmd),
{
    let (au, st) = docs[a.0];
    let (d, n) = st;
    let (st2, res) = edit_outcome(a, st, cmd);
    let docs2 = docs.insert(a.0, (au, st2));
    assert(docs2.remove(a.0) =~= docs.remove(a.0));
    match cmd {
        Command::MovePoint { point, to, .. } => {
            law_move_point_inverse(d, point, to);
            let docs3 = reverse_outcome(docs2, res->Ok_0.1).0;
            assert(docs3.remove(a.0) =~= docs.remove(a.0));
        },
        _ => {},
    }
}

#[verifier::spinoff_prover]
proof fn lemma_undo_remove_point<E>(docs: Map<u64, DocState>, a: AnnotationId, cmd: Command<E>)
    requires
        docs.contains_key(a.0),
        docs[a.0].1.0.valid(),
        undo_conditions(docs[a.0].1, cmd),
        edit_outcome(a, docs[a.0].1, cmd).1 is Ok,
        cmd is RemovePoint,
    ensures
        undo_restores(docs, a, cmd),
{
    let (au, st) = docs[a.0];
    let (d, n) = st;
    let (st2, res) = edit_outcome(a, st, cmd);
    let docs2 = docs.insert(a.0, (au, st2));
    assert(docs2.remove(a.0) =~= docs.remove(a.0));
    match cmd {
        Command::RemovePoint { point, .. } => {
            law_remove_point_inverse(d, point);
            let docs3 = reverse_outcome(docs2, res->Ok_0.1).0;
            assert(docs3.remove(a.0) =~= docs.remove(a.0));
        },
        _ => {},
    }
}

#[verifier::spinoff_prover]
proof fn lemma_undo_reorder_tier<E>(docs: Map<u64, DocState>, a: AnnotationId, cmd: Command<E>)
    requires
        docs.contains_key(a.0),
        docs[a.0].1.0.valid(),
        undo_conditions(docs[a.0].1, cmd),
        edit_outcome(a, docs[a.0].1, cmd).1 is Ok,
        cmd is ReorderTier,
    ensures
        undo_restores(docs, a, cmd),
{
    let (au, st) = docs[a.0];
    let (d, n) = st;
    let (st2, res) = edit_outcome(a, st, cmd);
    let docs2 = docs.insert(a.0, (au, st2));
    assert(docs2.remove(a.0) =~= docs.remove(a.0));
    match cmd {
        Command::ReorderTier { tier, to_index, .. } => {
            assert(tier_ids(d.tiers).no_duplicates());
            law_reorder_tier_inverse(d, tier, to_index as int);
            let docs3 = reverse_outcome(docs2, res->Ok_0.1).0;
            assert(docs3.remove(a.0) =~= docs.remove(a.0));
        },
        _ => {},
    }
}

/// Undoing an attachment detaches the document again: the documents are
/// as they were before it was attached under a fresh id.
pub proof fn law_attach_undo_restores(
    docs: Map<u64, DocState>,
    id: AnnotationId,
    audio: AudioId,
    st: AnnState,
)
    requires
        !docs.contains_key(id.0),
    ensures
        reverse_outcome(docs.insert(id.0, (audio, st)), ReverseView::Detach { id }).0 == docs,
        reverse_outcome(docs.insert(id.0, (audio, st)), ReverseView::Detach { id }).1 is Ok,
{
    assert(docs.insert(id.0, (audio, st)).remove(id.0) =~= docs);
}

/// Moving the recorded boundaries forward again, in order, from any document
/// that agrees with the unmoved one on the moved tiers, moves those tiers as
/// the first move did.
pub proof fn lemma_move_redo_round(d: DocView, idxs: Seq<int>, at: Time, to: Time, e: DocView)
    requires
        move_all(d, idxs, at, to) is Ok,
        positions_ok(idxs, d.tiers.len() as int),
        tier_ids(d.tiers).no_duplicates(),
        forall|k: int| 0 <= k < idxs.len() ==> #[trigger] e.tiers[idxs[k]] == d.tiers[idxs[k]],
        e.tiers.len() == d.tiers.len(),
        forall|j: int| 0 <= j < d.tiers.len() ==> #[trigger] e.tiers[j].id == d.tiers[j].id,
    ensures
        move_back_all(e, swapped_moves(move_all(d, idxs, at, to)->Ok_0.1)) == Ok::<
            DocView,
            crate::issues::AnnotationError,
        >(DocView { tiers: restore_at(e.tiers, move_all(d, idxs, at, to)->Ok_0.0.tiers, idxs), ..e }),
    decreases idxs.len(),
{
    let (c, moves) = move_all(d, idxs, at, to)->Ok_0;
    lemma_move_all_frame(d, idxs, at, to);
    if idxs.len() == 0 {
        assert(restore_at(e.tiers, c.tiers, idxs) =~= e.tiers);
        assert(swapped_moves(moves) =~= Seq::<BoundaryMove>::empty());
    } else {
        let i = idxs[0];
        let t = d.tiers[i].tier;
        let (s, mv) = move_in_tier(t.intervals(), d.tiers[i].id, at, to)->Ok_0;
        let d1 = with_tier(d, i, with_intervals(t, s));
        let rest = idxs.drop_first();
        lemma_positions_rest(idxs, d.tiers.len() as int);
        lemma_move_all_frame(d1, rest, at, to);
        let rest_moves = move_all(d1, rest, at, to)->Ok_0.1;
        assert(moves == seq![mv] + rest_moves);
        let sw = swapped_moves(moves);
        assert(sw.drop_first() =~= swapped_moves(rest_moves));
        assert(sw[0] == BoundaryMove { tier: mv.tier, boundary: mv.boundary, from: mv.to, to: mv.from });
        assert(mv.tier == d.tiers[i].id && mv.from == at && mv.to == to);
        assert(first_tier(e.tiers, mv.tier) == Some(i)) by {
            assert forall|j: int| 0 <= j < i implies e.tiers[j].id != mv.tier by {
                if e.tiers[j].id == mv.tier {
                    lemma_tier_ids_distinct(d, j, i);
                }
            }
            assert(is_first_tier(e.tiers, mv.tier, i));
            lemma_first_tier_at(e.tiers, mv.tier, i);
        }
        assert(e.tiers[idxs[0]] == d.tiers[idxs[0]]);
        let e1 = with_tier(e, i, with_intervals(e.tiers[i].tier, s));
        assert(c.tiers[i] == d1.tiers[i]);
        assert forall|k: int| 0 <= k < rest.len() implies #[trigger] e1.tiers[rest[k]] == d1.tiers[rest[k]] by {
            assert(rest[k] == idxs[k + 1]);
            assert(e.tiers[idxs[k + 1]] == d.tiers[idxs[k + 1]]);
        }
        assert(tier_ids(d1.tiers) =~= tier_ids(d.tiers)) by {
            assert forall|j: int| 0 <= j < d.tiers.len() implies tier_ids(d1.tiers)[j] == tier_ids(
                d.tiers,
            )[j] by {}
        }
        lemma_move_redo_round(d1, rest, at, to, e1);
        assert(restore_at(e1.tiers, c.tiers, rest) =~= restore_at(e.tiers, c.tiers, idxs)) by {
            assert forall|j: int| 0 <= j < e.tiers.len() implies #[trigger] restore_at(
                e1.tiers,
                c.tiers,
                rest,
            )[j] == restore_at(e.tiers, c.tiers, idxs)[j] by {
                if j == i {
                } else if rest.contains(j) {
                } else {
                }
            }
        }
    }
}

/// Redoing the edit `cmd` of document `a` from its value before the edit,
/// whatever its identifier generators, gives back the edited value and leaves
/// every other document as it was.
pub open spec fn redo_restores<E>(
    docs: Map<u64, DocState>,
    a: AnnotationId,
    cmd: Command<E>,
    n3: (u64, u64, u64, u64),
) -> bool {
    let (au, st) = docs[a.0];
    let (st2, res) = edit_outcome(a, st, cmd);
    let (docs4, r4) = reverse_outcome(docs.insert(a.0, (au, (st.0, n3))), res->Ok_0.2);
    &&& r4 is Ok
    &&& docs4.contains_key(a.0)
    &&& docs4[a.0].0 == au
    &&& docs4[a.0].1.0 == st2.0
    &&& docs4.remove(a.0) == docs.remove(a.0)
}

/// Redoing after an undo gives back the edited document: the redo transition
/// a successful edit records, applied to the document's value before the
/// edit (whatever its identifier generators became), gives back the edited
/// value and leaves every other document as it was.
pub proof fn law_edit_redo_restores<E>(
    docs: Map<u64, DocState>,
    a: AnnotationId,
    cmd: Command<E>,
    n3: (u64, u64, u64, u64),
)
    requires
        docs.contains_key(a.0),
        docs[a.0].1.0.valid(),
        undo_conditions(docs[a.0].1, cmd),
        edit_outcome(a, docs[a.0].1, cmd).1 is Ok,
    ensures
        redo_restores(docs, a, cmd, n3),
{
    match cmd {
        Command::AddIntervalTier { .. } => lemma_redo_add_interval_tier(docs, a, cmd, n3),
        Command::AddPointTier { .. } => lemma_redo_add_point_tier(docs, a, cmd, n3),
        Command::RemoveTier { .. } => lemma_redo_remove_tier(docs, a, cmd, n3),
        Command::InsertBoundary { .. } => lemma_redo_insert_boundary(docs, a, cmd, n3),
        Command::MoveBoundary { .. } => lemma_redo_move_boundary(docs, a, cmd, n3),
        Command::RemoveBoundary { .. } => lemma_redo_remove_boundary(docs, a, cmd, n3),
        Command::SetLabel { .. } => lemma_redo_set_label(docs, a, cmd, n3),
        Command::InsertPoint { .. } => lemma_redo_insert_point(docs, a, cmd, n3),
        Command::MovePoint { .. } => lemma_redo_move_point(docs, a, cmd, n3),
        Command::RemovePoint { .. } => lemma_redo_remove_point(docs, a, cmd, n3),
        Command::ReorderTier { .. } => lemma_redo_reorder_tier(docs, a, cmd, n3),
        _ => {},
    }
}

#[verifier::spinoff_prover]
proof fn lemma_redo_add_interval_tier<E>(
    docs: Map<u64, DocState>,
    a: AnnotationId,
    cmd: Command<E>,
    n3: (u64, u64, u64, u64),
)
    requires
        docs.contains_key(a.0),
        docs[a.0].1.0.valid(),
        undo_conditions(docs[a.0].1, cmd),
        edit_outcome(a, docs[a.0].1, cmd).1 is Ok,
        cmd is AddIntervalTier,
    ensures
        redo_restores(docs, a, cmd, n3),
{
    let (au, st) = docs[a.0];
    let (d, n) = st;
    let (st2, res) = edit_outcome(a, st, cmd);
    let docs2 = docs.insert(a.0, (au, (d, n3)));
    assert(docs2.remove(a.0) =~= docs.remove(a.0));
    match cmd {
        Command::AddIntervalTier { .. } => {
            let d2 = st2.0;
            let tier = TierId(n.0);
            let i = d.tiers.len() as int;
            assert(d2.tiers[i].id == tier);
            assert(is_first_tier(d2.tiers, tier, i));
            lemma_first_tier_at(d2.tiers, tier, i);
            assert(with_tier_at(d.tiers, i, d2.tiers[i]) =~= d2.tiers);
            assert(DocView { tiers: d2.tiers, ..d } == d2);
        },
        _ => {},
    }
    let docs4 = reverse_outcome(docs2, res->Ok_0.2).0;
    assert(docs4.remove(a.0) =~= docs.remove(a.0));
}

#[verifier::spinoff_prover]
proof fn lemma_redo_add_point_tier<E>(
    docs: Map<u64, DocState>,
    a: AnnotationId,
    cmd: Command<E>,
    n3: (u64, u64, u64, u64),
)
    requires
        docs.contains_key(a.0),
        docs[a.0].1.0.valid(),
        undo_conditions(docs[a.0].1, cmd),
        edit_outcome(a, docs[a.0].1, cmd).1 is Ok,
        cmd is AddPointTier,
    ensures
        redo_restores(docs, a, cmd, n3),
{
    let (au, st) = docs[a.0];
    let (d, n) = st;
    let (st2, res) = edit_outcome(a, st, cmd);
    let docs2 = docs.insert(a.0, (au, (d, n3)));
    assert(docs2.remove(a.0) =~= docs.remove(a.0));
    match cmd {
        Command::AddPointTier { .. } => {
            let d2 = st2.0;
            let tier = TierId(n.0);
            let i = d.tiers.len() as int;
            assert(d2.tiers[i].id == tier);
            assert(is_first_tier(d2.tiers, tier, i));
            lemma_first_tier_at(d2.tiers, tier, i);
            assert(with_tier_at(d.tiers, i, d2.tiers[i]) =~= d2.tiers);
            assert(DocView { tiers: d2.tiers, ..d } == d2);
        },
        _ => {},
    }
    let docs4 = reverse_outcome(docs2, res->Ok_0.2).0;
    assert(docs4.remove(a.0) =~= docs.remove(a.0));
}

#[verifier::spinoff_prover]
proof fn lemma_redo_remove_tier<E>(
    docs: Map<u64, DocState>,
    a: AnnotationId,
    cmd: Command<E>,
    n3: (u64, u64, u64, u64),
)
    requires
        docs.contains_key(a.0),
        docs[a.0].1.0.valid(),
        undo_conditions(docs[a.0].1, cmd),
        edit_outcome(a, docs[a.0].1, cmd).1 is Ok,
        cmd is RemoveTier,
    ensures
        redo_restores(docs, a, cmd, n3),
{
    let (au, st) = docs[a.0];
    let (d, n) = st;
    let (st2, res) = edit_outcome(a, st, cmd);
    let docs2 = docs.insert(a.0, (au, (d, n3)));
    assert(docs2.remove(a.0) =~= docs.remove(a.0));
    match cmd {
        Command::RemoveTier { tier, .. } => {
            let i = first_tier(d.tiers, tier)->Some_0;
            let w = choose|k: int| is_first_tier(d.tiers, tier, k);
            assert(is_first_tier(d.tiers, tier, w));
            assert(crate::model::has_tier(d.tiers, tier));
        },
        _ => {},
    }
    let docs4 = reverse_outcome(docs2, res->Ok_0.2).0;
    assert(docs4.remove(a.0) =~= docs.remove(a.0));
}

#[verifier::spinoff_prover]
proof fn lemma_redo_insert_boundary<E>(
    docs: Map<u64, DocState>,
    a: AnnotationId,
    cmd: Command<E>,
    n3: (u64, u64, u64, u64),
)
    requires
        docs.contains_key(a.0),
        docs[a.0].1.0.valid(),
        undo_conditions(docs[a.0].1, cmd),
        edit_outcome(a, docs[a.0].1, cmd).1 is Ok,
        cmd is InsertBoundary,
    ensures
        redo_restores(docs, a, cmd, n3),
{
    let (au, st) = docs[a.0];
    let (d, n) = st;
    let (st2, res) = edit_outcome(a, st, cmd);
    let docs2 = docs.insert(a.0, (au, (d, n3)));
    assert(docs2.remove(a.0) =~= docs.remove(a.0));
    match cmd {
        Command::InsertBoundary { tier, at, .. } => {
            law_insert_boundary_inverse(d, tier, at, n.1 as int, n.2 as int);
            let (c, idxs) = spec_insert_boundary(d, tier, at, n.1 as int, n.2 as int)->Ok_0;
            let q = last_with_id(d.tiers, idxs, tier)->Some_0;
            law_remove_boundary_inverse(c, BoundaryId((n.1 + q) as u64));
        },
        _ => {},
    }
    let docs4 = reverse_outcome(docs2, res->Ok_0.2).0;
    assert(docs4.remove(a.0) =~= docs.remove(a.0));
}

#[verifier::spinoff_prover]
proof fn lemma_redo_move_boundary<E>(
    docs: Map<u64, DocState>,
    a: AnnotationId,
    cmd: Command<E>,
    n3: (u64, u64, u64, u64),
)
    requires
        docs.contains_key(a.0),
        docs[a.0].1.0.valid(),
        undo_conditions(docs[a.0].1, cmd),
        edit_outcome(a, docs[a.0].1, cmd).1 is Ok,
        cmd is MoveBoundary,
    ensures
        redo_restores(docs, a, cmd, n3),
{
    let (au, st) = docs[a.0];
    let (d, n) = st;
    let (st2, res) = edit_outcome(a, st, cmd);
    let docs2 = docs.insert(a.0, (au, (d, n3)));
    assert(docs2.remove(a.0) =~= docs.remove(a.0));
    match cmd {
        Command::MoveBoundary { boundary, to, mode, .. } => {
            let linked = mode == crate::model::AlignMode::Linked;
            let (tier, at) = crate::boundary_edits::boundary_location(d.tiers, boundary)->Some_0;
            let idxs = move_targets(d.tiers, boundary, tier, linked)->Ok_0;
            lemma_move_targets_ok(d.tiers, boundary, tier, linked);
            let c = move_all(d, idxs, at, to)->Ok_0.0;
            lemma_move_all_frame(d, idxs, at, to);
            lemma_move_redo_round(d, idxs, at, to, d);
            assert(restore_at(d.tiers, c.tiers, idxs) =~= c.tiers);
        },
        _ => {},
    }
    let docs4 = reverse_outcome(docs2, res->Ok_0.2).0;
    assert(docs4.remove(a.0) =~= docs.remove(a.0));
}

#[verifier::spinoff_prover]
proof fn lemma_redo_remove_boundary<E>(
    docs: Map<u64, DocState>,
    a: AnnotationId,
    cmd: Command<E>,
    n3: (u64, u64, u64, u64),
)
    requires
        docs.contains_key(a.0),
        docs[a.0].1.0.valid(),
        undo_conditions(docs[a.0].1, cmd),
        edit_outcome(a, docs[a.0].1, cmd).1 is Ok,
        cmd is RemoveBoundary,
    ensures
        redo_restores(docs, a, cmd, n3),
{
    let (au, st) = docs[a.0];
    let (d, n) = st;
    let (st2, res) = edit_outcome(a, st, cmd);
    let docs2 = docs.insert(a.0, (au, (d, n3)));
    assert(docs2.remove(a.0) =~= docs.remove(a.0));
    match cmd {
        Command::RemoveBoundary { .. } => {},
        _ => {},
    }
    let docs4 = reverse_outcome(docs2, res->Ok_0.2).0;
    assert(docs4.remove(a.0) =~= docs.remove(a.0));
}

#[verifier::spinoff_prover]
proof fn lemma_redo_set_label<E>(
    docs: Map<u64, DocState>,
    a: AnnotationId,
    cmd: Command<E>,
    n3: (u64, u64, u64, u64),
)
    requires
        docs.contains_key(a.0),
        docs[a.0].1.0.valid(),
        undo_conditions(docs[a.0].1, cmd),
        edit_outcome(a, docs[a.0].1, cmd).1 is Ok,
        cmd is SetLabel,
    ensures
        redo_restores(docs, a, cmd, n3),
{
    let (au, st) = docs[a.0];
    let (d, n) = st;
    let (st2, res) = edit_outcome(a, st, cmd);
    let docs2 = docs.insert(a.0, (au, (d, n3)));
    assert(docs2.remove(a.0) =~= docs.remove(a.0));
    match cmd {
        Command::SetLabel { .. } => {},
        _ => {},
    }
    let docs4 = reverse_outcome(docs2, res->Ok_0.2).0;
    assert(docs4.remove(a.0) =~= docs.remove(a.0));
}

#[verifier::spinoff_prover]
proof fn lemma_redo_insert_point<E>(
    docs: Map<u64, DocState>,
    a: AnnotationId,
    cmd: Command<E>,
    n3: (u64, u64, u64, u64),
)
    requires
        docs.contains_key(a.0),
        docs[a.0].1.0.valid(),
        undo_conditions(docs[a.0].1, cmd),
        edit_outcome(a, docs[a.0].1, cmd).1 is Ok,
        cmd is InsertPoint,
    ensures
        redo_restores(docs, a, cmd, n3),
{
    let (au, st) = docs[a.0];
    let (d, n) = st;
    let (st2, res) = edit_outcome(a, st, cmd);
    let docs2 = docs.insert(a.0, (au, (d, n3)));
    assert(docs2.remove(a.0) =~= docs.remove(a.0));
    match cmd {
        Command::InsertPoint { .. } => {},
        _ => {},
    }
    let docs4 = reverse_outcome(docs2, res->Ok_0.2).0;
    assert(docs4.remove(a.0) =~= docs.remove(a.0));
}

#[verifier::spinoff_prover]
proof fn lemma_redo_move_point<E>(
    docs: Map<u64, DocState>,
    a: AnnotationId,
    cmd: Command<E>,
    n3: (u64, u64, u64, u64),
)
    requires
        docs.contains_key(a.0),
        docs[a.0].1.0.valid(),
        undo_conditions(docs[a.0].1, cmd),
        edit_outcome(a, docs[a.0].1, cmd).1 is Ok,
        cmd is MovePoint,
    ensures
        redo_restores(docs, a, cmd, n3),
{
    let (au, st) = docs[a.0];
    let (d, n) = st;
    let (st2, res) = edit_outcome(a, st, cmd);
    let docs2 = docs.insert(a.0, (au, (d, n3)));
    assert(docs2.remove(a.0) =~= docs.remove(a.0));
    match cmd {
        Command::MovePoint { .. } => {},
        _ => {},
    }
    let docs4 = reverse_outcome(docs2, res->Ok_0.2).0;
    assert(docs4.remove(a.0) =~= docs.remove(a.0));
}

#[verifier::spinoff_prover]
proof fn lemma_redo_remove_point<E>(
    docs: Map<u64, DocState>,
    a: AnnotationId,
    cmd: Command<E>,
    n3: (u64, u64, u64, u64),
)
    requires
        docs.contains_key(a.0),
        docs[a.0].1.0.valid(),
        undo_conditions(docs[a.0].1, cmd),
        edit_outcome(a, docs[a.0].1, cmd).1 is Ok,
        cmd is RemovePoint,
    ensures
        redo_restores(docs, a, cmd, n3),
{
    let (au, st) = docs[a.0];
    let (d, n) = st;
    let (st2, res) = edit_outcome(a, st, cmd);
    let docs2 = docs.insert(a.0, (au, (d, n3)));
    assert(docs2.remove(a.0) =~= docs.remove(a.0));
    match cmd {
        Command::RemovePoint { .. } => {},
        _ => {},
    }
    let docs4 = reverse_outcome(docs2, res->Ok_0.2).0;
    assert(docs4.remove(a.0) =~= docs.remove(a.0));
}

#[verifier::spinoff_prover]
proof fn lemma_redo_reorder_tier<E>(
    docs: Map<u64, DocState>,
    a: AnnotationId,
    cmd: Command<E>,
    n3: (u64, u64, u64, u64),
)
    requires
        docs.contains_key(a.0),
        docs[a.0].1.0.valid(),
        undo_conditions(docs[a.0].1, cmd),
        edit_outcome(a, docs[a.0].1, cmd).1 is Ok,
        cmd is ReorderTier,
    ensures
        redo_restores(docs, a, cmd, n3),
{
    let (au, st) = docs[a.0];
    let (d, n) = st;
    let (st2, res) = edit_outcome(a, st, cmd);
    let docs2 = docs.insert(a.0, (au, (d, n3)));
    assert(docs2.remove(a.0) =~= docs.remove(a.0));
    match cmd {
        Command::ReorderTier { tier, to_index, .. } => {
            let (c, from, to) = spec_reorder_tier(d, tier, to_index as int)->Ok_0;
            assert(spec_reorder_tier(d, tier, to) == spec_reorder_tier(d, tier, to_index as int));
        },
        _ => {},
    }
    let docs4 = reverse_outcome(docs2, res->Ok_0.2).0;
    assert(docs4.remove(a.0) =~= docs.remove(a.0));
}

} // verus!
