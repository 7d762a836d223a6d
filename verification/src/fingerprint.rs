//! A document as a flat list of words, in scan order: the plain values a
//! fingerprint of the document is taken over.
use vstd::prelude::*;
use vstd::string::StrSliceExecFns;

use crate::annotation::Annotation;
use crate::model::{
    intervals_view, points_view, slots_view, DocView, Interval, IntervalView, Point, PointView,
    SlotView, Tier, TierRelation, TierSlot, TierView,
};

verus! {

/// A text: its length in characters, then each character's code point.
pub open spec fn text_words(s: Seq<char>) -> Seq<u64> {
    seq![s.len() as u64] + s.map_values(|c: char| c as u64)
}

/// One interval: its ids, the order keys of its times, then its label.
pub open spec fn interval_words(iv: IntervalView) -> Seq<u64> {
    seq![iv.id.0, iv.start_boundary.0, iv.end_boundary.0, iv.xmin.key as u64, iv.xmax.key as u64]
        + text_words(iv.label)
}

/// Intervals in order.
pub open spec fn intervals_words(s: Seq<IntervalView>) -> Seq<u64>
    decreases s.len(),
{
    if s.len() == 0 {
        Seq::empty()
    } else {
        intervals_words(s.drop_last()) + interval_words(s.last())
    }
}

/// One point: its id, the order key of its time, then its label.
pub open spec fn point_words(p: PointView) -> Seq<u64> {
    seq![p.id.0, p.time.key as u64] + text_words(p.label)
}

/// Points in order.
pub open spec fn points_words(s: Seq<PointView>) -> Seq<u64>
    decreases s.len(),
{
    if s.len() == 0 {
        Seq::empty()
    } else {
        points_words(s.drop_last()) + point_words(s.last())
    }
}

/// A relation: a tag, then the related tier id (0 when independent).
pub open spec fn relation_words(r: TierRelation) -> Seq<u64> {
    match r {
        TierRelation::Independent => seq![0u64, 0u64],
        TierRelation::AlignedBoundaries { with } => seq![1u64, with.0],
        TierRelation::ChildOf { parent } => seq![2u64, parent.0],
    }
}

/// A tier's payload: its kind, its name, its item count, then its items.
pub open spec fn tier_words(t: TierView) -> Seq<u64> {
    match t {
        TierView::Interval { name, intervals } => seq![0u64] + text_words(name) + seq![
            intervals.len() as u64,
        ] + intervals_words(intervals),
        TierView::Point { name, points } => seq![1u64] + text_words(name) + seq![
            points.len() as u64,
        ] + points_words(points),
    }
}

/// One tier: its id, its relation, then its payload.
pub open spec fn slot_words(s: SlotView) -> Seq<u64> {
    seq![s.id.0] + relation_words(s.relation) + tier_words(s.tier)
}

/// Tiers in document order.
pub open spec fn slots_words(s: Seq<SlotView>) -> Seq<u64>
    decreases s.len(),
{
    if s.len() == 0 {
        Seq::empty()
    } else {
        slots_words(s.drop_last()) + slot_words(s.last())
    }
}

/// A document: the order keys of its domain, its tier count, then its tiers.
pub open spec fn doc_words(d: DocView) -> Seq<u64> {
    seq![d.xmin.key as u64, d.xmax.key as u64, d.tiers.len() as u64] + slots_words(d.tiers)
}

fn push_text(out: &mut Vec<u64>, s: &str)
    ensures
        final(out)@ == old(out)@ + text_words(s@),
{
    let n = s.unicode_len();
    out.push(n as u64);
    let ghost base = old(out)@.push(n as u64);
    let mut i: usize = 0;
    while i < n
        invariant
            i <= n,
            n == s@.len(),
            out@ == base + s@.take(i as int).map_values(|c: char| c as u64),
        decreases n - i,
    {
        let c = s.get_char(i);
        out.push(c as u64);
        proof {
            assert(s@.take(i + 1) =~= s@.take(i as int).push(c));
            assert(s@.take(i + 1).map_values(|c: char| c as u64) =~= s@.take(i as int).map_values(
                |c: char| c as u64,
            ).push(c as u64));
        }
        i += 1;
    }
    proof {
        assert(s@.take(n as int) =~= s@);
        assert(old(out)@ + text_words(s@) =~= base + s@.map_values(|c: char| c as u64));
    }
}

fn push_intervals(out: &mut Vec<u64>, ivs: &Vec<Interval>)
    ensures
        final(out)@ == old(out)@ + intervals_words(intervals_view(ivs@)),
{
    let ghost base = old(out)@;
    let ghost vs = intervals_view(ivs@);
    let mut k: usize = 0;
    while k < ivs.len()
        invariant
            k <= ivs.len(),
            vs == intervals_view(ivs@),
            out@ == base + intervals_words(vs.take(k as int)),
        decreases ivs.len() - k,
    {
        let iv = &ivs[k];
        let ghost before = out@;
        out.push(iv.id.0);
        out.push(iv.start_boundary.0);
        out.push(iv.end_boundary.0);
        out.push(iv.xmin.key as u64);
        out.push(iv.xmax.key as u64);
        push_text(out, iv.label.as_str());
        proof {
            assert(vs.take(k + 1).drop_last() =~= vs.take(k as int));
            assert(vs[k as int] == iv@);
            assert(out@ =~= before + interval_words(vs[k as int]));
        }
        k += 1;
    }
    proof {
        assert(vs.take(k as int) =~= vs);
    }
}

fn push_points(out: &mut Vec<u64>, pts: &Vec<Point>)
    ensures
        final(out)@ == old(out)@ + points_words(points_view(pts@)),
{
    let ghost base = old(out)@;
    let ghost vs = points_view(pts@);
    let mut k: usize = 0;
    while k < pts.len()
        invariant
            k <= pts.len(),
            vs == points_view(pts@),
            out@ == base + points_words(vs.take(k as int)),
        decreases pts.len() - k,
    {
        let p = &pts[k];
        let ghost before = out@;
        out.push(p.id.0);
        out.push(p.time.key as u64);
        push_text(out, p.label.as_str());
        proof {
            assert(vs.take(k + 1).drop_last() =~= vs.take(k as int));
            assert(vs[k as int] == p@);
            assert(out@ =~= before + point_words(vs[k as int]));
        }
        k += 1;
    }
    proof {
        assert(vs.take(k as int) =~= vs);
    }
}

fn push_slot(out: &mut Vec<u64>, slot: &TierSlot)
    ensures
        final(out)@ == old(out)@ + slot_words(slot@),
{
    let ghost before = old(out)@;
    out.push(slot.id.0);
    match slot.relation {
        TierRelation::Independent => {
            out.push(0);
            out.push(0);
        },
        TierRelation::AlignedBoundaries { with } => {
            out.push(1);
            out.push(with.0);
        },
        TierRelation::ChildOf { parent } => {
            out.push(2);
            out.push(parent.0);
        },
    }
    let ghost mid = out@;
    match &slot.tier {
        Tier::Interval(t) => {
            out.push(0);
            push_text(out, t.name.as_str());
            out.push(t.intervals.len() as u64);
            push_intervals(out, &t.intervals);
            proof {
                assert(out@ =~= mid + tier_words(slot.tier@));
            }
        },
        Tier::Point(t) => {
            out.push(1);
            push_text(out, t.name.as_str());
            out.push(t.points.len() as u64);
            push_points(out, &t.points);
            proof {
                assert(out@ =~= mid + tier_words(slot.tier@));
            }
        },
    }
    proof {
        assert(mid =~= before + seq![slot.id.0] + relation_words(slot.relation));
        assert(out@ =~= before + slot_words(slot@));
    }
}

/// The document as words in scan order: the order keys of its domain, its
/// tier count, then each tier's id, relation, kind, name and items, with
/// every id, time key and label character in turn.
pub fn document_words(a: &Annotation) -> (r: Vec<u64>)
    ensures
        r@ == doc_words(a@),
{
    let tiers = a.tiers();
    let mut out: Vec<u64> = Vec::new();
    out.push(a.xmin().key as u64);
    out.push(a.xmax().key as u64);
    out.push(tiers.len() as u64);
    let ghost base = out@;
    let ghost vs = slots_view(tiers@);
    let mut k: usize = 0;
    while k < tiers.len()
        invariant
            k <= tiers.len(),
            vs == slots_view(tiers@),
            out@ == base + slots_words(vs.take(k as int)),
        decreases tiers.len() - k,
    {
        let ghost before = out@;
        push_slot(&mut out, &tiers[k]);
        proof {
            assert(vs.take(k + 1).drop_last() =~= vs.take(k as int));
            assert(vs[k as int] == tiers@[k as int]@);
        }
        k += 1;
    }
    proof {
        assert(vs.take(k as int) =~= vs);
        assert(vs.len() == a@.tiers.len());
    }
    out
}

} // verus!
