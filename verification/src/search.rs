//! Label search: literal substrings matched byte-wise, leftmost and without
//! overlap, and regular expressions matched by the `regex` crate.
use vstd::prelude::*;
use vstd::string::StringSliceAdditionalSpecFns;

use crate::annotation::Annotation;
use crate::ids::TierId;
use crate::model::{
    intervals_view, points_view, slots_view, IntervalView, LabelTarget, PointView, SlotView, Tier,
    TierSlot, TierView,
};

verus! {

/// Search query for interval and point labels.
#[derive(Debug)]
pub struct LabelQuery {
    /// Pattern used to match label text.
    pub pattern: LabelPattern,
    /// Optional tier filter; `None` searches all tiers.
    pub tiers: Option<Vec<TierId>>,
}

/// Label search pattern.
#[derive(Debug)]
pub enum LabelPattern {
    /// Literal substring search.
    Substring(String),
    /// Rust `regex` crate pattern.
    Regex(String),
}

/// Search hit with tier, label target, and byte match span.
#[derive(Clone, Copy, Debug, PartialEq, Eq, Structural)]
pub struct Hit {
    /// Tier containing the matched label.
    pub tier: TierId,
    /// Label target containing the matched text.
    pub target: LabelTarget,
    /// Byte span of the match within the label string.
    pub span: MatchSpan,
}

/// Byte span for a search match inside a UTF-8 label string.
#[derive(Clone, Copy, Debug, PartialEq, Eq, Structural)]
pub struct MatchSpan {
    /// Inclusive start byte offset.
    pub start: usize,
    /// Exclusive end byte offset.
    pub end: usize,
}

impl LabelQuery {
    /// Creates a substring query over all tiers.
    pub fn substring(text: &str) -> (q: LabelQuery)
        ensures
            q.pattern matches LabelPattern::Substring(t) && t@ == text@,
            q.tiers is None,
    {
        LabelQuery { pattern: LabelPattern::Substring(text.to_owned()), tiers: None }
    }

    /// Creates a regular expression query over all tiers.
    ///
    /// Invalid regular expression syntax produces no hits when passed to `search`.
    pub fn regex(pattern: &str) -> (q: LabelQuery)
        ensures
            q.pattern matches LabelPattern::Regex(t) && t@ == pattern@,
            q.tiers is None,
    {
        LabelQuery { pattern: LabelPattern::Regex(pattern.to_owned()), tiers: None }
    }

    /// Returns this query restricted to the supplied tiers.
    pub fn in_tiers(self, tiers: Vec<TierId>) -> (q: LabelQuery)
        ensures
            q.pattern == self.pattern,
            q.tiers matches Some(v) && v@ == tiers@,
    {
        LabelQuery { pattern: self.pattern, tiers: Some(tiers) }
    }
}

// ----------------------------------------------------------------------------
// Regular expressions
// ----------------------------------------------------------------------------

#[verifier::external_type_specification]
#[verifier::external_body]
pub struct ExRegex(regex::Regex);

/// Whether `regex::Regex::new` accepts a pattern (syntax and size limit).
pub uninterp spec fn regex_compiles(pattern: Seq<char>) -> bool;

/// The byte spans `regex::Regex::find_iter` yields for a pattern on a haystack,
/// in order.
pub uninterp spec fn regex_spans(pattern: Seq<char>, haystack: Seq<char>) -> Seq<(usize, usize)>;

/// A compiled regular expression together with the pattern it was compiled
/// from.
pub struct RegexMatcher {
    pattern: String,
    regex: regex::Regex,
}

impl View for RegexMatcher {
    type V = Seq<char>;

    closed spec fn view(&self) -> Seq<char> {
        self.pattern@
    }
}

/// Compiles `pattern` with `regex::Regex::new`.
///
/// Trusted: the result is present exactly when the crate accepts the pattern,
/// which depends on the pattern alone; the matcher keeps the pattern it was
/// compiled from.
#[verifier::external_body]
fn compile_regex(pattern: &str) -> (r: Option<RegexMatcher>)
    ensures
        r is Some <==> regex_compiles(pattern@),
        r matches Some(m) ==> m@ == pattern@,
{
    match regex::Regex::new(pattern) {
        Ok(regex) => Some(RegexMatcher { pattern: pattern.to_owned(), regex }),
        Err(_) => None,
    }
}

/// The spans of `regex::Regex::find_iter` over `text`, as start and end byte
/// offsets.
///
/// Trusted: the spans are those the crate yields for the matcher's pattern on
/// `text`, a function of the two alone; nothing more is claimed of them.
#[verifier::external_body]
fn regex_find_all(m: &RegexMatcher, text: &str) -> (r: Vec<(usize, usize)>)
    ensures
        r@ == regex_spans(m@, text@),
{
    m.regex.find_iter(text).map(|found| (found.start(), found.end())).collect()
}

// ----------------------------------------------------------------------------
// Substrings
// ----------------------------------------------------------------------------

/// `needle` occurs in `text` at byte `p`.
pub open spec fn occurs_at(text: Seq<u8>, needle: Seq<u8>, p: int) -> bool {
    &&& 0 <= p
    &&& p + needle.len() <= text.len()
    &&& text.subrange(p, p + needle.len()) == needle
}

/// The leftmost non-overlapping occurrences of `needle` in `text` from byte
/// `from` on, as byte spans; none for an empty needle.
pub open spec fn substring_spans(text: Seq<u8>, needle: Seq<u8>, from: int) -> Seq<(int, int)>
    decreases text.len() - from,
{
    if needle.len() == 0 || from < 0 || from + needle.len() > text.len() {
        Seq::empty()
    } else if occurs_at(text, needle, from) {
        seq![(from, from + needle.len())] + substring_spans(text, needle, from + needle.len())
    } else {
        substring_spans(text, needle, from + 1)
    }
}

/// Spans as the pairs of offsets the search reports.
pub open spec fn as_offsets(s: Seq<(int, int)>) -> Seq<(usize, usize)> {
    s.map_values(|p: (int, int)| (p.0 as usize, p.1 as usize))
}

/// Whether `needle` occurs in `text` at byte `p`.
fn occurs(text: &[u8], needle: &[u8], p: usize) -> (r: bool)
    requires
        p + needle.len() <= text.len(),
    ensures
        r == occurs_at(text@, needle@, p as int),
{
    let mut j: usize = 0;
    while j < needle.len()
        invariant
            j <= needle.len(),
            p + needle.len() <= text.len(),
            forall|k: int| 0 <= k < j ==> text@[p + k] == needle@[k],
        decreases needle.len() - j,
    {
        if text[p + j] != needle[j] {
            assert(text@.subrange(p as int, p + needle.len())[j as int] != needle@[j as int]);
            return false;
        }
        j += 1;
    }
    assert(text@.subrange(p as int, p + needle.len()) =~= needle@);
    true
}

/// The leftmost non-overlapping byte spans of `needle` in `text`.
fn find_substring(text: &str, needle: &str) -> (r: Vec<(usize, usize)>)
    ensures
        r@ == as_offsets(substring_spans(text.spec_bytes(), needle.spec_bytes(), 0)),
{
    let t = text.as_bytes();
    let n = needle.as_bytes();
    let ghost tb = text.spec_bytes();
    let ghost nb = needle.spec_bytes();
    let mut r: Vec<(usize, usize)> = Vec::new();
    if n.len() == 0 {
        assert(r@ =~= as_offsets(substring_spans(tb, nb, 0)));
        return r;
    }
    let mut p: usize = 0;
    while p <= t.len() && n.len() <= t.len() - p
        invariant
            t@ == tb,
            n@ == nb,
            n.len() > 0,
            as_offsets(substring_spans(tb, nb, 0)) == r@ + as_offsets(substring_spans(tb, nb, p as int)),
        decreases t.len() - p,
    {
        if occurs(t, n, p) {
            let ghost before = r@;
            r.push((p, p + n.len()));
            proof {
                let rest = substring_spans(tb, nb, p + nb.len());
                assert(substring_spans(tb, nb, p as int) == seq![(p as int, p + nb.len())] + rest);
                assert(as_offsets(seq![(p as int, p + nb.len())] + rest) =~= seq![(p, (p + n.len()) as usize)] + as_offsets(rest));
                assert(before + (seq![(p, (p + n.len()) as usize)] + as_offsets(rest)) =~= r@ + as_offsets(rest));
            }
            p = p + n.len();
        } else {
            p = p + 1;
        }
    }
    proof {
        assert(substring_spans(tb, nb, p as int) =~= Seq::<(int, int)>::empty());
        assert(r@ + as_offsets(Seq::<(int, int)>::empty()) =~= r@);
    }
    r
}

// ----------------------------------------------------------------------------
// Hits
// ----------------------------------------------------------------------------

/// A compiled search pattern.
enum Matcher {
    Substring(String),
    Regex(RegexMatcher),
}

/// Value of a compiled search pattern.
pub enum MatcherView {
    Substring(Seq<char>),
    Regex(Seq<char>),
}

impl View for Matcher {
    type V = MatcherView;

    closed spec fn view(&self) -> MatcherView {
        match self {
            Matcher::Substring(t) => MatcherView::Substring(t@),
            Matcher::Regex(m) => MatcherView::Regex(m@),
        }
    }
}

/// The spans a matcher finds in a label.
pub open spec fn label_spans(m: MatcherView, label: Seq<char>) -> Seq<(usize, usize)> {
    match m {
        MatcherView::Substring(needle) => as_offsets(
            substring_spans(
                vstd::utf8::encode_utf8(label),
                vstd::utf8::encode_utf8(needle),
                0,
            ),
        ),
        MatcherView::Regex(pattern) => regex_spans(pattern, label),
    }
}

/// One hit per span of a label.
pub open spec fn label_hits(tier: TierId, target: LabelTarget, spans: Seq<(usize, usize)>) -> Seq<
    Hit,
> {
    spans.map_values(
        |p: (usize, usize)| Hit { tier, target, span: MatchSpan { start: p.0, end: p.1 } },
    )
}

/// Hits in the labels of a tier's intervals, in order.
pub open spec fn interval_hits(tier: TierId, s: Seq<IntervalView>, m: MatcherView) -> Seq<Hit>
    decreases s.len(),
{
    if s.len() == 0 {
        Seq::empty()
    } else {
        interval_hits(tier, s.drop_last(), m) + label_hits(
            tier,
            LabelTarget::Interval { tier, interval: s.last().id },
            label_spans(m, s.last().label),
        )
    }
}

/// Hits in the labels of a tier's points, in order.
pub open spec fn point_hits(tier: TierId, s: Seq<PointView>, m: MatcherView) -> Seq<Hit>
    decreases s.len(),
{
    if s.len() == 0 {
        Seq::empty()
    } else {
        point_hits(tier, s.drop_last(), m) + label_hits(
            tier,
            LabelTarget::Point { tier, point: s.last().id },
            label_spans(m, s.last().label),
        )
    }
}

/// Hits in one tier.
pub open spec fn slot_hits(s: SlotView, m: MatcherView) -> Seq<Hit> {
    match s.tier {
        TierView::Interval { intervals, .. } => interval_hits(s.id, intervals, m),
        TierView::Point { points, .. } => point_hits(s.id, points, m),
    }
}

/// The filter admits a tier.
pub open spec fn admits(filter: Option<Seq<TierId>>, id: TierId) -> bool {
    match filter {
        None => true,
        Some(f) => f.contains(id),
    }
}

/// Hits over the tiers the filter admits, in document order.
pub open spec fn doc_hits(tiers: Seq<SlotView>, filter: Option<Seq<TierId>>, m: MatcherView) -> Seq<
    Hit,
>
    decreases tiers.len(),
{
    if tiers.len() == 0 {
        Seq::empty()
    } else {
        doc_hits(tiers.drop_last(), filter, m) + if admits(filter, tiers.last().id) {
            slot_hits(tiers.last(), m)
        } else {
            Seq::empty()
        }
    }
}

/// The tier filter of a query as a value.
pub open spec fn filter_view(tiers: Option<Vec<TierId>>) -> Option<Seq<TierId>> {
    match tiers {
        Some(v) => Some(v@),
        None => None,
    }
}

/// The spans a matcher finds in a label.
fn find_all(m: &Matcher, text: &str) -> (r: Vec<(usize, usize)>)
    ensures
        r@ == label_spans(m@, text@),
{
    match m {
        Matcher::Substring(needle) => find_substring(text, needle.as_str()),
        Matcher::Regex(re) => regex_find_all(re, text),
    }
}

/// Appends one hit per span.
fn push_hits(
    hits: &mut Vec<Hit>,
    tier: TierId,
    target: LabelTarget,
    spans: &Vec<(usize, usize)>,
)
    ensures
        final(hits)@ == old(hits)@ + label_hits(tier, target, spans@),
{
    let ghost start = hits@;
    let mut k: usize = 0;
    while k < spans.len()
        invariant
            k <= spans.len(),
            hits@ == start + label_hits(tier, target, spans@.take(k as int)),
        decreases spans.len() - k,
    {
        let (a, b) = spans[k];
        hits.push(Hit { tier, target, span: MatchSpan { start: a, end: b } });
        proof {
            assert(label_hits(tier, target, spans@.take(k as int + 1)) =~= label_hits(
                tier,
                target,
                spans@.take(k as int),
            ).push(Hit { tier, target, span: MatchSpan { start: a, end: b } }));
        }
        k += 1;
    }
    assert(spans@.take(k as int) =~= spans@);
}

/// Whether a tier filter admits `id`.
fn filter_admits(filter: &Option<Vec<TierId>>, id: TierId) -> (r: bool)
    ensures
        r == admits(filter_view(*filter), id),
{
    match filter {
        None => true,
        Some(v) => {
            let mut k: usize = 0;
            while k < v.len()
                invariant
                    k <= v.len(),
                    filter_view(*filter) == Some(v@),
                    forall|j: int| 0 <= j < k ==> v@[j] != id,
                decreases v.len() - k,
            {
                if v[k] == id {
                    assert(v@[k as int] == id);
                    assert(v@.contains(id));
                    return true;
                }
                k += 1;
            }
            false
        },
    }
}

/// Hits in one tier.
fn tier_hits(hits: &mut Vec<Hit>, slot: &TierSlot, m: &Matcher)
    ensures
        final(hits)@ == old(hits)@ + slot_hits(slot@, m@),
{
    let ghost start = hits@;
    match &slot.tier {
        Tier::Interval(t) => {
            let ghost s = intervals_view(t.intervals@);
            let mut k: usize = 0;
            while k < t.intervals.len()
                invariant
                    k <= t.intervals.len(),
                    s == intervals_view(t.intervals@),
                    hits@ == start + interval_hits(slot.id, s.take(k as int), m@),
                decreases t.intervals.len() - k,
            {
                let interval = &t.intervals[k];
                let spans = find_all(m, interval.label.as_str());
                let ghost before = hits@;
                push_hits(hits, slot.id, LabelTarget::Interval { tier: slot.id, interval: interval.id }, &spans);
                proof {
                    assert(s.take(k as int + 1).drop_last() =~= s.take(k as int));
                    assert(s.take(k as int + 1).last() == interval@);
                    assert(start + interval_hits(slot.id, s.take(k as int), m@) + label_hits(
                        slot.id,
                        LabelTarget::Interval { tier: slot.id, interval: interval.id },
                        spans@,
                    ) =~= start + interval_hits(slot.id, s.take(k as int + 1), m@));
                }
                k += 1;
            }
            assert(s.take(k as int) =~= s);
        },
        Tier::Point(t) => {
            let ghost s = points_view(t.points@);
            let mut k: usize = 0;
            while k < t.points.len()
                invariant
                    k <= t.points.len(),
                    s == points_view(t.points@),
                    hits@ == start + point_hits(slot.id, s.take(k as int), m@),
                decreases t.points.len() - k,
            {
                let point = &t.points[k];
                let spans = find_all(m, point.label.as_str());
                push_hits(hits, slot.id, LabelTarget::Point { tier: slot.id, point: point.id }, &spans);
                proof {
                    assert(s.take(k as int + 1).drop_last() =~= s.take(k as int));
                    assert(s.take(k as int + 1).last() == point@);
                    assert(start + point_hits(slot.id, s.take(k as int), m@) + label_hits(
                        slot.id,
                        LabelTarget::Point { tier: slot.id, point: point.id },
                        spans@,
                    ) =~= start + point_hits(slot.id, s.take(k as int + 1), m@));
                }
                k += 1;
            }
            assert(s.take(k as int) =~= s);
        },
    }
}

/// Hits over the tiers the filter admits, in document order.
fn collect_hits(tiers: &[TierSlot], filter: &Option<Vec<TierId>>, m: &Matcher) -> (r: Vec<Hit>)
    ensures
        r@ == doc_hits(slots_view(tiers@), filter_view(*filter), m@),
{
    let ghost sv = slots_view(tiers@);
    let mut hits: Vec<Hit> = Vec::new();
    let mut i: usize = 0;
    while i < tiers.len()
        invariant
            i <= tiers.len(),
            sv == slots_view(tiers@),
            hits@ == doc_hits(sv.take(i as int), filter_view(*filter), m@),
        decreases tiers.len() - i,
    {
        let slot = &tiers[i];
        proof {
            assert(sv.take(i as int + 1).drop_last() =~= sv.take(i as int));
            assert(sv.take(i as int + 1).last() == slot@);
        }
        if filter_admits(filter, slot.id) {
            tier_hits(&mut hits, slot, m);
        } else {
            assert(hits@ + Seq::<Hit>::empty() =~= hits@);
        }
        i += 1;
    }
    assert(sv.take(i as int) =~= sv);
    hits
}

/// The hits a query finds in a document's tiers.
pub open spec fn query_hits(tiers: Seq<SlotView>, query: LabelQuery) -> Seq<Hit> {
    match query.pattern {
        LabelPattern::Substring(t) => doc_hits(
            tiers,
            filter_view(query.tiers),
            MatcherView::Substring(t@),
        ),
        LabelPattern::Regex(p) => if regex_compiles(p@) {
            doc_hits(tiers, filter_view(query.tiers), MatcherView::Regex(p@))
        } else {
            Seq::<Hit>::empty()
        },
    }
}

impl Annotation {
    /// Searches interval and point labels and returns byte spans for every match.
    ///
    /// Hits come tier by tier in document order, label by label, span by span.
    /// A substring query finds leftmost non-overlapping byte occurrences and
    /// nothing for an empty needle; a regular expression that fails to compile
    /// finds nothing.
    pub fn search(&self, query: &LabelQuery) -> (r: Vec<Hit>)
        ensures
            r@ == query_hits(self@.tiers, *query),
    {
        let matcher = match &query.pattern {
            LabelPattern::Substring(text) => Matcher::Substring(text.clone()),
            LabelPattern::Regex(pattern) => match compile_regex(pattern.as_str()) {
                Some(m) => Matcher::Regex(m),
                None => return Vec::new(),
            },
        };
        collect_hits(self.tiers(), &query.tiers, &matcher)
    }
}

// ----------------------------------------------------------------------------
// What a tier filter does
// ----------------------------------------------------------------------------

/// Keeping what every element satisfies keeps the whole sequence.
proof fn lemma_filter_keeps_all(s: Seq<Hit>, p: spec_fn(Hit) -> bool)
    requires
        forall|i: int| 0 <= i < s.len() ==> p(#[trigger] s[i]),
    ensures
        s.filter(p) == s,
    decreases s.len(),
{
    reveal(Seq::filter);
    if s.len() > 0 {
        lemma_filter_keeps_all(s.drop_last(), p);
        assert(s.drop_last().push(s.last()) =~= s);
    }
}

/// Keeping what no element satisfies keeps nothing.
proof fn lemma_filter_keeps_none(s: Seq<Hit>, p: spec_fn(Hit) -> bool)
    requires
        forall|i: int| 0 <= i < s.len() ==> !p(#[trigger] s[i]),
    ensures
        s.filter(p) == Seq::<Hit>::empty(),
    decreases s.len(),
{
    reveal(Seq::filter);
    if s.len() > 0 {
        lemma_filter_keeps_none(s.drop_last(), p);
    }
}

/// Every hit in a label lies in the tier it was found in.
proof fn lemma_label_hits_tier(tier: TierId, target: LabelTarget, spans: Seq<(usize, usize)>)
    ensures
        forall|q: int|
            0 <= q < label_hits(tier, target, spans).len() ==> (#[trigger] label_hits(
                tier,
                target,
                spans,
            )[q]).tier == tier,
{
}

/// Every hit among a tier's intervals lies in that tier.
proof fn lemma_interval_hits_tier(tier: TierId, s: Seq<IntervalView>, m: MatcherView)
    ensures
        forall|q: int|
            0 <= q < interval_hits(tier, s, m).len() ==> (#[trigger] interval_hits(tier, s, m)[q]).tier
                == tier,
    decreases s.len(),
{
    if s.len() > 0 {
        lemma_interval_hits_tier(tier, s.drop_last(), m);
        let a = interval_hits(tier, s.drop_last(), m);
        let b = label_hits(
            tier,
            LabelTarget::Interval { tier, interval: s.last().id },
            label_spans(m, s.last().label),
        );
        lemma_label_hits_tier(tier, LabelTarget::Interval { tier, interval: s.last().id }, label_spans(m, s.last().label));
        assert forall|q: int| 0 <= q < (a + b).len() implies (#[trigger] (a + b)[q]).tier == tier by {
            if q >= a.len() {
                assert((a + b)[q] == b[q - a.len()]);
            }
        }
    }
}

/// Every hit among a tier's points lies in that tier.
proof fn lemma_point_hits_tier(tier: TierId, s: Seq<PointView>, m: MatcherView)
    ensures
        forall|q: int|
            0 <= q < point_hits(tier, s, m).len() ==> (#[trigger] point_hits(tier, s, m)[q]).tier == tier,
    decreases s.len(),
{
    if s.len() > 0 {
        lemma_point_hits_tier(tier, s.drop_last(), m);
        let a = point_hits(tier, s.drop_last(), m);
        let b = label_hits(
            tier,
            LabelTarget::Point { tier, point: s.last().id },
            label_spans(m, s.last().label),
        );
        lemma_label_hits_tier(tier, LabelTarget::Point { tier, point: s.last().id }, label_spans(m, s.last().label));
        assert forall|q: int| 0 <= q < (a + b).len() implies (#[trigger] (a + b)[q]).tier == tier by {
            if q >= a.len() {
                assert((a + b)[q] == b[q - a.len()]);
            }
        }
    }
}

/// Every hit in a tier lies in that tier.
proof fn lemma_slot_hits_tier(s: SlotView, m: MatcherView)
    ensures
        forall|q: int| 0 <= q < slot_hits(s, m).len() ==> (#[trigger] slot_hits(s, m)[q]).tier == s.id,
{
    match s.tier {
        TierView::Interval { intervals, .. } => lemma_interval_hits_tier(s.id, intervals, m),
        TierView::Point { points, .. } => lemma_point_hits_tier(s.id, points, m),
    }
}

/// Whether a tier id is among the ids a query is restricted to (every tier
/// when it names none).
pub open spec fn listed_in(tiers: Option<Vec<TierId>>, id: TierId) -> bool {
    match tiers {
        None => true,
        Some(v) => v@.contains(id),
    }
}

/// Over the tiers of `tiers`, a filtered scan finds exactly the hits of an
/// unfiltered scan that lie in a tier the filter lists.
proof fn lemma_doc_hits_filtered(tiers: Seq<SlotView>, filter: Option<Vec<TierId>>, m: MatcherView)
    ensures
        doc_hits(tiers, filter_view(filter), m) == doc_hits(tiers, None, m).filter(
            |h: Hit| listed_in(filter, h.tier),
        ),
    decreases tiers.len(),
{
    let p = |h: Hit| listed_in(filter, h.tier);
    reveal(Seq::filter);
    if tiers.len() > 0 {
        lemma_doc_hits_filtered(tiers.drop_last(), filter, m);
        let a = doc_hits(tiers.drop_last(), None, m);
        let b = slot_hits(tiers.last(), m);
        assert(doc_hits(tiers, None, m) == a + b);
        Seq::filter_distributes_over_add(a, b, p);
        lemma_slot_hits_tier(tiers.last(), m);
        if listed_in(filter, tiers.last().id) {
            lemma_filter_keeps_all(b, p);
        } else {
            lemma_filter_keeps_none(b, p);
            assert(doc_hits(tiers.drop_last(), filter_view(filter), m) + Seq::<Hit>::empty()
                =~= doc_hits(tiers.drop_last(), filter_view(filter), m));
        }
    }
}

/// A search restricted to some tiers returns exactly the hits of the same
/// search over every tier that lie in one of those tiers, in the same
/// order: the restriction drops hits outside the listed tiers and keeps
/// every hit inside them.
pub proof fn law_search_filter_selects(tiers: Seq<SlotView>, query: LabelQuery)
    ensures
        query_hits(tiers, query) == query_hits(
            tiers,
            LabelQuery { pattern: query.pattern, tiers: None },
        ).filter(|h: Hit| listed_in(query.tiers, h.tier)),
{
    let p = |h: Hit| listed_in(query.tiers, h.tier);
    match query.pattern {
        LabelPattern::Substring(t) => {
            lemma_doc_hits_filtered(tiers, query.tiers, MatcherView::Substring(t@));
        },
        LabelPattern::Regex(pat) => {
            if regex_compiles(pat@) {
                lemma_doc_hits_filtered(tiers, query.tiers, MatcherView::Regex(pat@));
            } else {
                lemma_filter_keeps_none(Seq::<Hit>::empty(), p);
            }
        },
    }
}

/// Every hit a search returns lies in a tier its filter lists: when the
/// query is restricted to some tier ids, each hit's tier is one of them.
pub proof fn law_search_hits_in_listed_tiers(tiers: Seq<SlotView>, query: LabelQuery)
    ensures
        forall|q: int|
            0 <= q < query_hits(tiers, query).len() ==> listed_in(
                query.tiers,
                (#[trigger] query_hits(tiers, query)[q]).tier,
            ),
{
    law_search_filter_selects(tiers, query);
    let all = query_hits(tiers, LabelQuery { pattern: query.pattern, tiers: None });
    let p = |h: Hit| listed_in(query.tiers, h.tier);
    assert forall|q: int| 0 <= q < query_hits(tiers, query).len() implies listed_in(
        query.tiers,
        (#[trigger] query_hits(tiers, query)[q]).tier,
    ) by {
        all.lemma_filter_pred(p, q);
    }
}

/// Every span a substring search reports in `text` from byte `from` on
/// starts at or after `from`, is exactly as long as the needle, and covers
/// bytes equal to the needle; the spans come left to right without
/// overlapping; an empty needle is reported nowhere.
pub proof fn law_substring_spans_match(text: Seq<u8>, needle: Seq<u8>, from: int)
    ensures
        ({
            let s = substring_spans(text, needle, from);
            &&& needle.len() == 0 ==> s.len() == 0
            &&& forall|i: int|
                0 <= i < s.len() ==> {
                    &&& from <= (#[trigger] s[i]).0
                    &&& s[i].1 == s[i].0 + needle.len()
                    &&& s[i].1 <= text.len()
                    &&& text.subrange(s[i].0, s[i].1) == needle
                }
            &&& forall|i: int| 0 < i < s.len() ==> s[i - 1].1 <= (#[trigger] s[i]).0
        }),
    decreases text.len() - from,
{
    let s = substring_spans(text, needle, from);
    if needle.len() == 0 || from < 0 || from + needle.len() > text.len() {
    } else if occurs_at(text, needle, from) {
        let n = needle.len() as int;
        law_substring_spans_match(text, needle, from + n);
        let rest = substring_spans(text, needle, from + n);
        assert(s == seq![(from, from + n)] + rest);
        assert forall|i: int| 0 <= i < s.len() implies {
            &&& from <= (#[trigger] s[i]).0
            &&& s[i].1 == s[i].0 + needle.len()
            &&& s[i].1 <= text.len()
            &&& text.subrange(s[i].0, s[i].1) == needle
        } by {
            if i > 0 {
                assert(s[i] == rest[i - 1]);
            }
        }
        assert forall|i: int| 0 < i < s.len() implies s[i - 1].1 <= (#[trigger] s[i]).0 by {
            assert(s[i] == rest[i - 1]);
            if i > 1 {
                assert(s[i - 1] == rest[i - 2]);
            }
        }
    } else {
        law_substring_spans_match(text, needle, from + 1);
        let rest = substring_spans(text, needle, from + 1);
        assert(s == rest);
        assert forall|i: int| 0 <= i < s.len() implies from <= (#[trigger] s[i]).0 by {
            assert(from + 1 <= rest[i].0);
        }
    }
}

} // verus!
