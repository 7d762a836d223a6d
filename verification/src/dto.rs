//! The flat shapes the desktop shell sends across its IPC boundary, and the
//! conversions from engine values into them.
use vstd::prelude::*;

use crate::annotation::Annotation;
use crate::model::{LabelTarget, SlotView, Tier, TierSlot, TierView, slots_view};
use crate::session::{Applied, AppliedView, EngineHit};

verus! {

/// One tier's identity and kind, in document order.
#[derive(Debug)]
pub struct TierInfoDto {
    /// Tier id.
    pub id: u64,
    /// Tier name.
    pub name: String,
    /// `"interval"` or `"point"`.
    pub kind: &'static str,
}

/// A cross-document label search hit.
#[derive(Debug)]
pub struct LabelHitDto {
    /// Document the hit was found in.
    pub annotation: u64,
    /// Tier holding the label.
    pub tier: u64,
    /// `"interval"` or `"point"`.
    pub kind: &'static str,
    /// Interval or point id.
    pub target: u64,
    /// Start byte offset, truncated to 32 bits.
    pub start: u32,
    /// End byte offset, truncated to 32 bits.
    pub end: u32,
}

/// What a command, undo, or redo changed, for incremental UI patching.
#[derive(Debug)]
pub struct AppliedDto {
    /// The kind of change, in camel case.
    pub kind: String,
    /// Document the change concerns, when it concerns one.
    pub annotation: Option<u64>,
    /// Audio the change concerns, when it concerns one.
    pub audio: Option<u64>,
    /// Tier the change concerns, when it concerns one.
    pub tier: Option<u64>,
    /// Boundary the change concerns, when it concerns one.
    pub boundary: Option<u64>,
}

/// A figure export bundle: the main document plus any sidecar files.
#[derive(Debug)]
pub struct ExportBundleDto {
    /// Suggested file name for the main document.
    pub main_name: String,
    /// Main document contents.
    pub main_bytes: Vec<u8>,
    /// MIME type of the main document.
    pub mime: String,
    /// Whether the main document is UTF-8 text.
    pub is_text: bool,
    /// Files the main document references.
    pub sidecars: Vec<SidecarDto>,
}

/// A named file emitted alongside an export's main document.
#[derive(Debug)]
pub struct SidecarDto {
    /// File name.
    pub name: String,
    /// File contents.
    pub bytes: Vec<u8>,
}

/// The kind label of a tier payload.
pub open spec fn tier_kind_label(t: TierView) -> Seq<char> {
    match t {
        TierView::Interval { .. } => "interval"@,
        TierView::Point { .. } => "point"@,
    }
}

/// The name of a tier payload.
pub open spec fn tier_name(t: TierView) -> Seq<char> {
    match t {
        TierView::Interval { name, .. } => name,
        TierView::Point { name, .. } => name,
    }
}

/// The tier listing of a document, in document order.
pub fn tier_infos(annotation: &Annotation) -> (r: Vec<TierInfoDto>)
    ensures
        r.len() == annotation@.tiers.len(),
        forall|k: int|
            0 <= k < r.len() ==> {
                &&& (#[trigger] r@[k]).id == annotation@.tiers[k].id.0
                &&& r@[k].name@ == tier_name(annotation@.tiers[k].tier)
                &&& r@[k].kind@ == tier_kind_label(annotation@.tiers[k].tier)
            },
{
    let tiers = annotation.tiers();
    let mut out: Vec<TierInfoDto> = Vec::new();
    let mut k: usize = 0;
    while k < tiers.len()
        invariant
            k <= tiers.len(),
            slots_view(tiers@) == annotation@.tiers,
            out.len() == k,
            forall|j: int|
                0 <= j < k ==> {
                    &&& (#[trigger] out@[j]).id == annotation@.tiers[j].id.0
                    &&& out@[j].name@ == tier_name(annotation@.tiers[j].tier)
                    &&& out@[j].kind@ == tier_kind_label(annotation@.tiers[j].tier)
                },
        decreases tiers.len() - k,
    {
        let slot = &tiers[k];
        assert(slot@ == annotation@.tiers[k as int]);
        let (name, kind) = match &slot.tier {
            Tier::Interval(t) => (t.name.clone(), "interval"),
            Tier::Point(t) => (t.name.clone(), "point"),
        };
        out.push(TierInfoDto { id: slot.id.get(), name, kind });
        k += 1;
    }
    out
}

/// The flat shape of a search hit.
pub fn label_hit_dto(hit: EngineHit) -> (r: LabelHitDto)
    ensures
        r.annotation == hit.annotation.0,
        r.tier == hit.hit.tier.0,
        r.start == hit.hit.span.start as u32,
        r.end == hit.hit.span.end as u32,
        match hit.hit.target {
            LabelTarget::Interval { interval, .. } => r.kind@ == "interval"@ && r.target
                == interval.0,
            LabelTarget::Point { point, .. } => r.kind@ == "point"@ && r.target == point.0,
        },
{
    let (kind, target) = match hit.hit.target {
        LabelTarget::Interval { interval, .. } => ("interval", interval.get()),
        LabelTarget::Point { point, .. } => ("point", point.get()),
    };
    LabelHitDto {
        annotation: hit.annotation.as_u64(),
        tier: hit.hit.tier.get(),
        kind,
        target,
        start: hit.hit.span.start as u32,
        end: hit.hit.span.end as u32,
    }
}

/// The flat shape a report takes: its kind and the ids it names.
pub open spec fn applied_fields(a: AppliedView) -> (Seq<char>, Option<u64>, Option<u64>, Option<u64>, Option<u64>) {
    match a {
        AppliedView::AudioImported { audio } => ("audioImported"@, None, Some(audio.0), None, None),
        AppliedView::AudioRemoved { audio } => ("audioRemoved"@, None, Some(audio.0), None, None),
        AppliedView::AudioRenamed { audio, .. } => ("audioRenamed"@, None, Some(audio.0), None, None),
        AppliedView::AudioDetached { audio, .. } => ("audioDetached"@, None, Some(audio.0), None, None),
        AppliedView::AudioRestored { audio, .. } => ("audioRestored"@, None, Some(audio.0), None, None),
        AppliedView::AnnotationAttached { annotation, audio } => (
            "annotationAttached"@,
            Some(annotation.0),
            Some(audio.0),
            None,
            None,
        ),
        AppliedView::AnnotationDetached { annotation } => (
            "annotationDetached"@,
            Some(annotation.0),
            None,
            None,
            None,
        ),
        AppliedView::TierAdded { annotation, tier } => (
            "tierAdded"@,
            Some(annotation.0),
            None,
            Some(tier.0),
            None,
        ),
        AppliedView::TierRemoved { annotation, tier } => (
            "tierRemoved"@,
            Some(annotation.0),
            None,
            Some(tier.0),
            None,
        ),
        AppliedView::TierReordered { annotation, tier, .. } => (
            "tierReordered"@,
            Some(annotation.0),
            None,
            Some(tier.0),
            None,
        ),
        AppliedView::BoundaryInserted { annotation, tier, boundary, .. } => (
            "boundaryInserted"@,
            Some(annotation.0),
            None,
            Some(tier.0),
            Some(boundary.0),
        ),
        AppliedView::BoundaryMoved { annotation, .. } => (
            "boundaryMoved"@,
            Some(annotation.0),
            None,
            None,
            None,
        ),
        AppliedView::BoundaryRemoved { annotation, boundary } => (
            "boundaryRemoved"@,
            Some(annotation.0),
            None,
            None,
            Some(boundary.0),
        ),
        AppliedView::BoundaryRestored { annotation, .. } => (
            "boundaryRestored"@,
            Some(annotation.0),
            None,
            None,
            None,
        ),
        AppliedView::LabelSet { annotation, .. } => ("labelSet"@, Some(annotation.0), None, None, None),
        AppliedView::PointInserted { annotation, tier, .. } => (
            "pointInserted"@,
            Some(annotation.0),
            None,
            Some(tier.0),
            None,
        ),
        AppliedView::PointMoved { annotation, .. } => ("pointMoved"@, Some(annotation.0), None, None, None),
        AppliedView::PointRemoved { annotation, .. } => (
            "pointRemoved"@,
            Some(annotation.0),
            None,
            None,
            None,
        ),
    }
}

impl AppliedDto {
    /// The flat shape of a report: its kind and the ids it names.
    pub fn from_applied(applied: Applied) -> (r: AppliedDto)
        ensures
            (r.kind@, r.annotation, r.audio, r.tier, r.boundary) == applied_fields(applied@),
    {
        let mut dto = AppliedDto {
            kind: String::new(),
            annotation: None,
            audio: None,
            tier: None,
            boundary: None,
        };
        match applied {
            Applied::AudioImported { audio } => {
                dto.kind = "audioImported".to_string();
                dto.audio = Some(audio.as_u64());
            },
            Applied::AudioRemoved { audio } => {
                dto.kind = "audioRemoved".to_string();
                dto.audio = Some(audio.as_u64());
            },
            Applied::AudioRenamed { audio, .. } => {
                dto.kind = "audioRenamed".to_string();
                dto.audio = Some(audio.as_u64());
            },
            Applied::AudioDetached { audio, .. } => {
                dto.kind = "audioDetached".to_string();
                dto.audio = Some(audio.as_u64());
            },
            Applied::AudioRestored { audio, .. } => {
                dto.kind = "audioRestored".to_string();
                dto.audio = Some(audio.as_u64());
            },
            Applied::AnnotationAttached { annotation, audio } => {
                dto.kind = "annotationAttached".to_string();
                dto.annotation = Some(annotation.as_u64());
                dto.audio = Some(audio.as_u64());
            },
            Applied::AnnotationDetached { annotation } => {
                dto.kind = "annotationDetached".to_string();
                dto.annotation = Some(annotation.as_u64());
            },
            Applied::TierAdded { annotation, tier } => {
                dto.kind = "tierAdded".to_string();
                dto.annotation = Some(annotation.as_u64());
                dto.tier = Some(tier.get());
            },
            Applied::TierRemoved { annotation, tier } => {
                dto.kind = "tierRemoved".to_string();
                dto.annotation = Some(annotation.as_u64());
                dto.tier = Some(tier.get());
            },
            Applied::TierReordered { annotation, tier, .. } => {
                dto.kind = "tierReordered".to_string();
                dto.annotation = Some(annotation.as_u64());
                dto.tier = Some(tier.get());
            },
            Applied::BoundaryInserted { annotation, tier, boundary, .. } => {
                dto.kind = "boundaryInserted".to_string();
                dto.annotation = Some(annotation.as_u64());
                dto.tier = Some(tier.get());
                dto.boundary = Some(boundary.get());
            },
            Applied::BoundaryMoved { annotation, .. } => {
                dto.kind = "boundaryMoved".to_string();
                dto.annotation = Some(annotation.as_u64());
            },
            Applied::BoundaryRemoved { annotation, boundary } => {
                dto.kind = "boundaryRemoved".to_string();
                dto.annotation = Some(annotation.as_u64());
                dto.boundary = Some(boundary.get());
            },
            Applied::BoundaryRestored { annotation, .. } => {
                dto.kind = "boundaryRestored".to_string();
                dto.annotation = Some(annotation.as_u64());
            },
            Applied::LabelSet { annotation, .. } => {
                dto.kind = "labelSet".to_string();
                dto.annotation = Some(annotation.as_u64());
            },
            Applied::PointInserted { annotation, tier, .. } => {
                dto.kind = "pointInserted".to_string();
                dto.annotation = Some(annotation.as_u64());
                dto.tier = Some(tier.get());
            },
            Applied::PointMoved { annotation, .. } => {
                dto.kind = "pointMoved".to_string();
                dto.annotation = Some(annotation.as_u64());
            },
            Applied::PointRemoved { annotation, .. } => {
                dto.kind = "pointRemoved".to_string();
                dto.annotation = Some(annotation.as_u64());
            },
        }
        dto
    }
}

} // verus!
