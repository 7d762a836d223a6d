//! Engine-level identifiers, errors, and the id-keyed stores of annotation
//! documents and audio entries.
//!
//! Both stores hand out ids that climb monotonically from zero and are never
//! recycled, so an id that undo removed can always be restored to the same
//! slot without colliding with a freshly issued one.
use vstd::prelude::*;
use std::collections::HashMap;

use crate::annotation::Annotation;
use crate::issues::{AnnotationError, IntegrityIssue};
use crate::model::DocView;
use crate::time::Time;

verus! {

broadcast use vstd::std_specs::hash::group_hash_axioms;

/// Opaque handle to an audio buffer held by an audio store.
#[derive(Clone, Copy, Debug, PartialEq, Eq, Structural, Hash, PartialOrd, Ord)]
pub struct AudioId(pub u64);

impl AudioId {
    /// Returns the numeric handle backing this id.
    pub fn as_u64(self) -> (v: u64)
        ensures
            v == self.0,
    {
        self.0
    }

    /// Reconstructs an id from a numeric handle previously returned by
    /// `as_u64`. This does not check that the id names a live entry.
    pub fn from_u64(value: u64) -> (id: AudioId)
        ensures
            id.0 == value,
    {
        AudioId(value)
    }
}

/// Opaque handle to an annotation document held by a document store.
#[derive(Clone, Copy, Debug, PartialEq, Eq, Structural, Hash, PartialOrd, Ord)]
pub struct AnnotationId(pub u64);

impl AnnotationId {
    /// Returns the numeric handle backing this id.
    pub fn as_u64(self) -> (v: u64)
        ensures
            v == self.0,
    {
        self.0
    }

    /// Reconstructs an id from a numeric handle previously returned by
    /// `as_u64`. This does not check that the id names a live document.
    pub fn from_u64(value: u64) -> (id: AnnotationId)
        ensures
            id.0 == value,
    {
        AnnotationId(value)
    }
}

/// Opaque handle to a recording being captured.
#[derive(Clone, Copy, Debug, PartialEq, Eq, Structural, Hash, PartialOrd, Ord)]
pub struct RecordingId(pub u64);

impl RecordingId {
    /// Returns the numeric handle backing this id.
    pub fn as_u64(self) -> (v: u64)
        ensures
            v == self.0,
    {
        self.0
    }

    /// Reconstructs an id from a numeric handle previously returned by
    /// `as_u64`. This does not check that the id names a live take.
    pub fn from_u64(value: u64) -> (id: RecordingId)
        ensures
            id.0 == value,
    {
        RecordingId(value)
    }
}

/// The result of finishing a recording: the materialized store entry plus the
/// take encoded as WAV bytes for the host to persist alongside imported media.
#[derive(Debug)]
pub struct FinishedRecording {
    /// Id of the audio buffer the take became in the store.
    pub audio: AudioId,
    /// The take as a RIFF/WAVE byte buffer, ready to write to storage.
    pub wav: Vec<u8>,
}

/// Errors produced by audio decoding, encoding, buffer validation, and
/// resampling.
#[derive(Debug)]
pub enum AudioError {
    /// WAV data is malformed.
    MalformedWav(String),
    /// WAV data uses a format outside the supported sample formats.
    UnsupportedWav {
        /// Human-readable reason.
        reason: String,
    },
    /// Channel count or channel length validation failed.
    ChannelCountMismatch {
        /// Expected count.
        expected: usize,
        /// Actual count.
        actual: usize,
    },
    /// Channel count is invalid for an audio buffer.
    InvalidChannelCount {
        /// Invalid channel count.
        channels: usize,
    },
    /// Sample rate is outside the supported finite positive range.
    InvalidSampleRate {
        /// Invalid sample rate, as the binary64 value it was given as.
        sample_rate: Time,
    },
    /// The requested planar sample storage exceeds the limit.
    OversizedAllocation {
        /// Requested bytes.
        requested_bytes: usize,
        /// Maximum accepted bytes.
        limit_bytes: usize,
    },
    /// WAV writing failed.
    WavWrite(String),
    /// Resampling failed.
    Resample(String),
    /// A byte store could not serve a read.
    Io(String),
    /// AIFF data is malformed.
    MalformedAiff(String),
    /// AIFF data uses a format outside the supported sample formats.
    UnsupportedAiff {
        /// Human-readable reason.
        reason: String,
    },
    /// FLAC data is malformed.
    MalformedFlac(String),
    /// FLAC data uses a format outside the supported sample formats.
    UnsupportedFlac {
        /// Human-readable reason.
        reason: String,
    },
}

/// Errors produced by engine entry points.
#[derive(Debug)]
pub enum EngineError {
    /// The given audio id does not name a live store entry.
    UnknownAudioId(AudioId),
    /// The given annotation id does not name a live annotation document.
    UnknownAnnotationId(AnnotationId),
    /// The given recording id does not name an open capture take.
    UnknownRecordingId(RecordingId),
    /// Audio decoding failed.
    Audio(AudioError),
    /// An annotation mutation was rejected.
    Annotation(AnnotationError),
    /// An annotation offered to the engine failed its own integrity check
    /// before it could enter the store.
    InvalidAnnotation(Vec<IntegrityIssue>),
    /// A request carried a value the underlying analysis cannot use.
    InvalidRequest {
        /// Human-readable reason.
        reason: String,
    },
}

/// An annotation document together with the audio buffer it annotates.
#[derive(Debug)]
pub struct Document {
    /// Audio buffer this document annotates.
    pub audio: AudioId,
    /// Annotation content.
    pub annotation: Annotation,
}

/// Value of a document: the audio it annotates and its annotation value.
pub open spec fn document_view(d: Document) -> (AudioId, DocView) {
    (d.audio, d.annotation@)
}

impl Document {
    /// A copy carrying the same value and identifier generators.
    pub fn duplicate(&self) -> (r: Document)
        ensures
            document_view(r) == document_view(*self),
            r.annotation.next_ids() == self.annotation.next_ids(),
    {
        Document { audio: self.audio, annotation: self.annotation.duplicate() }
    }
}

/// In-memory store of annotation documents, keyed by annotation id.
pub struct DocumentStore {
    next_id: u64,
    documents: HashMap<u64, Document>,
}

impl DocumentStore {
    /// The id the next attachment receives.
    pub closed spec fn next_id(&self) -> u64 {
        self.next_id
    }

    /// The live documents by id.
    pub closed spec fn docs(&self) -> Map<u64, Document> {
        self.documents@
    }

    /// The value of the live documents by id.
    pub open spec fn values(&self) -> Map<u64, (AudioId, DocView)> {
        self.docs().map_values(|d: Document| document_view(d))
    }

    /// Every live id was issued: it lies below the next id.
    pub closed spec fn wf(&self) -> bool {
        forall|k: u64| self.documents@.contains_key(k) ==> k < self.next_id
    }

    /// An empty store.
    pub fn new() -> (s: DocumentStore)
        ensures
            s.wf(),
            s.next_id() == 0,
            s.docs() == Map::<u64, Document>::empty(),
    {
        DocumentStore { next_id: 0, documents: HashMap::new() }
    }

    /// The id the next attachment receives.
    pub fn next(&self) -> (r: u64)
        ensures
            r == self.next_id(),
    {
        self.next_id
    }

    /// Attaches a document to `audio` and returns its new id.
    pub fn attach(&mut self, audio: AudioId, annotation: Annotation) -> (id: AnnotationId)
        requires
            old(self).wf(),
            old(self).next_id() < u64::MAX,
        ensures
            final(self).wf(),
            id.0 == old(self).next_id(),
            !old(self).docs().contains_key(id.0),
            final(self).next_id() == old(self).next_id() + 1,
            final(self).docs() == old(self).docs().insert(id.0, Document { audio, annotation }),
    {
        let id = self.next_id;
        self.next_id = self.next_id + 1;
        self.documents.insert(id, Document { audio, annotation });
        AnnotationId(id)
    }

    /// Reattaches a previously detached document under its original id, which
    /// an earlier attachment issued.
    pub fn reattach(&mut self, id: AnnotationId, document: Document)
        requires
            old(self).wf(),
            id.0 < old(self).next_id(),
        ensures
            final(self).wf(),
            final(self).next_id() == old(self).next_id(),
            final(self).docs() == old(self).docs().insert(id.0, document),
    {
        self.documents.insert(id.0, document);
    }

    /// Removes and returns the document for `id`, if present. The id is never
    /// recycled.
    pub fn detach(&mut self, id: AnnotationId) -> (r: Option<Document>)
        requires
            old(self).wf(),
        ensures
            final(self).wf(),
            final(self).next_id() == old(self).next_id(),
            final(self).docs() == old(self).docs().remove(id.0),
            match r {
                Some(d) => old(self).docs().contains_key(id.0) && d == old(self).docs()[id.0]
                    && id.0 < old(self).next_id(),
                None => !old(self).docs().contains_key(id.0),
            },
    {
        self.documents.remove(&id.0)
    }

    /// Returns the document for `id`.
    pub fn get(&self, id: AnnotationId) -> (r: Result<&Document, EngineError>)
        ensures
            match r {
                Ok(d) => self.docs().contains_key(id.0) && *d == self.docs()[id.0],
                Err(e) => !self.docs().contains_key(id.0) && e == EngineError::UnknownAnnotationId(
                    id,
                ),
            },
    {
        match self.documents.get(&id.0) {
            Some(d) => Ok(d),
            None => Err(EngineError::UnknownAnnotationId(id)),
        }
    }

    /// Whether `id` names a live document.
    pub fn contains(&self, id: AnnotationId) -> (r: bool)
        ensures
            r == self.docs().contains_key(id.0),
    {
        self.documents.contains_key(&id.0)
    }

    /// Returns every live id in ascending order.
    pub fn ids_sorted(&self) -> (r: Vec<AnnotationId>)
        requires
            self.wf(),
        ensures
            forall|a: int, b: int| 0 <= a < b < r.len() ==> r@[a].0 < r@[b].0,
            forall|k: u64| self.docs().contains_key(k) <==> exists|j: int|
                0 <= j < r.len() && #[trigger] r@[j].0 == k,
    {
        let mut r: Vec<AnnotationId> = Vec::new();
        let mut i: u64 = 0;
        while i < self.next_id
            invariant
                self.wf(),
                i <= self.next_id,
                forall|a: int, b: int| 0 <= a < b < r.len() ==> r@[a].0 < r@[b].0,
                forall|j: int| 0 <= j < r.len() ==> #[trigger] r@[j].0 < i,
                forall|k: u64|
                    k < i ==> (self.docs().contains_key(k) <==> exists|j: int|
                        0 <= j < r.len() && #[trigger] r@[j].0 == k),
            decreases self.next_id - i,
        {
            if self.documents.contains_key(&i) {
                let ghost before = r@;
                r.push(AnnotationId(i));
                proof {
                    assert forall|k: u64| k < i + 1 implies (self.docs().contains_key(k)
                        <==> exists|j: int| 0 <= j < r.len() && #[trigger] r@[j].0 == k) by {
                        if k < i {
                            if exists|j: int| 0 <= j < before.len() && before[j].0 == k {
                                let j = choose|j: int| 0 <= j < before.len() && before[j].0 == k;
                                assert(r@[j].0 == k);
                            }
                            if exists|j: int| 0 <= j < r.len() && r@[j].0 == k {
                                let j = choose|j: int| 0 <= j < r.len() && r@[j].0 == k;
                                assert(j < before.len());
                                assert(before[j].0 == k);
                            }
                        } else {
                            assert(r@[before.len() as int].0 == k);
                        }
                    }
                }
            } else {
                proof {
                    assert forall|k: u64| k < i + 1 implies (self.docs().contains_key(k)
                        <==> exists|j: int| 0 <= j < r.len() && #[trigger] r@[j].0 == k) by {
                        if k == i {
                            if exists|j: int| 0 <= j < r.len() && r@[j].0 == k {
                                let j = choose|j: int| 0 <= j < r.len() && r@[j].0 == k;
                                assert(r@[j].0 < i);
                            }
                        }
                    }
                }
            }
            i += 1;
        }
        r
    }
}

/// Id bookkeeping of an audio store: live entries by id and the next id.
///
/// The entry type is whatever the store keeps per buffer (a decoded buffer
/// and its waveform summary, or a streamed source); only its identity matters
/// here.
pub struct AudioSlots<E> {
    next_id: u64,
    entries: HashMap<u64, E>,
}

impl<E> AudioSlots<E> {
    /// The id the next insertion receives.
    pub closed spec fn next_id(&self) -> u64 {
        self.next_id
    }

    /// The live entries by id.
    pub closed spec fn entries(&self) -> Map<u64, E> {
        self.entries@
    }

    /// Every live id was issued: it lies below the next id.
    pub closed spec fn wf(&self) -> bool {
        forall|k: u64| self.entries@.contains_key(k) ==> k < self.next_id
    }

    /// An empty store.
    pub fn new() -> (s: AudioSlots<E>)
        ensures
            s.wf(),
            s.next_id() == 0,
            s.entries() == Map::<u64, E>::empty(),
    {
        AudioSlots { next_id: 0, entries: HashMap::new() }
    }

    /// The id the next insertion receives.
    pub fn next(&self) -> (r: u64)
        ensures
            r == self.next_id(),
    {
        self.next_id
    }

    /// Inserts an entry under a fresh id and returns the id.
    pub fn insert(&mut self, entry: E) -> (id: AudioId)
        requires
            old(self).wf(),
            old(self).next_id() < u64::MAX,
        ensures
            final(self).wf(),
            id.0 == old(self).next_id(),
            !old(self).entries().contains_key(id.0),
            final(self).next_id() == old(self).next_id() + 1,
            final(self).entries() == old(self).entries().insert(id.0, entry),
    {
        let id = self.next_id;
        self.next_id = self.next_id + 1;
        self.entries.insert(id, entry);
        AudioId(id)
    }

    /// Reinserts an entry under an id an earlier insertion issued.
    pub fn restore(&mut self, id: AudioId, entry: E)
        requires
            old(self).wf(),
            id.0 < old(self).next_id(),
        ensures
            final(self).wf(),
            final(self).next_id() == old(self).next_id(),
            final(self).entries() == old(self).entries().insert(id.0, entry),
    {
        self.entries.insert(id.0, entry);
    }

    /// Removes and returns the entry for `id`, if present. The id is never
    /// recycled.
    pub fn remove(&mut self, id: AudioId) -> (r: Option<E>)
        requires
            old(self).wf(),
        ensures
            final(self).wf(),
            final(self).next_id() == old(self).next_id(),
            final(self).entries() == old(self).entries().remove(id.0),
            match r {
                Some(e) => old(self).entries().contains_key(id.0) && e == old(self).entries()[id.0],
                None => !old(self).entries().contains_key(id.0),
            },
    {
        self.entries.remove(&id.0)
    }

    /// The entry for `id`, if live.
    pub fn get(&self, id: AudioId) -> (r: Option<&E>)
        ensures
            match r {
                Some(e) => self.entries().contains_key(id.0) && *e == self.entries()[id.0],
                None => !self.entries().contains_key(id.0),
            },
    {
        self.entries.get(&id.0)
    }

    /// The entry stored under `id`, or the typed error for an id that names
    /// no live entry.
    pub fn lookup(&self, id: AudioId) -> (r: Result<&E, EngineError>)
        ensures
            match r {
                Ok(e) => self.entries().contains_key(id.0) && *e == self.entries()[id.0],
                Err(err) => !self.entries().contains_key(id.0) && err == EngineError::UnknownAudioId(
                    id,
                ),
            },
    {
        match self.entries.get(&id.0) {
            Some(e) => Ok(e),
            None => Err(EngineError::UnknownAudioId(id)),
        }
    }

    /// Whether `id` names a live entry.
    pub fn contains(&self, id: AudioId) -> (r: bool)
        ensures
            r == self.entries().contains_key(id.0),
    {
        self.entries.contains_key(&id.0)
    }

    /// Returns every live id in ascending order.
    pub fn ids_sorted(&self) -> (r: Vec<AudioId>)
        requires
            self.wf(),
        ensures
            forall|a: int, b: int| 0 <= a < b < r.len() ==> r@[a].0 < r@[b].0,
            forall|k: u64| self.entries().contains_key(k) <==> exists|j: int|
                0 <= j < r.len() && #[trigger] r@[j].0 == k,
    {
        let mut r: Vec<AudioId> = Vec::new();
        let mut i: u64 = 0;
        while i < self.next_id
            invariant
                self.wf(),
                i <= self.next_id,
                forall|a: int, b: int| 0 <= a < b < r.len() ==> r@[a].0 < r@[b].0,
                forall|j: int| 0 <= j < r.len() ==> #[trigger] r@[j].0 < i,
                forall|k: u64|
                    k < i ==> (self.entries().contains_key(k) <==> exists|j: int|
                        0 <= j < r.len() && #[trigger] r@[j].0 == k),
            decreases self.next_id - i,
        {
            if self.entries.contains_key(&i) {
                let ghost before = r@;
                r.push(AudioId(i));
                proof {
                    assert forall|k: u64| k < i + 1 implies (self.entries().contains_key(k)
                        <==> exists|j: int| 0 <= j < r.len() && #[trigger] r@[j].0 == k) by {
                        if k < i {
                            if exists|j: int| 0 <= j < before.len() && before[j].0 == k {
                                let j = choose|j: int| 0 <= j < before.len() && before[j].0 == k;
                                assert(r@[j].0 == k);
                            }
                            if exists|j: int| 0 <= j < r.len() && r@[j].0 == k {
                                let j = choose|j: int| 0 <= j < r.len() && r@[j].0 == k;
                                assert(j < before.len());
                                assert(before[j].0 == k);
                            }
                        } else {
                            assert(r@[before.len() as int].0 == k);
                        }
                    }
                }
            } else {
                proof {
                    assert forall|k: u64| k < i + 1 implies (self.entries().contains_key(k)
                        <==> exists|j: int| 0 <= j < r.len() && #[trigger] r@[j].0 == k) by {
                        if k == i {
                            if exists|j: int| 0 <= j < r.len() && r@[j].0 == k {
                                let j = choose|j: int| 0 <= j < r.len() && r@[j].0 == k;
                                assert(r@[j].0 < i);
                            }
                        }
                    }
                }
            }
            i += 1;
        }
        r
    }
}

} // verus!
