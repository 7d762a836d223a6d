//! In-progress streaming recordings: takes opened with a sample rate and a
//! channel count, fed planar chunks as they arrive, then finished or aborted.
//!
//! The store is generic over the sample type; it only ever copies samples
//! into the plane they belong to.
use vstd::prelude::*;

use crate::wav::{decimal_string, decimal_text};
use std::collections::HashMap;

use crate::engine::{AudioError, EngineError, RecordingId};
use crate::time::Time;

verus! {

broadcast use vstd::std_specs::hash::group_hash_axioms;

/// A take mid-capture: its sample rate and one growing plane per channel.
#[derive(Debug)]
pub struct Take<S> {
    /// Sample rate in hertz, as the binary64 value it was given as.
    pub sample_rate: Time,
    /// One plane of samples per channel.
    pub channels: Vec<Vec<S>>,
}

/// The planes of a take as sequences.
pub open spec fn planes_view<S>(channels: Seq<Vec<S>>) -> Seq<Seq<S>> {
    channels.map_values(|v: Vec<S>| v@)
}

impl<S> Take<S> {
    /// The value of a take: its rate and its planes.
    pub open spec fn spec_view(&self) -> (Time, Seq<Seq<S>>) {
        (self.sample_rate, planes_view(self.channels@))
    }

    /// Whether the take holds no sample: it has no channel, or its first
    /// plane is empty. Such a take cannot become an audio buffer.
    pub fn is_empty(&self) -> (r: bool)
        ensures
            r == (self.channels@.len() == 0 || self.channels@[0]@.len() == 0),
    {
        self.channels.len() == 0 || self.channels[0].len() == 0
    }
}

/// The planes after appending a chunk that holds `frames` samples of every
/// channel back to back: plane `c` grows by `planar[c * frames .. (c + 1) *
/// frames]`.
pub open spec fn appended<S>(planes: Seq<Seq<S>>, planar: Seq<S>, frames: int) -> Seq<Seq<S>> {
    Seq::new(
        planes.len(),
        |c: int| planes[c] + planar.subrange(c * frames, (c + 1) * frames),
    )
}

/// The refusal a sample rate gets: it must be finite and above zero.
pub open spec fn rate_accepted(rate: Time) -> bool {
    rate.spec_is_finite() && Time { key: 0 }.spec_lt(rate)
}

/// Takes being captured, keyed by recording id.
pub struct RecordingStore<S> {
    next_id: u64,
    takes: HashMap<u64, Take<S>>,
}

impl<S: Copy> RecordingStore<S> {
    /// The id the next take receives.
    pub closed spec fn next_id(&self) -> u64 {
        self.next_id
    }

    /// The live takes by id: rate and planes.
    pub closed spec fn takes(&self) -> Map<u64, (Time, Seq<Seq<S>>)> {
        self.takes@.map_values(|t: Take<S>| t.spec_view())
    }

    /// Every live id was issued, and every take has at least one channel.
    pub closed spec fn wf(&self) -> bool {
        &&& forall|k: u64| self.takes@.contains_key(k) ==> k < self.next_id
        &&& forall|k: u64| self.takes@.contains_key(k) ==> self.takes@[k].channels@.len() > 0
    }

    /// An empty store.
    pub fn new() -> (s: RecordingStore<S>)
        ensures
            s.wf(),
            s.next_id() == 0,
            s.takes() == Map::<u64, (Time, Seq<Seq<S>>)>::empty(),
    {
        let s = RecordingStore { next_id: 0, takes: HashMap::new() };
        assert(s.takes() =~= Map::<u64, (Time, Seq<Seq<S>>)>::empty());
        s
    }

    /// Opens a take with empty planes and returns its id; a rate that is not
    /// finite and positive, or no channels, is refused.
    pub fn begin(&mut self, sample_rate: Time, channels: usize) -> (r: Result<
        RecordingId,
        EngineError,
    >)
        requires
            old(self).wf(),
            old(self).next_id() < u64::MAX,
        ensures
            final(self).wf(),
            !rate_accepted(sample_rate) ==> (r matches Err(EngineError::InvalidRequest { reason })
                && reason@ == "recording sample_rate must be finite and positive"@),
            rate_accepted(sample_rate) && channels == 0 ==> (r matches Err(
                EngineError::InvalidRequest { reason },
            ) && reason@ == "recording channels must be at least 1"@),
            r is Err ==> final(self).takes() == old(self).takes() && final(self).next_id() == old(
                self,
            ).next_id(),
            rate_accepted(sample_rate) && channels > 0 ==> {
                &&& r matches Ok(id) && id.0 == old(self).next_id()
                &&& final(self).next_id() == old(self).next_id() + 1
                &&& final(self).takes() == old(self).takes().insert(
                    old(self).next_id(),
                    (sample_rate, Seq::new(channels as nat, |c: int| Seq::<S>::empty())),
                )
            },
    {
        if !(sample_rate.is_finite() && Time { key: 0 }.lt(sample_rate)) {
            return Err(
                EngineError::InvalidRequest {
                    reason: "recording sample_rate must be finite and positive".to_string(),
                },
            );
        }
        if channels == 0 {
            return Err(
                EngineError::InvalidRequest {
                    reason: "recording channels must be at least 1".to_string(),
                },
            );
        }
        let id = self.next_id;
        self.next_id = self.next_id + 1;
        let mut planes: Vec<Vec<S>> = Vec::new();
        let mut c: usize = 0;
        while c < channels
            invariant
                c <= channels,
                planes@.len() == c,
                forall|j: int| 0 <= j < c ==> (#[trigger] planes@[j])@ == Seq::<S>::empty(),
            decreases channels - c,
        {
            planes.push(Vec::new());
            c += 1;
        }
        let ghost before = self.takes@;
        self.takes.insert(id, Take { sample_rate, channels: planes });
        proof {
            assert(planes_view(planes@) =~= Seq::new(channels as nat, |c: int| Seq::<S>::empty()));
            assert(self.takes() =~= old(self).takes().insert(
                id,
                (sample_rate, Seq::new(channels as nat, |c: int| Seq::<S>::empty())),
            ));
        }
        Ok(RecordingId(id))
    }

    /// Appends one planar chunk to a take: every channel's samples for the
    /// chunk in order, so its length must be a whole multiple of the channel
    /// count.
    pub fn append(&mut self, id: RecordingId, planar: &[S]) -> (r: Result<(), EngineError>)
        requires
            old(self).wf(),
        ensures
            final(self).wf(),
            final(self).next_id() == old(self).next_id(),
            !old(self).takes().contains_key(id.0) ==> (r matches Err(e) && e
                == EngineError::UnknownRecordingId(id)),
            old(self).takes().contains_key(id.0) ==> {
                let (rate, planes) = old(self).takes()[id.0];
                if planar@.len() % planes.len() != 0 {
                    r matches Err(EngineError::InvalidRequest { reason }) && reason@
                        == "recording chunk of "@ + decimal_text(planar@.len()) + " samples does not divide evenly by "@
                        + decimal_text(planes.len()) + " channels"@
                } else {
                    &&& r is Ok
                    &&& final(self).takes() == old(self).takes().insert(
                        id.0,
                        (rate, appended(planes, planar@, (planar@.len() / planes.len()) as int)),
                    )
                }
            },
            r is Err ==> final(self).takes() == old(self).takes(),
    {
        let ghost old_takes = self.takes@;
        let take = match self.takes.remove(&id.0) {
            Some(t) => t,
            None => {
                assert(self.takes@ =~= old_takes);
                return Err(EngineError::UnknownRecordingId(id));
            },
        };
        let channels = take.channels.len();
        if planar.len() % channels != 0 {
            let len = planar.len();
            self.takes.insert(id.0, take);
            assert(self.takes@ =~= old_takes);
            return Err(EngineError::InvalidRequest { reason: ragged_chunk_message(len, channels) });
        }
        let frames = planar.len() / channels;
        assert(planar@.len() == planar.len());
        proof {
            vstd::arithmetic::div_mod::lemma_fundamental_div_mod(planar@.len() as int, channels as int);
            assert(planar@.len() as int % channels as int == 0);
        }
        let ghost len = planar@.len() as int;
        let ghost ch = channels as int;
        assert(channels * frames == planar@.len()) by (nonlinear_arith)
            requires
                len == ch * (len / ch) + len % ch,
                len % ch == 0,
                frames == len / ch,
                len == planar@.len(),
                ch == channels,
        ;
        let ghost old_planes = planes_view(take.channels@);
        let sample_rate = take.sample_rate;
        let mut rest = take.channels;
        let mut out: Vec<Vec<S>> = Vec::new();
        let mut c: usize = 0;
        while c < channels
            invariant
                c <= channels,
                channels == old_planes.len(),
                channels * frames == planar@.len(),
                planar@.len() == planar.len(),
                rest@.len() == channels - c,
                out@.len() == c,
                forall|j: int| 0 <= j < rest@.len() ==> (#[trigger] rest@[j])@ == old_planes[c + j],
                forall|j: int|
                    0 <= j < c ==> (#[trigger] out@[j])@ == old_planes[j] + planar@.subrange(
                        j * frames,
                        (j + 1) * frames,
                    ),
            decreases channels - c,
        {
            let mut plane = rest.remove(0);
            assert((c + 1) * frames <= channels * frames) by (nonlinear_arith)
                requires
                    c < channels,
            ;
            assert(c * frames <= (c + 1) * frames) by (nonlinear_arith);
            assert(c * frames + frames == (c + 1) * frames) by (nonlinear_arith);
            let base = c * frames;
            let ghost start = plane@;
            let mut f: usize = 0;
            while f < frames
                invariant
                    f <= frames,
                    base == c * frames,
                    base + frames <= planar@.len(),
                    planar@.len() == planar.len(),
                    plane@ == start + planar@.subrange(base as int, base + f),
                decreases frames - f,
            {
                plane.push(planar[base + f]);
                f += 1;
                assert(plane@ =~= start + planar@.subrange(base as int, base + f));
            }
            out.push(plane);
            c += 1;
            assert forall|j: int| 0 <= j < rest@.len() implies (#[trigger] rest@[j])@ == old_planes[c + j] by {}
        }
        self.takes.insert(id.0, Take { sample_rate, channels: out });
        proof {
            assert(planes_view(out@) =~= appended(old_planes, planar@, frames as int));
            assert(self.takes() =~= old(self).takes().insert(
                id.0,
                (sample_rate, appended(old_planes, planar@, frames as int)),
            ));
        }
        Ok(())
    }

    /// Closes a take and returns it with its accumulated planes.
    pub fn finish(&mut self, id: RecordingId) -> (r: Result<Take<S>, EngineError>)
        requires
            old(self).wf(),
        ensures
            final(self).wf(),
            final(self).next_id() == old(self).next_id(),
            final(self).takes() == old(self).takes().remove(id.0),
            match r {
                Ok(t) => old(self).takes().contains_key(id.0) && t.spec_view() == old(
                    self,
                ).takes()[id.0],
                Err(e) => !old(self).takes().contains_key(id.0) && e
                    == EngineError::UnknownRecordingId(id),
            },
    {
        let r = self.takes.remove(&id.0);
        proof {
            assert(self.takes() =~= old(self).takes().remove(id.0));
        }
        match r {
            Some(t) => Ok(t),
            None => Err(EngineError::UnknownRecordingId(id)),
        }
    }

    /// Closes a take to materialize it as an audio buffer. A take that holds
    /// no sample cannot form one and is refused; the take is consumed either
    /// way.
    pub fn finish_nonempty(&mut self, id: RecordingId) -> (r: Result<Take<S>, EngineError>)
        requires
            old(self).wf(),
        ensures
            final(self).wf(),
            final(self).next_id() == old(self).next_id(),
            final(self).takes() == old(self).takes().remove(id.0),
            !old(self).takes().contains_key(id.0) ==> (r matches Err(e) && e
                == EngineError::UnknownRecordingId(id)),
            old(self).takes().contains_key(id.0) ==> {
                let planes = old(self).takes()[id.0].1;
                if planes.len() == 0 || planes[0].len() == 0 {
                    r matches Err(EngineError::Audio(AudioError::WavWrite(_)))
                } else {
                    r matches Ok(t) && t.spec_view() == old(self).takes()[id.0]
                }
            },
    {
        let take = match self.finish(id) {
            Ok(t) => t,
            Err(e) => return Err(e),
        };
        if take.is_empty() {
            return Err(
                EngineError::Audio(
                    AudioError::WavWrite(
                        "a recorded take with no samples cannot form an audio buffer".to_string(),
                    ),
                ),
            );
        }
        Ok(take)
    }

    /// Discards a take without materializing it.
    pub fn abort(&mut self, id: RecordingId) -> (r: Result<(), EngineError>)
        requires
            old(self).wf(),
        ensures
            final(self).wf(),
            final(self).next_id() == old(self).next_id(),
            final(self).takes() == old(self).takes().remove(id.0),
            r is Ok <==> old(self).takes().contains_key(id.0),
            r matches Err(e) ==> e == EngineError::UnknownRecordingId(id),
    {
        match self.finish(id) {
            Ok(_) => Ok(()),
            Err(e) => Err(e),
        }
    }

    /// The id the next take receives.
    pub fn next(&self) -> (r: u64)
        ensures
            r == self.next_id(),
    {
        self.next_id
    }
}

/// The refusal text for a chunk that does not divide by the channel count.
fn ragged_chunk_message(len: usize, channels: usize) -> (r: String)
    ensures
        r@ == "recording chunk of "@ + decimal_text(len as nat) + " samples does not divide evenly by "@
            + decimal_text(channels as nat) + " channels"@,
{
    let mut s = String::from_str("recording chunk of ");
    s.append(decimal_string(len as u64).as_str());
    s.append(" samples does not divide evenly by ");
    s.append(decimal_string(channels as u64).as_str());
    s.append(" channels");
    s
}

} // verus!
