//! What an audio buffer must satisfy before it is built: a finite positive
//! sample rate, channels of one common length, and planar storage within the
//! allocation limit.
use vstd::prelude::*;

use crate::engine::AudioError;
use crate::time::Time;

verus! {

/// Largest planar sample storage a buffer may request, in bytes (2 GiB).
pub const MAX_PLANAR_ALLOCATION_BYTES: usize = 2147483648;

/// Bytes one stored sample takes.
pub const SAMPLE_BYTES: usize = 4;

/// A sample rate is finite and above zero.
pub open spec fn rate_ok(rate: Time) -> bool {
    rate.spec_is_finite() && Time { key: 0 }.spec_lt(rate)
}

/// Accepts a finite, positive sample rate.
pub fn validate_sample_rate(sample_rate: Time) -> (r: Result<(), AudioError>)
    ensures
        rate_ok(sample_rate) ==> r is Ok,
        !rate_ok(sample_rate) ==> (r matches Err(e) && e == (AudioError::InvalidSampleRate {
            sample_rate,
        })),
{
    let zero = Time { key: 0 };
    if sample_rate.is_finite() && zero.lt(sample_rate) {
        Ok(())
    } else {
        Err(AudioError::InvalidSampleRate { sample_rate })
    }
}

/// Position of the first channel whose length differs from the first one's.
pub open spec fn first_ragged(lens: Seq<nat>, k: int) -> bool {
    &&& 0 < k < lens.len()
    &&& lens[k] != lens[0]
    &&& forall|j: int| 0 <= j < k ==> #[trigger] lens[j] == lens[0]
}

/// Accepts a non-empty set of channels that all share the first channel's
/// length; otherwise reports no channels, or the first channel that differs.
pub fn validate_channels<S>(channels: &[Vec<S>]) -> (r: Result<(), AudioError>)
    ensures
        channels@.len() == 0 ==> (r matches Err(e) && e == (AudioError::InvalidChannelCount {
            channels: 0,
        })),
        channels@.len() > 0 ==> {
            let lens = channels@.map_values(|c: Vec<S>| c@.len());
            &&& (forall|j: int| 0 <= j < lens.len() ==> #[trigger] lens[j] == lens[0]) ==> r is Ok
            &&& forall|k: int|
                first_ragged(lens, k) ==> (r matches Err(e) && e == (
                AudioError::ChannelCountMismatch {
                    expected: channels@[0]@.len() as usize,
                    actual: channels@[k]@.len() as usize,
                }))
        },
{
    if channels.len() == 0 {
        return Err(AudioError::InvalidChannelCount { channels: 0 });
    }
    let ghost lens = channels@.map_values(|c: Vec<S>| c@.len());
    let expected = channels[0].len();
    let mut i: usize = 0;
    while i < channels.len()
        invariant
            i <= channels@.len(),
            channels@.len() > 0,
            expected == channels@[0]@.len(),
            lens == channels@.map_values(|c: Vec<S>| c@.len()),
            forall|j: int| 0 <= j < i ==> #[trigger] lens[j] == lens[0],
        decreases channels@.len() - i,
    {
        let actual = channels[i].len();
        if actual != expected {
            proof {
                assert(first_ragged(lens, i as int));
                assert forall|k: int| first_ragged(lens, k) implies k == i by {
                    if k < i {
                    } else if k > i {
                        assert(lens[i as int] == lens[0]);
                    }
                }
            }
            return Err(AudioError::ChannelCountMismatch { expected, actual });
        }
        i += 1;
    }
    proof {
        assert forall|k: int| !first_ragged(lens, k) by {}
    }
    Ok(())
}

/// Accepts `channels × frames` samples of planar storage within the limit;
/// a product that overflows is reported as a request of `usize::MAX` bytes.
pub fn check_planar_allocation(channels: usize, frames: usize) -> (r: Result<(), AudioError>)
    ensures
        channels * frames * SAMPLE_BYTES <= MAX_PLANAR_ALLOCATION_BYTES ==> r is Ok,
        channels * frames * SAMPLE_BYTES > usize::MAX ==> (r matches Err(e) && e == (
        AudioError::OversizedAllocation {
            requested_bytes: usize::MAX,
            limit_bytes: MAX_PLANAR_ALLOCATION_BYTES,
        })),
        MAX_PLANAR_ALLOCATION_BYTES < channels * frames * SAMPLE_BYTES <= usize::MAX ==> (r matches Err(
            e,
        ) && e == (AudioError::OversizedAllocation {
            requested_bytes: (channels * frames * SAMPLE_BYTES) as usize,
            limit_bytes: MAX_PLANAR_ALLOCATION_BYTES,
        })),
{
    let samples = match channels.checked_mul(frames) {
        Some(s) => s,
        None => {
            assert(channels * frames * SAMPLE_BYTES > usize::MAX) by (nonlinear_arith)
                requires
                    channels * frames > usize::MAX,
            ;
            return Err(
                AudioError::OversizedAllocation {
                    requested_bytes: usize::MAX,
                    limit_bytes: MAX_PLANAR_ALLOCATION_BYTES,
                },
            );
        },
    };
    let requested_bytes = match samples.checked_mul(SAMPLE_BYTES) {
        Some(b) => b,
        None => {
            return Err(
                AudioError::OversizedAllocation {
                    requested_bytes: usize::MAX,
                    limit_bytes: MAX_PLANAR_ALLOCATION_BYTES,
                },
            );
        },
    };
    if requested_bytes > MAX_PLANAR_ALLOCATION_BYTES {
        Err(
            AudioError::OversizedAllocation {
                requested_bytes,
                limit_bytes: MAX_PLANAR_ALLOCATION_BYTES,
            },
        )
    } else {
        Ok(())
    }
}

/// Resampling quality preset: offline windowed-sinc resampling with a
/// Blackman-Harris window, cubic interpolation, and the anti-alias cutoff at
/// the destination Nyquist.
#[derive(Clone, Copy, Debug, PartialEq, Eq, Structural)]
pub enum ResampleQuality {
    /// `sinc_len = 256`, `oversampling_factor = 128`, `f_cutoff = 1.0`.
    Best,
}

impl ResampleQuality {
    /// The sinc length, the oversampling factor and whether interpolation
    /// between table points is cubic.
    pub fn sinc_shape(self) -> (r: (usize, usize, bool))
        ensures
            r == (256usize, 128usize, true),
    {
        match self {
            ResampleQuality::Best => (256, 128, true),
        }
    }
}

impl Default for ResampleQuality {
    fn default() -> (r: ResampleQuality)
        ensures
            r == ResampleQuality::Best,
    {
        ResampleQuality::Best
    }
}

/// The container formats decoded besides WAV.
#[derive(Clone, Copy, Debug, PartialEq, Eq, Structural)]
pub enum ContainerKind {
    /// Audio Interchange File Format.
    Aiff,
    /// Free Lossless Audio Codec.
    Flac,
}

impl ContainerKind {
    /// The file extension naming the format.
    pub fn extension(self) -> (r: &'static str)
        ensures
            self == ContainerKind::Aiff ==> r@ == "aiff"@,
            self == ContainerKind::Flac ==> r@ == "flac"@,
    {
        match self {
            ContainerKind::Aiff => "aiff",
            ContainerKind::Flac => "flac",
        }
    }

    /// The error for a malformed stream of this format.
    pub fn malformed(self, reason: String) -> (r: AudioError)
        ensures
            r == (match self {
                ContainerKind::Aiff => AudioError::MalformedAiff(reason),
                ContainerKind::Flac => AudioError::MalformedFlac(reason),
            }),
    {
        match self {
            ContainerKind::Aiff => AudioError::MalformedAiff(reason),
            ContainerKind::Flac => AudioError::MalformedFlac(reason),
        }
    }

    /// The error for a stream of this format the decoder does not support.
    pub fn unsupported(self, reason: String) -> (r: AudioError)
        ensures
            r == (match self {
                ContainerKind::Aiff => AudioError::UnsupportedAiff { reason },
                ContainerKind::Flac => AudioError::UnsupportedFlac { reason },
            }),
    {
        match self {
            ContainerKind::Aiff => AudioError::UnsupportedAiff { reason },
            ContainerKind::Flac => AudioError::UnsupportedFlac { reason },
        }
    }
}

} // verus!
