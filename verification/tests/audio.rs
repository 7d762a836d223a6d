use phonia::audio::{
    check_planar_allocation, ContainerKind, ResampleQuality, validate_channels, validate_sample_rate, MAX_PLANAR_ALLOCATION_BYTES,
};
use phonia::engine::AudioError;
use phonia::time::Time;

fn t(x: f64) -> Time {
    Time::from_bits(x.to_bits())
}

#[test]
fn oversized_planar_allocation_is_rejected() {
    let max_samples = MAX_PLANAR_ALLOCATION_BYTES / std::mem::size_of::<f32>();
    let err = check_planar_allocation(2, max_samples / 2 + 1).unwrap_err();
    assert!(matches!(err, AudioError::OversizedAllocation { .. }));
}

#[test]
fn allocation_at_the_limit_is_accepted_and_overflow_reports_the_maximum() {
    let max_samples = MAX_PLANAR_ALLOCATION_BYTES / 4;
    assert!(check_planar_allocation(2, max_samples / 2).is_ok());
    assert!(check_planar_allocation(0, usize::MAX).is_ok());
    match check_planar_allocation(usize::MAX, 2) {
        Err(AudioError::OversizedAllocation {
            requested_bytes,
            limit_bytes,
        }) => {
            assert_eq!(requested_bytes, usize::MAX);
            assert_eq!(limit_bytes, MAX_PLANAR_ALLOCATION_BYTES);
        }
        other => panic!("expected OversizedAllocation, got {other:?}"),
    }
    match check_planar_allocation(1, max_samples + 1) {
        Err(AudioError::OversizedAllocation { requested_bytes, .. }) => {
            assert_eq!(requested_bytes, MAX_PLANAR_ALLOCATION_BYTES + 4);
        }
        other => panic!("expected OversizedAllocation, got {other:?}"),
    }
}

#[test]
fn channels_must_share_one_length() {
    let empty: Vec<Vec<f32>> = Vec::new();
    assert!(matches!(
        validate_channels(&empty),
        Err(AudioError::InvalidChannelCount { channels: 0 })
    ));
    assert!(validate_channels(&[vec![0.0f32; 3], vec![1.0; 3]]).is_ok());
    assert!(matches!(
        validate_channels(&[vec![0.0f32; 3], vec![1.0; 3], vec![2.0; 5], vec![0.0; 1]]),
        Err(AudioError::ChannelCountMismatch {
            expected: 3,
            actual: 5
        })
    ));
}

#[test]
fn sample_rate_must_be_finite_and_positive() {
    assert!(validate_sample_rate(t(48_000.0)).is_ok());
    assert!(validate_sample_rate(t(0.5)).is_ok());
    for bad in [0.0, -0.0, -1.0, f64::NAN, f64::INFINITY, f64::NEG_INFINITY] {
        assert!(matches!(
            validate_sample_rate(t(bad)),
            Err(AudioError::InvalidSampleRate { .. })
        ));
    }
}

#[test]
fn containers_name_their_extension_and_errors() {
    assert_eq!(ContainerKind::Aiff.extension(), "aiff");
    assert_eq!(ContainerKind::Flac.extension(), "flac");
    assert!(matches!(
        ContainerKind::Aiff.malformed("x".to_string()),
        AudioError::MalformedAiff(r) if r == "x"
    ));
    assert!(matches!(
        ContainerKind::Flac.unsupported("y".to_string()),
        AudioError::UnsupportedFlac { reason } if reason == "y"
    ));
}

#[test]
fn best_quality_is_the_default_sinc_shape() {
    assert_eq!(ResampleQuality::default(), ResampleQuality::Best);
    assert_eq!(ResampleQuality::Best.sinc_shape(), (256, 128, true));
}
