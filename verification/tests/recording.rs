use phonia::engine::EngineError;
use phonia::recording::RecordingStore;
use phonia::time::Time;

fn t(x: f64) -> Time {
    Time::from_bits(x.to_bits())
}

#[test]
fn streaming_recording_interleaves_planar_channels() {
    let mut store: RecordingStore<f32> = RecordingStore::new();
    let rec = store.begin(t(8_000.0), 2).unwrap();
    store.append(rec, &[0.1, 0.2, -0.1, -0.2]).unwrap();
    store.append(rec, &[0.3, 0.4, -0.3, -0.4]).unwrap();
    let take = store.finish(rec).unwrap();
    assert_eq!(take.channels.len(), 2);
    assert_eq!(take.channels[0], vec![0.1, 0.2, 0.3, 0.4]);
    assert_eq!(take.channels[1], vec![-0.1, -0.2, -0.3, -0.4]);
    assert_eq!(take.sample_rate, t(8_000.0));
}

#[test]
fn streaming_recording_equals_a_one_shot_buffer_bit_for_bit() {
    let sample_rate = 16_000.0;
    let samples: Vec<f32> = (0..2_000)
        .map(|i| (2.0 * std::f64::consts::PI * 220.0 * i as f64 / sample_rate).sin() as f32)
        .collect();
    let mut store: RecordingStore<f32> = RecordingStore::new();
    let rec = store.begin(t(sample_rate), 1).unwrap();
    for chunk in samples.chunks(517) {
        store.append(rec, chunk).unwrap();
    }
    let take = store.finish(rec).unwrap();
    assert_eq!(take.channels[0].len(), samples.len());
    for (a, b) in take.channels[0].iter().zip(&samples) {
        assert_eq!(a.to_bits(), b.to_bits());
    }
    assert!(matches!(store.finish(rec), Err(EngineError::UnknownRecordingId(_))));
}

#[test]
fn aborted_recording_leaves_no_store_entry_and_a_typed_error() {
    let mut store: RecordingStore<f32> = RecordingStore::new();
    let rec = store.begin(t(16_000.0), 1).unwrap();
    store.append(rec, &[0.0; 256]).unwrap();
    store.abort(rec).unwrap();
    assert!(matches!(
        store.append(rec, &[0.0; 4]),
        Err(EngineError::UnknownRecordingId(_))
    ));
    assert!(matches!(store.abort(rec), Err(EngineError::UnknownRecordingId(_))));
}

#[test]
fn recording_rejects_bad_parameters_and_ragged_chunks() {
    let mut store: RecordingStore<f32> = RecordingStore::new();
    assert!(matches!(
        store.begin(t(0.0), 1),
        Err(EngineError::InvalidRequest { .. })
    ));
    assert!(matches!(
        store.begin(t(16_000.0), 0),
        Err(EngineError::InvalidRequest { .. })
    ));
    let rec = store.begin(t(16_000.0), 2).unwrap();
    assert!(matches!(
        store.append(rec, &[0.1, 0.2, 0.3]),
        Err(EngineError::InvalidRequest { .. })
    ));
}

#[test]
fn non_finite_and_negative_rates_are_refused_and_ids_climb() {
    let mut store: RecordingStore<i16> = RecordingStore::new();
    assert!(store.begin(t(f64::NAN), 1).is_err());
    assert!(store.begin(t(f64::INFINITY), 1).is_err());
    assert!(store.begin(t(-8_000.0), 1).is_err());
    assert!(store.begin(t(-0.0), 1).is_err());
    assert_eq!(store.next(), 0);
    let a = store.begin(t(8_000.0), 1).unwrap();
    let b = store.begin(t(8_000.0), 3).unwrap();
    assert_eq!(a.as_u64(), 0);
    assert_eq!(b.as_u64(), 1);
    store.append(b, &[1, 2, 3, 4, 5, 6]).unwrap();
    let take = store.finish(b).unwrap();
    assert_eq!(take.channels, vec![vec![1, 2], vec![3, 4], vec![5, 6]]);
}

#[test]
fn a_ragged_chunk_is_refused_with_its_counts_in_the_reason() {
    let mut store: RecordingStore<f32> = RecordingStore::new();
    let rec = store.begin(t(16_000.0), 2).unwrap();
    match store.append(rec, &[0.1, 0.2, 0.3]) {
        Err(EngineError::InvalidRequest { reason }) => assert_eq!(
            reason,
            "recording chunk of 3 samples does not divide evenly by 2 channels"
        ),
        other => panic!("unexpected {other:?}"),
    }
}

#[test]
fn finished_take_without_samples_is_empty() {
    let mut store: RecordingStore<f32> = RecordingStore::new();
    let rec = store.begin(t(8_000.0), 2).unwrap();
    let take = store.finish(rec).unwrap();
    assert!(take.is_empty());
    let rec = store.begin(t(8_000.0), 1).unwrap();
    store.append(rec, &[0.5]).unwrap();
    assert!(!store.finish(rec).unwrap().is_empty());
}

#[test]
fn finishing_an_empty_take_for_audio_is_refused_and_consumes_it() {
    let mut store: RecordingStore<f32> = RecordingStore::new();
    let rec = store.begin(t(8_000.0), 2).unwrap();
    assert!(matches!(
        store.finish_nonempty(rec),
        Err(EngineError::Audio(phonia::engine::AudioError::WavWrite(_)))
    ));
    assert!(matches!(store.finish(rec), Err(EngineError::UnknownRecordingId(_))));
    let rec = store.begin(t(8_000.0), 1).unwrap();
    store.append(rec, &[0.25]).unwrap();
    let take = store.finish_nonempty(rec).unwrap();
    assert_eq!(take.channels, vec![vec![0.25]]);
}
