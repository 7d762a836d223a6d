use phonia::waveform::{
    aligned_span, bucket_count, fold_chunk, is_nan_bits, key_bits, order_key, scan_samples,
    MinMax, Pyramid, BASE_BUCKET,
};

fn keys_of(samples: &[f32]) -> Vec<u32> {
    samples.iter().map(|s| s.to_bits()).collect()
}

fn floats(span: MinMax) -> (f32, f32) {
    (f32::from_bits(key_bits(span.min)), f32::from_bits(key_bits(span.max)))
}

fn direct_min_max(samples: &[f32], start: usize, end: usize) -> (f32, f32) {
    let slice = &samples[start..end];
    (
        slice.iter().copied().fold(f32::INFINITY, f32::min),
        slice.iter().copied().fold(f32::NEG_INFINITY, f32::max),
    )
}

fn ramp(sample_count: usize) -> Vec<f32> {
    (0..sample_count)
        .map(|i| (i as f32 / sample_count.max(1) as f32) * 2.0 - 1.0)
        .collect()
}

#[test]
fn range_matches_direct_scan_at_every_alignment() {
    let mono = ramp(1_237);
    let pyramid = Pyramid::build(&keys_of(&mono));

    for &(start, end) in &[
        (0usize, 1usize),
        (0, 1_237),
        (5, 5),
        (1, 512),
        (513, 1_237),
        (100, 101),
        (0, 3),
        (1_236, 1_237),
    ] {
        let expected = if start == end {
            (f32::INFINITY, f32::NEG_INFINITY)
        } else {
            direct_min_max(&mono, start, end)
        };
        let actual = floats(pyramid.range(start, end));
        assert_eq!(actual.0.to_bits(), expected.0.to_bits(), "start={start} end={end}");
        assert_eq!(actual.1.to_bits(), expected.1.to_bits(), "start={start} end={end}");
    }
}

#[test]
fn order_keys_sort_as_the_floats_do_and_undo_exactly() {
    let values = [
        f32::NEG_INFINITY,
        -3.5,
        -1.0e-30,
        -0.0,
        0.0,
        1.0e-30,
        2.25,
        f32::INFINITY,
    ];
    for pair in values.windows(2) {
        assert!(order_key(pair[0].to_bits()) < order_key(pair[1].to_bits()));
    }
    for v in values {
        assert_eq!(key_bits(order_key(v.to_bits())), v.to_bits());
    }
    assert!(is_nan_bits(f32::NAN.to_bits()));
    assert!(!is_nan_bits(f32::INFINITY.to_bits()));
    assert!(!is_nan_bits((-0.0f32).to_bits()));
}

#[test]
fn nan_samples_are_passed_over_like_a_float_minimum() {
    let mono = [0.5f32, f32::NAN, -0.25, f32::NAN];
    let pyramid = Pyramid::build(&keys_of(&mono));
    assert_eq!(floats(pyramid.range(0, 4)), (-0.25, 0.5));
    assert_eq!(floats(pyramid.range(1, 2)), (f32::INFINITY, f32::NEG_INFINITY));
    assert_eq!(pyramid.sample_count(), 4);
    assert_eq!(floats(MinMax::neutral()), (f32::INFINITY, f32::NEG_INFINITY));
}

#[test]
fn chunked_bucket_folding_matches_direct_bucket_scans() {
    let mono: Vec<f32> = (0..1_000).map(|i| ((i as f32) * 0.013).sin()).collect();
    let mut buckets = vec![MinMax::neutral(); bucket_count(mono.len())];
    assert_eq!(buckets.len(), 4);
    for (chunk, start) in mono.chunks(300).zip((0..).step_by(300)) {
        fold_chunk(&mut buckets, start, &keys_of(chunk));
    }
    for (b, bucket) in buckets.iter().enumerate() {
        let lo = b * BASE_BUCKET;
        let hi = ((b + 1) * BASE_BUCKET).min(mono.len());
        assert_eq!(floats(*bucket), direct_min_max(&mono, lo, hi), "bucket {b}");
    }
}

#[test]
fn streamed_range_joins_raw_ends_and_whole_buckets_exactly() {
    let mono: Vec<f32> = (0..2_000).map(|i| ((i as f32) * 0.013).sin() * 0.9).collect();
    let mut buckets = vec![MinMax::neutral(); bucket_count(mono.len())];
    fold_chunk(&mut buckets, 0, &keys_of(&mono));
    let pyramid = Pyramid::from_entries(&buckets);
    for &(start, end) in &[(3usize, 1_999usize), (256, 512), (300, 900), (0, 2_000), (10, 200)] {
        let span = match aligned_span(start, end) {
            None => scan_samples(&keys_of(&mono[start..end])),
            Some((first, last)) => MinMax::neutral()
                .combine(scan_samples(&keys_of(&mono[start..first])))
                .combine(pyramid.range(first / BASE_BUCKET, last / BASE_BUCKET))
                .combine(scan_samples(&keys_of(&mono[last..end]))),
        };
        assert_eq!(floats(span), direct_min_max(&mono, start, end), "{start}..{end}");
    }
}

#[test]
fn aligned_spans_and_bucket_counts() {
    assert_eq!(aligned_span(3, 1_999), Some((256, 1_792)));
    assert_eq!(aligned_span(256, 512), Some((256, 512)));
    assert_eq!(aligned_span(10, 200), None);
    assert_eq!(aligned_span(300, 511), None);
    assert_eq!(bucket_count(0), 1);
    assert_eq!(bucket_count(256), 1);
    assert_eq!(bucket_count(257), 2);
}
