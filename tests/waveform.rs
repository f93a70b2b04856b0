use waveform_process::{
    calculate_mono_waveform_chunks, calculate_waveform_chunks, calculate_y_value_array_from_chunks,
    padded_chunks, peaks_with_carry, windowed_segment_bounds, WaveformError,
};

fn bits(values: &[f32]) -> Vec<u32> {
    values.iter().map(|v| v.to_bits()).collect()
}

fn floats(patterns: &[u32]) -> Vec<f32> {
    patterns.iter().map(|b| f32::from_bits(*b)).collect()
}

#[test]
fn chunk_mono_scenario() {
    let chunks = calculate_mono_waveform_chunks(bits(&[1.0, -2.0, 3.0, -4.0, 5.0]), 2).unwrap();
    assert_eq!(floats(&chunks), vec![2.0, 4.0, 5.0]);
}

#[test]
fn chunk_count_is_ceiling() {
    for len in 0..20usize {
        for w in 1..7usize {
            let samples: Vec<f32> = (0..len).map(|i| i as f32 - 3.5).collect();
            let chunks = calculate_mono_waveform_chunks(bits(&samples), w).unwrap();
            assert_eq!(chunks.len(), (len + w - 1) / w);
        }
    }
}

#[test]
fn chunk_values_match_brute_force() {
    let left: Vec<f32> = (0..37).map(|i| ((i * 7919) % 23) as f32 / 7.0 - 1.5).collect();
    let right: Vec<f32> = (0..29).map(|i| ((i * 104729) % 19) as f32 / -5.0 + 1.0).collect();
    for w in 1..10usize {
        let chunks = floats(&calculate_waveform_chunks(bits(&left), bits(&right), w).unwrap());
        assert_eq!(chunks.len(), (37 + w - 1) / w);
        for (i, c) in chunks.iter().enumerate() {
            let mut expected = 0.0f32;
            for k in i * w..((i + 1) * w).min(37) {
                expected = expected.max(left[k].abs());
                if k < right.len() {
                    expected = expected.max(right[k].abs());
                }
            }
            assert_eq!(*c, expected);
        }
    }
}

#[test]
fn chunk_adversarial_inputs() {
    let zeros = calculate_mono_waveform_chunks(bits(&[0.0; 9]), 4).unwrap();
    assert_eq!(floats(&zeros), vec![0.0, 0.0, 0.0]);
    let mut spike = vec![0.0f32; 9];
    spike[5] = -0.75;
    let spiked = calculate_mono_waveform_chunks(bits(&spike), 4).unwrap();
    assert_eq!(floats(&spiked), vec![0.0, 0.75, 0.0]);
    let full = calculate_mono_waveform_chunks(bits(&[f32::MAX, -f32::MAX, 1.0]), 2).unwrap();
    assert_eq!(floats(&full), vec![f32::MAX, 1.0]);
}

#[test]
fn chunk_stereo_shorter_channel_skipped() {
    let chunks = calculate_waveform_chunks(bits(&[0.5, 0.1, 0.2]), bits(&[-0.9]), 2).unwrap();
    assert_eq!(floats(&chunks), vec![0.9, 0.2]);
    let chunks = calculate_waveform_chunks(bits(&[0.5]), bits(&[0.1, 0.2, -0.7]), 2).unwrap();
    assert_eq!(floats(&chunks), vec![0.5, 0.7]);
}

#[test]
fn chunk_empty_buffer() {
    assert_eq!(calculate_mono_waveform_chunks(vec![], 3), Ok(vec![]));
}

#[test]
fn chunk_zero_window_rejected() {
    assert_eq!(calculate_mono_waveform_chunks(bits(&[1.0]), 0), Err(WaveformError::ZeroWindowSize));
    assert_eq!(
        calculate_waveform_chunks(bits(&[1.0]), bits(&[1.0]), 0),
        Err(WaveformError::ZeroWindowSize)
    );
}

#[test]
fn resample_left_padding_scenario() {
    let out = calculate_y_value_array_from_chunks(bits(&[1.0, 2.0, 3.0, 4.0]), -1, 4, 4, 5).unwrap();
    assert_eq!(out.len(), 5);
    assert_eq!(floats(&out), vec![0.0, 1.0, 2.0, 3.0, 4.0]);
}

#[test]
fn resample_right_padding() {
    let out = calculate_y_value_array_from_chunks(bits(&[1.0, 2.0, 3.0, 4.0]), 2, 6, 4, 2).unwrap();
    assert_eq!(floats(&out), vec![4.0, 0.0]);
}

#[test]
fn resample_single_column() {
    let out = calculate_y_value_array_from_chunks(bits(&[1.0, 7.0, 3.0, 4.0]), 0, 4, 4, 1).unwrap();
    assert_eq!(floats(&out), vec![7.0]);
}

#[test]
fn resample_length_is_stage_width() {
    let chunks = bits(&[0.3, 0.9, 0.1, 0.4, 0.2, 0.8, 0.7]);
    for w in 1..12usize {
        for (s, e) in [(-5i64, 3i64), (0, 10), (2, 2), (4, 30), (-20, -10), (11, 40)] {
            let out = calculate_y_value_array_from_chunks(chunks.clone(), s, e, 10, w).unwrap();
            assert_eq!(out.len(), w);
        }
    }
}

#[test]
fn resample_before_start_is_silent() {
    let out = calculate_y_value_array_from_chunks(bits(&[1.0, 2.0, 3.0, 4.0]), -8, 0, 4, 3).unwrap();
    assert_eq!(floats(&out), vec![0.0, 0.0, 0.0]);
}

#[test]
fn resample_after_end_is_silent() {
    let out = calculate_y_value_array_from_chunks(bits(&[1.0, 2.0, 3.0, 4.0]), 4, 9, 4, 3).unwrap();
    assert_eq!(floats(&out), vec![0.0, 0.0, 0.0]);
}

#[test]
fn resample_full_view_is_identity() {
    let chunks = bits(&[0.25, 1.0, 0.5, 0.75, 0.125]);
    let out = calculate_y_value_array_from_chunks(chunks.clone(), 0, 1000, 1000, 5).unwrap();
    assert_eq!(out, chunks);
}

#[test]
fn resample_fractional_segments() {
    // 7 positions on 3 columns: segments start at 0, 2, 4 and span 2.
    let chunks = bits(&[1.0, 5.0, 2.0, 3.0, 9.0, 4.0, 8.0]);
    let out = calculate_y_value_array_from_chunks(chunks, 0, 7, 7, 3).unwrap();
    assert_eq!(floats(&out), vec![5.0, 3.0, 9.0]);
}

#[test]
fn resample_empty_segments_carry_zero() {
    let out = calculate_y_value_array_from_chunks(bits(&[6.0, 2.0]), 0, 2, 2, 4).unwrap();
    assert_eq!(floats(&out), vec![0.0, 0.0, 0.0, 0.0]);
}

#[test]
fn resample_errors() {
    let c = bits(&[1.0]);
    assert_eq!(calculate_y_value_array_from_chunks(c.clone(), 0, 1, 1, 0), Err(WaveformError::ZeroStageWidth));
    assert_eq!(calculate_y_value_array_from_chunks(c.clone(), 0, 1, 0, 2), Err(WaveformError::NonPositiveDuration));
    assert_eq!(calculate_y_value_array_from_chunks(c.clone(), 0, 1, -3, 2), Err(WaveformError::NonPositiveDuration));
    assert_eq!(calculate_y_value_array_from_chunks(c, 2, 1, 1, 2), Err(WaveformError::InvertedTimeRange));
}

#[test]
fn carry_forward_of_empty_segments() {
    assert_eq!(peaks_with_carry(&vec![vec![1, 3], vec![], vec![2]]), vec![3, 3, 2]);
    assert_eq!(peaks_with_carry(&vec![vec![], vec![4], vec![], vec![]]), vec![0, 4, 4, 4]);
    assert_eq!(peaks_with_carry(&vec![]), Vec::<u32>::new());
}

#[test]
fn padded_chunks_pad_both_sides() {
    let out = padded_chunks(&bits(&[1.0, 2.0, 3.0, 4.0]), -1, 5, 4).unwrap();
    assert_eq!(floats(&out), vec![0.0, 1.0, 2.0, 3.0, 4.0, 0.0]);
    let out = padded_chunks(&bits(&[1.0, 2.0, 3.0, 4.0]), 3, 3, 4).unwrap();
    assert!(out.is_empty());
}

#[test]
fn padded_chunks_errors() {
    let c = bits(&[1.0]);
    assert_eq!(padded_chunks(&c, 0, 1, 0), Err(WaveformError::NonPositiveDuration));
    assert_eq!(padded_chunks(&c, 1, 0, 1), Err(WaveformError::InvertedTimeRange));
}

#[test]
fn windowed_bounds_with_overlap() {
    let b = windowed_segment_bounds(10, 3, 1, 2).unwrap();
    assert_eq!(b, vec![(0, 3), (2, 5), (4, 7)]);
    let b = windowed_segment_bounds(2, 1, 3, 4).unwrap();
    assert_eq!(b, vec![(0, 2)]);
}

#[test]
fn windowed_without_overlap_matches_resample() {
    // 9 positions on 4 columns: 9 % 4 == 1, both segmentations start at 0, 2, 4, 6.
    let b = windowed_segment_bounds(9, 4, 0, 5).unwrap();
    assert_eq!(b, vec![(0, 2), (2, 4), (4, 6), (6, 8)]);
    let chunks = bits(&[1.0, 2.0, 3.0, 4.0, 5.0, 6.0, 7.0, 8.0, 9.0]);
    let out = calculate_y_value_array_from_chunks(chunks.clone(), 0, 9, 9, 4).unwrap();
    let segs: Vec<Vec<u32>> = b.iter().map(|(s, e)| chunks[*s..*e].to_vec()).collect();
    assert_eq!(peaks_with_carry(&segs), out);
}

#[test]
fn windowed_bounds_errors() {
    assert_eq!(windowed_segment_bounds(4, 0, 0, 1), Err(WaveformError::ZeroStageWidth));
    assert_eq!(windowed_segment_bounds(4, 2, 1, 1), Err(WaveformError::InvalidOverlap));
    assert_eq!(windowed_segment_bounds(4, 2, 0, 0), Err(WaveformError::InvalidOverlap));
}

#[test]
fn error_messages_are_descriptive() {
    assert!(!WaveformError::ZeroWindowSize.message().is_empty());
    assert!(WaveformError::InvertedTimeRange.message().contains("ends before"));
}
