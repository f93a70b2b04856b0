use waveform_process::{
    calculate_r128_integrated_loudness, loudness_from_measurement, sample_to_pcm, LoudnessError,
};

fn sine_pcm(rate: u32, freq: f64, seconds: f64, amplitude: f64) -> Vec<u32> {
    let n = (rate as f64 * seconds) as usize;
    (0..n)
        .map(|i| {
            let x = amplitude * (2.0 * std::f64::consts::PI * freq * i as f64 / rate as f64).sin();
            (x as f32).to_bits()
        })
        .collect()
}

#[test]
fn pcm_conversion_scales_by_two_to_the_31() {
    assert_eq!(sample_to_pcm(0.5f32.to_bits()), 1 << 30);
    assert_eq!(sample_to_pcm((-0.25f32).to_bits()), -(1 << 29));
    assert_eq!(sample_to_pcm(1.0f32.to_bits()), i32::MAX);
    assert_eq!(sample_to_pcm((-1.0f32).to_bits()), i32::MIN);
    assert_eq!(sample_to_pcm(3.5f32.to_bits()), i32::MAX);
    assert_eq!(sample_to_pcm(f32::NEG_INFINITY.to_bits()), i32::MIN);
    assert_eq!(sample_to_pcm(f32::NAN.to_bits()), 0);
    assert_eq!(sample_to_pcm(0.0f32.to_bits()), 0);
    assert_eq!(sample_to_pcm(1e-12f32.to_bits()), 0);
    assert_eq!(sample_to_pcm(f32::MIN_POSITIVE.to_bits()), 0);
    for x in [0.123456f32, -0.987654, 0.000_031, -0.5000001, 0.999_999_9, 2e-9, -3e-7] {
        assert_eq!(sample_to_pcm(x.to_bits()), (x as f64 * 2147483648.0) as i32, "{}", x);
    }
}

#[test]
fn full_scale_sine_loudness() {
    let s = sine_pcm(48000, 1000.0, 5.0, 1.0);
    let bits = calculate_r128_integrated_loudness(s.clone(), s, 48000).unwrap();
    let lufs = f64::from_bits(bits);
    // A 0 dBFS 1 kHz sine reads -3.01 LUFS per channel; on both channels, 0.
    assert!((lufs - 0.0).abs() < 0.1, "{}", lufs);
}

#[test]
fn half_scale_sine_is_six_db_quieter() {
    let full = calculate_r128_integrated_loudness(sine_pcm(44100, 1000.0, 3.0, 1.0), sine_pcm(44100, 1000.0, 3.0, 1.0), 44100).unwrap();
    let half = calculate_r128_integrated_loudness(sine_pcm(44100, 1000.0, 3.0, 0.5), sine_pcm(44100, 1000.0, 3.0, 0.5), 44100).unwrap();
    let d = f64::from_bits(full) - f64::from_bits(half);
    assert!((d - 6.02).abs() < 0.1, "{}", d);
}

#[test]
fn loudness_rejects_unequal_channels() {
    assert_eq!(
        calculate_r128_integrated_loudness(vec![0u32; 10], vec![0u32; 9], 48000),
        Err(LoudnessError::ChannelLengthMismatch)
    );
}

#[test]
fn loudness_rejects_sample_rate() {
    assert_eq!(calculate_r128_integrated_loudness(vec![0u32; 10], vec![0u32; 10], 8), Err(LoudnessError::UnsupportedSampleRate));
    assert_eq!(calculate_r128_integrated_loudness(vec![0u32; 10], vec![0u32; 10], 0), Err(LoudnessError::UnsupportedSampleRate));
}

#[test]
fn loudness_of_silence_is_not_a_number() {
    assert_eq!(
        calculate_r128_integrated_loudness(vec![0u32; 48000], vec![0u32; 48000], 48000),
        Err(LoudnessError::NoMeasurableLoudness)
    );
}

#[test]
fn measurement_must_be_finite() {
    assert_eq!(loudness_from_measurement((-23.5f64).to_bits()), Ok((-23.5f64).to_bits()));
    assert_eq!(loudness_from_measurement(f64::NEG_INFINITY.to_bits()), Err(LoudnessError::NoMeasurableLoudness));
    assert_eq!(loudness_from_measurement(f64::NAN.to_bits()), Err(LoudnessError::NoMeasurableLoudness));
    assert!(!LoudnessError::MeterFailure.message().is_empty());
}
