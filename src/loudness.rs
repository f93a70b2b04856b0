use vstd::arithmetic::power2::{
    lemma2_to64,
    lemma_pow2_pos,
    lemma_pow2_strictly_increases,
    lemma_pow2_unfold,
    pow2,
};
use vstd::prelude::*;

verus! {

#[verifier::external_type_specification]
#[verifier::external_body]
pub struct ExEbuR128(ebur128::EbuR128);

#[verifier::external_type_specification]
#[verifier::external_body]
pub struct ExMeterError(ebur128::Error);

/// Why no integrated loudness could be given.
#[derive(Debug, Clone, Copy, PartialEq, Eq, Structural)]
pub enum LoudnessError {
    /// The two channels hold different numbers of samples.
    ChannelLengthMismatch,
    /// The meter does not run at this sample rate.
    UnsupportedSampleRate,
    /// The meter failed while measuring.
    MeterFailure,
    /// The measurement is not a finite number (silence, or too little signal
    /// above the gates).
    NoMeasurableLoudness,
}

impl LoudnessError {
    /// A human-readable cause.
    pub fn message(&self) -> (r: &'static str) {
        match self {
            LoudnessError::ChannelLengthMismatch => "the channels differ in length",
            LoudnessError::UnsupportedSampleRate => "the sample rate is not supported by the meter",
            LoudnessError::MeterFailure => "the loudness meter failed",
            LoudnessError::NoMeasurableLoudness => "no finite loudness could be measured",
        }
    }
}

/// The lowest sample rate the meter accepts.
pub const MIN_SAMPLE_RATE: u32 = 16;

/// The highest sample rate the meter accepts.
pub const MAX_SAMPLE_RATE: u32 = 2_822_400;

/// The 32-bit PCM sample for the `f32` whose bit pattern is `b`: the value
/// times `2^31`, truncated toward zero and saturated to the `i32` range;
/// NaN gives 0. An `f32` is `m * 2^(e - 150)` with `m` its significand (the
/// fraction with the implicit leading one, except where `e == 0`), so the
/// scaled magnitude is `m * 2^(e - 119)`.
pub open spec fn sample_pcm(b: u32) -> i32 {
    let e = (b / 0x80_0000) % 0x100;
    let f = b % 0x80_0000;
    let m = if e == 0 { f as int } else { f + 0x80_0000 };
    let mag = if e >= 127 {
        0x8000_0000
    } else if e >= 119 {
        m * (pow2((e - 119) as nat) as int)
    } else {
        m / (pow2((119 - e) as nat) as int)
    };
    if e == 0xff && f != 0 {
        0
    } else if b >= 0x8000_0000 {
        (-mag) as i32
    } else if mag >= 0x8000_0000 {
        0x7fff_ffff
    } else {
        mag as i32
    }
}

/// `2^k` for `k <= 24`.
fn pow2_upto_24(k: u32) -> (r: u64)
    requires
        k <= 24,
    ensures
        r == pow2(k as nat),
        r <= 0x100_0000,
{
    let mut p: u64 = 1;
    let mut i: u32 = 0;
    proof {
        lemma2_to64();
    }
    while i < k
        invariant
            i <= k <= 24,
            p == pow2(i as nat),
            pow2(24) == 0x100_0000,
        decreases k - i,
    {
        proof {
            lemma_pow2_strictly_increases(i as nat, 24);
            lemma_pow2_unfold((i + 1) as nat);
        }
        p = p * 2;
        i = i + 1;
    }
    proof {
        if k < 24 {
            lemma_pow2_strictly_increases(k as nat, 24);
        }
    }
    p
}

/// Converts an `f32` bit pattern to a 32-bit PCM sample (see `sample_pcm`).
pub fn sample_to_pcm(b: u32) -> (r: i32)
    ensures
        r == sample_pcm(b),
{
    let e: u32 = (b / 0x80_0000) % 0x100;
    let f: u32 = b % 0x80_0000;
    if e == 0xff && f != 0 {
        return 0;
    }
    let m: u64 = if e == 0 { f as u64 } else { f as u64 + 0x80_0000 };
    let mag: u64 = if e >= 127 {
        0x8000_0000
    } else if e >= 119 {
        let p = pow2_upto_24(e - 119);
        proof {
            lemma_pow2_strictly_increases((e - 119) as nat, 8);
            lemma2_to64();
            assert(m * p <= 0x7fff_ffff) by (nonlinear_arith)
                requires m < 0x100_0000, p <= 0x80;
        }
        m * p
    } else if 119 - e >= 24 {
        proof {
            lemma2_to64();
            if 119 - e > 24 {
                lemma_pow2_strictly_increases(24, (119 - e) as nat);
            }
            assert(m as int / pow2((119 - e) as nat) as int == 0) by (nonlinear_arith)
                requires m < 0x100_0000, pow2((119 - e) as nat) as int >= 0x100_0000;
        }
        0
    } else {
        let p = pow2_upto_24(119 - e);
        proof {
            lemma_pow2_pos((119 - e) as nat);
            assert(m / p <= m) by (nonlinear_arith)
                requires p >= 1, m >= 0;
        }
        m / p
    };
    if b >= 0x8000_0000 {
        (-(mag as i64)) as i32
    } else if mag >= 0x8000_0000 {
        0x7fff_ffff
    } else {
        mag as i32
    }
}

/// Converts a buffer of `f32` bit patterns to 32-bit PCM.
fn buffer_to_pcm(samples: &Vec<u32>) -> (r: Vec<i32>)
    ensures
        r@ == samples@.map_values(|b: u32| sample_pcm(b)),
{
    let mut out: Vec<i32> = Vec::new();
    let mut i: usize = 0;
    while i < samples.len()
        invariant
            i <= samples.len(),
            out@ == samples@.take(i as int).map_values(|b: u32| sample_pcm(b)),
        decreases samples.len() - i,
    {
        out.push(sample_to_pcm(samples[i]));
        i = i + 1;
        assert(out@ =~= samples@.take(i as int).map_values(|b: u32| sample_pcm(b)));
    }
    assert(samples@.take(i as int) =~= samples@);
    out
}

/// Whether the `f64` whose bit pattern is `b` is finite: its exponent field
/// is not all ones.
pub open spec fn finite_f64_bits(b: u64) -> bool {
    (b / 0x10_0000_0000_0000) % 0x800 != 0x7ff
}

/// Relies on `ebur128::EbuR128::new`: a two-channel meter in integrated
/// mode, refused exactly when the rate lies outside `16 ..= 2_822_400`.
#[verifier::external_body]
fn new_stereo_meter(rate: u32) -> (r: Result<ebur128::EbuR128, ebur128::Error>)
    ensures
        r.is_ok() <==> MIN_SAMPLE_RATE <= rate <= MAX_SAMPLE_RATE,
{
    ebur128::EbuR128::new(2, rate, ebur128::Mode::I)
}

/// Relies on `ebur128::EbuR128::add_frames_planar_i32`: feeds one planar
/// buffer of 32-bit PCM samples per channel; it fails exactly when the
/// buffers differ in length.
#[verifier::external_body]
fn add_stereo_frames(meter: &mut ebur128::EbuR128, left: &Vec<i32>, right: &Vec<i32>) -> (r: Result<
    (),
    ebur128::Error,
>)
    ensures
        r.is_ok() <==> left@.len() == right@.len(),
{
    meter.add_frames_planar_i32(&[left.as_slice(), right.as_slice()])
}

/// Relies on `ebur128::EbuR128::loudness_global`: the gated integrated
/// loudness of what the meter was fed, in LUFS, as the bit pattern of an `f64`.
#[verifier::external_body]
fn global_loudness(meter: &ebur128::EbuR128) -> (r: Result<u64, ebur128::Error>) {
    meter.loudness_global().map(|lufs| lufs.to_bits())
}

/// Accepts a measured loudness (an `f64` bit pattern) only where it is finite.
pub fn loudness_from_measurement(raw: u64) -> (r: Result<u64, LoudnessError>)
    ensures
        finite_f64_bits(raw) ==> r == Ok::<u64, LoudnessError>(raw),
        !finite_f64_bits(raw) ==> r == Err::<u64, LoudnessError>(LoudnessError::NoMeasurableLoudness),
{
    let exponent: u64 = (raw >> 52u64) & 0x7ff;
    assert((raw >> 52u64) & 0x7ff == (raw / 0x10_0000_0000_0000) % 0x800) by (bit_vector);
    if exponent == 0x7ff {
        Err(LoudnessError::NoMeasurableLoudness)
    } else {
        Ok(raw)
    }
}

/// The integrated loudness (ITU-R BS.1770 / EBU R128) of a stereo buffer of
/// `f32` bit patterns, as the bit pattern of an `f64` in LUFS. The samples
/// reach the meter as 32-bit PCM (`sample_pcm`). A fresh meter is built for the call, fed both channels once, and
/// read.
pub fn calculate_r128_integrated_loudness(
    left_channel_data: Vec<u32>,
    right_channel_data: Vec<u32>,
    sample_rate: u32,
) -> (r: Result<u64, LoudnessError>)
    ensures
        left_channel_data@.len() != right_channel_data@.len() ==> r == Err::<u64, LoudnessError>(
            LoudnessError::ChannelLengthMismatch,
        ),
        left_channel_data@.len() == right_channel_data@.len() && !(MIN_SAMPLE_RATE <= sample_rate
            <= MAX_SAMPLE_RATE) ==> r == Err::<u64, LoudnessError>(
            LoudnessError::UnsupportedSampleRate,
        ),
        left_channel_data@.len() == right_channel_data@.len() && MIN_SAMPLE_RATE <= sample_rate
            <= MAX_SAMPLE_RATE ==> match r {
            Ok(v) => finite_f64_bits(v),
            Err(e) => e == LoudnessError::MeterFailure || e == LoudnessError::NoMeasurableLoudness,
        },
{
    if left_channel_data.len() != right_channel_data.len() {
        return Err(LoudnessError::ChannelLengthMismatch);
    }
    let mut meter = match new_stereo_meter(sample_rate) {
        Ok(m) => m,
        Err(_) => {
            return Err(LoudnessError::UnsupportedSampleRate);
        },
    };
    let left = buffer_to_pcm(&left_channel_data);
    let right = buffer_to_pcm(&right_channel_data);
    match add_stereo_frames(&mut meter, &left, &right) {
        Ok(()) => {},
        Err(_) => {
            return Err(LoudnessError::MeterFailure);
        },
    }
    match global_loudness(&meter) {
        Ok(raw) => loudness_from_measurement(raw),
        Err(_) => Err(LoudnessError::MeterFailure),
    }
}

} // verus!
