//! Waveform reduction for audio visualisation.
//!
//! Samples are carried as the IEEE-754 bit patterns of `f32` values, and the
//! peaks derived from them as the patterns of non-negative `f32` values. For
//! any two non-negative, non-NaN `f32` values, their order is the order of
//! their bit patterns read as `u32`, so every maximum taken here is the
//! maximum of the floating-point magnitudes themselves.
//!
//! Viewport times are integers in one unit of the caller's choosing, shared
//! by the viewport and the sound's duration.

pub mod chunker;
pub mod error;
pub mod loudness;
pub mod viewport;
pub mod windowed;

pub use chunker::{calculate_mono_waveform_chunks, calculate_waveform_chunks};
pub use error::WaveformError;
pub use loudness::{
    calculate_r128_integrated_loudness, loudness_from_measurement, sample_to_pcm, LoudnessError,
};
pub use viewport::{calculate_y_value_array_from_chunks, peaks_with_carry};
pub use windowed::{padded_chunks, windowed_segment_bounds};
