use vstd::prelude::*;

verus! {

/// A rejected configuration of one of the waveform operations.
#[derive(Debug, Clone, Copy, PartialEq, Eq, Structural)]
pub enum WaveformError {
    /// A chunk window of zero samples.
    ZeroWindowSize,
    /// A display of zero columns.
    ZeroStageWidth,
    /// A sound duration that is not positive.
    NonPositiveDuration,
    /// A viewport whose end lies before its start.
    InvertedTimeRange,
    /// An overlap fraction outside `[0, 1)`.
    InvalidOverlap,
    /// A padded viewport with more positions than memory can index.
    ViewportTooLarge,
}

impl WaveformError {
    /// A human-readable cause.
    pub fn message(&self) -> (r: &'static str) {
        match self {
            WaveformError::ZeroWindowSize => "the window size must be at least one sample",
            WaveformError::ZeroStageWidth => "the stage width must be at least one column",
            WaveformError::NonPositiveDuration => "the sound duration must be positive",
            WaveformError::InvertedTimeRange => "the viewport ends before it starts",
            WaveformError::InvalidOverlap => "the overlap fraction must lie in [0, 1)",
            WaveformError::ViewportTooLarge => "the viewport spans more chunks than memory can hold",
        }
    }
}

} // verus!
