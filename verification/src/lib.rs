//! Pitch detection and pitch correction for monophonic audio, in integer arithmetic.
//!
//! Samples are signed 16-bit integers in any linear unit. Every other real quantity
//! is held in fixed point: ratios (confidence, strength, correlation, resampling ratio)
//! in millionths, frequencies in millihertz.

pub mod audio;
pub mod autotune;
pub mod config;
pub mod dsp;
pub mod error;
pub mod fixed;
pub mod learning;
pub mod processor;
pub mod ranking;

pub use audio::{calculate_amplitude, normalize};
pub use autotune::AutotuneEngine;
pub use config::AudioConfig;
pub use dsp::{PitchDetectionResult, PitchDetector};
pub use error::AudioError;
pub use learning::{LearningEngine, LearningStats, Pattern};
pub use processor::{
    init, AudioAnalysis, AutotuneResult, MusicAIProcessor, PitchResult, ProcessOptions,
};
