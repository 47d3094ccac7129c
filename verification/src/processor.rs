//! The session: one detector and one correction engine for one audio format.

use vstd::prelude::*;
use vstd::slice::slice_to_vec;
use crate::audio::{calculate_amplitude, energy};
use crate::autotune::{corrected, AutotuneEngine};
use crate::config::AudioConfig;
use crate::dsp::{yin_estimate, PitchDetector, MIN_SAMPLES};
use crate::error::AudioError;
use crate::fixed::{floor_div, is_floor_sqrt, MAX_SAMPLES, UNIT};

verus! {

/// The number of features that an analysis reports.
pub const FEATURE_COUNT: usize = 128;

/// The signal-to-noise ratio, in decibels, from which the quality is one.
pub const FULL_QUALITY_DB: i32 = 40;

/// A detected pitch: frequency in millihertz, confidence in millionths, and the
/// name of the method that found it.
#[derive(Clone, Debug)]
pub struct PitchResult {
    pub frequency: u64,
    pub confidence: u32,
    pub algorithm: String,
}

/// A record of one correction: the pitches in millihertz before and after, the
/// strength in millionths, and the number of samples processed.
#[derive(Clone, Copy, Debug, PartialEq, Eq, Structural)]
pub struct AutotuneResult {
    pub original_pitch: u64,
    pub corrected_pitch: u64,
    pub strength: i32,
    pub processed_samples: u32,
}

/// What an analysis finds in a buffer: pitch in millihertz, root-mean-square
/// amplitude in the unit of the samples, quality in millionths, and features.
#[derive(Clone, Debug)]
pub struct AudioAnalysis {
    pub pitch: u64,
    pub amplitude: u16,
    pub quality_score: i32,
    pub features: Vec<i32>,
}

/// How a buffer is to be processed: whether to correct its pitch, by what strength
/// in millionths, and toward which scale and key.
#[derive(Clone, Debug)]
pub struct ProcessOptions {
    pub enable_autotune: bool,
    pub strength: i32,
    pub scale: String,
    pub key: String,
}

/// The quality in millionths that belongs to a signal-to-noise ratio given in
/// millionths of a decibel: a fortieth of it per decibel, rounded down, and at most one.
pub open spec fn quality_of(snr: int) -> int {
    if snr >= FULL_QUALITY_DB * UNIT {
        UNIT as int
    } else {
        snr / (FULL_QUALITY_DB as int)
    }
}

/// The greeting of a library that is ready.
pub fn init() -> (s: String)
    ensures
        s@ == "MusicAI initialized successfully"@,
{
    "MusicAI initialized successfully".to_owned()
}

/// A processing session for one audio format.
pub struct MusicAIProcessor {
    config: AudioConfig,
    pitch_detector: PitchDetector,
    autotune_engine: AutotuneEngine,
}

impl MusicAIProcessor {
    /// The detector and the engine work at the session's sample rate.
    #[verifier::type_invariant]
    spec fn consistent(self) -> bool {
        &&& self.pitch_detector.rate() == self.config.sample_rate
        &&& self.autotune_engine.format() == self.config
    }

    /// The audio format of the session.
    pub closed spec fn format(self) -> AudioConfig {
        self.config
    }

    /// A session for buffers in the format `config`.
    pub fn new(config: AudioConfig) -> (p: Self)
        ensures
            p.format() == config,
    {
        MusicAIProcessor {
            config,
            pitch_detector: PitchDetector::new(config.sample_rate),
            autotune_engine: AutotuneEngine::new(config),
        }
    }

    /// The audio format of the session.
    pub fn config(&self) -> (c: AudioConfig)
        ensures
            c == self.format(),
    {
        self.config
    }

    /// Detects the pitch of `buffer` by the YIN method.
    pub fn detect_pitch(&self, buffer: &[i16]) -> (r: Result<PitchResult, AudioError>)
        requires
            buffer.len() <= MAX_SAMPLES,
        ensures
            buffer.len() < MIN_SAMPLES ==> r == Err::<PitchResult, AudioError>(
                AudioError::InsufficientSamples,
            ),
            buffer.len() >= MIN_SAMPLES ==> r is Ok && r.unwrap().frequency == yin_estimate(
                buffer@,
                self.format().sample_rate,
            ).frequency && r.unwrap().confidence == yin_estimate(
                buffer@,
                self.format().sample_rate,
            ).confidence && r.unwrap().algorithm@ == "YIN"@,
    {
        proof {
            use_type_invariant(self);
        }
        match self.pitch_detector.detect(buffer) {
            Err(e) => Err(e),
            Ok(found) => Ok(
                PitchResult {
                    frequency: found.frequency,
                    confidence: found.confidence,
                    algorithm: "YIN".to_owned(),
                },
            ),
        }
    }

    /// Corrects the pitch of `buffer` toward `target_pitch` millihertz by `strength`
    /// millionths.
    pub fn apply_autotune(&mut self, buffer: &[i16], target_pitch: u64, strength: i32) -> (r:
        Result<Vec<i16>, AudioError>)
        requires
            buffer.len() <= MAX_SAMPLES,
        ensures
            final(self).format() == old(self).format(),
            buffer.len() == 0 ==> r == Err::<Vec<i16>, AudioError>(AudioError::EmptyBuffer),
            buffer.len() > 0 && !(0 <= strength <= UNIT) ==> r == Err::<Vec<i16>, AudioError>(
                AudioError::InvalidParameter,
            ),
            buffer.len() > 0 && 0 <= strength <= UNIT ==> r is Ok && r.unwrap()@ == corrected(
                buffer@,
                old(self).format().sample_rate,
                target_pitch,
                strength as int,
            ),
    {
        proof {
            use_type_invariant(&*self);
        }
        self.autotune_engine.process(buffer, target_pitch, strength)
    }

    /// The quality in millionths of a buffer whose signal-to-noise ratio is `snr`
    /// millionths of a decibel.
    pub fn calculate_quality(&self, snr: i32) -> (q: i32)
        ensures
            q == quality_of(snr as int),
            q <= UNIT,
    {
        if snr >= 40_000_000 {
            1_000_000
        } else {
            floor_div(snr as i128, 40) as i32
        }
    }

    /// The features of `buffer`: all zero, in a fixed number.
    pub fn extract_features(&self, buffer: &[i16]) -> (f: Vec<i32>)
        ensures
            f@ == Seq::new(FEATURE_COUNT as nat, |i: int| 0i32),
    {
        let mut features: Vec<i32> = Vec::new();
        let mut i: usize = 0;
        while i < FEATURE_COUNT
            invariant
                i <= FEATURE_COUNT,
                features@.len() == i,
                forall|k: int| 0 <= k < i ==> features@[k] == 0,
            decreases FEATURE_COUNT - i,
        {
            features.push(0);
            i = i + 1;
        }
        assert(features@ =~= Seq::new(FEATURE_COUNT as nat, |i: int| 0i32));
        features
    }

    /// The note of `scale` in `key` nearest to `freq`: as yet `freq` itself.
    pub fn snap_to_scale(&self, freq: u64, scale: &str, key: &str) -> (r: u64)
        ensures
            r == freq,
    {
        freq
    }

    /// Analyzes `buffer`, whose signal-to-noise ratio is `snr` millionths of a
    /// decibel: its pitch, its amplitude, its quality and its features.
    pub fn analyze_audio(&self, buffer: &[i16], snr: i32) -> (r: Result<AudioAnalysis, AudioError>)
        requires
            buffer.len() <= MAX_SAMPLES,
        ensures
            buffer.len() < MIN_SAMPLES ==> r == Err::<AudioAnalysis, AudioError>(
                AudioError::InsufficientSamples,
            ),
            buffer.len() >= MIN_SAMPLES ==> r is Ok && {
                let a = r.unwrap();
                &&& a.pitch == yin_estimate(buffer@, self.format().sample_rate).frequency
                &&& is_floor_sqrt(
                    a.amplitude as int,
                    energy(buffer@, buffer.len() as int) / (buffer.len() as int),
                )
                &&& a.quality_score == quality_of(snr as int)
                &&& a.features@ == Seq::new(FEATURE_COUNT as nat, |i: int| 0i32)
            },
    {
        proof {
            use_type_invariant(self);
        }
        match self.pitch_detector.detect(buffer) {
            Err(e) => Err(e),
            Ok(found) => {
                let amplitude = calculate_amplitude(buffer);
                let quality_score = self.calculate_quality(snr);
                let features = self.extract_features(buffer);
                Ok(AudioAnalysis { pitch: found.frequency, amplitude, quality_score, features })
            },
        }
    }

    /// Processes one buffer as it arrives: detects its pitch and, where the
    /// options ask for it, corrects the buffer toward the note nearest to that
    /// pitch; otherwise returns the buffer as it is.
    pub fn process_realtime(&mut self, buffer: &[i16], options: &ProcessOptions) -> (r: Result<
        Vec<i16>,
        AudioError,
    >)
        requires
            buffer.len() <= MAX_SAMPLES,
        ensures
            final(self).format() == old(self).format(),
            buffer.len() < MIN_SAMPLES ==> r == Err::<Vec<i16>, AudioError>(
                AudioError::InsufficientSamples,
            ),
            buffer.len() >= MIN_SAMPLES && !options.enable_autotune ==> r is Ok && r.unwrap()@
                == buffer@,
            buffer.len() >= MIN_SAMPLES && options.enable_autotune && !(0 <= options.strength
                <= UNIT) ==> r == Err::<Vec<i16>, AudioError>(AudioError::InvalidParameter),
            buffer.len() >= MIN_SAMPLES && options.enable_autotune && 0 <= options.strength
                <= UNIT ==> r is Ok && r.unwrap()@ == corrected(
                buffer@,
                old(self).format().sample_rate,
                yin_estimate(buffer@, old(self).format().sample_rate).frequency,
                options.strength as int,
            ),
    {
        proof {
            use_type_invariant(&*self);
        }
        let pitch = match self.pitch_detector.detect(buffer) {
            Err(e) => {
                return Err(e);
            },
            Ok(found) => found,
        };
        if options.enable_autotune {
            let target = self.snap_to_scale(
                pitch.frequency,
                options.scale.as_str(),
                options.key.as_str(),
            );
            self.apply_autotune(buffer, target, options.strength)
        } else {
            Ok(slice_to_vec(buffer))
        }
    }
}

} // verus!
