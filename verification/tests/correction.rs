use musicai_core::autotune::AutotuneEngine;
use musicai_core::config::AudioConfig;
use musicai_core::error::AudioError;

fn engine_at(sample_rate: u32) -> AutotuneEngine {
    AutotuneEngine::new(AudioConfig { sample_rate, buffer_size: 256, channels: 1 })
}

/// An amplitude in the unit of these tests: ten thousand to one.
fn level(x: f64) -> i16 {
    (x * 10000.0).round() as i16
}

fn sine(rate: u32, hertz: f64, samples: usize, amplitude: f64) -> Vec<i16> {
    (0..samples)
        .map(|i| {
            let t = i as f64 / rate as f64;
            (amplitude * (2.0 * std::f64::consts::PI * hertz * t).sin()).round() as i16
        })
        .collect()
}

/// Ten samples without a shorter period, repeated.
fn pattern(samples: usize, gain: i16) -> Vec<i16> {
    let period: [i16; 10] = [3, -7, 12, 5, -9, 1, 8, -2, -11, 6];
    (0..samples).map(|i| period[i % 10] * gain).collect()
}

#[test]
fn test_autotune_engine_creation() {
    let config = AudioConfig::default();
    let engine = AutotuneEngine::new(config);
    assert!(engine.overlap_factor() > 0);
    assert_eq!(engine.overlap_factor(), 750_000);
    assert_eq!(engine.config(), config);
}

#[test]
fn test_pitch_shift() {
    let config = AudioConfig::default();
    let engine = AutotuneEngine::new(config);

    let buffer = vec![level(0.5), level(0.3), level(-0.2), level(-0.4), level(0.1)];
    let result = engine.process(&buffer, 440_000, 500_000).unwrap();

    assert_eq!(result.len(), buffer.len());
}

#[test]
fn test_zero_strength() {
    let config = AudioConfig::default();
    let engine = AutotuneEngine::new(config);

    let buffer = vec![level(0.5), level(0.3), level(-0.2), level(-0.4), level(0.1)];
    let result = engine.process(&buffer, 440_000, 0).unwrap();

    // With zero strength, output should be close to input
    assert_eq!(result.len(), buffer.len());
    assert_eq!(result, buffer);
}

#[test]
fn zero_strength_returns_the_input() {
    let engine = engine_at(48000);
    for buffer in [sine(48000, 440.0, 4800, 9000.0), pattern(600, 100), vec![7i16; 3000]] {
        for target in [0u64, 1, 440_000, 880_000, u64::MAX] {
            assert_eq!(engine.process(&buffer, target, 0), Ok(buffer.clone()));
        }
    }
}

#[test]
fn target_at_the_estimated_pitch_returns_the_input() {
    let engine = engine_at(48000);
    for buffer in [sine(48000, 440.0, 4800, 9000.0), pattern(600, 100)] {
        let current = engine.estimate_pitch(&buffer);
        assert!(current > 0);
        for strength in [1_000_000, 500_000, 1] {
            assert_eq!(engine.process(&buffer, current, strength), Ok(buffer.clone()));
        }
    }
}

#[test]
fn strength_outside_zero_to_one_is_refused() {
    let engine = engine_at(48000);
    let buffer = sine(48000, 440.0, 4800, 9000.0);
    assert_eq!(engine.process(&buffer, 440_000, -100_000), Err(AudioError::InvalidParameter));
    assert_eq!(engine.process(&buffer, 440_000, 1_100_000), Err(AudioError::InvalidParameter));
    assert_eq!(engine.process(&buffer, 440_000, -1), Err(AudioError::InvalidParameter));
    assert_eq!(engine.process(&buffer, 440_000, 1_000_001), Err(AudioError::InvalidParameter));
    assert_eq!(engine.process(&buffer, 440_000, i32::MIN), Err(AudioError::InvalidParameter));
    assert_eq!(engine.process(&buffer, 440_000, i32::MAX), Err(AudioError::InvalidParameter));
    assert!(engine.process(&buffer, 440_000, 1_000_000).is_ok());
}

#[test]
fn empty_buffer_is_refused() {
    let engine = engine_at(48000);
    assert_eq!(engine.process(&[], 440_000, 500_000), Err(AudioError::EmptyBuffer));
}

#[test]
fn empty_buffer_is_refused_before_the_strength_is_looked_at() {
    let engine = engine_at(48000);
    assert_eq!(engine.process(&[], 440_000, -100_000), Err(AudioError::EmptyBuffer));
}

#[test]
fn doubling_takes_every_second_sample() {
    let engine = engine_at(48000);
    let mut buffer = vec![10i16, 20, 30, 40, 50];
    engine.pitch_shift(&mut buffer, 2_000_000);
    assert_eq!(buffer, vec![10, 30, 50, 0, 0]);

    let mut even = vec![-1i16, 2, -3, 4, -5, 6];
    engine.pitch_shift(&mut even, 2_000_000);
    assert_eq!(even, vec![-1, -3, -5, 0, 0, 0]);

    let mut single = vec![-77i16];
    engine.pitch_shift(&mut single, 2_000_000);
    assert_eq!(single, vec![-77]);
}

#[test]
fn doubling_keeps_length_and_first_sample() {
    let engine = engine_at(48000);
    for samples in [1usize, 2, 3, 10, 601] {
        let input = pattern(samples, 37);
        let mut output = input.clone();
        engine.pitch_shift(&mut output, 2_000_000);
        assert_eq!(output.len(), input.len());
        assert_eq!(output[0], input[0]);
    }
}

#[test]
fn resampling_interpolates_between_samples() {
    let engine = engine_at(48000);
    let mut faster = vec![10i16, 20, 30, 40, 50];
    engine.pitch_shift(&mut faster, 1_500_000);
    assert_eq!(faster, vec![10, 25, 40, 50, 0]);

    let mut slower = vec![10i16, 20, 30, 40, 50];
    engine.pitch_shift(&mut slower, 500_000);
    assert_eq!(slower, vec![10, 15, 20, 25, 30]);

    let mut quarter = vec![0i16, 100, 0];
    engine.pitch_shift(&mut quarter, 250_000);
    assert_eq!(quarter, vec![0, 25, 50]);
}

#[test]
fn resampling_rounds_down() {
    let engine = engine_at(48000);
    let mut buffer = vec![-3i16, 0, 0];
    engine.pitch_shift(&mut buffer, 500_000);
    assert_eq!(buffer, vec![-3, -2, 0]);

    let mut up = vec![0i16, 3, 0];
    engine.pitch_shift(&mut up, 500_000);
    assert_eq!(up, vec![0, 1, 3]);

    let mut extremes = vec![i16::MIN, i16::MAX, i16::MIN];
    engine.pitch_shift(&mut extremes, 500_000);
    assert_eq!(extremes, vec![i16::MIN, -1, i16::MAX]);
}

#[test]
fn ratio_zero_repeats_the_first_sample() {
    let engine = engine_at(48000);
    let mut buffer = vec![9i16, 8, 7];
    engine.pitch_shift(&mut buffer, 0);
    assert_eq!(buffer, vec![9, 9, 9]);
}

#[test]
fn ratio_within_the_tolerance_of_one_changes_nothing() {
    let engine = engine_at(48000);
    let input = vec![10i16, 20, 30, 40, 50];
    for ratio in [1_000_000u64, 999_001, 1_000_999, 1_000_500] {
        let mut buffer = input.clone();
        engine.pitch_shift(&mut buffer, ratio);
        assert_eq!(buffer, input);
    }
    let mut above = vec![0i16, 10_000, 0];
    engine.pitch_shift(&mut above, 1_001_000);
    assert_eq!(above, vec![0, 9_990, 0]);
    let mut below = vec![0i16, 10_000, 0];
    engine.pitch_shift(&mut below, 999_000);
    assert_eq!(below, vec![0, 9_990, 20]);
}

#[test]
fn huge_ratio_leaves_the_first_sample_and_silence() {
    let engine = engine_at(48000);
    let mut buffer = vec![5i16, 6, 7, 8];
    engine.pitch_shift(&mut buffer, u64::MAX);
    assert_eq!(buffer, vec![5, 0, 0, 0]);
    let mut empty: Vec<i16> = Vec::new();
    engine.pitch_shift(&mut empty, 3_000_000);
    assert!(empty.is_empty());
}

#[test]
fn autocorrelation_is_the_normalized_inner_product() {
    let engine = engine_at(48000);
    assert_eq!(engine.autocorrelation(&[1, 2, 3, 4], 1), 992_583);
    assert_eq!(engine.autocorrelation(&[1, 2, 3, 4], 3), 1_000_000);
    assert_eq!(engine.autocorrelation(&[1, -1, 1, -1], 1), -1_000_000);
    assert_eq!(engine.autocorrelation(&[5, 0, 0, 5], 0), 1_000_000);
}

#[test]
fn autocorrelation_without_energy_is_zero() {
    let engine = engine_at(48000);
    assert_eq!(engine.autocorrelation(&[0, 0, 5], 1), 0);
    assert_eq!(engine.autocorrelation(&[5, 0, 0], 1), 0);
    assert_eq!(engine.autocorrelation(&[1, 2, 3, 4], 4), 0);
    assert_eq!(engine.autocorrelation(&[], 0), 0);
    assert_eq!(engine.autocorrelation(&[0; 100], 10), 0);
}

#[test]
fn autocorrelation_of_a_periodic_buffer() {
    let engine = engine_at(48000);
    let buffer = pattern(600, 100);
    assert_eq!(engine.autocorrelation(&buffer, 48), -657_451);
    assert_eq!(engine.autocorrelation(&buffer, 49), -248_260);
    assert_eq!(engine.autocorrelation(&buffer, 50), 1_000_000);
    assert_eq!(engine.autocorrelation(&buffer, 51), -249_867);
    assert_eq!(engine.autocorrelation(&buffer, 60), 1_000_000);
}

#[test]
fn coarse_search_takes_the_first_of_the_best_lags() {
    let engine = engine_at(48000);
    let buffer = pattern(600, 100);
    assert_eq!(engine.estimate_period(&buffer), Some(50));
    assert_eq!(engine.estimate_pitch(&buffer), 960_000);
}

#[test]
fn coarse_search_finds_the_period_of_a_sine() {
    let engine = engine_at(48000);
    let buffer = sine(48000, 440.0, 4800, 10000.0);
    assert_eq!(engine.estimate_period(&buffer), Some(109));
    assert_eq!(engine.estimate_pitch(&buffer), 440_366);
}

#[test]
fn coarse_search_finds_nothing_in_silence_or_short_buffers() {
    let engine = engine_at(48000);
    assert_eq!(engine.estimate_period(&vec![0i16; 4800]), None);
    assert_eq!(engine.estimate_pitch(&vec![0i16; 4800]), 0);
    // Half the buffer does not reach the shortest period searched.
    assert_eq!(engine.estimate_period(&pattern(96, 100)), None);
    assert_eq!(engine.estimate_period(&[]), None);
    assert_eq!(engine_at(0).estimate_period(&pattern(600, 100)), None);
    assert_eq!(engine_at(49).estimate_period(&pattern(600, 100)), None);
}

#[test]
fn weak_correlation_is_no_pitch() {
    let engine = engine_at(48000);
    // Alternating samples correlate fully at even lags.
    let buffer: Vec<i16> = (0..200).map(|i| if i % 2 == 0 { 1000 } else { -1000 }).collect();
    assert_eq!(engine.estimate_period(&buffer), Some(48));
    let noise: Vec<i16> = (0..400u32)
        .map(|i| ((i.wrapping_mul(2654435761) >> 16) % 2001) as i16 - 1000)
        .collect();
    let found = engine.estimate_period(&noise);
    if let Some(lag) = found {
        assert!(engine.autocorrelation(&noise, lag) >= 500_000);
    } else {
        for lag in 48..200 {
            assert!(engine.autocorrelation(&noise, lag) < 500_000);
        }
        assert_eq!(engine.process(&noise, 440_000, 1_000_000), Ok(noise.clone()));
    }
}

#[test]
fn low_sample_rate_searches_from_lag_zero() {
    let engine = engine_at(500);
    let buffer = pattern(600, 100);
    assert_eq!(engine.estimate_period(&buffer), Some(0));
    assert_eq!(engine.estimate_pitch(&buffer), u64::MAX);
    // The period zero has no finite pitch: the ratio falls to one minus the strength.
    let mut expected = buffer.clone();
    engine.pitch_shift(&mut expected, 250_000);
    assert_eq!(engine.process(&buffer, 440_000, 750_000), Ok(expected));
}

#[test]
fn scaling_the_samples_keeps_the_period() {
    let engine = engine_at(48000);
    for buffer in [sine(48000, 440.0, 4800, 3000.0), pattern(600, 10)] {
        let period = engine.estimate_period(&buffer);
        assert!(period.is_some());
        for factor in [2i16, 3, 10, -1, -7] {
            let scaled: Vec<i16> = buffer.iter().map(|&x| x * factor).collect();
            assert_eq!(engine.estimate_period(&scaled), period);
        }
    }
    let noise: Vec<i16> = (0..400u32)
        .map(|i| ((i.wrapping_mul(2654435761) >> 16) % 2001) as i16 - 1000)
        .collect();
    let scaled: Vec<i16> = noise.iter().map(|&x| x * 5).collect();
    assert_eq!(engine.estimate_period(&scaled), engine.estimate_period(&noise));
}

#[test]
fn full_strength_resamples_by_the_ratio_of_the_pitches() {
    let engine = engine_at(48000);
    let buffer = pattern(600, 100);
    // Period 50 at 48 kHz is 960 Hz; twice that doubles the reading speed.
    let result = engine.process(&buffer, 1_920_000, 1_000_000).unwrap();
    for i in 0..600 {
        let expected = if 2 * i < 600 { buffer[2 * i] } else { 0 };
        assert_eq!(result[i], expected);
    }
}

#[test]
fn strength_blends_from_one_to_the_full_ratio() {
    let engine = engine_at(48000);
    let buffer = pattern(600, 100);
    let mut expected = buffer.clone();
    engine.pitch_shift(&mut expected, 1_500_000);
    assert_eq!(engine.process(&buffer, 1_920_000, 500_000), Ok(expected));

    let sine_buffer = sine(48000, 440.0, 4800, 10000.0);
    let mut shifted = sine_buffer.clone();
    engine.pitch_shift(&mut shifted, 1_998_333);
    assert_eq!(engine.process(&sine_buffer, 880_000, 1_000_000), Ok(shifted));
}

#[test]
fn target_zero_at_full_strength_holds_the_first_sample() {
    let engine = engine_at(48000);
    let buffer = pattern(600, 100);
    assert_eq!(engine.process(&buffer, 0, 1_000_000), Ok(vec![buffer[0]; 600]));
}

#[test]
fn absurd_target_leaves_the_first_sample_and_silence() {
    let engine = engine_at(48000);
    let buffer = pattern(600, 100);
    let mut expected = vec![0i16; 600];
    expected[0] = buffer[0];
    assert_eq!(engine.process(&buffer, u64::MAX, 1_000_000), Ok(expected));
}

#[test]
fn formants_pass_through() {
    let engine = engine_at(48000);
    let buffer = pattern(100, 3);
    assert_eq!(engine.preserve_formants(&buffer), buffer);
    assert_eq!(engine.preserve_formants(&[]), Vec::<i16>::new());
}
