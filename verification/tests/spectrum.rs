use musicai_core::dsp::{PitchDetectionResult, PitchDetector};
use musicai_core::error::AudioError;
use rustfft::num_complex::Complex;
use rustfft::FftPlanner;

/// The magnitude spectrum, in millionths, of samples scaled to full scale one.
fn spectrum_of(samples: &[i16], full_scale: f32) -> Vec<u64> {
    let mut bins: Vec<Complex<f32>> =
        samples.iter().map(|&x| Complex::new(x as f32 / full_scale, 0.0)).collect();
    let mut planner = FftPlanner::<f32>::new();
    planner.plan_fft_forward(bins.len()).process(&mut bins);
    bins.iter().map(|c| (c.norm() as f64 * 1_000_000.0) as u64).collect()
}

#[test]
fn peak_bin_gives_frequency_and_confidence() {
    let mut spectrum = vec![0u64; 512];
    spectrum[10] = 256_000_000;
    spectrum[20] = 100_000_000;
    let result = PitchDetector::new(48000).fft_detect(&spectrum).unwrap();
    assert_eq!(result, PitchDetectionResult { frequency: 937_500, confidence: 500_000 });
}

#[test]
fn first_of_equal_peaks_wins() {
    let mut spectrum = vec![1u64; 1024];
    spectrum[300] = 9_000;
    spectrum[100] = 9_000;
    spectrum[200] = 9_000;
    let result = PitchDetector::new(44100).fft_detect(&spectrum).unwrap();
    assert_eq!(result.frequency, 100 * 44100 * 1000 / 1024);
    assert_eq!(result.confidence, 8);
}

#[test]
fn bin_zero_and_the_upper_half_are_not_searched() {
    let mut spectrum = vec![0u64; 512];
    spectrum[0] = u64::MAX;
    spectrum[256] = u64::MAX;
    spectrum[511] = u64::MAX;
    spectrum[255] = 512;
    let result = PitchDetector::new(48000).fft_detect(&spectrum).unwrap();
    assert_eq!(result, PitchDetectionResult { frequency: 23_906_250, confidence: 1 });
}

#[test]
fn empty_spectrum_has_no_peak() {
    let result = PitchDetector::new(48000).fft_detect(&vec![0u64; 600]).unwrap();
    assert_eq!(result, PitchDetectionResult { frequency: 0, confidence: 0 });
}

#[test]
fn spectral_confidence_is_capped_at_one() {
    let mut spectrum = vec![0u64; 512];
    spectrum[3] = u64::MAX;
    let result = PitchDetector::new(48000).fft_detect(&spectrum).unwrap();
    assert_eq!(result.confidence, 1_000_000);
    assert_eq!(result.frequency, 281_250);
}

#[test]
fn short_spectrum_is_refused() {
    let detector = PitchDetector::new(48000);
    assert_eq!(detector.fft_detect(&vec![5u64; 511]), Err(AudioError::InsufficientSamples));
    assert_eq!(detector.fft_detect(&[]), Err(AudioError::InsufficientSamples));
}

#[test]
fn transform_of_a_sine_peaks_at_its_frequency() {
    let rate = 48000u32;
    let samples: Vec<i16> = (0..4800)
        .map(|i| {
            let t = i as f64 / rate as f64;
            (20000.0 * (2.0 * std::f64::consts::PI * 440.0 * t).sin()).round() as i16
        })
        .collect();
    let spectrum = spectrum_of(&samples, 32768.0);
    assert_eq!(spectrum.len(), 4800);
    let result = PitchDetector::new(rate).fft_detect(&spectrum).unwrap();
    assert_eq!(result.frequency, 440_000);
    // Half the amplitude of the sine, as a share of full scale.
    let expected = 0.5 * 20000.0 / 32768.0;
    let confidence = result.confidence as f64 / 1_000_000.0;
    assert!((confidence - expected).abs() < 0.001);
}

#[test]
fn both_strategies_agree_on_a_sine() {
    let rate = 48000u32;
    let samples: Vec<i16> = (0..4800)
        .map(|i| {
            let t = i as f64 / rate as f64;
            (20000.0 * (2.0 * std::f64::consts::PI * 440.0 * t).sin()).round() as i16
        })
        .collect();
    let detector = PitchDetector::new(rate);
    let by_lag = detector.detect(&samples).unwrap();
    let by_spectrum = detector.fft_detect(&spectrum_of(&samples, 32768.0)).unwrap();
    assert!((by_lag.frequency as i64 - by_spectrum.frequency as i64).abs() < 1_000);
}
