//! Pitch detection: the fundamental frequency of a buffer.

use vstd::prelude::*;
use vstd::arithmetic::div_mod::{lemma_div_is_ordered, lemma_div_multiples_vanish};
use crate::error::AudioError;
use crate::fixed::{floor_div, MAX_SAMPLES, MILLI, UNIT};

verus! {

/// The fewest samples from which a pitch is estimated.
pub const MIN_SAMPLES: usize = 512;

/// A lag is taken for the period only where the normalized difference is below this
/// (a tenth, in millionths).
pub const THRESHOLD: u64 = 100_000;

/// The largest squared difference of two samples.
pub const GAP_MAX: u64 = 4_294_836_225;

/// A bound on the difference function of a buffer of at most `MAX_SAMPLES` samples.
pub const DIFFERENCE_MAX: u64 = 18_446_181_123_756_261_375;

/// An estimate of the fundamental frequency.
///
/// `frequency` is in millihertz and `confidence` in millionths. Both are zero where
/// the buffer has no discernible pitch.
#[derive(Clone, Copy, Debug, PartialEq, Eq, Structural)]
pub struct PitchDetectionResult {
    pub frequency: u64,
    pub confidence: u32,
}

/// The squared difference of sample `j` and the sample `tau` after it.
pub open spec fn squared_gap(s: Seq<i16>, j: int, tau: int) -> int {
    (s[j] - s[j + tau]) * (s[j] - s[j + tau])
}

/// The sum of the squared differences at lag `tau` over the first `n` samples.
pub open spec fn difference_upto(s: Seq<i16>, tau: int, n: int) -> int
    decreases n,
{
    if n <= 0 {
        0
    } else {
        difference_upto(s, tau, n - 1) + squared_gap(s, n - 1, tau)
    }
}

/// The difference function: the squared differences at lag `tau`, summed over every
/// sample that has a partner.
pub open spec fn difference(s: Seq<i16>, tau: int) -> int {
    difference_upto(s, tau, s.len() - tau)
}

/// The sum of the difference function over the lags `1..=tau`.
pub open spec fn cumulative(s: Seq<i16>, tau: int) -> int
    decreases tau,
{
    if tau <= 0 {
        0
    } else {
        cumulative(s, tau - 1) + difference(s, tau)
    }
}

/// The cumulative mean normalized difference at lag `tau`, in millionths, rounded
/// down: the difference divided by the mean of the differences at the lags up to
/// `tau`. It is one at lag zero, and one where that mean is zero.
pub open spec fn cmnd(s: Seq<i16>, tau: int) -> int {
    if tau <= 0 || cumulative(s, tau) == 0 {
        UNIT as int
    } else {
        (difference(s, tau) * tau * UNIT) / cumulative(s, tau)
    }
}

/// The normalized differences at the lags below half the buffer's length.
pub open spec fn cmnd_seq(s: Seq<i16>) -> Seq<u64> {
    Seq::new((s.len() / 2) as nat, |t: int| cmnd(s, t) as u64)
}

/// Whether the normalized difference at `tau` is below the threshold and below its
/// right neighbour.
pub open spec fn is_dip(s: Seq<i16>, tau: int) -> bool {
    cmnd(s, tau) < THRESHOLD && cmnd(s, tau) < cmnd(s, tau + 1)
}

/// The first dip at or after `from` whose right neighbour is still below half the
/// buffer's length; zero where there is none.
pub open spec fn first_dip(s: Seq<i16>, from: int) -> int
    decreases s.len() - from,
{
    if from < 2 || from + 1 >= s.len() / 2 {
        0
    } else if is_dip(s, from) {
        from
    } else {
        first_dip(s, from + 1)
    }
}

/// The vertex of the parabola through `data` at `index` and its two neighbours, as
/// a position in millionths of an index, rounded down. At either end of `data`, and
/// where the three points lie on a line, it is `index` itself.
pub open spec fn refined_position(data: Seq<u64>, index: int) -> int {
    if index <= 0 || index + 1 >= data.len() {
        index * UNIT
    } else {
        let s0 = data[index - 1] as int;
        let s1 = data[index] as int;
        let s2 = data[index + 1] as int;
        let bend = s0 - 2 * s1 + s2;
        if bend > 0 {
            index * UNIT + (UNIT * (s0 - s2)) / (2 * bend)
        } else if bend < 0 {
            index * UNIT + (UNIT * (s2 - s0)) / (2 * (-bend))
        } else {
            index * UNIT
        }
    }
}

/// What the detector reports for the samples `s` taken at `rate` hertz.
pub open spec fn yin_estimate(s: Seq<i16>, rate: u32) -> PitchDetectionResult {
    let tau = first_dip(s, 2);
    if tau == 0 {
        PitchDetectionResult { frequency: 0, confidence: 0 }
    } else {
        PitchDetectionResult {
            frequency: ((rate * MILLI * UNIT) / refined_position(cmnd_seq(s), tau)) as u64,
            confidence: (UNIT - cmnd(s, tau)) as u32,
        }
    }
}

/// The difference function is a sum of bounded squares.
pub proof fn lemma_difference_bounds(s: Seq<i16>, tau: int, n: int)
    requires
        0 <= tau,
        0 <= n,
        n + tau <= s.len(),
    ensures
        0 <= difference_upto(s, tau, n) <= n * GAP_MAX,
    decreases n,
{
    if n > 0 {
        lemma_difference_bounds(s, tau, n - 1);
        let g = s[n - 1] - s[n - 1 + tau];
        assert(0 <= g * g <= GAP_MAX) by (nonlinear_arith)
            requires
                -65535 <= g <= 65535,
        ;
    }
}

/// The running sum of the difference function is bounded lag by lag.
pub proof fn lemma_cumulative_bounds(s: Seq<i16>, tau: int)
    requires
        tau <= s.len() <= MAX_SAMPLES,
    ensures
        0 <= cumulative(s, tau),
        tau >= 0 ==> cumulative(s, tau) <= tau * DIFFERENCE_MAX,
        tau > 0 ==> 0 <= difference(s, tau) <= cumulative(s, tau),
        tau > 0 ==> difference(s, tau) <= DIFFERENCE_MAX,
    decreases tau,
{
    if tau > 0 {
        lemma_cumulative_bounds(s, tau - 1);
        lemma_difference_bounds(s, tau, s.len() - tau);
    }
}

/// The normalized difference never exceeds the lag itself.
pub proof fn lemma_cmnd_bounds(s: Seq<i16>, tau: int)
    requires
        0 <= tau <= s.len() <= MAX_SAMPLES,
    ensures
        0 <= cmnd(s, tau),
        cmnd(s, tau) <= UNIT || cmnd(s, tau) <= tau * UNIT,
{
    if tau > 0 && cumulative(s, tau) != 0 {
        lemma_cumulative_bounds(s, tau);
        let d = difference(s, tau);
        let r = cumulative(s, tau);
        let k = tau * UNIT;
        assert(d * tau * UNIT == d * k) by (nonlinear_arith)
            requires
                k == tau * UNIT,
        ;
        assert(0 <= d * k <= r * k) by (nonlinear_arith)
            requires
                0 <= d <= r,
                0 <= k,
        ;
        lemma_div_is_ordered(0, d * k, r);
        lemma_div_is_ordered(d * k, r * k, r);
        lemma_div_multiples_vanish(k, r);
    }
}

/// The first dip is a dip, and no lag before it is one.
pub proof fn lemma_first_dip(s: Seq<i16>, from: int)
    requires
        2 <= from,
    ensures
        first_dip(s, from) == 0 ==> forall|u: int|
            from <= u && u + 1 < s.len() / 2 ==> !is_dip(s, u),
        first_dip(s, from) != 0 ==> {
            &&& from <= first_dip(s, from)
            &&& first_dip(s, from) + 1 < s.len() / 2
            &&& is_dip(s, first_dip(s, from))
            &&& forall|u: int| from <= u < first_dip(s, from) ==> !is_dip(s, u)
        },
    decreases s.len() - from,
{
    if from + 1 < s.len() / 2 && !is_dip(s, from) {
        lemma_first_dip(s, from + 1);
    }
}

/// At lag one the normalized difference is one.
pub proof fn lemma_cmnd_at_one(s: Seq<i16>)
    requires
        1 <= s.len() <= MAX_SAMPLES,
    ensures
        cmnd(s, 1) == UNIT,
{
    reveal_with_fuel(cumulative, 2);
    let d = difference(s, 1);
    assert(cumulative(s, 1) == d);
    if d != 0 {
        lemma_cumulative_bounds(s, 1);
        assert(d * 1 * UNIT == d * UNIT) by (nonlinear_arith);
        lemma_div_multiples_vanish(UNIT as int, d);
    }
}

/// The period that the detector picks is a local minimum of the normalized
/// difference: the value before it is no smaller, the value after it is larger.
pub proof fn lemma_dip_neighbours(s: Seq<i16>, tau: int)
    requires
        s.len() <= MAX_SAMPLES,
        tau == first_dip(s, 2),
        tau != 0,
    ensures
        2 <= tau,
        tau + 1 < s.len() / 2,
        cmnd(s, tau) < THRESHOLD,
        cmnd(s, tau - 1) >= cmnd(s, tau),
        cmnd(s, tau) < cmnd(s, tau + 1),
{
    lemma_first_dip(s, 2);
    if tau == 2 {
        lemma_cmnd_at_one(s);
    } else {
        assert(!is_dip(s, tau - 1));
    }
}

/// Around a local minimum the parabola's vertex lies within half an index of it.
pub proof fn lemma_refinement_bounds(data: Seq<u64>, index: int)
    requires
        0 < index,
        index + 1 < data.len(),
        data[index - 1] >= data[index],
        data[index] < data[index + 1],
    ensures
        index * UNIT - UNIT / 2 <= refined_position(data, index) <= index * UNIT + UNIT / 2,
{
    let s0 = data[index - 1] as int;
    let s1 = data[index] as int;
    let s2 = data[index + 1] as int;
    let bend = s0 - 2 * s1 + s2;
    let slope = UNIT * (s0 - s2);
    let d = 2 * bend;
    assert(-bend <= s0 - s2 <= bend);
    assert(d * (-500_000) <= slope <= d * 500_000) by (nonlinear_arith)
        requires
            -bend <= s0 - s2 <= bend,
            slope == UNIT * (s0 - s2),
            d == 2 * bend,
            UNIT == 1_000_000,
    ;
    lemma_div_is_ordered(slope, d * 500_000, d);
    lemma_div_is_ordered(d * (-500_000), slope, d);
    lemma_div_multiples_vanish(500_000, d);
    lemma_div_multiples_vanish(-500_000, d);
}

/// Where the detector finds a pitch, the confidence is above nine tenths and at
/// most one, the refined period lies within half a sample of the lag of the first
/// dip, and the frequency is the sample rate over that period, in millihertz.
pub proof fn lemma_estimate_in_range(s: Seq<i16>, rate: u32)
    requires
        s.len() <= MAX_SAMPLES,
        first_dip(s, 2) != 0,
    ensures
        UNIT - THRESHOLD < yin_estimate(s, rate).confidence <= UNIT,
        first_dip(s, 2) * UNIT - UNIT / 2 <= refined_position(cmnd_seq(s), first_dip(s, 2))
            <= first_dip(s, 2) * UNIT + UNIT / 2,
        yin_estimate(s, rate).frequency == (rate * MILLI * UNIT) / refined_position(
            cmnd_seq(s),
            first_dip(s, 2),
        ),
{
    let tau = first_dip(s, 2);
    lemma_dip_neighbours(s, tau);
    lemma_cmnd_bounds(s, tau - 1);
    lemma_cmnd_bounds(s, tau);
    lemma_cmnd_bounds(s, tau + 1);
    assert((tau + 1) * UNIT <= 0x8000_0000 * 1_000_000) by (nonlinear_arith)
        requires
            0 <= tau + 1 <= 0x8000_0000,
            UNIT == 1_000_000,
    ;
    assert((tau - 1) * UNIT <= (tau + 1) * UNIT && tau * UNIT <= (tau + 1) * UNIT && tau * UNIT
        >= 2_000_000) by (nonlinear_arith)
        requires
            tau >= 2,
            UNIT == 1_000_000,
    ;
    let data = cmnd_seq(s);
    assert(data[tau - 1] == cmnd(s, tau - 1));
    assert(data[tau] == cmnd(s, tau));
    assert(data[tau + 1] == cmnd(s, tau + 1));
    lemma_refinement_bounds(data, tau);
    let period = refined_position(data, tau);
    let scaled = rate * MILLI * UNIT;
    assert(0 <= scaled <= 0xFFFF_FFFF * 1_000 * 1_000_000) by (nonlinear_arith)
        requires
            scaled == rate * MILLI * UNIT,
            0 <= rate <= 0xFFFF_FFFF,
            MILLI == 1_000,
            UNIT == 1_000_000,
    ;
    vstd::arithmetic::div_mod::lemma_div_nonincreasing(scaled, period);
    vstd::arithmetic::div_mod::lemma_div_pos_is_pos(scaled, period);
}

/// Whether every sample of `s` has the same value.
pub open spec fn is_flat(s: Seq<i16>) -> bool {
    forall|i: int, j: int| 0 <= i < s.len() && 0 <= j < s.len() ==> s[i] == s[j]
}

/// In a flat buffer no sample differs from a later one.
pub proof fn lemma_flat_difference(s: Seq<i16>, tau: int, n: int)
    requires
        is_flat(s),
        0 <= tau,
        n + tau <= s.len(),
    ensures
        difference_upto(s, tau, n) == 0,
    decreases n,
{
    if n > 0 {
        lemma_flat_difference(s, tau, n - 1);
        assert(s[n - 1] == s[n - 1 + tau]);
        assert(squared_gap(s, n - 1, tau) == 0) by (nonlinear_arith)
            requires
                s[n - 1] - s[n - 1 + tau] == 0,
                squared_gap(s, n - 1, tau) == (s[n - 1] - s[n - 1 + tau]) * (s[n - 1] - s[n - 1
                    + tau]),
        ;
    }
}

/// In a flat buffer the difference function never leaves zero.
pub proof fn lemma_flat_cumulative(s: Seq<i16>, tau: int)
    requires
        is_flat(s),
    ensures
        cumulative(s, tau) == 0,
    decreases tau,
{
    if tau > 0 {
        lemma_flat_cumulative(s, tau - 1);
        lemma_flat_difference(s, tau, s.len() - tau);
    }
}

/// A buffer without variation has no pitch: whatever its length and the sample
/// rate, the estimate is frequency zero with confidence zero.
pub proof fn lemma_flat_buffer_has_no_pitch(s: Seq<i16>, rate: u32)
    requires
        is_flat(s),
    ensures
        yin_estimate(s, rate) == (PitchDetectionResult { frequency: 0, confidence: 0 }),
{
    lemma_first_dip(s, 2);
    let tau = first_dip(s, 2);
    if tau != 0 {
        lemma_flat_cumulative(s, tau);
        assert(!is_dip(s, tau));
    }
}

/// Silence has no pitch: a buffer of zeros, whatever its length and the sample
/// rate, gives frequency zero with confidence zero.
pub proof fn lemma_silence_has_no_pitch(s: Seq<i16>, rate: u32)
    requires
        forall|i: int| 0 <= i < s.len() ==> s[i] == 0,
    ensures
        yin_estimate(s, rate) == (PitchDetectionResult { frequency: 0, confidence: 0 }),
{
    lemma_flat_buffer_has_no_pitch(s, rate);
}

/// The bin in `1..hi` with the largest magnitude, the first of them where several
/// share it; zero where every magnitude there is zero.
pub open spec fn peak_bin(m: Seq<u64>, hi: int) -> int
    decreases hi,
{
    if hi <= 1 {
        0
    } else {
        let p = peak_bin(m, hi - 1);
        if m[hi - 1] > peak_of(m, p) {
            hi - 1
        } else {
            p
        }
    }
}

/// The magnitude at the peak bin `k`, where bin zero stands for no peak.
pub open spec fn peak_of(m: Seq<u64>, k: int) -> u64 {
    if k == 0 {
        0
    } else {
        m[k]
    }
}

/// The peak bin holds the largest magnitude of the bins `1..hi`, and is the first
/// to hold it.
pub proof fn lemma_peak_bin_is_first_maximum(m: Seq<u64>, hi: int)
    ensures
        peak_bin(m, hi) == 0 ==> forall|j: int| 1 <= j < hi ==> #[trigger] m[j] == 0,
        peak_bin(m, hi) != 0 ==> {
            &&& 1 <= peak_bin(m, hi) < hi
            &&& m[peak_bin(m, hi)] > 0
            &&& forall|j: int| 1 <= j < hi ==> #[trigger] m[j] <= m[peak_bin(m, hi)]
            &&& forall|j: int| 1 <= j < peak_bin(m, hi) ==> #[trigger] m[j] < m[peak_bin(m, hi)]
        },
    decreases hi,
{
    if hi > 1 {
        lemma_peak_bin_is_first_maximum(m, hi - 1);
    }
}

/// What the spectral strategy reports for the magnitude spectrum `m`, in
/// millionths, of a buffer of `m.len()` samples taken at `rate` hertz: the
/// frequency of the peak bin, with the peak's magnitude per sample, capped at one,
/// as the confidence.
pub open spec fn spectral_estimate(m: Seq<u64>, rate: u32) -> PitchDetectionResult {
    let k = peak_bin(m, (m.len() / 2) as int);
    let level = peak_of(m, k) / (m.len() as u64);
    PitchDetectionResult {
        frequency: ((k * rate * MILLI) / (m.len() as int)) as u64,
        confidence: (if level > UNIT { UNIT } else { level }) as u32,
    }
}

/// A detector of the fundamental frequency for buffers sampled at one rate.
pub struct PitchDetector {
    sample_rate: u32,
}

impl PitchDetector {
    /// The sample rate of the buffers, in hertz.
    pub closed spec fn rate(self) -> u32 {
        self.sample_rate
    }

    /// A detector for buffers sampled at `sample_rate` hertz.
    pub fn new(sample_rate: u32) -> (d: Self)
        ensures
            d.rate() == sample_rate,
    {
        PitchDetector { sample_rate }
    }

    /// The sample rate of the buffers, in hertz.
    pub fn sample_rate(&self) -> (r: u32)
        ensures
            r == self.rate(),
    {
        self.sample_rate
    }

    /// Refines `index`, the place of a minimum of `data`, to the vertex of the
    /// parabola through the point and its two neighbours, in millionths of an index.
    pub fn parabolic_interpolation(&self, data: &[u64], index: usize) -> (r: i128)
        ensures
            r == refined_position(data@, index as int),
    {
        let here: i128 = 1_000_000 * (index as i128);
        assert(here == index * UNIT) by (nonlinear_arith)
            requires
                here == 1_000_000 * index,
                UNIT == 1_000_000,
        ;
        if index == 0 || data.len() < 2 || index >= data.len() - 1 {
            return here;
        }
        let s0: i128 = data[index - 1] as i128;
        let s1: i128 = data[index] as i128;
        let s2: i128 = data[index + 1] as i128;
        let bend: i128 = s0 - 2 * s1 + s2;
        let slope: i128 = 1_000_000 * (s0 - s2);
        assert(slope == UNIT * (s0 - s2) && -slope == UNIT * (s2 - s0)) by (nonlinear_arith)
            requires
                slope == 1_000_000 * (s0 - s2),
                UNIT == 1_000_000,
        ;
        if bend > 0 {
            here + floor_div(slope, 2 * bend)
        } else if bend < 0 {
            here + floor_div(-slope, 2 * (-bend))
        } else {
            here
        }
    }

    /// Estimates the pitch of `buffer` of whatever length: the first lag at which the
    /// normalized difference dips below the threshold is the period, refined by a
    /// parabola; the frequency is the sample rate divided by it.
    pub fn yin_algorithm(&self, buffer: &[i16]) -> (r: PitchDetectionResult)
        requires
            buffer.len() <= MAX_SAMPLES,
        ensures
            r == yin_estimate(buffer@, self.rate()),
    {
        let ghost s = buffer@;
        let half = buffer.len() / 2;
        let cm = normalized_differences(buffer);
        let mut tau: usize = 2;
        let mut found: usize = 0;
        while found == 0 && tau + 1 < half
            invariant
                2 <= tau,
                tau == 2 || tau < half,
                s == buffer@,
                half == s.len() / 2,
                s.len() <= MAX_SAMPLES,
                cm@.len() == half,
                forall|t: int| 0 <= t < half ==> cm@[t] == cmnd(s, t),
                found == 0 ==> first_dip(s, 2) == first_dip(s, tau as int),
                found != 0 ==> found == first_dip(s, 2),
            decreases
                (if found == 0 { half - tau } else { 0 }),
        {
            if cm[tau] < THRESHOLD && cm[tau] < cm[tau + 1] {
                found = tau;
            } else {
                tau = tau + 1;
            }
        }
        if found == 0 {
            return PitchDetectionResult { frequency: 0, confidence: 0 };
        }
        proof {
            lemma_dip_neighbours(s, found as int);
            lemma_refinement_bounds(cm@, found as int);
            assert(cm@ =~= cmnd_seq(s));
        }
        let period = self.parabolic_interpolation(cm.as_slice(), found);
        assert(period >= 1_500_000) by (nonlinear_arith)
            requires
                period >= found * UNIT - UNIT / 2,
                found >= 2,
                UNIT == 1_000_000,
        ;
        let scaled: u128 = ((self.sample_rate as u128) * 1_000) * 1_000_000;
        assert(scaled == self.sample_rate * MILLI * UNIT) by (nonlinear_arith)
            requires
                scaled == (self.sample_rate * 1_000) * 1_000_000,
                MILLI == 1_000,
                UNIT == 1_000_000,
        ;
        proof {
            vstd::arithmetic::div_mod::lemma_div_nonincreasing(scaled as int, period as int);
            vstd::arithmetic::div_mod::lemma_div_pos_is_pos(scaled as int, period as int);
        }
        let frequency = (scaled / (period as u128)) as u64;
        let confidence = (UNIT - cm[found]) as u32;
        PitchDetectionResult { frequency, confidence }
    }

    /// Detects the pitch of `buffer` by the YIN method.
    ///
    /// A buffer of fewer than `MIN_SAMPLES` samples is refused. A buffer without a
    /// discernible pitch gives frequency and confidence zero, which is no error.
    pub fn detect(&self, buffer: &[i16]) -> (r: Result<PitchDetectionResult, AudioError>)
        requires
            buffer.len() <= MAX_SAMPLES,
        ensures
            buffer.len() < MIN_SAMPLES ==> r == Err::<PitchDetectionResult, AudioError>(
                AudioError::InsufficientSamples,
            ),
            buffer.len() >= MIN_SAMPLES ==> r == Ok::<PitchDetectionResult, AudioError>(
                yin_estimate(buffer@, self.rate()),
            ),
    {
        if buffer.len() < MIN_SAMPLES {
            return Err(AudioError::InsufficientSamples);
        }
        Ok(self.yin_algorithm(buffer))
    }

    /// Detects the pitch from the spectrum of a buffer: the alternative to `detect`.
    ///
    /// `spectrum` holds the magnitude, in millionths, of each bin of the forward
    /// transform of the buffer, one bin per sample. The bins from one to below half
    /// the length are searched for the largest magnitude. A spectrum of fewer than
    /// `MIN_SAMPLES` bins is refused, as `detect` refuses the buffer.
    pub fn fft_detect(&self, spectrum: &[u64]) -> (r: Result<PitchDetectionResult, AudioError>)
        requires
            spectrum.len() <= MAX_SAMPLES,
        ensures
            spectrum.len() < MIN_SAMPLES ==> r == Err::<PitchDetectionResult, AudioError>(
                AudioError::InsufficientSamples,
            ),
            spectrum.len() >= MIN_SAMPLES ==> r == Ok::<PitchDetectionResult, AudioError>(
                spectral_estimate(spectrum@, self.rate()),
            ),
    {
        let n = spectrum.len();
        if n < MIN_SAMPLES {
            return Err(AudioError::InsufficientSamples);
        }
        let half = n / 2;
        let mut peak: usize = 0;
        let mut top: u64 = 0;
        let mut i: usize = 1;
        while i < half
            invariant
                1 <= i <= half,
                half == n / 2,
                n == spectrum.len(),
                peak == peak_bin(spectrum@, i as int),
                top == peak_of(spectrum@, peak as int),
                peak < i,
            decreases half - i,
        {
            if spectrum[i] > top {
                top = spectrum[i];
                peak = i;
            }
            i = i + 1;
        }
        assert(peak * self.sample_rate <= 0x7FFF_FFFF * 0xFFFF_FFFF) by (nonlinear_arith)
            requires
                0 <= peak <= 0x7FFF_FFFF,
                0 <= self.sample_rate <= 0xFFFF_FFFF,
        ;
        let scaled: u128 = ((peak as u128) * (self.sample_rate as u128)) * 1_000;
        assert(scaled == peak * self.sample_rate * MILLI) by (nonlinear_arith)
            requires
                scaled == (peak * self.sample_rate) * 1_000,
                MILLI == 1_000,
        ;
        proof {
            vstd::arithmetic::div_mod::lemma_div_nonincreasing(scaled as int, n as int);
            vstd::arithmetic::div_mod::lemma_div_pos_is_pos(scaled as int, n as int);
        }
        let frequency = (scaled / (n as u128)) as u64;
        let level: u64 = top / (n as u64);
        let confidence = if level > UNIT { UNIT as u32 } else { level as u32 };
        Ok(PitchDetectionResult { frequency, confidence })
    }
}

/// The normalized differences of `buffer` at every lag below half its length.
pub fn normalized_differences(buffer: &[i16]) -> (cm: Vec<u64>)
    requires
        buffer.len() <= MAX_SAMPLES,
    ensures
        cm@ == cmnd_seq(buffer@),
        cm@.len() == buffer@.len() / 2,
        forall|t: int| 0 <= t < cm@.len() ==> cm@[t] == cmnd(buffer@, t),
{
    let ghost s = buffer@;
    let half = buffer.len() / 2;
    let mut cm: Vec<u64> = Vec::new();
    let mut running: u128 = 0;
    let mut tau: usize = 0;
    while tau < half
        invariant
            tau <= half,
            s == buffer@,
            half == s.len() / 2,
            s.len() <= MAX_SAMPLES,
            cm@.len() == tau,
            forall|t: int| 0 <= t < tau ==> cm@[t] == cmnd(s, t),
            running == cumulative(s, tau - 1),
        decreases half - tau,
    {
        if tau == 0 {
            cm.push(UNIT);
        } else {
            let d = difference_at(buffer, tau);
            proof {
                lemma_cumulative_bounds(s, tau as int);
                lemma_cmnd_bounds(s, tau as int);
            }
            assert(tau * DIFFERENCE_MAX <= 0x7FFF_FFFF * DIFFERENCE_MAX) by (nonlinear_arith)
                requires
                    0 <= tau <= 0x7FFF_FFFF,
            ;
            running = running + d as u128;
            if running == 0 {
                cm.push(UNIT);
            } else {
                assert(d * tau <= DIFFERENCE_MAX * 0x7FFF_FFFF) by (nonlinear_arith)
                    requires
                        0 <= d <= DIFFERENCE_MAX,
                        0 <= tau <= 0x7FFF_FFFF,
                ;
                let scaled: u128 = ((d as u128) * (tau as u128)) * 1_000_000;
                assert(scaled == d * tau * UNIT) by (nonlinear_arith)
                    requires
                        scaled == (d * tau) * 1_000_000,
                        UNIT == 1_000_000,
                ;
                assert(tau * UNIT <= 0x7FFF_FFFF * 1_000_000) by (nonlinear_arith)
                    requires
                        0 <= tau <= 0x7FFF_FFFF,
                        UNIT == 1_000_000,
                ;
                cm.push((scaled / running) as u64);
            }
        }
        tau = tau + 1;
    }
    assert(cm@ =~= cmnd_seq(s));
    cm
}

/// The difference function of `buffer` at lag `tau`.
pub fn difference_at(buffer: &[i16], tau: usize) -> (d: u64)
    requires
        tau <= buffer.len() <= MAX_SAMPLES,
    ensures
        d == difference(buffer@, tau as int),
{
    let n = buffer.len();
    let m = n - tau;
    let mut sum: u64 = 0;
    let mut j: usize = 0;
    while j < m
        invariant
            j <= m,
            m == n - tau,
            n == buffer.len(),
            n <= MAX_SAMPLES,
            sum == difference_upto(buffer@, tau as int, j as int),
            sum <= j * GAP_MAX,
        decreases m - j,
    {
        let gap: i64 = buffer[j] as i64 - buffer[j + tau] as i64;
        assert(0 <= gap * gap <= GAP_MAX) by (nonlinear_arith)
            requires
                -65535 <= gap <= 65535,
        ;
        let square: u64 = (gap * gap) as u64;
        sum = sum + square;
        j = j + 1;
    }
    sum
}

} // verus!
