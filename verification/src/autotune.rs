//! Pitch correction: a coarse pitch estimate, a resampling ratio, a resampler.
//!
//! The resampler is a plain linear interpolation in the time domain, without an
//! anti-aliasing filter and without care for formants.

use vstd::prelude::*;
use vstd::slice::slice_to_vec;
use crate::config::AudioConfig;
use crate::error::AudioError;
use crate::fixed::{floor_div, normalized, normalized_ratio, MAX_SAMPLES, MILLI, UNIT};

verus! {

/// The least normalized correlation, in millionths, at which a lag counts as the period.
pub const HALF: i32 = 500_000;

/// A resampling ratio closer to one than this, in millionths, leaves the buffer as it is.
pub const TOLERANCE: u64 = 1_000;

/// The largest product of two samples.
pub const PRODUCT_MAX: u64 = 0x4000_0000;

/// The sum over `i < n` of sample `a + i` times sample `b + i`.
pub open spec fn inner_product(s: Seq<i16>, a: int, b: int, n: int) -> int
    decreases n,
{
    if n <= 0 {
        0
    } else {
        inner_product(s, a, b, n - 1) + s[a + n - 1] * s[b + n - 1]
    }
}

/// The normalized autocorrelation of `s` at `lag`, in millionths: the inner product
/// of the buffer with itself shifted by `lag`, over the square root of the product
/// of the energies of the two stretches; zero where either stretch has no energy.
pub open spec fn correlation(s: Seq<i16>, lag: int) -> int {
    let n = s.len() - lag;
    normalized(inner_product(s, 0, lag, n), inner_product(s, 0, 0, n), inner_product(s, lag, lag, n))
}

/// `c` where it is positive, else zero.
pub open spec fn positive_part(c: int) -> int {
    if c > 0 {
        c
    } else {
        0
    }
}

/// The lag in `lo..hi` with the largest positive correlation, the first of them
/// where several share it; `lo` where no lag there has a positive correlation.
pub open spec fn best_lag(s: Seq<i16>, lo: int, hi: int) -> int
    decreases hi - lo,
{
    if hi <= lo + 1 {
        lo
    } else {
        let b = best_lag(s, lo, hi - 1);
        if correlation(s, hi - 1) > positive_part(correlation(s, b)) {
            hi - 1
        } else {
            b
        }
    }
}

/// The shortest period searched: that of 1000 Hz.
pub open spec fn shortest_period(rate: u32) -> int {
    rate as int / 1000
}

/// The end of the periods searched: that of 50 Hz, or half the buffer if that is less.
pub open spec fn period_limit(s: Seq<i16>, rate: u32) -> int {
    if rate as int / 50 < s.len() / 2 {
        rate as int / 50
    } else {
        s.len() as int / 2
    }
}

/// The period of `s` in samples by the coarse search, where its correlation
/// reaches one half; `None` where no lag searched reaches it.
pub open spec fn coarse_period(s: Seq<i16>, rate: u32) -> Option<int> {
    let lo = shortest_period(rate);
    let hi = period_limit(s, rate);
    if lo < hi && correlation(s, best_lag(s, lo, hi)) >= HALF {
        Some(best_lag(s, lo, hi))
    } else {
        None
    }
}

/// The pitch in millihertz that belongs to a period: zero for none, the sample
/// rate over the period otherwise, and the largest number for the period zero.
pub open spec fn pitch_of(period: Option<int>, rate: u32) -> int {
    match period {
        None => 0,
        Some(lag) => if lag <= 0 {
            u64::MAX as int
        } else {
            (rate * MILLI) / lag
        },
    }
}

/// The resampling ratio in millionths, rounded down: one plus `strength` of the
/// way from one to the ratio of `target` (in millihertz) to the pitch with period
/// `lag` at `rate` hertz.
pub open spec fn shift_ratio(rate: u32, lag: int, target: u64, strength: int) -> int {
    UNIT + ((target * lag - rate * MILLI) * strength) / (rate * MILLI)
}

/// Sample `i` of `s` resampled by `ratio` millionths: the linear interpolation of
/// `s` at position `i * ratio`, rounded down; the last sample where the position
/// falls on it, and silence beyond it.
pub open spec fn resampled_at(s: Seq<i16>, ratio: int, i: int) -> int {
    let position = i * ratio;
    let index = position / (UNIT as int);
    let part = position % (UNIT as int);
    if index + 1 < s.len() {
        (s[index] * (UNIT - part) + s[index + 1] * part) / (UNIT as int)
    } else if index < s.len() {
        s[index] as int
    } else {
        0
    }
}

/// `s` resampled by `ratio` millionths, at its own length; `s` itself where the
/// ratio is within the tolerance of one.
pub open spec fn resampled(s: Seq<i16>, ratio: int) -> Seq<i16> {
    if UNIT - TOLERANCE < ratio < UNIT + TOLERANCE {
        s
    } else {
        Seq::new(s.len(), |i: int| resampled_at(s, ratio, i) as i16)
    }
}

/// What correction makes of `s`: `s` itself where the coarse search finds no
/// pitch, else `s` resampled by the ratio that `target` and `strength` give.
pub open spec fn corrected(s: Seq<i16>, rate: u32, target: u64, strength: int) -> Seq<i16> {
    match coarse_period(s, rate) {
        None => s,
        Some(lag) => resampled(s, shift_ratio(rate, lag, target, strength)),
    }
}

/// An inner product of `n` pairs is bounded by `n` times the largest product.
pub proof fn lemma_inner_product_bounds(s: Seq<i16>, a: int, b: int, n: int)
    requires
        0 <= a,
        0 <= b,
        0 <= n,
        a + n <= s.len(),
        b + n <= s.len(),
    ensures
        -n * PRODUCT_MAX <= inner_product(s, a, b, n) <= n * PRODUCT_MAX,
        a == b ==> 0 <= inner_product(s, a, b, n),
    decreases n,
{
    if n > 0 {
        lemma_inner_product_bounds(s, a, b, n - 1);
        let x = s[a + n - 1] as int;
        let y = s[b + n - 1] as int;
        assert(-PRODUCT_MAX <= x * y <= PRODUCT_MAX) by (nonlinear_arith)
            requires
                -32768 <= x <= 32767,
                -32768 <= y <= 32767,
                PRODUCT_MAX == 0x4000_0000,
        ;
        if a == b {
            assert(0 <= x * x) by (nonlinear_arith);
        }
    }
}

/// The first sample stays in place under every ratio, and a ratio at or beyond the
/// buffer's length puts silence everywhere else.
pub proof fn lemma_resample_beyond_end(s: Seq<i16>, ratio: int)
    requires
        ratio >= s.len() * UNIT,
        ratio >= UNIT + TOLERANCE,
    ensures
        resampled(s, ratio) == Seq::new(s.len(), |i: int| if i == 0 { s[0] } else { 0i16 }),
{
    let flat = Seq::new(s.len(), |i: int| if i == 0 { s[0] } else { 0i16 });
    assert forall|i: int| 0 <= i < s.len() implies resampled(s, ratio)[i] == flat[i] by {
        if i == 0 {
            assert(i * ratio == 0) by (nonlinear_arith)
                requires
                    i == 0,
            ;
            if 1 < s.len() {
                assert(s[0] * (UNIT - 0) + s[1] * 0 == s[0] * 1_000_000) by (nonlinear_arith)
                    requires
                        UNIT == 1_000_000,
                ;
            }
        } else {
            assert(i * ratio >= s.len() * 1_000_000) by (nonlinear_arith)
                requires
                    i >= 1,
                    ratio >= s.len() * UNIT,
                    UNIT == 1_000_000,
            ;
        }
    }
    assert(resampled(s, ratio) =~= flat);
}

/// The first sample stays in place, and the length stays, under every ratio.
pub proof fn lemma_first_sample_stays(s: Seq<i16>, ratio: int)
    requires
        s.len() > 0,
    ensures
        resampled(s, ratio).len() == s.len(),
        resampled(s, ratio)[0] == s[0],
{
    assert(0 * ratio == 0) by (nonlinear_arith);
    if 1 < s.len() {
        assert(s[0] * (UNIT - 0) + s[1] * 0 == s[0] * 1_000_000) by (nonlinear_arith)
            requires
                UNIT == 1_000_000,
        ;
    }
}

/// Resampling by the ratio two keeps the length and takes every second sample:
/// output sample `i` is input sample `2 * i`, and silence once that is past the
/// end. In particular the first sample stays in place.
pub proof fn lemma_doubling(s: Seq<i16>)
    ensures
        resampled(s, 2 * UNIT).len() == s.len(),
        s.len() > 0 ==> resampled(s, 2 * UNIT)[0] == s[0],
        forall|i: int|
            0 <= i < s.len() ==> #[trigger] resampled(s, 2 * UNIT)[i] == (if 2 * i < s.len() {
                s[2 * i]
            } else {
                0i16
            }),
{
    assert forall|i: int| 0 <= i < s.len() implies #[trigger] resampled(s, 2 * UNIT)[i] == (if 2
        * i < s.len() {
        s[2 * i]
    } else {
        0i16
    }) by {
        assert(i * (2 * UNIT) == (2 * i) * 1_000_000) by (nonlinear_arith)
            requires
                UNIT == 1_000_000,
        ;
        if 2 * i + 1 < s.len() {
            assert(s[2 * i] * (UNIT - 0) + s[2 * i + 1] * 0 == s[2 * i] * 1_000_000)
                by (nonlinear_arith)
                requires
                    UNIT == 1_000_000,
            ;
        }
    }
}

/// The best lag lies in the range that was searched.
pub proof fn lemma_best_lag_in_range(s: Seq<i16>, lo: int, hi: int)
    requires
        lo < hi,
    ensures
        lo <= best_lag(s, lo, hi) < hi,
    decreases hi - lo,
{
    if hi > lo + 1 {
        lemma_best_lag_in_range(s, lo, hi - 1);
    }
}

/// The best lag has the largest correlation of the range, where any is positive,
/// and no lag before it reaches that correlation.
pub proof fn lemma_best_lag_is_first_maximum(s: Seq<i16>, lo: int, hi: int)
    requires
        lo < hi,
    ensures
        forall|l: int|
            lo <= l < hi ==> #[trigger] correlation(s, l) <= positive_part(
                correlation(s, best_lag(s, lo, hi)),
            ),
        forall|l: int|
            lo <= l < best_lag(s, lo, hi) ==> #[trigger] correlation(s, l) < correlation(
                s,
                best_lag(s, lo, hi),
            ),
    decreases hi - lo,
{
    if hi > lo + 1 {
        lemma_best_lag_is_first_maximum(s, lo, hi - 1);
        lemma_best_lag_in_range(s, lo, hi - 1);
    }
}

/// With strength zero, correction returns the buffer as it is, whatever the target.
pub proof fn lemma_zero_strength_is_identity(s: Seq<i16>, rate: u32, target: u64)
    ensures
        corrected(s, rate, target, 0) == s,
{
    match coarse_period(s, rate) {
        None => {},
        Some(lag) => {
            assert((target * lag - rate * MILLI) * 0 == 0) by (nonlinear_arith);
            assert(rate * MILLI > 0) by (nonlinear_arith)
                requires
                    rate >= 50,
                    MILLI == 1_000,
            ;
        },
    }
}

/// With the target at the pitch that the coarse search itself finds, correction
/// returns the buffer as it is, at every strength from zero to one. The period zero,
/// which has no finite pitch, is left out.
pub proof fn lemma_on_target_is_identity(s: Seq<i16>, rate: u32, strength: int)
    requires
        0 <= strength <= UNIT,
        coarse_period(s, rate) is Some,
        coarse_period(s, rate) != Some(0int),
    ensures
        corrected(s, rate, pitch_of(coarse_period(s, rate), rate) as u64, strength) == s,
{
    let lag = coarse_period(s, rate).unwrap();
    let base = rate * MILLI;
    let target = pitch_of(coarse_period(s, rate), rate);
    lemma_best_lag_in_range(s, shortest_period(rate), period_limit(s, rate));
    assert(base == rate * 1_000 && base > 0) by (nonlinear_arith)
        requires
            base == rate * MILLI,
            MILLI == 1_000,
            rate >= 50,
    ;
    assert(target == base / lag);
    vstd::arithmetic::div_mod::lemma_fundamental_div_mod(base, lag);
    vstd::arithmetic::div_mod::lemma_div_nonincreasing(base, lag);
    vstd::arithmetic::div_mod::lemma_div_pos_is_pos(base, lag);
    let rest = base % lag;
    assert(0 <= rest < lag);
    let gap = target * lag - base;
    assert(gap == -rest) by (nonlinear_arith)
        requires
            base == lag * target + rest,
            gap == target * lag - base,
    ;
    let scaled = gap * strength;
    assert(50 * lag <= rate);
    assert(-lag * 1_000_000 <= scaled <= 0) by (nonlinear_arith)
        requires
            scaled == gap * strength,
            -lag < gap <= 0,
            0 <= strength <= 1_000_000,
    ;
    assert(base * (-20) <= scaled);
    vstd::arithmetic::div_mod::lemma_div_is_ordered(base * (-20), scaled, base);
    vstd::arithmetic::div_mod::lemma_div_is_ordered(scaled, 0, base);
    vstd::arithmetic::div_mod::lemma_div_multiples_vanish(-20, base);
    assert(target as u64 == target);
}

/// Scaling every sample by `k` scales every inner product by `k * k`.
pub proof fn lemma_inner_product_scales(a: Seq<i16>, b: Seq<i16>, k: int, x: int, y: int, n: int)
    requires
        a.len() == b.len(),
        forall|i: int| 0 <= i < a.len() ==> b[i] == k * a[i],
        0 <= x,
        0 <= y,
        x + n <= a.len(),
        y + n <= a.len(),
    ensures
        inner_product(b, x, y, n) == (k * k) * inner_product(a, x, y, n),
    decreases n,
{
    if n > 0 {
        lemma_inner_product_scales(a, b, k, x, y, n - 1);
        let u = a[x + n - 1] as int;
        let v = a[y + n - 1] as int;
        let rest = inner_product(a, x, y, n - 1);
        assert((k * k) * rest + (k * u) * (k * v) == (k * k) * (rest + u * v)) by (nonlinear_arith);
    } else {
        assert((k * k) * 0 == 0) by (nonlinear_arith);
    }
}

/// Scaling every sample by a nonzero `k` leaves every normalized correlation as it is.
pub proof fn lemma_correlation_scales(a: Seq<i16>, b: Seq<i16>, k: int, lag: int)
    requires
        a.len() == b.len(),
        k != 0,
        forall|i: int| 0 <= i < a.len() ==> b[i] == k * a[i],
        0 <= lag <= a.len(),
    ensures
        correlation(b, lag) == correlation(a, lag),
{
    let n = a.len() - lag;
    lemma_inner_product_scales(a, b, k, 0, lag, n);
    lemma_inner_product_scales(a, b, k, 0, 0, n);
    lemma_inner_product_scales(a, b, k, lag, lag, n);
    lemma_inner_product_bounds(a, 0, 0, n);
    lemma_inner_product_bounds(a, lag, lag, n);
    assert(k * k > 0) by (nonlinear_arith)
        requires
            k != 0,
    ;
    crate::fixed::lemma_normalized_scales(
        inner_product(a, 0, lag, n),
        inner_product(a, 0, 0, n),
        inner_product(a, lag, lag, n),
        k * k,
    );
}

/// Scaling every sample by a nonzero `k` leaves the best lag of every range as it is.
pub proof fn lemma_best_lag_scales(a: Seq<i16>, b: Seq<i16>, k: int, lo: int, hi: int)
    requires
        a.len() == b.len(),
        k != 0,
        forall|i: int| 0 <= i < a.len() ==> b[i] == k * a[i],
        0 <= lo < hi <= a.len(),
    ensures
        best_lag(b, lo, hi) == best_lag(a, lo, hi),
    decreases hi - lo,
{
    if hi > lo + 1 {
        lemma_best_lag_scales(a, b, k, lo, hi - 1);
        lemma_best_lag_in_range(a, lo, hi - 1);
        lemma_correlation_scales(a, b, k, hi - 1);
        lemma_correlation_scales(a, b, k, best_lag(a, lo, hi - 1));
    }
}

/// Scale invariance: multiplying every sample by a nonzero constant changes neither
/// the period that the coarse search picks nor whether it finds one.
pub proof fn lemma_scale_invariance(a: Seq<i16>, b: Seq<i16>, k: int, rate: u32)
    requires
        a.len() == b.len(),
        k != 0,
        forall|i: int| 0 <= i < a.len() ==> b[i] == k * a[i],
    ensures
        coarse_period(b, rate) == coarse_period(a, rate),
{
    let lo = shortest_period(rate);
    let hi = period_limit(a, rate);
    if lo < hi {
        lemma_best_lag_scales(a, b, k, lo, hi);
        lemma_best_lag_in_range(a, lo, hi);
        lemma_correlation_scales(a, b, k, best_lag(a, lo, hi));
    }
}

/// The engine that corrects the pitch of buffers in one audio format.
pub struct AutotuneEngine {
    config: AudioConfig,
    overlap_factor: u32,
}

impl AutotuneEngine {
    /// The audio format of the buffers.
    pub closed spec fn format(self) -> AudioConfig {
        self.config
    }

    /// The overlap between analysis windows, in millionths.
    pub closed spec fn overlap(self) -> u32 {
        self.overlap_factor
    }

    /// An engine for buffers in the format `config`, with three quarters overlap.
    pub fn new(config: AudioConfig) -> (e: Self)
        ensures
            e.format() == config,
            e.overlap() == 750_000,
    {
        AutotuneEngine { config, overlap_factor: 750_000 }
    }

    /// The audio format of the buffers.
    pub fn config(&self) -> (c: AudioConfig)
        ensures
            c == self.format(),
    {
        self.config
    }

    /// The overlap between analysis windows, in millionths.
    pub fn overlap_factor(&self) -> (f: u32)
        ensures
            f == self.overlap(),
    {
        self.overlap_factor
    }

    /// The normalized autocorrelation of `buffer` at `lag`, in millionths.
    pub fn autocorrelation(&self, buffer: &[i16], lag: usize) -> (r: i32)
        requires
            lag <= buffer.len() <= MAX_SAMPLES,
        ensures
            r == correlation(buffer@, lag as int),
            -UNIT <= r <= UNIT,
    {
        let ghost s = buffer@;
        let n = buffer.len() - lag;
        let mut cross: i64 = 0;
        let mut head: u64 = 0;
        let mut tail: u64 = 0;
        let mut i: usize = 0;
        while i < n
            invariant
                i <= n,
                n == buffer.len() - lag,
                s == buffer@,
                s.len() <= MAX_SAMPLES,
                cross == inner_product(s, 0, lag as int, i as int),
                head == inner_product(s, 0, 0, i as int),
                tail == inner_product(s, lag as int, lag as int, i as int),
            decreases n - i,
        {
            let x: i64 = buffer[i] as i64;
            let y: i64 = buffer[i + lag] as i64;
            proof {
                lemma_inner_product_bounds(s, 0, lag as int, i as int);
                lemma_inner_product_bounds(s, 0, 0, i as int);
                lemma_inner_product_bounds(s, lag as int, lag as int, i as int);
                lemma_inner_product_bounds(s, 0, lag as int, i + 1);
                lemma_inner_product_bounds(s, 0, 0, i + 1);
                lemma_inner_product_bounds(s, lag as int, lag as int, i + 1);
            }
            assert(-PRODUCT_MAX <= x * y <= PRODUCT_MAX && 0 <= x * x <= PRODUCT_MAX && 0 <= y * y
                <= PRODUCT_MAX) by (nonlinear_arith)
                requires
                    -32768 <= x <= 32767,
                    -32768 <= y <= 32767,
                    PRODUCT_MAX == 0x4000_0000,
            ;
            cross = cross + x * y;
            head = head + (x * x) as u64;
            tail = tail + (y * y) as u64;
            i = i + 1;
        }
        normalized_ratio(cross, head, tail)
    }

    /// The period of `buffer` in samples by the coarse search: the lag between the
    /// periods of 1000 Hz and 50 Hz, and below half the buffer, at which the
    /// autocorrelation is largest, if it reaches one half there.
    pub fn estimate_period(&self, buffer: &[i16]) -> (r: Option<usize>)
        requires
            buffer.len() <= MAX_SAMPLES,
        ensures
            match r {
                Some(lag) => coarse_period(buffer@, self.format().sample_rate) == Some(lag as int),
                None => coarse_period(buffer@, self.format().sample_rate) is None,
            },
    {
        let ghost s = buffer@;
        let rate = self.config.sample_rate;
        let lo: usize = (rate / 1000) as usize;
        let by_rate: usize = (rate / 50) as usize;
        let by_length: usize = buffer.len() / 2;
        let hi: usize = if by_rate < by_length { by_rate } else { by_length };
        if lo >= hi {
            return None;
        }
        let mut best: usize = lo;
        let mut best_value: i32 = 0;
        let mut lag: usize = lo;
        while lag < hi
            invariant
                lo <= lag <= hi,
                hi <= s.len() / 2,
                s == buffer@,
                s.len() <= MAX_SAMPLES,
                lo <= best,
                best < hi,
                lag == lo ==> best == lo && best_value == 0,
                lag > lo ==> best == best_lag(s, lo as int, lag as int) && best_value
                    == positive_part(correlation(s, best as int)),
            decreases hi - lag,
        {
            let c = self.autocorrelation(buffer, lag);
            if c > best_value {
                best_value = c;
                best = lag;
            }
            lag = lag + 1;
        }
        if best_value < HALF {
            None
        } else {
            Some(best)
        }
    }

    /// The pitch of `buffer` in millihertz by the coarse search; zero where it finds none.
    pub fn estimate_pitch(&self, buffer: &[i16]) -> (r: u64)
        requires
            buffer.len() <= MAX_SAMPLES,
        ensures
            r == pitch_of(coarse_period(buffer@, self.format().sample_rate), self.format().sample_rate),
    {
        match self.estimate_period(buffer) {
            None => 0,
            Some(lag) => {
                if lag == 0 {
                    u64::MAX
                } else {
                    let scaled: u64 = (self.config.sample_rate as u64) * 1_000;
                    assert(scaled == self.config.sample_rate * MILLI) by (nonlinear_arith)
                        requires
                            scaled == self.config.sample_rate * 1_000,
                            MILLI == 1_000,
                    ;
                    scaled / (lag as u64)
                }
            },
        }
    }

    /// Resamples `buffer` in place by `ratio` millionths: output sample `i` is the
    /// input interpolated at position `i * ratio`. A ratio within the tolerance of
    /// one leaves the buffer as it is.
    pub fn pitch_shift(&self, buffer: &mut Vec<i16>, ratio: u64)
        ensures
            final(buffer)@ == resampled(old(buffer)@, ratio as int),
            final(buffer)@.len() == old(buffer)@.len(),
    {
        if UNIT - TOLERANCE < ratio && ratio < UNIT + TOLERANCE {
            return ;
        }
        let ghost s = buffer@;
        let len = buffer.len();
        let mut output: Vec<i16> = Vec::new();
        let mut i: usize = 0;
        while i < len
            invariant
                i <= len,
                len == s.len(),
                s == buffer@,
                output@.len() == i,
                forall|k: int| 0 <= k < i ==> output@[k] == resampled_at(s, ratio as int, k) as i16,
            decreases len - i,
        {
            assert(i * ratio <= u64::MAX * u64::MAX) by (nonlinear_arith)
                requires
                    0 <= i <= u64::MAX,
                    0 <= ratio <= u64::MAX,
            ;
            let position: u128 = (i as u128) * (ratio as u128);
            let index: u128 = position / 1_000_000;
            let part: u128 = position % 1_000_000;
            let value: i16 = if index + 1 < len as u128 {
                let at: usize = index as usize;
                let x0: i64 = buffer[at] as i64;
                let x1: i64 = buffer[at + 1] as i64;
                let y0: u64 = (x0 + 32768) as u64;
                let y1: u64 = (x1 + 32768) as u64;
                let p: u64 = part as u64;
                assert(y0 * (1_000_000 - p) + y1 * p == x0 * (UNIT - p) + x1 * p + 32768 * 1_000_000
                    && 0 <= y0 * (1_000_000 - p) && 0 <= y1 * p && y0 * (1_000_000 - p) + y1 * p
                    <= 65535 * 1_000_000) by (nonlinear_arith)
                    requires
                        y0 == x0 + 32768,
                        y1 == x1 + 32768,
                        0 <= y0 <= 65535,
                        0 <= y1 <= 65535,
                        0 <= p < 1_000_000,
                        UNIT == 1_000_000,
                ;
                let blend: u64 = y0 * (1_000_000 - p) + y1 * p;
                ((blend / 1_000_000) as i64 - 32768) as i16
            } else if index < len as u128 {
                buffer[index as usize]
            } else {
                0
            };
            output.push(value);
            i = i + 1;
        }
        assert(output@ =~= resampled(s, ratio as int));
        *buffer = output;
    }

    /// Corrects the pitch of `buffer` toward `target_pitch` millihertz by `strength`
    /// millionths, at the buffer's own length.
    ///
    /// An empty buffer is refused, then a strength outside zero to one. Where the
    /// coarse search finds no pitch, and where the ratio is within the tolerance of
    /// one, the result is the buffer unchanged.
    pub fn process(&self, buffer: &[i16], target_pitch: u64, strength: i32) -> (r: Result<
        Vec<i16>,
        AudioError,
    >)
        requires
            buffer.len() <= MAX_SAMPLES,
        ensures
            buffer.len() == 0 ==> r == Err::<Vec<i16>, AudioError>(AudioError::EmptyBuffer),
            buffer.len() > 0 && !(0 <= strength <= UNIT) ==> r == Err::<Vec<i16>, AudioError>(
                AudioError::InvalidParameter,
            ),
            buffer.len() > 0 && 0 <= strength <= UNIT ==> r is Ok && r.unwrap()@ == corrected(
                buffer@,
                self.format().sample_rate,
                target_pitch,
                strength as int,
            ) && r.unwrap()@.len() == buffer@.len(),
    {
        if buffer.len() == 0 {
            return Err(AudioError::EmptyBuffer);
        }
        if strength < 0 || strength > 1_000_000 {
            return Err(AudioError::InvalidParameter);
        }
        let ghost s = buffer@;
        let mut output = slice_to_vec(buffer);
        match self.estimate_period(buffer) {
            None => {},
            Some(lag) => {
                let base: i128 = (self.config.sample_rate as i128) * 1_000;
                assert(target_pitch * lag <= u64::MAX * 0xFFFF_FFFF) by (nonlinear_arith)
                    requires
                        0 <= target_pitch <= u64::MAX,
                        0 <= lag <= 0xFFFF_FFFF,
                ;
                let gap: i128 = (target_pitch as i128) * (lag as i128) - base;
                assert(gap * strength <= u64::MAX * 0xFFFF_FFFF * 1_000_000) by (nonlinear_arith)
                    requires
                        gap <= u64::MAX * 0xFFFF_FFFF,
                        0 <= strength <= 1_000_000,
                ;
                assert(gap * strength >= -base * 1_000_000) by (nonlinear_arith)
                    requires
                        0 <= base,
                        -base <= gap,
                        0 <= strength <= 1_000_000,
                ;
                let scaled: i128 = gap * (strength as i128);
                assert(base == self.config.sample_rate * MILLI) by (nonlinear_arith)
                    requires
                        base == self.config.sample_rate * 1_000,
                        MILLI == 1_000,
                ;
                proof {
                    vstd::arithmetic::div_mod::lemma_div_is_ordered(
                        -base * 1_000_000,
                        scaled as int,
                        base as int,
                    );
                    vstd::arithmetic::div_mod::lemma_div_multiples_vanish(-1_000_000, base as int);
                    assert(base * (-1_000_000) == -base * 1_000_000) by (nonlinear_arith);
                }
                let exact: i128 = 1_000_000 + floor_div(scaled, base);
                let ratio: u64 = if exact > u64::MAX as i128 {
                    u64::MAX
                } else {
                    exact as u64
                };
                proof {
                    assert(s.len() * UNIT <= 0xFFFF_FFFF * 1_000_000) by (nonlinear_arith)
                        requires
                            0 <= s.len() <= 0xFFFF_FFFF,
                            UNIT == 1_000_000,
                    ;
                    if exact > u64::MAX {
                        lemma_resample_beyond_end(s, exact as int);
                        lemma_resample_beyond_end(s, ratio as int);
                    }
                }
                self.pitch_shift(&mut output, ratio);
            },
        }
        Ok(output)
    }

    /// Leaves the spectral envelope as it is: formants are not corrected, and the
    /// buffer comes back unchanged.
    pub fn preserve_formants(&self, buffer: &[i16]) -> (r: Vec<i16>)
        ensures
            r@ == buffer@,
    {
        slice_to_vec(buffer)
    }
}

} // verus!
