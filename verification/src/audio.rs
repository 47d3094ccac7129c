//! Buffer statistics: root-mean-square amplitude and peak normalization.

use vstd::prelude::*;
use vstd::arithmetic::div_mod::{lemma_div_is_ordered, lemma_div_multiples_vanish};
use crate::fixed::{floor_sqrt, is_floor_sqrt, MAX_SAMPLES};
use crate::ranking::{is_ranking, rank};

verus! {

/// The sum of the squares of the first `n` samples.
pub open spec fn energy(s: Seq<i16>, n: int) -> int
    decreases n,
{
    if n <= 0 {
        0
    } else {
        energy(s, n - 1) + s[n - 1] * s[n - 1]
    }
}

/// The magnitude of a sample.
pub open spec fn magnitude(x: int) -> int {
    if x < 0 {
        -x
    } else {
        x
    }
}

/// The largest magnitude among the first `n` samples.
pub open spec fn peak(s: Seq<i16>, n: int) -> int
    decreases n,
{
    if n <= 0 {
        0
    } else if magnitude(s[n - 1] as int) > peak(s, n - 1) {
        magnitude(s[n - 1] as int)
    } else {
        peak(s, n - 1)
    }
}

/// A sample of value `x` after the buffer's peak `top` is brought to `level`:
/// `x * level / top`, rounded toward zero.
pub open spec fn leveled_sample(x: int, level: int, top: int) -> int {
    if x * level >= 0 {
        (x * level) / top
    } else {
        -((-(x * level)) / top)
    }
}

/// `s` with its peak brought to `level`; `s` itself where it is silent.
pub open spec fn leveled(s: Seq<i16>, level: int) -> Seq<i16> {
    if peak(s, s.len() as int) == 0 {
        s
    } else {
        Seq::new(s.len(), |i: int| leveled_sample(s[i] as int, level, peak(s, s.len() as int)) as i16)
    }
}

/// Of every ten samples, the quietest one counts as noise.
pub const NOISE_SHARE: usize = 10;

/// The score by which samples are ranked quietest first: the magnitude, negated.
pub open spec fn quietness(s: Seq<i16>) -> Seq<int> {
    Seq::new(s.len(), |i: int| -magnitude(s[i] as int))
}

/// The sum of the squares of the samples at the first `k` places of `order`.
pub open spec fn picked_energy(s: Seq<i16>, order: Seq<usize>, k: int) -> int
    decreases k,
{
    if k <= 0 {
        0
    } else {
        picked_energy(s, order, k - 1) + s[order[k - 1] as int] * s[order[k - 1] as int]
    }
}

/// The peak is the magnitude of some sample and no sample exceeds it.
pub proof fn lemma_peak_is_largest(s: Seq<i16>, n: int)
    requires
        0 <= n <= s.len(),
    ensures
        0 <= peak(s, n) <= 32768,
        forall|i: int| 0 <= i < n ==> magnitude(#[trigger] s[i] as int) <= peak(s, n),
        n > 0 ==> exists|i: int| 0 <= i < n && magnitude(#[trigger] s[i] as int) == peak(s, n),
    decreases n,
{
    if n > 0 {
        lemma_peak_is_largest(s, n - 1);
        if magnitude(s[n - 1] as int) > peak(s, n - 1) || n == 1 {
            assert(magnitude(s[n - 1] as int) == peak(s, n));
        } else {
            let i = choose|i: int| 0 <= i < n - 1 && magnitude(#[trigger] s[i] as int) == peak(s, n - 1);
            assert(magnitude(s[i] as int) == peak(s, n));
        }
    }
}

/// The root-mean-square amplitude of `buffer`, in the unit of its samples, rounded
/// down; zero for an empty buffer.
pub fn calculate_amplitude(buffer: &[i16]) -> (r: u16)
    requires
        buffer.len() <= MAX_SAMPLES,
    ensures
        buffer.len() == 0 ==> r == 0,
        buffer.len() > 0 ==> is_floor_sqrt(
            r as int,
            energy(buffer@, buffer.len() as int) / (buffer.len() as int),
        ),
{
    let n = buffer.len();
    if n == 0 {
        return 0;
    }
    let ghost s = buffer@;
    let mut sum: u64 = 0;
    let mut i: usize = 0;
    while i < n
        invariant
            i <= n,
            n == s.len(),
            s == buffer@,
            n <= MAX_SAMPLES,
            sum == energy(s, i as int),
            sum <= i * 0x4000_0000,
        decreases n - i,
    {
        let x: i64 = buffer[i] as i64;
        assert(0 <= x * x <= 0x4000_0000) by (nonlinear_arith)
            requires
                -32768 <= x <= 32767,
        ;
        sum = sum + (x * x) as u64;
        i = i + 1;
    }
    let mean: u64 = sum / (n as u64);
    proof {
        lemma_div_is_ordered(sum as int, n * 0x4000_0000, n as int);
        lemma_div_multiples_vanish(0x4000_0000, n as int);
    }
    let root = floor_sqrt(mean);
    assert(root <= 0x8000) by (nonlinear_arith)
        requires
            root * root <= mean,
            mean <= 0x4000_0000,
            root >= 0,
    ;
    root as u16
}

/// The noise floor of `buffer`: the root-mean-square amplitude, rounded down, of
/// its quietest tenth, that is of the samples at the first tenth of the places
/// when all are ranked by magnitude, quietest first and of equal magnitudes the
/// earlier first. A buffer of fewer than ten samples has no estimate.
pub fn estimate_noise(buffer: &[i16]) -> (r: Option<u16>)
    requires
        buffer.len() <= MAX_SAMPLES,
    ensures
        buffer.len() < NOISE_SHARE ==> r is None,
        buffer.len() >= NOISE_SHARE ==> r is Some && exists|order: Seq<usize>|
            is_ranking(order, quietness(buffer@), buffer.len() as int) && is_floor_sqrt(
                r.unwrap() as int,
                picked_energy(buffer@, order, buffer.len() as int / 10) / (buffer.len() as int
                    / 10),
            ),
{
    let n = buffer.len();
    if n < NOISE_SHARE {
        return None;
    }
    let ghost s = buffer@;
    let mut scores: Vec<i32> = Vec::new();
    let mut i: usize = 0;
    while i < n
        invariant
            i <= n,
            n == s.len(),
            s == buffer@,
            scores@.len() == i,
            forall|k: int| 0 <= k < i ==> #[trigger] scores@[k] == -magnitude(s[k] as int),
        decreases n - i,
    {
        let x: i32 = buffer[i] as i32;
        scores.push(if x < 0 { x } else { -x });
        i = i + 1;
    }
    assert(scores@.map_values(|c: i32| c as int) =~= quietness(s));
    let order = rank(&scores);
    let count: usize = n / 10;
    let mut sum: u64 = 0;
    let mut p: usize = 0;
    while p < count
        invariant
            p <= count <= n,
            n == s.len(),
            s == buffer@,
            n <= MAX_SAMPLES,
            is_ranking(order@, quietness(s), n as int),
            sum == picked_energy(s, order@, p as int),
            sum <= p * 0x4000_0000,
        decreases count - p,
    {
        let x: i64 = buffer[order[p]] as i64;
        assert(0 <= x * x <= 0x4000_0000) by (nonlinear_arith)
            requires
                -32768 <= x <= 32767,
        ;
        sum = sum + (x * x) as u64;
        p = p + 1;
    }
    let mean: u64 = sum / (count as u64);
    proof {
        lemma_div_is_ordered(sum as int, count * 0x4000_0000, count as int);
        lemma_div_multiples_vanish(0x4000_0000, count as int);
    }
    let root = floor_sqrt(mean);
    assert(root <= 0x8000) by (nonlinear_arith)
        requires
            root * root <= mean,
            mean <= 0x4000_0000,
            root >= 0,
    ;
    Some(root as u16)
}

/// The largest magnitude among the samples of `buffer`.
pub fn peak_level(buffer: &Vec<i16>) -> (top: u16)
    ensures
        top == peak(buffer@, buffer.len() as int),
        top <= 32768,
{
    let mut top: u16 = 0;
    let mut i: usize = 0;
    while i < buffer.len()
        invariant
            i <= buffer.len(),
            top == peak(buffer@, i as int),
            top <= 32768,
        decreases buffer.len() - i,
    {
        let x: i32 = buffer[i] as i32;
        let m: u16 = if x < 0 { (-x) as u16 } else { x as u16 };
        if m > top {
            top = m;
        }
        i = i + 1;
    }
    top
}

/// Scales `buffer` in place so that its largest magnitude becomes `target_level`;
/// each sample is rounded toward zero. A silent buffer stays as it is.
pub fn normalize(buffer: &mut Vec<i16>, target_level: i16)
    requires
        target_level > i16::MIN,
    ensures
        final(buffer)@ == leveled(old(buffer)@, target_level as int),
{
    let top = peak_level(buffer);
    if top == 0 {
        return ;
    }
    let ghost s = buffer@;
    let len = buffer.len();
    let level: i32 = target_level as i32;
    let mut output: Vec<i16> = Vec::new();
    let mut i: usize = 0;
    proof {
        lemma_peak_is_largest(s, len as int);
    }
    while i < len
        invariant
            i <= len,
            len == s.len(),
            s == buffer@,
            top == peak(s, len as int),
            0 < top <= 32768,
            level == target_level,
            -32767 <= level <= 32767,
            forall|k: int| 0 <= k < len ==> magnitude(#[trigger] s[k] as int) <= top,
            output@.len() == i,
            forall|k: int|
                0 <= k < i ==> output@[k] == leveled_sample(s[k] as int, level as int, top as int) as i16,
        decreases len - i,
    {
        let x: i32 = buffer[i] as i32;
        assert(magnitude(s[i as int] as int) <= top);
        assert(-32768 * 32767 <= x * level <= 32768 * 32767) by (nonlinear_arith)
            requires
                -32768 <= x <= 32768,
                -32767 <= level <= 32767,
        ;
        let product: i32 = x * level;
        let size: i32 = if product < 0 { -product } else { product };
        assert(size <= top * 32767) by (nonlinear_arith)
            requires
                size == magnitude(x * level),
                magnitude(x as int) <= top,
                -32767 <= level <= 32767,
                product == x * level,
                magnitude(x * level) == if x * level < 0 { -(x * level) } else { x * level },
                magnitude(x as int) == if x < 0 { -x } else { x as int },
        ;
        proof {
            lemma_div_is_ordered(size as int, top * 32767, top as int);
            lemma_div_multiples_vanish(32767, top as int);
            vstd::arithmetic::div_mod::lemma_div_pos_is_pos(size as int, top as int);
        }
        let quotient: i32 = size / (top as i32);
        let value: i16 = if product < 0 { (-quotient) as i16 } else { quotient as i16 };
        output.push(value);
        i = i + 1;
    }
    assert(output@ =~= leveled(s, target_level as int));
    *buffer = output;
}

} // verus!
