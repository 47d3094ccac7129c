//! Fixed-point helpers: the scale, floor division, 256-bit products, integer roots.

use vstd::prelude::*;
use vstd::arithmetic::div_mod::lemma_fundamental_div_mod_converse;

verus! {

/// One, in the scale in which ratios are held: millionths.
pub const UNIT: u64 = 1_000_000;

/// Millihertz in one hertz.
pub const MILLI: u64 = 1_000;

/// The longest buffer that the analyses take: beyond it their sums no longer fit.
pub const MAX_SAMPLES: usize = 0xFFFF_FFFF;

/// Quotient of `n` by a positive `d`, rounded toward negative infinity.
pub fn floor_div(n: i128, d: i128) -> (q: i128)
    requires
        d > 0,
        n > i128::MIN,
    ensures
        q == n / d,
        n >= 0 ==> 0 <= q <= n,
        n < 0 ==> n <= q < 0,
{
    if n >= 0 {
        proof {
            vstd::arithmetic::div_mod::lemma_div_nonincreasing(n as int, d as int);
            vstd::arithmetic::div_mod::lemma_div_pos_is_pos(n as int, d as int);
        }
        n / d
    } else {
        let m: i128 = -n;
        let t: i128 = (m - 1) / d;
        proof {
            let r = (m - 1) % (d as int);
            assert(m - 1 == d * t + r && 0 <= r < d) by {
                vstd::arithmetic::div_mod::lemma_fundamental_div_mod(m - 1, d as int);
            }
            assert(0 <= t <= m - 1) by (nonlinear_arith)
                requires
                    m - 1 == d * t + r,
                    0 <= r < d,
                    d > 0,
                    m >= 1,
            ;
            assert(n == (-t - 1) * d + (d - r - 1)) by (nonlinear_arith)
                requires
                    m - 1 == d * t + r,
                    n == -m,
            ;
            lemma_fundamental_div_mod_converse(n as int, d as int, -t - 1, d - r - 1);
        }
        -t - 1
    }
}

/// The base of the two limbs of a 128-bit word: 2^64.
pub open spec fn limb() -> int {
    0x1_0000_0000_0000_0000
}

/// The weight of the upper half of a 256-bit number: 2^128.
pub open spec fn half() -> int {
    0x1_0000_0000_0000_0000_0000_0000_0000_0000int
}

/// An unsigned 256-bit number as two 128-bit halves.
pub struct Wide {
    pub hi: u128,
    pub lo: u128,
}

impl Wide {
    /// The number that the two halves stand for.
    pub open spec fn value(self) -> int {
        self.hi * half() + self.lo
    }

    /// Whether `self` is at most `other`.
    pub fn le(&self, other: &Wide) -> (r: bool)
        ensures
            r == (self.value() <= other.value()),
    {
        if self.hi != other.hi {
            self.hi < other.hi
        } else {
            self.lo <= other.lo
        }
    }
}

/// The full product of two 128-bit words.
pub fn wide_mul(a: u128, b: u128) -> (r: Wide)
    ensures
        r.value() == a * b,
{
    let base: u128 = 0x1_0000_0000_0000_0000;
    let ah: u128 = a / base;
    let al: u128 = a % base;
    let bh: u128 = b / base;
    let bl: u128 = b % base;
    proof {
        lemma_limb_product(al as int, bl as int);
        lemma_limb_product(al as int, bh as int);
        lemma_limb_product(ah as int, bl as int);
        lemma_limb_product(ah as int, bh as int);
    }
    let ll: u128 = al * bl;
    let lh: u128 = al * bh;
    let hl: u128 = ah * bl;
    let hh: u128 = ah * bh;
    let mid: u128 = ll / base + lh % base + hl % base;
    let lo: u128 = ll % base + (mid % base) * base;
    let hi: u128 = hh + lh / base + hl / base + mid / base;
    proof {
        let bb = limb();
        assert(a * b == (ah * bh) * half() + (al * bh) * bb + (ah * bl) * bb + al * bl)
            by (nonlinear_arith)
            requires
                a == ah * bb + al,
                b == bh * bb + bl,
                bb * bb == half(),
        ;
    }
    Wide { hi, lo }
}

/// The product of two numbers below 2^64 is at most (2^64 - 1)^2.
pub proof fn lemma_limb_product(x: int, y: int)
    requires
        0 <= x < limb(),
        0 <= y < limb(),
    ensures
        0 <= x * y <= 0xFFFF_FFFF_FFFF_FFFE_0000_0000_0000_0001,
{
    assert(0 <= x * y <= 0xFFFF_FFFF_FFFF_FFFF * 0xFFFF_FFFF_FFFF_FFFF) by (nonlinear_arith)
        requires
            0 <= x <= 0xFFFF_FFFF_FFFF_FFFF,
            0 <= y <= 0xFFFF_FFFF_FFFF_FFFF,
    ;
}

/// Whether `a * b <= c * d`, computed without overflow.
pub fn product_le(a: u128, b: u128, c: u128, d: u128) -> (r: bool)
    ensures
        r == (a * b <= c * d),
{
    let x = wide_mul(a, b);
    let y = wide_mul(c, d);
    x.le(&y)
}

/// Whether `v` millionths, squared and scaled by `m`, stays within the square of `d`:
/// for positive `m`, whether `v / UNIT <= d / sqrt(m)`.
pub open spec fn ratio_fits(v: int, d: int, m: int) -> bool {
    (v * v) * m <= (d * UNIT) * (d * UNIT)
}

/// Whether `v` is `d / sqrt(m)` in millionths, rounded down and capped at one.
pub open spec fn is_unit_ratio(v: int, d: int, m: int) -> bool {
    &&& 0 <= v <= UNIT
    &&& ratio_fits(v, d, m)
    &&& v < UNIT ==> !ratio_fits(v + 1, d, m)
}

/// `d / sqrt(m)` in millionths, rounded down and capped at one.
pub open spec fn unit_ratio(d: int, m: int) -> int {
    choose|v: int| is_unit_ratio(v, d, m)
}

/// Going down from `v`, above which nothing fits, there is a largest number that fits.
proof fn lemma_unit_ratio_below(v: int, d: int, m: int)
    requires
        0 <= v <= UNIT,
        v < UNIT ==> !ratio_fits(v + 1, d, m),
    ensures
        exists|w: int| is_unit_ratio(w, d, m),
    decreases v,
{
    if ratio_fits(v, d, m) {
        assert(is_unit_ratio(v, d, m));
    } else {
        assert(ratio_fits(0, d, m)) by (nonlinear_arith)
            requires
                ratio_fits(0, d, m) == ((0 * 0) * m <= (d * UNIT) * (d * UNIT)),
        ;
        lemma_unit_ratio_below(v - 1, d, m);
    }
}

/// The capped quotient exists: `unit_ratio` names a number that is it.
pub proof fn lemma_unit_ratio_exists(d: int, m: int)
    ensures
        is_unit_ratio(unit_ratio(d, m), d, m),
{
    lemma_unit_ratio_below(UNIT as int, d, m);
}

/// Scaling the numerator by `q` and the radicand by `q * q` leaves the capped
/// quotient as it is.
pub proof fn lemma_unit_ratio_scales(d: int, m: int, q: int)
    requires
        m >= 0,
        q > 0,
    ensures
        unit_ratio(q * d, (q * q) * m) == unit_ratio(d, m),
{
    lemma_unit_ratio_exists(d, m);
    let v = unit_ratio(d, m);
    lemma_ratio_fits_scales(v, d, m, q);
    lemma_ratio_fits_scales(v + 1, d, m, q);
    assert((q * q) * m >= 0) by (nonlinear_arith)
        requires
            m >= 0,
    ;
    lemma_unit_ratio_unique(v, q * d, (q * q) * m);
}

/// Whether a number fits does not depend on a common scale.
pub proof fn lemma_ratio_fits_scales(v: int, d: int, m: int, q: int)
    requires
        q > 0,
    ensures
        ratio_fits(v, q * d, (q * q) * m) == ratio_fits(v, d, m),
{
    let left = (v * v) * m;
    let right = (d * UNIT) * (d * UNIT);
    let qq = q * q;
    assert((v * v) * (qq * m) == qq * left) by (nonlinear_arith)
        requires
            left == (v * v) * m,
    ;
    assert(((q * d) * UNIT) * ((q * d) * UNIT) == qq * right) by (nonlinear_arith)
        requires
            right == (d * UNIT) * (d * UNIT),
            qq == q * q,
    ;
    assert((qq * left <= qq * right) == (left <= right)) by (nonlinear_arith)
        requires
            qq == q * q,
            q > 0,
    ;
}

/// At most one number is the capped quotient, so the one that is found is it.
pub proof fn lemma_unit_ratio_unique(v: int, d: int, m: int)
    requires
        m >= 0,
        is_unit_ratio(v, d, m),
    ensures
        unit_ratio(d, m) == v,
{
    let w = unit_ratio(d, m);
    assert(is_unit_ratio(w, d, m));
    if w < v {
        assert((w + 1) * (w + 1) * m <= (v * v) * m) by (nonlinear_arith)
            requires
                0 <= w + 1 <= v,
                m >= 0,
        ;
    } else if v < w {
        assert((v + 1) * (v + 1) * m <= (w * w) * m) by (nonlinear_arith)
            requires
                0 <= v + 1 <= w,
                m >= 0,
        ;
    }
}

/// Computes `d / sqrt(m)` in millionths, rounded down and capped at one, by bisection.
pub fn unit_ratio_of(d: u64, m: u128) -> (v: u32)
    ensures
        v == unit_ratio(d as int, m as int),
        is_unit_ratio(v as int, d as int, m as int),
{
    assert(d * UNIT <= u64::MAX * 1_000_000) by (nonlinear_arith)
        requires
            0 <= d <= u64::MAX,
            UNIT == 1_000_000,
    ;
    let scaled: u128 = (d as u128) * (UNIT as u128);
    let mut lo: u64 = 0;
    let mut hi: u64 = UNIT + 1;
    assert(ratio_fits(0, d as int, m as int)) by (nonlinear_arith)
        requires
            ratio_fits(0, d as int, m as int) == ((0 * 0) * m <= (d * UNIT) * (d * UNIT)),
    ;
    while hi - lo > 1
        invariant
            lo < hi <= UNIT + 1,
            scaled == d * UNIT,
            ratio_fits(lo as int, d as int, m as int),
            hi <= UNIT ==> !ratio_fits(hi as int, d as int, m as int),
        decreases hi - lo,
    {
        let mid: u64 = lo + (hi - lo) / 2;
        assert(mid * mid <= UNIT * UNIT) by (nonlinear_arith)
            requires
                0 <= mid <= UNIT,
        ;
        let square: u128 = (mid as u128) * (mid as u128);
        if product_le(square, m, scaled, scaled) {
            lo = mid;
        } else {
            hi = mid;
        }
    }
    proof {
        lemma_unit_ratio_unique(lo as int, d as int, m as int);
    }
    lo as u32
}

/// The quotient `dot / sqrt(a * b)` in millionths, rounded toward zero; zero where
/// `a` or `b` vanishes. With `dot` an inner product and `a`, `b` the two energies,
/// this is the normalized correlation.
pub open spec fn normalized(dot: int, a: int, b: int) -> int {
    if a <= 0 || b <= 0 {
        0
    } else if dot >= 0 {
        unit_ratio(dot, a * b)
    } else {
        -unit_ratio(-dot, a * b)
    }
}

/// The normalized correlation does not depend on a common positive scale of the
/// inner product and the two energies.
pub proof fn lemma_normalized_scales(dot: int, a: int, b: int, q: int)
    requires
        q > 0,
        a >= 0,
        b >= 0,
    ensures
        normalized(q * dot, q * a, q * b) == normalized(dot, a, b),
{
    assert((q * a > 0) == (a > 0) && (q * b > 0) == (b > 0) && (q * dot >= 0) == (dot >= 0))
        by (nonlinear_arith)
        requires
            q > 0,
    ;
    if a > 0 && b > 0 {
        assert((q * a) * (q * b) == (q * q) * (a * b)) by (nonlinear_arith);
        assert(a * b >= 0) by (nonlinear_arith)
            requires
                a >= 0,
                b >= 0,
        ;
        if dot >= 0 {
            lemma_unit_ratio_scales(dot, a * b, q);
        } else {
            assert(-(q * dot) == q * (-dot)) by (nonlinear_arith);
            lemma_unit_ratio_scales(-dot, a * b, q);
        }
    }
}

/// Computes the normalized correlation from an inner product and two energies.
pub fn normalized_ratio(dot: i64, a: u64, b: u64) -> (r: i32)
    ensures
        r == normalized(dot as int, a as int, b as int),
        -UNIT <= r <= UNIT,
{
    if a == 0 || b == 0 {
        return 0;
    }
    assert(a * b <= u64::MAX * u64::MAX) by (nonlinear_arith)
        requires
            0 <= a <= u64::MAX,
            0 <= b <= u64::MAX,
    ;
    let m: u128 = (a as u128) * (b as u128);
    if dot >= 0 {
        let v = unit_ratio_of(dot as u64, m);
        v as i32
    } else {
        let size: u64 = (-(dot as i128)) as u64;
        let v = unit_ratio_of(size, m);
        -(v as i32)
    }
}

/// Whether `r` is the square root of `x`, rounded down.
pub open spec fn is_floor_sqrt(r: int, x: int) -> bool {
    0 <= r && r * r <= x < (r + 1) * (r + 1)
}

/// The square root of `x`, rounded down, by bisection.
pub fn floor_sqrt(x: u64) -> (r: u32)
    ensures
        is_floor_sqrt(r as int, x as int),
{
    let mut lo: u64 = 0;
    let mut hi: u64 = 0x1_0000_0000;
    while hi - lo > 1
        invariant
            lo < hi <= 0x1_0000_0000,
            lo * lo <= x,
            x < hi * hi,
        decreases hi - lo,
    {
        let mid: u64 = lo + (hi - lo) / 2;
        assert(mid * mid <= 0xFFFF_FFFF * 0xFFFF_FFFF) by (nonlinear_arith)
            requires
                0 <= mid <= 0xFFFF_FFFF,
        ;
        if mid * mid <= x {
            lo = mid;
        } else {
            hi = mid;
        }
    }
    lo as u32
}

} // verus!
