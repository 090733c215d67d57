//! The size at which an image is shown.
//!
//! Sizes are scaled by a ratio in double precision: a quotient of two integers, rounded
//! to 53 significant bits, then a product, rounded again. Both are computed here in
//! integers, with a double as a fraction over a power of two.

use vstd::prelude::*;

use crate::config::Config;

verus! {

/// The value `significand / unit`, where `unit` is a power of two.
pub ghost struct Double {
    pub significand: int,
    pub unit: int,
}

/// The integer nearest to `n / d`; of two equally near ones the even one.
pub open spec fn round_half_even(n: int, d: int) -> int {
    let q = n / d;
    let r = n % d;
    if 2 * r < d || 2 * r == d && q % 2 == 0 {
        q
    } else {
        q + 1
    }
}

/// The least power of two that takes `n / d` to `2^52` or above.
pub open spec fn quotient_unit(n: int, d: int) -> int
    decreases 0x20_0000_0000_0000 * d - n,
{
    if n <= 0 || n >= 0x10_0000_0000_0000 * d {
        1
    } else {
        2 * quotient_unit(2 * n, d)
    }
}

/// The double nearest to `n / d`: 53 significant bits, ties to even.
pub open spec fn quotient(n: int, d: int) -> Double {
    let unit = quotient_unit(n, d);
    Double { significand: round_half_even(n * unit, d), unit }
}

/// The power of two below which the bits of `p` exceed 53 significant ones.
pub open spec fn excess_unit(p: int) -> int
    decreases p,
{
    if p < 0x20_0000_0000_0000 {
        1
    } else {
        2 * excess_unit(p / 2)
    }
}

/// `p` rounded to 53 significant bits, ties to even.
pub open spec fn round_to_double(p: int) -> int {
    round_half_even(p, excess_unit(p)) * excess_unit(p)
}

/// The double nearest to `n * x`.
pub open spec fn times(n: int, x: Double) -> Double {
    Double { significand: round_to_double(n * x.significand), unit: x.unit }
}

/// The integer nearest to `x`, halves away from zero.
pub open spec fn nearest(x: Double) -> int {
    (2 * x.significand + x.unit) / (2 * x.unit)
}

/// `a <= b` as values.
pub open spec fn at_most(a: Double, b: Double) -> bool {
    a.significand * b.unit <= b.significand * a.unit
}

/// The smaller of two doubles.
pub open spec fn smaller(a: Double, b: Double) -> Double {
    if at_most(a, b) {
        a
    } else {
        b
    }
}

/// The double 1.
pub open spec fn one() -> Double {
    Double { significand: 0x10_0000, unit: 0x10_0000 }
}

pub open spec fn larger(a: int, b: int) -> int {
    if a >= b {
        a
    } else {
        b
    }
}

/// The limit on a side of `size` pixels: the configured one, or none, but at least one pixel.
pub open spec fn side_limit(limit: Option<u32>, size: u32) -> int {
    match limit {
        Some(limit) => larger(limit as int, 1),
        None => larger(size as int, 1),
    }
}

/// A side of `size` pixels at the ratio `scale`, never less than one pixel.
pub open spec fn scaled_side(size: int, scale: Double) -> int {
    larger(nearest(times(size, scale)), 1)
}

/// The ratio that brings `width` by `height` pixels within the configured limits and
/// never enlarges.
pub open spec fn shrink_ratio(width: u32, height: u32, config: Config) -> Double {
    let w = quotient(side_limit(config.max_pixels_w, width), larger(width as int, 1));
    let h = quotient(side_limit(config.max_pixels_h, height), larger(height as int, 1));
    smaller(smaller(w, h), one())
}

/// The size at which an image of `width` by `height` pixels is to be shown.
pub open spec fn constrained(width: u32, height: u32, config: Config) -> (int, int) {
    let scale = shrink_ratio(width, height, config);
    (scaled_side(width as int, scale), scaled_side(height as int, scale))
}

/// The largest size of the shape of `width` by `height` pixels that fits `max_width` by
/// `max_height` pixels, with no side below one pixel.
pub open spec fn fitted(width: int, height: int, max_width: int, max_height: int) -> (int, int) {
    let ratio = if width == 0 {
        quotient(max_height, height)
    } else if height == 0 {
        quotient(max_width, width)
    } else {
        smaller(quotient(max_width, width), quotient(max_height, height))
    };
    (scaled_side(width, ratio), scaled_side(height, ratio))
}

proof fn lemma_round_half_even(n: int, d: int)
    requires
        0 <= n,
        0 < d,
    ensures
        2 * (round_half_even(n, d) * d - n) <= d,
        2 * (n - round_half_even(n, d) * d) <= d,
        0 <= round_half_even(n, d),
{
    let q = n / d;
    let r = n % d;
    vstd::arithmetic::div_mod::lemma_fundamental_div_mod(n, d);
    vstd::arithmetic::div_mod::lemma_mod_bound(n, d);
    vstd::arithmetic::div_mod::lemma_div_pos_is_pos(n, d);
    assert(d * q == q * d) by (nonlinear_arith);
    assert((q + 1) * d == q * d + d) by (nonlinear_arith);
}

proof fn lemma_quotient_unit(n: int, d: int)
    requires
        0 < n,
        0 < d,
    ensures
        1 <= quotient_unit(n, d),
        0x10_0000_0000_0000 * d <= n * quotient_unit(n, d),
        quotient_unit(n, d) == 1 || n * quotient_unit(n, d) < 0x20_0000_0000_0000 * d,
    decreases 0x20_0000_0000_0000 * d - n,
{
    if n < 0x10_0000_0000_0000 * d {
        lemma_quotient_unit(2 * n, d);
        let u = quotient_unit(2 * n, d);
        assert(n * (2 * u) == (2 * n) * u) by (nonlinear_arith);
    }
}

proof fn lemma_excess_unit(p: int)
    requires
        0 <= p,
    ensures
        1 <= excess_unit(p),
        excess_unit(p) == 1 || 0x10_0000_0000_0000 * excess_unit(p) <= p,
        p < 0x20_0000_0000_0000 * excess_unit(p),
    decreases p,
{
    if p >= 0x20_0000_0000_0000 {
        lemma_excess_unit(p / 2);
    }
}

/// Rounding to a double moves a value by at most one part in `2^53`.
proof fn lemma_round_to_double(p: int)
    requires
        0 <= p,
    ensures
        0x20_0000_0000_0000 * (round_to_double(p) - p) <= p,
        0x20_0000_0000_0000 * (p - round_to_double(p)) <= p,
        0 <= round_to_double(p),
        p < 0x20_0000_0000_0000 ==> round_to_double(p) == p,
{
    let u = excess_unit(p);
    lemma_excess_unit(p);
    lemma_round_half_even(p, u);
    let m = round_half_even(p, u);
    assert(m * u >= 0) by (nonlinear_arith)
        requires
            m >= 0,
            u >= 0,
    ;
}

/// A product with a ratio that is at most a hair above `limit / n` rounds to at most `limit`.
proof fn lemma_nearest_bound(n: int, x: Double, limit: int)
    requires
        0 <= n,
        0 <= x.significand,
        0 < x.unit,
        0 <= limit <= u32::MAX,
        0x20_0000_0000_0000 * (n * x.significand - limit * x.unit) <= limit * x.unit,
    ensures
        0 <= nearest(times(n, x)) <= limit,
{
    let p = n * x.significand;
    let l = limit * x.unit;
    let unit = x.unit;
    let r = round_to_double(p);
    assert(p >= 0) by (nonlinear_arith)
        requires
            p == n * x.significand,
            n >= 0,
            x.significand >= 0,
    ;
    lemma_round_to_double(p);
    assert(l <= 0xffff_ffff * unit) by (nonlinear_arith)
        requires
            l == limit * unit,
            limit <= 0xffff_ffff,
            unit > 0,
    ;
    assert(2 * (r - l) < unit);
    assert(2 * r + unit < 2 * unit * (limit + 1)) by (nonlinear_arith)
        requires
            2 * (r - l) < unit,
            l == limit * unit,
    ;
    let top = 2 * r + unit;
    let bottom = 2 * unit;
    assert(top / bottom <= limit && 0 <= top / bottom) by (nonlinear_arith)
        requires
            0 <= top,
            0 < bottom,
            top < bottom * (limit + 1),
    ;
}

/// A ratio of at most 1 enlarges nothing.
proof fn lemma_shrinks(n: int, x: Double)
    requires
        0 <= n <= u32::MAX,
        0 <= x.significand,
        0 < x.unit,
        at_most(x, one()),
    ensures
        0 <= nearest(times(n, x)) <= n,
{
    let a = one();
    assert(x.significand <= x.unit) by (nonlinear_arith)
        requires
            a.significand == 0x10_0000,
            a.unit == 0x10_0000,
            x.significand * a.unit <= a.significand * x.unit,
    ;
    assert(n * x.significand <= n * x.unit) by (nonlinear_arith)
        requires
            0 <= n,
            x.significand <= x.unit,
    ;
    assert(n * x.unit >= 0) by (nonlinear_arith)
        requires
            0 <= n,
            0 < x.unit,
    ;
    lemma_nearest_bound(n, x, n);
}

/// The rounded quotient `n / d` is at most one part in `2^53` above the exact one.
proof fn lemma_quotient(n: int, d: int)
    requires
        0 < n,
        0 < d,
    ensures
        ({
            let q = quotient(n, d);
            &&& 0 < q.unit
            &&& 0 <= q.significand
            &&& 0x20_0000_0000_0000 * (q.significand * d - n * q.unit) <= n * q.unit
            &&& n >= d ==> q.significand >= q.unit
        }),
{
    let q = quotient(n, d);
    lemma_quotient_unit(n, d);
    assert(0 <= n * q.unit) by (nonlinear_arith)
        requires
            0 < n,
            0 < q.unit,
    ;
    lemma_round_half_even(n * q.unit, d);
    if n >= d && q.significand < q.unit {
        assert((q.unit - 1) * d <= n * q.unit - d) by (nonlinear_arith)
            requires
                n >= d,
                q.unit > 0,
        ;
        assert(q.significand * d <= (q.unit - 1) * d) by (nonlinear_arith)
            requires
                q.significand <= q.unit - 1,
                d > 0,
        ;
        assert(false);
    }
}

/// A ratio of at most `limit / n`, rounded, brings `n` to at most `limit`.
proof fn lemma_respects_limit(n: int, x: Double, limit: int)
    requires
        0 <= n,
        0 < limit <= u32::MAX,
        0 <= x.significand,
        0 < x.unit,
        at_most(x, quotient(limit, larger(n, 1))),
    ensures
        0 <= nearest(times(n, x)) <= limit,
{
    let d = larger(n, 1);
    let q = quotient(limit, d);
    lemma_quotient(limit, d);
    let k: int = 0x20_0000_0000_0000;
    assert(k * (n * x.significand - limit * x.unit) <= limit * x.unit) by (nonlinear_arith)
        requires
            0 <= n <= d,
            0 <= x.significand,
            0 < x.unit,
            0 < q.unit,
            0 <= q.significand,
            k > 0,
            x.significand * q.unit <= q.significand * x.unit,
            k * (q.significand * d - limit * q.unit) <= limit * q.unit,
    {
        let a = x.significand * q.unit;
        let b = q.significand * x.unit;
        assert(a * n <= b * d) by (nonlinear_arith)
            requires
                0 <= a <= b,
                0 <= n <= d,
        ;
        assert(k * (b * d - limit * q.unit * x.unit) <= limit * q.unit * x.unit) by (nonlinear_arith)
            requires
                k * (q.significand * d - limit * q.unit) <= limit * q.unit,
                0 < x.unit,
                b == q.significand * x.unit,
        ;
        assert(k * (a * n) <= k * (b * d)) by (nonlinear_arith)
            requires
                a * n <= b * d,
                k > 0,
        ;
        let e = k * (n * x.significand - limit * x.unit);
        let f = limit * x.unit;
        let z = limit * q.unit * x.unit;
        assert(f * q.unit == z) by (nonlinear_arith)
            requires
                f == limit * x.unit,
                z == limit * q.unit * x.unit,
        ;
        assert((n * x.significand - limit * x.unit) * q.unit == a * n - z) by (nonlinear_arith)
            requires
                a == x.significand * q.unit,
                z == limit * q.unit * x.unit,
        ;
        let g = n * x.significand - limit * x.unit;
        assert(e * q.unit == k * (a * n - z)) by (nonlinear_arith)
            requires
                e == k * g,
                g * q.unit == a * n - z,
        ;
        assert(e * q.unit <= f * q.unit) by (nonlinear_arith)
            requires
                e * q.unit == k * (a * n - z),
                f * q.unit == z,
                k * (a * n) <= k * (b * d),
                k * (b * d - z) <= z,
        ;
        assert(e <= f) by (nonlinear_arith)
            requires
                e * q.unit <= f * q.unit,
                q.unit > 0,
        ;
    }
    lemma_nearest_bound(n, x, limit);
}

/// A ratio of sizes: the double `significand / (2^20 * coarse)`.
#[derive(Clone, Copy)]
pub struct Ratio {
    significand: u128,
    coarse: u128,
}

impl View for Ratio {
    type V = Double;

    closed spec fn view(&self) -> Double {
        Double { significand: self.significand as int, unit: 0x10_0000 * self.coarse }
    }
}

impl Ratio {
    /// Small enough for the arithmetic on ratios.
    pub closed spec fn wf(self) -> bool {
        &&& self.significand <= 0x20_0000_0000_0000
        &&& 1 <= self.coarse <= 0x4_0000_0000_0000_0000
    }

    /// The ratio 1.
    fn one() -> (r: Ratio)
        ensures
            r.wf(),
            r@ == one(),
    {
        Ratio { significand: 0x10_0000, coarse: 1 }
    }

    /// The ratio of `n` to `d`.
    fn of(n: u32, d: u32) -> (r: Ratio)
        requires
            0 < n,
            0 < d,
        ensures
            r.wf(),
            r@ == quotient(n as int, d as int),
    {
        let ghost n0 = n as int;
        let ghost d0 = d as int;
        let divisor: u128 = d as u128;
        let target: u128 = 0x10_0000_0000_0000 * divisor;
        let mut numerator: u128 = 0x10_0000 * (n as u128);
        let mut coarse: u128 = 1;
        assert(quotient_unit(n0, d0) == 0x10_0000 * quotient_unit(0x10_0000 * n0, d0)) by {
            reveal_with_fuel(quotient_unit, 21);
        }
        while numerator < target
            invariant
                0 < n0 <= u32::MAX,
                0 < d0 <= u32::MAX,
                divisor == d0,
                target == 0x10_0000_0000_0000 * d0,
                1 <= coarse,
                numerator == 0x10_0000 * n0 * coarse,
                numerator < 0x20_0000_0000_0000 * d0,
                quotient_unit(n0, d0) == 0x10_0000 * coarse * quotient_unit(numerator as int, d0),
            decreases 2 * target - numerator,
        {
            let ghost u = quotient_unit(2 * numerator, d0);
            assert(numerator >= 0x10_0000 * coarse) by (nonlinear_arith)
                requires
                    numerator == 0x10_0000 * n0 * coarse,
                    n0 >= 1,
                    coarse >= 1,
            ;
            assert(0x10_0000 * (2 * coarse) * u == 0x10_0000 * coarse * (2 * u)) by (nonlinear_arith);
            assert(0x10_0000 * n0 * (2 * coarse) == 2 * (0x10_0000 * n0 * coarse)) by (nonlinear_arith);
            numerator = 2 * numerator;
            coarse = 2 * coarse;
        }
        assert(numerator >= 0x10_0000 * coarse) by (nonlinear_arith)
            requires
                numerator == 0x10_0000 * n0 * coarse,
                n0 >= 1,
                coarse >= 1,
        ;
        let ghost unit = 0x10_0000 * coarse;
        assert(quotient_unit(n0, d0) == unit);
        assert(numerator == n0 * unit) by (nonlinear_arith)
            requires
                numerator == 0x10_0000 * n0 * coarse,
                unit == 0x10_0000 * coarse,
        ;
        let significand: u128 = rounded_quotient(numerator, divisor);
        proof {
            lemma_round_half_even(numerator as int, d0);
            assert(significand <= 0x20_0000_0000_0000) by (nonlinear_arith)
                requires
                    2 * (significand * d0 - numerator) <= d0,
                    numerator < 0x20_0000_0000_0000 * d0,
                    0 < d0,
            ;
        }
        Ratio { significand, coarse }
    }

    /// The smaller of two ratios.
    fn min(self, other: Ratio) -> (r: Ratio)
        requires
            self.wf(),
            other.wf(),
        ensures
            r.wf(),
            r@ == smaller(self@, other@),
    {
        proof {
            let a: int = self.significand as int;
            let b: int = other.significand as int;
            let ca: int = self.coarse as int;
            let cb: int = other.coarse as int;
            assert(0 <= a * cb <= 0x20_0000_0000_0000 * 0x4_0000_0000_0000_0000) by (nonlinear_arith)
                requires
                    0 <= a <= 0x20_0000_0000_0000,
                    0 <= cb <= 0x4_0000_0000_0000_0000,
            ;
            assert(0 <= b * ca <= 0x20_0000_0000_0000 * 0x4_0000_0000_0000_0000) by (nonlinear_arith)
                requires
                    0 <= b <= 0x20_0000_0000_0000,
                    0 <= ca <= 0x4_0000_0000_0000_0000,
            ;
            assert(a * (0x10_0000 * cb) == 0x10_0000 * (a * cb)) by (nonlinear_arith);
            assert(b * (0x10_0000 * ca) == 0x10_0000 * (b * ca)) by (nonlinear_arith);
        }
        if self.significand * other.coarse <= other.significand * self.coarse {
            self
        } else {
            other
        }
    }

    /// A side of `size` pixels at this ratio, never less than one pixel.
    fn scale(self, size: u32) -> (r: u32)
        requires
            self.wf(),
            at_most(self@, one()),
        ensures
            r == scaled_side(size as int, self@),
    {
        proof {
            lemma_shrinks(size as int, self@);
            lemma_round_to_double(size * self.significand);
            assert(0 <= size * self.significand <= 0xffff_ffff * 0x20_0000_0000_0000)
                by (nonlinear_arith)
                requires
                    0 <= size <= 0xffff_ffff,
                    0 <= self.significand <= 0x20_0000_0000_0000,
            ;
        }
        let product: u128 = rounded_to_double(size as u128 * self.significand);
        let unit: u128 = 0x10_0000 * self.coarse;
        let side: u128 = (2 * product + unit) / (2 * unit);
        if side >= 1 {
            side as u32
        } else {
            1
        }
    }
}

/// The integer nearest to `n / d`; of two equally near ones the even one.
fn rounded_quotient(n: u128, d: u128) -> (r: u128)
    requires
        0 < d <= 0x8000_0000_0000_0000_0000_0000_0000_0000,
        n < 0x8000_0000_0000_0000_0000_0000_0000_0000,
    ensures
        r == round_half_even(n as int, d as int),
{
    let q: u128 = n / d;
    let r: u128 = n % d;
    assert(q <= n) by (nonlinear_arith)
        requires
            q == n / d,
            d > 0,
    ;
    if r < d - r || r == d - r && q % 2 == 0 {
        q
    } else {
        q + 1
    }
}

/// `p` rounded to 53 significant bits, ties to even.
fn rounded_to_double(p: u128) -> (r: u128)
    requires
        p <= 0x20_0000_0000_0000_0000_0000_0000,
    ensures
        r == round_to_double(p as int),
{
    let mut rest: u128 = p;
    let mut unit: u128 = 1;
    while rest >= 0x20_0000_0000_0000
        invariant
            excess_unit(p as int) == unit * excess_unit(rest as int),
            1 <= unit,
            rest * unit <= p,
            p <= 0x20_0000_0000_0000_0000_0000_0000,
        decreases rest,
    {
        let ghost u = excess_unit(rest as int / 2);
        assert((2 * unit) * u == unit * (2 * u)) by (nonlinear_arith);
        assert((rest as int / 2) * (2 * unit) <= rest * unit) by (nonlinear_arith)
            requires
                0 <= rest,
                1 <= unit,
        ;
        assert(unit <= p) by (nonlinear_arith)
            requires
                rest * unit <= p,
                rest >= 1,
        ;
        rest = rest / 2;
        unit = 2 * unit;
    }
    proof {
        lemma_excess_unit(p as int);
        lemma_round_to_double(p as int);
    }
    rounded_quotient(p, unit) * unit
}

/// The size at which an image of `width` by `height` pixels is to be shown: within the
/// configured limits, of the same shape, and never enlarged.
pub fn constrained_dimensions(width: u32, height: u32, config: &Config) -> (r: (u32, u32))
    ensures
        (r.0 as int, r.1 as int) == constrained(width, height, *config),
{
    let width_limit: u32 = at_least_one(
        match config.max_pixels_w {
            Some(limit) => limit,
            None => width,
        },
    );
    let height_limit: u32 = at_least_one(
        match config.max_pixels_h {
            Some(limit) => limit,
            None => height,
        },
    );
    let scale_w: Ratio = Ratio::of(width_limit, at_least_one(width));
    let scale_h: Ratio = Ratio::of(height_limit, at_least_one(height));
    let scale: Ratio = scale_w.min(scale_h).min(Ratio::one());
    (scale.scale(width), scale.scale(height))
}

fn at_least_one(n: u32) -> (r: u32)
    ensures
        r == larger(n as int, 1),
{
    if n >= 1 {
        n
    } else {
        1
    }
}

proof fn lemma_smaller(a: Double, b: Double, c: Double)
    requires
        0 <= a.significand,
        0 < a.unit,
        0 <= b.significand,
        0 < b.unit,
        0 <= c.significand,
        0 < c.unit,
    ensures
        at_most(smaller(smaller(a, b), c), a),
        at_most(smaller(smaller(a, b), c), b),
        at_most(smaller(smaller(a, b), c), c),
{
    let m = smaller(a, b);
    if !at_most(m, c) {
        lemma_at_most_trans(c, m, a);
        lemma_at_most_trans(c, m, b);
    }
}

proof fn lemma_at_most_trans(a: Double, b: Double, c: Double)
    requires
        0 <= a.significand,
        0 < a.unit,
        0 <= b.significand,
        0 < b.unit,
        0 <= c.significand,
        0 < c.unit,
        at_most(a, b),
        at_most(b, c),
    ensures
        at_most(a, c),
{
    let x = a.significand * c.unit;
    let y = c.significand * a.unit;
    let u = a.significand * b.unit;
    let v = b.significand * a.unit;
    let s = b.significand * c.unit;
    let t = c.significand * b.unit;
    assert(u * c.unit <= v * c.unit) by (nonlinear_arith)
        requires
            u <= v,
            0 < c.unit,
    ;
    assert(s * a.unit <= t * a.unit) by (nonlinear_arith)
        requires
            s <= t,
            0 < a.unit,
    ;
    assert(x * b.unit == u * c.unit) by (nonlinear_arith)
        requires
            x == a.significand * c.unit,
            u == a.significand * b.unit,
    ;
    assert(v * c.unit == s * a.unit) by (nonlinear_arith)
        requires
            v == b.significand * a.unit,
            s == b.significand * c.unit,
    ;
    assert(y * b.unit == t * a.unit) by (nonlinear_arith)
        requires
            y == c.significand * a.unit,
            t == c.significand * b.unit,
    ;
    assert(x <= y) by (nonlinear_arith)
        requires
            x * b.unit <= y * b.unit,
            0 < b.unit,
    ;
}

/// The shown size has no side below one pixel, none above its limit, and none larger than
/// the image's own.
pub proof fn law_constrained_is_within_limits(width: u32, height: u32, config: Config)
    ensures
        1 <= constrained(width, height, config).0 <= side_limit(config.max_pixels_w, width),
        1 <= constrained(width, height, config).1 <= side_limit(config.max_pixels_h, height),
        constrained(width, height, config).0 <= larger(width as int, 1),
        constrained(width, height, config).1 <= larger(height as int, 1),
{
    let wl = side_limit(config.max_pixels_w, width);
    let hl = side_limit(config.max_pixels_h, height);
    let w = quotient(wl, larger(width as int, 1));
    let h = quotient(hl, larger(height as int, 1));
    let x = shrink_ratio(width, height, config);
    lemma_quotient(wl, larger(width as int, 1));
    lemma_quotient(hl, larger(height as int, 1));
    lemma_smaller(w, h, one());
    lemma_respects_limit(width as int, x, wl);
    lemma_respects_limit(height as int, x, hl);
    lemma_shrinks(width as int, x);
    lemma_shrinks(height as int, x);
}

/// A size that is fitted has no side below one pixel and none above what it is fitted to.
pub proof fn law_fitted_is_within_limits(width: u32, height: u32, max_width: u32, max_height: u32)
    requires
        1 <= max_width,
        1 <= max_height,
    ensures
        1 <= fitted(width as int, height as int, max_width as int, max_height as int).0
            <= max_width,
        1 <= fitted(width as int, height as int, max_width as int, max_height as int).1
            <= max_height,
{
    let (w, h) = (width as int, height as int);
    let (mw, mh) = (max_width as int, max_height as int);
    if w > 0 {
        lemma_quotient(mw, w);
    }
    if h > 0 {
        lemma_quotient(mh, h);
    }
    if w > 0 && h > 0 {
        let x = smaller(quotient(mw, w), quotient(mh, h));
        lemma_respects_limit(w, x, mw);
        lemma_respects_limit(h, x, mh);
    } else if w > 0 {
        lemma_respects_limit(w, quotient(mw, w), mw);
        lemma_nothing_scaled(quotient(mw, w));
    } else if h > 0 {
        lemma_respects_limit(h, quotient(mh, h), mh);
        lemma_nothing_scaled(quotient(mh, h));
    } else {
        lemma_nothing_scaled(quotient(mh, h));
    }
}

/// A side without pixels has none at any ratio.
proof fn lemma_nothing_scaled(x: Double)
    requires
        0 < x.unit,
    ensures
        nearest(times(0, x)) == 0,
{
    assert(0 * x.significand == 0);
    assert(round_half_even(0, 1) == 0);
    assert(x.unit / (2 * x.unit) == 0) by (nonlinear_arith)
        requires
            0 < x.unit,
    ;
}

/// An image within the limits is shown at its own size.
pub proof fn law_small_images_keep_their_size(width: u32, height: u32, config: Config)
    requires
        1 <= width <= side_limit(config.max_pixels_w, width),
        1 <= height <= side_limit(config.max_pixels_h, height),
    ensures
        constrained(width, height, config) == (width as int, height as int),
{
    let wl = side_limit(config.max_pixels_w, width);
    let hl = side_limit(config.max_pixels_h, height);
    let w = quotient(wl, width as int);
    let h = quotient(hl, height as int);
    let x = shrink_ratio(width, height, config);
    lemma_quotient(wl, width as int);
    lemma_quotient(hl, height as int);
    lemma_smaller(w, h, one());
    assert(x.significand == x.unit) by {
        assert(w.significand >= w.unit && h.significand >= h.unit);
        let a = one();
        assert(x.significand <= x.unit) by (nonlinear_arith)
            requires
                a.significand == 0x10_0000,
                a.unit == 0x10_0000,
                x.significand * a.unit <= a.significand * x.unit,
        ;
        assert(x == w || x == h || x == a);
    }
    lemma_unscaled(width as int, x);
    lemma_unscaled(height as int, x);
}

/// The ratio 1 leaves a size as it is, however the ratio is written.
proof fn lemma_unscaled(n: int, x: Double)
    requires
        1 <= n <= u32::MAX,
        0 < x.unit,
        x.significand == x.unit,
    ensures
        nearest(times(n, x)) == n,
{
    let p = n * x.unit;
    assert(p >= 0 && p <= 0xffff_ffff * x.unit) by (nonlinear_arith)
        requires
            p == n * x.unit,
            1 <= n <= 0xffff_ffff,
            0 < x.unit,
    ;
    let r = round_to_double(p);
    lemma_round_to_double(p);
    assert(2 * (r - p) < x.unit && 2 * (p - r) < x.unit);
    let top = 2 * r + x.unit;
    let bottom = 2 * x.unit;
    assert(top / bottom == n) by (nonlinear_arith)
        requires
            p == n * x.unit,
            0 < x.unit,
            2 * (r - p) < x.unit,
            2 * (p - r) < x.unit,
            top == 2 * r + x.unit,
            bottom == 2 * x.unit,
    {
        assert(bottom * n <= top < bottom * n + bottom) by (nonlinear_arith)
            requires
                p == n * x.unit,
                2 * (r - p) < x.unit,
                2 * (p - r) < x.unit,
                top == 2 * r + x.unit,
                bottom == 2 * x.unit,
        ;
        vstd::arithmetic::div_mod::lemma_fundamental_div_mod_converse(top, bottom, n, top - bottom * n);
    }
}

/// `shown` is within half a pixel of a side of `size` pixels that is scaled as `own` pixels are to
/// `limit`, but for a hair that the precision of doubles leaves.
pub open spec fn is_near(size: int, shown: int, limit: int, own: int) -> bool {
    &&& 0x40_0000 * (shown * own - size * limit) <= 0x20_0006 * own
    &&& 0x40_0000 * (size * limit - shown * own) <= 0x20_0006 * own
}

/// A side of `size` pixels is shown with `shown` of them when it is scaled as `own` pixels are to
/// `limit`: the nearest number, but at least one.
pub open spec fn is_scaled_side(size: int, shown: int, limit: int, own: int) -> bool {
    is_near(size, shown, limit, own) && shown >= 1 || shown == 1 && is_near(size, 0, limit, own)
}

/// The rounded quotient `n / d` is at most one part in `2^53` below the exact one.
proof fn lemma_quotient_below(n: int, d: int)
    requires
        0 < n,
        0 < d,
    ensures
        ({
            let q = quotient(n, d);
            0x20_0000_0000_0000 * (n * q.unit - q.significand * d) <= n * q.unit
        }),
{
    let q = quotient(n, d);
    lemma_quotient_unit(n, d);
    assert(0 <= n * q.unit) by (nonlinear_arith)
        requires
            0 < n,
            0 < q.unit,
    ;
    lemma_round_half_even(n * q.unit, d);
}

/// A side is scaled to the nearest number of pixels.
proof fn lemma_scaled_is_near(size: int, limit: int, own: int)
    requires
        0 <= size <= u32::MAX,
        0 < limit <= own,
    ensures
        is_near(size, nearest(times(size, quotient(limit, own))), limit, own),
{
    let x = quotient(limit, own);
    let (s, u) = (x.significand, x.unit);
    lemma_quotient(limit, own);
    lemma_quotient_below(limit, own);
    let k: int = 0x20_0000_0000_0000;
    let p = size * s;
    assert(p >= 0) by (nonlinear_arith)
        requires
            p == size * s,
            size >= 0,
            s >= 0,
    ;
    let r = round_to_double(p);
    lemma_round_to_double(p);
    let c = nearest(times(size, x));
    let top = 2 * r + u;
    vstd::arithmetic::div_mod::lemma_fundamental_div_mod(top, 2 * u);
    vstd::arithmetic::div_mod::lemma_mod_bound(top, 2 * u);
    assert(c == top / (2 * u));
    let uc = u * c;
    assert((2 * u) * c == 2 * uc) by (nonlinear_arith)
        requires
            uc == u * c,
    ;
    assert(-u <= 2 * (uc - r) <= u);
    let area = own * u;
    let t = size * (limit * u);
    let pd = p * own;
    let rd = r * own;
    let ucd = uc * own;
    assert(k * (pd - t) <= t && k * (t - pd) <= t && t >= 0) by (nonlinear_arith)
        requires
            k * (s * own - limit * u) <= limit * u,
            k * (limit * u - s * own) <= limit * u,
            p == size * s,
            pd == p * own,
            t == size * (limit * u),
            size >= 0,
            limit > 0,
            u > 0,
    ;
    assert(k * (rd - pd) <= pd && k * (pd - rd) <= pd) by (nonlinear_arith)
        requires
            k * (r - p) <= p,
            k * (p - r) <= p,
            rd == r * own,
            pd == p * own,
            own > 0,
    ;
    assert(-area <= 2 * (ucd - rd) <= area) by (nonlinear_arith)
        requires
            -u <= 2 * (uc - r) <= u,
            ucd == uc * own,
            rd == r * own,
            area == own * u,
            own > 0,
    ;
    assert(t <= 0x1_0000_0000 * area) by (nonlinear_arith)
        requires
            t == size * (limit * u),
            area == own * u,
            0 <= size <= 0x1_0000_0000,
            0 < limit <= own,
            u > 0,
    ;
    assert(0x20_0000 * (rd - t) <= 3 * area && 0x20_0000 * (t - rd) <= 3 * area);
    assert(0x40_0000 * (ucd - t) <= 0x20_0006 * area && 0x40_0000 * (t - ucd) <= 0x20_0006 * area);
    let gap = c * own - size * limit;
    assert(ucd - t == gap * u) by (nonlinear_arith)
        requires
            ucd == uc * own,
            uc == u * c,
            t == size * (limit * u),
            gap == c * own - size * limit,
    ;
    assert(0x40_0000 * gap <= 0x20_0006 * own && 0x40_0000 * (-gap) <= 0x20_0006 * own)
        by (nonlinear_arith)
        requires
            0x40_0000 * (gap * u) <= 0x20_0006 * area,
            0x40_0000 * (-(gap * u)) <= 0x20_0006 * area,
            area == own * u,
            u > 0,
    ;
}

/// The shown size is the image's own, or both sides are scaled alike: as one of them is to its
/// limit, which is then below it. So the shape is kept, and the image is shown as large as the
/// limits allow.
pub proof fn law_sides_are_scaled_alike(width: u32, height: u32, config: Config)
    requires
        width > 0,
        height > 0,
    ensures
        ({
            let (w, h) = constrained(width, height, config);
            ||| w == width && h == height
            ||| {
                &&& config.max_pixels_w matches Some(limit)
                &&& limit < width
                &&& is_scaled_side(width as int, w, larger(limit as int, 1), width as int)
                &&& is_scaled_side(height as int, h, larger(limit as int, 1), width as int)
            }
            ||| {
                &&& config.max_pixels_h matches Some(limit)
                &&& limit < height
                &&& is_scaled_side(width as int, w, larger(limit as int, 1), height as int)
                &&& is_scaled_side(height as int, h, larger(limit as int, 1), height as int)
            }
        }),
{
    let wl = side_limit(config.max_pixels_w, width);
    let hl = side_limit(config.max_pixels_h, height);
    let w = quotient(wl, width as int);
    let h = quotient(hl, height as int);
    let x = shrink_ratio(width, height, config);
    lemma_quotient(wl, width as int);
    lemma_quotient(hl, height as int);
    lemma_smaller(w, h, one());
    let a = one();
    assert(x.significand <= x.unit) by (nonlinear_arith)
        requires
            a.significand == 0x10_0000,
            a.unit == 0x10_0000,
            x.significand * a.unit <= a.significand * x.unit,
    ;
    assert(x == w || x == h || x == a);
    if x.significand == x.unit {
        lemma_unscaled(width as int, x);
        lemma_unscaled(height as int, x);
    } else if x == w {
        assert(wl < width);
        lemma_scaled_is_near(width as int, wl, width as int);
        lemma_scaled_is_near(height as int, wl, width as int);
        lemma_nearest_is_not_negative(width as int, x);
        lemma_nearest_is_not_negative(height as int, x);
    } else {
        assert(hl < height);
        lemma_scaled_is_near(width as int, hl, height as int);
        lemma_scaled_is_near(height as int, hl, height as int);
        lemma_nearest_is_not_negative(width as int, x);
        lemma_nearest_is_not_negative(height as int, x);
    }
}

proof fn lemma_nearest_is_not_negative(n: int, x: Double)
    requires
        0 <= n,
        0 <= x.significand,
        0 < x.unit,
    ensures
        nearest(times(n, x)) >= 0,
{
    let p = n * x.significand;
    assert(p >= 0) by (nonlinear_arith)
        requires
            p == n * x.significand,
            n >= 0,
            x.significand >= 0,
    ;
    lemma_round_to_double(p);
    vstd::arithmetic::div_mod::lemma_div_pos_is_pos(
        2 * round_to_double(p) + x.unit,
        2 * x.unit,
    );
}

} // verus!
