//! The isotropic Gaussian kernel in fixed point.
//!
//! A standard deviation is given in 256ths of a pixel (`SIGMA_ONE`). Inside
//! the library it is carried in 65536ths (`FINE_ONE`), so that the product
//! of a standard deviation and a factor, both in 256ths, is held exactly.
//! The weight at squared distance `d2` stands for
//! `exp(-d2 / (2 sigma^2)) / (2 pi sigma^2)`, in units of `1 / ONE`.
//!
//! The exponential is evaluated as `(1 - t / 2^32)^(2^32)` with
//! `t = d2 / (2 sigma^2)`: thirty-two squarings of `1 - t / 2^32` in units of
//! `2^-62`. The relative distance of that power from `exp(-t)` is about
//! `t^2 / 2^33`, below `10^-8` inside the window of three standard
//! deviations, and every step is monotone, so the weights fall with the
//! distance as those of the real kernel do.

use vstd::prelude::*;
use vstd::arithmetic::div_mod::{lemma_div_is_ordered, lemma_div_is_ordered_by_denominator};
use crate::color::ONE;
use crate::error::DogError;

verus! {

/// The fixed-point representation of a standard deviation of one pixel.
pub const SIGMA_ONE: u32 = 256;

/// The finer representation of a standard deviation of one pixel.
pub const FINE_ONE: u64 = 65536;

/// The fixed-point representation of 1.0 while the exponential is
/// evaluated: `2^62`.
pub const DECAY_ONE: u64 = 4611686018427387904;

/// The number of squarings that raise `1 - t / 2^32` to the power `2^32`.
pub const DECAY_ROUNDS: u32 = 32;

/// `2 pi`, in units of `2^-28`.
pub const TWO_PI_Q28: u64 = 1686629713;

/// `DECAY_ONE * FINE_ONE^2 / (2 * 2^32)`: the factor that turns
/// `d2 / sigma^2` into `t / 2^32` in units of `1 / DECAY_ONE`.
pub const DECAY_STEP: u64 = 2305843009213693952;

/// `ONE * FINE_ONE^2 * 2^28 / DECAY_ONE`: the factor that turns
/// `decay / (TWO_PI_Q28 * sigma^2)` into `decay / (2 pi sigma^2)` in units of
/// `1 / ONE`.
pub const NORM_SCALE: u64 = 288230376151711744;

/// Every weight is below this bound: `2^90`.
pub const WEIGHT_LIMIT: u128 = 1237940039285380274899124224;

/// From this standard deviation on, in 65536ths of a pixel, every weight
/// rounds to zero: `2^45`.
pub const FINE_VANISHING: u64 = 35184372088832;

/// Up to this standard deviation, in 65536ths of a pixel, the weight at the
/// centre falls strictly as the standard deviation grows: `2^30`.
pub const FINE_STRICT: u64 = 1073741824;

/// The squared distances that the weight is computed for lie below this
/// bound: `2^66`.
pub const DISTANCE_LIMIT: u128 = 73786976294838206464;

/// No window sums to more than this: `255 * 2^92`.
pub const WINDOW_LIMIT: u128 = 1262698840071087880397106708480;

/// A standard deviation in 65536ths of a pixel, given in 256ths.
pub open spec fn fine_of(sigma: int) -> int {
    sigma * 256
}

/// The square of a fixed-point fraction.
pub open spec fn squared(y: int) -> int {
    y * y / (DECAY_ONE as int)
}

/// `y` squared `n` times over.
pub open spec fn squared_times(y: int, n: nat) -> int
    decreases n,
{
    if n == 0 {
        y
    } else {
        squared_times(squared(y), (n - 1) as nat)
    }
}

/// `1 - t / 2^32` in fixed point, or zero where that is negative.
pub open spec fn decay_base(d2: int, fine: int) -> int {
    let step = d2 * DECAY_STEP / (fine * fine);
    if step >= DECAY_ONE {
        0
    } else {
        DECAY_ONE - step
    }
}

/// `(1 - t / 2^32)^(2^32)` in fixed point, for `t = d2 / (2 sigma^2)`.
pub open spec fn gaussian_decay(d2: int, fine: int) -> int {
    squared_times(decay_base(d2, fine), DECAY_ROUNDS as nat)
}

/// The kernel weight at squared distance `d2` for the standard deviation
/// `fine / FINE_ONE`; zero for a zero standard deviation.
pub open spec fn gaussian_weight(d2: int, fine: int) -> int {
    if fine <= 0 {
        0
    } else {
        gaussian_decay(d2, fine) * NORM_SCALE / (TWO_PI_Q28 * (fine * fine))
    }
}

/// The squared length of an offset.
pub open spec fn squared_distance(dx: int, dy: int) -> int {
    dx * dx + dy * dy
}

/// Three standard deviations in whole pixels, rounded up.
pub open spec fn radius_of(fine: int) -> int {
    (3 * fine + (FINE_ONE - 1)) / (FINE_ONE as int)
}

/// Squaring a fraction between zero and one keeps it there and does not
/// raise it.
pub proof fn lemma_squared_bounded(y: int)
    requires
        0 <= y <= DECAY_ONE,
    ensures
        0 <= squared(y) <= y,
{
    assert(0 <= y * y <= y * (DECAY_ONE as int)) by (nonlinear_arith)
        requires
            0 <= y <= DECAY_ONE,
    ;
    lemma_div_is_ordered(0, y * y, DECAY_ONE as int);
    lemma_div_is_ordered(y * y, y * (DECAY_ONE as int), DECAY_ONE as int);
    vstd::arithmetic::div_mod::lemma_div_by_multiple(y, DECAY_ONE as int);
}

/// A larger fraction has no smaller square.
pub proof fn lemma_squared_monotone(a: int, b: int)
    requires
        0 <= a <= b,
    ensures
        squared(a) <= squared(b),
{
    assert(a * a <= b * b) by (nonlinear_arith)
        requires
            0 <= a <= b,
    ;
    lemma_div_is_ordered(a * a, b * b, DECAY_ONE as int);
}

/// Repeated squaring keeps a fraction between zero and one and does not
/// raise it.
pub proof fn lemma_squared_times_bounded(y: int, n: nat)
    requires
        0 <= y <= DECAY_ONE,
    ensures
        0 <= squared_times(y, n) <= y,
    decreases n,
{
    if n > 0 {
        lemma_squared_bounded(y);
        lemma_squared_times_bounded(squared(y), (n - 1) as nat);
    }
}

/// Repeated squaring keeps the order of two fractions.
pub proof fn lemma_squared_times_monotone(a: int, b: int, n: nat)
    requires
        0 <= a <= b <= DECAY_ONE,
    ensures
        squared_times(a, n) <= squared_times(b, n),
    decreases n,
{
    if n > 0 {
        lemma_squared_monotone(a, b);
        lemma_squared_bounded(a);
        lemma_squared_bounded(b);
        lemma_squared_times_monotone(squared(a), squared(b), (n - 1) as nat);
    }
}

/// Squaring one gives one.
pub proof fn lemma_squared_times_one(n: nat)
    ensures
        squared_times(DECAY_ONE as int, n) == DECAY_ONE,
    decreases n,
{
    if n > 0 {
        vstd::arithmetic::div_mod::lemma_div_by_multiple(DECAY_ONE as int, DECAY_ONE as int);
        lemma_squared_times_one((n - 1) as nat);
    }
}

/// The base of the decay lies between zero and one and falls as the
/// distance grows.
pub proof fn lemma_decay_base_monotone(near: int, far: int, fine: int)
    requires
        0 <= near <= far,
        fine > 0,
    ensures
        0 <= decay_base(far, fine) <= decay_base(near, fine) <= DECAY_ONE,
{
    let s2 = fine * fine;
    assert(s2 > 0) by (nonlinear_arith)
        requires
            fine > 0,
            s2 == fine * fine,
    ;
    assert(0 <= near * DECAY_STEP <= far * DECAY_STEP) by (nonlinear_arith)
        requires
            0 <= near <= far,
    ;
    lemma_div_is_ordered(0, near * DECAY_STEP, s2);
    lemma_div_is_ordered(near * DECAY_STEP, far * DECAY_STEP, s2);
}

/// The decay lies between zero and one.
pub proof fn lemma_decay_bounded(d2: int, fine: int)
    requires
        0 <= d2,
        fine > 0,
    ensures
        0 <= gaussian_decay(d2, fine) <= DECAY_ONE,
{
    lemma_decay_base_monotone(0, d2, fine);
    lemma_squared_times_bounded(decay_base(d2, fine), DECAY_ROUNDS as nat);
}

/// The weights fall as the distance grows: the weight at a larger squared
/// distance never exceeds the weight at a smaller one.
pub proof fn lemma_weight_monotone(near: int, far: int, fine: int)
    requires
        0 <= near <= far,
    ensures
        gaussian_weight(far, fine) <= gaussian_weight(near, fine),
{
    if fine > 0 {
        let denom = TWO_PI_Q28 * (fine * fine);
        assert(denom > 0) by (nonlinear_arith)
            requires
                fine > 0,
                denom == TWO_PI_Q28 * (fine * fine),
        ;
        lemma_decay_base_monotone(near, far, fine);
        lemma_squared_times_monotone(
            decay_base(far, fine),
            decay_base(near, fine),
            DECAY_ROUNDS as nat,
        );
        let e_far = gaussian_decay(far, fine);
        let e_near = gaussian_decay(near, fine);
        assert(e_far * NORM_SCALE <= e_near * NORM_SCALE) by (nonlinear_arith)
            requires
                e_far <= e_near,
        ;
        lemma_div_is_ordered(e_far * NORM_SCALE, e_near * NORM_SCALE, denom);
    }
}

/// A squared distance is not negative, and mirroring or swapping the offset
/// does not change it.
pub proof fn lemma_squared_distance(dx: int, dy: int)
    ensures
        squared_distance(dx, dy) >= 0,
        squared_distance(-dx, dy) == squared_distance(dx, dy),
        squared_distance(dx, -dy) == squared_distance(dx, dy),
        squared_distance(dy, dx) == squared_distance(dx, dy),
{
    assert((-dx) * (-dx) == dx * dx) by (nonlinear_arith);
    assert((-dy) * (-dy) == dy * dy) by (nonlinear_arith);
    assert(dx * dx >= 0 && dy * dy >= 0) by (nonlinear_arith);
}

/// At the centre the weight is exactly `1 / (2 pi sigma^2)` in fixed point.
pub proof fn lemma_weight_centre(fine: int)
    requires
        fine > 0,
    ensures
        gaussian_weight(0, fine) == DECAY_ONE * NORM_SCALE / (TWO_PI_Q28 * (fine * fine)),
{
    assert(fine * fine > 0) by (nonlinear_arith)
        requires
            fine > 0,
    ;
    assert(0int * DECAY_STEP / (fine * fine) == 0) by (nonlinear_arith)
        requires
            fine * fine > 0,
    ;
    lemma_squared_times_one(DECAY_ROUNDS as nat);
}

/// The weight at the centre is the largest of a kernel.
pub proof fn lemma_weight_peak(dx: int, dy: int, fine: int)
    ensures
        gaussian_weight(squared_distance(dx, dy), fine) <= gaussian_weight(
            squared_distance(0, 0),
            fine,
        ),
{
    lemma_squared_distance(dx, dy);
    assert(squared_distance(0, 0) == 0) by (nonlinear_arith);
    lemma_weight_monotone(0, squared_distance(dx, dy), fine);
}

/// A wider kernel has no higher peak: the weight at the centre never rises
/// as the standard deviation grows.
pub proof fn lemma_centre_weight_falls(narrow: int, wide: int)
    requires
        0 < narrow <= wide,
    ensures
        gaussian_weight(0, wide) <= gaussian_weight(0, narrow),
{
    lemma_weight_centre(narrow);
    lemma_weight_centre(wide);
    let low = TWO_PI_Q28 * (narrow * narrow);
    let high = TWO_PI_Q28 * (wide * wide);
    assert(1 <= low <= high) by (nonlinear_arith)
        requires
            0 < narrow <= wide,
            low == TWO_PI_Q28 * (narrow * narrow),
            high == TWO_PI_Q28 * (wide * wide),
            TWO_PI_Q28 == 1686629713,
    ;
    lemma_div_is_ordered_by_denominator(DECAY_ONE * NORM_SCALE, low, high);
}

/// Up to `FINE_STRICT` the weight at the centre falls with every step of the
/// standard deviation.
pub proof fn lemma_centre_weight_step(fine: int)
    requires
        0 < fine < FINE_STRICT,
    ensures
        gaussian_weight(0, fine + 1) < gaussian_weight(0, fine),
{
    lemma_weight_centre(fine);
    lemma_weight_centre(fine + 1);
    let a: int = DECAY_ONE * NORM_SCALE;
    let b: int = TWO_PI_Q28 as int;
    let g: int = fine * (fine + 1);
    let d1: int = b * (fine * fine);
    let d2: int = b * ((fine + 1) * (fine + 1));
    let q1: int = a / d1;
    let q2: int = a / d2;
    assert(a == 0x1_0000_0000_0000_0000_0000_0000_0000_00);
    assert(0 < d1 < d2 && d2 - d1 == b * (2 * fine + 1)) by (nonlinear_arith)
        requires
            0 < fine,
            b > 0,
            d1 == b * (fine * fine),
            d2 == b * ((fine + 1) * (fine + 1)),
    ;
    assert(2 * (g * g) <= (2 * fine + 1) * ((fine + 1) * g)) by (nonlinear_arith)
        requires
            0 < fine,
            g == fine * (fine + 1),
    ;
    assert(0 <= (fine + 1) * g <= 0x40000000 * 0x40000000 * 0x40000000) by (nonlinear_arith)
        requires
            0 < fine < 0x40000000,
            g == fine * (fine + 1),
    ;
    let m: int = (fine + 1) * g;
    assert((2 * fine + 1) * m <= (2 * fine + 1) * (0x40000000 * 0x40000000 * 0x40000000))
        by (nonlinear_arith)
        requires
            0 < fine,
            m <= 0x40000000 * 0x40000000 * 0x40000000,
    ;
    assert(b * (g * g) <= a * (2 * fine + 1)) by (nonlinear_arith)
        requires
            0 < fine,
            0 <= g * g,
            2 * (g * g) <= (2 * fine + 1) * (0x40000000 * 0x40000000 * 0x40000000),
            0 < b <= 0x8000_0000,
            a == 0x1_0000_0000_0000_0000_0000_0000_0000_00,
    ;
    assert(d1 * d2 == b * (b * (g * g))) by (nonlinear_arith)
        requires
            g == fine * (fine + 1),
            d1 == b * (fine * fine),
            d2 == b * ((fine + 1) * (fine + 1)),
    ;
    assert(d1 * d2 <= a * (d2 - d1)) by (nonlinear_arith)
        requires
            d1 * d2 == b * (b * (g * g)),
            b * (g * g) <= a * (2 * fine + 1),
            d2 - d1 == b * (2 * fine + 1),
            b > 0,
    ;
    assert(0 <= q2 && q2 * d2 <= a) by (nonlinear_arith)
        requires
            q2 == a / d2,
            d2 > 0,
            a >= 0,
    ;
    assert((q2 + 1) * d1 <= a) by (nonlinear_arith)
        requires
            q2 * d2 <= a,
            d1 * d2 <= a * (d2 - d1),
            0 < d1 < d2,
            0 <= q2,
            a >= 0,
    ;
    assert(q2 + 1 <= q1) by (nonlinear_arith)
        requires
            (q2 + 1) * d1 <= a,
            q1 == a / d1,
            d1 > 0,
    ;
}

/// Up to `FINE_STRICT`, sixteen thousand pixels, a wider kernel has a
/// strictly lower peak. Beyond it neighbouring standard deviations may
/// share a peak, because a weight is a whole number of units.
pub proof fn lemma_centre_weight_falls_strictly(narrow: int, wide: int)
    requires
        0 < narrow < wide <= FINE_STRICT,
    ensures
        gaussian_weight(0, wide) < gaussian_weight(0, narrow),
    decreases wide - narrow,
{
    lemma_centre_weight_step(wide - 1);
    if narrow < wide - 1 {
        lemma_centre_weight_falls_strictly(narrow, wide - 1);
    }
}

/// For standard deviations in 256ths of a pixel up to `FINE_STRICT / 256`, a
/// wider kernel has a strictly lower peak.
pub proof fn lemma_peak_falls_with_sigma(narrow: int, wide: int)
    requires
        0 < narrow < wide,
        fine_of(wide) <= FINE_STRICT,
    ensures
        gaussian_weight(0, fine_of(wide)) < gaussian_weight(0, fine_of(narrow)),
{
    lemma_centre_weight_falls_strictly(fine_of(narrow), fine_of(wide));
}

/// Every weight is at least zero and below `WEIGHT_LIMIT`.
pub proof fn lemma_weight_limit(d2: int, fine: int)
    requires
        0 <= d2,
    ensures
        0 <= gaussian_weight(d2, fine) < WEIGHT_LIMIT,
{
    if fine > 0 {
        let denom = TWO_PI_Q28 * (fine * fine);
        assert(denom >= TWO_PI_Q28) by (nonlinear_arith)
            requires
                fine > 0,
                denom == TWO_PI_Q28 * (fine * fine),
        ;
        lemma_decay_bounded(d2, fine);
        let e = gaussian_decay(d2, fine);
        assert(0 <= e * NORM_SCALE < WEIGHT_LIMIT * denom) by (nonlinear_arith)
            requires
                0 <= e <= DECAY_ONE,
                denom >= TWO_PI_Q28,
                DECAY_ONE == 4611686018427387904,
                NORM_SCALE == 288230376151711744,
                WEIGHT_LIMIT == 1237940039285380274899124224,
                TWO_PI_Q28 == 1686629713,
        ;
        assert(0 <= e * NORM_SCALE / denom < WEIGHT_LIMIT) by (nonlinear_arith)
            requires
                0 <= e * NORM_SCALE < WEIGHT_LIMIT * denom,
                denom > 0,
        ;
    }
}

/// From `FINE_VANISHING` on, every weight is zero.
pub proof fn lemma_weight_vanishes(d2: int, fine: int)
    requires
        0 <= d2,
        fine >= FINE_VANISHING,
    ensures
        gaussian_weight(d2, fine) == 0,
{
    let s2 = fine * fine;
    assert(s2 >= 0x400_0000_0000_0000_0000_0000) by (nonlinear_arith)
        requires
            fine >= 0x2000_0000_0000,
            s2 == fine * fine,
    ;
    let denom = TWO_PI_Q28 * s2;
    lemma_decay_bounded(d2, fine);
    let e = gaussian_decay(d2, fine);
    assert(0 <= e * NORM_SCALE < denom) by (nonlinear_arith)
        requires
            0 <= e <= 4611686018427387904,
            NORM_SCALE == 288230376151711744,
            s2 >= 0x400_0000_0000_0000_0000_0000,
            denom == 1686629713 * s2,
    ;
    assert(e * NORM_SCALE / denom == 0) by (nonlinear_arith)
        requires
            0 <= e * NORM_SCALE < denom,
    ;
}

/// The largest term of a window sum: a full sample at the centre.
pub open spec fn tap_cap(fine: int) -> int {
    255 * gaussian_weight(0, fine)
}

/// The largest sum of a row of the window.
pub open spec fn row_cap(fine: int) -> int {
    2 * radius_of(fine) * tap_cap(fine)
}

/// The largest sum of a window.
pub open spec fn window_cap(fine: int) -> int {
    2 * radius_of(fine) * row_cap(fine)
}

/// A window of three standard deviations holds little more than the whole
/// kernel: no window sums to more than `WINDOW_LIMIT`.
pub proof fn lemma_window_cap(fine: int)
    requires
        fine > 0,
    ensures
        1 <= radius_of(fine) <= fine,
        0 <= tap_cap(fine) <= row_cap(fine) <= window_cap(fine) <= WINDOW_LIMIT,
{
    let r = radius_of(fine);
    let w = gaussian_weight(0, fine);
    let s2 = fine * fine;
    let denom = TWO_PI_Q28 * s2;
    lemma_weight_centre(fine);
    lemma_weight_limit(0, fine);
    assert(1 <= r <= fine);
    assert(0 < s2 && 0 < denom) by (nonlinear_arith)
        requires
            fine > 0,
            s2 == fine * fine,
            denom == TWO_PI_Q28 * s2,
            TWO_PI_Q28 == 1686629713,
    ;
    let a: int = DECAY_ONE * NORM_SCALE;
    assert(w * denom <= a) by (nonlinear_arith)
        requires
            w == a / denom,
            denom > 0,
            a >= 0,
    ;
    assert(s2 * w <= 0x400_0000_0000_0000_0000_0000) by (nonlinear_arith)
        requires
            w * denom <= a,
            denom == 1686629713 * s2,
            a == 0x1_0000_0000_0000_0000_0000_0000_0000_00,
            0 <= w,
            0 < s2,
    ;
    assert(r * r <= s2) by (nonlinear_arith)
        requires
            1 <= r <= fine,
            s2 == fine * fine,
    ;
    assert(r * r * w <= s2 * w) by (nonlinear_arith)
        requires
            0 <= r * r <= s2,
            0 <= w,
    ;
    assert(window_cap(fine) == 1020 * (r * r * w) && row_cap(fine) == 510 * (r * w)
        && row_cap(fine) <= window_cap(fine) && tap_cap(fine) <= row_cap(fine)) by (nonlinear_arith)
        requires
            window_cap(fine) == 2 * r * (2 * r * (255 * w)),
            row_cap(fine) == 2 * r * (255 * w),
            tap_cap(fine) == 255 * w,
            1 <= r,
            0 <= w,
    ;
}

/// The kernel weight at squared distance `d2` from the centre, for the
/// standard deviation `fine / FINE_ONE`.
pub(crate) fn weight_at(d2: u128, fine: u64) -> (w: u128)
    requires
        fine > 0,
        d2 < DISTANCE_LIMIT,
    ensures
        w == gaussian_weight(d2 as int, fine as int),
        w < WEIGHT_LIMIT,
{
    proof {
        lemma_weight_limit(d2 as int, fine as int);
    }
    if fine >= FINE_VANISHING {
        proof {
            lemma_weight_vanishes(d2 as int, fine as int);
        }
        return 0;
    }
    assert(0 < fine * fine < 0x2000_0000_0000 * 0x2000_0000_0000) by (nonlinear_arith)
        requires
            0 < fine < 0x2000_0000_0000,
    ;
    let s2: u128 = (fine as u128) * (fine as u128);
    assert(d2 * DECAY_STEP < 0x4_0000_0000_0000_0000 * 0x2000_0000_0000_0000) by (nonlinear_arith)
        requires
            d2 < 0x4_0000_0000_0000_0000,
            DECAY_STEP == 0x2000_0000_0000_0000,
    ;
    let step: u128 = d2 * (DECAY_STEP as u128) / s2;
    let mut y: u128 = if step >= DECAY_ONE as u128 {
        0
    } else {
        DECAY_ONE as u128 - step
    };
    let mut round: u32 = 0;
    while round < DECAY_ROUNDS
        invariant
            round <= DECAY_ROUNDS,
            y <= DECAY_ONE,
            squared_times(y as int, (DECAY_ROUNDS - round) as nat) == gaussian_decay(
                d2 as int,
                fine as int,
            ),
        decreases DECAY_ROUNDS - round,
    {
        proof {
            lemma_squared_bounded(y as int);
            assert(y * y <= 0x4000_0000_0000_0000 * 0x4000_0000_0000_0000) by (nonlinear_arith)
                requires
                    y <= 0x4000_0000_0000_0000,
            ;
        }
        y = y * y / (DECAY_ONE as u128);
        round += 1;
    }
    proof {
        assert(0 < (TWO_PI_Q28 as int) * (s2 as int) < 0x8000_0000 * (0x2000_0000_0000
            * 0x2000_0000_0000)) by (nonlinear_arith)
            requires
                0 < s2 < 0x2000_0000_0000 * 0x2000_0000_0000,
                TWO_PI_Q28 == 1686629713,
        ;
        assert(y * NORM_SCALE <= 0x4000_0000_0000_0000 * 0x400_0000_0000_0000) by (nonlinear_arith)
            requires
                y <= 0x4000_0000_0000_0000,
                NORM_SCALE == 0x400_0000_0000_0000,
        ;
    }
    y * (NORM_SCALE as u128) / ((TWO_PI_Q28 as u128) * s2)
}

/// The kernel weight at the offset `(x, y)` from the centre, for the
/// standard deviation `sigma / SIGMA_ONE`, in units of `1 / ONE`. A zero
/// `sigma` is refused.
pub fn gaussian_filter(x: i32, y: i32, sigma: u32) -> (res: Result<u128, DogError>)
    ensures
        sigma == 0 ==> res == Err::<u128, DogError>(DogError::InvalidParameter),
        sigma > 0 ==> res == Ok::<u128, DogError>(
            gaussian_weight(squared_distance(x as int, y as int), fine_of(sigma as int)) as u128,
        ),
        sigma > 0 ==> 0 <= gaussian_weight(
            squared_distance(x as int, y as int),
            fine_of(sigma as int),
        ) < WEIGHT_LIMIT,
{
    if sigma == 0 {
        return Err(DogError::InvalidParameter);
    }
    let d2: u128 = squared_length(x as i64, y as i64);
    assert(d2 <= 0x8000_0000 * 0x8000_0000 + 0x8000_0000 * 0x8000_0000) by (nonlinear_arith)
        requires
            d2 == x * x + y * y,
            -0x8000_0000 <= x <= 0x8000_0000,
            -0x8000_0000 <= y <= 0x8000_0000,
    ;
    Ok(weight_at(d2, (sigma as u64) * 256))
}

/// `x * x + y * y`.
pub fn squared_length(x: i64, y: i64) -> (d2: u128)
    ensures
        d2 == squared_distance(x as int, y as int),
{
    let ax: u128 = if x < 0 {
        (-(x as i128)) as u128
    } else {
        x as u128
    };
    let ay: u128 = if y < 0 {
        (-(y as i128)) as u128
    } else {
        y as u128
    };
    assert(ax * ax == x * x && ax * ax <= 0x8000_0000_0000_0000 * 0x8000_0000_0000_0000)
        by (nonlinear_arith)
        requires
            ax == x || ax == -x,
            0 <= ax <= 0x8000_0000_0000_0000,
    ;
    assert(ay * ay == y * y && ay * ay <= 0x8000_0000_0000_0000 * 0x8000_0000_0000_0000)
        by (nonlinear_arith)
        requires
            ay == y || ay == -y,
            0 <= ay <= 0x8000_0000_0000_0000,
    ;
    ax * ax + ay * ay
}

/// The half-width of the window of a kernel: three standard deviations in
/// whole pixels, rounded up.
pub fn kernel_radius(sigma: u32) -> (radius: u32)
    ensures
        radius == radius_of(fine_of(sigma as int)),
        radius == (3 * sigma + (SIGMA_ONE - 1)) / (SIGMA_ONE as int),
{
    ((3 * (sigma as u64) + (SIGMA_ONE as u64 - 1)) / (SIGMA_ONE as u64)) as u32
}

/// The half-width of the window for a standard deviation in 65536ths of a
/// pixel.
pub fn fine_radius(fine: u64) -> (radius: u64)
    ensures
        radius == radius_of(fine as int),
{
    ((3 * (fine as u128) + (FINE_ONE as u128 - 1)) / (FINE_ONE as u128)) as u64
}

/// The weights of one kernel, computed once: a table over the distances
/// `0..span_x` along a row and `0..span_y` along a column. By symmetry the
/// entry for `(a, b)` serves the four offsets `(a, b)`, `(-a, b)`, `(a, -b)`
/// and `(-a, -b)`.
#[derive(Debug)]
pub struct Kernel {
    fine: u64,
    span_y: u32,
    columns: Vec<Vec<u128>>,
}

impl Kernel {
    /// The standard deviation in 65536ths of a pixel.
    pub closed spec fn spec_fine(&self) -> int {
        self.fine as int
    }

    pub closed spec fn span_x(&self) -> int {
        self.columns@.len() as int
    }

    pub closed spec fn span_y(&self) -> int {
        self.span_y as int
    }

    /// Every entry of the table is the weight at its distance.
    pub closed spec fn wf(&self) -> bool {
        &&& self.fine > 0
        &&& self.columns@.len() <= u32::MAX
        &&& forall|a: int|
            0 <= a < self.columns@.len() ==> (#[trigger] self.columns@[a])@.len() == self.span_y
        &&& forall|a: int, b: int|
            0 <= a < self.columns@.len() && 0 <= b < self.span_y ==> #[trigger] self.columns@[a]@[b]
                == gaussian_weight(squared_distance(a, b), self.fine as int)
    }

    /// The standard deviation of a well-formed kernel is positive.
    pub proof fn lemma_fine_range(&self)
        requires
            self.wf(),
        ensures
            0 < self.spec_fine() <= u64::MAX,
            0 <= self.span_x() <= u32::MAX,
            0 <= self.span_y() <= u32::MAX,
    {
    }

    /// The table of the kernel of standard deviation `fine / FINE_ONE`
    /// over the given spans. A zero standard deviation is refused.
    pub fn new(fine: u64, span_x: u32, span_y: u32) -> (res: Result<Kernel, DogError>)
        ensures
            fine == 0 ==> (res matches Err(e) && e == DogError::InvalidParameter),
            fine > 0 ==> (res matches Ok(k) && k.wf() && k.spec_fine() == fine && k.span_x()
                == span_x && k.span_y() == span_y),
    {
        if fine == 0 {
            return Err(DogError::InvalidParameter);
        }
        let mut columns: Vec<Vec<u128>> = Vec::new();
        let mut a: u32 = 0;
        while a < span_x
            invariant
                a <= span_x,
                fine > 0,
                columns@.len() == a,
                forall|p: int| 0 <= p < a ==> (#[trigger] columns@[p])@.len() == span_y,
                forall|p: int, q: int|
                    0 <= p < a && 0 <= q < span_y ==> #[trigger] columns@[p]@[q] == gaussian_weight(
                        squared_distance(p, q),
                        fine as int,
                    ),
            decreases span_x - a,
        {
            let mut column: Vec<u128> = Vec::new();
            let mut b: u32 = 0;
            while b < span_y
                invariant
                    b <= span_y,
                    a < span_x,
                    fine > 0,
                    column@.len() == b,
                    forall|q: int|
                        0 <= q < b ==> #[trigger] column@[q] == gaussian_weight(
                            squared_distance(a as int, q),
                            fine as int,
                        ),
                decreases span_y - b,
            {
                let d2: u128 = squared_length(a as i64, b as i64);
                assert(d2 <= 0x1_0000_0000 * 0x1_0000_0000 + 0x1_0000_0000 * 0x1_0000_0000)
                    by (nonlinear_arith)
                    requires
                        d2 == a * a + b * b,
                        0 <= a <= 0x1_0000_0000,
                        0 <= b <= 0x1_0000_0000,
                ;
                column.push(weight_at(d2, fine));
                b += 1;
            }
            columns.push(column);
            a += 1;
        }
        Ok(Kernel { fine, span_y, columns })
    }

    /// The standard deviation in 65536ths of a pixel.
    pub fn fine(&self) -> (fine: u64)
        ensures
            fine == self.spec_fine(),
    {
        self.fine
    }

    /// The half-width of the window.
    pub fn radius(&self) -> (radius: u64)
        ensures
            radius == radius_of(self.spec_fine()),
    {
        fine_radius(self.fine)
    }

    /// The weight at the offset `(a, b)` from the centre.
    pub fn weight(&self, a: u32, b: u32) -> (w: u128)
        requires
            self.wf(),
            a < self.span_x(),
            b < self.span_y(),
        ensures
            w == gaussian_weight(squared_distance(a as int, b as int), self.spec_fine()),
    {
        self.columns[a as usize][b as usize]
    }
}

} // verus!
