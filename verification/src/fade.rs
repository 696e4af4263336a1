//! Steps between two modes, scaled brightness and scaled durations.
//!
//! Fractions of a fade are doubles and brightness scales are singles: results
//! follow their rounding digit for digit.
use vstd::prelude::*;
use vstd::arithmetic::power2::{
    lemma2_to64, lemma2_to64_rest, lemma_pow2_adds, lemma_pow2_pos, pow2,
};
use crate::animation::{Single, NEGATIVE_ZERO_BITS, ONE_BITS};
use crate::mode::{Hue, Kelvin, Mode, Percent};
use crate::rounding::{
    half_up, half_up_is_near, power_of_two, round, rounded, rounded_at_least, rounded_at_most,
    rounding_is_close, DOUBLE, SINGLE,
};

verus! {

/// One, in the unit in which fractions of a fade are held.
pub const ONE: u128 = 0x1000_0000_0000_0000_0000_0000;

/// One, in the unit in which scaled durations are held.
pub const MILLISECOND: u128 = 0x1000_0000_0000_0000;

/// One, in the unit in which scaled brightness is held.
pub const PERCENT: u128 = 0x8000_0000;

/// The absolute value of a number.
pub open spec fn abs(x: int) -> int {
    if x < 0 {
        -x
    } else {
        x
    }
}

/// A number with the sign of another.
pub open spec fn signed(size: int, sign: int) -> int {
    if sign < 0 {
        -size
    } else {
        size
    }
}

/// The significand of a normal single.
pub open spec fn significand(x: Single) -> int {
    (x.bits % 0x80_0000) + 0x80_0000
}

/// The biased exponent of a positive single.
pub open spec fn exponent(x: Single) -> int {
    (x.bits / 0x80_0000) as int
}

proof fn powers()
    ensures
        pow2(92) == ONE,
        pow2(60) == MILLISECOND,
        pow2(31) == PERCENT,
{
    lemma2_to64();
    lemma2_to64_rest();
    lemma_pow2_adds(60, 32);
}

/// The whole milliseconds of a duration divided by a speed.
pub open spec fn scaled_duration(ms: int, speed: Single) -> int {
    rounded(ms * pow2((210 - exponent(speed)) as nat), significand(speed), DOUBLE as int)
        / MILLISECOND as int
}

proof fn scaled_numerator(ms: int, speed: Single)
    requires
        0 <= ms <= 0xffff_ffff,
        speed.is_speed(),
    ensures
        123 <= exponent(speed) <= 130,
        0 <= ms * pow2((210 - exponent(speed)) as nat) <= 0xffff_ffff
            * 0x80_0000_0000_0000_0000_0000,
        0 <= scaled_duration(ms, speed) <= 0x10_0000_0000,
{
    powers();
    lemma2_to64();
    lemma2_to64_rest();
    lemma_pow2_adds(60, 27);
    let power = (210 - exponent(speed)) as nat;
    let factor = pow2(power);
    assert(factor <= pow2(87)) by {
        let rest = (87 - power) as nat;
        lemma_pow2_adds(power, rest);
        lemma_pow2_pos(rest);
        let p = pow2(rest);
        assert(factor <= factor * p) by (nonlinear_arith)
            requires
                p >= 1,
                factor >= 0,
        ;
    }
    assert(0 <= ms * factor <= 0xffff_ffff * 0x80_0000_0000_0000_0000_0000) by (nonlinear_arith)
        requires
            0 <= ms <= 0xffff_ffff,
            0 <= factor <= 0x80_0000_0000_0000_0000_0000,
    ;
    let m = significand(speed);
    let bound = 0x10_0000_0000int;
    assert(0x80_0000 * (bound * MILLISECOND) <= m * (bound * MILLISECOND)) by (nonlinear_arith)
        requires
            m >= 0x80_0000,
            bound * MILLISECOND >= 0,
    ;
    assert(0x80_0000 * MILLISECOND * DOUBLE <= m * MILLISECOND * DOUBLE) by (nonlinear_arith)
        requires
            m >= 0x80_0000,
    ;
    rounded_at_most(ms * factor, m, DOUBLE as int, 60, bound);
}

/// A duration divided by a valid speed is nowhere near what a counter of
/// milliseconds can hold.
pub proof fn scaled_durations_are_bounded(ms: int, speed: Single)
    requires
        0 <= ms <= 0xffff_ffff,
        speed.is_speed(),
    ensures
        0 <= scaled_duration(ms, speed) <= 0x10_0000_0000,
{
    scaled_numerator(ms, speed);
}

/// Nothing divided by a speed is nothing.
pub proof fn scaled_zero(speed: Single)
    requires
        speed.is_speed(),
    ensures
        scaled_duration(0, speed) == 0,
{
    let m = significand(speed);
    assert(0 * pow2((210 - exponent(speed)) as nat) == 0);
    assert(0 < m * DOUBLE) by (nonlinear_arith)
        requires
            m >= 0x80_0000,
            DOUBLE == 0x20_0000_0000_0000,
    ;
    assert(0int / (m * 1) == 0 && 0int % (m * 1) == 0) by (nonlinear_arith)
        requires
            m > 0,
    ;
}

/// Divides a duration by a speed, down to whole milliseconds.
pub fn scaled_ms(value: u32, speed: Single) -> (r: u64)
    requires
        speed.is_speed(),
    ensures
        r == scaled_duration(value as int, speed),
{
    proof {
        scaled_numerator(value as int, speed);
    }
    let power: u32 = 210 - speed.bits / 0x80_0000;
    let divisor: u32 = speed.bits % 0x80_0000 + 0x80_0000;
    let num: u128 = value as u128 * power_of_two(power);
    let x: u128 = round(num, divisor as u128, DOUBLE);
    (x / MILLISECOND) as u64
}

/// A brightness times a scale, rounded to whole percent. A scale below a 256th
/// leaves less than half a percent.
pub open spec fn scaled_brightness(bri: int, scale: Single) -> int {
    if scale.bits == NEGATIVE_ZERO_BITS || exponent(scale) < 119 {
        0
    } else {
        half_up(
            rounded(
                bri * (significand(scale) * pow2((exponent(scale) - 119) as nat)),
                1,
                SINGLE as int,
            ),
            PERCENT as int,
        )
    }
}

proof fn factor_at_most_one(scale: Single)
    requires
        scale.is_fraction(),
        scale.bits != NEGATIVE_ZERO_BITS,
        exponent(scale) >= 119,
    ensures
        0 <= significand(scale) * pow2((exponent(scale) - 119) as nat) <= PERCENT,
        scale.bits == ONE_BITS ==> significand(scale) * pow2((exponent(scale) - 119) as nat)
            == PERCENT,
{
    lemma2_to64();
    let e = exponent(scale);
    assert(e <= 127);
    let p = pow2((e - 119) as nat);
    let m = significand(scale);
    if e == 127 {
        assert(m == 0x80_0000);
        assert(m * p == 0x80_0000 * 256) by (nonlinear_arith)
            requires
                m == 0x80_0000,
                p == 256,
        ;
    } else {
        assert(p <= 128) by {
            lemma_pow2_adds((e - 119) as nat, (126 - e) as nat);
            lemma_pow2_pos((126 - e) as nat);
            let q = pow2((126 - e) as nat);
            assert(p <= p * q) by (nonlinear_arith)
                requires
                    p >= 0,
                    q >= 1,
            ;
        }
        assert(0 <= m * p <= 0x100_0000 * 128) by (nonlinear_arith)
            requires
                0 <= m <= 0x100_0000,
                0 <= p <= 128,
        ;
    }
}

/// Scaling never raises a brightness, and the full scale leaves it as it is.
pub proof fn scaling_only_dims(bri: int, scale: Single)
    requires
        0 <= bri <= 100,
        scale.is_fraction(),
    ensures
        0 <= scaled_brightness(bri, scale) <= bri,
        scale.bits == ONE_BITS ==> scaled_brightness(bri, scale) == bri,
{
    if scale.bits != NEGATIVE_ZERO_BITS && exponent(scale) >= 119 {
        factor_at_most_one(scale);
        powers();
        let f = significand(scale) * pow2((exponent(scale) - 119) as nat);
        assert(0 <= bri * f <= bri * PERCENT) by (nonlinear_arith)
            requires
                0 <= bri,
                0 <= f <= PERCENT,
        ;
        rounded_at_most(bri * f, 1, SINGLE as int, 31, bri);
        if scale.bits == ONE_BITS {
            rounded_at_least(bri * f, 1, SINGLE as int, 31, bri);
        }
    }
}

/// Scales a brightness, rounded to whole percent.
pub fn scale_percent(bri: Percent, scale: Single) -> (r: Percent)
    requires
        scale.is_fraction(),
    ensures
        r == Percent::of(scaled_brightness(bri@, scale)),
        r@ == scaled_brightness(bri@, scale),
{
    let value: u8 = bri.get();
    proof {
        scaling_only_dims(value as int, scale);
    }
    let power: u32 = scale.bits / 0x80_0000;
    if scale.bits == NEGATIVE_ZERO_BITS || power < 119 {
        return Percent(0);
    }
    proof {
        factor_at_most_one(scale);
        let f = significand(scale) * pow2((exponent(scale) - 119) as nat);
        assert(0 <= value * f <= 100 * PERCENT) by (nonlinear_arith)
            requires
                0 <= value <= 100,
                0 <= f <= PERCENT,
        ;
        powers();
        rounded_at_most(value * f, 1, SINGLE as int, 31, 100);
    }
    let significand: u32 = scale.bits % 0x80_0000 + 0x80_0000;
    let factor: u128 = significand as u128 * power_of_two(power - 119);
    let x: u128 = round(value as u128 * factor, 1, SINGLE);
    let scaled: u128 = (2 * x + PERCENT) / (2 * PERCENT);
    Percent(scaled as u8)
}

/// A mode with its brightness scaled.
pub open(crate) spec fn dimmed(mode: Mode, scale: Single) -> Mode {
    match mode {
        Mode::Cct { temp, bri } => Mode::Cct {
            temp,
            bri: Percent::of(scaled_brightness(bri@, scale)),
        },
        Mode::Hsi { hue, sat, bri } => Mode::Hsi {
            hue,
            sat,
            bri: Percent::of(scaled_brightness(bri@, scale)),
        },
        Mode::Scene { scene, bri } => Mode::Scene {
            scene,
            bri: Percent::of(scaled_brightness(bri@, scale)),
        },
        Mode::On | Mode::Off => mode,
    }
}

/// Scales the brightness of a mode that has one.
pub fn scale_brightness(mode: Mode, scale: Single) -> (r: Mode)
    requires
        scale.is_fraction(),
    ensures
        r == dimmed(mode, scale),
{
    match mode {
        Mode::Cct { temp, bri } => Mode::Cct { temp, bri: scale_percent(bri, scale) },
        Mode::Hsi { hue, sat, bri } => Mode::Hsi { hue, sat, bri: scale_percent(bri, scale) },
        Mode::Scene { scene, bri } => Mode::Scene { scene, bri: scale_percent(bri, scale) },
        Mode::On | Mode::Off => mode,
    }
}

/// The full brightness scale leaves every mode as it is.
pub proof fn full_scale_changes_nothing(mode: Mode, scale: Single)
    requires
        mode.wf(),
        scale.bits == ONE_BITS,
    ensures
        dimmed(mode, scale) == mode,
{
    match mode {
        Mode::Cct { bri, .. } | Mode::Hsi { bri, .. } | Mode::Scene { bri, .. } => {
            scaling_only_dims(bri@, scale);
        },
        _ => {},
    }
}

/// The fraction `k / n` as a double.
pub open spec fn fraction(k: int, n: int) -> int {
    rounded(k * ONE, n, DOUBLE as int)
}

/// The double `start + difference * (k / n)`, in parts of `ONE`.
pub open spec fn faded(start: int, difference: int, k: int, n: int) -> int {
    let product = rounded(abs(difference) * fraction(k, n), 1, DOUBLE as int);
    let sum = start * ONE + signed(product, difference);
    signed(rounded(abs(sum), 1, DOUBLE as int), sum)
}

/// That double rounded to an integer, halves away from zero.
pub open spec fn eased(start: int, difference: int, k: int, n: int) -> int {
    let x = faded(start, difference, k, n);
    signed(half_up(abs(x), ONE as int), x)
}

proof fn fraction_in_range(k: int, n: int)
    requires
        0 <= k <= n,
        0 < n < 0x1_0000_0000,
    ensures
        0 <= fraction(k, n) <= ONE,
        k == n ==> fraction(k, n) == ONE,
{
    powers();
    assert(n * ONE * DOUBLE >= n * ONE * 2 && n * ONE * DOUBLE > k * ONE) by (nonlinear_arith)
        requires
            0 <= k <= n,
            0 < n,
            ONE == 0x1000_0000_0000_0000_0000_0000,
            DOUBLE == 0x20_0000_0000_0000,
    ;
    rounded_at_most(k * ONE, n, DOUBLE as int, 92, 1);
    if k == n {
        rounded_at_least(k * ONE, n, DOUBLE as int, 92, 1);
    }
}

/// A fade between two nonnegative values stays between them, and its last step
/// is its end.
pub proof fn eased_stays_between(start: int, end: int, k: int, n: int)
    requires
        0 <= start <= 1000,
        0 <= end <= 1000,
        0 <= k <= n,
        0 < n < 0x1_0000_0000,
    ensures
        start <= end ==> start <= eased(start, end - start, k, n) <= end,
        end <= start ==> end <= eased(start, end - start, k, n) <= start,
        k == n ==> eased(start, end - start, k, n) == end,
{
    powers();
    fraction_in_range(k, n);
    let d = end - start;
    let t = fraction(k, n);
    assert(0 <= abs(d) * t <= abs(d) * ONE && abs(d) * ONE < ONE * DOUBLE) by (nonlinear_arith)
        requires
            0 <= t <= ONE,
            0 <= abs(d) <= 1000,
            ONE == 0x1000_0000_0000_0000_0000_0000,
            DOUBLE == 0x20_0000_0000_0000,
    ;
    rounded_at_most(abs(d) * t, 1, DOUBLE as int, 92, abs(d));
    if k == n {
        rounded_at_least(abs(d) * t, 1, DOUBLE as int, 92, abs(d));
    }
    let product = rounded(abs(d) * t, 1, DOUBLE as int);
    let sum = start * ONE + signed(product, d);
    let low = if start <= end {
        start
    } else {
        end
    };
    let high = if start <= end {
        end
    } else {
        start
    };
    assert(low * ONE <= sum <= high * ONE);
    rounded_at_most(sum, 1, DOUBLE as int, 92, high);
    rounded_at_least(sum, 1, DOUBLE as int, 92, low);
    if k == n {
        rounded_at_most(sum, 1, DOUBLE as int, 92, end);
        rounded_at_least(sum, 1, DOUBLE as int, 92, end);
    }
}

/// A number lies between two others, whichever of them is larger.
pub open spec fn lies_between(a: int, x: int, b: int) -> bool {
    a <= x <= b || b <= x <= a
}

/// A fade by a bounded difference stays within it, on either side of zero, and
/// begins at its start and ends at its end.
proof fn eased_is_bounded(start: int, difference: int, k: int, n: int)
    requires
        0 <= start <= 1000,
        -1000 <= difference <= 1000,
        0 <= k <= n,
        0 < n < 0x1_0000_0000,
    ensures
        0 <= fraction(k, n) <= ONE,
        0 <= rounded(abs(difference) * fraction(k, n), 1, DOUBLE as int) <= 1000 * ONE,
        abs(faded(start, difference, k, n)) <= 2000 * ONE,
        -2000 <= eased(start, difference, k, n) <= 2000,
        lies_between(start, eased(start, difference, k, n), start + difference),
        k == 0 ==> eased(start, difference, k, n) == start,
        k == n ==> eased(start, difference, k, n) == start + difference,
{
    powers();
    fraction_in_range(k, n);
    let t = fraction(k, n);
    let size = abs(difference);
    assert(0 <= size * t <= size * ONE && size * ONE < ONE * DOUBLE) by (nonlinear_arith)
        requires
            0 <= t <= ONE,
            0 <= size <= 1000,
            ONE == 0x1000_0000_0000_0000_0000_0000,
            DOUBLE == 0x20_0000_0000_0000,
    ;
    rounded_at_most(size * t, 1, DOUBLE as int, 92, size);
    let product = rounded(size * t, 1, DOUBLE as int);
    let sum = start * ONE + signed(product, difference);
    rounded_at_most(abs(sum), 1, DOUBLE as int, 92, 2000);
    let y = rounded(abs(sum), 1, DOUBLE as int);
    assert(abs(faded(start, difference, k, n)) == y);
    assert(0 <= half_up(y, ONE as int) <= 2000);
    let low = if difference < 0 {
        start + difference
    } else {
        start
    };
    let high = if difference < 0 {
        start
    } else {
        start + difference
    };
    assert(low * ONE <= sum <= high * ONE);
    if sum >= 0 {
        rounded_at_most(sum, 1, DOUBLE as int, 92, high);
        if low >= 0 {
            rounded_at_least(sum, 1, DOUBLE as int, 92, low);
        }
    } else {
        rounded_at_most(-sum, 1, DOUBLE as int, 92, -low);
    }
    if k == 0 {
        rounded_at_most(0, n, DOUBLE as int, 92, 0);
        assert(t == 0);
        assert(size * t == 0) by (nonlinear_arith)
            requires
                t == 0,
        ;
        rounded_at_most(0, 1, DOUBLE as int, 92, 0);
        assert(sum == start * ONE);
        rounded_at_most(sum, 1, DOUBLE as int, 92, start);
        rounded_at_least(sum, 1, DOUBLE as int, 92, start);
    }
    if k == n {
        rounded_at_least(size * t, 1, DOUBLE as int, 92, size);
        rounded_at_most(abs(sum), 1, DOUBLE as int, 92, abs(start + difference));
        rounded_at_least(abs(sum), 1, DOUBLE as int, 92, abs(start + difference));
    }
}

/// Computes one step of a fade, rounded to an integer, halves away from zero.
pub fn ease(start: i32, difference: i32, k: u64, n: u64) -> (r: i32)
    requires
        0 <= start <= 1000,
        -1000 <= difference <= 1000,
        k <= n,
        0 < n < 0x1_0000_0000,
    ensures
        r == eased(start as int, difference as int, k as int, n as int),
        -2000 <= r <= 2000,
{
    proof {
        eased_is_bounded(start as int, difference as int, k as int, n as int);
    }
    let t: u128 = round(k as u128 * ONE, n as u128, DOUBLE);
    let size: u128 = if difference < 0 {
        (-difference) as u128
    } else {
        difference as u128
    };
    assert(0 <= size * t <= 1000 * ONE) by (nonlinear_arith)
        requires
            0 <= t <= ONE,
            0 <= size <= 1000,
    ;
    let product: u128 = round(size * t, 1, DOUBLE);
    let base: u128 = start as u128 * ONE;
    if difference < 0 && product > base {
        let x: u128 = round(product - base, 1, DOUBLE);
        let rounded: u128 = (2 * x + ONE) / (2 * ONE);
        -(rounded as i32)
    } else {
        let sum: u128 = if difference < 0 {
            base - product
        } else {
            base + product
        };
        let x: u128 = round(sum, 1, DOUBLE);
        let rounded: u128 = (2 * x + ONE) / (2 * ONE);
        rounded as i32
    }
}

/// The shorter way round from one hue to another, in degrees.
pub open spec fn hue_difference(start: int, end: int) -> int {
    (end - start + 540) % 360 - 180
}

/// A percent value `k / n` of the way between two others.
pub open(crate) spec fn percent_between(start: Percent, end: Percent, k: int, n: int) -> Percent {
    Percent::of(eased(start@, end@ - start@, k, n))
}

/// The mode `k / n` of the way between two modes of one kind: colors along the
/// shorter way round the hues, temperatures in whole hundreds. There is none
/// between modes that differ in kind or that cannot be divided.
pub open(crate) spec fn between(start: Mode, end: Mode, k: int, n: int) -> Option<Mode> {
    match (start, end) {
        (
            Mode::Hsi { hue: hue0, sat: sat0, bri: bri0 },
            Mode::Hsi { hue: hue1, sat: sat1, bri: bri1 },
        ) => Some(
            Mode::Hsi {
                hue: Hue::of(eased(hue0@, hue_difference(hue0@, hue1@), k, n) % 360),
                sat: percent_between(sat0, sat1, k, n),
                bri: percent_between(bri0, bri1, k, n),
            },
        ),
        (Mode::Cct { temp: temp0, bri: bri0 }, Mode::Cct { temp: temp1, bri: bri1 }) => Some(
            Mode::Cct {
                temp: Kelvin::of(eased(temp0@ / 100, temp1@ / 100 - temp0@ / 100, k, n) * 100),
                bri: percent_between(bri0, bri1, k, n),
            },
        ),
        _ => None,
    }
}

fn percent_lerp(start: Percent, end: Percent, k: u64, n: u64) -> (r: Percent)
    requires
        k <= n,
        0 < n < 0x1_0000_0000,
    ensures
        r == percent_between(start, end, k as int, n as int),
{
    let from: i32 = start.get() as i32;
    let to: i32 = end.get() as i32;
    proof {
        eased_stays_between(from as int, to as int, k as int, n as int);
    }
    Percent(ease(from, to - from, k, n) as u8)
}

/// Computes the mode `k / n` of the way between two modes, if there is one.
pub fn interpolate(start: Mode, end: Mode, k: u64, n: u64) -> (r: Option<Mode>)
    requires
        k <= n,
        0 < n < 0x1_0000_0000,
    ensures
        r == between(start, end, k as int, n as int),
{
    match (start, end) {
        (
            Mode::Hsi { hue: hue0, sat: sat0, bri: bri0 },
            Mode::Hsi { hue: hue1, sat: sat1, bri: bri1 },
        ) => {
            let from: i32 = hue0.get() as i32;
            let to: i32 = hue1.get() as i32;
            let difference: i32 = (to - from + 540) % 360 - 180;
            let angle: i32 = ease(from, difference, k, n);
            Some(
                Mode::Hsi {
                    hue: Hue::wrapping(angle),
                    sat: percent_lerp(sat0, sat1, k, n),
                    bri: percent_lerp(bri0, bri1, k, n),
                },
            )
        },
        (Mode::Cct { temp: temp0, bri: bri0 }, Mode::Cct { temp: temp1, bri: bri1 }) => {
            let from: i32 = (temp0.get() / 100) as i32;
            let to: i32 = (temp1.get() / 100) as i32;
            proof {
                eased_stays_between(from as int, to as int, k as int, n as int);
            }
            let hundreds: i32 = ease(from, to - from, k, n);
            Some(
                Mode::Cct {
                    temp: Kelvin(hundreds as u16 * 100),
                    bri: percent_lerp(bri0, bri1, k, n),
                },
            )
        },
        _ => None,
    }
}

/// How far two hues are apart, the shorter way round.
pub open spec fn hue_distance(a: int, b: int) -> int {
    if (a - b) % 360 <= (b - a) % 360 {
        (a - b) % 360
    } else {
        (b - a) % 360
    }
}

/// A step of a fade between hues: a turn from the start that goes no further than
/// the shorter way round to the end.
pub open spec fn on_shorter_arc(start: int, hue: int, end: int) -> bool {
    exists|turn: int| #[trigger]
        lies_between(0, turn, hue_difference(start, end)) && hue == (start + turn) % 360
}

proof fn turns_are_distances(start: int, turn: int, end: int)
    requires
        0 <= start < 360,
        0 <= end < 360,
        lies_between(0, turn, hue_difference(start, end)),
    ensures
        hue_distance(start, end) == abs(hue_difference(start, end)),
        hue_distance(start, (start + turn) % 360) <= hue_distance(start, end),
        turn == hue_difference(start, end) ==> (start + turn) % 360 == end,
{
    let d = hue_difference(start, end);
    assert(-180 <= d < 180);
    assert(d == end - start || d == end - start + 360 || d == end - start - 360);
    let hue = (start + turn) % 360;
    assert(hue == start + turn || hue == start + turn + 360 || hue == start + turn - 360);
}

/// The first step of a fade between two modes is the mode it starts from and the
/// last step the mode it leads to, temperatures in whole hundreds.
pub proof fn fades_begin_and_end_at_their_modes(start: Mode, end: Mode, n: int)
    requires
        start.wf(),
        end.wf(),
        0 < n < 0x1_0000_0000,
    ensures
        match (start, end) {
            (Mode::Hsi { .. }, Mode::Hsi { .. }) => {
                &&& between(start, end, 0, n) == Some(start)
                &&& between(start, end, n, n) == Some(end)
            },
            (Mode::Cct { .. }, Mode::Cct { .. }) => {
                &&& between(start, end, 0, n) == Some(in_hundreds(start))
                &&& between(start, end, n, n) == Some(in_hundreds(end))
            },
            _ => between(start, end, 0, n) is None && between(start, end, n, n) is None,
        },
{
    match (start, end) {
        (
            Mode::Hsi { hue: hue0, sat: sat0, bri: bri0 },
            Mode::Hsi { hue: hue1, sat: sat1, bri: bri1 },
        ) => {
            eased_is_bounded(hue0@, hue_difference(hue0@, hue1@), 0, n);
            eased_is_bounded(sat0@, sat1@ - sat0@, 0, n);
            eased_is_bounded(bri0@, bri1@ - bri0@, 0, n);
            eased_is_bounded(hue0@, hue_difference(hue0@, hue1@), n, n);
            eased_is_bounded(sat0@, sat1@ - sat0@, n, n);
            eased_is_bounded(bri0@, bri1@ - bri0@, n, n);
        },
        (Mode::Cct { temp: temp0, bri: bri0 }, Mode::Cct { temp: temp1, bri: bri1 }) => {
            eased_is_bounded(temp0@ / 100, temp1@ / 100 - temp0@ / 100, 0, n);
            eased_is_bounded(bri0@, bri1@ - bri0@, 0, n);
            eased_is_bounded(temp0@ / 100, temp1@ / 100 - temp0@ / 100, n, n);
            eased_is_bounded(bri0@, bri1@ - bri0@, n, n);
        },
        _ => {},
    }
}

/// A mode with its temperature in whole hundreds.
pub open(crate) spec fn in_hundreds(mode: Mode) -> Mode {
    match mode {
        Mode::Cct { temp, bri } => Mode::Cct { temp: Kelvin::of(temp@ / 100 * 100), bri },
        _ => mode,
    }
}

/// Every step of a fade between two colors is a color and every step between two
/// temperatures is a temperature in whole hundreds. Brightness, saturation and
/// temperature lie between those of the ends, and the hue stays on the shorter way
/// round. There is no step between modes of other kinds.
pub proof fn fades_stay_between_their_ends(start: Mode, end: Mode, k: int, n: int)
    requires
        start.wf(),
        end.wf(),
        0 <= k <= n,
        0 < n < 0x1_0000_0000,
    ensures
        match (start, end) {
            (
                Mode::Hsi { hue: hue0, sat: sat0, bri: bri0 },
                Mode::Hsi { hue: hue1, sat: sat1, bri: bri1 },
            ) => between(start, end, k, n) matches Some(Mode::Hsi { hue, sat, bri }) && {
                &&& hue.wf() && sat.wf() && bri.wf()
                &&& on_shorter_arc(hue0@, hue@, hue1@)
                &&& hue_distance(hue0@, hue@) <= hue_distance(hue0@, hue1@)
                &&& lies_between(sat0@, sat@, sat1@)
                &&& lies_between(bri0@, bri@, bri1@)
            },
            (
                Mode::Cct { temp: temp0, bri: bri0 },
                Mode::Cct { temp: temp1, bri: bri1 },
            ) => between(start, end, k, n) matches Some(Mode::Cct { temp, bri }) && {
                &&& temp.wf() && bri.wf()
                &&& temp@ % 100 == 0
                &&& lies_between(temp0@ / 100 * 100, temp@, temp1@ / 100 * 100)
                &&& lies_between(bri0@, bri@, bri1@)
            },
            _ => between(start, end, k, n) is None,
        },
{
    match (start, end) {
        (
            Mode::Hsi { hue: hue0, sat: sat0, bri: bri0 },
            Mode::Hsi { hue: hue1, sat: sat1, bri: bri1 },
        ) => {
            let difference = hue_difference(hue0@, hue1@);
            let turn = eased(hue0@, difference, k, n) - hue0@;
            eased_is_bounded(hue0@, difference, k, n);
            eased_is_bounded(sat0@, sat1@ - sat0@, k, n);
            eased_is_bounded(bri0@, bri1@ - bri0@, k, n);
            turns_are_distances(hue0@, turn, hue1@);
            assert(lies_between(0, turn, difference));
            let hue = between(start, end, k, n)->0->hue;
            assert(hue@ == (hue0@ + turn) % 360);
        },
        (Mode::Cct { temp: temp0, bri: bri0 }, Mode::Cct { temp: temp1, bri: bri1 }) => {
            eased_is_bounded(temp0@ / 100, temp1@ / 100 - temp0@ / 100, k, n);
            eased_is_bounded(bri0@, bri1@ - bri0@, k, n);
        },
        _ => {},
    }
}

proof fn share_is_close(k: int, n: int)
    requires
        0 <= k <= n,
        0 < n < 0x1_0000_0000,
    ensures
        0 <= fraction(k, n) <= ONE,
        -0x80_0000_0000 * k <= fraction(k, n) * n - k * ONE <= 0x80_0000_0000 * k,
{
    fraction_in_range(k, n);
    rounding_is_close(k * ONE, n, DOUBLE as int);
    let e = fraction(k, n) * n - k * ONE;
    if k == 0 {
        powers();
        assert(0 * ONE == 0);
        assert(0 < n * DOUBLE) by (nonlinear_arith)
            requires
                n > 0,
                DOUBLE == 0x20_0000_0000_0000,
        ;
        rounded_at_most(0, n, DOUBLE as int, 92, 0);
        assert(fraction(k, n) * n == 0) by (nonlinear_arith)
            requires
                fraction(k, n) == 0,
        ;
    } else {
        assert(k * ONE >= n * DOUBLE) by (nonlinear_arith)
            requires
                k >= 1,
                n < 0x1_0000_0000,
                ONE == 0x1000_0000_0000_0000_0000_0000,
                DOUBLE == 0x20_0000_0000_0000,
        ;
        assert(k * ONE == 0x80_0000_0000 * k * DOUBLE) by (nonlinear_arith)
            requires
                ONE == 0x1000_0000_0000_0000_0000_0000,
                DOUBLE == 0x20_0000_0000_0000,
        ;
        assert(-0x80_0000_0000 * k <= e <= 0x80_0000_0000 * k) by (nonlinear_arith)
            requires
                -(0x80_0000_0000 * k * DOUBLE) <= e * DOUBLE <= 0x80_0000_0000 * k * DOUBLE,
                DOUBLE == 0x20_0000_0000_0000,
        ;
    }
}

/// A value that is rounded to a double and is no more than so many times `ONE` is off by
/// as many parts of it.
proof fn double_is_close(value: int, times: int)
    requires
        0 <= value <= times * ONE,
        0 <= times,
    ensures
        -0x80_0000_0000 * times <= rounded(value, 1, DOUBLE as int) - value <= 0x80_0000_0000
            * times,
{
    rounding_is_close(value, 1, DOUBLE as int);
    let e = rounded(value, 1, DOUBLE as int) - value;
    assert(rounded(value, 1, DOUBLE as int) * 1 - value == e);
    assert(1 * DOUBLE == DOUBLE);
    if value < DOUBLE {
        assert(e == 0);
        assert(0x80_0000_0000 * times >= 0) by (nonlinear_arith)
            requires
                times >= 0,
        ;
        assert(-0x80_0000_0000 * times <= 0) by (nonlinear_arith)
            requires
                times >= 0,
        ;
    } else {
        assert(times * ONE == 0x80_0000_0000 * times * DOUBLE) by (nonlinear_arith)
            requires
                ONE == 0x1000_0000_0000_0000_0000_0000,
                DOUBLE == 0x20_0000_0000_0000,
        ;
        assert(-0x80_0000_0000 * times <= e <= 0x80_0000_0000 * times) by (nonlinear_arith)
            requires
                -(0x80_0000_0000 * times * DOUBLE) <= e * DOUBLE <= 0x80_0000_0000 * times * DOUBLE,
                DOUBLE == 0x20_0000_0000_0000,
        ;
    }
}

/// Step `k` of `n` of a fade is the integer that is nearest to the exact share of the way:
/// it is off by half at most.
pub proof fn steps_are_the_nearest_share(start: int, difference: int, k: int, n: int)
    requires
        0 <= start <= 1000,
        -1000 <= difference <= 1000,
        0 <= k <= n,
        0 < n < 0x1_0000_0000,
    ensures
        -n <= 2 * (n * (eased(start, difference, k, n) - start) - difference * k) <= n,
{
    let unit = 0x80_0000_0000int;
    let one = ONE as int;
    let size = abs(difference);
    let t = fraction(k, n);
    share_is_close(k, n);
    assert(0 <= size * t <= size * one) by (nonlinear_arith)
        requires
            0 <= t <= one,
            0 <= size,
    ;
    double_is_close(size * t, size);
    let product = rounded(size * t, 1, DOUBLE as int);
    eased_is_bounded(start, difference, k, n);
    let sum = start * one + signed(product, difference);
    assert(abs(sum) <= 2000 * one);
    double_is_close(abs(sum), 2000);
    let x = faded(start, difference, k, n);
    half_up_is_near(abs(x), one);
    let e = eased(start, difference, k, n);
    assert(-one <= 2 * (e * one - x) <= one) by {
        if x < 0 {
            let h = half_up(abs(x), one);
            assert((-h) * one == -(h * one)) by (nonlinear_arith);
        }
    }
    // The distance to the exact share, in parts of the unit and times the steps.
    let exact = start * one * n + difference * k * one;
    assert(-(1000 * unit) * n <= size * t * n - size * k * one <= (1000 * unit) * n) by {
        let d = t * n - k * one;
        assert(size * t * n - size * k * one == size * d) by (nonlinear_arith)
            requires
                d == t * n - k * one,
        ;
        assert(-(1000 * unit) * n <= size * d <= (1000 * unit) * n) by (nonlinear_arith)
            requires
                -unit * k <= d <= unit * k,
                0 <= size <= 1000,
                0 <= k <= n,
                unit == 0x80_0000_0000int,
        ;
    }
    assert(-(1000 * unit) <= product - size * t <= 1000 * unit) by (nonlinear_arith)
        requires
            -unit * size <= product - size * t <= unit * size,
            0 <= size <= 1000,
            unit == 0x80_0000_0000int,
    ;
    let p = product - size * t;
    assert(-(1000 * unit) * n <= p * n <= (1000 * unit) * n) by (nonlinear_arith)
        requires
            -(1000 * unit) <= p <= 1000 * unit,
            n > 0,
    ;
    assert(product * n == p * n + size * t * n) by (nonlinear_arith)
        requires
            p == product - size * t,
    ;
    assert(-(2000 * unit) * n <= product * n - size * k * one <= (2000 * unit) * n) by (
        nonlinear_arith)
        requires
            product * n == p * n + size * t * n,
            -(1000 * unit) * n <= p * n <= (1000 * unit) * n,
            -(1000 * unit) * n <= size * t * n - size * k * one <= (1000 * unit) * n,
    ;
    assert(sum * n - exact == signed(product * n - size * k * one, difference)) by {
        if difference < 0 {
            assert((start * one - product) * n - (start * one * n + difference * k * one) == -(
            product * n - size * k * one)) by (nonlinear_arith)
                requires
                    size == -difference,
            ;
        } else {
            assert((start * one + product) * n - (start * one * n + difference * k * one) == product
                * n - size * k * one) by (nonlinear_arith)
                requires
                    size == difference,
            ;
        }
    }
    assert(-(2000 * unit) * n <= sum * n - exact <= (2000 * unit) * n) by {
        let most = (2000 * unit) * n;
        assert(-(2000 * unit) * n == -most) by (nonlinear_arith)
            requires
                most == (2000 * unit) * n,
        ;
    }
    let q = x - sum;
    assert(-(2000 * unit) <= q <= 2000 * unit);
    assert(-(2000 * unit) * n <= q * n <= (2000 * unit) * n) by (nonlinear_arith)
        requires
            -(2000 * unit) <= q <= 2000 * unit,
            n > 0,
    ;
    assert(x * n == q * n + sum * n) by (nonlinear_arith)
        requires
            q == x - sum,
    ;
    let far = (4000 * unit) * n;
    assert(-far <= x * n - exact <= far) by (nonlinear_arith)
        requires
            x * n == q * n + sum * n,
            -(2000 * unit) * n <= q * n <= (2000 * unit) * n,
            -(2000 * unit) * n <= sum * n - exact <= (2000 * unit) * n,
            far == (4000 * unit) * n,
    ;
    let r = e * one - x;
    assert(-(one * n) <= 2 * (r * n) <= one * n) by (nonlinear_arith)
        requires
            -one <= 2 * r <= one,
            n > 0,
    ;
    let off = n * (e - start) - difference * k;
    assert(off * one == r * n + (x * n - exact)) by (nonlinear_arith)
        requires
            r == e * one - x,
            exact == start * one * n + difference * k * one,
            off == n * (e - start) - difference * k,
    ;
    assert(2 * far < one) by (nonlinear_arith)
        requires
            far == (4000 * unit) * n,
            unit == 0x80_0000_0000int,
            n < 0x1_0000_0000,
            one == 0x1000_0000_0000_0000_0000_0000int,
    ;
    assert(2 * off <= n) by (nonlinear_arith)
        requires
            off * one == r * n + (x * n - exact),
            2 * (r * n) <= one * n,
            x * n - exact <= far,
            2 * far < one,
            one > 0,
    ;
    assert(-n <= 2 * off) by (nonlinear_arith)
        requires
            off * one == r * n + (x * n - exact),
            -(one * n) <= 2 * (r * n),
            -far <= x * n - exact,
            2 * far < one,
            one > 0,
    ;
}

/// A value is `k` of `n` parts of the way from one value to another, to the nearest
/// integer.
#[verifier::opaque]
pub open spec fn is_share(value: int, start: int, end: int, k: int, n: int) -> bool {
    -n <= 2 * (n * (value - start) - (end - start) * k) <= n
}

proof fn step_is_share(start: int, end: int, k: int, n: int)
    requires
        0 <= start <= 1000,
        -1000 <= end - start <= 1000,
        0 <= k <= n,
        0 < n < 0x1_0000_0000,
    ensures
        is_share(eased(start, end - start, k, n), start, end, k, n),
        lies_between(start, eased(start, end - start, k, n), end),
{
    reveal(is_share);
    steps_are_the_nearest_share(start, end - start, k, n);
    eased_is_bounded(start, end - start, k, n);
}

proof fn turn_is_shorter(start: int, end: int, turn: int)
    requires
        0 <= start < 360,
        0 <= end < 360,
        -180 <= turn < 180,
        (start + turn - end) % 360 == 0,
    ensures
        hue_difference(start, end) == turn,
{
}

/// A fade goes evenly: after `k` of `n` steps each value of a color or of a temperature has
/// gone as many parts of its way, to the nearest percent, degree or hundred kelvin. A hue
/// goes the way of less than half a turn, down where both ways are half a turn.
pub proof fn fades_go_evenly(start: Mode, end: Mode, k: int, n: int, turn: int)
    requires
        start.wf(),
        end.wf(),
        0 <= k <= n,
        0 < n < 0x1_0000_0000,
        -180 <= turn < 180,
        start is Hsi && end is Hsi ==> (start->hue@ + turn - end->hue@) % 360 == 0,
    ensures
        match (start, end) {
            (
                Mode::Hsi { hue: hue0, sat: sat0, bri: bri0 },
                Mode::Hsi { hue: hue1, sat: sat1, bri: bri1 },
            ) => between(start, end, k, n) matches Some(Mode::Hsi { hue, sat, bri }) && {
                &&& is_share(sat@, sat0@, sat1@, k, n)
                &&& is_share(bri@, bri0@, bri1@, k, n)
                &&& exists|angle: int| #[trigger]
                    is_share(angle, hue0@, hue0@ + turn, k, n) && hue@ == angle % 360
            },
            (
                Mode::Cct { temp: temp0, bri: bri0 },
                Mode::Cct { temp: temp1, bri: bri1 },
            ) => between(start, end, k, n) matches Some(Mode::Cct { temp, bri }) && {
                &&& is_share(bri@, bri0@, bri1@, k, n)
                &&& temp@ % 100 == 0
                &&& is_share(temp@ / 100, temp0@ / 100, temp1@ / 100, k, n)
            },
            _ => between(start, end, k, n) is None,
        },
{
    match (start, end) {
        (
            Mode::Hsi { hue: hue0, sat: sat0, bri: bri0 },
            Mode::Hsi { hue: hue1, sat: sat1, bri: bri1 },
        ) => {
            step_is_share(sat0@, sat1@, k, n);
            step_is_share(bri0@, bri1@, k, n);
            turn_is_shorter(hue0@, hue1@, turn);
            step_is_share(hue0@, hue0@ + turn, k, n);
            let angle = eased(hue0@, turn, k, n);
            assert(is_share(angle, hue0@, hue0@ + turn, k, n));
        },
        (Mode::Cct { temp: temp0, bri: bri0 }, Mode::Cct { temp: temp1, bri: bri1 }) => {
            let a = temp0@ / 100;
            let b = temp1@ / 100;
            step_is_share(bri0@, bri1@, k, n);
            step_is_share(a, b, k, n);
        },
        _ => {},
    }
}

/// A duration is divided by the speed, which is its significand times a power of two, and
/// the milliseconds that are left are dropped. The quotient is a double: it is off by less
/// than one part in as many as its digits span.
pub proof fn durations_are_divided_by_the_speed(ms: int, speed: Single)
    requires
        0 < ms <= 0xffff_ffff,
        speed.is_speed(),
    ensures
        ({
            let scaled = scaled_duration(ms, speed);
            let whole = ms * pow2((210 - exponent(speed)) as nat);
            let unit = significand(speed) * MILLISECOND;
            &&& scaled * unit * DOUBLE <= whole * (DOUBLE + 1)
            &&& (scaled + 1) * unit * DOUBLE > whole * (DOUBLE - 1)
        }),
        speed.bits == ONE_BITS ==> scaled_duration(ms, speed) == ms,
{
    scaled_numerator(ms, speed);
    powers();
    lemma2_to64();
    lemma2_to64_rest();
    let power = (210 - exponent(speed)) as nat;
    let factor = pow2(power);
    let whole = ms * factor;
    let m = significand(speed);
    let top = DOUBLE as int;
    let r = rounded(whole, m, top);
    let scaled = r / MILLISECOND as int;
    assert(factor >= pow2(80)) by {
        lemma_pow2_adds(80, (power - 80) as nat);
        lemma_pow2_pos((power - 80) as nat);
        let p = pow2((power - 80) as nat);
        let b = pow2(80);
        assert(b <= b * p) by (nonlinear_arith)
            requires
                p >= 1,
                b >= 0,
        ;
    }
    lemma_pow2_adds(60, 20);
    assert(whole >= m * top) by (nonlinear_arith)
        requires
            ms >= 1,
            whole == ms * factor,
            factor >= 0x10_0000 * MILLISECOND,
            m < 0x100_0000,
            m >= 0,
            top == 0x20_0000_0000_0000,
            MILLISECOND == 0x1000_0000_0000_0000,
    ;
    rounding_is_close(whole, m, top);
    let unit = m * MILLISECOND;
    assert(scaled * MILLISECOND <= r < (scaled + 1) * MILLISECOND);
    assert(scaled * unit * top <= r * m * top) by (nonlinear_arith)
        requires
            scaled * MILLISECOND <= r,
            unit == m * MILLISECOND,
            m >= 0,
            top >= 0,
    ;
    assert((scaled + 1) * unit * top > r * m * top) by (nonlinear_arith)
        requires
            (scaled + 1) * MILLISECOND > r,
            unit == m * MILLISECOND,
            m > 0,
            top > 0,
    ;
    assert((r * m - whole) * top == r * m * top - whole * top) by (nonlinear_arith);
    assert(whole * (top + 1) == whole * top + whole) by (nonlinear_arith);
    assert(whole * (top - 1) == whole * top - whole) by (nonlinear_arith);
    if speed.bits == ONE_BITS {
        assert(m == 0x80_0000 && power == 83);
        lemma_pow2_adds(60, 23);
        assert(whole == m * (ms * MILLISECOND)) by (nonlinear_arith)
            requires
                whole == ms * factor,
                factor == 0x80_0000 * MILLISECOND,
                m == 0x80_0000,
        ;
        assert(m * pow2(60) * top > whole) by (nonlinear_arith)
            requires
                whole == m * (ms * MILLISECOND),
                pow2(60) == MILLISECOND,
                MILLISECOND > 0,
                m > 0,
                ms < top,
        ;
        rounded_at_most(whole, m, top, 60, ms);
        rounded_at_least(whole, m, top, 60, ms);
        assert(r == ms * MILLISECOND);
    }
}

/// A brightness is multiplied by the scale, which is its significand times a power of two,
/// and goes to the nearest percent. The product is a single: it is off by less than one part
/// in as many as its digits span. Scales below a 256th leave nothing.
pub proof fn brightness_is_multiplied_by_the_scale(bri: int, scale: Single)
    requires
        0 <= bri <= 100,
        scale.is_fraction(),
    ensures
        scale.bits < 119 * 0x80_0000 || scale.bits == NEGATIVE_ZERO_BITS ==> scaled_brightness(
            bri,
            scale,
        ) == 0,
        119 * 0x80_0000 <= scale.bits && scale.bits != NEGATIVE_ZERO_BITS ==> ({
            let exact = bri * (significand(scale) * pow2((exponent(scale) - 119) as nat));
            let off = scaled_brightness(bri, scale) * PERCENT - exact;
            -(PERCENT * (SINGLE + 200)) <= 2 * off * SINGLE <= PERCENT * (SINGLE + 200)
        }),
{
    if 119 * 0x80_0000 <= scale.bits && scale.bits != NEGATIVE_ZERO_BITS {
        factor_at_most_one(scale);
        let f = significand(scale) * pow2((exponent(scale) - 119) as nat);
        let exact = bri * f;
        assert(0 <= exact <= 100 * PERCENT) by (nonlinear_arith)
            requires
                0 <= bri <= 100,
                0 <= f <= PERCENT,
                exact == bri * f,
        ;
        let top = SINGLE as int;
        rounding_is_close(exact, 1, top);
        let r = rounded(exact, 1, top);
        assert(r * 1 == r && 1 * top == top);
        powers();
        rounded_at_most(exact, 1, top, 31, 100);
        half_up_is_near(r, PERCENT as int);
        let s = half_up(r, PERCENT as int);
        let e = r - exact;
        assert(-(100 * PERCENT) <= e * top <= 100 * PERCENT);
        let off = s * PERCENT - exact;
        let h = s * PERCENT - r;
        assert(-(PERCENT * top) <= 2 * h * top <= PERCENT * top) by (nonlinear_arith)
            requires
                -PERCENT <= 2 * h <= PERCENT,
                top > 0,
        ;
        assert(2 * off * top == 2 * h * top + 2 * (e * top)) by (nonlinear_arith)
            requires
                off == h + e,
        ;
        assert(PERCENT * (top + 200) == PERCENT * top + 200 * PERCENT) by (nonlinear_arith);
    }
}

/// The brightness of a mode is scaled and nothing else of it; a mode without one stays.
pub proof fn scaling_changes_only_brightness(mode: Mode, scale: Single)
    requires
        mode.wf(),
        scale.is_fraction(),
    ensures
        match (mode, dimmed(mode, scale)) {
            (Mode::On, after) => after is On,
            (Mode::Off, after) => after is Off,
            (Mode::Cct { temp, bri }, Mode::Cct { temp: kept, bri: dim }) => kept == temp && dim@
                == scaled_brightness(bri@, scale),
            (Mode::Hsi { hue, sat, bri }, Mode::Hsi { hue: kept, sat: same, bri: dim }) => kept
                == hue && same == sat && dim@ == scaled_brightness(bri@, scale),
            (Mode::Scene { scene, bri }, Mode::Scene { scene: kept, bri: dim }) => kept == scene
                && dim@ == scaled_brightness(bri@, scale),
            _ => false,
        },
{
    match mode {
        Mode::Cct { bri, .. } | Mode::Hsi { bri, .. } | Mode::Scene { bri, .. } => {
            scaling_only_dims(bri@, scale);
        },
        _ => {},
    }
}

proof fn halves(e: nat, f: nat)
    requires
        e < f,
    ensures
        2 * pow2(e) <= pow2(f),
        0 < pow2(e),
{
    lemma_pow2_adds(1, (f - e - 1) as nat);
    lemma_pow2_adds(e, (f - e) as nat);
    lemma_pow2_pos(e);
    lemma_pow2_pos((f - e - 1) as nat);
    lemma2_to64();
    let p = pow2(e);
    let rest = pow2((f - e - 1) as nat);
    assert(2 * p <= p * (2 * rest)) by (nonlinear_arith)
        requires
            p > 0,
            rest >= 1,
    ;
}

/// The speeds allowed are those that are not negative, at least a tenth, and at most
/// ten.
///
/// A single that is not negative is its significand times two to the power of its
/// exponent less 150.
pub proof fn speeds_are_from_a_tenth_to_ten(x: Single)
    ensures
        x.is_speed() <==> ({
            let exponent = x.bits as int / 0x80_0000;
            let significand = x.bits as int % 0x80_0000 + 0x80_0000;
            &&& exponent < 256
            &&& 10 * (significand * pow2(exponent as nat)) >= pow2(150)
            &&& significand * pow2(exponent as nat) <= 10 * pow2(150)
        }),
{
    let e = x.bits as int / 0x80_0000;
    let m = x.bits as int % 0x80_0000 + 0x80_0000;
    let q = pow2(e as nat);
    let p = pow2(123);
    let r = pow2(130);
    lemma2_to64();
    lemma_pow2_adds(27, 123);
    lemma_pow2_adds(20, 130);
    lemma_pow2_pos(e as nat);
    lemma_pow2_pos(123);
    lemma_pow2_pos(130);
    if e < 256 {
        if e < 123 {
            halves(e as nat, 123);
            assert(10 * (m * q) < 0x800_0000 * p) by (nonlinear_arith)
                requires
                    0 < m < 0x100_0000,
                    0 < q,
                    2 * q <= p,
            ;
        } else if e == 123 {
            assert(10 * (m * p) >= 0x800_0000 * p <==> 10 * m >= 0x800_0000) by (nonlinear_arith)
                requires
                    0 < p,
            ;
        } else {
            halves(123, e as nat);
            assert(10 * (m * q) >= 0x800_0000 * p) by (nonlinear_arith)
                requires
                    m >= 0x80_0000,
                    0 < p,
                    2 * p <= q,
            ;
        }
        if e < 130 {
            halves(e as nat, 130);
            assert(m * q <= 10 * (0x10_0000 * r)) by (nonlinear_arith)
                requires
                    0 < m < 0x100_0000,
                    0 < q,
                    2 * q <= r,
            ;
        } else if e == 130 {
            assert(m * r <= 10 * (0x10_0000 * r) <==> m <= 10 * 0x10_0000) by (nonlinear_arith)
                requires
                    0 < r,
            ;
        } else {
            halves(130, e as nat);
            assert(m * q > 10 * (0x10_0000 * r)) by (nonlinear_arith)
                requires
                    m >= 0x80_0000,
                    0 < r,
                    2 * r <= q,
            ;
        }
    }
}

/// The brightness scales allowed are zero, of either sign, and those that are not
/// negative and at most one.
///
/// A single that is not negative is its significand times two to the power of its
/// exponent less 150, or smaller than that where its exponent is zero.
pub proof fn scales_are_at_most_one(x: Single)
    ensures
        x.is_fraction() <==> x.bits == 0x8000_0000 || ({
            let exponent = x.bits as int / 0x80_0000;
            let significand = x.bits as int % 0x80_0000 + 0x80_0000;
            exponent < 256 && significand * pow2(exponent as nat) <= pow2(150)
        }),
{
    let e = x.bits as int / 0x80_0000;
    let m = x.bits as int % 0x80_0000 + 0x80_0000;
    let q = pow2(e as nat);
    let p = pow2(127);
    lemma2_to64();
    lemma_pow2_adds(23, 127);
    lemma_pow2_pos(e as nat);
    lemma_pow2_pos(127);
    if e < 256 {
        if e < 127 {
            halves(e as nat, 127);
            assert(m * q <= 0x80_0000 * p) by (nonlinear_arith)
                requires
                    0 < m < 0x100_0000,
                    0 < q,
                    2 * q <= p,
            ;
        } else if e == 127 {
            assert(m * p <= 0x80_0000 * p <==> m <= 0x80_0000) by (nonlinear_arith)
                requires
                    0 < p,
            ;
        } else {
            halves(127, e as nat);
            assert(m * q > 0x80_0000 * p) by (nonlinear_arith)
                requires
                    m >= 0x80_0000,
                    0 < p,
                    2 * p <= q,
            ;
        }
    }
}

} // verus!
