//! Floats rounded to single precision, on the bits of their 64-bit encoding.

use vstd::arithmetic::power2::{lemma2_to64, lemma_pow2_adds, lemma_pow2_pos, lemma_pow2_unfold, pow2};
use vstd::prelude::*;

verus! {

/// The multiple of a unit that is nearest to a number; of two that are as near,
/// the even one.
pub open spec fn nearest(n: int, unit: int) -> int {
    let q = n / unit;
    let r = n % unit;
    if 2 * r < unit || (2 * r == unit && q % 2 == 0) {
        q * unit
    } else {
        (q + 1) * unit
    }
}

/// Nothing is nearer to a number than half a unit, and the nearest multiple is
/// no farther.
pub proof fn lemma_nearest(n: int, unit: int)
    requires
        0 <= n,
        0 < unit,
    ensures
        2 * (nearest(n, unit) - n) <= unit,
        2 * (n - nearest(n, unit)) <= unit,
        nearest(n, unit) % unit == 0,
        0 <= nearest(n, unit) <= n + unit,
{
    let q = n / unit;
    let r = n % unit;
    assert(q * unit + r == n && 0 <= r < unit && 0 <= q) by (nonlinear_arith)
        requires
            0 < unit,
            0 <= n,
            q == n / unit,
            r == n % unit,
    ;
    assert((q + 1) * unit == q * unit + unit) by (nonlinear_arith);
    assert(0 <= q * unit) by (nonlinear_arith)
        requires
            0 <= q,
            0 < unit,
    ;
    vstd::arithmetic::div_mod::lemma_mod_multiples_basic(q, unit);
    vstd::arithmetic::div_mod::lemma_mod_multiples_basic(q + 1, unit);
}

/// The encodings of one exponent.
pub const EXPONENT_STEP: u64 = 0x10_0000_0000_0000;

/// The encoding of infinity; those above are not numbers.
pub const INFINITY: u64 = 0x7ff0_0000_0000_0000;

/// The least encoding of a number that is too large for single precision.
pub const TOO_LARGE: u64 = 0x47ef_ffff_f000_0000;

/// The least number that single precision has all digits of.
pub const LEAST_NORMAL: u64 = 0x3810_0000_0000_0000;

/// The exponent of twice the least number of single precision.
pub const TWICE_LEAST: u64 = 875;

/// An encoding that no number is rounded to, nor any up to infinity.
pub const LEAST_UNROUNDED: u64 = 0x4800_0000_0000_0000;

/// The first bit of an encoding, which is the sign.
pub const SIGN: u64 = 0x8000_0000_0000_0000;

/// How many of the last bits of an encoding single precision has no room for.
pub open spec fn lost_bits(magnitude: int) -> nat {
    if magnitude >= LEAST_NORMAL {
        29
    } else {
        (926 - magnitude / EXPONENT_STEP as int) as nat
    }
}

/// The encoding of a number that is not negative, rounded to single precision.
pub open spec fn rounded(magnitude: int) -> int {
    if magnitude >= INFINITY {
        magnitude
    } else if magnitude >= TOO_LARGE {
        INFINITY as int
    } else if magnitude >= TWICE_LEAST * EXPONENT_STEP {
        nearest(magnitude, pow2(lost_bits(magnitude)) as int)
    } else if 2 * magnitude >= (2 * TWICE_LEAST - 1) * EXPONENT_STEP {
        TWICE_LEAST * EXPONENT_STEP
    } else if magnitude > (TWICE_LEAST - 2) * EXPONENT_STEP {
        (TWICE_LEAST - 1) * EXPONENT_STEP
    } else {
        0
    }
}

/// The encoding of a float, rounded to single precision: to the nearest number
/// that single precision has, and of two that are as near to the even one.
pub open spec fn in_single(bits: u64) -> u64 {
    if bits >= SIGN {
        (SIGN + rounded(bits - SIGN)) as u64
    } else {
        rounded(bits as int) as u64
    }
}

fn power(n: u64) -> (p: u64)
    requires
        n < 64,
    ensures
        p == pow2(n as nat),
{
    let mut p: u64 = 1;
    let mut k: u64 = 0;
    proof {
        lemma2_to64();
    }
    while k < n
        invariant
            k <= n < 64,
            p == pow2(k as nat),
        decreases n - k,
    {
        proof {
            lemma_pow2_unfold((k + 1) as nat);
            lemma_small_power((k + 1) as nat);
        }
        p = 2 * p;
        k += 1;
    }
    p
}

proof fn lemma_small_power(n: nat)
    requires
        n < 64,
    ensures
        pow2(n) <= SIGN,
{
    vstd::arithmetic::power2::lemma2_to64_rest();
    if n < 63 {
        vstd::arithmetic::power2::lemma_pow2_strictly_increases(n, 63);
    }
    assert(pow2(63) == SIGN);
}

fn find_rounded(magnitude: u64) -> (new: u64)
    requires
        magnitude < SIGN,
    ensures
        new == rounded(magnitude as int),
        new < SIGN,
        new >= INFINITY || new < LEAST_UNROUNDED,
{
    if magnitude >= INFINITY {
        magnitude
    } else if magnitude >= TOO_LARGE {
        INFINITY
    } else if magnitude >= TWICE_LEAST * EXPONENT_STEP {
        let lost: u64 = if magnitude >= LEAST_NORMAL {
            29
        } else {
            926 - magnitude / EXPONENT_STEP
        };
        proof {
            lemma_lost_bits(magnitude as int);
        }
        let unit: u64 = power(lost);
        proof {
            lemma_rounded_fits(magnitude as int);
        }
        let whole: u64 = magnitude / unit;
        let rest: u64 = magnitude % unit;
        proof {
            lemma_nearest(magnitude as int, unit as int);
            assert(whole * unit <= magnitude) by (nonlinear_arith)
                requires
                    whole == magnitude / unit,
                    unit > 0,
            ;
            assert((whole + 1) * unit == whole * unit + unit) by (nonlinear_arith);
        }
        if 2 * rest < unit || (2 * rest == unit && whole % 2 == 0) {
            whole * unit
        } else {
            whole * unit + unit
        }
    } else if magnitude >= TWICE_LEAST * EXPONENT_STEP - EXPONENT_STEP / 2 {
        TWICE_LEAST * EXPONENT_STEP
    } else if magnitude > (TWICE_LEAST - 2) * EXPONENT_STEP {
        (TWICE_LEAST - 1) * EXPONENT_STEP
    } else {
        0
    }
}

proof fn lemma_lost_bits(magnitude: int)
    requires
        TWICE_LEAST * EXPONENT_STEP <= magnitude < TOO_LARGE,
    ensures
        29 <= lost_bits(magnitude) <= 51,
{
    let e = magnitude / EXPONENT_STEP as int;
    assert(e >= TWICE_LEAST);
    if magnitude < LEAST_NORMAL {
        assert(e <= 896);
    }
}

proof fn lemma_rounded_fits(magnitude: int)
    requires
        TWICE_LEAST * EXPONENT_STEP <= magnitude < TOO_LARGE,
    ensures
        pow2(lost_bits(magnitude)) <= EXPONENT_STEP,
        0 < pow2(lost_bits(magnitude)),
        rounded(magnitude) < INFINITY,
{
    lemma_lost_bits(magnitude);
    let unit = pow2(lost_bits(magnitude)) as int;
    lemma2_to64();
    lemma_pow2_pos(lost_bits(magnitude));
    vstd::arithmetic::power2::lemma2_to64_rest();
    vstd::arithmetic::power2::lemma_pow2_strictly_increases(lost_bits(magnitude), 52);
    assert(pow2(52) == EXPONENT_STEP);
    lemma_nearest(magnitude, unit);
}

/// Rounds a float to single precision; see `in_single`.
pub fn round_to_single(bits: u64) -> (new: u64)
    ensures
        new == in_single(bits),
{
    if bits >= SIGN {
        SIGN + find_rounded(bits - SIGN)
    } else {
        find_rounded(bits)
    }
}

/// A multiple of a unit is the nearest to itself.
proof fn lemma_multiple_is_nearest(n: int, unit: int)
    requires
        0 < unit,
        n % unit == 0,
    ensures
        nearest(n, unit) == n,
{
    let q = n / unit;
    assert(q * unit == n) by (nonlinear_arith)
        requires
            0 < unit,
            n % unit == 0,
            q == n / unit,
    ;
}

/// The nearest multiple of a unit lies between the multiples around a number.
proof fn lemma_nearest_between(n: int, unit: int, low: int, high: int)
    requires
        0 < unit,
        low % unit == 0,
        high % unit == 0,
        low <= n < high,
    ensures
        low <= nearest(n, unit) <= high,
{
    let q = n / unit;
    let r = n % unit;
    let a = low / unit;
    let b = high / unit;
    assert(q * unit + r == n && 0 <= r < unit && a * unit == low && b * unit == high)
        by (nonlinear_arith)
        requires
            0 < unit,
            q == n / unit,
            r == n % unit,
            a == low / unit,
            b == high / unit,
            low % unit == 0,
            high % unit == 0,
    ;
    assert(a <= q && q + 1 <= b) by (nonlinear_arith)
        requires
            0 < unit,
            0 <= r < unit,
            a * unit <= q * unit + r,
            q * unit + r < b * unit,
    ;
    assert(a * unit <= q * unit && q * unit <= (q + 1) * unit && (q + 1) * unit <= b * unit)
        by (nonlinear_arith)
        requires
            0 < unit,
            a <= q,
            q + 1 <= b,
    ;
}

proof fn lemma_step_is_multiple(times: int, k: nat)
    requires
        k <= 52,
    ensures
        (times * EXPONENT_STEP) % pow2(k) as int == 0,
{
    vstd::arithmetic::power2::lemma2_to64_rest();
    lemma_pow2_adds(k, (52 - k) as nat);
    lemma_pow2_pos(k);
    let unit = pow2(k) as int;
    let more = pow2((52 - k) as nat) as int;
    assert(unit * more == EXPONENT_STEP);
    assert(times * EXPONENT_STEP == (times * more) * unit) by (nonlinear_arith)
        requires
            unit * more == EXPONENT_STEP,
    ;
    vstd::arithmetic::div_mod::lemma_mod_multiples_basic(times * more, unit);
}

proof fn lemma_rounded_settles(magnitude: int)
    requires
        0 <= magnitude < SIGN,
    ensures
        0 <= rounded(magnitude) < SIGN,
        rounded(rounded(magnitude)) == rounded(magnitude),
{
    if TWICE_LEAST * EXPONENT_STEP <= magnitude < TOO_LARGE {
        let k = lost_bits(magnitude);
        let unit = pow2(k) as int;
        let new = rounded(magnitude);
        lemma_lost_bits(magnitude);
        lemma_rounded_fits(magnitude);
        lemma_nearest(magnitude, unit);
        if magnitude >= LEAST_NORMAL {
            lemma2_to64();
            assert(unit == 0x2000_0000);
            assert(LEAST_NORMAL as int % 0x2000_0000 == 0);
            assert(LEAST_NORMAL <= new < TOO_LARGE);
            lemma_multiple_is_nearest(new, unit);
        } else {
            let e = magnitude / EXPONENT_STEP as int;
            lemma_step_is_multiple(e, k);
            lemma_step_is_multiple(e + 1, k);
            lemma_nearest_between(magnitude, unit, e * EXPONENT_STEP, (e + 1) * EXPONENT_STEP);
            assert(875 <= e <= 896);
            if new == (e + 1) * EXPONENT_STEP {
                lemma_step_is_multiple(e + 1, (k - 1) as nat);
                lemma_pow2_pos((k - 1) as nat);
                assert(lost_bits(new) == k - 1);
                lemma_multiple_is_nearest(new, pow2((k - 1) as nat) as int);
            } else {
                assert(new / EXPONENT_STEP as int == e);
                lemma_multiple_is_nearest(new, unit);
            }
        }
    } else {
        lemma_step_is_multiple(875, 51);
        lemma_pow2_pos(51);
        assert(lost_bits(TWICE_LEAST * EXPONENT_STEP) == 51);
        lemma_multiple_is_nearest(TWICE_LEAST * EXPONENT_STEP, pow2(51) as int);
    }
}

/// What is rounded to single precision is rounded to itself.
pub proof fn lemma_rounding_settles(bits: u64)
    ensures
        in_single(in_single(bits)) == in_single(bits),
{
    if bits >= SIGN {
        lemma_rounded_settles(bits - SIGN);
    } else {
        lemma_rounded_settles(bits as int);
    }
}

/// How far single precision encodes exponents below where the 64-bit encoding
/// does.
pub const EXPONENT_GAP: u64 = 0x3800_0000_0000_0000;

/// The encodings of the 64-bit encoding that one of single precision stands for.
pub const SINGLE_STEP: u64 = 0x2000_0000;

/// The encoding of infinity in single precision.
pub const SINGLE_INFINITY: u64 = 0x7f80_0000;

/// The bit of single precision that tells apart what is not a number.
pub const SINGLE_QUIET: u64 = 0x40_0000;

/// The sign bit of single precision.
pub const SINGLE_SIGN: u64 = 0x8000_0000;

/// The encodings of one exponent in single precision.
pub const SINGLE_EXPONENT: u64 = 0x80_0000;

/// The single-precision encoding of a number that is not negative and that
/// single precision has. What is not a number keeps its first digits.
pub open spec fn single_magnitude(magnitude: int) -> int {
    if magnitude > INFINITY {
        let digits = (magnitude - INFINITY) / SINGLE_STEP as int;
        SINGLE_INFINITY + (if digits >= SINGLE_QUIET {
            digits
        } else {
            digits + SINGLE_QUIET
        })
    } else if magnitude == INFINITY {
        SINGLE_INFINITY as int
    } else if magnitude >= LEAST_NORMAL {
        (magnitude - EXPONENT_GAP) / SINGLE_STEP as int
    } else if magnitude >= (TWICE_LEAST - 1) * EXPONENT_STEP {
        (EXPONENT_STEP + magnitude % EXPONENT_STEP as int) / pow2(
            (926 - magnitude / EXPONENT_STEP as int) as nat,
        ) as int
    } else {
        0
    }
}

/// The single-precision encoding of a float, rounded to single precision.
pub open spec fn single_pattern(bits: u64) -> u64 {
    if bits >= SIGN {
        (SINGLE_SIGN + single_magnitude(rounded(bits - SIGN))) as u64
    } else {
        single_magnitude(rounded(bits as int)) as u64
    }
}

/// The place of the first digit of a number in base two.
pub open spec fn top_bit(n: nat) -> nat
    decreases n,
{
    if n < 2 {
        0
    } else {
        1 + top_bit(n / 2)
    }
}

/// The 64-bit encoding of a number that is not negative, given in single
/// precision.
pub open spec fn widened_magnitude(pattern: int) -> int {
    let fraction = pattern % SINGLE_EXPONENT as int;
    if pattern > SINGLE_INFINITY {
        INFINITY + (if fraction >= SINGLE_QUIET {
            fraction
        } else {
            fraction + SINGLE_QUIET
        }) * SINGLE_STEP
    } else if pattern == SINGLE_INFINITY {
        INFINITY as int
    } else if pattern >= SINGLE_EXPONENT {
        pattern * SINGLE_STEP + EXPONENT_GAP
    } else if pattern > 0 {
        let top = top_bit(pattern as nat);
        (TWICE_LEAST - 1 + top) * EXPONENT_STEP + (pattern - pow2(top)) * pow2((52 - top) as nat)
    } else {
        0
    }
}

/// The 64-bit encoding of a float that is given by its encoding in single
/// precision.
pub open spec fn widened_pattern(pattern: int) -> u64 {
    if pattern >= SINGLE_SIGN {
        (SIGN + widened_magnitude(pattern - SINGLE_SIGN)) as u64
    } else {
        widened_magnitude(pattern) as u64
    }
}

fn find_single_magnitude(magnitude: u64) -> (pattern: u64)
    requires
        magnitude < SIGN,
        magnitude >= INFINITY || magnitude < LEAST_UNROUNDED,
    ensures
        pattern == single_magnitude(magnitude as int),
        pattern < SINGLE_SIGN,
{
    if magnitude > INFINITY {
        let digits: u64 = (magnitude - INFINITY) / SINGLE_STEP;
        if digits >= SINGLE_QUIET {
            SINGLE_INFINITY + digits
        } else {
            SINGLE_INFINITY + digits + SINGLE_QUIET
        }
    } else if magnitude == INFINITY {
        SINGLE_INFINITY
    } else if magnitude >= LEAST_NORMAL {
        (magnitude - EXPONENT_GAP) / SINGLE_STEP
    } else if magnitude >= (TWICE_LEAST - 1) * EXPONENT_STEP {
        let exponent: u64 = magnitude / EXPONENT_STEP;
        let digits: u64 = EXPONENT_STEP + magnitude % EXPONENT_STEP;
        let unit: u64 = power(926 - exponent);
        proof {
            lemma_pow2_pos((926 - exponent) as nat);
            let d = digits as int;
            let u = unit as int;
            lemma2_to64();
            if 926 - exponent > 30 {
                vstd::arithmetic::power2::lemma_pow2_strictly_increases(30, (926 - exponent) as nat);
            }
            assert(u >= 0x4000_0000);
            assert(d / u <= d / 0x4000_0000) by (nonlinear_arith)
                requires
                    u >= 0x4000_0000,
                    d >= 0,
            ;
        }
        digits / unit
    } else {
        0
    }
}
/// The single-precision encoding of a float; see `single_pattern`.
pub fn find_single_pattern(bits: u64) -> (pattern: u64)
    ensures
        pattern == single_pattern(bits),
        pattern <= 0xffff_ffff,
{
    if bits >= SIGN {
        SINGLE_SIGN + find_single_magnitude(find_rounded(bits - SIGN))
    } else {
        find_single_magnitude(find_rounded(bits))
    }
}

/// A number lies between the power of two of its first digit and twice that.
proof fn lemma_top_bit(n: nat)
    requires
        n > 0,
    ensures
        pow2(top_bit(n)) <= n < pow2(top_bit(n) + 1),
    decreases n,
{
    lemma2_to64();
    if n >= 2 {
        lemma_top_bit(n / 2);
        lemma_pow2_unfold(top_bit(n));
        lemma_pow2_unfold(top_bit(n) + 1);
    }
}

proof fn lemma_top_bit_is(n: nat, k: nat)
    requires
        pow2(k) <= n < pow2(k + 1),
    ensures
        top_bit(n) == k,
{
    lemma_pow2_pos(k);
    lemma_top_bit(n);
    let t = top_bit(n);
    if t < k {
        if t + 1 < k {
            vstd::arithmetic::power2::lemma_pow2_strictly_increases(t + 1, k);
        }
    } else if k < t {
        if k + 1 < t {
            vstd::arithmetic::power2::lemma_pow2_strictly_increases(k + 1, t);
        }
    }
}

/// The 64-bit encoding of a number too small for single precision to have all
/// digits of.
proof fn lemma_small_widened(pattern: int, top: nat)
    requires
        0 < pattern < SINGLE_EXPONENT,
        top == top_bit(pattern as nat),
    ensures
        top <= 22,
        pow2(top) <= pattern < 2 * pow2(top),
        pow2(top) * pow2((52 - top) as nat) == EXPONENT_STEP,
        0 <= (pattern - pow2(top)) * pow2((52 - top) as nat) < EXPONENT_STEP,
{
    lemma_top_bit(pattern as nat);
    lemma2_to64();
    vstd::arithmetic::power2::lemma2_to64_rest();
    if top > 22 {
        if top > 23 {
            vstd::arithmetic::power2::lemma_pow2_strictly_increases(23, top);
        }
        assert(pow2(23) == SINGLE_EXPONENT);
    }
    lemma_pow2_unfold(top + 1);
    lemma_pow2_adds(top, (52 - top) as nat);
    lemma_pow2_pos((52 - top) as nat);
    let p = pow2(top) as int;
    let u = pow2((52 - top) as nat) as int;
    assert(0 <= (pattern - p) * u < p * u) by (nonlinear_arith)
        requires
            u > 0,
            0 <= pattern - p < p,
    ;
}

fn find_widened_magnitude(pattern: u64) -> (magnitude: u64)
    requires
        pattern < SINGLE_SIGN,
    ensures
        magnitude == widened_magnitude(pattern as int),
        magnitude < SIGN,
{
    if pattern > SINGLE_INFINITY {
        let fraction: u64 = pattern % SINGLE_EXPONENT;
        let digits: u64 = if fraction >= SINGLE_QUIET {
            fraction
        } else {
            fraction + SINGLE_QUIET
        };
        INFINITY + digits * SINGLE_STEP
    } else if pattern == SINGLE_INFINITY {
        INFINITY
    } else if pattern >= SINGLE_EXPONENT {
        pattern * SINGLE_STEP + EXPONENT_GAP
    } else if pattern > 0 {
        let mut top: u64 = 0;
        let mut p: u64 = 1;
        proof {
            lemma2_to64();
            lemma_small_widened(pattern as int, top_bit(pattern as nat));
        }
        while 2 * p <= pattern
            invariant
                0 < pattern < SINGLE_EXPONENT,
                p == pow2(top as nat),
                1 <= p <= pattern,
                top <= p,
            decreases pattern - p,
        {
            proof {
                lemma_pow2_unfold((top + 1) as nat);
            }
            p = 2 * p;
            top += 1;
        }
        proof {
            lemma_pow2_unfold((top + 1) as nat);
            lemma_top_bit_is(pattern as nat, top as nat);
            lemma_small_widened(pattern as int, top as nat);
        }
        let unit: u64 = power(52 - top);
        (TWICE_LEAST - 1 + top) * EXPONENT_STEP + (pattern - p) * unit
    } else {
        0
    }
}

/// The 64-bit encoding of a float given in single precision; see
/// `widened_pattern`.
pub fn find_widened_pattern(pattern: u64) -> (bits: u64)
    requires
        pattern <= 0xffff_ffff,
    ensures
        bits == widened_pattern(pattern as int),
{
    if pattern >= SINGLE_SIGN {
        SIGN + find_widened_magnitude(pattern - SINGLE_SIGN)
    } else {
        find_widened_magnitude(pattern)
    }
}

proof fn lemma_small_reads_back(pattern: int)
    requires
        0 < pattern < SINGLE_EXPONENT,
    ensures
        ({
            let wide = widened_magnitude(pattern);
            &&& 0 <= wide < LEAST_NORMAL
            &&& rounded(wide) == wide
            &&& single_magnitude(wide) == pattern
        }),
{
    let top = top_bit(pattern as nat);
    lemma_small_widened(pattern, top);
    let p = pow2(top) as int;
    let u = pow2((52 - top) as nat) as int;
    let wide = widened_magnitude(pattern);
    let fraction = (pattern - p) * u;
    lemma_pow2_pos((52 - top) as nat);
    assert(wide == (TWICE_LEAST - 1 + top) * EXPONENT_STEP + fraction);
    assert(wide / EXPONENT_STEP as int == 874 + top);
    assert(wide % EXPONENT_STEP as int == fraction);
    assert(926 - (874 + top) == 52 - top);
    assert(EXPONENT_STEP + fraction == pattern * u) by (nonlinear_arith)
        requires
            p * u == EXPONENT_STEP,
            fraction == (pattern - p) * u,
    ;
    vstd::arithmetic::div_mod::lemma_div_multiples_vanish(pattern, u);
    if top == 0 {
        lemma2_to64();
        assert(pattern == 1);
        assert(fraction == 0) by (nonlinear_arith)
            requires
                fraction == (pattern - p) * u,
                pattern == p,
        ;
    } else {
        let base = (874 + top) as int * EXPONENT_STEP;
        lemma_step_is_multiple((874 + top) as int, (52 - top) as nat);
        vstd::arithmetic::div_mod::lemma_mod_multiples_basic(pattern - p, u);
        assert(base % u == 0 && fraction % u == 0);
        vstd::arithmetic::div_mod::lemma_add_mod_noop(base, fraction, u);
        assert(0int % u == 0) by (nonlinear_arith)
            requires
                u > 0,
        ;
        assert(wide == base + fraction);
        assert(wide % u == 0);
        assert(lost_bits(wide) == 52 - top);
        lemma_multiple_is_nearest(wide, u);
    }
}

proof fn lemma_magnitude_reads_back(pattern: int)
    requires
        0 <= pattern <= SINGLE_INFINITY,
    ensures
        0 <= widened_magnitude(pattern) < SIGN,
        single_magnitude(rounded(widened_magnitude(pattern))) == pattern,
{
    if pattern == SINGLE_INFINITY || pattern == 0 {
    } else if pattern < SINGLE_EXPONENT {
        lemma_small_reads_back(pattern);
    } else {
        lemma2_to64();
        let wide = widened_magnitude(pattern);
        assert(wide >= LEAST_NORMAL);
        assert(wide % SINGLE_STEP as int == 0);
        assert(wide < TOO_LARGE);
        lemma_multiple_is_nearest(wide, SINGLE_STEP as int);
    }
}

/// A single-precision encoding that is widened and read in single precision is
/// the encoding again, unless it is not that of a number.
pub proof fn lemma_pattern_reads_back(pattern: u64)
    requires
        pattern <= SINGLE_INFINITY || SINGLE_SIGN <= pattern <= SINGLE_SIGN + SINGLE_INFINITY,
    ensures
        single_pattern(widened_pattern(pattern as int)) == pattern,
{
    if pattern >= SINGLE_SIGN {
        lemma_magnitude_reads_back(pattern - SINGLE_SIGN);
    } else {
        lemma_magnitude_reads_back(pattern as int);
    }
}

} // verus!
