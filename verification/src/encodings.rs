//! The numbers that words encode as floats, and what becomes of them where a
//! float is held in a narrow word and computed with in a wide one.

use vstd::arithmetic::div_mod::{
    lemma_div_pos_is_pos, lemma_fundamental_div_mod, lemma_fundamental_div_mod_converse,
    lemma_mod_bound, lemma_mod_multiples_vanish,
};
use vstd::arithmetic::power2::{lemma2_to64, pow2};
use vstd::prelude::*;

use crate::graph::DType;
use crate::storage::{
    format_of, has_infinity, has_one_zero, is_wider, least_exponent, least_wide_exponent, Format,
};

verus! {

/// How many bits of a float type are its exponent, and how many its mantissa.
pub open spec fn fields_of(dtype: DType) -> Option<(nat, nat)> {
    match dtype {
        DType::FP8E4M3 | DType::FP8E4M3FNUZ => Some((4, 3)),
        DType::FP8E5M2 | DType::FP8E5M2FNUZ => Some((5, 2)),
        DType::Float16 => Some((5, 10)),
        DType::BFloat16 => Some((8, 7)),
        DType::Float32 => Some((8, 23)),
        _ => None,
    }
}

/// An encoding follows from the number of bits of exponent and mantissa: the
/// sign is above them, the bias is half of the exponents, or one more where
/// there is a single zero, and the greatest exponent is all ones.
pub proof fn lemma_formats(dtype: DType)
    ensures
        fields_of(dtype) is Some <==> format_of(dtype) is Some,
        fields_of(dtype) matches Some((exponent, mantissa)) ==> {
            let f = format_of(dtype)->0;
            &&& f.bits == 1 + exponent + mantissa
            &&& f.mantissa == mantissa
            &&& f.sign == pow2((exponent + mantissa) as nat)
            &&& f.fraction == pow2(mantissa)
            &&& f.ones == f.sign - f.fraction
            &&& f.bias == pow2((exponent - 1) as nat) - (if has_one_zero(f) {
                0int
            } else {
                1int
            })
            &&& f.top < f.sign
            &&& f.nan <= f.sign
        },
{
    lemma2_to64();
}

/// The word below its sign bit.
pub open spec fn magnitude(f: Format, w: int) -> int {
    w % (f.sign as int)
}

/// Whether the sign bit of a word is set.
pub open spec fn is_negative(f: Format, w: int) -> bool {
    w >= f.sign
}

/// The exponent field of a word.
pub open spec fn exponent(f: Format, w: int) -> int {
    magnitude(f, w) / (f.fraction as int)
}

/// The mantissa field of a word.
pub open spec fn mantissa(f: Format, w: int) -> int {
    w % (f.fraction as int)
}

/// Whether a word encodes an infinity or no number.
pub open spec fn is_special(f: Format, w: int) -> bool {
    if has_infinity(f) {
        magnitude(f, w) >= f.ones
    } else if has_one_zero(f) {
        w == f.nan
    } else {
        magnitude(f, w) == f.nan
    }
}

/// Whether a word encodes an infinity.
pub open spec fn is_infinite(f: Format, w: int) -> bool {
    has_infinity(f) && magnitude(f, w) == f.ones
}

/// Whether a word encodes no number.
pub open spec fn is_nan(f: Format, w: int) -> bool {
    is_special(f, w) && !is_infinite(f, w)
}

/// Whether two words encode the same number: the sign is the same, and so are
/// the power of two and the fraction that the exponent and the mantissa stand
/// for.
pub open spec fn is_same_number(f: Format, a: int, g: Format, b: int) -> bool {
    &&& is_negative(f, a) == is_negative(g, b)
    &&& exponent(f, a) - f.bias == exponent(g, b) - g.bias
    &&& mantissa(f, a) * g.fraction == mantissa(g, b) * f.fraction
}

/// The sign bit of one word in the place of another encoding.
pub open spec fn moved_sign(f: Format, w: int, g: Format) -> int {
    if is_negative(f, w) {
        g.sign as int
    } else {
        0
    }
}

/// How many mantissas of a wide encoding one of a narrow encoding stands for.
pub open spec fn unit_of(narrow: Format, wide: Format) -> int {
    wide.fraction as int / narrow.fraction as int
}

/// The word of a wide encoding for a word of a narrow one. Too small an exponent
/// gives zero.
pub open spec fn widened(narrow: Format, wide: Format, w: int) -> int {
    let scaled = magnitude(narrow, w) * unit_of(narrow, wide);
    moved_sign(narrow, w, wide) + if is_special(narrow, w) {
        (scaled as u64 | (if has_infinity(narrow) {
            wide.ones
        } else {
            wide.nan
        })) as int
    } else if exponent(narrow, w) < least_exponent(narrow, wide) {
        0
    } else {
        scaled + (wide.bias - narrow.bias) * wide.fraction
    }
}

/// A quotient rounded to the nearest whole number, and to the even one of two.
pub open spec fn nearest(x: int, d: int) -> int {
    if x % d * 2 > d || (x % d * 2 == d && x / d % 2 == 1) {
        x / d + 1
    } else {
        x / d
    }
}

/// The word of a narrow encoding for a word of a wide one: the nearest, but no
/// greater than the greatest. Too small a number gives zero.
pub open spec fn narrowed(narrow: Format, wide: Format, w: int) -> int {
    let sign = moved_sign(wide, w, narrow);
    let rounded = nearest(magnitude(wide, w), unit_of(narrow, wide));
    let number = rounded - (wide.bias - narrow.bias) * narrow.fraction;
    if magnitude(wide, w) > wide.ones {
        narrow.nan as int
    } else if rounded < least_wide_exponent(narrow, wide) * narrow.fraction {
        if has_one_zero(narrow) {
            0
        } else {
            sign
        }
    } else if number > narrow.top {
        sign + narrow.top
    } else {
        sign + number
    }
}

/// What becomes of a word that is widened and narrowed again: a number comes
/// back, too small a one as a zero, and what is no number as the one encoding
/// for that.
pub open spec fn returned(narrow: Format, wide: Format, w: int) -> int {
    if is_nan(narrow, w) {
        narrow.nan as int
    } else if exponent(narrow, w) < least_exponent(narrow, wide) {
        if has_one_zero(narrow) {
            0
        } else {
            moved_sign(narrow, w, narrow)
        }
    } else {
        w
    }
}

/// What holds of two encodings of which one is wider.
#[verifier::opaque]
pub open spec fn fits(narrow: Format, wide: Format) -> bool {
    let unit = unit_of(narrow, wide);
    let shift = (wide.bias - narrow.bias) * wide.fraction;
    &&& is_wider(narrow, wide)
    &&& unit == pow2((wide.mantissa - narrow.mantissa) as nat)
    &&& unit >= 2
    &&& unit % 2 == 0
    &&& wide.fraction == narrow.fraction * unit
    &&& wide.sign == narrow.sign * pow2((wide.bits - narrow.bits) as nat)
    &&& wide.bits - narrow.bits < 64
    &&& narrow.fraction == pow2(narrow.mantissa as nat)
    &&& narrow.mantissa < 64
    &&& wide.mantissa < 64
    &&& narrow.sign as int % narrow.fraction as int == 0
    &&& wide.sign as int % wide.fraction as int == 0
    &&& 2 <= 2 * narrow.fraction <= narrow.sign < wide.sign <= 0x8000_0000
    &&& narrow.sign * unit <= wide.sign
    &&& narrow.bias <= 127
    &&& narrow.bias <= wide.bias + 1
    &&& wide.bias <= 127
    &&& narrow.ones == narrow.sign - narrow.fraction
    &&& wide.ones == wide.sign - wide.fraction
    &&& wide.ones < wide.nan < wide.sign
    &&& has_infinity(wide)
    &&& !has_one_zero(wide)
    &&& narrow.nan <= narrow.sign
    &&& if has_infinity(narrow) {
        &&& narrow.ones * unit + shift <= wide.ones
        &&& wide.bias >= narrow.bias
    } else {
        &&& narrow.sign * unit + shift <= wide.ones
        &&& if has_one_zero(narrow) {
            narrow.top == narrow.sign - 1
        } else {
            narrow.nan == narrow.sign - 1 && narrow.top == narrow.sign - 2
        }
    }
    &&& {
        ||| narrow.sign == 0x80
        ||| narrow.sign == 0x8000
    }
    &&& {
        ||| wide.fraction == 0x400 && wide.sign == 0x8000
        ||| wide.fraction == 0x80 && wide.sign == 0x8000
        ||| wide.fraction == 0x80_0000 && wide.sign == 0x8000_0000
    }
}

/// An encoding and a wider one fit together.
pub proof fn lemma_fits(from: DType, to: DType)
    requires
        format_of(from) is Some,
        format_of(to) is Some,
        is_wider(format_of(from)->0, format_of(to)->0),
    ensures
        fits(format_of(from)->0, format_of(to)->0),
{
    reveal(fits);
    lemma2_to64();
    let narrow = format_of(from)->0;
    let wide = format_of(to)->0;
    let unit: int = unit_of(narrow, wide);
    let d: int = wide.bias - narrow.bias;
    match to {
        DType::Float16 => match from {
            DType::FP8E4M3 => {
                assert(unit == 128) by (nonlinear_arith)
                    requires
                        unit == wide.fraction as int / narrow.fraction as int,
                        wide.fraction == 0x400,
                        narrow.fraction == 8,
                ;
                assert(d == 8);
            },
            DType::FP8E5M2 => {
                assert(unit == 256) by (nonlinear_arith)
                    requires
                        unit == wide.fraction as int / narrow.fraction as int,
                        wide.fraction == 0x400,
                        narrow.fraction == 4,
                ;
                assert(d == 0);
            },
            DType::FP8E4M3FNUZ => {
                assert(unit == 128) by (nonlinear_arith)
                    requires
                        unit == wide.fraction as int / narrow.fraction as int,
                        wide.fraction == 0x400,
                        narrow.fraction == 8,
                ;
                assert(d == 7);
            },
            DType::FP8E5M2FNUZ => {
                assert(unit == 256) by (nonlinear_arith)
                    requires
                        unit == wide.fraction as int / narrow.fraction as int,
                        wide.fraction == 0x400,
                        narrow.fraction == 4,
                ;
                assert(d == -1);
            },
            _ => {},
        },
        DType::BFloat16 => match from {
            DType::FP8E4M3 => {
                assert(unit == 16) by (nonlinear_arith)
                    requires
                        unit == wide.fraction as int / narrow.fraction as int,
                        wide.fraction == 0x80,
                        narrow.fraction == 8,
                ;
                assert(d == 120);
            },
            DType::FP8E5M2 => {
                assert(unit == 32) by (nonlinear_arith)
                    requires
                        unit == wide.fraction as int / narrow.fraction as int,
                        wide.fraction == 0x80,
                        narrow.fraction == 4,
                ;
                assert(d == 112);
            },
            DType::FP8E4M3FNUZ => {
                assert(unit == 16) by (nonlinear_arith)
                    requires
                        unit == wide.fraction as int / narrow.fraction as int,
                        wide.fraction == 0x80,
                        narrow.fraction == 8,
                ;
                assert(d == 119);
            },
            DType::FP8E5M2FNUZ => {
                assert(unit == 32) by (nonlinear_arith)
                    requires
                        unit == wide.fraction as int / narrow.fraction as int,
                        wide.fraction == 0x80,
                        narrow.fraction == 4,
                ;
                assert(d == 111);
            },
            _ => {},
        },
        DType::Float32 => match from {
            DType::FP8E4M3 => {
                assert(unit == 1048576) by (nonlinear_arith)
                    requires
                        unit == wide.fraction as int / narrow.fraction as int,
                        wide.fraction == 0x80_0000,
                        narrow.fraction == 8,
                ;
                assert(d == 120);
            },
            DType::FP8E5M2 => {
                assert(unit == 2097152) by (nonlinear_arith)
                    requires
                        unit == wide.fraction as int / narrow.fraction as int,
                        wide.fraction == 0x80_0000,
                        narrow.fraction == 4,
                ;
                assert(d == 112);
            },
            DType::FP8E4M3FNUZ => {
                assert(unit == 1048576) by (nonlinear_arith)
                    requires
                        unit == wide.fraction as int / narrow.fraction as int,
                        wide.fraction == 0x80_0000,
                        narrow.fraction == 8,
                ;
                assert(d == 119);
            },
            DType::FP8E5M2FNUZ => {
                assert(unit == 2097152) by (nonlinear_arith)
                    requires
                        unit == wide.fraction as int / narrow.fraction as int,
                        wide.fraction == 0x80_0000,
                        narrow.fraction == 4,
                ;
                assert(d == 111);
            },
            DType::Float16 => {
                assert(unit == 8192) by (nonlinear_arith)
                    requires
                        unit == wide.fraction as int / narrow.fraction as int,
                        wide.fraction == 0x80_0000,
                        narrow.fraction == 0x400,
                ;
                assert(d == 112);
            },
            DType::BFloat16 => {
                assert(unit == 65536) by (nonlinear_arith)
                    requires
                        unit == wide.fraction as int / narrow.fraction as int,
                        wide.fraction == 0x80_0000,
                        narrow.fraction == 0x80,
                ;
                assert(d == 0);
            },
            _ => {},
        },
        _ => {},
    }
}

/// Whether a number is a word of an encoding.
pub open spec fn is_word(f: Format, w: int) -> bool {
    0 <= w < 2 * f.sign
}

/// The fields of a word.
proof fn lemma_fields(f: Format, w: int)
    requires
        is_word(f, w),
        f.fraction > 0,
        f.sign > 0,
        f.sign as int % f.fraction as int == 0,
    ensures
        w == moved_sign(f, w, f) + magnitude(f, w),
        0 <= magnitude(f, w) < f.sign,
        magnitude(f, w) == exponent(f, w) * f.fraction + mantissa(f, w),
        0 <= mantissa(f, w) < f.fraction,
        0 <= exponent(f, w),
{
    let (s, d) = (f.sign as int, f.fraction as int);
    lemma_fundamental_div_mod(w, s);
    assert(w / s == (if w >= s {
        1int
    } else {
        0int
    })) by (nonlinear_arith)
        requires
            0 <= w < 2 * s,
            s > 0,
    ;
    assert(s * 1 == s && s * 0 == 0);
    let rest = magnitude(f, w);
    lemma_fundamental_div_mod(rest, d);
    lemma_fundamental_div_mod(s, d);
    assert(d * (rest / d) == (rest / d) * d) by (nonlinear_arith);
    lemma_mod_multiples_vanish(
        if w >= s {
            s / d
        } else {
            0
        },
        rest,
        d,
    );
    assert(w % d == rest % d) by {
        assert(d * 0 == 0);
    }
    lemma_mod_bound(rest, d);
    lemma_mod_bound(w, s);
    lemma_div_pos_is_pos(rest, d);
}

/// The fields of a word that is made of an exponent and a mantissa.
proof fn lemma_made_of(f: Format, sign: int, e: int, m: int)
    requires
        f.fraction > 0,
        f.sign > 0,
        f.sign as int % f.fraction as int == 0,
        sign == 0 || sign == f.sign,
        0 <= m < f.fraction,
        0 <= e,
        e * f.fraction + m < f.sign,
    ensures
        ({
            let w = sign + e * f.fraction + m;
            &&& is_word(f, w)
            &&& is_negative(f, w) == (sign == f.sign)
            &&& magnitude(f, w) == e * f.fraction + m
            &&& exponent(f, w) == e
            &&& mantissa(f, w) == m
        }),
{
    let w = sign + e * f.fraction + m;
    let rest = e * f.fraction + m;
    assert(e * f.fraction >= 0) by (nonlinear_arith)
        requires
            e >= 0,
            f.fraction > 0,
    ;
    lemma_fundamental_div_mod_converse(
        w,
        f.sign as int,
        if sign == 0 {
            0
        } else {
            1
        },
        rest,
    );
    lemma_fundamental_div_mod_converse(rest, f.fraction as int, e, m);
    lemma_fields(f, w);
}

/// A number scaled to a wide encoding.
proof fn lemma_scaled(narrow: Format, wide: Format, w: int)
    requires
        fits(narrow, wide),
        is_word(narrow, w),
    ensures
        ({
            let unit = unit_of(narrow, wide);
            let scaled = magnitude(narrow, w) * unit;
            &&& scaled == exponent(narrow, w) * wide.fraction + mantissa(narrow, w) * unit
            &&& 0 <= mantissa(narrow, w) * unit < wide.fraction
            &&& 0 <= scaled < narrow.sign * unit <= wide.sign
            &&& has_infinity(narrow) && !is_special(narrow, w) ==> scaled < narrow.ones * unit
            &&& (wide.bias - narrow.bias + exponent(narrow, w)) * wide.fraction == (wide.bias
                - narrow.bias) * wide.fraction + exponent(narrow, w) * wide.fraction
        }),
{
    reveal(fits);
    let unit = unit_of(narrow, wide);
    let (rest, e, m) = (magnitude(narrow, w), exponent(narrow, w), mantissa(narrow, w));
    lemma_fields(narrow, w);
    assert(rest * unit == e * (narrow.fraction * unit) + m * unit) by (nonlinear_arith)
        requires
            rest == e * narrow.fraction + m,
    ;
    assert(0 <= m * unit < narrow.fraction * unit) by (nonlinear_arith)
        requires
            0 <= m < narrow.fraction,
            unit >= 2,
    ;
    assert(0 <= rest * unit < narrow.sign * unit) by (nonlinear_arith)
        requires
            0 <= rest < narrow.sign,
            unit >= 2,
    ;
    if has_infinity(narrow) && !is_special(narrow, w) {
        assert(rest * unit < narrow.ones * unit) by (nonlinear_arith)
            requires
                rest < narrow.ones,
                unit >= 2,
        ;
    }
    let d = wide.bias - narrow.bias;
    assert((d + e) * wide.fraction == d * wide.fraction + e * wide.fraction) by (nonlinear_arith);
}

/// A number that is not too small, in a wide encoding.
proof fn lemma_widened_number(narrow: Format, wide: Format, w: int)
    requires
        fits(narrow, wide),
        is_word(narrow, w),
        !is_special(narrow, w),
        exponent(narrow, w) >= least_exponent(narrow, wide),
    ensures
        ({
            let new = widened(narrow, wide, w);
            let e = exponent(narrow, w) + wide.bias - narrow.bias;
            let m = mantissa(narrow, w) * unit_of(narrow, wide);
            &&& is_word(wide, new)
            &&& is_negative(wide, new) == is_negative(narrow, w)
            &&& exponent(wide, new) == e
            &&& mantissa(wide, new) == m
            &&& magnitude(wide, new) == e * wide.fraction + m
            &&& magnitude(wide, new) < wide.ones
            &&& e >= 1
        }),
{
    reveal(fits);
    let new = widened(narrow, wide, w);
    let e = exponent(narrow, w) + wide.bias - narrow.bias;
    let m = mantissa(narrow, w) * unit_of(narrow, wide);
    lemma_scaled(narrow, wide, w);
    lemma_fields(narrow, w);
    lemma_made_of(wide, moved_sign(narrow, w, wide), e, m);
}

/// What is special, in a wide encoding.
proof fn lemma_widened_special(narrow: Format, wide: Format, w: int)
    requires
        fits(narrow, wide),
        is_word(narrow, w),
        is_special(narrow, w),
    ensures
        ({
            let new = widened(narrow, wide, w);
            &&& is_word(wide, new)
            &&& is_negative(wide, new) == is_negative(narrow, w)
            &&& magnitude(wide, new) >= wide.ones
            &&& is_infinite(narrow, w) <==> magnitude(wide, new) == wide.ones
        }),
{
    reveal(fits);
    let scaled = magnitude(narrow, w) * unit_of(narrow, wide);
    let sign = moved_sign(narrow, w, wide);
    lemma_scaled(narrow, wide, w);
    lemma_fields(narrow, w);
    lemma_ored(scaled as u64, wide.ones, wide.sign, wide.fraction);
    lemma_or_within(scaled as u64, wide.nan, wide.sign);
    let f = narrow.fraction as int;
    let m = mantissa(narrow, w) * unit_of(narrow, wide);
    let e = exponent(narrow, w);
    lemma_fundamental_div_mod_converse(scaled, wide.fraction as int, e, m);
    let new = widened(narrow, wide, w);
    let rest = new - sign;
    lemma_fundamental_div_mod_converse(
        new,
        wide.sign as int,
        if sign == 0 {
            0
        } else {
            1
        },
        rest,
    );
    if has_infinity(narrow) {
        assert(m == 0 <==> mantissa(narrow, w) == 0) by (nonlinear_arith)
            requires
                m == mantissa(narrow, w) * unit_of(narrow, wide),
                unit_of(narrow, wide) >= 2,
        ;
        lemma_fundamental_div_mod(narrow.sign as int, f);
        let k = narrow.sign as int / f;
        assert(narrow.ones == (k - 1) * f) by (nonlinear_arith)
            requires
                narrow.ones == narrow.sign - f,
                narrow.sign == f * k,
        ;
        if mantissa(narrow, w) == 0 {
            assert(e * f >= (k - 1) * f && e * f < k * f) by {
                assert(f * k == k * f) by (nonlinear_arith);
            }
            assert(e == k - 1) by (nonlinear_arith)
                requires
                    e * f >= (k - 1) * f,
                    e * f < k * f,
                    f > 0,
            ;
        } else if magnitude(narrow, w) == narrow.ones {
            lemma_fundamental_div_mod_converse(magnitude(narrow, w), f, k - 1, 0);
            lemma_fundamental_div_mod_converse(
                magnitude(narrow, w),
                f,
                e,
                mantissa(narrow, w),
            );
        }
    }
}

/// Widening keeps a number, too small a one becomes a zero of the same sign, an
/// infinity stays one, and so does what is no number.
pub proof fn lemma_widened_is_same_number(from: DType, to: DType, w: int)
    requires
        format_of(from) is Some,
        format_of(to) is Some,
        is_wider(format_of(from)->0, format_of(to)->0),
        is_word(format_of(from)->0, w),
    ensures
        ({
            let (narrow, wide) = (format_of(from)->0, format_of(to)->0);
            let new = widened(narrow, wide, w);
            &&& is_word(wide, new)
            &&& is_negative(wide, new) == is_negative(narrow, w)
            &&& is_infinite(wide, new) == is_infinite(narrow, w)
            &&& is_nan(wide, new) == is_nan(narrow, w)
            &&& !is_special(narrow, w) ==> if exponent(narrow, w) < least_exponent(narrow, wide) {
                magnitude(wide, new) == 0
            } else {
                is_same_number(narrow, w, wide, new)
            }
        }),
{
    reveal(fits);
    let (narrow, wide) = (format_of(from)->0, format_of(to)->0);
    lemma_fits(from, to);
    if is_special(narrow, w) {
        lemma_widened_special(narrow, wide, w);
    } else if exponent(narrow, w) < least_exponent(narrow, wide) {
        assert(0 * wide.fraction == 0);
        lemma_made_of(wide, moved_sign(narrow, w, wide), 0, 0);
    } else {
        lemma_widened_number(narrow, wide, w);
        let (m, unit) = (mantissa(narrow, w), unit_of(narrow, wide));
        assert(m * (narrow.fraction * unit) == m * unit * narrow.fraction) by (nonlinear_arith);
    }
}

/// A multiple is rounded to what it is a multiple of.
proof fn lemma_nearest_of_multiple(k: int, d: int)
    requires
        d >= 2,
    ensures
        nearest(k * d, d) == k,
{
    lemma_fundamental_div_mod_converse(k * d, d, k, 0);
}

/// Widened and narrowed again, every number that is not too small comes back,
/// and so does an infinity. Too small a number comes back as a zero, of the same
/// sign where there are two.
pub proof fn lemma_narrowed_comes_back(from: DType, to: DType, w: int)
    requires
        format_of(from) is Some,
        format_of(to) is Some,
        is_wider(format_of(from)->0, format_of(to)->0),
        is_word(format_of(from)->0, w),
    ensures
        ({
            let (narrow, wide) = (format_of(from)->0, format_of(to)->0);
            narrowed(narrow, wide, widened(narrow, wide, w)) == returned(narrow, wide, w)
        }),
{
    reveal(fits);
    let (narrow, wide) = (format_of(from)->0, format_of(to)->0);
    let new = widened(narrow, wide, w);
    let unit = unit_of(narrow, wide);
    let f = narrow.fraction as int;
    let d = wide.bias - narrow.bias;
    lemma_fits(from, to);
    lemma_fields(narrow, w);
    if is_special(narrow, w) {
        lemma_widened_special(narrow, wide, w);
        if is_infinite(narrow, w) {
            lemma_infinity_comes_back(narrow, wide, w);
        }
    } else if exponent(narrow, w) < least_exponent(narrow, wide) {
        assert(0 * wide.fraction == 0);
        lemma_made_of(wide, moved_sign(narrow, w, wide), 0, 0);
        assert(0 * unit == 0);
        lemma_nearest_of_multiple(0, unit);
        let least = least_wide_exponent(narrow, wide);
        assert(least * f > 0) by (nonlinear_arith)
            requires
                least >= 1,
                f >= 1,
        ;
    } else {
        lemma_widened_number(narrow, wide, w);
        let e = exponent(narrow, w);
        let m = mantissa(narrow, w);
        let k = (e + d) * f + m;
        assert((e + d) * (f * unit) + m * unit == k * unit) by (nonlinear_arith)
            requires
                k == (e + d) * f + m,
        ;
        lemma_nearest_of_multiple(k, unit);
        assert(k - d * f == e * f + m) by (nonlinear_arith)
            requires
                k == (e + d) * f + m,
        ;
        let least = least_wide_exponent(narrow, wide);
        assert(k >= least * f) by (nonlinear_arith)
            requires
                k == (e + d) * f + m,
                m >= 0,
                e + d >= least,
                f >= 1,
        ;
    }
}

proof fn lemma_infinity_comes_back(narrow: Format, wide: Format, w: int)
    requires
        fits(narrow, wide),
        is_word(narrow, w),
        is_infinite(narrow, w),
    ensures
        narrowed(narrow, wide, widened(narrow, wide, w)) == w,
        exponent(narrow, w) >= least_exponent(narrow, wide),
{
    reveal(fits);
    let unit = unit_of(narrow, wide);
    let f = narrow.fraction as int;
    let d = wide.bias - narrow.bias;
    lemma_widened_special(narrow, wide, w);
    lemma_fields(narrow, w);
    lemma_fundamental_div_mod(wide.sign as int, wide.fraction as int);
    let n = wide.sign as int / wide.fraction as int;
    let k = (n - 1) * f;
    assert(wide.ones == k * unit) by (nonlinear_arith)
        requires
            wide.ones == wide.sign - wide.fraction,
            wide.sign == wide.fraction * n,
            wide.fraction == f * unit,
            k == (n - 1) * f,
    ;
    lemma_nearest_of_multiple(k, unit);
    assert(k - d * f >= narrow.ones) by (nonlinear_arith)
        requires
            narrow.ones * unit + d * wide.fraction <= wide.ones,
            wide.ones == k * unit,
            wide.fraction == f * unit,
            unit >= 2,
    ;
    assert(k >= (d + 1) * f) by (nonlinear_arith)
        requires
            k - d * f >= narrow.ones,
            narrow.ones >= f,
    ;
    let e = exponent(narrow, w);
    assert(e >= 1) by (nonlinear_arith)
        requires
            e * f + mantissa(narrow, w) >= f,
            mantissa(narrow, w) < f,
            f >= 1,
    ;
}

/// The bits of an exponent of ones, set in a word.
proof fn lemma_ored(x: u64, ones: u64, sign: u64, fraction: u64)
    requires
        x < sign,
        ones == sign - fraction,
        fraction == 0x400 && sign == 0x8000 || fraction == 0x80 && sign == 0x8000 || fraction
            == 0x80_0000 && sign == 0x8000_0000,
    ensures
        x | ones == ones + x % fraction,
{
    if fraction == 0x400 {
        assert(x < 0x8000 ==> x | 0x7c00 == 0x7c00 + x % 0x400) by (bit_vector);
    } else if fraction == 0x80 {
        assert(x < 0x8000 ==> x | 0x7f80 == 0x7f80 + x % 0x80) by (bit_vector);
    } else {
        assert(x < 0x8000_0000 ==> x | 0x7f80_0000 == 0x7f80_0000 + x % 0x80_0000) by (bit_vector);
    }
}

proof fn lemma_or_within(x: u64, y: u64, sign: u64)
    requires
        x < sign,
        y < sign,
        sign == 0x8000 || sign == 0x8000_0000,
    ensures
        y <= x | y < sign,
{
    if sign == 0x8000 {
        assert(x < 0x8000 && y < 0x8000 ==> y <= x | y && x | y < 0x8000) by (bit_vector);
    } else {
        assert(x < 0x8000_0000 && y < 0x8000_0000 ==> y <= x | y && x | y < 0x8000_0000) by (
        bit_vector);
    }
}

} // verus!
