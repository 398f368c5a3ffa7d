//! What the nodes are folded to that carry a float from a narrow word to a wide
//! one, and back.

use vstd::arithmetic::div_mod::{
    lemma_fundamental_div_mod, lemma_fundamental_div_mod_converse, lemma_mod_bound, lemma_small_mod,
};
use vstd::arithmetic::power2::{lemma_pow2_pos, pow2};
use vstd::prelude::*;

use crate::builders::{const_node, put};
use crate::dce::where_node;
use crate::encodings::{
    exponent, fits, is_negative, is_special, is_word, lemma_fits, lemma_narrowed_comes_back,
    lemma_widened_is_same_number, magnitude, moved_sign, narrowed, nearest, returned, unit_of,
    widened,
};
use crate::fold::{binary_number, cast_number, is_signed, modulus, typed, value_of, word, Known};
use crate::graph::{BinaryOp, ConstValue, DType, NodeView, Op};
use crate::late::pair_node;
use crate::storage::{
    bits_of, flushed, format_of, has_infinity, has_one_zero, is_wider, least_exponent,
    least_wide_exponent, lowered, lowered_magnitude, lowered_word, not_number, raised,
    raised_magnitude, raised_rest, raised_sign, rebias, rounded_off, unary_node, unless_nan,
    unless_small, with_uint, word_of, Format,
};
use crate::values::{
    has_room, has_truth, has_word, keeps_values, lemma_bits_node, lemma_cast_word, lemma_const_word,
    lemma_keeps_twice, lemma_kept_truth, lemma_kept_word, lemma_pair_truth, lemma_pair_word,
    lemma_uint_truth, lemma_uint_word, lemma_where_word, pair_value,
};

verus! {

/// Whether the words of an encoding are the values of their type.
#[verifier::opaque]
pub open spec fn is_sized(f: Format) -> bool {
    &&& modulus(word_of(f)) == Some(2 * f.sign as int)
    &&& !is_signed(word_of(f))
    &&& word_of(f) != DType::Bool
    &&& f.sign == 0x80 || f.sign == 0x8000 || f.sign == 0x8000_0000
}

proof fn lemma_is_sized(dtype: DType)
    ensures
        format_of(dtype) matches Some(f) ==> is_sized(f),
{
    reveal(is_sized);
}

/// A number as a word of an encoding.
proof fn lemma_wraps(f: Format, n: int)
    requires
        is_sized(f),
    ensures
        0 <= n % (2 * f.sign as int) < 2 * f.sign <= 0x1_0000_0000,
        f.sign > 0,
        typed(n, word_of(f)) == Some(ConstValue::UInt((n % (2 * f.sign as int)) as u64)),
        cast_number(n, word_of(f)) == typed(n, word_of(f)),
        0 <= n < 2 * f.sign ==> n % (2 * f.sign as int) == n,
{
    reveal(is_sized);
    lemma_mod_bound(n, 2 * f.sign as int);
    if 0 <= n < 2 * f.sign {
        lemma_small_mod(n as nat, (2 * f.sign) as nat);
    }
}

/// The bits of a number below a power of two.
proof fn lemma_low_bits(f: Format, x: int)
    requires
        is_sized(f),
        is_word(f, x),
    ensures
        f.sign > 0,
        binary_number(BinaryOp::And, x, f.sign as int) == Some(moved_sign(f, x, f)),
        pair_value(BinaryOp::And, x, f.sign - 1, word_of(f)) == Some(
            ConstValue::UInt(magnitude(f, x) as u64),
        ),
        pair_value(BinaryOp::And, x, f.sign as int, word_of(f)) == Some(
            ConstValue::UInt(moved_sign(f, x, f) as u64),
        ),
        0 <= magnitude(f, x) < f.sign,
{
    reveal(is_sized);
    let w = x as u64;
    let sign = f.sign;
    lemma_word(x);
    lemma_word(sign as int);
    lemma_word(sign - 1);
    lemma_mod_bound(x, sign as int);
    if sign == 0x80 {
        assert(w < 0x100 ==> w & 0x7f == w % 0x80 && w & 0x80 == (if w >= 0x80 {
            0x80u64
        } else {
            0u64
        })) by (bit_vector);
    } else if sign == 0x8000 {
        assert(w < 0x1_0000 ==> w & 0x7fff == w % 0x8000 && w & 0x8000 == (if w >= 0x8000 {
            0x8000u64
        } else {
            0u64
        })) by (bit_vector);
    } else {
        assert(w < 0x1_0000_0000 ==> w & 0x7fff_ffff == w % 0x8000_0000 && w & 0x8000_0000 == (if w
            >= 0x8000_0000 {
            0x8000_0000u64
        } else {
            0u64
        })) by (bit_vector);
    }
    lemma_wraps(f, magnitude(f, x));
    lemma_wraps(f, moved_sign(f, x, f));
}

proof fn lemma_word(n: int)
    requires
        0 <= n <= u64::MAX,
    ensures
        word(n) == n,
{
    lemma_small_mod(n as nat, 0x1_0000_0000_0000_0000);
}

/// A sign bit above other bits.
proof fn lemma_signed_bits(f: Format, x: int, y: int)
    requires
        is_sized(f),
        x == 0 || x == f.sign,
        0 <= y < f.sign,
    ensures
        0 <= x + y <= u64::MAX,
        binary_number(BinaryOp::Or, x, y) == Some(x + y),
        pair_value(BinaryOp::Or, x, y, word_of(f)) == Some(ConstValue::UInt((x + y) as u64)),
{
    reveal(is_sized);
    lemma_word(x);
    lemma_word(y);
    let b = y as u64;
    if x == 0 {
        assert(0u64 | b == b) by (bit_vector);
    } else if f.sign == 0x80 {
        assert(b < 0x80 ==> 0x80u64 | b == 0x80 + b) by (bit_vector);
    } else if f.sign == 0x8000 {
        assert(b < 0x8000 ==> 0x8000u64 | b == 0x8000 + b) by (bit_vector);
    } else {
        assert(b < 0x8000_0000 ==> 0x8000_0000u64 | b == 0x8000_0000 + b) by (bit_vector);
    }
    lemma_wraps(f, x + y);
}

proof fn lemma_sign_moves(narrow: Format, wide: Format, w: int)
    requires
        fits(narrow, wide),
        is_sized(narrow),
        is_sized(wide),
    ensures
        ({
            let n = moved_sign(narrow, w, narrow);
            let up = (wide.bits - narrow.bits) as u64;
            &&& cast_number(n, word_of(wide)) == Some(ConstValue::UInt(n as u64))
            &&& pair_value(BinaryOp::Shl, n, up as int, word_of(wide)) == Some(
                ConstValue::UInt(moved_sign(narrow, w, wide) as u64),
            )
        }),
{
    reveal(fits);
    let n = moved_sign(narrow, w, narrow);
    let up = (wide.bits - narrow.bits) as u64;
    lemma_wraps(wide, n);
    lemma_wraps(wide, moved_sign(narrow, w, wide));
    assert(0 * pow2(up as nat) == 0);
}

proof fn lemma_raised_sign(
    dag: Seq<NodeView>,
    known: Known,
    narrow: Format,
    wide: Format,
    id: usize,
    w: int,
    k: nat,
)
    requires
        has_room(dag, known, k),
        k >= 5,
        fits(narrow, wide),
        is_sized(narrow),
        is_sized(wide),
        is_word(narrow, w),
        has_word(dag, known, id, word_of(narrow), w),
    ensures
        ({
            let new = raised_sign(dag, narrow, wide, id);
            &&& keeps_values(dag, new.dag, known, 5)
            &&& has_room(new.dag, known, (k - 5) as nat)
            &&& has_word(new.dag, known, new.id, word_of(wide), moved_sign(narrow, w, wide))
        }),
{
    let (s, t) = (word_of(narrow), word_of(wide));
    let n: int = moved_sign(narrow, w, narrow);
    lemma_low_bits(narrow, w);
    lemma_sign_moves(narrow, wide, w);
    let bit = with_uint(dag, BinaryOp::And, s, s, id, narrow.sign);
    lemma_uint_word(dag, known, BinaryOp::And, s, s, id, narrow.sign, s, w, n, k);
    let cast = put(bit.dag, unary_node(Op::Cast, t, bit.id));
    lemma_cast_word(bit.dag, known, t, bit.id, s, n, n, (k - 2) as nat);
    lemma_keeps_twice(dag, bit.dag, cast.dag, known, 2, 1);
    let up = (wide.bits - narrow.bits) as u64;
    let new = raised_sign(dag, narrow, wide, id);
    let all = moved_sign(narrow, w, wide);
    lemma_uint_word(
        cast.dag,
        known,
        BinaryOp::Shl,
        t,
        t,
        cast.id,
        up,
        t,
        n,
        all,
        (k - 3) as nat,
    );
    lemma_keeps_twice(dag, cast.dag, new.dag, known, 3, 2);
}

proof fn lemma_raised_rest(
    dag: Seq<NodeView>,
    known: Known,
    narrow: Format,
    wide: Format,
    id: usize,
    w: int,
    k: nat,
)
    requires
        has_room(dag, known, k),
        k >= 3,
        fits(narrow, wide),
        is_sized(narrow),
        is_sized(wide),
        is_word(narrow, w),
        has_word(dag, known, id, word_of(narrow), w),
    ensures
        ({
            let new = raised_rest(dag, narrow, wide, id);
            &&& keeps_values(dag, new.dag, known, 3)
            &&& has_room(new.dag, known, (k - 3) as nat)
            &&& has_word(new.dag, known, new.id, word_of(wide), magnitude(narrow, w))
        }),
{
    let (s, t) = (word_of(narrow), word_of(wide));
    let mask = (narrow.sign - 1) as u64;
    let m = magnitude(narrow, w);
    lemma_low_bits(narrow, w);
    lemma_wraps(wide, m);
    assert(m < 2 * wide.sign) by {
        reveal(fits);
    }
    let bits = with_uint(dag, BinaryOp::And, s, s, id, mask);
    lemma_uint_word(dag, known, BinaryOp::And, s, s, id, mask, s, w, m, k);
    lemma_cast_word(bits.dag, known, t, bits.id, s, m, m, (k - 2) as nat);
    let new = raised_rest(dag, narrow, wide, id);
    lemma_keeps_twice(dag, bits.dag, new.dag, known, 2, 1);
}

proof fn lemma_is_special(narrow: Format, wide: Format, w: int)
    requires
        fits(narrow, wide),
        is_word(narrow, w),
        has_infinity(narrow),
    ensures
        ({
            let top = (narrow.ones / narrow.fraction) as u64;
            is_special(narrow, w) == (exponent(narrow, w) == top)
        }),
{
    reveal(fits);
    let (m, f, o) = (magnitude(narrow, w), narrow.fraction as int, narrow.ones as int);
    lemma_mod_bound(w, narrow.sign as int);
    lemma_fundamental_div_mod(m, f);
    lemma_mod_bound(m, f);
    lemma_fundamental_div_mod(narrow.sign as int, f);
    let k = narrow.sign as int / f;
    assert(o == (k - 1) * f + 0) by (nonlinear_arith)
        requires
            o == narrow.sign - f,
            narrow.sign == f * k,
    ;
    lemma_fundamental_div_mod_converse(o, f, k - 1, 0);
    let top = (narrow.ones / narrow.fraction) as u64;
    assert(0 <= o / f <= o) by (nonlinear_arith)
        requires
            f >= 1,
            o >= 0,
    ;
    assert(top == o / f);
    let e = m / f;
    assert(e == k - 1 <==> m >= o) by (nonlinear_arith)
        requires
            m == f * e + m % f,
            0 <= m % f < f,
            o == (k - 1) * f,
            m < f * k,
    ;
}

proof fn lemma_not_number(
    dag: Seq<NodeView>,
    known: Known,
    narrow: Format,
    wide: Format,
    id: usize,
    rest: usize,
    field: usize,
    w: int,
    k: nat,
)
    requires
        has_room(dag, known, k),
        k >= 2,
        fits(narrow, wide),
        is_word(narrow, w),
        has_word(dag, known, id, word_of(narrow), w),
        has_word(dag, known, rest, word_of(wide), magnitude(narrow, w)),
        has_word(dag, known, field, word_of(wide), exponent(narrow, w)),
    ensures
        ({
            let new = not_number(dag, narrow, wide, id, rest, field);
            &&& keeps_values(dag, new.dag, known, 2)
            &&& has_room(new.dag, known, (k - 2) as nat)
            &&& has_truth(new.dag, known, new.id, is_special(narrow, w))
        }),
{
    let (s, t) = (word_of(narrow), word_of(wide));
    let eq = BinaryOp::Eq;
    let yes = is_special(narrow, w);
    if has_infinity(narrow) {
        lemma_is_special(narrow, wide, w);
        let top = (narrow.ones / narrow.fraction) as u64;
        lemma_uint_truth(dag, known, eq, t, field, top, t, exponent(narrow, w), yes, k);
    } else if has_one_zero(narrow) {
        lemma_uint_truth(dag, known, eq, s, id, narrow.nan, s, w, yes, k);
    } else {
        lemma_uint_truth(dag, known, eq, t, rest, narrow.nan, t, magnitude(narrow, w), yes, k);
    }
}

/// A number, or zero where an exponent is too small.
spec fn unless_less(e: int, least: int, n: int) -> int {
    if e < least {
        0
    } else {
        n
    }
}

proof fn lemma_unless_small(
    dag: Seq<NodeView>,
    known: Known,
    narrow: Format,
    wide: Format,
    field: usize,
    number: usize,
    e: int,
    n: int,
    k: nat,
)
    requires
        has_room(dag, known, k),
        k >= 4,
        has_word(dag, known, field, word_of(wide), e),
        has_word(dag, known, number, word_of(wide), n),
    ensures
        ({
            let new = unless_small(dag, narrow, wide, field, number);
            let least = least_exponent(narrow, wide) as int;
            &&& keeps_values(dag, new.dag, known, 4)
            &&& has_room(new.dag, known, (k - 4) as nat)
            &&& has_word(new.dag, known, new.id, word_of(wide), unless_less(e, least, n))
        }),
{
    let t = word_of(wide);
    let least = least_exponent(narrow, wide);
    let yes = e < least;
    let small = with_uint(dag, BinaryOp::Lt, DType::Bool, t, field, least);
    lemma_uint_truth(dag, known, BinaryOp::Lt, t, field, least, t, e, yes, k);
    let zero = put(small.dag, const_node(ConstValue::UInt(0), t));
    lemma_const_word(small.dag, known, 0, t, (k - 2) as nat);
    lemma_keeps_twice(dag, small.dag, zero.dag, known, 2, 1);
    lemma_kept_truth(small.dag, zero.dag, known, 1, small.id, yes);
    lemma_kept_word(dag, zero.dag, known, 3, number, t, n);
    lemma_where_word(
        zero.dag,
        known,
        t,
        small.id,
        zero.id,
        number,
        t,
        t,
        yes,
        0,
        n,
        (k - 3) as nat,
    );
    let new = unless_small(dag, narrow, wide, field, number);
    lemma_keeps_twice(dag, zero.dag, new.dag, known, 3, 1);
}

/// The magnitude of a word in a wide encoding.
spec fn wide_magnitude(narrow: Format, wide: Format, w: int) -> int {
    widened(narrow, wide, w) - moved_sign(narrow, w, wide)
}

/// The bits that are set where a narrow word is no number.
spec fn none_mask(narrow: Format, wide: Format) -> u64 {
    if has_infinity(narrow) {
        wide.ones
    } else {
        wide.nan
    }
}

/// A magnitude where a wide encoding has its mantissa.
spec fn scaled_of(narrow: Format, wide: Format, w: int) -> int {
    magnitude(narrow, w) * unit_of(narrow, wide)
}

/// A scaled magnitude with the bias of a wide encoding, as a word.
spec fn rebiased(narrow: Format, wide: Format, w: int) -> int {
    (scaled_of(narrow, wide, w) + (wide.bias - narrow.bias) * wide.fraction) % (2
        * wide.sign as int)
}

proof fn lemma_raised_numbers(narrow: Format, wide: Format, w: int)
    requires
        fits(narrow, wide),
        is_sized(narrow),
        is_sized(wide),
        is_word(narrow, w),
    ensures
        ({
            let t = word_of(wide);
            let m = magnitude(narrow, w);
            let e = exponent(narrow, w);
            let scaled = scaled_of(narrow, wide, w);
            let (op, by) = rebias(narrow, wide, wide.fraction);
            let mask = none_mask(narrow, wide);
            &&& 0 <= e <= u64::MAX
            &&& 0 <= scaled < wide.sign
            &&& 0 <= rebiased(narrow, wide, w) <= u64::MAX
            &&& pair_value(BinaryOp::Shr, m, narrow.mantissa as int, t) == Some(
                ConstValue::UInt(e as u64),
            )
            &&& pair_value(
                BinaryOp::Shl,
                m,
                ((wide.mantissa - narrow.mantissa) as u64) as int,
                t,
            ) == Some(ConstValue::UInt(scaled as u64))
            &&& pair_value(op, scaled, by as int, t) == Some(
                ConstValue::UInt(rebiased(narrow, wide, w) as u64),
            )
            &&& pair_value(BinaryOp::Or, scaled, mask as int, t) == Some(
                ConstValue::UInt(scaled as u64 | mask),
            )
        }),
{
    reveal(fits);
    let m = magnitude(narrow, w);
    let e = exponent(narrow, w);
    let unit = unit_of(narrow, wide);
    let scaled = scaled_of(narrow, wide, w);
    let mask = none_mask(narrow, wide);
    lemma_mod_bound(w, narrow.sign as int);
    assert(0 <= m * unit < narrow.sign * unit) by (nonlinear_arith)
        requires
            0 <= m < narrow.sign,
            unit >= 2,
    ;
    let f = narrow.fraction as int;
    assert(0 <= e <= m) by (nonlinear_arith)
        requires
            e == m / f,
            f >= 1,
            m >= 0,
    ;
    lemma_wraps(wide, e);
    lemma_wraps(wide, scaled);
    let d = wide.bias - narrow.bias;
    assert(-127 * 0x80_0000 <= d * wide.fraction <= 127 * 0x80_0000) by (nonlinear_arith)
        requires
            -127 <= d <= 127,
            0 <= wide.fraction <= 0x80_0000,
    ;
    assert((narrow.bias - wide.bias) * wide.fraction == -(d * wide.fraction)) by (nonlinear_arith)
        requires
            d == wide.bias - narrow.bias,
    ;
    lemma_wraps(wide, scaled + d * wide.fraction);
    lemma_word(scaled);
    lemma_word(mask as int);
    lemma_ored_size(scaled as u64, mask, wide.sign);
    lemma_wraps(wide, (scaled as u64 | mask) as int);
    let (op, by) = rebias(narrow, wide, wide.fraction);
    if wide.bias >= narrow.bias {
        assert(by == d * wide.fraction);
    } else {
        assert(by == -(d * wide.fraction));
    }
}

proof fn lemma_ored_size(x: u64, y: u64, sign: u64)
    requires
        x < sign,
        y < sign,
        sign == 0x8000 || sign == 0x8000_0000,
    ensures
        x | y < sign,
{
    if sign == 0x8000 {
        assert(x < 0x8000 && y < 0x8000 ==> x | y < 0x8000) by (bit_vector);
    } else {
        assert(x < 0x8000_0000 && y < 0x8000_0000 ==> x | y < 0x8000_0000) by (bit_vector);
    }
}

proof fn lemma_wide_magnitude(narrow: Format, wide: Format, w: int)
    requires
        is_sized(wide),
        0 <= wide_magnitude(narrow, wide, w) < wide.sign,
    ensures
        wide_magnitude(narrow, wide, w) == if is_special(narrow, w) {
            (scaled_of(narrow, wide, w) as u64 | none_mask(narrow, wide)) as int
        } else {
            unless_less(
                exponent(narrow, w),
                least_exponent(narrow, wide) as int,
                rebiased(narrow, wide, w),
            )
        },
{
    if !is_special(narrow, w) && exponent(narrow, w) >= least_exponent(narrow, wide) {
        lemma_wraps(wide, scaled_of(narrow, wide, w) + (wide.bias - narrow.bias) * wide.fraction);
    }
}

proof fn lemma_raised_magnitude(
    dag: Seq<NodeView>,
    known: Known,
    narrow: Format,
    wide: Format,
    id: usize,
    rest: usize,
    w: int,
    k: nat,
)
    requires
        has_room(dag, known, k),
        k >= 15,
        fits(narrow, wide),
        is_sized(narrow),
        is_sized(wide),
        is_word(narrow, w),
        0 <= wide_magnitude(narrow, wide, w) < wide.sign,
        has_word(dag, known, id, word_of(narrow), w),
        has_word(dag, known, rest, word_of(wide), magnitude(narrow, w)),
    ensures
        ({
            let new = raised_magnitude(dag, narrow, wide, id, rest);
            &&& keeps_values(dag, new.dag, known, 15)
            &&& has_room(new.dag, known, (k - 15) as nat)
            &&& has_word(new.dag, known, new.id, word_of(wide), wide_magnitude(narrow, wide, w))
        }),
{
    let (s, t) = (word_of(narrow), word_of(wide));
    let up = (wide.mantissa - narrow.mantissa) as u64;
    let m = magnitude(narrow, w);
    let e = exponent(narrow, w);
    let x = scaled_of(narrow, wide, w);
    let n = rebiased(narrow, wide, w);
    lemma_raised_numbers(narrow, wide, w);
    lemma_wide_magnitude(narrow, wide, w);
    let field = with_uint(dag, BinaryOp::Shr, t, t, rest, narrow.mantissa);
    lemma_uint_word(dag, known, BinaryOp::Shr, t, t, rest, narrow.mantissa, t, m, e, k);
    let scaled = with_uint(field.dag, BinaryOp::Shl, t, t, rest, up);
    lemma_kept_word(dag, field.dag, known, 2, rest, t, m);
    lemma_uint_word(field.dag, known, BinaryOp::Shl, t, t, rest, up, t, m, x, (k - 2) as nat);
    lemma_keeps_twice(dag, field.dag, scaled.dag, known, 2, 2);
    let (op, by) = rebias(narrow, wide, wide.fraction);
    let number = with_uint(scaled.dag, op, t, t, scaled.id, by);
    lemma_uint_word(scaled.dag, known, op, t, t, scaled.id, by, t, x, n, (k - 4) as nat);
    lemma_keeps_twice(dag, scaled.dag, number.dag, known, 4, 2);
    lemma_keeps_twice(field.dag, scaled.dag, number.dag, known, 2, 2);
    let mask = none_mask(narrow, wide);
    let ored = (x as u64 | mask) as int;
    let none = with_uint(number.dag, BinaryOp::Or, t, t, scaled.id, mask);
    lemma_kept_word(scaled.dag, number.dag, known, 2, scaled.id, t, x);
    lemma_uint_word(
        number.dag,
        known,
        BinaryOp::Or,
        t,
        t,
        scaled.id,
        mask,
        t,
        x,
        ored,
        (k - 6) as nat,
    );
    lemma_keeps_twice(dag, number.dag, none.dag, known, 6, 2);
    lemma_keeps_twice(field.dag, number.dag, none.dag, known, 4, 2);
    lemma_kept_word(dag, none.dag, known, 8, id, s, w);
    lemma_kept_word(dag, none.dag, known, 8, rest, t, m);
    lemma_kept_word(field.dag, none.dag, known, 6, field.id, t, e);
    lemma_kept_word(number.dag, none.dag, known, 2, number.id, t, n);
    lemma_raised_choice(
        none.dag,
        known,
        narrow,
        wide,
        id,
        rest,
        field.id,
        number.id,
        none.id,
        w,
        n,
        ored,
        (k - 8) as nat,
    );
    let new = raised_magnitude(dag, narrow, wide, id, rest);
    lemma_keeps_twice(dag, none.dag, new.dag, known, 8, 7);
}

proof fn lemma_raised_choice(
    dag: Seq<NodeView>,
    known: Known,
    narrow: Format,
    wide: Format,
    id: usize,
    rest: usize,
    field: usize,
    number: usize,
    none: usize,
    w: int,
    n: int,
    other: int,
    k: nat,
)
    requires
        has_room(dag, known, k),
        k >= 7,
        fits(narrow, wide),
        is_word(narrow, w),
        has_word(dag, known, id, word_of(narrow), w),
        has_word(dag, known, rest, word_of(wide), magnitude(narrow, w)),
        has_word(dag, known, field, word_of(wide), exponent(narrow, w)),
        has_word(dag, known, number, word_of(wide), n),
        has_word(dag, known, none, word_of(wide), other),
    ensures
        ({
            let t = word_of(wide);
            let test = not_number(dag, narrow, wide, id, rest, field);
            let kept = unless_small(test.dag, narrow, wide, field, number);
            let new = put(kept.dag, where_node(t, test.id, none, kept.id));
            &&& keeps_values(dag, new.dag, known, 7)
            &&& has_room(new.dag, known, (k - 7) as nat)
            &&& has_word(
                new.dag,
                known,
                new.id,
                t,
                if is_special(narrow, w) {
                    other
                } else {
                    unless_less(exponent(narrow, w), least_exponent(narrow, wide) as int, n)
                },
            )
        }),
{
    let t = word_of(wide);
    let e = exponent(narrow, w);
    let yes = is_special(narrow, w);
    let test = not_number(dag, narrow, wide, id, rest, field);
    lemma_not_number(dag, known, narrow, wide, id, rest, field, w, k);
    let kept = unless_small(test.dag, narrow, wide, field, number);
    lemma_kept_word(dag, test.dag, known, 2, field, t, e);
    lemma_kept_word(dag, test.dag, known, 2, number, t, n);
    lemma_unless_small(test.dag, known, narrow, wide, field, number, e, n, (k - 2) as nat);
    lemma_keeps_twice(dag, test.dag, kept.dag, known, 2, 4);
    lemma_kept_truth(test.dag, kept.dag, known, 4, test.id, yes);
    lemma_kept_word(dag, kept.dag, known, 6, none, t, other);
    let small = unless_less(e, least_exponent(narrow, wide) as int, n);
    lemma_where_word(
        kept.dag,
        known,
        t,
        test.id,
        none,
        kept.id,
        t,
        t,
        yes,
        other,
        small,
        (k - 6) as nat,
    );
    let new = put(kept.dag, where_node(t, test.id, none, kept.id));
    lemma_keeps_twice(dag, kept.dag, new.dag, known, 6, 1);
}

/// Where a narrow word is raised to a wide float, the bits of that float are
/// folded to what the word is widened to.
pub proof fn lemma_raised_is_widened(
    dag: Seq<NodeView>,
    known: Known,
    from: DType,
    to: DType,
    id: usize,
    w: int,
    k: nat,
)
    requires
        format_of(from) is Some,
        format_of(to) is Some,
        is_wider(format_of(from)->0, format_of(to)->0),
        has_room(dag, known, k),
        k >= 25,
        is_word(format_of(from)->0, w),
        has_word(dag, known, id, word_of(format_of(from)->0), w),
    ensures
        ({
            let (narrow, wide) = (format_of(from)->0, format_of(to)->0);
            let new = raised(dag, narrow, wide, to, id);
            let bits = new.dag[new.id as int].srcs[0];
            &&& keeps_values(dag, new.dag, known, 25)
            &&& has_room(new.dag, known, (k - 25) as nat)
            &&& new.id < new.dag.len()
            &&& new.dag[new.id as int] == unary_node(Op::BitCast, to, bits)
            &&& has_word(new.dag, known, bits, word_of(wide), widened(narrow, wide, w))
        }),
{
    reveal(raised);
    let (narrow, wide) = (format_of(from)->0, format_of(to)->0);
    lemma_fits(from, to);
    lemma_is_sized(from);
    lemma_is_sized(to);
    lemma_widened_is_same_number(from, to, w);
    assert(wide.sign > 0);
    lemma_raised_word(dag, known, narrow, wide, id, w, k);
    let sign = raised_sign(dag, narrow, wide, id);
    let rest = raised_rest(sign.dag, narrow, wide, id);
    let size = raised_magnitude(rest.dag, narrow, wide, id, rest.id);
    let whole = put(
        size.dag,
        pair_node(BinaryOp::Or, word_of(wide), sign.id, size.id),
    );
    let all = widened(narrow, wide, w);
    let new = put(whole.dag, unary_node(Op::BitCast, to, whole.id));
    lemma_bits_node(whole.dag, known, to, whole.id, word_of(wide), all, (k - 24) as nat);
    lemma_keeps_twice(dag, whole.dag, new.dag, known, 24, 1);
    assert(new.dag[new.id as int].srcs[0] == whole.id);
    lemma_kept_word(whole.dag, new.dag, known, 1, whole.id, word_of(wide), all);
}

proof fn lemma_raised_word(
    dag: Seq<NodeView>,
    known: Known,
    narrow: Format,
    wide: Format,
    id: usize,
    w: int,
    k: nat,
)
    requires
        has_room(dag, known, k),
        k >= 24,
        fits(narrow, wide),
        is_sized(narrow),
        is_sized(wide),
        is_word(narrow, w),
        has_word(dag, known, id, word_of(narrow), w),
        is_word(wide, widened(narrow, wide, w)),
        is_negative(wide, widened(narrow, wide, w)) == is_negative(narrow, w),
    ensures
        ({
            let t = word_of(wide);
            let sign = raised_sign(dag, narrow, wide, id);
            let rest = raised_rest(sign.dag, narrow, wide, id);
            let size = raised_magnitude(rest.dag, narrow, wide, id, rest.id);
            let whole = put(size.dag, pair_node(BinaryOp::Or, t, sign.id, size.id));
            &&& keeps_values(dag, whole.dag, known, 24)
            &&& has_room(whole.dag, known, (k - 24) as nat)
            &&& has_word(whole.dag, known, whole.id, t, widened(narrow, wide, w))
        }),
{
    let (s, t) = (word_of(narrow), word_of(wide));
    let high: int = moved_sign(narrow, w, wide);
    let low = wide_magnitude(narrow, wide, w);
    lemma_wraps(wide, 0);
    let sign = raised_sign(dag, narrow, wide, id);
    lemma_raised_sign(dag, known, narrow, wide, id, w, k);
    let rest = raised_rest(sign.dag, narrow, wide, id);
    lemma_kept_word(dag, sign.dag, known, 5, id, s, w);
    lemma_raised_rest(sign.dag, known, narrow, wide, id, w, (k - 5) as nat);
    lemma_keeps_twice(dag, sign.dag, rest.dag, known, 5, 3);
    lemma_kept_word(dag, rest.dag, known, 8, id, s, w);
    let size = raised_magnitude(rest.dag, narrow, wide, id, rest.id);
    lemma_raised_magnitude(rest.dag, known, narrow, wide, id, rest.id, w, (k - 8) as nat);
    lemma_keeps_twice(dag, rest.dag, size.dag, known, 8, 15);
    lemma_keeps_twice(sign.dag, rest.dag, size.dag, known, 3, 15);
    lemma_kept_word(sign.dag, size.dag, known, 18, sign.id, t, high);
    lemma_signed_bits(wide, high, low);
    let whole = put(size.dag, pair_node(BinaryOp::Or, t, sign.id, size.id));
    lemma_pair_word(
        size.dag,
        known,
        BinaryOp::Or,
        t,
        sign.id,
        size.id,
        t,
        t,
        high,
        low,
        high + low,
        (k - 23) as nat,
    );
    lemma_keeps_twice(dag, size.dag, whole.dag, known, 23, 1);
}

/// Adding half of a unit, less one where the quotient is even, and cutting off
/// the rest is rounding to the nearest.
proof fn lemma_rounds(x: int, u: int)
    requires
        x >= 0,
        u >= 2,
        u % 2 == 0,
    ensures
        (x + x / u % 2 + (u / 2 - 1)) / u == nearest(x, u),
{
    let (q, r) = (x / u, x % u);
    lemma_fundamental_div_mod(x, u);
    lemma_mod_bound(x, u);
    let more = r + q % 2 + (u / 2 - 1);
    assert(u * q == q * u) by (nonlinear_arith);
    if more >= u {
        assert((q + 1) * u == q * u + u) by (nonlinear_arith);
        lemma_fundamental_div_mod_converse(x + q % 2 + (u / 2 - 1), u, q + 1, more - u);
    } else {
        lemma_fundamental_div_mod_converse(x + q % 2 + (u / 2 - 1), u, q, more);
    }
}

/// A wide magnitude with as many bits of mantissa as a narrow encoding has.
spec fn rounded_of(narrow: Format, wide: Format, y: int) -> int {
    nearest(magnitude(wide, y), unit_of(narrow, wide))
}

/// What is added to a wide magnitude before it is cut off.
spec fn nudged(narrow: Format, wide: Format, y: int) -> int {
    let (rest, unit) = (magnitude(wide, y), unit_of(narrow, wide));
    rest + rest / unit % 2 + (unit / 2 - 1)
}

/// A rounded magnitude with the bias of a narrow encoding, as a word.
spec fn lowered_number(narrow: Format, wide: Format, y: int) -> int {
    (rounded_of(narrow, wide, y) - (wide.bias - narrow.bias) * narrow.fraction) % (2
        * wide.sign as int)
}

proof fn lemma_rounded_numbers(narrow: Format, wide: Format, y: int)
    requires
        fits(narrow, wide),
        is_sized(wide),
        is_word(wide, y),
    ensures
        ({
            let t = word_of(wide);
            let drop = (wide.mantissa - narrow.mantissa) as u64;
            let (rest, unit) = (magnitude(wide, y), unit_of(narrow, wide));
            let cut = rest / unit;
            let half = (wide.fraction / narrow.fraction / 2 - 1) as u64;
            &&& 0 <= cut <= u64::MAX
            &&& 0 <= cut % 2 <= 1
            &&& 0 <= rest + cut % 2 <= u64::MAX
            &&& 0 <= nudged(narrow, wide, y) <= u64::MAX
            &&& 0 <= rounded_of(narrow, wide, y) <= wide.sign
            &&& pair_value(BinaryOp::Shr, rest, drop as int, t) == Some(
                ConstValue::UInt(cut as u64),
            )
            &&& pair_value(BinaryOp::And, cut, 1, t) == Some(ConstValue::UInt((cut % 2) as u64))
            &&& pair_value(BinaryOp::Add, rest, cut % 2, t) == Some(
                ConstValue::UInt((rest + cut % 2) as u64),
            )
            &&& pair_value(BinaryOp::Add, rest + cut % 2, half as int, t) == Some(
                ConstValue::UInt(nudged(narrow, wide, y) as u64),
            )
            &&& pair_value(BinaryOp::Shr, nudged(narrow, wide, y), drop as int, t) == Some(
                ConstValue::UInt(rounded_of(narrow, wide, y) as u64),
            )
        }),
{
    reveal(fits);
    let (rest, unit) = (magnitude(wide, y), unit_of(narrow, wide));
    let cut = rest / unit;
    let more = nudged(narrow, wide, y);
    lemma_mod_bound(y, wide.sign as int);
    assert(0 <= cut <= rest) by (nonlinear_arith)
        requires
            cut == rest / unit,
            unit >= 2,
            rest >= 0,
    ;
    assert(2 * unit <= wide.sign) by (nonlinear_arith)
        requires
            narrow.sign * unit <= wide.sign,
            narrow.sign >= 2,
            unit >= 2,
    ;
    lemma_rounds(rest, unit);
    assert(0 <= more / unit && 2 * (more / unit) <= more) by (nonlinear_arith)
        requires
            unit >= 2,
            more >= 0,
    ;
    lemma_word(cut);
    let c = cut as u64;
    assert(c & 1 == c % 2) by (bit_vector);
    lemma_word(1);
    lemma_wraps(wide, cut);
    lemma_wraps(wide, cut % 2);
    lemma_wraps(wide, rest + cut % 2);
    lemma_wraps(wide, more);
    lemma_wraps(wide, more / unit);
    let half = (wide.fraction / narrow.fraction / 2 - 1) as u64;
    assert(half == unit / 2 - 1);
}

proof fn lemma_rounded_off(
    dag: Seq<NodeView>,
    known: Known,
    narrow: Format,
    wide: Format,
    rest: usize,
    y: int,
    k: nat,
)
    requires
        has_room(dag, known, k),
        k >= 9,
        fits(narrow, wide),
        is_sized(wide),
        is_word(wide, y),
        has_word(dag, known, rest, word_of(wide), magnitude(wide, y)),
    ensures
        ({
            let new = rounded_off(dag, narrow, wide, rest);
            &&& keeps_values(dag, new.dag, known, 9)
            &&& has_room(new.dag, known, (k - 9) as nat)
            &&& has_word(new.dag, known, new.id, word_of(wide), rounded_of(narrow, wide, y))
        }),
{
    let t = word_of(wide);
    let drop = (wide.mantissa - narrow.mantissa) as u64;
    let (x, unit) = (magnitude(wide, y), unit_of(narrow, wide));
    let c = x / unit;
    let more = nudged(narrow, wide, y);
    let half = (wide.fraction / narrow.fraction / 2 - 1) as u64;
    lemma_rounded_numbers(narrow, wide, y);
    let cut = with_uint(dag, BinaryOp::Shr, t, t, rest, drop);
    lemma_uint_word(dag, known, BinaryOp::Shr, t, t, rest, drop, t, x, c, k);
    let odd = with_uint(cut.dag, BinaryOp::And, t, t, cut.id, 1);
    lemma_uint_word(cut.dag, known, BinaryOp::And, t, t, cut.id, 1, t, c, c % 2, (k - 2) as nat);
    lemma_keeps_twice(dag, cut.dag, odd.dag, known, 2, 2);
    lemma_kept_word(dag, odd.dag, known, 4, rest, t, x);
    let even = put(odd.dag, pair_node(BinaryOp::Add, t, rest, odd.id));
    lemma_pair_word(
        odd.dag,
        known,
        BinaryOp::Add,
        t,
        rest,
        odd.id,
        t,
        t,
        x,
        c % 2,
        x + c % 2,
        (k - 4) as nat,
    );
    lemma_keeps_twice(dag, odd.dag, even.dag, known, 4, 1);
    let top = with_uint(even.dag, BinaryOp::Add, t, t, even.id, half);
    lemma_uint_word(
        even.dag,
        known,
        BinaryOp::Add,
        t,
        t,
        even.id,
        half,
        t,
        x + c % 2,
        more,
        (k - 5) as nat,
    );
    lemma_keeps_twice(dag, even.dag, top.dag, known, 5, 2);
    let new = rounded_off(dag, narrow, wide, rest);
    let r = rounded_of(narrow, wide, y);
    lemma_uint_word(
        top.dag,
        known,
        BinaryOp::Shr,
        t,
        t,
        top.id,
        drop,
        t,
        more,
        r,
        (k - 7) as nat,
    );
    lemma_keeps_twice(dag, top.dag, new.dag, known, 7, 2);
}

/// The lesser of two numbers, the first of which is a bound.
spec fn capped(top: int, n: int) -> int {
    if top < n {
        top
    } else {
        n
    }
}

proof fn lemma_lowered_magnitude(
    dag: Seq<NodeView>,
    known: Known,
    narrow: Format,
    wide: Format,
    rounded: usize,
    y: int,
    k: nat,
)
    requires
        has_room(dag, known, k),
        k >= 5,
        fits(narrow, wide),
        is_sized(wide),
        is_word(wide, y),
        has_word(dag, known, rounded, word_of(wide), rounded_of(narrow, wide, y)),
    ensures
        ({
            let new = lowered_magnitude(dag, narrow, wide, rounded);
            let n = lowered_number(narrow, wide, y);
            &&& keeps_values(dag, new.dag, known, 5)
            &&& has_room(new.dag, known, (k - 5) as nat)
            &&& has_word(new.dag, known, new.id, word_of(wide), capped(narrow.top as int, n))
        }),
{
    let t = word_of(wide);
    let (op, by) = rebias(wide, narrow, narrow.fraction);
    let r = rounded_of(narrow, wide, y);
    let n = lowered_number(narrow, wide, y);
    let top = narrow.top as int;
    lemma_lowered_number(narrow, wide, y);
    let number = with_uint(dag, op, t, t, rounded, by);
    lemma_uint_word(dag, known, op, t, t, rounded, by, t, r, n, k);
    let over = put(number.dag, const_node(ConstValue::UInt(narrow.top), t));
    lemma_const_word(number.dag, known, narrow.top, t, (k - 2) as nat);
    lemma_keeps_twice(dag, number.dag, over.dag, known, 2, 1);
    lemma_kept_word(number.dag, over.dag, known, 1, number.id, t, n);
    let test = put(over.dag, pair_node(BinaryOp::Lt, DType::Bool, over.id, number.id));
    lemma_pair_truth(
        over.dag,
        known,
        BinaryOp::Lt,
        over.id,
        number.id,
        t,
        t,
        top,
        n,
        top < n,
        (k - 3) as nat,
    );
    lemma_keeps_twice(dag, over.dag, test.dag, known, 3, 1);
    lemma_kept_word(over.dag, test.dag, known, 1, number.id, t, n);
    lemma_kept_word(over.dag, test.dag, known, 1, over.id, t, top);
    lemma_where_word(
        test.dag,
        known,
        t,
        test.id,
        over.id,
        number.id,
        t,
        t,
        top < n,
        top,
        n,
        (k - 4) as nat,
    );
    let new = lowered_magnitude(dag, narrow, wide, rounded);
    lemma_keeps_twice(dag, test.dag, new.dag, known, 4, 1);
}

proof fn lemma_lowered_number(narrow: Format, wide: Format, y: int)
    requires
        fits(narrow, wide),
        is_sized(wide),
        is_word(wide, y),
    ensures
        ({
            let (op, by) = rebias(wide, narrow, narrow.fraction);
            let n = lowered_number(narrow, wide, y);
            let d = (wide.bias - narrow.bias) * narrow.fraction;
            let exact = rounded_of(narrow, wide, y) - d;
            let least = least_wide_exponent(narrow, wide) * narrow.fraction;
            &&& 0 <= n <= u64::MAX
            &&& pair_value(op, rounded_of(narrow, wide, y), by as int, word_of(wide)) == Some(
                ConstValue::UInt(n as u64),
            )
            &&& rounded_of(narrow, wide, y) >= least ==> n == exact && n >= 0
            &&& 0 <= least <= u64::MAX
        }),
{
    lemma_rounded_numbers(narrow, wide, y);
    reveal(fits);
    let r = rounded_of(narrow, wide, y);
    let f = narrow.fraction;
    let d = wide.bias - narrow.bias;
    assert(-127 * 0x4000 <= d * f <= 127 * 0x4000) by (nonlinear_arith)
        requires
            -127 <= d <= 127,
            0 <= f <= 0x4000,
    ;
    assert((narrow.bias - wide.bias) * f == -(d * f)) by (nonlinear_arith)
        requires
            d == wide.bias - narrow.bias,
    ;
    lemma_wraps(wide, r - d * f);
    let (op, by) = rebias(wide, narrow, f);
    if narrow.bias >= wide.bias {
        assert(by == -(d * f));
    } else {
        assert(by == d * f);
    }
    let least = least_wide_exponent(narrow, wide);
    assert(0 <= least * f <= 128 * 0x4000) by (nonlinear_arith)
        requires
            0 <= least <= 128,
            0 <= f <= 0x4000,
    ;
    assert(least * f >= d * f) by (nonlinear_arith)
        requires
            least >= d,
            f >= 0,
    ;
    assert(-(d * f) <= f) by (nonlinear_arith)
        requires
            d >= -1,
            f >= 0,
    ;
}

proof fn lemma_flushed(
    dag: Seq<NodeView>,
    known: Known,
    narrow: Format,
    wide: Format,
    sign: usize,
    rounded: usize,
    signed: usize,
    y: int,
    n: int,
    k: nat,
)
    requires
        has_room(dag, known, k),
        k >= 4,
        fits(narrow, wide),
        is_sized(wide),
        is_word(wide, y),
        has_word(dag, known, sign, word_of(wide), moved_sign(wide, y, narrow)),
        has_word(dag, known, rounded, word_of(wide), rounded_of(narrow, wide, y)),
        has_word(dag, known, signed, word_of(wide), n),
    ensures
        ({
            let new = flushed(dag, narrow, wide, sign, rounded, signed);
            let least = least_wide_exponent(narrow, wide) * narrow.fraction;
            &&& keeps_values(dag, new.dag, known, 4)
            &&& has_room(new.dag, known, (k - 4) as nat)
            &&& has_word(
                new.dag,
                known,
                new.id,
                word_of(wide),
                if rounded_of(narrow, wide, y) < least {
                    if has_one_zero(narrow) {
                        0
                    } else {
                        moved_sign(wide, y, narrow)
                    }
                } else {
                    n
                },
            )
        }),
{
    let t = word_of(wide);
    let r = rounded_of(narrow, wide, y);
    let s = moved_sign(wide, y, narrow);
    let least = (least_wide_exponent(narrow, wide) * narrow.fraction) as u64;
    lemma_lowered_number(narrow, wide, y);
    let yes = r < least;
    let small = with_uint(dag, BinaryOp::Lt, DType::Bool, t, rounded, least);
    lemma_uint_truth(dag, known, BinaryOp::Lt, t, rounded, least, t, r, yes, k);
    let new = flushed(dag, narrow, wide, sign, rounded, signed);
    if has_one_zero(narrow) {
        let zero = put(small.dag, const_node(ConstValue::UInt(0), t));
        lemma_const_word(small.dag, known, 0, t, (k - 2) as nat);
        lemma_keeps_twice(dag, small.dag, zero.dag, known, 2, 1);
        lemma_kept_truth(small.dag, zero.dag, known, 1, small.id, yes);
        lemma_kept_word(dag, zero.dag, known, 3, signed, t, n);
        lemma_where_word(
            zero.dag,
            known,
            t,
            small.id,
            zero.id,
            signed,
            t,
            t,
            yes,
            0,
            n,
            (k - 3) as nat,
        );
        lemma_keeps_twice(dag, zero.dag, new.dag, known, 3, 1);
    } else {
        lemma_kept_word(dag, small.dag, known, 2, sign, t, s);
        lemma_kept_word(dag, small.dag, known, 2, signed, t, n);
        lemma_where_word(
            small.dag,
            known,
            t,
            small.id,
            sign,
            signed,
            t,
            t,
            yes,
            s,
            n,
            (k - 2) as nat,
        );
        lemma_keeps_twice(dag, small.dag, new.dag, known, 2, 1);
        lemma_less_room(dag, new.dag, known, 3, (k - 3) as nat);
    }
}

proof fn lemma_less_room(dag: Seq<NodeView>, more: Seq<NodeView>, known: Known, n: nat, k: nat)
    requires
        keeps_values(dag, more, known, n),
        has_room(more, known, k),
        k >= 1,
    ensures
        keeps_values(dag, more, known, n + 1),
        has_room(more, known, (k - 1) as nat),
{
    reveal(keeps_values);
    reveal(has_room);
}

proof fn lemma_unless_nan(
    dag: Seq<NodeView>,
    known: Known,
    narrow: Format,
    wide: Format,
    rest: usize,
    kept: usize,
    x: int,
    n: int,
    k: nat,
)
    requires
        has_room(dag, known, k),
        k >= 4,
        has_word(dag, known, rest, word_of(wide), x),
        has_word(dag, known, kept, word_of(wide), n),
    ensures
        ({
            let new = unless_nan(dag, narrow, wide, rest, kept);
            &&& keeps_values(dag, new.dag, known, 4)
            &&& has_room(new.dag, known, (k - 4) as nat)
            &&& has_word(
                new.dag,
                known,
                new.id,
                word_of(wide),
                if x > wide.ones {
                    narrow.nan as int
                } else {
                    n
                },
            )
        }),
{
    let t = word_of(wide);
    let top = wide.ones as int;
    let nan = narrow.nan as int;
    let ones = put(dag, const_node(ConstValue::UInt(wide.ones), t));
    lemma_const_word(dag, known, wide.ones, t, k);
    lemma_kept_word(dag, ones.dag, known, 1, rest, t, x);
    let test = put(ones.dag, pair_node(BinaryOp::Lt, DType::Bool, ones.id, rest));
    lemma_pair_truth(
        ones.dag,
        known,
        BinaryOp::Lt,
        ones.id,
        rest,
        t,
        t,
        top,
        x,
        top < x,
        (k - 1) as nat,
    );
    lemma_keeps_twice(dag, ones.dag, test.dag, known, 1, 1);
    let none = put(test.dag, const_node(ConstValue::UInt(narrow.nan), t));
    lemma_const_word(test.dag, known, narrow.nan, t, (k - 2) as nat);
    lemma_keeps_twice(dag, test.dag, none.dag, known, 2, 1);
    lemma_kept_truth(test.dag, none.dag, known, 1, test.id, top < x);
    lemma_kept_word(dag, none.dag, known, 3, kept, t, n);
    lemma_where_word(
        none.dag,
        known,
        t,
        test.id,
        none.id,
        kept,
        t,
        t,
        top < x,
        nan,
        n,
        (k - 3) as nat,
    );
    let new = unless_nan(dag, narrow, wide, rest, kept);
    lemma_keeps_twice(dag, none.dag, new.dag, known, 3, 1);
}

proof fn lemma_sign_drops(narrow: Format, wide: Format, y: int)
    requires
        fits(narrow, wide),
        is_sized(narrow),
        is_sized(wide),
        is_word(wide, y),
    ensures
        ({
            let t = word_of(wide);
            let down = (wide.bits - narrow.bits) as u64;
            let high = y / pow2(down as nat) as int;
            &&& 0 <= high <= u64::MAX
            &&& pair_value(BinaryOp::Shr, y, down as int, t) == Some(ConstValue::UInt(high as u64))
            &&& pair_value(BinaryOp::And, high, narrow.sign as int, t) == Some(
                ConstValue::UInt(moved_sign(wide, y, narrow) as u64),
            )
        }),
{
    reveal(fits);
    let down = (wide.bits - narrow.bits) as u64;
    let v = pow2(down as nat) as int;
    lemma_pow2_pos(down as nat);
    let high = y / v;
    lemma_fundamental_div_mod(y, v);
    lemma_mod_bound(y, v);
    let s = narrow.sign as int;
    assert(0 <= high < 2 * s && (high >= s <==> y >= s * v)) by (nonlinear_arith)
        requires
            y == v * high + y % v,
            0 <= y % v < v,
            0 <= y < 2 * (s * v),
            v > 0,
    ;
    lemma_wraps(wide, high);
    lemma_low_bits(narrow, high);
    lemma_wraps(wide, moved_sign(wide, y, narrow));
}

/// The bits of a wide float, where they are those of a narrow word.
spec fn signed_of(narrow: Format, wide: Format, y: int) -> int {
    moved_sign(wide, y, narrow) + capped(narrow.top as int, lowered_number(narrow, wide, y))
}

proof fn lemma_signed_number(narrow: Format, wide: Format, y: int)
    requires
        fits(narrow, wide),
        is_sized(narrow),
        is_sized(wide),
        is_word(wide, y),
    ensures
        ({
            let n = capped(narrow.top as int, lowered_number(narrow, wide, y));
            let sign = moved_sign(wide, y, narrow);
            &&& 0 <= signed_of(narrow, wide, y) <= u64::MAX
            &&& pair_value(BinaryOp::Or, sign, n, word_of(wide)) == Some(
                ConstValue::UInt(signed_of(narrow, wide, y) as u64),
            )
            &&& 0 <= narrowed(narrow, wide, y) < 2 * narrow.sign
            &&& narrowed(narrow, wide, y) == if magnitude(wide, y) > wide.ones {
                narrow.nan as int
            } else if rounded_of(narrow, wide, y) < least_wide_exponent(narrow, wide)
                * narrow.fraction {
                if has_one_zero(narrow) {
                    0
                } else {
                    sign
                }
            } else {
                signed_of(narrow, wide, y)
            }
        }),
{
    lemma_lowered_number(narrow, wide, y);
    reveal(fits);
    let n = capped(narrow.top as int, lowered_number(narrow, wide, y));
    let sign = moved_sign(wide, y, narrow);
    assert(narrow.top < narrow.sign);
    lemma_signed_bits(narrow, sign, n);
    lemma_wraps(wide, sign + n);
}

#[verifier::spinoff_prover]
proof fn lemma_lowered_word(
    dag: Seq<NodeView>,
    known: Known,
    narrow: Format,
    wide: Format,
    id: usize,
    y: int,
    k: nat,
)
    requires
        has_room(dag, known, k),
        k >= 29,
        fits(narrow, wide),
        is_sized(narrow),
        is_sized(wide),
        is_word(wide, y),
        has_word(dag, known, id, word_of(wide), y),
    ensures
        ({
            let new = lowered_word(dag, narrow, wide, id);
            &&& keeps_values(dag, new.dag, known, 29)
            &&& has_room(new.dag, known, (k - 29) as nat)
            &&& has_word(new.dag, known, new.id, word_of(wide), narrowed(narrow, wide, y))
        }),
{
    let t = word_of(wide);
    let down = (wide.bits - narrow.bits) as u64;
    let h = y / pow2(down as nat) as int;
    let s = moved_sign(wide, y, narrow);
    let x = magnitude(wide, y);
    let r = rounded_of(narrow, wide, y);
    let c = capped(narrow.top as int, lowered_number(narrow, wide, y));
    let all = signed_of(narrow, wide, y);
    lemma_sign_drops(narrow, wide, y);
    lemma_low_bits(wide, y);
    lemma_signed_number(narrow, wide, y);
    let high = with_uint(dag, BinaryOp::Shr, t, t, id, down);
    lemma_uint_word(dag, known, BinaryOp::Shr, t, t, id, down, t, y, h, k);
    let sign = with_uint(high.dag, BinaryOp::And, t, t, high.id, narrow.sign);
    lemma_uint_word(
        high.dag,
        known,
        BinaryOp::And,
        t,
        t,
        high.id,
        narrow.sign,
        t,
        h,
        s,
        (k - 2) as nat,
    );
    lemma_keeps_twice(dag, high.dag, sign.dag, known, 2, 2);
    let mask = (wide.sign - 1) as u64;
    let rest = with_uint(sign.dag, BinaryOp::And, t, t, id, mask);
    lemma_kept_word(dag, sign.dag, known, 4, id, t, y);
    lemma_uint_word(sign.dag, known, BinaryOp::And, t, t, id, mask, t, y, x, (k - 4) as nat);
    lemma_keeps_twice(dag, sign.dag, rest.dag, known, 4, 2);
    let rounded = rounded_off(rest.dag, narrow, wide, rest.id);
    lemma_rounded_off(rest.dag, known, narrow, wide, rest.id, y, (k - 6) as nat);
    lemma_keeps_twice(dag, rest.dag, rounded.dag, known, 6, 9);
    lemma_keeps_twice(sign.dag, rest.dag, rounded.dag, known, 2, 9);
    let size = lowered_magnitude(rounded.dag, narrow, wide, rounded.id);
    lemma_lowered_magnitude(rounded.dag, known, narrow, wide, rounded.id, y, (k - 15) as nat);
    lemma_keeps_twice(dag, rounded.dag, size.dag, known, 15, 5);
    lemma_keeps_twice(sign.dag, rounded.dag, size.dag, known, 11, 5);
    lemma_kept_word(sign.dag, size.dag, known, 16, sign.id, t, s);
    let signed = put(size.dag, pair_node(BinaryOp::Or, t, sign.id, size.id));
    lemma_pair_word(
        size.dag,
        known,
        BinaryOp::Or,
        t,
        sign.id,
        size.id,
        t,
        t,
        s,
        c,
        all,
        (k - 20) as nat,
    );
    lemma_keeps_twice(dag, size.dag, signed.dag, known, 20, 1);
    lemma_keeps_twice(sign.dag, size.dag, signed.dag, known, 16, 1);
    lemma_keeps_twice(rounded.dag, size.dag, signed.dag, known, 5, 1);
    lemma_keeps_twice(rest.dag, rounded.dag, signed.dag, known, 9, 6);
    lemma_kept_word(sign.dag, signed.dag, known, 17, sign.id, t, s);
    lemma_kept_word(rounded.dag, signed.dag, known, 6, rounded.id, t, r);
    let kept = flushed(signed.dag, narrow, wide, sign.id, rounded.id, signed.id);
    lemma_flushed(
        signed.dag,
        known,
        narrow,
        wide,
        sign.id,
        rounded.id,
        signed.id,
        y,
        all,
        (k - 21) as nat,
    );
    lemma_keeps_twice(dag, signed.dag, kept.dag, known, 21, 4);
    lemma_keeps_twice(rest.dag, signed.dag, kept.dag, known, 15, 4);
    lemma_kept_word(rest.dag, kept.dag, known, 19, rest.id, t, x);
    let least = least_wide_exponent(narrow, wide) * narrow.fraction;
    let small = if r < least {
        if has_one_zero(narrow) {
            0
        } else {
            s
        }
    } else {
        all
    };
    lemma_unless_nan(
        kept.dag,
        known,
        narrow,
        wide,
        rest.id,
        kept.id,
        x,
        small,
        (k - 25) as nat,
    );
    let new = lowered_word(dag, narrow, wide, id);
    lemma_keeps_twice(dag, kept.dag, new.dag, known, 25, 4);
}

/// Where a wide float is lowered to a narrow word, and the bits of the float are
/// at hand, the word is folded to what the bits are narrowed to.
pub proof fn lemma_lowered_is_narrowed(
    dag: Seq<NodeView>,
    known: Known,
    from: DType,
    to: DType,
    value: usize,
    y: int,
    k: nat,
)
    requires
        format_of(from) is Some,
        format_of(to) is Some,
        is_wider(format_of(from)->0, format_of(to)->0),
        has_room(dag, known, k),
        k >= 30,
        value < dag.len(),
        dag[value as int] == unary_node(Op::BitCast, to, dag[value as int].srcs[0]),
        is_word(format_of(to)->0, y),
        has_word(dag, known, dag[value as int].srcs[0], word_of(format_of(to)->0), y),
    ensures
        ({
            let (narrow, wide) = (format_of(from)->0, format_of(to)->0);
            let new = lowered(dag, narrow, wide, value);
            &&& keeps_values(dag, new.dag, known, 30)
            &&& has_room(new.dag, known, (k - 30) as nat)
            &&& has_word(new.dag, known, new.id, word_of(narrow), narrowed(narrow, wide, y))
        }),
{
    reveal(lowered);
    let (narrow, wide) = (format_of(from)->0, format_of(to)->0);
    lemma_fits(from, to);
    lemma_is_sized(from);
    lemma_is_sized(to);
    let bits = dag[value as int].srcs[0];
    assert(dag[bits as int].dtype == word_of(wide)) by {
        reveal(has_word);
    }
    assert(bits_of(dag, wide, value).id == bits);
    let word = lowered_word(dag, narrow, wide, bits);
    lemma_lowered_word(dag, known, narrow, wide, bits, y, k);
    lemma_signed_number(narrow, wide, y);
    let n = narrowed(narrow, wide, y);
    lemma_wraps(narrow, n);
    lemma_cast_word(
        word.dag,
        known,
        word_of(narrow),
        word.id,
        word_of(wide),
        n,
        n,
        (k - 29) as nat,
    );
    let new = lowered(dag, narrow, wide, value);
    lemma_keeps_twice(dag, word.dag, new.dag, known, 29, 1);
}

/// A word that is raised to a wide float and lowered again is folded to the
/// word that it was, where it is a number that is not too small, or an infinity.
/// Too small a number is folded to a zero, of the same sign where there are two,
/// and what is no number to the one encoding for that.
pub proof fn lemma_words_come_back(
    dag: Seq<NodeView>,
    known: Known,
    from: DType,
    to: DType,
    id: usize,
    w: u64,
)
    requires
        format_of(from) is Some,
        format_of(to) is Some,
        is_wider(format_of(from)->0, format_of(to)->0),
        has_room(dag, known, 55),
        is_word(format_of(from)->0, w as int),
        id < dag.len(),
        dag[id as int].dtype == word_of(format_of(from)->0),
        value_of(dag, known, id) == Some(ConstValue::UInt(w)),
    ensures
        ({
            let (narrow, wide) = (format_of(from)->0, format_of(to)->0);
            let up = raised(dag, narrow, wide, to, id);
            let new = lowered(up.dag, narrow, wide, up.id);
            value_of(new.dag, known, new.id) == Some(
                ConstValue::UInt(returned(narrow, wide, w as int) as u64),
            )
        }),
{
    let (narrow, wide) = (format_of(from)->0, format_of(to)->0);
    assert(has_word(dag, known, id, word_of(narrow), w as int)) by {
        reveal(has_word);
    }
    lemma_raised_is_widened(dag, known, from, to, id, w as int, 55);
    lemma_widened_is_same_number(from, to, w as int);
    let up = raised(dag, narrow, wide, to, id);
    lemma_lowered_is_narrowed(
        up.dag,
        known,
        from,
        to,
        up.id,
        widened(narrow, wide, w as int),
        30,
    );
    lemma_narrowed_comes_back(from, to, w as int);
    reveal(has_word);
}

} // verus!
