//! Floats that a target cannot compute with: they are held in words, and their
//! numbers are computed with in a wider float.

use vstd::prelude::*;

use crate::builders::{const_node, lemma_interned_keeps, put, Built};
use crate::dce::{put_where, where_node};
use crate::graph::{BinaryOp, ConstValue, DType, Graph, NodeView, Op};
use crate::late::{made, pair_node, put_pair};
use crate::meaning::lemma_arity;
use crate::passes::{grown, lemma_put, sources};

verus! {

/// The encoding of a float: how many bits it has, and how many of them are its
/// mantissa; the sign bit; what the exponent counts in; an exponent of ones; the
/// bias of the exponent; the greatest encoding of a number, with an infinity if
/// there is one; and an encoding that is no number.
#[derive(Clone, Copy, Debug, PartialEq, Eq, Structural)]
pub struct Format {
    pub bits: u64,
    pub mantissa: u64,
    pub sign: u64,
    pub fraction: u64,
    pub ones: u64,
    pub bias: u64,
    pub top: u64,
    pub nan: u64,
}

/// The encoding of a float type. Types of eight bits with a single zero have no
/// number at the sign bit alone.
pub open spec fn format_of(dtype: DType) -> Option<Format> {
    match dtype {
        DType::FP8E4M3 => Some(
            Format {
                bits: 8,
                mantissa: 3,
                sign: 0x80,
                fraction: 8,
                ones: 0x78,
                bias: 7,
                top: 0x7e,
                nan: 0x7f,
            },
        ),
        DType::FP8E5M2 => Some(
            Format {
                bits: 8,
                mantissa: 2,
                sign: 0x80,
                fraction: 4,
                ones: 0x7c,
                bias: 15,
                top: 0x7c,
                nan: 0x7e,
            },
        ),
        DType::FP8E4M3FNUZ => Some(
            Format {
                bits: 8,
                mantissa: 3,
                sign: 0x80,
                fraction: 8,
                ones: 0x78,
                bias: 8,
                top: 0x7f,
                nan: 0x80,
            },
        ),
        DType::FP8E5M2FNUZ => Some(
            Format {
                bits: 8,
                mantissa: 2,
                sign: 0x80,
                fraction: 4,
                ones: 0x7c,
                bias: 16,
                top: 0x7f,
                nan: 0x80,
            },
        ),
        DType::Float16 => Some(
            Format {
                bits: 16,
                mantissa: 10,
                sign: 0x8000,
                fraction: 0x400,
                ones: 0x7c00,
                bias: 15,
                top: 0x7c00,
                nan: 0x7e00,
            },
        ),
        DType::BFloat16 => Some(
            Format {
                bits: 16,
                mantissa: 7,
                sign: 0x8000,
                fraction: 0x80,
                ones: 0x7f80,
                bias: 127,
                top: 0x7f80,
                nan: 0x7fc0,
            },
        ),
        DType::Float32 => Some(
            Format {
                bits: 32,
                mantissa: 23,
                sign: 0x8000_0000,
                fraction: 0x80_0000,
                ones: 0x7f80_0000,
                bias: 127,
                top: 0x7f80_0000,
                nan: 0x7fc0_0000,
            },
        ),
        _ => None,
    }
}

/// The unsigned type with as many bits as a float.
pub open spec fn word_of(format: Format) -> DType {
    if format.bits == 8 {
        DType::UInt8
    } else if format.bits == 16 {
        DType::UInt16
    } else {
        DType::UInt32
    }
}

/// Whether an encoding has infinities: its greatest number is one.
pub open spec fn has_infinity(format: Format) -> bool {
    format.top == format.ones
}

/// Whether an encoding has a single zero.
pub open spec fn has_one_zero(format: Format) -> bool {
    format.nan == format.sign
}

/// Whether one encoding holds the numbers of another, but for very small ones.
pub open spec fn is_wider(narrow: Format, wide: Format) -> bool {
    narrow.bits < wide.bits && narrow.mantissa < wide.mantissa
}

/// A binary operation with an unsigned constant on its right.
pub open spec fn with_uint(
    dag: Seq<NodeView>,
    op: BinaryOp,
    dtype: DType,
    kind: DType,
    a: usize,
    n: u64,
) -> Built {
    let c = put(dag, const_node(ConstValue::UInt(n), kind));
    put(c.dag, pair_node(op, dtype, a, c.id))
}

/// A node with one source.
pub open spec fn unary_node(op: Op, dtype: DType, src: usize) -> NodeView {
    NodeView { op, dtype, srcs: seq![src] }
}

/// What is added to the exponent where a number moves to another encoding, or
/// else subtracted.
pub open spec fn rebias(from: Format, to: Format, unit: u64) -> (BinaryOp, u64) {
    if to.bias >= from.bias {
        (BinaryOp::Add, ((to.bias - from.bias) * unit) as u64)
    } else {
        (BinaryOp::Sub, ((from.bias - to.bias) * unit) as u64)
    }
}

/// The least exponent of a narrow encoding whose numbers a wide one holds. An
/// exponent of zero stands for zero.
pub open spec fn least_exponent(narrow: Format, wide: Format) -> u64 {
    if narrow.bias >= wide.bias {
        (narrow.bias - wide.bias + 1) as u64
    } else {
        1
    }
}

/// The least exponent of a wide encoding whose numbers a narrow one holds.
pub open spec fn least_wide_exponent(narrow: Format, wide: Format) -> u64 {
    if wide.bias >= narrow.bias {
        (wide.bias - narrow.bias + 1) as u64
    } else {
        1
    }
}

/// Whether a word is no number: its exponent is all ones where there are
/// infinities, and else it is the one encoding for that.
pub open spec fn not_number(
    dag: Seq<NodeView>,
    narrow: Format,
    wide: Format,
    word: usize,
    rest: usize,
    exponent: usize,
) -> Built {
    if has_infinity(narrow) {
        with_uint(
            dag,
            BinaryOp::Eq,
            DType::Bool,
            word_of(wide),
            exponent,
            (narrow.ones / narrow.fraction) as u64,
        )
    } else if has_one_zero(narrow) {
        with_uint(dag, BinaryOp::Eq, DType::Bool, word_of(narrow), word, narrow.nan)
    } else {
        with_uint(dag, BinaryOp::Eq, DType::Bool, word_of(wide), rest, narrow.nan)
    }
}

/// The sign bit of a narrow word, where a wide one has it.
pub open spec fn raised_sign(dag: Seq<NodeView>, narrow: Format, wide: Format, word: usize) -> Built {
    let t = word_of(wide);
    let bit = with_uint(dag, BinaryOp::And, word_of(narrow), word_of(narrow), word, narrow.sign);
    let cast = put(bit.dag, unary_node(Op::Cast, t, bit.id));
    with_uint(cast.dag, BinaryOp::Shl, t, t, cast.id, (wide.bits - narrow.bits) as u64)
}

/// A narrow word without its sign bit, in a wide word.
pub open spec fn raised_rest(dag: Seq<NodeView>, narrow: Format, wide: Format, word: usize) -> Built {
    let bits = with_uint(
        dag,
        BinaryOp::And,
        word_of(narrow),
        word_of(narrow),
        word,
        (narrow.sign - 1) as u64,
    );
    put(bits.dag, unary_node(Op::Cast, word_of(wide), bits.id))
}

/// A wide magnitude, or zero where the exponent of the narrow word is too small.
pub open spec fn unless_small(
    dag: Seq<NodeView>,
    narrow: Format,
    wide: Format,
    exponent: usize,
    number: usize,
) -> Built {
    let t = word_of(wide);
    let small = with_uint(
        dag,
        BinaryOp::Lt,
        DType::Bool,
        t,
        exponent,
        least_exponent(narrow, wide),
    );
    let zero = put(small.dag, const_node(ConstValue::UInt(0), t));
    put(zero.dag, where_node(t, small.id, zero.id, number))
}

/// The wide encoding, but for its sign, of what a narrow word encodes.
pub open spec fn raised_magnitude(
    dag: Seq<NodeView>,
    narrow: Format,
    wide: Format,
    word: usize,
    rest: usize,
) -> Built {
    let t = word_of(wide);
    let exponent = with_uint(dag, BinaryOp::Shr, t, t, rest, narrow.mantissa);
    let scaled = with_uint(
        exponent.dag,
        BinaryOp::Shl,
        t,
        t,
        rest,
        (wide.mantissa - narrow.mantissa) as u64,
    );
    let (op, by) = rebias(narrow, wide, wide.fraction);
    let number = with_uint(scaled.dag, op, t, t, scaled.id, by);
    let mask = if has_infinity(narrow) {
        wide.ones
    } else {
        wide.nan
    };
    let none = with_uint(number.dag, BinaryOp::Or, t, t, scaled.id, mask);
    let test = not_number(none.dag, narrow, wide, word, rest, exponent.id);
    let kept = unless_small(test.dag, narrow, wide, exponent.id, number.id);
    put(kept.dag, where_node(t, test.id, none.id, kept.id))
}

/// What a narrow word encodes, as a wide float. An exponent of zero gives zero.
#[verifier::opaque]
pub open spec fn raised(
    dag: Seq<NodeView>,
    narrow: Format,
    wide: Format,
    to: DType,
    word: usize,
) -> Built {
    let sign = raised_sign(dag, narrow, wide, word);
    let rest = raised_rest(sign.dag, narrow, wide, word);
    let magnitude = raised_magnitude(rest.dag, narrow, wide, word, rest.id);
    let whole = put(
        magnitude.dag,
        pair_node(BinaryOp::Or, word_of(wide), sign.id, magnitude.id),
    );
    put(whole.dag, unary_node(Op::BitCast, to, whole.id))
}

/// The word that encodes a float.
pub open spec fn bits_of(dag: Seq<NodeView>, wide: Format, value: usize) -> Built {
    let node = dag[value as int];
    if node.op is BitCast && dag[node.srcs[0] as int].dtype == word_of(wide) {
        Built { dag, id: node.srcs[0] }
    } else {
        put(dag, unary_node(Op::BitCast, word_of(wide), value))
    }
}

/// The narrow encoding, but for its sign, of a wide magnitude that is a number
/// and not too small: rounded to nearest, ties to even, and no greater than the
/// greatest.
pub open spec fn lowered_magnitude(
    dag: Seq<NodeView>,
    narrow: Format,
    wide: Format,
    rounded: usize,
) -> Built {
    let t = word_of(wide);
    let (op, by) = rebias(wide, narrow, narrow.fraction);
    let number = with_uint(dag, op, t, t, rounded, by);
    let over = put(number.dag, const_node(ConstValue::UInt(narrow.top), t));
    let test = put(over.dag, pair_node(BinaryOp::Lt, DType::Bool, over.id, number.id));
    put(test.dag, where_node(t, test.id, over.id, number.id))
}

/// A wide magnitude with the mantissa of a narrow one.
pub open spec fn rounded_off(dag: Seq<NodeView>, narrow: Format, wide: Format, rest: usize) -> Built {
    let t = word_of(wide);
    let drop = (wide.mantissa - narrow.mantissa) as u64;
    let cut = with_uint(dag, BinaryOp::Shr, t, t, rest, drop);
    let odd = with_uint(cut.dag, BinaryOp::And, t, t, cut.id, 1);
    let even = put(odd.dag, pair_node(BinaryOp::Add, t, rest, odd.id));
    let more = with_uint(
        even.dag,
        BinaryOp::Add,
        t,
        t,
        even.id,
        (wide.fraction / narrow.fraction / 2 - 1) as u64,
    );
    with_uint(more.dag, BinaryOp::Shr, t, t, more.id, drop)
}

/// A signed narrow word, or zero where the number is too small for it.
pub open spec fn flushed(
    dag: Seq<NodeView>,
    narrow: Format,
    wide: Format,
    sign: usize,
    rounded: usize,
    signed: usize,
) -> Built {
    let t = word_of(wide);
    let small = with_uint(
        dag,
        BinaryOp::Lt,
        DType::Bool,
        t,
        rounded,
        (least_wide_exponent(narrow, wide) * narrow.fraction) as u64,
    );
    let zero = if has_one_zero(narrow) {
        put(small.dag, const_node(ConstValue::UInt(0), t))
    } else {
        Built { dag: small.dag, id: sign }
    };
    put(zero.dag, where_node(t, small.id, zero.id, signed))
}

/// A narrow word, or the encoding that is no number where the wide magnitude is
/// none.
pub open spec fn unless_nan(
    dag: Seq<NodeView>,
    narrow: Format,
    wide: Format,
    rest: usize,
    kept: usize,
) -> Built {
    let t = word_of(wide);
    let ones = put(dag, const_node(ConstValue::UInt(wide.ones), t));
    let test = put(ones.dag, pair_node(BinaryOp::Lt, DType::Bool, ones.id, rest));
    let none = put(test.dag, const_node(ConstValue::UInt(narrow.nan), t));
    put(none.dag, where_node(t, test.id, none.id, kept))
}

/// The narrow word of a wide word.
pub open spec fn lowered_word(dag: Seq<NodeView>, narrow: Format, wide: Format, word: usize) -> Built {
    let t = word_of(wide);
    let high = with_uint(
        dag,
        BinaryOp::Shr,
        t,
        t,
        word,
        (wide.bits - narrow.bits) as u64,
    );
    let sign = with_uint(high.dag, BinaryOp::And, t, t, high.id, narrow.sign);
    let rest = with_uint(sign.dag, BinaryOp::And, t, t, word, (wide.sign - 1) as u64);
    let rounded = rounded_off(rest.dag, narrow, wide, rest.id);
    let magnitude = lowered_magnitude(rounded.dag, narrow, wide, rounded.id);
    let signed = put(magnitude.dag, pair_node(BinaryOp::Or, t, sign.id, magnitude.id));
    let kept = flushed(signed.dag, narrow, wide, sign.id, rounded.id, signed.id);
    unless_nan(kept.dag, narrow, wide, rest.id, kept.id)
}

/// The narrow word of a wide float.
#[verifier::opaque]
pub open spec fn lowered(dag: Seq<NodeView>, narrow: Format, wide: Format, value: usize) -> Built {
    let bits = bits_of(dag, wide, value);
    let word = lowered_word(bits.dag, narrow, wide, bits.id);
    put(word.dag, unary_node(Op::Cast, word_of(narrow), word.id))
}

fn find_format(dtype: DType) -> (format: Option<Format>)
    ensures
        format == format_of(dtype),
{
    match dtype {
        DType::FP8E4M3 => Some(
            Format {
                bits: 8,
                mantissa: 3,
                sign: 0x80,
                fraction: 8,
                ones: 0x78,
                bias: 7,
                top: 0x7e,
                nan: 0x7f,
            },
        ),
        DType::FP8E5M2 => Some(
            Format {
                bits: 8,
                mantissa: 2,
                sign: 0x80,
                fraction: 4,
                ones: 0x7c,
                bias: 15,
                top: 0x7c,
                nan: 0x7e,
            },
        ),
        DType::FP8E4M3FNUZ => Some(
            Format {
                bits: 8,
                mantissa: 3,
                sign: 0x80,
                fraction: 8,
                ones: 0x78,
                bias: 8,
                top: 0x7f,
                nan: 0x80,
            },
        ),
        DType::FP8E5M2FNUZ => Some(
            Format {
                bits: 8,
                mantissa: 2,
                sign: 0x80,
                fraction: 4,
                ones: 0x7c,
                bias: 16,
                top: 0x7f,
                nan: 0x80,
            },
        ),
        DType::Float16 => Some(
            Format {
                bits: 16,
                mantissa: 10,
                sign: 0x8000,
                fraction: 0x400,
                ones: 0x7c00,
                bias: 15,
                top: 0x7c00,
                nan: 0x7e00,
            },
        ),
        DType::BFloat16 => Some(
            Format {
                bits: 16,
                mantissa: 7,
                sign: 0x8000,
                fraction: 0x80,
                ones: 0x7f80,
                bias: 127,
                top: 0x7f80,
                nan: 0x7fc0,
            },
        ),
        DType::Float32 => Some(
            Format {
                bits: 32,
                mantissa: 23,
                sign: 0x8000_0000,
                fraction: 0x80_0000,
                ones: 0x7f80_0000,
                bias: 127,
                top: 0x7f80_0000,
                nan: 0x7fc0_0000,
            },
        ),
        _ => None,
    }
}

/// The bounds of an encoding of at most 32 bits.
pub open spec fn is_small_format(format: Format) -> bool {
    &&& 0 < format.sign <= 0x8000_0000
    &&& 0 < format.fraction <= 0x80_0000
    &&& format.bias <= 127
    &&& format.mantissa <= 23
    &&& format.bits <= 32
}

fn find_word(format: Format) -> (dtype: DType)
    ensures
        dtype == word_of(format),
{
    if format.bits == 8 {
        DType::UInt8
    } else if format.bits == 16 {
        DType::UInt16
    } else {
        DType::UInt32
    }
}

fn put_uint(graph: &mut Graph, n: u64, kind: DType) -> (id: usize)
    requires
        old(graph).wf(),
    ensures
        grown(old(graph)@, *final(graph), put(old(graph)@, const_node(ConstValue::UInt(n), kind)), id),
{
    proof {
        lemma_interned_keeps(graph@, const_node(ConstValue::UInt(n), kind));
    }
    graph.constant(ConstValue::UInt(n), kind)
}

fn put_with_uint(graph: &mut Graph, op: BinaryOp, dtype: DType, kind: DType, a: usize, n: u64) -> (id:
    usize)
    requires
        old(graph).wf(),
        a < old(graph)@.len(),
    ensures
        grown(old(graph)@, *final(graph), with_uint(old(graph)@, op, dtype, kind, a, n), id),
{
    let c: usize = put_uint(graph, n, kind);
    put_pair(graph, op, dtype, a, c)
}

fn put_unary(graph: &mut Graph, op: Op, dtype: DType, src: usize) -> (id: usize)
    requires
        old(graph).wf(),
        src < old(graph)@.len(),
        op is Cast || op is BitCast,
    ensures
        grown(old(graph)@, *final(graph), put(old(graph)@, unary_node(op, dtype, src)), id),
{
    proof {
        lemma_interned_keeps(graph@, unary_node(op, dtype, src));
    }
    graph.unary(op, dtype, src)
}

fn find_rebias(from: Format, to: Format, unit: u64) -> (found: (BinaryOp, u64))
    requires
        is_small_format(from),
        is_small_format(to),
        unit <= 0x80_0000,
    ensures
        found == rebias(from, to, unit),
{
    if to.bias >= from.bias {
        let step: u64 = to.bias - from.bias;
        assert(step * unit <= 127 * 0x80_0000) by (nonlinear_arith)
            requires
                step <= 127,
                unit <= 0x80_0000,
        ;
        (BinaryOp::Add, step * unit)
    } else {
        let step: u64 = from.bias - to.bias;
        assert(step * unit <= 127 * 0x80_0000) by (nonlinear_arith)
            requires
                step <= 127,
                unit <= 0x80_0000,
        ;
        (BinaryOp::Sub, step * unit)
    }
}

fn put_raised_sign(graph: &mut Graph, narrow: Format, wide: Format, word: usize) -> (id: usize)
    requires
        old(graph).wf(),
        word < old(graph)@.len(),
        is_wider(narrow, wide),
    ensures
        grown(old(graph)@, *final(graph), raised_sign(old(graph)@, narrow, wide, word), id),
{
    let t = find_word(wide);
    let s = find_word(narrow);
    let bit: usize = put_with_uint(graph, BinaryOp::And, s, s, word, narrow.sign);
    let cast: usize = put_unary(graph, Op::Cast, t, bit);
    put_with_uint(graph, BinaryOp::Shl, t, t, cast, wide.bits - narrow.bits)
}

fn put_raised_rest(graph: &mut Graph, narrow: Format, wide: Format, word: usize) -> (id: usize)
    requires
        old(graph).wf(),
        word < old(graph)@.len(),
        is_small_format(narrow),
    ensures
        grown(old(graph)@, *final(graph), raised_rest(old(graph)@, narrow, wide, word), id),
{
    let s = find_word(narrow);
    let bits: usize = put_with_uint(graph, BinaryOp::And, s, s, word, narrow.sign - 1);
    put_unary(graph, Op::Cast, find_word(wide), bits)
}

fn put_not_number(
    graph: &mut Graph,
    narrow: Format,
    wide: Format,
    word: usize,
    rest: usize,
    exponent: usize,
) -> (id: usize)
    requires
        old(graph).wf(),
        word < old(graph)@.len(),
        rest < old(graph)@.len(),
        exponent < old(graph)@.len(),
        is_small_format(narrow),
    ensures
        grown(
            old(graph)@,
            *final(graph),
            not_number(old(graph)@, narrow, wide, word, rest, exponent),
            id,
        ),
{
    let b = DType::Bool;
    let t = find_word(wide);
    if narrow.top == narrow.ones {
        put_with_uint(graph, BinaryOp::Eq, b, t, exponent, narrow.ones / narrow.fraction)
    } else if narrow.nan == narrow.sign {
        put_with_uint(graph, BinaryOp::Eq, b, find_word(narrow), word, narrow.nan)
    } else {
        put_with_uint(graph, BinaryOp::Eq, b, t, rest, narrow.nan)
    }
}

fn put_unless_small(
    graph: &mut Graph,
    narrow: Format,
    wide: Format,
    exponent: usize,
    number: usize,
) -> (id: usize)
    requires
        old(graph).wf(),
        exponent < old(graph)@.len(),
        number < old(graph)@.len(),
        is_small_format(narrow),
    ensures
        grown(
            old(graph)@,
            *final(graph),
            unless_small(old(graph)@, narrow, wide, exponent, number),
            id,
        ),
{
    let t = find_word(wide);
    let least: u64 = if narrow.bias >= wide.bias {
        narrow.bias - wide.bias + 1
    } else {
        1
    };
    let small: usize = put_with_uint(graph, BinaryOp::Lt, DType::Bool, t, exponent, least);
    let zero: usize = put_uint(graph, 0, t);
    put_where(graph, t, small, zero, number)
}

#[verifier::rlimit(60)]
#[verifier::spinoff_prover]
fn put_raised_magnitude(graph: &mut Graph, narrow: Format, wide: Format, word: usize, rest: usize) -> (id:
    usize)
    requires
        old(graph).wf(),
        word < old(graph)@.len(),
        rest < old(graph)@.len(),
        is_small_format(narrow),
        is_small_format(wide),
        is_wider(narrow, wide),
    ensures
        grown(
            old(graph)@,
            *final(graph),
            raised_magnitude(old(graph)@, narrow, wide, word, rest),
            id,
        ),
{
    let t = find_word(wide);
    let exponent: usize = put_with_uint(graph, BinaryOp::Shr, t, t, rest, narrow.mantissa);
    let scaled: usize = put_with_uint(
        graph,
        BinaryOp::Shl,
        t,
        t,
        rest,
        wide.mantissa - narrow.mantissa,
    );
    let (op, by) = find_rebias(narrow, wide, wide.fraction);
    let number: usize = put_with_uint(graph, op, t, t, scaled, by);
    let mask: u64 = if narrow.top == narrow.ones {
        wide.ones
    } else {
        wide.nan
    };
    let none: usize = put_with_uint(graph, BinaryOp::Or, t, t, scaled, mask);
    let test: usize = put_not_number(graph, narrow, wide, word, rest, exponent);
    let kept: usize = put_unless_small(graph, narrow, wide, exponent, number);
    put_where(graph, t, test, none, kept)
}

fn put_raised(graph: &mut Graph, narrow: Format, wide: Format, to: DType, word: usize) -> (id: usize)
    requires
        old(graph).wf(),
        word < old(graph)@.len(),
        is_small_format(narrow),
        is_small_format(wide),
        is_wider(narrow, wide),
    ensures
        grown(old(graph)@, *final(graph), raised(old(graph)@, narrow, wide, to, word), id),
{
    reveal(raised);
    let sign: usize = put_raised_sign(graph, narrow, wide, word);
    let rest: usize = put_raised_rest(graph, narrow, wide, word);
    let magnitude: usize = put_raised_magnitude(graph, narrow, wide, word, rest);
    let whole: usize = put_pair(graph, BinaryOp::Or, find_word(wide), sign, magnitude);
    put_unary(graph, Op::BitCast, to, whole)
}

fn put_bits(graph: &mut Graph, wide: Format, value: usize) -> (id: usize)
    requires
        old(graph).wf(),
        value < old(graph)@.len(),
    ensures
        grown(old(graph)@, *final(graph), bits_of(old(graph)@, wide, value), id),
{
    proof {
        lemma_arity(graph@, value);
    }
    match graph.op(value) {
        Op::BitCast => {
            let src: usize = graph.source(value, 0);
            if graph.dtype(src) == find_word(wide) {
                return src;
            }
        },
        _ => {},
    }
    put_unary(graph, Op::BitCast, find_word(wide), value)
}

fn put_rounded_off(graph: &mut Graph, narrow: Format, wide: Format, rest: usize) -> (id: usize)
    requires
        old(graph).wf(),
        rest < old(graph)@.len(),
        is_wider(narrow, wide),
        narrow.fraction > 0,
        wide.fraction / narrow.fraction / 2 >= 1,
    ensures
        grown(old(graph)@, *final(graph), rounded_off(old(graph)@, narrow, wide, rest), id),
{
    let t = find_word(wide);
    let drop: u64 = wide.mantissa - narrow.mantissa;
    let cut: usize = put_with_uint(graph, BinaryOp::Shr, t, t, rest, drop);
    let odd: usize = put_with_uint(graph, BinaryOp::And, t, t, cut, 1);
    let even: usize = put_pair(graph, BinaryOp::Add, t, rest, odd);
    let half: u64 = wide.fraction / narrow.fraction / 2 - 1;
    let more: usize = put_with_uint(graph, BinaryOp::Add, t, t, even, half);
    put_with_uint(graph, BinaryOp::Shr, t, t, more, drop)
}

fn put_lowered_magnitude(graph: &mut Graph, narrow: Format, wide: Format, rounded: usize) -> (id: usize)
    requires
        old(graph).wf(),
        rounded < old(graph)@.len(),
        is_small_format(narrow),
        is_small_format(wide),
    ensures
        grown(old(graph)@, *final(graph), lowered_magnitude(old(graph)@, narrow, wide, rounded), id),
{
    let t = find_word(wide);
    let (op, by) = find_rebias(wide, narrow, narrow.fraction);
    let number: usize = put_with_uint(graph, op, t, t, rounded, by);
    let over: usize = put_uint(graph, narrow.top, t);
    let test: usize = put_pair(graph, BinaryOp::Lt, DType::Bool, over, number);
    put_where(graph, t, test, over, number)
}

fn put_flushed(
    graph: &mut Graph,
    narrow: Format,
    wide: Format,
    sign: usize,
    rounded: usize,
    signed: usize,
) -> (id: usize)
    requires
        old(graph).wf(),
        sign < old(graph)@.len(),
        rounded < old(graph)@.len(),
        signed < old(graph)@.len(),
        is_small_format(narrow),
        is_small_format(wide),
    ensures
        grown(
            old(graph)@,
            *final(graph),
            flushed(old(graph)@, narrow, wide, sign, rounded, signed),
            id,
        ),
{
    let t = find_word(wide);
    let least: u64 = if wide.bias >= narrow.bias {
        wide.bias - narrow.bias + 1
    } else {
        1
    };
    let unit: u64 = narrow.fraction;
    assert(least * unit <= 128 * 0x80_0000) by (nonlinear_arith)
        requires
            least <= 128,
            unit <= 0x80_0000,
    ;
    let small: usize = put_with_uint(graph, BinaryOp::Lt, DType::Bool, t, rounded, least * unit);
    let zero: usize = if narrow.nan == narrow.sign {
        put_uint(graph, 0, t)
    } else {
        sign
    };
    put_where(graph, t, small, zero, signed)
}

fn put_unless_nan(graph: &mut Graph, narrow: Format, wide: Format, rest: usize, kept: usize) -> (id:
    usize)
    requires
        old(graph).wf(),
        rest < old(graph)@.len(),
        kept < old(graph)@.len(),
    ensures
        grown(old(graph)@, *final(graph), unless_nan(old(graph)@, narrow, wide, rest, kept), id),
{
    let t = find_word(wide);
    let ones: usize = put_uint(graph, wide.ones, t);
    let test: usize = put_pair(graph, BinaryOp::Lt, DType::Bool, ones, rest);
    let none: usize = put_uint(graph, narrow.nan, t);
    put_where(graph, t, test, none, kept)
}

#[verifier::rlimit(60)]
#[verifier::spinoff_prover]
fn put_lowered_word(graph: &mut Graph, narrow: Format, wide: Format, word: usize) -> (id: usize)
    requires
        old(graph).wf(),
        word < old(graph)@.len(),
        is_small_format(narrow),
        is_small_format(wide),
        is_wider(narrow, wide),
        wide.fraction / narrow.fraction / 2 >= 1,
    ensures
        grown(old(graph)@, *final(graph), lowered_word(old(graph)@, narrow, wide, word), id),
{
    let t = find_word(wide);
    let high: usize = put_with_uint(graph, BinaryOp::Shr, t, t, word, wide.bits - narrow.bits);
    let sign: usize = put_with_uint(graph, BinaryOp::And, t, t, high, narrow.sign);
    let rest: usize = put_with_uint(graph, BinaryOp::And, t, t, word, wide.sign - 1);
    let rounded: usize = put_rounded_off(graph, narrow, wide, rest);
    let magnitude: usize = put_lowered_magnitude(graph, narrow, wide, rounded);
    let signed: usize = put_pair(graph, BinaryOp::Or, t, sign, magnitude);
    let kept: usize = put_flushed(graph, narrow, wide, sign, rounded, signed);
    put_unless_nan(graph, narrow, wide, rest, kept)
}

fn put_lowered(graph: &mut Graph, narrow: Format, wide: Format, value: usize) -> (id: usize)
    requires
        old(graph).wf(),
        value < old(graph)@.len(),
        is_small_format(narrow),
        is_small_format(wide),
        is_wider(narrow, wide),
        wide.fraction / narrow.fraction / 2 >= 1,
    ensures
        grown(old(graph)@, *final(graph), lowered(old(graph)@, narrow, wide, value), id),
{
    reveal(lowered);
    let bits: usize = put_bits(graph, wide, value);
    let word: usize = put_lowered_word(graph, narrow, wide, bits);
    put_unary(graph, Op::Cast, find_word(narrow), word)
}

/// What a node becomes where floats of one type are held in words and computed
/// with in a wider type. Storage and addresses of that type hold words; what is
/// loaded is widened, with its alternative narrowed; what is stored is narrowed;
/// bits are read as they are stored; and all else is of the wider type.
pub open spec fn stored(dag: Seq<NodeView>, from: DType, to: DType, id: usize) -> Option<Built> {
    match (format_of(from), format_of(to)) {
        (Some(narrow), Some(wide)) => if is_wider(narrow, wide) {
            stored_as(dag, from, to, narrow, wide, id)
        } else {
            None
        },
        _ => None,
    }
}

/// See `stored`.
pub open spec fn stored_as(
    dag: Seq<NodeView>,
    from: DType,
    to: DType,
    narrow: Format,
    wide: Format,
    id: usize,
) -> Option<Built> {
    let node = dag[id as int];
    let word = word_of(narrow);
    if node.dtype == from {
        match node.op {
            Op::Buffer { .. } | Op::Param { .. } | Op::Index => Some(
                put(dag, NodeView { dtype: word, ..node }),
            ),
            Op::Load => if node.srcs.len() == 3 {
                let other = lowered(dag, narrow, wide, node.srcs[1]);
                let load = put(
                    other.dag,
                    NodeView { dtype: word, srcs: node.srcs.update(1, other.id), ..node },
                );
                Some(raised(load.dag, narrow, wide, to, load.id))
            } else {
                let load = put(dag, NodeView { dtype: word, ..node });
                Some(raised(load.dag, narrow, wide, to, load.id))
            },
            Op::BitCast => if dag[node.srcs[0] as int].dtype == word {
                Some(raised(dag, narrow, wide, to, node.srcs[0]))
            } else {
                Some(put(dag, NodeView { dtype: to, ..node }))
            },
            _ => Some(put(dag, NodeView { dtype: to, ..node })),
        }
    } else if node.op is Store && dag[node.srcs[0] as int].dtype == word
        && dag[node.srcs[1] as int].dtype == to {
        let value = lowered(dag, narrow, wide, node.srcs[1]);
        Some(put(value.dag, NodeView { srcs: node.srcs.update(1, value.id), ..node }))
    } else if node.op is BitCast && node.dtype == word && dag[node.srcs[0] as int].dtype == to {
        Some(lowered(dag, narrow, wide, node.srcs[0]))
    } else {
        None
    }
}

/// Puts the node in the graph that another node is with a type and a source
/// replaced.
fn put_changed(graph: &mut Graph, id: usize, dtype: DType, second: Option<usize>) -> (new: usize)
    requires
        old(graph).wf(),
        id < old(graph)@.len(),
        second matches Some(src) ==> src < old(graph)@.len() && old(graph)@[id as int].srcs.len()
            > 1,
    ensures
        ({
            let node = old(graph)@[id as int];
            let srcs = match second {
                Some(src) => node.srcs.update(1, src),
                None => node.srcs,
            };
            grown(old(graph)@, *final(graph), put(old(graph)@, NodeView { dtype, srcs, ..node }), new)
        }),
{
    let op = graph.op(id);
    let mut list = sources(graph, id);
    let ghost node = graph@[id as int];
    proof {
        lemma_arity(graph@, id);
    }
    match second {
        Some(src) => {
            list.set(1, src);
        },
        None => {},
    }
    proof {
        lemma_interned_keeps(graph@, NodeView { dtype, srcs: list@, ..node });
    }
    graph.node(op, dtype, list.as_slice())
}

fn apply_stored(graph: &mut Graph, from: DType, to: DType, narrow: Format, wide: Format, id: usize) -> (new:
    Option<usize>)
    requires
        old(graph).wf(),
        id < old(graph)@.len(),
        is_small_format(narrow),
        is_small_format(wide),
        is_wider(narrow, wide),
        wide.fraction / narrow.fraction / 2 >= 1,
    ensures
        made(
            old(graph)@,
            *final(graph),
            stored_as(old(graph)@, from, to, narrow, wide, id),
            new,
        ),
{
    let ghost dag = graph@;
    proof {
        lemma_arity(dag, id);
    }
    let word = find_word(narrow);
    let op = graph.op(id);
    let dtype = graph.dtype(id);
    if dtype == from {
        return Some(
            match op {
                Op::Buffer { .. } | Op::Param { .. } | Op::Index => put_changed(
                    graph,
                    id,
                    word,
                    None,
                ),
                Op::Load => {
                    let load: usize = if graph.source_count(id) == 3 {
                        let other: usize = put_lowered(graph, narrow, wide, graph.source(id, 1));
                        put_changed(graph, id, word, Some(other))
                    } else {
                        put_changed(graph, id, word, None)
                    };
                    put_raised(graph, narrow, wide, to, load)
                },
                Op::BitCast => {
                    let src: usize = graph.source(id, 0);
                    if graph.dtype(src) == word {
                        put_raised(graph, narrow, wide, to, src)
                    } else {
                        put_changed(graph, id, to, None)
                    }
                },
                _ => put_changed(graph, id, to, None),
            },
        );
    }
    match op {
        Op::Store => {
            let value: usize = graph.source(id, 1);
            if graph.dtype(graph.source(id, 0)) == word && graph.dtype(value) == to {
                let less: usize = put_lowered(graph, narrow, wide, value);
                Some(put_changed(graph, id, dtype, Some(less)))
            } else {
                None
            }
        },
        Op::BitCast => {
            let value: usize = graph.source(id, 0);
            if dtype == word && graph.dtype(value) == to {
                Some(put_lowered(graph, narrow, wide, value))
            } else {
                None
            }
        },
        _ => None,
    }
}

/// Holds floats of one type in words and computes with them in a wider type;
/// see `stored`.
pub fn store_in_words(graph: &mut Graph, from: DType, to: DType, id: usize) -> (new: Option<usize>)
    requires
        old(graph).wf(),
        id < old(graph)@.len(),
    ensures
        made(old(graph)@, *final(graph), stored(old(graph)@, from, to, id), new),
{
    match (find_format(from), find_format(to)) {
        (Some(narrow), Some(wide)) => {
            if narrow.bits < wide.bits && narrow.mantissa < wide.mantissa {
                apply_stored(graph, from, to, narrow, wide, id)
            } else {
                None
            }
        },
        _ => None,
    }
}

/// What a node becomes is not of the type that is held in words.
pub proof fn lemma_stored_is_held(dag: Seq<NodeView>, from: DType, to: DType, id: usize)
    requires
        format_of(from) is Some,
        format_of(to) is Some,
        is_wider(format_of(from)->0, format_of(to)->0),
        stored(dag, from, to, id) matches Some(new) ==> new.dag.len() <= usize::MAX,
    ensures
        match stored(dag, from, to, id) {
            Some(new) => new.id < new.dag.len() && new.dag[new.id as int].dtype != from,
            None => dag[id as int].dtype != from,
        },
{
    reveal(raised);
    reveal(lowered);
    let node = dag[id as int];
    let narrow = format_of(from)->0;
    let wide = format_of(to)->0;
    let word = word_of(narrow);
    if node.dtype == from {
        match node.op {
            Op::Load => {
                let load = if node.srcs.len() == 3 {
                    let other = lowered(dag, narrow, wide, node.srcs[1]);
                    put(
                        other.dag,
                        NodeView { dtype: word, srcs: node.srcs.update(1, other.id), ..node },
                    )
                } else {
                    put(dag, NodeView { dtype: word, ..node })
                };
                lemma_raised_type(load.dag, narrow, wide, to, load.id);
            },
            Op::BitCast => {
                if dag[node.srcs[0] as int].dtype == word {
                    lemma_raised_type(dag, narrow, wide, to, node.srcs[0]);
                } else {
                    lemma_put(dag, NodeView { dtype: to, ..node });
                }
            },
            Op::Buffer { .. } | Op::Param { .. } | Op::Index => {
                lemma_put(dag, NodeView { dtype: word, ..node });
            },
            _ => {
                lemma_put(dag, NodeView { dtype: to, ..node });
            },
        }
    } else if stored(dag, from, to, id) is Some {
        if node.op is Store {
            let value = lowered(dag, narrow, wide, node.srcs[1]);
            lemma_put(
                value.dag,
                NodeView { srcs: node.srcs.update(1, value.id), ..node },
            );
        } else {
            let bits = bits_of(dag, wide, node.srcs[0]);
            let low = lowered_word(bits.dag, narrow, wide, bits.id);
            lemma_put(low.dag, unary_node(Op::Cast, word, low.id));
        }
    }
}

proof fn lemma_raised_type(
    dag: Seq<NodeView>,
    narrow: Format,
    wide: Format,
    to: DType,
    word: usize,
)
    requires
        raised(dag, narrow, wide, to, word).dag.len() <= usize::MAX,
    ensures
        ({
            let new = raised(dag, narrow, wide, to, word);
            new.id < new.dag.len() && new.dag[new.id as int].dtype == to
        }),
{
    reveal(raised);
    let sign = raised_sign(dag, narrow, wide, word);
    let rest = raised_rest(sign.dag, narrow, wide, word);
    let magnitude = raised_magnitude(rest.dag, narrow, wide, word, rest.id);
    let whole = put(
        magnitude.dag,
        pair_node(BinaryOp::Or, word_of(wide), sign.id, magnitude.id),
    );
    lemma_put(whole.dag, unary_node(Op::BitCast, to, whole.id));
}

} // verus!
