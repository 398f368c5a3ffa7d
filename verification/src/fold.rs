//! Constant folding of integer expressions, and of the bits of floats.

use std::collections::HashMap;

use vstd::arithmetic::div_mod::{
    lemma_add_mod_noop, lemma_fundamental_div_mod, lemma_fundamental_div_mod_converse,
    lemma_mod_mod, lemma_mul_mod_noop,
};
use vstd::arithmetic::power2::{lemma_pow2_strictly_increases, pow2};
use vstd::prelude::*;

use crate::graph::{
    arity_ok, dag_wf, BinaryOp, ConstValue, DType, Graph, NodeView, Op, TernaryOp, UnaryOp,
};
use crate::rounding::{
    find_single_pattern, find_widened_pattern, single_pattern, widened_pattern, SIGN,
};
use crate::topo::reaches;
use crate::window::{encodes, float_bits, lemma_encoding_is_unique};

verus! {

broadcast use vstd::std_specs::hash::group_hash_axioms;

/// The number of values of an integer type.
pub open spec fn modulus(dtype: DType) -> Option<int> {
    match dtype {
        DType::Int8 | DType::UInt8 => Some(0x100),
        DType::Int16 | DType::UInt16 => Some(0x1_0000),
        DType::Int32 | DType::UInt32 => Some(0x1_0000_0000),
        DType::Int64 | DType::UInt64 => Some(0x1_0000_0000_0000_0000),
        _ => None,
    }
}

/// Whether a type of whole numbers has negative ones.
pub open spec fn is_signed(dtype: DType) -> bool {
    dtype == DType::Int8 || dtype == DType::Int16 || dtype == DType::Int32 || dtype == DType::Int64
}

/// The low bits of a word as a value of a type. The upper half of the range of
/// a signed type stands for the negative numbers, and a float of 32 or 64 bits
/// is the one that the bits encode. Other types have no value here.
pub open spec fn reinterpreted(bits: int, dtype: DType) -> ConstValue {
    match modulus(dtype) {
        Some(m) => {
            let low = bits % m;
            if is_signed(dtype) {
                ConstValue::Int(
                    (if low >= m / 2 {
                        low - m
                    } else {
                        low
                    }) as i64,
                )
            } else {
                ConstValue::UInt(low as u64)
            }
        },
        None => if dtype == DType::Float32 {
            ConstValue::Float(widened_pattern(bits % 0x1_0000_0000))
        } else if dtype == DType::Float64 {
            ConstValue::Float((bits % 0x1_0000_0000_0000_0000) as u64)
        } else {
            ConstValue::Invalid
        },
    }
}

/// The low bits of a word as a value of a type; see `reinterpreted`.
pub fn reinterpret_bits(bits: u64, dtype: DType) -> (value: ConstValue)
    ensures
        value == reinterpreted(bits as int, dtype),
{
    match dtype {
        DType::Int8 => {
            let low: u64 = bits % 0x100;
            if low >= 0x80 {
                ConstValue::Int(low as i64 - 0x100)
            } else {
                ConstValue::Int(low as i64)
            }
        },
        DType::Int16 => {
            let low: u64 = bits % 0x1_0000;
            if low >= 0x8000 {
                ConstValue::Int(low as i64 - 0x1_0000)
            } else {
                ConstValue::Int(low as i64)
            }
        },
        DType::Int32 => {
            let low: u64 = bits % 0x1_0000_0000;
            if low >= 0x8000_0000 {
                ConstValue::Int(low as i64 - 0x1_0000_0000)
            } else {
                ConstValue::Int(low as i64)
            }
        },
        DType::Int64 => if bits >= 0x8000_0000_0000_0000 {
            ConstValue::Int((bits as i128 - 0x1_0000_0000_0000_0000) as i64)
        } else {
            ConstValue::Int(bits as i64)
        },
        DType::UInt8 => ConstValue::UInt(bits % 0x100),
        DType::UInt16 => ConstValue::UInt(bits % 0x1_0000),
        DType::UInt32 => ConstValue::UInt(bits % 0x1_0000_0000),
        DType::UInt64 => ConstValue::UInt(bits),
        DType::Float32 => ConstValue::Float(find_widened_pattern(bits % 0x1_0000_0000)),
        DType::Float64 => ConstValue::Float(bits),
        _ => ConstValue::Invalid,
    }
}

/// The number that a constant is; a float and the invalid value are none.
pub open spec fn number_of(value: ConstValue) -> Option<int> {
    match value {
        ConstValue::Int(n) => Some(n as int),
        ConstValue::UInt(n) => Some(n as int),
        ConstValue::Bool(b) => Some(
            if b {
                1
            } else {
                0
            },
        ),
        _ => None,
    }
}

/// The number of 64-bit words.
pub open spec fn word_count() -> int {
    0x1_0000_0000_0000_0000
}

/// A number as a value of a type: integers wrap around, and as a boolean every
/// number but zero is true.
pub open spec fn typed(n: int, dtype: DType) -> Option<ConstValue> {
    if dtype == DType::Bool {
        Some(ConstValue::Bool(n != 0))
    } else if modulus(dtype) is Some {
        Some(reinterpreted(n, dtype))
    } else {
        None
    }
}

/// The quotient rounded toward zero.
pub open spec fn truncated_div(a: int, b: int) -> int {
    let q = (if a < 0 {
        -a
    } else {
        a
    }) / (if b < 0 {
        -b
    } else {
        b
    });
    if (a < 0) == (b < 0) {
        q
    } else {
        -q
    }
}

/// The remainder that goes with the quotient rounded toward zero.
pub open spec fn truncated_mod(a: int, b: int) -> int {
    a - b * truncated_div(a, b)
}

/// The quotient rounded down.
pub open spec fn floored_div(a: int, b: int) -> int {
    if b > 0 {
        a / b
    } else {
        (-a) / (-b)
    }
}

/// The word that a number has in two's complement.
pub open spec fn word(n: int) -> u64 {
    (n % word_count()) as u64
}

/// An operation on two numbers; nothing where it has no integer meaning.
pub open spec fn binary_number(op: BinaryOp, a: int, b: int) -> Option<int> {
    match op {
        BinaryOp::Add => Some(a + b),
        BinaryOp::Sub => Some(a - b),
        BinaryOp::Mul => Some(a * b),
        BinaryOp::CDiv => if b == 0 {
            None
        } else {
            Some(truncated_div(a, b))
        },
        BinaryOp::CMod => if b == 0 {
            None
        } else {
            Some(truncated_mod(a, b))
        },
        BinaryOp::FloorDiv => if b == 0 {
            None
        } else {
            Some(floored_div(a, b))
        },
        BinaryOp::FloorMod => if b == 0 {
            None
        } else {
            Some(a - b * floored_div(a, b))
        },
        BinaryOp::Max => Some(
            if a < b {
                b
            } else {
                a
            },
        ),
        BinaryOp::And => Some((word(a) & word(b)) as int),
        BinaryOp::Or => Some((word(a) | word(b)) as int),
        BinaryOp::Xor => Some((word(a) ^ word(b)) as int),
        BinaryOp::Shl => if 0 <= b < 64 {
            Some(a * pow2(b as nat))
        } else {
            None
        },
        BinaryOp::Shr => if 0 <= b < 64 {
            Some(a / pow2(b as nat) as int)
        } else {
            None
        },
        BinaryOp::Lt => Some(
            if a < b {
                1
            } else {
                0
            },
        ),
        BinaryOp::Eq => Some(
            if a == b {
                1
            } else {
                0
            },
        ),
        BinaryOp::Ne => Some(
            if a != b {
                1
            } else {
                0
            },
        ),
        _ => None,
    }
}

/// An operation on two constants.
pub open spec fn binary_value(
    op: BinaryOp,
    a: ConstValue,
    b: ConstValue,
    dtype: DType,
) -> Option<ConstValue> {
    match (number_of(a), number_of(b)) {
        (Some(x), Some(y)) => match binary_number(op, x, y) {
            Some(n) => typed(n, dtype),
            None => None,
        },
        _ => None,
    }
}

/// The bits of a float as its type encodes it.
pub open spec fn pattern_of(bits: u64, dtype: DType) -> Option<u64> {
    match dtype {
        DType::Float32 => Some(single_pattern(bits)),
        DType::Float64 => Some(bits),
        _ => None,
    }
}

/// A value of one type with its bits read as another type. A value that has no
/// bits here stays as it is.
pub open spec fn bit_cast(value: ConstValue, from: DType, to: DType) -> ConstValue {
    match value {
        ConstValue::Float(bits) => match pattern_of(bits, from) {
            Some(pattern) => reinterpreted(pattern as int, to),
            None => value,
        },
        _ => match number_of(value) {
            Some(n) => reinterpreted(n, to),
            None => value,
        },
    }
}

/// The number below which a float type has all whole numbers.
pub open spec fn exact_below(dtype: DType) -> Option<int> {
    match dtype {
        DType::Float32 => Some(0x100_0000),
        DType::Float64 => Some(0x20_0000_0000_0000),
        _ => None,
    }
}

/// The encoding of a whole number as a float.
pub open spec fn float_of(n: int) -> u64 {
    if n < 0 {
        (SIGN + (choose|b: u64| #[trigger] encodes(b, -n))) as u64
    } else {
        choose|b: u64| #[trigger] encodes(b, n)
    }
}

/// A number converted to a type. To a float it is converted where the float
/// type has all whole numbers of its size.
pub open spec fn cast_number(n: int, dtype: DType) -> Option<ConstValue> {
    match exact_below(dtype) {
        Some(limit) => if -limit < n < limit {
            Some(ConstValue::Float(float_of(n)))
        } else {
            None
        },
        None => typed(n, dtype),
    }
}

/// The negation of a number: of a boolean whether it is false, and else the
/// number with every bit flipped.
pub open spec fn inverted(n: int, dtype: DType) -> Option<ConstValue> {
    if dtype == DType::Bool {
        Some(ConstValue::Bool(n == 0))
    } else {
        typed(-n - 1, dtype)
    }
}

/// What a node is folded to, given the values of its sources.
pub open spec fn folded(
    dag: Seq<NodeView>,
    node: NodeView,
    of: spec_fn(usize) -> Option<ConstValue>,
) -> Option<ConstValue> {
    match node.op {
        Op::Const(value) => Some(value),
        Op::Cast => match of(node.srcs[0]) {
            Some(value) => match number_of(value) {
                Some(n) => cast_number(n, node.dtype),
                None => None,
            },
            None => None,
        },
        Op::BitCast => match of(node.srcs[0]) {
            Some(value) => Some(bit_cast(value, dag[node.srcs[0] as int].dtype, node.dtype)),
            None => None,
        },
        Op::Unary(UnaryOp::Neg) => match of(node.srcs[0]) {
            Some(value) => match number_of(value) {
                Some(n) => typed(-n, node.dtype),
                None => None,
            },
            None => None,
        },
        Op::Unary(UnaryOp::Not) => match of(node.srcs[0]) {
            Some(value) => match number_of(value) {
                Some(n) => inverted(n, node.dtype),
                None => None,
            },
            None => None,
        },
        Op::Binary(op) => match (of(node.srcs[0]), of(node.srcs[1])) {
            (Some(a), Some(b)) => binary_value(op, a, b, node.dtype),
            _ => None,
        },
        Op::Ternary(TernaryOp::Where) => match (
            of(node.srcs[0]),
            of(node.srcs[1]),
            of(node.srcs[2]),
        ) {
            (Some(ConstValue::Bool(c)), Some(a), Some(b)) => Some(
                if c {
                    a
                } else {
                    b
                },
            ),
            _ => None,
        },
        Op::Ternary(TernaryOp::MulAcc) => match (
            of(node.srcs[0]),
            of(node.srcs[1]),
            of(node.srcs[2]),
        ) {
            (Some(a), Some(b), Some(c)) => match (number_of(a), number_of(b), number_of(c)) {
                (Some(x), Some(y), Some(z)) => if node.dtype == DType::Bool {
                    None
                } else {
                    typed(x * y + z, node.dtype)
                },
                _ => None,
            },
            _ => None,
        },
        _ => None,
    }
}

/// The values of nodes that are known.
pub type Known = Map<usize, ConstValue>;

/// The value of a node, where it is known or made of constants and of nodes
/// whose values are known.
pub open spec fn value_of(dag: Seq<NodeView>, known: Known, id: usize) -> Option<ConstValue>
    decreases id,
{
    if known.contains_key(id) {
        Some(known[id])
    } else {
        folded(
            dag,
            dag[id as int],
            |src: usize|
                if src < id {
                    value_of(dag, known, src)
                } else {
                    None
                },
        )
    }
}

/// Whether an operation is folded from the values of its sources.
pub open spec fn reads_sources(op: Op) -> bool {
    op is Cast || op is BitCast || op is Unary || op is Binary || op is Ternary
}

/// Whether folding a node has to fold `x`: it is the node or one that is read
/// on the way down, and its value is not known.
pub open spec fn has_to_fold(dag: Seq<NodeView>, known: Known, id: usize, x: usize) -> bool
    decreases id,
{
    &&& !known.contains_key(id)
    &&& {
        ||| id == x
        ||| reads_sources(dag[id as int].op) && exists|k: int|
            #![trigger dag[id as int].srcs[k]]
            0 <= k < dag[id as int].srcs.len() && dag[id as int].srcs[k] < id && has_to_fold(
                dag,
                known,
                dag[id as int].srcs[k],
                x,
            )
    }
}

/// What is known once a node has been folded: besides what was, the value of
/// every node that had to be folded.
pub open spec fn learns(dag: Seq<NodeView>, before: Known, after: Known, id: usize) -> bool {
    &&& forall|x: usize| #[trigger]
        after.contains_key(x) <==> before.contains_key(x) || has_to_fold(dag, before, id, x)
    &&& forall|x: usize| #[trigger]
        after.contains_key(x) ==> Some(after[x]) == value_of(dag, before, x)
}

/// What a number is as an integer depends on its word alone.
proof fn lemma_word_is_enough(n: int, m: int, dtype: DType)
    requires
        n % word_count() == m % word_count(),
    ensures
        reinterpreted(n, dtype) == reinterpreted(m, dtype),
{
    match modulus(dtype) {
        Some(k) => {
            let rest = word_count() / k;
            assert(k * rest == word_count());
            lemma_mod_mod(n, k, rest);
            lemma_mod_mod(m, k, rest);
        },
        None => {
            lemma_mod_mod(n, 0x1_0000_0000, 0x1_0000_0000);
            lemma_mod_mod(m, 0x1_0000_0000, 0x1_0000_0000);
        },
    }
}

/// The word of a number that is not far from those of one word.
fn to_word(n: i128) -> (w: u64)
    requires
        -0x4_0000_0000_0000_0000 < n < 0x4_0000_0000_0000_0000,
    ensures
        w == word(n as int),
{
    let shifted: u128 = (n + 0x4_0000_0000_0000_0000) as u128;
    let w: u64 = (shifted % 0x1_0000_0000_0000_0000) as u64;
    proof {
        lemma_add_mod_noop(n as int, 0x4_0000_0000_0000_0000, word_count());
    }
    w
}

/// A word as a value of a type other than the booleans.
fn word_value(w: u64, dtype: DType, Ghost(n): Ghost<int>) -> (value: Option<ConstValue>)
    requires
        dtype != DType::Bool,
        w == word(n),
    ensures
        value == typed(n, dtype),
{
    proof {
        lemma_word_is_enough(n, w as int, dtype);
    }
    match dtype {
        DType::Int8
        | DType::Int16
        | DType::Int32
        | DType::Int64
        | DType::UInt8
        | DType::UInt16
        | DType::UInt32
        | DType::UInt64 => Some(reinterpret_bits(w, dtype)),
        _ => None,
    }
}

/// A number as a value of a type.
fn typed_value(n: i128, dtype: DType) -> (value: Option<ConstValue>)
    requires
        -0x4_0000_0000_0000_0000 < n < 0x4_0000_0000_0000_0000,
    ensures
        value == typed(n as int, dtype),
{
    if dtype == DType::Bool {
        Some(ConstValue::Bool(n != 0))
    } else {
        word_value(to_word(n), dtype, Ghost(n as int))
    }
}

/// The number that a constant is.
fn number(value: ConstValue) -> (n: Option<i128>)
    ensures
        match number_of(value) {
            Some(m) => n matches Some(k) && k == m && -0x8000_0000_0000_0000 <= k
                <= 0xffff_ffff_ffff_ffff,
            None => n is None,
        },
{
    match value {
        ConstValue::Int(n) => Some(n as i128),
        ConstValue::UInt(n) => Some(n as i128),
        ConstValue::Bool(b) => Some(
            if b {
                1
            } else {
                0
            },
        ),
        _ => None,
    }
}

/// The word of a product.
fn product_word(a: i128, b: i128) -> (w: u64)
    requires
        -0x4_0000_0000_0000_0000 < a < 0x4_0000_0000_0000_0000,
        -0x4_0000_0000_0000_0000 < b < 0x4_0000_0000_0000_0000,
    ensures
        w == word(a * b),
{
    let x: u64 = to_word(a);
    let y: u64 = to_word(b);
    assert(0 <= x * y <= 0xffff_ffff_ffff_ffff * 0xffff_ffff_ffff_ffff) by (nonlinear_arith)
        requires
            0 <= x <= 0xffff_ffff_ffff_ffff,
            0 <= y <= 0xffff_ffff_ffff_ffff,
    ;
    let product: u128 = x as u128 * y as u128;
    proof {
        lemma_mul_mod_noop(a as int, b as int, word_count());
    }
    (product % 0x1_0000_0000_0000_0000) as u64
}

fn size_of(n: i128) -> (size: u128)
    requires
        -0x4_0000_0000_0000_0000 < n < 0x4_0000_0000_0000_0000,
    ensures
        size == if n < 0 {
            -n
        } else {
            n as int
        },
{
    if n < 0 {
        (-n) as u128
    } else {
        n as u128
    }
}

proof fn lemma_div_bound(a: int, b: int)
    requires
        a >= 0,
        b > 0,
    ensures
        0 <= a / b <= a,
        b * (a / b) <= a,
        a - b * (a / b) < b,
{
    lemma_fundamental_div_mod(a, b);
    assert(0 <= a / b <= a) by (nonlinear_arith)
        requires
            a >= 0,
            b > 0,
    ;
}

/// The quotient rounded toward zero.
fn quotient(a: i128, b: i128) -> (q: i128)
    requires
        -0x1_0000_0000_0000_0000 < a < 0x1_0000_0000_0000_0000,
        -0x1_0000_0000_0000_0000 < b < 0x1_0000_0000_0000_0000,
        b != 0,
    ensures
        q == truncated_div(a as int, b as int),
        -0x1_0000_0000_0000_0000 < q < 0x1_0000_0000_0000_0000,
        -0x1_0000_0000_0000_0000 < a - b * q < 0x1_0000_0000_0000_0000,
        -0x1_0000_0000_0000_0000 < b * q < 0x1_0000_0000_0000_0000,
{
    let x: u128 = size_of(a);
    let y: u128 = size_of(b);
    proof {
        lemma_div_bound(x as int, y as int);
    }
    let size: i128 = (x / y) as i128;
    proof {
        let s = size as int;
        assert((-b) * s == -(b * s)) by (nonlinear_arith);
        assert(b * (-s) == -(b * s)) by (nonlinear_arith);
        assert(0 <= y * s) by (nonlinear_arith)
            requires
                y >= 0,
                s >= 0,
        ;
    }
    if (a < 0) == (b < 0) {
        size
    } else {
        -size
    }
}

/// Rounding down a negative number is rounding its negation up.
proof fn lemma_floor_of_negative(x: int, b: int)
    requires
        x > 0,
        b > 0,
    ensures
        (-x) / b == -((x + b - 1) / b),
{
    let q = (x + b - 1) / b;
    let r = (x + b - 1) % b;
    lemma_fundamental_div_mod(x + b - 1, b);
    let rest = b - 1 - r;
    assert(-x == (-q) * b + rest) by (nonlinear_arith)
        requires
            x + b - 1 == b * q + r,
            rest == b - 1 - r,
    ;
    lemma_fundamental_div_mod_converse(-x, b, -q, rest);
}

/// The quotient rounded down.
fn floor(a: i128, b: i128) -> (q: i128)
    requires
        -0x1_0000_0000_0000_0000 < a < 0x1_0000_0000_0000_0000,
        -0x1_0000_0000_0000_0000 < b < 0x1_0000_0000_0000_0000,
        b != 0,
    ensures
        q == floored_div(a as int, b as int),
        -0x1_0000_0000_0000_0000 < q < 0x1_0000_0000_0000_0000,
        -0x2_0000_0000_0000_0000 < b * q < 0x2_0000_0000_0000_0000,
{
    let n: i128 = if b > 0 {
        a
    } else {
        -a
    };
    let d: i128 = if b > 0 {
        b
    } else {
        -b
    };
    let q: i128 = if n >= 0 {
        proof {
            lemma_div_bound(n as int, d as int);
        }
        (n as u128 / d as u128) as i128
    } else {
        let x: i128 = -n;
        proof {
            lemma_floor_of_negative(x as int, d as int);
            lemma_div_bound(x + d - 1, d as int);
            let up = (x + d - 1) / d as int;
            assert(up <= x) by (nonlinear_arith)
                requires
                    d >= 1,
                    x >= 1,
                    d * up <= x + d - 1,
            ;
        }
        -(((x + d - 1) as u128 / d as u128) as i128)
    };
    proof {
        let v = q as int;
        assert((-b) * v == -(b * v)) by (nonlinear_arith);
        assert(d * (-v) == -(d * v)) by (nonlinear_arith);
        assert(d * v >= 0 <==> v >= 0) by (nonlinear_arith)
            requires
                d > 0,
        ;
    }
    q
}

/// An operation on two constants.
fn fold_binary(op: BinaryOp, a: ConstValue, b: ConstValue, dtype: DType) -> (value: Option<
    ConstValue,
>)
    ensures
        value == binary_value(op, a, b, dtype),
{
    let (x, y): (i128, i128) = match (number(a), number(b)) {
        (Some(x), Some(y)) => (x, y),
        _ => {
            return None;
        },
    };
    match op {
        BinaryOp::Add => typed_value(x + y, dtype),
        BinaryOp::Sub => typed_value(x - y, dtype),
        BinaryOp::Mul => {
            if dtype == DType::Bool {
                assert(x * y != 0 <==> x != 0 && y != 0) by (nonlinear_arith);
                Some(ConstValue::Bool(x != 0 && y != 0))
            } else {
                word_value(product_word(x, y), dtype, Ghost(x * y))
            }
        },
        BinaryOp::CDiv => if y == 0 {
            None
        } else {
            typed_value(quotient(x, y), dtype)
        },
        BinaryOp::CMod => if y == 0 {
            None
        } else {
            let q: i128 = quotient(x, y);
            typed_value(x - y * q, dtype)
        },
        BinaryOp::FloorDiv => if y == 0 {
            None
        } else {
            typed_value(floor(x, y), dtype)
        },
        BinaryOp::FloorMod => if y == 0 {
            None
        } else {
            let q: i128 = floor(x, y);
            typed_value(x - y * q, dtype)
        },
        BinaryOp::Max => typed_value(
            if x < y {
                y
            } else {
                x
            },
            dtype,
        ),
        BinaryOp::And => {
            let w: u64 = to_word(x) & to_word(y);
            typed_value(w as i128, dtype)
        },
        BinaryOp::Or => {
            let w: u64 = to_word(x) | to_word(y);
            typed_value(w as i128, dtype)
        },
        BinaryOp::Xor => {
            let w: u64 = to_word(x) ^ to_word(y);
            typed_value(w as i128, dtype)
        },
        BinaryOp::Shl => if 0 <= y && y < 64 {
            let p: u64 = power_of_two(y as u32);
            if dtype == DType::Bool {
                assert(x * p != 0 <==> x != 0) by (nonlinear_arith)
                    requires
                        p > 0,
                ;
                Some(ConstValue::Bool(x != 0))
            } else {
                word_value(product_word(x, p as i128), dtype, Ghost(x * p))
            }
        } else {
            None
        },
        BinaryOp::Shr => if 0 <= y && y < 64 {
            let p: u64 = power_of_two(y as u32);
            typed_value(floor(x, p as i128), dtype)
        } else {
            None
        },
        BinaryOp::Lt => typed_value(
            if x < y {
                1
            } else {
                0
            },
            dtype,
        ),
        BinaryOp::Eq => typed_value(
            if x == y {
                1
            } else {
                0
            },
            dtype,
        ),
        BinaryOp::Ne => typed_value(
            if x != y {
                1
            } else {
                0
            },
            dtype,
        ),
        _ => None,
    }
}

/// A power of two that fits in a word.
fn power_of_two(n: u32) -> (p: u64)
    requires
        n < 64,
    ensures
        p == pow2(n as nat),
        p > 0,
{
    let mut p: u64 = 1;
    let mut at: u32 = 0;
    proof {
        vstd::arithmetic::power2::lemma2_to64();
    }
    while at < n
        invariant
            at <= n < 64,
            p == pow2(at as nat),
            p > 0,
        decreases n - at,
    {
        proof {
            vstd::arithmetic::power2::lemma_pow2_unfold((at + 1) as nat);
            vstd::arithmetic::power2::lemma2_to64_rest();
            if at + 1 < 63 {
                lemma_pow2_strictly_increases((at + 1) as nat, 63);
            }
        }
        p = p * 2;
        at += 1;
    }
    p
}

fn fold_negated(value: ConstValue, dtype: DType) -> (result: Option<ConstValue>)
    ensures
        result == match number_of(value) {
            Some(n) => typed(-n, dtype),
            None => None,
        },
{
    match number(value) {
        Some(n) => typed_value(-n, dtype),
        None => None,
    }
}

fn fold_cast(value: ConstValue, dtype: DType) -> (result: Option<ConstValue>)
    ensures
        result == match number_of(value) {
            Some(n) => cast_number(n, dtype),
            None => None,
        },
{
    let n: i128 = match number(value) {
        Some(n) => n,
        None => {
            return None;
        },
    };
    let limit: i128 = match dtype {
        DType::Float32 => 0x100_0000,
        DType::Float64 => 0x20_0000_0000_0000,
        _ => {
            return typed_value(n, dtype);
        },
    };
    if n <= -limit || n >= limit {
        return None;
    }
    let size: u64 = size_of(n) as u64;
    let bits: u64 = float_bits(size);
    proof {
        lemma_encoding_is_unique(
            bits,
            choose|b: u64| #[trigger] encodes(b, size as int),
            size as int,
        );
        crate::window::lemma_encoding_is_positive(bits, size as int);
    }
    Some(
        ConstValue::Float(
            if n < 0 {
                SIGN + bits
            } else {
                bits
            },
        ),
    )
}

fn fold_not(value: ConstValue, dtype: DType) -> (result: Option<ConstValue>)
    ensures
        result == match number_of(value) {
            Some(n) => inverted(n, dtype),
            None => None,
        },
{
    match number(value) {
        Some(n) => if dtype == DType::Bool {
            Some(ConstValue::Bool(n == 0))
        } else {
            typed_value(-n - 1, dtype)
        },
        None => None,
    }
}

fn fold_bits(value: ConstValue, from: DType, to: DType) -> (result: ConstValue)
    ensures
        result == bit_cast(value, from, to),
{
    match value {
        ConstValue::Float(bits) => match from {
            DType::Float32 => reinterpret_bits(find_single_pattern(bits), to),
            DType::Float64 => reinterpret_bits(bits, to),
            _ => value,
        },
        _ => match number(value) {
            Some(n) => {
                let w: u64 = to_word(n);
                proof {
                    lemma_word_is_enough(n as int, w as int, to);
                }
                reinterpret_bits(w, to)
            },
            None => value,
        },
    }
}

/// The value of one node from those of the nodes before it.
fn fold_node(
    graph: &Graph,
    id: usize,
    memo: &HashMap<usize, ConstValue>,
    values: &Vec<Option<ConstValue>>,
) -> (value: Option<ConstValue>)
    requires
        graph.wf(),
        id < graph@.len(),
        id <= values@.len(),
        forall|i: usize| i < id ==> #[trigger] values@[i as int] == value_of(graph@, memo@, i),
    ensures
        value == value_of(graph@, memo@, id),
{
    match memo.get(&id) {
        Some(value) => {
            return Some(*value);
        },
        None => {},
    }
    let ghost dag = graph@;
    let dtype = graph.dtype(id);
    assert(arity_ok(dag[id as int].op, dag[id as int].srcs.len()));
    match graph.op(id) {
        Op::Const(value) => Some(value),
        Op::Cast => match values[graph.source(id, 0)] {
            Some(value) => fold_cast(value, dtype),
            None => None,
        },
        Op::BitCast => match values[graph.source(id, 0)] {
            Some(value) => Some(fold_bits(value, graph.dtype(graph.source(id, 0)), dtype)),
            None => None,
        },
        Op::Unary(UnaryOp::Neg) => match values[graph.source(id, 0)] {
            Some(value) => fold_negated(value, dtype),
            None => None,
        },
        Op::Unary(UnaryOp::Not) => match values[graph.source(id, 0)] {
            Some(value) => fold_not(value, dtype),
            None => None,
        },
        Op::Binary(op) => match (values[graph.source(id, 0)], values[graph.source(id, 1)]) {
            (Some(a), Some(b)) => fold_binary(op, a, b, dtype),
            _ => None,
        },
        Op::Ternary(TernaryOp::Where) => match (
            values[graph.source(id, 0)],
            values[graph.source(id, 1)],
            values[graph.source(id, 2)],
        ) {
            (Some(ConstValue::Bool(c)), Some(a), Some(b)) => Some(
                if c {
                    a
                } else {
                    b
                },
            ),
            _ => None,
        },
        Op::Ternary(TernaryOp::MulAcc) => {
            if dtype == DType::Bool {
                return None;
            }
            match (
                values[graph.source(id, 0)],
                values[graph.source(id, 1)],
                values[graph.source(id, 2)],
            ) {
                (Some(a), Some(b), Some(c)) => match (number(a), number(b), number(c)) {
                    (Some(x), Some(y), Some(z)) => {
                        let product: u64 = product_word(x, y);
                        let w: u64 = to_word(product as i128 + z);
                        proof {
                            lemma_add_mod_noop(x * y, z as int, word_count());
                            lemma_add_mod_noop(product as int, z as int, word_count());
                        }
                        word_value(w, dtype, Ghost(x * y + z))
                    },
                    _ => None,
                },
                _ => None,
            }
        },
        _ => None,
    }
}

/// The values of all nodes up to one.
fn fold_rows(graph: &Graph, id: usize, memo: &HashMap<usize, ConstValue>) -> (values: Vec<
    Option<ConstValue>,
>)
    requires
        graph.wf(),
        id < graph@.len(),
    ensures
        values@.len() == id + 1,
        forall|i: usize| i <= id ==> #[trigger] values@[i as int] == value_of(graph@, memo@, i),
{
    let mut values: Vec<Option<ConstValue>> = Vec::new();
    let mut at: usize = 0;
    while at < id
        invariant
            graph.wf(),
            at <= id < graph@.len(),
            values@.len() == at,
            forall|i: usize| i < at ==> #[trigger] values@[i as int] == value_of(graph@, memo@, i),
        decreases id - at,
    {
        let value = fold_node(graph, at, memo, &values);
        values.push(value);
        at += 1;
    }
    let value = fold_node(graph, id, memo, &values);
    values.push(value);
    values
}

/// Where a node is folded, every node that has to be folded for it is.
proof fn lemma_folds_all(dag: Seq<NodeView>, known: Known, id: usize, x: usize)
    requires
        dag_wf(dag),
        id < dag.len(),
        has_to_fold(dag, known, id, x),
        value_of(dag, known, id) is Some,
    ensures
        value_of(dag, known, x) is Some,
        reaches(dag, id, x),
        x <= id,
    decreases id,
{
    if id != x {
        let k = choose|k: int|
            #![trigger dag[id as int].srcs[k]]
            0 <= k < dag[id as int].srcs.len() && dag[id as int].srcs[k] < id && has_to_fold(
                dag,
                known,
                dag[id as int].srcs[k],
                x,
            );
        let node = dag[id as int];
        assert(arity_ok(node.op, node.srcs.len()));
        assert(k == 0 || k == 1 || k == 2);
        let src = node.srcs[k];
        assert(dag[id as int].srcs[0] < id);
        if node.srcs.len() > 1 {
            assert(dag[id as int].srcs[1] < id);
        }
        if node.srcs.len() > 2 {
            assert(dag[id as int].srcs[2] < id);
        }
        assert(value_of(dag, known, src) is Some);
        lemma_folds_all(dag, known, src, x);
    }
}

/// What a node that has to be folded reads has to be folded, unless it is known.
proof fn lemma_folds_sources(dag: Seq<NodeView>, known: Known, id: usize, x: usize, k: int)
    requires
        dag_wf(dag),
        id < dag.len(),
        has_to_fold(dag, known, id, x),
        x < dag.len(),
        reads_sources(dag[x as int].op),
        0 <= k < dag[x as int].srcs.len(),
        !known.contains_key(dag[x as int].srcs[k]),
    ensures
        has_to_fold(dag, known, id, dag[x as int].srcs[k]),
    decreases id,
{
    let src = dag[x as int].srcs[k];
    assert(dag[x as int].srcs[k] < x);
    if id == x {
        assert(has_to_fold(dag, known, src, src));
    } else {
        let j = choose|j: int|
            #![trigger dag[id as int].srcs[j]]
            0 <= j < dag[id as int].srcs.len() && dag[id as int].srcs[j] < id && has_to_fold(
                dag,
                known,
                dag[id as int].srcs[j],
                x,
            );
        lemma_folds_sources(dag, known, dag[id as int].srcs[j], x, k);
    }
}

/// Whether marks are closed from a node on: what a marked node reads is marked
/// or known.
spec fn marks_closed(dag: Seq<NodeView>, known: Known, marks: Seq<bool>, from: int) -> bool {
    forall|p: int, k: int|
        #![trigger dag[p].srcs[k]]
        from <= p < marks.len() && marks[p] && reads_sources(dag[p].op) && 0 <= k
            < dag[p].srcs.len() ==> known.contains_key(dag[p].srcs[k])
            || marks[dag[p].srcs[k] as int]
}

proof fn lemma_marks_hold(dag: Seq<NodeView>, known: Known, marks: Seq<bool>, id: usize, x: usize)
    requires
        dag_wf(dag),
        marks.len() <= dag.len(),
        id < marks.len(),
        marks_closed(dag, known, marks, 0),
        marks[id as int],
        has_to_fold(dag, known, id, x),
    ensures
        x < marks.len() && marks[x as int],
    decreases id,
{
    if id != x {
        let k = choose|k: int|
            #![trigger dag[id as int].srcs[k]]
            0 <= k < dag[id as int].srcs.len() && dag[id as int].srcs[k] < id && has_to_fold(
                dag,
                known,
                dag[id as int].srcs[k],
                x,
            );
        lemma_marks_hold(dag, known, marks, dag[id as int].srcs[k], x);
    }
}

/// Marks the nodes that have to be folded.
fn mark_folds(graph: &Graph, id: usize, memo: &HashMap<usize, ConstValue>) -> (marks: Vec<bool>)
    requires
        graph.wf(),
        id < graph@.len(),
        !memo@.contains_key(id),
    ensures
        marks@.len() == id + 1,
        forall|x: usize|
            x <= id ==> #[trigger] marks@[x as int] == has_to_fold(graph@, memo@, id, x),
{
    let ghost dag = graph@;
    let ghost known = memo@;
    let mut marks: Vec<bool> = Vec::new();
    let mut n: usize = 0;
    while n < id
        invariant
            n <= id,
            marks@.len() == n,
            forall|x: int| 0 <= x < n ==> !(#[trigger] marks@[x]),
        decreases id - n,
    {
        marks.push(false);
        n += 1;
    }
    marks.push(true);
    let mut at: usize = id + 1;
    assert(has_to_fold(dag, known, id, id));
    while at > 0
        invariant
            graph.wf(),
            dag == graph@,
            known == memo@,
            id < dag.len(),
            at <= id + 1,
            marks@.len() == id + 1,
            marks@[id as int],
            marks_closed(dag, known, marks@, at as int),
            forall|x: usize|
                x <= id && #[trigger] marks@[x as int] ==> has_to_fold(dag, known, id, x),
        decreases at,
    {
        at -= 1;
        let reads: bool = match graph.op(at) {
            Op::Cast | Op::BitCast | Op::Unary(_) | Op::Binary(_) | Op::Ternary(_) => true,
            _ => false,
        };
        if marks[at] && reads {
            let count: usize = graph.source_count(at);
            let mut k: usize = 0;
            while k < count
                invariant
                    graph.wf(),
                    dag == graph@,
                    known == memo@,
                    at <= id < dag.len(),
                    marks@.len() == id + 1,
                    marks@[id as int],
                    marks@[at as int],
                    reads_sources(dag[at as int].op),
                    count == dag[at as int].srcs.len(),
                    k <= count,
                    marks_closed(dag, known, marks@, at + 1),
                    forall|x: usize|
                        x <= id && #[trigger] marks@[x as int] ==> has_to_fold(dag, known, id, x),
                    forall|j: int|
                        0 <= j < k ==> known.contains_key(#[trigger] dag[at as int].srcs[j])
                            || marks@[dag[at as int].srcs[j] as int],
                decreases count - k,
            {
                let src: usize = graph.source(at, k);
                assert(dag[at as int].srcs[k as int] < at);
                if !memo.contains_key(&src) {
                    let ghost before = marks@;
                    marks.set(src, true);
                    proof {
                        lemma_folds_sources(dag, known, id, at, k as int);
                        assert forall|p: int, j: int|
                            #![trigger dag[p].srcs[j]]
                            at + 1 <= p < marks@.len() && marks@[p] && reads_sources(dag[p].op) && 0
                                <= j < dag[p].srcs.len() implies known.contains_key(dag[p].srcs[j])
                            || marks@[dag[p].srcs[j] as int] by {
                            assert(before[p]);
                            assert(dag[p].srcs[j] < p);
                        }
                    }
                }
                k += 1;
            }
        }
        assert(marks_closed(dag, known, marks@, at as int)) by {
            assert forall|p: int, j: int|
                #![trigger dag[p].srcs[j]]
                at <= p < marks@.len() && marks@[p] && reads_sources(dag[p].op) && 0 <= j
                    < dag[p].srcs.len() implies known.contains_key(dag[p].srcs[j])
                || marks@[dag[p].srcs[j] as int] by {}
        }
    }
    assert forall|x: usize| x <= id implies #[trigger] marks@[x as int] == has_to_fold(
        dag,
        known,
        id,
        x,
    ) by {
        if has_to_fold(dag, known, id, x) {
            lemma_marks_hold(dag, known, marks@, id, x);
        }
    }
    marks
}

/// Folds a node to its value, where it is made of constants. A value that is
/// known is taken as it is; the values of the nodes that have to be folded
/// become known. Each node is folded once, however often it is used.
pub fn fold(graph: &Graph, id: usize, memo: &mut HashMap<usize, ConstValue>) -> (value: Option<
    ConstValue,
>)
    requires
        graph.wf(),
        id < graph@.len(),
    ensures
        value == value_of(graph@, old(memo)@, id),
        value is Some ==> learns(graph@, old(memo)@, final(memo)@, id),
        value is None ==> final(memo)@ == old(memo)@,
{
    match memo.get(&id) {
        Some(value) => {
            return Some(*value);
        },
        None => {},
    }
    let ghost dag = graph@;
    let ghost known = memo@;
    let values = fold_rows(graph, id, memo);
    let value = values[id];
    if value.is_none() {
        return None;
    }
    let marks = mark_folds(graph, id, memo);
    let mut at: usize = 0;
    while at <= id
        invariant
            dag == graph@,
            dag_wf(dag),
            id < dag.len(),
            at <= id + 1,
            value_of(dag, known, id) is Some,
            values@.len() == id + 1,
            marks@.len() == id + 1,
            forall|i: usize| i <= id ==> #[trigger] values@[i as int] == value_of(dag, known, i),
            forall|x: usize|
                x <= id ==> #[trigger] marks@[x as int] == has_to_fold(dag, known, id, x),
            forall|x: usize| #[trigger]
                memo@.contains_key(x) <==> known.contains_key(x) || (x < at && has_to_fold(
                    dag,
                    known,
                    id,
                    x,
                )),
            forall|x: usize| #[trigger]
                memo@.contains_key(x) ==> Some(memo@[x]) == value_of(dag, known, x),
        decreases id + 1 - at,
    {
        if marks[at] {
            proof {
                lemma_folds_all(dag, known, id, at);
            }
            match values[at] {
                Some(one) => {
                    memo.insert(at, one);
                },
                None => {},
            }
        }
        at += 1;
    }
    proof {
        assert forall|x: usize| has_to_fold(dag, known, id, x) implies x <= id by {
            lemma_folds_all(dag, known, id, x);
        }
    }
    value
}

/// Folds a node of which nothing is known.
pub fn fold_alone(graph: &Graph, id: usize) -> (value: Option<ConstValue>)
    requires
        graph.wf(),
        id < graph@.len(),
    ensures
        value == value_of(graph@, Map::empty(), id),
{
    let memo: HashMap<usize, ConstValue> = HashMap::new();
    let values = fold_rows(graph, id, &memo);
    assert(memo@ =~= Map::<usize, ConstValue>::empty());
    values[id]
}

/// Folding a node again gives the same value and adds nothing to what is known;
/// the first time what was known stays as it was, and only nodes at and below
/// the node become known.
pub proof fn lemma_fold_remembers(dag: Seq<NodeView>, before: Known, after: Known, id: usize)
    requires
        dag_wf(dag),
        id < dag.len(),
        value_of(dag, before, id) is Some,
        learns(dag, before, after, id),
    ensures
        value_of(dag, after, id) == value_of(dag, before, id),
        forall|later: Known| #[trigger] learns(dag, after, later, id) ==> later == after,
        forall|x: usize| #[trigger]
            before.contains_key(x) ==> after.contains_key(x) && after[x] == before[x],
        forall|x: usize| #[trigger]
            after.contains_key(x) && !before.contains_key(x) ==> reaches(dag, id, x),
{
    assert(after.contains_key(id)) by {
        assert(before.contains_key(id) || has_to_fold(dag, before, id, id));
    }
    assert(value_of(dag, after, id) == Some(after[id]));
    assert forall|later: Known| #[trigger] learns(dag, after, later, id) implies later
        == after by {
        assert forall|x: usize| later.contains_key(x) == after.contains_key(x) by {}
        assert forall|x: usize| #[trigger] after.contains_key(x) implies later[x] == after[x] by {
            assert(later.contains_key(x));
        }
        assert(later =~= after);
    }
    assert forall|x: usize| #[trigger] before.contains_key(x) implies after.contains_key(x)
        && after[x] == before[x] by {
        assert(after.contains_key(x));
        assert(value_of(dag, before, x) == Some(before[x]));
    }
    assert forall|x: usize| #[trigger]
        after.contains_key(x) && !before.contains_key(x) implies reaches(dag, id, x) by {
        lemma_folds_all(dag, before, id, x);
    }
}

/// A known value is the answer, whatever the node is, and nothing is added.
pub proof fn lemma_known_is_answered(dag: Seq<NodeView>, known: Known, after: Known, id: usize)
    requires
        known.contains_key(id),
    ensures
        value_of(dag, known, id) == Some(known[id]),
        learns(dag, known, after, id) ==> after == known,
{
    if learns(dag, known, after, id) {
        assert forall|x: usize| #[trigger] known.contains_key(x) implies after[x] == known[x] by {
            assert(after.contains_key(x));
            assert(value_of(dag, known, x) == Some(known[x]));
        }
        assert forall|x: usize| after.contains_key(x) == known.contains_key(x) by {}
        assert(after =~= known);
    }
}

} // verus!
