//! Sums over a loop whose value is guarded by bounds on the loop counter.

use vstd::arithmetic::power2::{lemma_pow2_pos, lemma_pow2_unfold, pow2};
use vstd::prelude::*;

use crate::bounds::{greatest, least};
use crate::builders::{const_node, lemma_interned_keeps, put, Built};
use crate::fold::{binary_number, word, word_count};
use crate::graph::{dag_wf, BinaryOp, ConstValue, Graph, NodeView, Op, ReduceOp, TernaryOp, UnaryOp};
use crate::late::{int_at, int_of, made};
use crate::meaning::{lemma_arity, lemma_meaning, meaning};
use crate::reduce::{range_size, range_size_as_i64, step_at, tallied};

verus! {

/// The steps from `low` up to `high` that a condition on a loop counter leaves:
/// of a comparison with a constant, of the negation of one, and of conditions
/// that have to hold together.
pub open spec fn window(dag: Seq<NodeView>, id: usize, range: usize) -> Option<(int, int)>
    decreases id,
{
    let node = dag[id as int];
    match node.op {
        Op::Binary(BinaryOp::Lt) => if node.srcs[0] == range {
            match int_of(dag, node.srcs[1]) {
                Some(c) => Some((i64::MIN as int, c as int)),
                None => None,
            }
        } else if node.srcs[1] == range {
            match int_of(dag, node.srcs[0]) {
                Some(c) => if c < i64::MAX {
                    Some((c + 1, i64::MAX as int))
                } else {
                    None
                },
                None => None,
            }
        } else {
            None
        },
        Op::Unary(UnaryOp::Not) => {
            let less = dag[node.srcs[0] as int];
            if less.op == Op::Binary(BinaryOp::Lt) && less.srcs[0] == range {
                match int_of(dag, less.srcs[1]) {
                    Some(c) => Some((c as int, i64::MAX as int)),
                    None => None,
                }
            } else {
                None
            }
        },
        Op::Binary(BinaryOp::And) => if node.srcs[0] < id && node.srcs[1] < id {
            match (window(dag, node.srcs[0], range), window(dag, node.srcs[1], range)) {
                (Some(a), Some(b)) => Some((greatest(a.0, b.0), least(a.1, b.1))),
                _ => None,
            }
        } else {
            None
        },
        _ => None,
    }
}

/// The number of steps below `end` that a window leaves.
pub open spec fn width_of(end: int, low: int, high: int) -> int {
    greatest(0, least(end, high) - greatest(0, low))
}

/// The number of the first `n` steps that lie in a window.
pub open spec fn steps_in(n: nat, low: int, high: int) -> nat
    decreases n,
{
    if n == 0 {
        0
    } else {
        steps_in((n - 1) as nat, low, high) + (if low <= n - 1 < high {
            1nat
        } else {
            0nat
        })
    }
}

/// A window leaves as many steps as lie in it.
pub proof fn lemma_width_counts_steps(end: nat, low: int, high: int)
    ensures
        width_of(end as int, low, high) == steps_in(end, low, high),
    decreases end,
{
    if end > 0 {
        lemma_width_counts_steps((end - 1) as nat, low, high);
    }
}

/// The number of steps of a loop that a window leaves.
pub fn window_width(end: i64, low: i64, high: i64) -> (width: i64)
    requires
        end >= 0,
    ensures
        width == width_of(end as int, low as int, high as int),
        width == steps_in(end as nat, low as int, high as int),
{
    proof {
        lemma_width_counts_steps(end as nat, low as int, high as int);
    }
    let top: i64 = if end < high {
        end
    } else {
        high
    };
    let bottom: i64 = if low > 0 {
        low
    } else {
        0
    };
    if top > bottom {
        top - bottom
    } else {
        0
    }
}

/// The number of steps of a loop below a cut.
pub fn counted_extent(extent: i64, cut: i64) -> (count: i64)
    requires
        extent >= 0,
    ensures
        count == steps_in(extent as nat, 0, cut as int),
{
    window_width(extent, 0, cut)
}

/// Whether bits encode a whole number as a float: the exponent is that of the
/// greatest power of two below it, and the fraction is what remains.
pub open spec fn encodes(bits: u64, n: int) -> bool {
    if n == 0 {
        bits == 0
    } else {
        exists|e: nat| #[trigger] encodes_at(bits, n, e)
    }
}

/// The encoding of a number whose greatest power of two is `e`.
pub open spec fn encodes_at(bits: u64, n: int, e: nat) -> bool {
    &&& e <= 52
    &&& pow2(e) <= n < pow2(e + 1)
    &&& bits == (1023 + e) * 0x10_0000_0000_0000 + (n - pow2(e)) * pow2((52 - e) as nat)
}

/// The bits of a whole number below two to the 53rd as a float.
pub fn float_bits(n: u64) -> (bits: u64)
    requires
        n < 0x20_0000_0000_0000,
    ensures
        encodes(bits, n as int),
{
    if n == 0 {
        return 0;
    }
    let mut e: u64 = 0;
    let mut power: u64 = 1;
    let mut unit: u64 = 0x10_0000_0000_0000;
    proof {
        vstd::arithmetic::power2::lemma2_to64();
        vstd::arithmetic::power2::lemma2_to64_rest();
    }
    while e < 52 && power * 2 <= n
        invariant
            e <= 52,
            1 <= power <= n < 0x20_0000_0000_0000,
            power == pow2(e as nat),
            unit == pow2((52 - e) as nat),
            1 <= unit <= 0x10_0000_0000_0000,
            power * unit == 0x10_0000_0000_0000,
        decreases 52 - e,
    {
        proof {
            lemma_pow2_unfold((e + 1) as nat);
            lemma_pow2_unfold((52 - e) as nat);
            lemma_pow2_pos((51 - e) as nat);
            let half = pow2((51 - e) as nat) as int;
            assert(unit == 2 * half);
            assert((power * 2) * half == power * (2 * half)) by (nonlinear_arith);
            assert(unit / 2 == half);
        }
        e = e + 1;
        power = power * 2;
        unit = unit / 2;
    }
    proof {
        lemma_pow2_unfold((e + 1) as nat);
        if e == 52 {
            vstd::arithmetic::power2::lemma2_to64_rest();
        }
        assert(pow2((e + 1) as nat) == 2 * power);
        let rest = n - power;
        let u = unit as int;
        let p = power as int;
        assert(rest * u < p * u) by (nonlinear_arith)
            requires
                rest < p,
                u >= 1,
        ;
        assert(0 <= rest * u) by (nonlinear_arith)
            requires
                rest >= 0,
                u >= 1,
        ;
    }
    let bits: u64 = (1023 + e) * 0x10_0000_0000_0000 + (n - power) * unit;
    assert(encodes_at(bits, n as int, e as nat));
    bits
}

/// The whole number that a float encodes, if it is one below two to the 53rd.
pub open spec fn whole_number(bits: u64) -> Option<int> {
    if exists|n: int| 0 <= n && #[trigger] encodes(bits, n) {
        Some(choose|n: int| 0 <= n && #[trigger] encodes(bits, n))
    } else {
        None
    }
}

/// The constant that a constant value is, as often as `width` says: a whole
/// number times the width, whether it is held as such or as a float.
pub open spec fn weighed(value: ConstValue, width: int) -> Option<ConstValue> {
    match value {
        ConstValue::Int(n) => if i64::MIN <= n * width <= i64::MAX {
            Some(ConstValue::Int((n * width) as i64))
        } else {
            None
        },
        ConstValue::Float(bits) => match whole_number(bits) {
            Some(n) => if n * width < 0x20_0000_0000_0000 {
                Some(ConstValue::Float(choose|b: u64| #[trigger] encodes(b, n * width)))
            } else {
                None
            },
            None => None,
        },
        _ => None,
    }
}

/// Whether a constant is what is added outside of the window: zero.
pub open spec fn is_zero_const(value: ConstValue) -> bool {
    value == ConstValue::Int(0) || value == ConstValue::Float(0)
}

/// The sum over a loop of a constant value, taken where a condition holds that
/// has a window, and of zero elsewhere.
pub open spec fn gated_total(
    dag: Seq<NodeView>,
    condition: usize,
    value: usize,
    other: usize,
    range: usize,
) -> Option<ConstValue> {
    match (
        window(dag, condition, range),
        dag[value as int].op,
        dag[other as int].op,
        range_size(dag, range),
    ) {
        (Some(w), Op::Const(value), Op::Const(other), Some(end)) => if is_zero_const(other) && end
            >= 0 {
            weighed(value, width_of(end as int, w.0, w.1))
        } else {
            None
        },
        _ => None,
    }
}

/// The sum over a loop of a constant that is guarded by bounds on the loop
/// counter is the constant as often as steps lie within the bounds.
pub open spec fn gated_sum(dag: Seq<NodeView>, body: usize, range: usize) -> Option<Built> {
    let node = dag[body as int];
    if node.op == Op::Ternary(TernaryOp::Where) {
        match gated_total(dag, node.srcs[0], node.srcs[1], node.srcs[2], range) {
            Some(total) => Some(put(dag, const_node(total, node.dtype))),
            None => None,
        }
    } else {
        None
    }
}

/// The window of a condition; see `window`.
pub fn find_window(graph: &Graph, id: usize, range: usize) -> (found: Option<(i64, i64)>)
    requires
        graph.wf(),
        id < graph@.len(),
    ensures
        match found {
            Some(w) => window(graph@, id, range) == Some((w.0 as int, w.1 as int)),
            None => window(graph@, id, range) is None,
        },
    decreases id,
{
    proof {
        lemma_arity(graph@, id);
    }
    match graph.op(id) {
        Op::Binary(BinaryOp::Lt) => {
            let a: usize = graph.source(id, 0);
            let b: usize = graph.source(id, 1);
            if a == range {
                match int_at(graph, b) {
                    Some(c) => Some((i64::MIN, c)),
                    None => None,
                }
            } else if b == range {
                match int_at(graph, a) {
                    Some(c) => {
                        if c < i64::MAX {
                            Some((c + 1, i64::MAX))
                        } else {
                            None
                        }
                    },
                    None => None,
                }
            } else {
                None
            }
        },
        Op::Unary(UnaryOp::Not) => {
            let less: usize = graph.source(id, 0);
            proof {
                lemma_arity(graph@, less);
            }
            match graph.op(less) {
                Op::Binary(BinaryOp::Lt) => {
                    if graph.source(less, 0) == range {
                        match int_at(graph, graph.source(less, 1)) {
                            Some(c) => Some((c, i64::MAX)),
                            None => None,
                        }
                    } else {
                        None
                    }
                },
                _ => None,
            }
        },
        Op::Binary(BinaryOp::And) => {
            let a: usize = graph.source(id, 0);
            let b: usize = graph.source(id, 1);
            match (find_window(graph, a, range), find_window(graph, b, range)) {
                (Some(x), Some(y)) => Some(
                    (
                        if x.0 < y.0 {
                            y.0
                        } else {
                            x.0
                        },
                        if x.1 < y.1 {
                            x.1
                        } else {
                            y.1
                        },
                    ),
                ),
                _ => None,
            }
        },
        _ => None,
    }
}

/// The encoding of a whole number is not negative.
pub(crate) proof fn lemma_encoding_is_positive(bits: u64, n: int)
    requires
        n >= 0,
        encodes(bits, n),
    ensures
        bits < 0x8000_0000_0000_0000,
{
    if n != 0 {
        let e = choose|e: nat| #[trigger] encodes_at(bits, n, e);
        lemma_fields(bits, n, e);
    }
}

pub(crate) proof fn lemma_encoding_is_unique(a: u64, b: u64, n: int)
    requires
        n >= 0,
        encodes(a, n),
        encodes(b, n),
    ensures
        a == b,
{
    if n != 0 {
        let d = choose|e: nat| #[trigger] encodes_at(a, n, e);
        let e = choose|e: nat| #[trigger] encodes_at(b, n, e);
        if d < e {
            if d + 1 < e {
                vstd::arithmetic::power2::lemma_pow2_strictly_increases(d + 1, e);
            }
        } else if e < d {
            if e + 1 < d {
                vstd::arithmetic::power2::lemma_pow2_strictly_increases(e + 1, d);
            }
        }
    }
}

proof fn lemma_fields(bits: u64, n: int, e: nat)
    requires
        encodes_at(bits, n, e),
    ensures
        bits / 0x10_0000_0000_0000 == 1023 + e,
        bits % 0x10_0000_0000_0000 == (n - pow2(e)) * pow2((52 - e) as nat),
        n > 0,
        bits > 0,
{
    let unit = pow2((52 - e) as nat) as int;
    let power = pow2(e) as int;
    let rest = n - power;
    lemma_pow2_pos(e);
    lemma_pow2_pos((52 - e) as nat);
    lemma_pow2_unfold(e + 1);
    vstd::arithmetic::power2::lemma_pow2_adds(e, (52 - e) as nat);
    vstd::arithmetic::power2::lemma2_to64_rest();
    assert(power * unit == 0x10_0000_0000_0000);
    assert(rest * unit < power * unit) by (nonlinear_arith)
        requires
            rest < power,
            unit >= 1,
    ;
    assert(0 <= rest * unit) by (nonlinear_arith)
        requires
            rest >= 0,
            unit >= 1,
    ;
}

proof fn lemma_number_is_unique(bits: u64, a: int, b: int)
    requires
        0 <= a,
        0 <= b,
        encodes(bits, a),
        encodes(bits, b),
    ensures
        a == b,
{
    if a != 0 {
        let d = choose|e: nat| #[trigger] encodes_at(bits, a, e);
        lemma_fields(bits, a, d);
    }
    if b != 0 {
        let e = choose|e: nat| #[trigger] encodes_at(bits, b, e);
        lemma_fields(bits, b, e);
    }
    if a != 0 && b != 0 {
        let d = choose|e: nat| #[trigger] encodes_at(bits, a, e);
        let e = choose|e: nat| #[trigger] encodes_at(bits, b, e);
        assert(d == e);
        let unit = pow2((52 - e) as nat) as int;
        lemma_pow2_pos((52 - e) as nat);
        let x = a - pow2(e);
        let y = b - pow2(e);
        assert(x == y) by (nonlinear_arith)
            requires
                x * unit == y * unit,
                unit >= 1,
        ;
    }
}

/// The whole number that a float encodes; see `whole_number`.
pub fn find_whole_number(bits: u64) -> (found: Option<u64>)
    ensures
        match found {
            Some(n) => whole_number(bits) == Some(n as int) && n < 0x20_0000_0000_0000,
            None => whole_number(bits) is None,
        },
{
    if bits == 0 {
        proof {
            assert(encodes(bits, 0));
            lemma_number_is_unique(bits, 0, whole_number(bits)->0);
        }
        return Some(0);
    }
    let top: u64 = bits / 0x10_0000_0000_0000;
    let fraction: u64 = bits % 0x10_0000_0000_0000;
    proof {
        assert forall|n: int| 0 <= n && #[trigger] encodes(bits, n) implies 1023 <= top
            <= 1075 by {
            let e = choose|e: nat| #[trigger] encodes_at(bits, n, e);
            lemma_fields(bits, n, e);
        }
    }
    if top < 1023 || top > 1075 {
        return None;
    }
    let e: u64 = top - 1023;
    let mut power: u64 = 1;
    let mut unit: u64 = 0x10_0000_0000_0000;
    let mut k: u64 = 0;
    proof {
        vstd::arithmetic::power2::lemma2_to64();
        vstd::arithmetic::power2::lemma2_to64_rest();
    }
    while k < e
        invariant
            k <= e <= 52,
            power == pow2(k as nat),
            unit == pow2((52 - k) as nat),
            1 <= unit <= 0x10_0000_0000_0000,
            1 <= power,
            power * unit == 0x10_0000_0000_0000,
        decreases e - k,
    {
        proof {
            lemma_pow2_unfold((k + 1) as nat);
            lemma_pow2_unfold((52 - k) as nat);
            lemma_pow2_pos((51 - k) as nat);
            let half = pow2((51 - k) as nat) as int;
            let p = power as int;
            assert((p * 2) * half == p * (2 * half)) by (nonlinear_arith);
            assert(p * 2 <= p * (2 * half)) by (nonlinear_arith)
                requires
                    p >= 1,
                    half >= 1,
            ;
        }
        power = power * 2;
        unit = unit / 2;
        k = k + 1;
    }
    let ghost p = power as int;
    let ghost u = unit as int;
    let ghost f = fraction as int;
    if fraction % unit != 0 {
        proof {
            assert forall|n: int| 0 <= n implies !(#[trigger] encodes(bits, n)) by {
                if encodes(bits, n) {
                    let d = choose|d: nat| #[trigger] encodes_at(bits, n, d);
                    lemma_fields(bits, n, d);
                    assert(d == e);
                    vstd::arithmetic::div_mod::lemma_mod_multiples_basic(n - pow2(d), u);
                }
            }
        }
        return None;
    }
    let rest: u64 = fraction / unit;
    proof {
        let r = rest as int;
        vstd::arithmetic::div_mod::lemma_fundamental_div_mod(f, u);
        assert(r * u == f) by (nonlinear_arith)
            requires
                f == u * r,
        ;
        assert(r < p) by (nonlinear_arith)
            requires
                r * u < p * u,
                u >= 1,
        ;
        assert(p <= p * u) by (nonlinear_arith)
            requires
                p >= 1,
                u >= 1,
        ;
        lemma_pow2_unfold((e + 1) as nat);
        vstd::arithmetic::div_mod::lemma_fundamental_div_mod(bits as int, 0x10_0000_0000_0000);
        assert(encodes_at(bits, p + r, e as nat));
        assert(encodes(bits, p + r));
        lemma_number_is_unique(bits, p + r, whole_number(bits)->0);
    }
    Some(power + rest)
}

fn weigh(value: ConstValue, width: i64) -> (total: Option<ConstValue>)
    requires
        width >= 0,
    ensures
        total == weighed(value, width as int),
{
    match value {
        ConstValue::Int(n) => {
            match n.checked_mul(width) {
                Some(total) => Some(ConstValue::Int(total)),
                None => None,
            }
        },
        ConstValue::Float(bits) => {
            let n: u64 = match find_whole_number(bits) {
                Some(n) => n,
                None => {
                    return None;
                },
            };
            let total: u64 = match n.checked_mul(width as u64) {
                Some(total) => total,
                None => {
                    return None;
                },
            };
            if total < 0x20_0000_0000_0000 {
                let encoded: u64 = float_bits(total);
                proof {
                    lemma_encoding_is_unique(
                        encoded,
                        choose|b: u64| #[trigger] encodes(b, total as int),
                        total as int,
                    );
                }
                Some(ConstValue::Float(encoded))
            } else {
                None
            }
        },
        _ => None,
    }
}

/// The sum of a guarded constant over a loop; see `gated_total`.
pub fn find_gated_total(
    graph: &Graph,
    condition: usize,
    value: usize,
    other: usize,
    range: usize,
) -> (total: Option<ConstValue>)
    requires
        graph.wf(),
        condition < graph@.len(),
        value < graph@.len(),
        other < graph@.len(),
        range < graph@.len(),
    ensures
        total == gated_total(graph@, condition, value, other, range),
{
    let w: (i64, i64) = match find_window(graph, condition, range) {
        Some(w) => w,
        None => {
            return None;
        },
    };
    let value: ConstValue = match graph.op(value) {
        Op::Const(value) => value,
        _ => {
            return None;
        },
    };
    let none: bool = match graph.op(other) {
        Op::Const(ConstValue::Int(n)) => n == 0,
        Op::Const(ConstValue::Float(bits)) => bits == 0,
        _ => false,
    };
    let end: i64 = match range_size_as_i64(graph, range) {
        Some(end) => end,
        None => {
            return None;
        },
    };
    if !none || end < 0 {
        return None;
    }
    let width: i64 = window_width(end, w.0, w.1);
    weigh(value, width)
}

/// Folds the sum over a loop of a constant that is guarded by bounds on the
/// loop counter; see `gated_sum`.
pub fn collapse_window(graph: &mut Graph, body: usize, range: usize) -> (new: Option<usize>)
    requires
        old(graph).wf(),
        body < old(graph)@.len(),
        range < old(graph)@.len(),
    ensures
        made(old(graph)@, *final(graph), gated_sum(old(graph)@, body, range), new),
{
    let ghost dag = graph@;
    proof {
        lemma_arity(dag, body);
    }
    match graph.op(body) {
        Op::Ternary(TernaryOp::Where) => {},
        _ => {
            return None;
        },
    }
    let dtype = graph.dtype(body);
    let condition: usize = graph.source(body, 0);
    let value: usize = graph.source(body, 1);
    let other: usize = graph.source(body, 2);
    match find_gated_total(graph, condition, value, other, range) {
        Some(total) => {
            let new: usize = graph.constant(total, dtype);
            proof {
                lemma_interned_keeps(dag, const_node(total, dtype));
            }
            Some(new)
        },
        None => None,
    }
}

/// Two conditions hold together where each of them does.
pub proof fn lemma_both_hold()
    ensures
        forall|a: int, b: int|
            0 <= a <= 1 && 0 <= b <= 1 ==> #[trigger] binary_number(BinaryOp::And, a, b) == Some(
                if a == 1 {
                    b
                } else {
                    0
                },
            ),
{
    vstd::arithmetic::div_mod::lemma_small_mod(0, word_count() as nat);
    vstd::arithmetic::div_mod::lemma_small_mod(1, word_count() as nat);
    assert(word(0) == 0u64 && word(1) == 1u64);
    assert(0u64 & 0u64 == 0 && 0u64 & 1u64 == 0 && 1u64 & 0u64 == 0 && 1u64 & 1u64 == 1)
        by (bit_vector);
    assert forall|a: int, b: int| 0 <= a <= 1 && 0 <= b <= 1 implies #[trigger] binary_number(
        BinaryOp::And,
        a,
        b,
    ) == Some(
        if a == 1 {
            b
        } else {
            0
        },
    ) by {
        assert((a == 0 || a == 1) && (b == 0 || b == 1));
    }
}

/// A condition that has a window holds exactly at the steps within it.
pub proof fn lemma_window_decides(
    dag: Seq<NodeView>,
    id: usize,
    range: usize,
    at: spec_fn(Op) -> int,
)
    requires
        dag_wf(dag),
        id < dag.len(),
        range < dag.len(),
        dag[range as int].op is Range,
        window(dag, id, range) is Some,
        i64::MIN <= at(dag[range as int].op) < i64::MAX,
    ensures
        ({
            let w = window(dag, id, range).unwrap();
            meaning(dag, id, at) == Some(
                if w.0 <= at(dag[range as int].op) < w.1 {
                    1int
                } else {
                    0int
                },
            )
        }),
    decreases id,
{
    let node = dag[id as int];
    lemma_arity(dag, id);
    lemma_meaning(dag, id, at);
    lemma_meaning(dag, range, at);
    assert(dag[id as int].srcs[0] < id);
    match node.op {
        Op::Binary(BinaryOp::Lt) => {
            assert(dag[id as int].srcs[1] < id);
            lemma_meaning(dag, node.srcs[0], at);
            lemma_meaning(dag, node.srcs[1], at);
        },
        Op::Unary(UnaryOp::Not) => {
            let s0 = node.srcs[0];
            lemma_arity(dag, s0);
            lemma_meaning(dag, s0, at);
            assert(dag[s0 as int].srcs[1] < s0);
            lemma_meaning(dag, dag[s0 as int].srcs[1], at);
        },
        Op::Binary(BinaryOp::And) => {
            assert(dag[id as int].srcs[1] < id);
            lemma_window_decides(dag, node.srcs[0], range, at);
            lemma_window_decides(dag, node.srcs[1], range, at);
            lemma_both_hold();
        },
        _ => {},
    }
}

/// The sum over a loop of a number that is guarded by a window is the number
/// times the width of the window.
pub proof fn lemma_gated_sum(
    dag: Seq<NodeView>,
    body: usize,
    range: usize,
    end: nat,
    at: spec_fn(Op) -> int,
)
    requires
        dag_wf(dag),
        body < dag.len(),
        range < dag.len(),
        dag[range as int].op is Range,
        end < i64::MAX,
        dag[body as int].op == Op::Ternary(TernaryOp::Where),
        window(dag, dag[body as int].srcs[0], range) is Some,
        int_of(dag, dag[body as int].srcs[1]) is Some,
        int_of(dag, dag[body as int].srcs[2]) == Some(0i64),
    ensures
        ({
            let w = window(dag, dag[body as int].srcs[0], range).unwrap();
            let n = int_of(dag, dag[body as int].srcs[1]).unwrap();
            tallied(
                ReduceOp::Add,
                end,
                |i: int| meaning(dag, body, step_at(at, dag[range as int].op, i)),
            ) == Some(n * width_of(end as int, w.0, w.1))
        }),
    decreases end,
{
    let node = dag[body as int];
    let w = window(dag, node.srcs[0], range).unwrap();
    let n = int_of(dag, node.srcs[1]).unwrap() as int;
    let f = |i: int| meaning(dag, body, step_at(at, dag[range as int].op, i));
    lemma_arity(dag, body);
    assert(dag[body as int].srcs[0] < body && dag[body as int].srcs[1] < body
        && dag[body as int].srcs[2] < body);
    lemma_width_counts_steps(end, w.0, w.1);
    if end > 0 {
        let last = step_at(at, dag[range as int].op, end - 1);
        lemma_gated_sum(dag, body, range, (end - 1) as nat, at);
        lemma_width_counts_steps((end - 1) as nat, w.0, w.1);
        lemma_meaning(dag, body, last);
        lemma_meaning(dag, node.srcs[1], last);
        lemma_meaning(dag, node.srcs[2], last);
        lemma_window_decides(dag, node.srcs[0], range, last);
        assert(f(end - 1) == Some(
            if w.0 <= end - 1 < w.1 {
                n
            } else {
                0int
            },
        ));
        let before = steps_in((end - 1) as nat, w.0, w.1) as int;
        assert(n * (before + 1) == n * before + n) by (nonlinear_arith);
    } else {
        assert(n * 0 == 0);
    }
}

/// The step of a loop that `index == step + offset` picks, if there is one.
pub open spec fn picked(index: int, offset: int, end: int) -> Option<int> {
    if 0 <= index - offset < end {
        Some(index - offset)
    } else {
        None
    }
}

/// The step of a loop that an index picks through an offset, if there is one.
pub fn picked_step(index: i64, offset: i64, end: i64) -> (step: Option<i64>)
    ensures
        match step {
            Some(step) => picked(index as int, offset as int, end as int) == Some(step as int),
            None => picked(index as int, offset as int, end as int) is None,
        },
{
    let step: i128 = index as i128 - offset as i128;
    if 0 <= step && step < end as i128 {
        Some(step as i64)
    } else {
        None
    }
}

/// The sum over a loop of what is guarded by an equality with the counter is
/// the value at the step that the equality picks, and zero if it picks none.
pub proof fn lemma_equality_picks_one_step(
    index: int,
    offset: int,
    end: nat,
    f: spec_fn(int) -> int,
)
    ensures
        tallied(
            ReduceOp::Add,
            end,
            |i: int|
                Some(
                    if index == i + offset {
                        f(i)
                    } else {
                        0
                    },
                ),
        ) == Some(
            match picked(index, offset, end as int) {
                Some(step) => f(step),
                None => 0,
            },
        ),
    decreases end,
{
    if end > 0 {
        lemma_equality_picks_one_step(index, offset, (end - 1) as nat, f);
    }
}

} // verus!
