//! Sums over a loop that collapse to a value without it.

use vstd::prelude::*;

use crate::builders::{cast_node, const_node, lemma_interned_keeps, put, Built};
use crate::dce::{put_where, where_node};
use crate::graph::{dag_wf, BinaryOp, ConstValue, DType, Graph, NodeView, Op, ReduceOp, TernaryOp};
use crate::helpers::no_range_oracle;
use crate::late::{int_at, int_of, made, pair_node, put_int, put_pair, with_int};
use crate::meaning::{
    converted, is_leaf, is_whole, lemma_arity, lemma_meaning, lemma_meaning_extends, lemma_put_meaning,
    meaning, stands_for,
};
use crate::passes::{extends, grown, sources, zero, zero_of};
use crate::reduce::{
    all_ranges, are_ranges, lemma_meaning_ignores, lemma_tallied_constant, put_repeated, range_size,
    range_size_as_i64, reduce_unparented, repeated, sort_out, step_at, tail, tallied, tied, unparented,
};
use crate::subst::{
    is_body, lemma_substituted_grows, lemma_substitution_means, lookup, substitute, substituted,
    visible,
};
use crate::topo::{
    lemma_reaches_below, lemma_reaches_extends, lemma_reaches_transitive, reach_row_ok, reaches,
};
use crate::window::{
    collapse_window, find_gated_total, gated_sum, gated_total, is_zero_const, lemma_both_hold,
    lemma_width_counts_steps, lemma_window_decides, steps_in, width_of, window,
};

verus! {

/// The least and the greatest number of an integer type.
pub open spec fn extremes(dtype: DType) -> Option<(int, int)> {
    match dtype {
        DType::Int8 => Some((i8::MIN as int, i8::MAX as int)),
        DType::Int16 => Some((i16::MIN as int, i16::MAX as int)),
        DType::Int32 => Some((i32::MIN as int, i32::MAX as int)),
        DType::Int64 | DType::Index | DType::WeakInt => Some((i64::MIN as int, i64::MAX as int)),
        DType::UInt8 => Some((0, u8::MAX as int)),
        DType::UInt16 => Some((0, u16::MAX as int)),
        DType::UInt32 => Some((0, u32::MAX as int)),
        DType::UInt64 => Some((0, u64::MAX as int)),
        _ => None,
    }
}

/// Whether a type holds all numbers from one to another.
pub open spec fn spans(dtype: DType, low: int, high: int) -> bool {
    extremes(dtype) matches Some(ends) && ends.0 <= low && high <= ends.1
}

/// An offset moved on, if it still fits in 64 bits.
pub open spec fn shifted(offset: Option<int>, c: i64) -> Option<int> {
    match offset {
        Some(k) => if i64::MIN <= k + c <= i64::MAX {
            Some(k + c)
        } else {
            None
        },
        None => None,
    }
}

/// The offset at which a value follows the counter of a loop with `end` steps:
/// constants that are added are summed up, and a conversion is looked through
/// where its type holds all that the value can be.
pub open spec fn offset_of(dag: Seq<NodeView>, id: usize, range: usize, end: int) -> Option<int>
    decreases id,
{
    let node = dag[id as int];
    if id == range {
        Some(0)
    } else if node.op is Cast && node.srcs[0] < id {
        match offset_of(dag, node.srcs[0], range, end) {
            Some(k) => if spans(node.dtype, k, k + end) {
                Some(k)
            } else {
                None
            },
            None => None,
        }
    } else if node.op == Op::Binary(BinaryOp::Add) && node.srcs[0] < id && node.srcs[1] < id {
        match (int_of(dag, node.srcs[0]), int_of(dag, node.srcs[1])) {
            (_, Some(c)) => shifted(offset_of(dag, node.srcs[0], range, end), c),
            (Some(c), None) => shifted(offset_of(dag, node.srcs[1], range, end), c),
            _ => None,
        }
    } else {
        None
    }
}

/// Whether a node tells two values to be equal, or to differ.
pub open spec fn is_equality(op: Op) -> bool {
    op == Op::Binary(BinaryOp::Eq) || op == Op::Binary(BinaryOp::Ne)
}

/// What an equality compares with a loop counter, and the offset of the
/// counter. What is compared does not read the loop itself.
pub open spec fn compared(dag: Seq<NodeView>, id: usize, range: usize, end: int) -> Option<
    (usize, int),
> {
    let a = dag[id as int].srcs[0];
    let b = dag[id as int].srcs[1];
    match (offset_of(dag, a, range, end), offset_of(dag, b, range, end)) {
        (Some(k), _) => if reaches(dag, b, range) {
            None
        } else {
            Some((b, k))
        },
        (None, Some(k)) => if reaches(dag, a, range) {
            None
        } else {
            Some((a, k))
        },
        _ => None,
    }
}

/// Whether the steps of a loop can be told from an index at an offset: the
/// types of the index and of the counter hold them all.
pub open spec fn tells_steps(
    dag: Seq<NodeView>,
    index: usize,
    offset: int,
    range: usize,
    end: int,
) -> bool {
    &&& spans(dag[index as int].dtype, 0, end)
    &&& spans(dag[index as int].dtype, offset, offset + end)
    &&& spans(dag[range as int].dtype, 0, end)
}

/// What is summed where an equality holds, and what is where it does not.
pub open spec fn branches(dag: Seq<NodeView>, body: usize) -> (usize, usize) {
    let node = dag[body as int];
    if dag[node.srcs[0] as int].op == Op::Binary(BinaryOp::Eq) {
        (node.srcs[1], node.srcs[2])
    } else {
        (node.srcs[2], node.srcs[1])
    }
}

/// Whether a node is a zero.
pub open spec fn is_zero_node(dag: Seq<NodeView>, id: usize) -> bool {
    dag[id as int].op matches Op::Const(value) && is_zero_const(value)
}

/// The step that an index picks at an offset.
pub open spec fn step_node(dag: Seq<NodeView>, index: usize, offset: int) -> Built {
    if offset == 0 {
        Built { dag, id: index }
    } else {
        with_int(dag, BinaryOp::Sub, dag[index as int].dtype, index, offset, index)
    }
}

/// A step as a loop counter, in the type of the counter.
pub open spec fn counter_node(dag: Seq<NodeView>, step: usize, range: usize) -> Built {
    if dag[step as int].dtype == dag[range as int].dtype {
        Built { dag, id: step }
    } else {
        put(dag, cast_node(step, dag[range as int].dtype))
    }
}

/// A value where a step is one of the first `end`, and another one where it is
/// not.
pub open spec fn within(
    dag: Seq<NodeView>,
    dtype: DType,
    step: usize,
    end: i64,
    value: usize,
    other: usize,
) -> Built {
    let kind = dag[step as int].dtype;
    let zero = put(dag, const_node(ConstValue::Int(0), kind));
    let below = put(zero.dag, pair_node(BinaryOp::Lt, DType::Bool, step, zero.id));
    let size = put(below.dag, const_node(ConstValue::Int(end), kind));
    let inside = put(size.dag, pair_node(BinaryOp::Lt, DType::Bool, step, size.id));
    let chosen = put(inside.dag, where_node(dtype, inside.id, value, other));
    put(chosen.dag, where_node(dtype, below.id, other, chosen.id))
}

/// The value of a sum at the step that an index picks, and zero where that is
/// no step of the loop.
pub open spec fn value_at(
    dag: Seq<NodeView>,
    dtype: DType,
    pick: (usize, int),
    value: usize,
    other: usize,
    range: usize,
    end: i64,
) -> Built {
    let step = step_node(dag, pick.0, pick.1);
    let counter = counter_node(step.dag, step.id, range);
    let at = substituted(counter.dag, value, seq![(range, counter.id)]);
    within(at.dag, dtype, step.id, end, at.id, other)
}

/// The sum over a loop of a value that is guarded by an equality with the loop
/// counter is the value at the one step that the equality picks.
pub open spec fn picked_sum(dag: Seq<NodeView>, body: usize, range: usize) -> Option<Built> {
    let node = dag[body as int];
    if node.op == Op::Ternary(TernaryOp::Where) && is_equality(dag[node.srcs[0] as int].op)
        && is_zero_node(dag, branches(dag, body).1) {
        match range_size(dag, range) {
            Some(end) => if end >= 0 {
                match compared(dag, node.srcs[0], range, end as int) {
                    Some(pick) => if tells_steps(dag, pick.0, pick.1, range, end as int) {
                        Some(
                            value_at(
                                dag,
                                node.dtype,
                                pick,
                                branches(dag, body).0,
                                branches(dag, body).1,
                                range,
                                end,
                            ),
                        )
                    } else {
                        None
                    },
                    None => None,
                }
            } else {
                None
            },
            None => None,
        }
    } else {
        None
    }
}

/// The truth value that a node converts.
pub open spec fn truth_of(dag: Seq<NodeView>, id: usize) -> Option<usize> {
    let node = dag[id as int];
    if node.op is Cast && dag[node.srcs[0] as int].dtype == DType::Bool {
        Some(node.srcs[0])
    } else {
        None
    }
}

/// A product with a converted truth value as a choice between the other factor
/// and zero; any other node as it is.
pub open spec fn chosen_product(dag: Seq<NodeView>, id: usize) -> Built {
    let node = dag[id as int];
    if node.op == Op::Binary(BinaryOp::Mul) {
        match (truth_of(dag, node.srcs[1]), truth_of(dag, node.srcs[0])) {
            (Some(guard), _) => choice(dag, node.dtype, guard, node.srcs[0]),
            (None, Some(guard)) => choice(dag, node.dtype, guard, node.srcs[1]),
            _ => Built { dag, id },
        }
    } else {
        Built { dag, id }
    }
}

/// A choice between a value and zero.
pub open spec fn choice(dag: Seq<NodeView>, dtype: DType, guard: usize, value: usize) -> Built {
    let zero = put(dag, const_node(zero_of(dtype), dtype));
    put(zero.dag, where_node(dtype, guard, value, zero.id))
}

/// Whether no loop stands at or below a node.
pub open spec fn is_loop_free(dag: Seq<NodeView>, id: usize) -> bool {
    forall|x: usize| #[trigger] reaches(dag, id, x) ==> !(dag[x as int].op is Range)
}

/// The sum over a loop of a value that reads no loop is the value as often as
/// the loop runs.
pub open spec fn repeated_sum(dag: Seq<NodeView>, body: usize, range: usize) -> Option<Built> {
    if dag[range as int].op is Range && is_loop_free(dag, body) {
        let value = chosen_product(dag, body);
        Some(
            repeated(
                value.dag,
                ReduceOp::Add,
                dag[body as int].dtype,
                value.id,
                dag[range as int].srcs[0],
            ),
        )
    } else {
        None
    }
}

/// A condition of two that both have to hold: one that reads no loop, and the
/// other.
pub open spec fn gate_parts(dag: Seq<NodeView>, condition: usize) -> Option<(usize, usize)> {
    let node = dag[condition as int];
    if node.op != Op::Binary(BinaryOp::And) {
        None
    } else if dag[node.srcs[0] as int].dtype == DType::Bool && is_loop_free(dag, node.srcs[0]) {
        Some((node.srcs[0], node.srcs[1]))
    } else if dag[node.srcs[1] as int].dtype == DType::Bool && is_loop_free(dag, node.srcs[1]) {
        Some((node.srcs[1], node.srcs[0]))
    } else {
        None
    }
}

/// The sum over a loop of a constant that is guarded by bounds on the counter
/// and by a condition that reads no loop: where that condition holds, the
/// constant as often as steps lie within the bounds.
pub open spec fn factored_sum(dag: Seq<NodeView>, body: usize, range: usize) -> Option<Built> {
    let node = dag[body as int];
    if node.op == Op::Ternary(TernaryOp::Where) {
        match gate_parts(dag, node.srcs[0]) {
            Some((free, bounded)) => match gated_total(
                dag,
                bounded,
                node.srcs[1],
                node.srcs[2],
                range,
            ) {
                Some(total) => {
                    let all = put(dag, const_node(total, node.dtype));
                    Some(put(all.dag, where_node(node.dtype, free, all.id, node.srcs[2])))
                },
                None => None,
            },
            None => None,
        }
    } else {
        None
    }
}

/// Whether a type is one of indices, which do not wrap around.
pub open spec fn is_index_type(dtype: DType) -> bool {
    dtype == DType::Index || dtype == DType::WeakInt
}

/// A condition that bounds the loop counter at an offset that reads no loop by a
/// constant: the offset and the constant.
pub open spec fn offset_bound(dag: Seq<NodeView>, id: usize, range: usize) -> Option<(usize, i64)> {
    let node = dag[id as int];
    let sum = dag[node.srcs[0] as int];
    if node.op != Op::Binary(BinaryOp::Lt) || sum.op != Op::Binary(BinaryOp::Add)
        || !is_index_type(sum.dtype) {
        None
    } else {
        match int_of(dag, node.srcs[1]) {
            Some(bound) => if sum.srcs[0] == range && is_loop_free(dag, sum.srcs[1]) {
                Some((sum.srcs[1], bound))
            } else if sum.srcs[1] == range && is_loop_free(dag, sum.srcs[0]) {
                Some((sum.srcs[0], bound))
            } else {
                None
            },
            None => None,
        }
    }
}

/// How many of the first `n` steps lie below a bound.
pub open spec fn steps_below(n: int, bound: int) -> int {
    if bound < 0 {
        0
    } else if bound < n {
        bound
    } else {
        n
    }
}

/// The number of steps of a loop that an offset leaves below a bound.
pub open spec fn count_below(dag: Seq<NodeView>, offset: usize, bound: i64, end: i64) -> Built {
    let t = DType::Index;
    let most = put(dag, const_node(ConstValue::Int(bound), t));
    let left = put(most.dag, pair_node(BinaryOp::Sub, t, most.id, offset));
    let none = put(left.dag, const_node(ConstValue::Int(0), t));
    let some = put(none.dag, pair_node(BinaryOp::Max, t, left.id, none.id));
    let all = put(some.dag, const_node(ConstValue::Int(end), t));
    let less = put(all.dag, pair_node(BinaryOp::Lt, DType::Bool, some.id, all.id));
    put(less.dag, where_node(t, less.id, some.id, all.id))
}

/// The sum over a loop of one constant where the counter at an offset is below a
/// bound, and of another constant elsewhere.
pub open spec fn stepped_sum(dag: Seq<NodeView>, body: usize, range: usize) -> Option<Built> {
    let node = dag[body as int];
    if node.op == Op::Ternary(TernaryOp::Where) {
        match (
            offset_bound(dag, node.srcs[0], range),
            int_of(dag, node.srcs[1]),
            int_of(dag, node.srcs[2]),
            range_size(dag, range),
        ) {
            (Some((offset, bound)), Some(a), Some(b), Some(end)) => if end >= 0 && i64::MIN <= b
                * end <= i64::MAX && i64::MIN <= a - b <= i64::MAX {
                let count = count_below(dag, offset, bound, end);
                let steps = put(count.dag, cast_node(count.id, node.dtype));
                let factor = put(
                    steps.dag,
                    const_node(ConstValue::Int((a - b) as i64), node.dtype),
                );
                let product = put(
                    factor.dag,
                    pair_node(BinaryOp::Mul, node.dtype, steps.id, factor.id),
                );
                let base = put(
                    product.dag,
                    const_node(ConstValue::Int((b * end) as i64), node.dtype),
                );
                Some(put(base.dag, pair_node(BinaryOp::Add, node.dtype, product.id, base.id)))
            } else {
                None
            },
            _ => None,
        }
    } else {
        None
    }
}

/// What a sum over a loop collapses to: a constant as often as its guard holds,
/// the value at the step that an equality picks, or a value that reads no loop
/// as often as the loop runs.
pub open spec fn collapsed_sum(dag: Seq<NodeView>, body: usize, range: usize) -> Option<Built> {
    match gated_sum(dag, body, range) {
        Some(new) => Some(new),
        None => match factored_sum(dag, body, range) {
            Some(new) => Some(new),
            None => match stepped_sum(dag, body, range) {
                Some(new) => Some(new),
                None => match picked_sum(dag, body, range) {
                    Some(new) => Some(new),
                    None => repeated_sum(dag, body, range),
                },
            },
        },
    }
}

pub(crate) fn find_extremes(dtype: DType) -> (ends: Option<(i128, i128)>)
    ensures
        match extremes(dtype) {
            Some(want) => ends is Some && (ends->0).0 == want.0 && (ends->0).1 == want.1,
            None => ends is None,
        },
{
    match dtype {
        DType::Int8 => Some((-0x80, 0x7f)),
        DType::Int16 => Some((-0x8000, 0x7fff)),
        DType::Int32 => Some((-0x8000_0000, 0x7fff_ffff)),
        DType::Int64 | DType::Index | DType::WeakInt => Some(
            (-0x8000_0000_0000_0000, 0x7fff_ffff_ffff_ffff),
        ),
        DType::UInt8 => Some((0, 0xff)),
        DType::UInt16 => Some((0, 0xffff)),
        DType::UInt32 => Some((0, 0xffff_ffff)),
        DType::UInt64 => Some((0, 0xffff_ffff_ffff_ffff)),
        _ => None,
    }
}

fn holds_steps(dtype: DType, low: i64, end: i64) -> (r: bool)
    requires
        end >= 0,
    ensures
        r == spans(dtype, low as int, low + end),
{
    match find_extremes(dtype) {
        Some(ends) => ends.0 <= low as i128 && low as i128 + end as i128 <= ends.1,
        None => false,
    }
}

fn shift(offset: Option<i64>, c: i64) -> (moved: Option<i64>)
    ensures
        match moved {
            Some(k) => offset is Some && shifted(Some(offset->0 as int), c) == Some(k as int),
            None => offset is Some ==> shifted(Some(offset->0 as int), c) is None,
        },
{
    match offset {
        Some(k) => k.checked_add(c),
        None => None,
    }
}

fn find_offset(graph: &Graph, id: usize, range: usize, end: i64) -> (offset: Option<i64>)
    requires
        graph.wf(),
        id < graph@.len(),
        end >= 0,
    ensures
        match offset {
            Some(k) => offset_of(graph@, id, range, end as int) == Some(k as int),
            None => offset_of(graph@, id, range, end as int) is None,
        },
    decreases id,
{
    proof {
        lemma_arity(graph@, id);
    }
    if id == range {
        return Some(0);
    }
    match graph.op(id) {
        Op::Cast => {
            let dtype = graph.dtype(id);
            match find_offset(graph, graph.source(id, 0), range, end) {
                Some(k) => if holds_steps(dtype, k, end) {
                    Some(k)
                } else {
                    None
                },
                None => None,
            }
        },
        Op::Binary(BinaryOp::Add) => {
            let (a, b): (usize, usize) = (graph.source(id, 0), graph.source(id, 1));
            match (int_at(graph, a), int_at(graph, b)) {
                (_, Some(c)) => shift(find_offset(graph, a, range, end), c),
                (Some(c), None) => shift(find_offset(graph, b, range, end), c),
                _ => None,
            }
        },
        _ => None,
    }
}

fn find_compared(graph: &Graph, id: usize, range: usize, end: i64, rows: &Vec<Vec<bool>>) -> (pick:
    Option<(usize, i64)>)
    requires
        graph.wf(),
        id < graph@.len(),
        range < graph@.len(),
        is_equality(graph@[id as int].op),
        end >= 0,
        rows@.len() == graph@.len(),
        forall|i: usize| i < graph@.len() ==> reach_row_ok(graph@, i, #[trigger] rows@[i as int]@),
    ensures
        match pick {
            Some(pick) => compared(graph@, id, range, end as int) == Some(
                (pick.0, pick.1 as int),
            ) && pick.0 < id,
            None => compared(graph@, id, range, end as int) is None,
        },
{
    proof {
        lemma_arity(graph@, id);
    }
    let (a, b): (usize, usize) = (graph.source(id, 0), graph.source(id, 1));
    assert(reach_row_ok(graph@, a, rows@[a as int]@));
    assert(reach_row_ok(graph@, b, rows@[b as int]@));
    match (find_offset(graph, a, range, end), find_offset(graph, b, range, end)) {
        (Some(k), _) => if rows[b][range] {
            None
        } else {
            Some((b, k))
        },
        (None, Some(k)) => if rows[a][range] {
            None
        } else {
            Some((a, k))
        },
        _ => None,
    }
}

fn put_step(graph: &mut Graph, index: usize, offset: i64) -> (id: usize)
    requires
        old(graph).wf(),
        index < old(graph)@.len(),
    ensures
        grown(old(graph)@, *final(graph), step_node(old(graph)@, index, offset as int), id),
{
    if offset == 0 {
        return index;
    }
    let kind = graph.dtype(index);
    let c: usize = put_int(graph, offset, kind);
    put_pair(graph, BinaryOp::Sub, kind, index, c)
}

fn put_counter(graph: &mut Graph, step: usize, range: usize) -> (id: usize)
    requires
        old(graph).wf(),
        step < old(graph)@.len(),
        range < old(graph)@.len(),
    ensures
        grown(old(graph)@, *final(graph), counter_node(old(graph)@, step, range), id),
{
    let dtype = graph.dtype(range);
    if graph.dtype(step) == dtype {
        return step;
    }
    let ghost dag = graph@;
    let id: usize = graph.cast(step, dtype);
    proof {
        lemma_interned_keeps(dag, cast_node(step, dtype));
    }
    id
}

fn put_within(
    graph: &mut Graph,
    dtype: DType,
    step: usize,
    end: i64,
    value: usize,
    other: usize,
) -> (id: usize)
    requires
        old(graph).wf(),
        step < old(graph)@.len(),
        value < old(graph)@.len(),
        other < old(graph)@.len(),
    ensures
        grown(old(graph)@, *final(graph), within(old(graph)@, dtype, step, end, value, other), id),
{
    let kind = graph.dtype(step);
    let zero: usize = put_int(graph, 0, kind);
    let below: usize = put_pair(graph, BinaryOp::Lt, DType::Bool, step, zero);
    let size: usize = put_int(graph, end, kind);
    let inside: usize = put_pair(graph, BinaryOp::Lt, DType::Bool, step, size);
    let chosen: usize = put_where(graph, dtype, inside, value, other);
    put_where(graph, dtype, below, other, chosen)
}

pub(crate) fn zero_at(graph: &Graph, id: usize) -> (r: bool)
    requires
        id < graph@.len(),
    ensures
        r == is_zero_node(graph@, id),
{
    match graph.op(id) {
        Op::Const(ConstValue::Int(n)) => n == 0,
        Op::Const(ConstValue::Float(bits)) => bits == 0,
        _ => false,
    }
}

fn collapse_pick(graph: &mut Graph, body: usize, range: usize) -> (new: Option<usize>)
    requires
        old(graph).wf(),
        body < old(graph)@.len(),
        range < old(graph)@.len(),
    ensures
        made(old(graph)@, *final(graph), picked_sum(old(graph)@, body, range), new),
{
    let ghost dag = graph@;
    proof {
        lemma_arity(dag, body);
    }
    match graph.op(body) {
        Op::Ternary(TernaryOp::Where) => {},
        _ => {
            return None;
        },
    }
    let dtype = graph.dtype(body);
    let condition: usize = graph.source(body, 0);
    let (first, second): (usize, usize) = (graph.source(body, 1), graph.source(body, 2));
    let (value, other): (usize, usize) = match graph.op(condition) {
        Op::Binary(BinaryOp::Eq) => (first, second),
        Op::Binary(BinaryOp::Ne) => (second, first),
        _ => {
            return None;
        },
    };
    if !zero_at(graph, other) {
        return None;
    }
    let end: i64 = match range_size_as_i64(graph, range) {
        Some(end) => end,
        None => {
            return None;
        },
    };
    if end < 0 {
        return None;
    }
    let rows = graph.reach();
    let pick: (usize, i64) = match find_compared(graph, condition, range, end, &rows) {
        Some(pick) => pick,
        None => {
            return None;
        },
    };
    let kind = graph.dtype(pick.0);
    let counted = graph.dtype(range);
    if !holds_steps(kind, 0, end) || !holds_steps(kind, pick.1, end) || !holds_steps(
        counted,
        0,
        end,
    ) {
        return None;
    }
    let step: usize = put_step(graph, pick.0, pick.1);
    let counter: usize = put_counter(graph, step, range);
    let pairs: Vec<(usize, usize)> = vec![(range, counter)];
    assert(pairs@ =~= seq![(range, counter)]);
    let at: usize = substitute(graph, value, &pairs);
    Some(put_within(graph, dtype, step, end, at, other))
}

fn find_truth(graph: &Graph, id: usize) -> (guard: Option<usize>)
    requires
        graph.wf(),
        id < graph@.len(),
    ensures
        guard == truth_of(graph@, id),
        guard matches Some(g) ==> g < id,
{
    proof {
        lemma_arity(graph@, id);
    }
    match graph.op(id) {
        Op::Cast => {
            let src: usize = graph.source(id, 0);
            if graph.dtype(src) == DType::Bool {
                Some(src)
            } else {
                None
            }
        },
        _ => None,
    }
}

fn put_choice(graph: &mut Graph, dtype: DType, guard: usize, value: usize) -> (id: usize)
    requires
        old(graph).wf(),
        guard < old(graph)@.len(),
        value < old(graph)@.len(),
    ensures
        grown(old(graph)@, *final(graph), choice(old(graph)@, dtype, guard, value), id),
{
    let ghost dag = graph@;
    let none = zero(dtype);
    let zero: usize = graph.constant(none, dtype);
    proof {
        lemma_interned_keeps(dag, const_node(none, dtype));
    }
    put_where(graph, dtype, guard, value, zero)
}

fn put_chosen(graph: &mut Graph, id: usize) -> (new: usize)
    requires
        old(graph).wf(),
        id < old(graph)@.len(),
    ensures
        grown(old(graph)@, *final(graph), chosen_product(old(graph)@, id), new),
{
    proof {
        lemma_arity(graph@, id);
    }
    match graph.op(id) {
        Op::Binary(BinaryOp::Mul) => {
            let dtype = graph.dtype(id);
            let (a, b): (usize, usize) = (graph.source(id, 0), graph.source(id, 1));
            match (find_truth(graph, b), find_truth(graph, a)) {
                (Some(guard), _) => put_choice(graph, dtype, guard, a),
                (None, Some(guard)) => put_choice(graph, dtype, guard, b),
                _ => id,
            }
        },
        _ => id,
    }
}

fn collapse_repeat(graph: &mut Graph, body: usize, range: usize) -> (new: Option<usize>)
    requires
        old(graph).wf(),
        body < old(graph)@.len(),
        range < old(graph)@.len(),
    ensures
        made(old(graph)@, *final(graph), repeated_sum(old(graph)@, body, range), new),
{
    proof {
        lemma_arity(graph@, range);
    }
    match graph.op(range) {
        Op::Range { .. } => {},
        _ => {
            return None;
        },
    }
    if !no_range_oracle(graph, body) {
        return None;
    }
    let dtype = graph.dtype(body);
    let extent: usize = graph.source(range, 0);
    let value: usize = put_chosen(graph, body);
    Some(put_repeated(graph, ReduceOp::Add, dtype, value, extent))
}

fn find_gate_parts(graph: &Graph, condition: usize) -> (parts: Option<(usize, usize)>)
    requires
        graph.wf(),
        condition < graph@.len(),
    ensures
        parts == gate_parts(graph@, condition),
        parts matches Some(p) ==> p.0 < graph@.len() && p.1 < graph@.len(),
{
    proof {
        lemma_arity(graph@, condition);
    }
    match graph.op(condition) {
        Op::Binary(BinaryOp::And) => {},
        _ => {
            return None;
        },
    }
    let left: usize = graph.source(condition, 0);
    let right: usize = graph.source(condition, 1);
    if graph.dtype(left) == DType::Bool && no_range_oracle(graph, left) {
        Some((left, right))
    } else if graph.dtype(right) == DType::Bool && no_range_oracle(graph, right) {
        Some((right, left))
    } else {
        None
    }
}

fn collapse_factored(graph: &mut Graph, body: usize, range: usize) -> (new: Option<usize>)
    requires
        old(graph).wf(),
        body < old(graph)@.len(),
        range < old(graph)@.len(),
    ensures
        made(old(graph)@, *final(graph), factored_sum(old(graph)@, body, range), new),
{
    let ghost dag = graph@;
    proof {
        lemma_arity(dag, body);
    }
    match graph.op(body) {
        Op::Ternary(TernaryOp::Where) => {},
        _ => {
            return None;
        },
    }
    let dtype = graph.dtype(body);
    let condition: usize = graph.source(body, 0);
    let value: usize = graph.source(body, 1);
    let other: usize = graph.source(body, 2);
    let (free, bounded) = match find_gate_parts(graph, condition) {
        Some(parts) => parts,
        None => {
            return None;
        },
    };
    match find_gated_total(graph, bounded, value, other, range) {
        Some(total) => {
            let all: usize = graph.constant(total, dtype);
            proof {
                lemma_interned_keeps(dag, const_node(total, dtype));
            }
            Some(put_where(graph, dtype, free, all, other))
        },
        None => None,
    }
}

fn find_offset_bound(graph: &Graph, id: usize, range: usize) -> (found: Option<(usize, i64)>)
    requires
        graph.wf(),
        id < graph@.len(),
    ensures
        found == offset_bound(graph@, id, range),
        found matches Some(f) ==> f.0 < graph@.len(),
{
    proof {
        lemma_arity(graph@, id);
    }
    match graph.op(id) {
        Op::Binary(BinaryOp::Lt) => {},
        _ => {
            return None;
        },
    }
    let sum: usize = graph.source(id, 0);
    proof {
        lemma_arity(graph@, sum);
    }
    match graph.op(sum) {
        Op::Binary(BinaryOp::Add) => {},
        _ => {
            return None;
        },
    }
    let dtype = graph.dtype(sum);
    if dtype != DType::Index && dtype != DType::WeakInt {
        return None;
    }
    let bound: i64 = match int_at(graph, graph.source(id, 1)) {
        Some(bound) => bound,
        None => {
            return None;
        },
    };
    let left: usize = graph.source(sum, 0);
    let right: usize = graph.source(sum, 1);
    if left == range && no_range_oracle(graph, right) {
        Some((right, bound))
    } else if right == range && no_range_oracle(graph, left) {
        Some((left, bound))
    } else {
        None
    }
}

fn put_count_below(graph: &mut Graph, offset: usize, bound: i64, end: i64) -> (id: usize)
    requires
        old(graph).wf(),
        offset < old(graph)@.len(),
    ensures
        grown(old(graph)@, *final(graph), count_below(old(graph)@, offset, bound, end), id),
{
    let t = DType::Index;
    let most: usize = put_int(graph, bound, t);
    let left: usize = put_pair(graph, BinaryOp::Sub, t, most, offset);
    let none: usize = put_int(graph, 0, t);
    let some: usize = put_pair(graph, BinaryOp::Max, t, left, none);
    let all: usize = put_int(graph, end, t);
    let less: usize = put_pair(graph, BinaryOp::Lt, DType::Bool, some, all);
    put_where(graph, t, less, some, all)
}

#[verifier::rlimit(60)]
#[verifier::spinoff_prover]
fn collapse_steps(graph: &mut Graph, body: usize, range: usize) -> (new: Option<usize>)
    requires
        old(graph).wf(),
        body < old(graph)@.len(),
        range < old(graph)@.len(),
    ensures
        made(old(graph)@, *final(graph), stepped_sum(old(graph)@, body, range), new),
{
    let ghost dag = graph@;
    proof {
        lemma_arity(dag, body);
    }
    match graph.op(body) {
        Op::Ternary(TernaryOp::Where) => {},
        _ => {
            return None;
        },
    }
    let dtype = graph.dtype(body);
    let (offset, bound) = match find_offset_bound(graph, graph.source(body, 0), range) {
        Some(found) => found,
        None => {
            return None;
        },
    };
    let (a, b, end) = match (
        int_at(graph, graph.source(body, 1)),
        int_at(graph, graph.source(body, 2)),
        range_size_as_i64(graph, range),
    ) {
        (Some(a), Some(b), Some(end)) => (a, b, end),
        _ => {
            return None;
        },
    };
    if end < 0 {
        return None;
    }
    let (base, factor) = match (b.checked_mul(end), a.checked_sub(b)) {
        (Some(base), Some(factor)) => (base, factor),
        _ => {
            return None;
        },
    };
    let count: usize = put_count_below(graph, offset, bound, end);
    let ghost counted = graph@;
    let steps: usize = graph.cast(count, dtype);
    proof {
        lemma_interned_keeps(counted, cast_node(count, dtype));
    }
    let factor: usize = put_int(graph, factor, dtype);
    let product: usize = put_pair(graph, BinaryOp::Mul, dtype, steps, factor);
    let base: usize = put_int(graph, base, dtype);
    Some(put_pair(graph, BinaryOp::Add, dtype, product, base))
}

/// The sum over a loop of one number where the counter at an offset is below a
/// bound, and of another elsewhere: the second as often as the loop runs, and
/// the difference as often as steps lie below.
pub proof fn lemma_stepped_sum(
    dag: Seq<NodeView>,
    body: usize,
    range: usize,
    end: nat,
    at: spec_fn(Op) -> int,
)
    requires
        dag_wf(dag),
        body < dag.len(),
        range < dag.len(),
        dag[range as int].op is Range,
        dag[body as int].op == Op::Ternary(TernaryOp::Where),
        offset_bound(dag, dag[body as int].srcs[0], range) is Some,
        meaning(dag, (offset_bound(dag, dag[body as int].srcs[0], range)->0).0, at) is Some,
        int_of(dag, dag[body as int].srcs[1]) is Some,
        int_of(dag, dag[body as int].srcs[2]) is Some,
    ensures
        ({
            let (offset, bound) = offset_bound(dag, dag[body as int].srcs[0], range)->0;
            let a = int_of(dag, dag[body as int].srcs[1]).unwrap();
            let b = int_of(dag, dag[body as int].srcs[2]).unwrap();
            tallied(
                ReduceOp::Add,
                end,
                |i: int| meaning(dag, body, step_at(at, dag[range as int].op, i)),
            ) == Some(
                (a - b) * steps_below(end as int, bound - meaning(dag, offset, at)->0) + b * end,
            )
        }),
    decreases end,
{
    let node = dag[body as int];
    let condition = node.srcs[0];
    let (offset, bound) = offset_bound(dag, condition, range)->0;
    let x = meaning(dag, offset, at)->0;
    let a = int_of(dag, node.srcs[1]).unwrap() as int;
    let b = int_of(dag, node.srcs[2]).unwrap() as int;
    let f = |i: int| meaning(dag, body, step_at(at, dag[range as int].op, i));
    lemma_arity(dag, body);
    assert(dag[body as int].srcs[0] < body && dag[body as int].srcs[1] < body
        && dag[body as int].srcs[2] < body);
    lemma_arity(dag, condition);
    assert(dag[condition as int].srcs[0] < condition && dag[condition as int].srcs[1] < condition);
    let sum = dag[condition as int].srcs[0];
    lemma_arity(dag, sum);
    assert(dag[sum as int].srcs[0] < sum && dag[sum as int].srcs[1] < sum);
    if end > 0 {
        let step = end - 1;
        let last = step_at(at, dag[range as int].op, step);
        lemma_stepped_sum(dag, body, range, step as nat, at);
        lemma_meaning(dag, body, last);
        lemma_meaning(dag, condition, last);
        lemma_meaning(dag, dag[condition as int].srcs[1], last);
        lemma_meaning(dag, sum, last);
        lemma_meaning(dag, range, last);
        lemma_meaning(dag, node.srcs[1], last);
        lemma_meaning(dag, node.srcs[2], last);
        lemma_meaning_ignores(dag, offset, dag[range as int].op, step, at);
        assert(f(step) == Some(
            if step + x < bound {
                a
            } else {
                b
            },
        ));
        let before = steps_below(step, bound - x);
        assert((a - b) * (before + 1) == (a - b) * before + (a - b)) by (nonlinear_arith);
        assert(b * (step + 1) == b * step + b) by (nonlinear_arith);
    } else {
        assert((a - b) * 0 == 0 && b * 0 == 0);
    }
}

/// The count of the steps below a bound means just that.
proof fn lemma_count_below_means(
    dag: Seq<NodeView>,
    offset: usize,
    bound: i64,
    end: i64,
    at: spec_fn(Op) -> int,
)
    requires
        dag_wf(dag),
        offset < dag.len(),
        end >= 0,
        meaning(dag, offset, at) is Some,
        count_below(dag, offset, bound, end).dag.len() <= usize::MAX,
    ensures
        ({
            let count = count_below(dag, offset, bound, end);
            &&& dag_wf(count.dag)
            &&& extends(dag, count.dag)
            &&& count.id < count.dag.len()
            &&& meaning(count.dag, count.id, at) == Some(
                steps_below(end as int, bound - meaning(dag, offset, at)->0),
            )
        }),
{
    let t = DType::Index;
    let most_node = const_node(ConstValue::Int(bound), t);
    let most = put(dag, most_node);
    let left_node = pair_node(BinaryOp::Sub, t, most.id, offset);
    let left = put(most.dag, left_node);
    let none_node = const_node(ConstValue::Int(0), t);
    let none = put(left.dag, none_node);
    let some_node = pair_node(BinaryOp::Max, t, left.id, none.id);
    let some = put(none.dag, some_node);
    let all_node = const_node(ConstValue::Int(end), t);
    let all = put(some.dag, all_node);
    let less_node = pair_node(BinaryOp::Lt, DType::Bool, some.id, all.id);
    let less = put(all.dag, less_node);
    let last_node = where_node(t, less.id, some.id, all.id);
    lemma_interned_keeps(dag, most_node);
    lemma_interned_keeps(most.dag, left_node);
    lemma_interned_keeps(left.dag, none_node);
    lemma_interned_keeps(none.dag, some_node);
    lemma_interned_keeps(some.dag, all_node);
    lemma_interned_keeps(all.dag, less_node);
    lemma_interned_keeps(less.dag, last_node);
    lemma_put_meaning(dag, most_node, at);
    lemma_meaning_extends(dag, most.dag, offset, at);
    lemma_put_meaning(most.dag, left_node, at);
    lemma_put_meaning(left.dag, none_node, at);
    lemma_meaning_extends(left.dag, none.dag, left.id, at);
    lemma_put_meaning(none.dag, some_node, at);
    lemma_put_meaning(some.dag, all_node, at);
    lemma_meaning_extends(some.dag, all.dag, some.id, at);
    lemma_put_meaning(all.dag, less_node, at);
    lemma_meaning_extends(all.dag, less.dag, some.id, at);
    lemma_meaning_extends(all.dag, less.dag, all.id, at);
    lemma_put_meaning(less.dag, last_node, at);
}

/// What a sum of whole numbers collapses to by the steps below a bound means the
/// sum.
pub proof fn lemma_stepped_sum_means(
    dag: Seq<NodeView>,
    body: usize,
    range: usize,
    at: spec_fn(Op) -> int,
)
    requires
        dag_wf(dag),
        body < dag.len(),
        range < dag.len(),
        dag[range as int].op is Range,
        stepped_sum(dag, body, range) is Some,
        stepped_sum(dag, body, range)->0.dag.len() <= usize::MAX,
        meaning(dag, (offset_bound(dag, dag[body as int].srcs[0], range)->0).0, at) is Some,
        is_whole(dag[body as int].dtype),
        dag[body as int].dtype != DType::Bool,
    ensures
        ({
            let new = stepped_sum(dag, body, range)->0;
            meaning(new.dag, new.id, at) == tallied(
                ReduceOp::Add,
                range_size(dag, range)->0 as nat,
                |i: int| meaning(dag, body, step_at(at, dag[range as int].op, i)),
            )
        }),
{
    let node = dag[body as int];
    let (offset, bound) = offset_bound(dag, node.srcs[0], range)->0;
    let end = range_size(dag, range)->0;
    let a = int_of(dag, node.srcs[1])->0;
    let b = int_of(dag, node.srcs[2])->0;
    lemma_arity(dag, body);
    assert(dag[body as int].srcs[0] < body);
    let condition = node.srcs[0];
    lemma_arity(dag, condition);
    assert(dag[condition as int].srcs[0] < condition);
    let sum = dag[condition as int].srcs[0];
    lemma_arity(dag, sum);
    assert(dag[sum as int].srcs[0] < sum && dag[sum as int].srcs[1] < sum);
    lemma_stepped_sum(dag, body, range, end as nat, at);
    let count = count_below(dag, offset, bound, end);
    let steps_node = cast_node(count.id, node.dtype);
    let steps = put(count.dag, steps_node);
    let factor_node = const_node(ConstValue::Int((a - b) as i64), node.dtype);
    let factor = put(steps.dag, factor_node);
    let product_node = pair_node(BinaryOp::Mul, node.dtype, steps.id, factor.id);
    let product = put(factor.dag, product_node);
    let base_node = const_node(ConstValue::Int((b * end) as i64), node.dtype);
    let base = put(product.dag, base_node);
    let last_node = pair_node(BinaryOp::Add, node.dtype, product.id, base.id);
    lemma_interned_keeps(count.dag, steps_node);
    lemma_interned_keeps(steps.dag, factor_node);
    lemma_interned_keeps(factor.dag, product_node);
    lemma_interned_keeps(product.dag, base_node);
    lemma_interned_keeps(base.dag, last_node);
    lemma_count_below_means(dag, offset, bound, end, at);
    let n = steps_below(end as int, bound - meaning(dag, offset, at)->0);
    assert(converted(n, node.dtype) == Some(n));
    lemma_put_meaning(count.dag, steps_node, at);
    lemma_put_meaning(steps.dag, factor_node, at);
    lemma_meaning_extends(steps.dag, factor.dag, steps.id, at);
    lemma_put_meaning(factor.dag, product_node, at);
    lemma_put_meaning(product.dag, base_node, at);
    lemma_meaning_extends(product.dag, base.dag, product.id, at);
    lemma_put_meaning(base.dag, last_node, at);
    assert(n * (a - b) == (a - b) * n) by (nonlinear_arith);
}

/// Collapses the sum of a value over a loop, where it can; see `collapsed_sum`.
pub fn reduce_load_collapse(graph: &mut Graph, body: usize, range: usize) -> (new: Option<usize>)
    requires
        old(graph).wf(),
        body < old(graph)@.len(),
        range < old(graph)@.len(),
    ensures
        made(old(graph)@, *final(graph), collapsed_sum(old(graph)@, body, range), new),
{
    match collapse_window(graph, body, range) {
        Some(new) => Some(new),
        None => match collapse_factored(graph, body, range) {
            Some(new) => Some(new),
            None => match collapse_steps(graph, body, range) {
                Some(new) => Some(new),
                None => match collapse_pick(graph, body, range) {
                    Some(new) => Some(new),
                    None => collapse_repeat(graph, body, range),
                },
            },
        },
    }
}

/// The sum over a loop of a number that is guarded by a window and by a
/// condition that reads no loop is the number times the width of the window,
/// where that condition holds, and zero elsewhere.
pub proof fn lemma_factored_sum(
    dag: Seq<NodeView>,
    body: usize,
    range: usize,
    end: nat,
    at: spec_fn(Op) -> int,
)
    requires
        dag_wf(dag),
        body < dag.len(),
        range < dag.len(),
        dag[range as int].op is Range,
        end < i64::MAX,
        dag[body as int].op == Op::Ternary(TernaryOp::Where),
        gate_parts(dag, dag[body as int].srcs[0]) is Some,
        window(dag, (gate_parts(dag, dag[body as int].srcs[0])->0).1, range) is Some,
        meaning(dag, (gate_parts(dag, dag[body as int].srcs[0])->0).0, at) matches Some(c) && 0 <= c
            <= 1,
        int_of(dag, dag[body as int].srcs[1]) is Some,
        int_of(dag, dag[body as int].srcs[2]) == Some(0i64),
    ensures
        ({
            let (free, bounded) = gate_parts(dag, dag[body as int].srcs[0])->0;
            let w = window(dag, bounded, range).unwrap();
            let n = int_of(dag, dag[body as int].srcs[1]).unwrap();
            tallied(
                ReduceOp::Add,
                end,
                |i: int| meaning(dag, body, step_at(at, dag[range as int].op, i)),
            ) == Some(
                if meaning(dag, free, at) == Some(1int) {
                    n * width_of(end as int, w.0, w.1)
                } else {
                    0
                },
            )
        }),
    decreases end,
{
    let node = dag[body as int];
    let condition = node.srcs[0];
    let (free, bounded) = gate_parts(dag, condition)->0;
    let w = window(dag, bounded, range).unwrap();
    let n = int_of(dag, node.srcs[1]).unwrap() as int;
    let f = |i: int| meaning(dag, body, step_at(at, dag[range as int].op, i));
    lemma_arity(dag, body);
    assert(dag[body as int].srcs[0] < body && dag[body as int].srcs[1] < body
        && dag[body as int].srcs[2] < body);
    lemma_arity(dag, condition);
    assert(dag[condition as int].srcs[0] < condition && dag[condition as int].srcs[1] < condition);
    lemma_width_counts_steps(end, w.0, w.1);
    if end > 0 {
        let last = step_at(at, dag[range as int].op, end - 1);
        lemma_factored_sum(dag, body, range, (end - 1) as nat, at);
        lemma_width_counts_steps((end - 1) as nat, w.0, w.1);
        lemma_meaning(dag, body, last);
        lemma_meaning(dag, condition, last);
        lemma_meaning(dag, node.srcs[1], last);
        lemma_meaning(dag, node.srcs[2], last);
        lemma_window_decides(dag, bounded, range, last);
        lemma_meaning_ignores(dag, free, dag[range as int].op, end - 1, at);
        lemma_both_hold();
        assert(f(end - 1) == Some(
            if meaning(dag, free, at) == Some(1int) && w.0 <= end - 1 < w.1 {
                n
            } else {
                0int
            },
        ));
        let before = steps_in((end - 1) as nat, w.0, w.1) as int;
        assert(n * (before + 1) == n * before + n) by (nonlinear_arith);
    } else {
        assert(n * 0 == 0);
    }
}

/// What a reduction collapses to, if anything. Over loops that its value does
/// not read it is the value as often as they run, and the least of equal values
/// is that value. A sum over one loop that its value reads may collapse too.
pub open spec fn collapsed_reduce(dag: Seq<NodeView>, id: usize) -> Option<Built> {
    let node = dag[id as int];
    match node.op {
        Op::Reduce(op) => {
            let src = node.srcs[0];
            let ranges = node.srcs.skip(1);
            if ranges.len() == 0 || !all_ranges(dag, ranges) {
                None
            } else if tied(dag, src, ranges).len() == 0 {
                if op == ReduceOp::Min {
                    Some(Built { dag, id: src })
                } else {
                    unparented(dag, id)
                }
            } else if op == ReduceOp::Add && ranges.len() == 1 {
                collapsed_sum(dag, src, ranges[0])
            } else {
                None
            }
        },
        _ => None,
    }
}

/// Collapses a reduction to a value without its loops, where it can; see
/// `collapsed_reduce`.
pub fn reduce_collapse(graph: &mut Graph, id: usize) -> (new: Option<usize>)
    requires
        old(graph).wf(),
        id < old(graph)@.len(),
    ensures
        made(old(graph)@, *final(graph), collapsed_reduce(old(graph)@, id), new),
{
    proof {
        lemma_arity(graph@, id);
    }
    let op: ReduceOp = match graph.op(id) {
        Op::Reduce(op) => op,
        _ => {
            return None;
        },
    };
    let list = sources(graph, id);
    let src: usize = list[0];
    let ranges = tail(&list);
    assert forall|k: int| 0 <= k < ranges@.len() implies (#[trigger] ranges@[k])
        < graph@.len() by {
        assert(ranges@[k] == list@[k + 1]);
    }
    if ranges.len() == 0 || !are_ranges(graph, &ranges) {
        return None;
    }
    if sort_out(graph, src, &ranges, true).len() == 0 {
        return match op {
            ReduceOp::Min => Some(src),
            _ => reduce_unparented(graph, id),
        };
    }
    match op {
        ReduceOp::Add => {
            if ranges.len() == 1 {
                reduce_load_collapse(graph, src, ranges[0])
            } else {
                None
            }
        },
        _ => None,
    }
}

/// A value at an offset of a loop counter means the counter plus the offset.
pub proof fn lemma_offset_means(
    dag: Seq<NodeView>,
    id: usize,
    range: usize,
    end: int,
    at: spec_fn(Op) -> int,
)
    requires
        dag_wf(dag),
        id < dag.len(),
        range < dag.len(),
        dag[range as int].op is Range,
        offset_of(dag, id, range, end) is Some,
    ensures
        meaning(dag, id, at) == Some(
            at(dag[range as int].op) + offset_of(dag, id, range, end).unwrap(),
        ),
    decreases id,
{
    let node = dag[id as int];
    lemma_arity(dag, id);
    lemma_meaning(dag, id, at);
    if id != range {
        assert(dag[id as int].srcs[0] < id);
        if node.op is Cast {
            lemma_offset_means(dag, node.srcs[0], range, end, at);
        } else {
            assert(dag[id as int].srcs[1] < id);
            lemma_meaning(dag, node.srcs[0], at);
            lemma_meaning(dag, node.srcs[1], at);
            if int_of(dag, node.srcs[1]) is Some {
                lemma_offset_means(dag, node.srcs[0], range, end, at);
            } else {
                lemma_offset_means(dag, node.srcs[1], range, end, at);
            }
        }
    }
}

/// Whether a value reads the axis of a loop through this loop alone.
pub open spec fn reads_alone(dag: Seq<NodeView>, id: usize, range: usize) -> bool {
    forall|x: usize|
        reaches(dag, id, x) && (#[trigger] dag[x as int]).op == dag[range as int].op ==> x == range
}

proof fn lemma_source_reads_alone(dag: Seq<NodeView>, id: usize, k: int, range: usize)
    requires
        dag_wf(dag),
        id < dag.len(),
        0 <= k < dag[id as int].srcs.len(),
        reads_alone(dag, id, range),
    ensures
        reads_alone(dag, dag[id as int].srcs[k], range),
        dag[id as int].srcs[k] < id,
{
    let src = dag[id as int].srcs[k];
    assert(src < id);
    assert(reaches(dag, src, src));
    assert(reaches(dag, id, src));
    assert forall|x: usize|
        reaches(dag, src, x) && (#[trigger] dag[x as int]).op == dag[range as int].op implies x
        == range by {
        lemma_reaches_transitive(dag, id, src, x);
    }
}

/// A sum of values of which at most one is not zero is that value.
proof fn lemma_tallied_one(n: nat, f: spec_fn(int) -> Option<int>, j: int)
    requires
        forall|i: int| 0 <= i < n && i != j && (#[trigger] f(i)) is Some ==> f(i) == Some(0int),
    ensures
        tallied(ReduceOp::Add, n, f) matches Some(total) ==> (if 0 <= j < n {
            f(j) == Some(total)
        } else {
            total == 0
        }),
        tallied(ReduceOp::Add, n, f) is Some ==> forall|i: int|
            0 <= i < n ==> (#[trigger] f(i)) is Some,
    decreases n,
{
    if n > 0 {
        lemma_tallied_one((n - 1) as nat, f, j);
        if f(n - 1) is Some && n - 1 != j {
            assert(f(n - 1) == Some(0int));
        }
    }
}

/// What is chosen by a step that lies within a loop.
proof fn lemma_within(
    dag: Seq<NodeView>,
    dtype: DType,
    step: usize,
    end: i64,
    value: usize,
    other: usize,
    at: spec_fn(Op) -> int,
)
    requires
        dag_wf(dag),
        step < dag.len(),
        value < dag.len(),
        other < dag.len(),
        meaning(dag, step, at) is Some,
        within(dag, dtype, step, end, value, other).dag.len() <= usize::MAX,
    ensures
        ({
            let new = within(dag, dtype, step, end, value, other);
            meaning(new.dag, new.id, at) == if 0 <= meaning(dag, step, at).unwrap() < end {
                meaning(dag, value, at)
            } else {
                meaning(dag, other, at)
            }
        }),
{
    let kind = dag[step as int].dtype;
    let zero = put(dag, const_node(ConstValue::Int(0), kind));
    lemma_interned_keeps(dag, const_node(ConstValue::Int(0), kind));
    let less = pair_node(BinaryOp::Lt, DType::Bool, step, zero.id);
    let below = put(zero.dag, less);
    lemma_interned_keeps(zero.dag, less);
    let size = put(below.dag, const_node(ConstValue::Int(end), kind));
    lemma_interned_keeps(below.dag, const_node(ConstValue::Int(end), kind));
    let more = pair_node(BinaryOp::Lt, DType::Bool, step, size.id);
    let inside = put(size.dag, more);
    lemma_interned_keeps(size.dag, more);
    let first = where_node(dtype, inside.id, value, other);
    let chosen = put(inside.dag, first);
    lemma_interned_keeps(inside.dag, first);
    let last = where_node(dtype, below.id, other, chosen.id);
    lemma_interned_keeps(chosen.dag, last);
    lemma_put_meaning(dag, const_node(ConstValue::Int(0), kind), at);
    lemma_meaning_extends(dag, zero.dag, step, at);
    lemma_put_meaning(zero.dag, less, at);
    lemma_put_meaning(below.dag, const_node(ConstValue::Int(end), kind), at);
    lemma_meaning_extends(zero.dag, below.dag, step, at);
    lemma_meaning_extends(below.dag, size.dag, step, at);
    lemma_put_meaning(size.dag, more, at);
    lemma_meaning_extends(dag, inside.dag, value, at);
    lemma_meaning_extends(dag, inside.dag, other, at);
    lemma_put_meaning(inside.dag, first, at);
    lemma_meaning_extends(dag, chosen.dag, other, at);
    lemma_meaning_extends(below.dag, chosen.dag, below.id, at);
    lemma_put_meaning(chosen.dag, last, at);
}

proof fn lemma_visible_reaches(dag: Seq<NodeView>, root: usize, id: usize)
    requires
        dag_wf(dag),
        root < dag.len(),
        id <= root,
        visible(dag, root, id),
    ensures
        reaches(dag, root, id),
    decreases root - id,
{
    if id != root {
        let (p, k) = choose|p: usize, k: int|
            #![trigger dag[p as int].srcs[k]]
            id < p <= root && 0 <= k < dag[p as int].srcs.len() && dag[p as int].srcs[k] == id
                && !is_body(dag[p as int].op, k) && visible(dag, root, p);
        lemma_visible_reaches(dag, root, p);
        assert(dag[p as int].srcs[k] == id);
        assert(reaches(dag, id, id));
        assert(reaches(dag, p, id));
        lemma_reaches_transitive(dag, root, p, id);
    }
}

/// A value with another node in the place of a loop counter means what it meant
/// at the step that the node is.
proof fn lemma_counter_replaced(
    dag: Seq<NodeView>,
    value: usize,
    range: usize,
    counter: usize,
    j: int,
    at: spec_fn(Op) -> int,
)
    requires
        dag_wf(dag),
        value < dag.len(),
        range < dag.len(),
        counter < dag.len(),
        dag[range as int].op is Range,
        reads_alone(dag, value, range),
        meaning(dag, counter, at) == Some(j),
        substituted(dag, value, seq![(range, counter)]).dag.len() <= usize::MAX,
    ensures
        ({
            let new = substituted(dag, value, seq![(range, counter)]);
            &&& dag_wf(new.dag)
            &&& extends(dag, new.dag)
            &&& new.id < new.dag.len()
            &&& meaning(new.dag, new.id, at) == meaning(
                dag,
                value,
                step_at(at, dag[range as int].op, j),
            )
        }),
{
    let pairs = seq![(range, counter)];
    let then = step_at(at, dag[range as int].op, j);
    assert forall|x: usize| #[trigger] visible(dag, value, x) implies match lookup(pairs, x) {
        Some(new) => new < dag.len() && meaning(dag, new, at) == meaning(dag, x, then),
        None => is_leaf(dag[x as int].op) ==> at(dag[x as int].op) == then(dag[x as int].op),
    } by {
        assert(pairs.last() == (range, counter));
        assert(pairs.drop_last() =~= Seq::<(usize, usize)>::empty());
        if x == range {
            lemma_meaning(dag, range, then);
        } else {
            assert(lookup(pairs.drop_last(), x) is None);
            lemma_visible_reaches(dag, value, x);
            assert(dag[x as int].op != dag[range as int].op);
        }
    }
    lemma_substitution_means(dag, value, pairs, at, then);
}

proof fn lemma_within_grows(
    dag: Seq<NodeView>,
    dtype: DType,
    step: usize,
    end: i64,
    value: usize,
    other: usize,
)
    ensures
        dag.len() <= within(dag, dtype, step, end, value, other).dag.len(),
{
    let kind = dag[step as int].dtype;
    let zero = put(dag, const_node(ConstValue::Int(0), kind));
    let less = pair_node(BinaryOp::Lt, DType::Bool, step, zero.id);
    let below = put(zero.dag, less);
    let size = put(below.dag, const_node(ConstValue::Int(end), kind));
    let more = pair_node(BinaryOp::Lt, DType::Bool, step, size.id);
    let inside = put(size.dag, more);
    let first = where_node(dtype, inside.id, value, other);
    let chosen = put(inside.dag, first);
    lemma_interned_keeps(dag, const_node(ConstValue::Int(0), kind));
    lemma_interned_keeps(zero.dag, less);
    lemma_interned_keeps(below.dag, const_node(ConstValue::Int(end), kind));
    lemma_interned_keeps(size.dag, more);
    lemma_interned_keeps(inside.dag, first);
    lemma_interned_keeps(chosen.dag, where_node(dtype, below.id, other, chosen.id));
}

/// The step that an index picks, and the counter that stands for it, mean the
/// index less the offset.
proof fn lemma_step_means(
    dag: Seq<NodeView>,
    index: usize,
    offset: int,
    range: usize,
    at: spec_fn(Op) -> int,
)
    requires
        dag_wf(dag),
        index < dag.len(),
        range < dag.len(),
        i64::MIN <= offset <= i64::MAX,
        extremes(dag[range as int].dtype) is Some,
        meaning(dag, index, at) is Some,
        ({
            let step = step_node(dag, index, offset);
            counter_node(step.dag, step.id, range).dag.len() <= usize::MAX
        }),
    ensures
        ({
            let step = step_node(dag, index, offset);
            let counter = counter_node(step.dag, step.id, range);
            let want = Some(meaning(dag, index, at).unwrap() - offset);
            &&& dag_wf(counter.dag)
            &&& extends(dag, counter.dag)
            &&& step.id < counter.dag.len()
            &&& counter.id < counter.dag.len()
            &&& meaning(counter.dag, step.id, at) == want
            &&& meaning(counter.dag, counter.id, at) == want
        }),
{
    let kind = dag[index as int].dtype;
    let step = step_node(dag, index, offset);
    let cast = cast_node(step.id, step.dag[range as int].dtype);
    lemma_interned_keeps(step.dag, cast);
    if offset != 0 {
        let c = const_node(ConstValue::Int(offset as i64), kind);
        let held = put(dag, c);
        let minus = pair_node(BinaryOp::Sub, kind, index, held.id);
        lemma_interned_keeps(dag, c);
        lemma_interned_keeps(held.dag, minus);
        lemma_put_meaning(dag, c, at);
        lemma_meaning_extends(dag, held.dag, index, at);
        lemma_put_meaning(held.dag, minus, at);
    }
    assert(step.dag[range as int] == dag[range as int]);
    if step.dag[step.id as int].dtype != step.dag[range as int].dtype {
        lemma_put_meaning(step.dag, cast, at);
        lemma_meaning_extends(step.dag, put(step.dag, cast).dag, step.id, at);
    }
}

/// At each step of a loop, a value that is guarded by an equality with the loop
/// counter is the value where the equality holds, and what else is chosen where
/// it does not.
proof fn lemma_guarded_step(
    dag: Seq<NodeView>,
    body: usize,
    range: usize,
    i: int,
    at: spec_fn(Op) -> int,
)
    requires
        dag_wf(dag),
        body < dag.len(),
        range < dag.len(),
        dag[range as int].op is Range,
        reads_alone(dag, body, range),
        picked_sum(dag, body, range) is Some,
    ensures
        ({
            let end = range_size(dag, range).unwrap() as int;
            let pick = compared(dag, dag[body as int].srcs[0], range, end).unwrap();
            let now = step_at(at, dag[range as int].op, i);
            meaning(dag, body, now) == match meaning(dag, pick.0, at) {
                Some(v) => if v - pick.1 == i {
                    meaning(dag, branches(dag, body).0, now)
                } else {
                    meaning(dag, branches(dag, body).1, now)
                },
                None => None,
            }
        }),
{
    let node = dag[body as int];
    let condition = node.srcs[0];
    let axis = dag[range as int].op;
    let end = range_size(dag, range).unwrap() as int;
    let now = step_at(at, axis, i);
    lemma_arity(dag, body);
    lemma_meaning(dag, body, now);
    lemma_source_reads_alone(dag, body, 0, range);
    lemma_arity(dag, condition);
    lemma_meaning(dag, condition, now);
    lemma_source_reads_alone(dag, condition, 0, range);
    lemma_source_reads_alone(dag, condition, 1, range);
    let a = dag[condition as int].srcs[0];
    let b = dag[condition as int].srcs[1];
    let pick = compared(dag, condition, range, end).unwrap();
    assert forall|x: usize| reaches(dag, pick.0, x) implies (#[trigger] dag[x as int]).op
        != axis by {}
    lemma_meaning_ignores(dag, pick.0, axis, i, at);
    if offset_of(dag, a, range, end) is Some {
        lemma_offset_means(dag, a, range, end, now);
    } else {
        lemma_offset_means(dag, b, range, end, now);
    }
}

/// The sum over a loop of a value that is guarded by an equality with the loop
/// counter is what is put in its place. A loop that never runs sums up to zero
/// only where what is compared, and the zero itself, mean something.
pub proof fn lemma_picked_sum(
    dag: Seq<NodeView>,
    body: usize,
    range: usize,
    at: spec_fn(Op) -> int,
)
    requires
        dag_wf(dag),
        body < dag.len(),
        range < dag.len(),
        dag[range as int].op is Range,
        reads_alone(dag, body, range),
        picked_sum(dag, body, range) matches Some(new) && new.dag.len() <= usize::MAX,
        ({
            let end = range_size(dag, range).unwrap() as int;
            let pick = compared(dag, dag[body as int].srcs[0], range, end).unwrap();
            end > 0 || (meaning(dag, pick.0, at) is Some && meaning(
                dag,
                branches(dag, body).1,
                at,
            ) is Some)
        }),
    ensures
        ({
            let new = picked_sum(dag, body, range).unwrap();
            let end = range_size(dag, range).unwrap() as nat;
            tallied(
                ReduceOp::Add,
                end,
                |i: int| meaning(dag, body, step_at(at, dag[range as int].op, i)),
            ) matches Some(total) ==> meaning(new.dag, new.id, at) == Some(total)
        }),
{
    let node = dag[body as int];
    let axis = dag[range as int].op;
    let end = range_size(dag, range).unwrap();
    let pick = compared(dag, node.srcs[0], range, end as int).unwrap();
    let value = branches(dag, body).0;
    let other = branches(dag, body).1;
    let f = |i: int| meaning(dag, body, step_at(at, axis, i));
    lemma_arity(dag, body);
    lemma_source_reads_alone(dag, body, 0, range);
    lemma_source_reads_alone(dag, body, 1, range);
    lemma_source_reads_alone(dag, body, 2, range);
    lemma_arity(dag, node.srcs[0]);
    lemma_source_reads_alone(dag, node.srcs[0], 0, range);
    lemma_source_reads_alone(dag, node.srcs[0], 1, range);
    assert forall|i: int| #[trigger]
        f(i) == match meaning(dag, pick.0, at) {
            Some(v) => if v - pick.1 == i {
                meaning(dag, value, step_at(at, axis, i))
            } else {
                meaning(dag, other, step_at(at, axis, i))
            },
            None => None,
        } by {
        lemma_guarded_step(dag, body, range, i, at);
    }
    assert forall|then: spec_fn(Op) -> int| #[trigger] meaning(dag, other, then) is Some implies
        meaning(dag, other, then) == Some(0int) by {
        lemma_meaning(dag, other, then);
    }
    if tallied(ReduceOp::Add, end as nat, f) is Some {
        if meaning(dag, pick.0, at) is None {
            lemma_tallied_one(end as nat, f, 0);
            assert(f(0) is Some);
        }
        let j = meaning(dag, pick.0, at).unwrap() - pick.1;
        lemma_tallied_one(end as nat, f, j);
        let step = step_node(dag, pick.0, pick.1);
        let counter = counter_node(step.dag, step.id, range);
        let put_in = substituted(counter.dag, value, seq![(range, counter.id)]);
        lemma_within_grows(put_in.dag, node.dtype, step.id, end, put_in.id, other);
        lemma_offset_fits(dag, node.srcs[0], range, end as int);
        lemma_substituted_grows(counter.dag, value, seq![(range, counter.id)]);
        lemma_step_means(dag, pick.0, pick.1, range, at);
        assert forall|x: usize|
            reaches(counter.dag, value, x) && (#[trigger] counter.dag[x as int]).op
                == counter.dag[range as int].op implies x == range by {
            lemma_reaches_extends(dag, counter.dag, value, x);
            lemma_reaches_below(dag, value, x);
            assert(counter.dag[x as int] == dag[x as int]);
            assert(counter.dag[range as int] == dag[range as int]);
        }
        lemma_counter_replaced(counter.dag, value, range, counter.id, j, at);
        lemma_meaning_extends(counter.dag, put_in.dag, step.id, at);
        lemma_meaning_extends(dag, counter.dag, value, step_at(at, axis, j));
        lemma_meaning_extends(dag, put_in.dag, other, at);
        lemma_within(put_in.dag, node.dtype, step.id, end, put_in.id, other, at);
        if !(0 <= j < end) && end > 0 {
            assert(f(0) is Some);
            assert(f(0) == meaning(dag, other, step_at(at, axis, 0)));
            lemma_meaning(dag, other, at);
            lemma_meaning(dag, other, step_at(at, axis, 0));
        }
        if 0 <= j < end {
            assert(f(j) == meaning(dag, value, step_at(at, axis, j)));
        }
    }
}

/// The offset of a comparison fits in 64 bits.
proof fn lemma_offset_fits(dag: Seq<NodeView>, id: usize, range: usize, end: int)
    requires
        compared(dag, id, range, end) is Some,
    ensures
        i64::MIN <= compared(dag, id, range, end).unwrap().1 <= i64::MAX,
{
    lemma_one_offset_fits(dag, dag[id as int].srcs[0], range, end);
    lemma_one_offset_fits(dag, dag[id as int].srcs[1], range, end);
}

proof fn lemma_one_offset_fits(dag: Seq<NodeView>, id: usize, range: usize, end: int)
    ensures
        offset_of(dag, id, range, end) matches Some(k) ==> i64::MIN <= k <= i64::MAX,
    decreases id,
{
    let node = dag[id as int];
    if id != range && node.op is Cast && node.srcs[0] < id {
        lemma_one_offset_fits(dag, node.srcs[0], range, end);
    }
}

/// Whether a node is a truth value where it means anything.
pub open spec fn is_truth(dag: Seq<NodeView>, id: usize, at: spec_fn(Op) -> int) -> bool {
    meaning(dag, id, at) matches Some(n) ==> n == 0 || n == 1
}

/// A product with a truth value is the choice that is put in its place.
pub proof fn lemma_chosen_product(dag: Seq<NodeView>, id: usize, at: spec_fn(Op) -> int)
    requires
        dag_wf(dag),
        id < dag.len(),
        is_whole(dag[id as int].dtype),
        forall|g: usize| g < id && (#[trigger] dag[g as int]).dtype == DType::Bool ==> is_truth(
            dag,
            g,
            at,
        ),
        chosen_product(dag, id).dag.len() <= usize::MAX,
    ensures
        ({
            let new = chosen_product(dag, id);
            &&& dag_wf(new.dag)
            &&& extends(dag, new.dag)
            &&& new.id < new.dag.len()
            &&& stands_for(dag, id, new.dag, new.id, at)
        }),
{
    let node = dag[id as int];
    lemma_arity(dag, id);
    lemma_meaning(dag, id, at);
    if node.op == Op::Binary(BinaryOp::Mul) {
        let (a, b) = (node.srcs[0], node.srcs[1]);
        assert(dag[id as int].srcs[0] < id && dag[id as int].srcs[1] < id);
        lemma_arity(dag, a);
        lemma_arity(dag, b);
        lemma_meaning(dag, a, at);
        lemma_meaning(dag, b, at);
        let zero = const_node(zero_of(node.dtype), node.dtype);
        lemma_interned_keeps(dag, zero);
        match (truth_of(dag, b), truth_of(dag, a)) {
            (Some(guard), _) => {
                assert(dag[b as int].srcs[0] < b);
                assert(dag[guard as int].dtype == DType::Bool);
                lemma_choice(dag, node.dtype, guard, a, at);
                let x = meaning(dag, a, at).unwrap();
                assert(x * 0 == 0 && x * 1 == x);
            },
            (None, Some(guard)) => {
                assert(dag[a as int].srcs[0] < a);
                assert(dag[guard as int].dtype == DType::Bool);
                lemma_choice(dag, node.dtype, guard, b, at);
                let x = meaning(dag, b, at).unwrap();
                assert(0 * x == 0 && 1 * x == x);
            },
            _ => {},
        }
    }
}

proof fn lemma_choice(
    dag: Seq<NodeView>,
    dtype: DType,
    guard: usize,
    value: usize,
    at: spec_fn(Op) -> int,
)
    requires
        dag_wf(dag),
        is_whole(dtype),
        guard < dag.len(),
        value < dag.len(),
        choice(dag, dtype, guard, value).dag.len() <= usize::MAX,
    ensures
        ({
            let new = choice(dag, dtype, guard, value);
            &&& dag_wf(new.dag)
            &&& extends(dag, new.dag)
            &&& new.id < new.dag.len()
            &&& meaning(new.dag, new.id, at) == match meaning(dag, guard, at) {
                Some(c) => if c != 0 {
                    meaning(dag, value, at)
                } else {
                    Some(0int)
                },
                None => None,
            }
        }),
{
    let zero = const_node(zero_of(dtype), dtype);
    let held = put(dag, zero);
    let last = where_node(dtype, guard, value, held.id);
    lemma_interned_keeps(dag, zero);
    lemma_interned_keeps(held.dag, last);
    lemma_put_meaning(dag, zero, at);
    lemma_meaning_extends(dag, held.dag, guard, at);
    lemma_meaning_extends(dag, held.dag, value, at);
    lemma_put_meaning(held.dag, last, at);
}

/// The sum over a loop of a value that reads no loop is what is put in its
/// place. A loop that never runs sums up to zero only where the value means
/// something.
pub proof fn lemma_repeated_sum(
    dag: Seq<NodeView>,
    body: usize,
    range: usize,
    at: spec_fn(Op) -> int,
)
    requires
        dag_wf(dag),
        body < dag.len(),
        range < dag.len(),
        is_whole(dag[body as int].dtype),
        forall|g: usize| g < body && (#[trigger] dag[g as int]).dtype == DType::Bool ==> is_truth(
            dag,
            g,
            at,
        ),
        repeated_sum(dag, body, range) matches Some(new) && new.dag.len() <= usize::MAX,
        range_size(dag, range) matches Some(n) && (n > 0 || n == 0 && meaning(
            dag,
            body,
            at,
        ) is Some),
    ensures
        ({
            let new = repeated_sum(dag, body, range).unwrap();
            let end = range_size(dag, range).unwrap() as nat;
            tallied(
                ReduceOp::Add,
                end,
                |i: int| meaning(dag, body, step_at(at, dag[range as int].op, i)),
            ) matches Some(total) ==> meaning(new.dag, new.id, at) == Some(total)
        }),
{
    let axis = dag[range as int].op;
    let dtype = dag[body as int].dtype;
    let n = range_size(dag, range).unwrap();
    let extent = dag[range as int].srcs[0];
    let f = |i: int| meaning(dag, body, step_at(at, axis, i));
    lemma_arity(dag, range);
    assert(dag[range as int].srcs[0] < range);
    assert forall|i: int| #[trigger] f(i) == meaning(dag, body, at) by {
        assert forall|x: usize| reaches(dag, body, x) implies (#[trigger] dag[x as int]).op
            != axis by {}
        lemma_meaning_ignores(dag, body, axis, i, at);
    }
    if n > 0 {
        lemma_tallied_constant(ReduceOp::Add, n as nat, meaning(dag, body, at), f);
    } else {
        assert(meaning(dag, body, at).unwrap() * 0 == 0);
    }
    let value = chosen_product(dag, body);
    let count = cast_node(extent, dtype);
    let counted = put(value.dag, count);
    let times = pair_node(BinaryOp::Mul, dtype, value.id, counted.id);
    lemma_interned_keeps(value.dag, count);
    lemma_interned_keeps(counted.dag, times);
    lemma_chosen_product(dag, body, at);
    lemma_meaning(dag, extent, at);
    lemma_meaning_extends(dag, value.dag, extent, at);
    lemma_put_meaning(value.dag, count, at);
    lemma_meaning_extends(value.dag, counted.dag, value.id, at);
    lemma_put_meaning(counted.dag, times, at);
}

} // verus!
