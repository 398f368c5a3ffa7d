//! Expressions made simpler: constants folded, neutral operands dropped,
//! choices between a loaded value and zero made by the address, and reductions
//! rid of what does not change in them.

use vstd::prelude::*;

use crate::algebra::{
    is_absorbing, is_identity, is_identity_value, is_zero_value, lemma_absorbing_decides,
    lemma_identity_is_neutral,
};
use crate::bounds::whole;
use crate::builders::{const_node, put, Built};
use crate::collapse::{is_zero_node, zero_at};
use crate::fold::{fold_alone, value_of, word};
use crate::graph::{dag_wf, BinaryOp, ConstValue, DType, Graph, NodeView, Op, TernaryOp};
use crate::helpers::no_load_oracle;
use crate::late::{
    int_at, int_of, lemma_with_int, lemma_with_int_grows, made, put_with_int, with_int,
};
use crate::meaning::{is_whole, lemma_arity, lemma_meaning, meaning};
use crate::pad::{guarded, put_guarded};
use crate::reduce::reduce_simplify;
use crate::rounding::{INFINITY, SIGN};
use crate::topo::reaches;

verus! {

/// The constant that a node is.
pub open spec fn constant_of(dag: Seq<NodeView>, id: usize) -> Option<ConstValue> {
    match dag[id as int].op {
        Op::Const(value) => Some(value),
        _ => None,
    }
}

/// The operand that an operation with a neutral constant is.
pub open spec fn neutral_rest(dag: Seq<NodeView>, id: usize) -> Option<usize> {
    let node = dag[id as int];
    match node.op {
        Op::Binary(op) => {
            let left = node.srcs[0];
            let right = node.srcs[1];
            if (constant_of(dag, right) matches Some(value) && is_identity(value, op, true))
                && dag[left as int].dtype == node.dtype {
                Some(left)
            } else if (constant_of(dag, left) matches Some(value) && is_identity(value, op, false))
                && dag[right as int].dtype == node.dtype {
                Some(right)
            } else {
                None
            }
        },
        _ => None,
    }
}

/// The constant that an operation on whole numbers is, whatever the other
/// operand is.
pub open spec fn absorbing_side(dag: Seq<NodeView>, id: usize) -> Option<usize> {
    let node = dag[id as int];
    match node.op {
        Op::Binary(op) => {
            let left = node.srcs[0];
            let right = node.srcs[1];
            if !is_whole(node.dtype) {
                None
            } else if (constant_of(dag, right) matches Some(value) && is_absorbing(value, op))
                && dag[right as int].dtype == node.dtype {
                Some(right)
            } else if (constant_of(dag, left) matches Some(value) && is_absorbing(value, op))
                && dag[left as int].dtype == node.dtype {
                Some(left)
            } else {
                None
            }
        },
        _ => None,
    }
}

/// Whether nothing at or below a node is an address.
pub open spec fn reads_nothing(dag: Seq<NodeView>, id: usize) -> bool {
    forall|x: usize| #[trigger] reaches(dag, id, x) ==> !(dag[x as int].op is Index)
}

/// A choice between what stands at an address and zero, by a condition that
/// reads nothing: the address is valid where the condition holds.
pub open spec fn chosen_by_address(dag: Seq<NodeView>, id: usize) -> Option<Built> {
    let node = dag[id as int];
    if node.op == Op::Ternary(TernaryOp::Where) && dag[node.srcs[1] as int].op is Index
        && dag[node.srcs[1] as int].srcs.len() == 2 && is_zero_node(dag, node.srcs[2])
        && reads_nothing(dag, node.srcs[0]) {
        let access = dag[node.srcs[1] as int];
        let index = guarded(dag, access.srcs[1], node.srcs[0]);
        Some(
            put(
                index.dag,
                NodeView {
                    op: Op::Index,
                    dtype: access.dtype,
                    srcs: seq![access.srcs[0], index.id],
                },
            ),
        )
    } else {
        None
    }
}

/// Where a float stands among all floats; both zeros stand at one place.
pub open spec fn float_place(bits: u64) -> int {
    if bits >= SIGN {
        SIGN - bits
    } else {
        bits as int
    }
}

/// Whether bits encode no number.
pub open spec fn is_not_a_number(bits: u64) -> bool {
    if bits >= SIGN {
        bits - SIGN > INFINITY
    } else {
        bits > INFINITY
    }
}

/// What a comparison of two floats says.
pub open spec fn float_verdict(op: BinaryOp, a: u64, b: u64) -> Option<bool> {
    let numbers = !is_not_a_number(a) && !is_not_a_number(b);
    match op {
        BinaryOp::Lt => Some(numbers && float_place(a) < float_place(b)),
        BinaryOp::Eq => Some(numbers && float_place(a) == float_place(b)),
        BinaryOp::Ne => Some(!numbers || float_place(a) != float_place(b)),
        _ => None,
    }
}

/// What a node says that compares two float constants.
pub open spec fn verdict_of(dag: Seq<NodeView>, id: usize) -> Option<bool> {
    let node = dag[id as int];
    match node.op {
        Op::Binary(op) => match (constant_of(dag, node.srcs[0]), constant_of(dag, node.srcs[1])) {
            (Some(ConstValue::Float(a)), Some(ConstValue::Float(b))) => float_verdict(op, a, b),
            _ => None,
        },
        _ => None,
    }
}

/// What a node is made simpler to, if anything.
pub open spec fn simplified(dag: Seq<NodeView>, id: usize) -> Option<Built> {
    let node = dag[id as int];
    if node.op is Const {
        None
    } else {
        match value_of(dag, Map::empty(), id) {
            Some(value) => Some(put(dag, const_node(value, node.dtype))),
            None => match verdict_of(dag, id) {
                Some(verdict) => Some(
                    put(dag, const_node(ConstValue::Bool(verdict), node.dtype)),
                ),
                None => match neutral_rest(dag, id) {
                    Some(rest) => Some(Built { dag, id: rest }),
                    None => match absorbing_side(dag, id) {
                        Some(side) => Some(Built { dag, id: side }),
                        None => match chosen_by_address(dag, id) {
                            Some(built) => Some(built),
                            None => crate::reduce::simplified(dag, id),
                        },
                    },
                },
            },
        }
    }
}

fn constant_at(graph: &Graph, id: usize) -> (value: Option<ConstValue>)
    requires
        id < graph@.len(),
    ensures
        value == constant_of(graph@, id),
{
    match graph.op(id) {
        Op::Const(value) => Some(value),
        _ => None,
    }
}

fn find_place(bits: u64) -> (place: i128)
    ensures
        place == float_place(bits),
{
    if bits >= SIGN {
        SIGN as i128 - bits as i128
    } else {
        bits as i128
    }
}

fn not_a_number(bits: u64) -> (r: bool)
    ensures
        r == is_not_a_number(bits),
{
    if bits >= SIGN {
        bits - SIGN > INFINITY
    } else {
        bits > INFINITY
    }
}

fn find_verdict(graph: &Graph, id: usize) -> (verdict: Option<bool>)
    requires
        graph.wf(),
        id < graph@.len(),
    ensures
        verdict == verdict_of(graph@, id),
{
    proof {
        lemma_arity(graph@, id);
    }
    let op = match graph.op(id) {
        Op::Binary(op) => op,
        _ => {
            return None;
        },
    };
    match (constant_at(graph, graph.source(id, 0)), constant_at(graph, graph.source(id, 1))) {
        (Some(ConstValue::Float(a)), Some(ConstValue::Float(b))) => {
            let numbers = !not_a_number(a) && !not_a_number(b);
            let left: i128 = find_place(a);
            let right: i128 = find_place(b);
            match op {
                BinaryOp::Lt => Some(numbers && left < right),
                BinaryOp::Eq => Some(numbers && left == right),
                BinaryOp::Ne => Some(!numbers || left != right),
                _ => None,
            }
        },
        _ => None,
    }
}

fn find_neutral_rest(graph: &Graph, id: usize) -> (rest: Option<usize>)
    requires
        graph.wf(),
        id < graph@.len(),
    ensures
        rest == neutral_rest(graph@, id),
        rest matches Some(r) ==> r < id,
{
    proof {
        lemma_arity(graph@, id);
    }
    let op = match graph.op(id) {
        Op::Binary(op) => op,
        _ => {
            return None;
        },
    };
    let dtype = graph.dtype(id);
    let left: usize = graph.source(id, 0);
    let right: usize = graph.source(id, 1);
    match constant_at(graph, right) {
        Some(value) => if is_identity_value(value, op, true) && graph.dtype(left) == dtype {
            return Some(left);
        },
        None => {},
    }
    match constant_at(graph, left) {
        Some(value) => if is_identity_value(value, op, false) && graph.dtype(right) == dtype {
            return Some(right);
        },
        None => {},
    }
    None
}

fn find_absorbing_side(graph: &Graph, id: usize) -> (side: Option<usize>)
    requires
        graph.wf(),
        id < graph@.len(),
    ensures
        side == absorbing_side(graph@, id),
        side matches Some(r) ==> r < id,
{
    proof {
        lemma_arity(graph@, id);
    }
    let op = match graph.op(id) {
        Op::Binary(op) => op,
        _ => {
            return None;
        },
    };
    let dtype = graph.dtype(id);
    if !whole(dtype) {
        return None;
    }
    let left: usize = graph.source(id, 0);
    let right: usize = graph.source(id, 1);
    match constant_at(graph, right) {
        Some(value) => if is_zero_value(value, op) && graph.dtype(right) == dtype {
            return Some(right);
        },
        None => {},
    }
    match constant_at(graph, left) {
        Some(value) => if is_zero_value(value, op) && graph.dtype(left) == dtype {
            return Some(left);
        },
        None => {},
    }
    None
}

fn choose_by_address(graph: &mut Graph, id: usize) -> (new: Option<usize>)
    requires
        old(graph).wf(),
        id < old(graph)@.len(),
    ensures
        made(old(graph)@, *final(graph), chosen_by_address(old(graph)@, id), new),
{
    let ghost dag = graph@;
    proof {
        lemma_arity(dag, id);
    }
    match graph.op(id) {
        Op::Ternary(TernaryOp::Where) => {},
        _ => {
            return None;
        },
    }
    let condition: usize = graph.source(id, 0);
    let access: usize = graph.source(id, 1);
    let other: usize = graph.source(id, 2);
    if !matches!(graph.op(access), Op::Index) || graph.source_count(access) != 2 || !zero_at(
        graph,
        other,
    ) || !no_load_oracle(graph, condition) {
        return None;
    }
    let storage: usize = graph.source(access, 0);
    let index: usize = graph.source(access, 1);
    let dtype = graph.dtype(access);
    let valid: usize = put_guarded(graph, index, condition);
    Some(graph.binary(Op::Index, dtype, storage, valid))
}

/// Makes a node simpler, if it can be.
pub fn simplify(graph: &mut Graph, id: usize) -> (new: Option<usize>)
    requires
        old(graph).wf(),
        id < old(graph)@.len(),
    ensures
        made(old(graph)@, *final(graph), simplified(old(graph)@, id), new),
{
    match graph.op(id) {
        Op::Const(_) => {
            return None;
        },
        _ => {},
    }
    let dtype = graph.dtype(id);
    match fold_alone(graph, id) {
        Some(value) => {
            return Some(graph.constant(value, dtype));
        },
        None => {},
    }
    match find_verdict(graph, id) {
        Some(verdict) => {
            return Some(graph.constant(ConstValue::Bool(verdict), dtype));
        },
        None => {},
    }
    match find_neutral_rest(graph, id) {
        Some(rest) => {
            return Some(rest);
        },
        None => {},
    }
    match find_absorbing_side(graph, id) {
        Some(side) => {
            return Some(side);
        },
        None => {},
    }
    match choose_by_address(graph, id) {
        Some(new) => Some(new),
        None => reduce_simplify(graph, id),
    }
}

/// Of two numbers one is less, or they are equal, and then they do not differ.
pub proof fn lemma_floats_are_ordered(a: u64, b: u64)
    ensures
        float_verdict(BinaryOp::Ne, a, b)->0 == !float_verdict(BinaryOp::Eq, a, b)->0,
        !is_not_a_number(a) && !is_not_a_number(b) ==> float_verdict(BinaryOp::Eq, a, b)->0 == (
        !float_verdict(BinaryOp::Lt, a, b)->0 && !float_verdict(BinaryOp::Lt, b, a)->0),
{
}

/// Dropping a neutral operand keeps the word that an expression means, and an
/// absorbing operand is all that it means.
pub proof fn lemma_simplified_means(dag: Seq<NodeView>, id: usize, at: spec_fn(Op) -> int)
    requires
        dag_wf(dag),
        id < dag.len(),
        is_whole(dag[id as int].dtype),
        neutral_rest(dag, id) is Some || absorbing_side(dag, id) is Some,
        value_of(dag, Map::empty(), id) is None,
        meaning(dag, id, at) is Some,
    ensures
        ({
            let new = simplified(dag, id)->0;
            &&& simplified(dag, id) is Some
            &&& meaning(new.dag, new.id, at) is Some
            &&& word(meaning(new.dag, new.id, at)->0) == word(meaning(dag, id, at)->0)
        }),
{
    let node = dag[id as int];
    lemma_arity(dag, id);
    lemma_meaning(dag, id, at);
    match node.op {
        Op::Binary(op) => {
            let left = node.srcs[0];
            let right = node.srcs[1];
            assert(dag[id as int].srcs[0] < id && dag[id as int].srcs[1] < id);
            lemma_meaning(dag, left, at);
            lemma_meaning(dag, right, at);
            let x = meaning(dag, left, at)->0;
            let y = meaning(dag, right, at)->0;
            match constant_of(dag, right) {
                Some(ConstValue::Int(n)) => {
                    if is_identity(ConstValue::Int(n), op, true) && op != BinaryOp::Fdiv {
                        lemma_identity_is_neutral(n, op, true, x);
                    }
                    if is_absorbing(ConstValue::Int(n), op) {
                        lemma_absorbing_decides(n, op, x);
                    }
                },
                _ => {},
            }
            match constant_of(dag, left) {
                Some(ConstValue::Int(n)) => {
                    if is_identity(ConstValue::Int(n), op, false) && op != BinaryOp::Fdiv {
                        lemma_identity_is_neutral(n, op, false, y);
                    }
                    if is_absorbing(ConstValue::Int(n), op) {
                        lemma_absorbing_decides(n, op, y);
                    }
                },
                _ => {},
            }
        },
        _ => {},
    }
}

/// A weak sum with a constant, times a constant: the product with each of them.
pub open spec fn distributed(dag: Seq<NodeView>, id: usize) -> Option<Built> {
    let node = dag[id as int];
    if node.op == Op::Binary(BinaryOp::Mul) && node.dtype == DType::WeakInt {
        let sum = dag[node.srcs[0] as int];
        match (sum.op, int_of(dag, node.srcs[1])) {
            (Op::Binary(BinaryOp::Add), Some(factor)) => match int_of(dag, sum.srcs[1]) {
                Some(constant) => if i64::MIN <= constant * factor <= i64::MAX {
                    let product = with_int(
                        dag,
                        BinaryOp::Mul,
                        node.dtype,
                        sum.srcs[0],
                        factor as int,
                        id,
                    );
                    Some(
                        with_int(
                            product.dag,
                            BinaryOp::Add,
                            node.dtype,
                            product.id,
                            constant * factor,
                            id,
                        ),
                    )
                } else {
                    None
                },
                None => None,
            },
            _ => None,
        }
    } else {
        None
    }
}

/// Multiplies out a sum with a constant; see `distributed`.
pub fn distribute(graph: &mut Graph, id: usize) -> (new: Option<usize>)
    requires
        old(graph).wf(),
        id < old(graph)@.len(),
    ensures
        made(old(graph)@, *final(graph), distributed(old(graph)@, id), new),
{
    proof {
        lemma_arity(graph@, id);
    }
    let dtype = graph.dtype(id);
    match graph.op(id) {
        Op::Binary(BinaryOp::Mul) => if dtype != DType::WeakInt {
            return None;
        },
        _ => {
            return None;
        },
    }
    let sum: usize = graph.source(id, 0);
    proof {
        lemma_arity(graph@, sum);
    }
    match graph.op(sum) {
        Op::Binary(BinaryOp::Add) => {},
        _ => {
            return None;
        },
    }
    match (int_at(graph, graph.source(id, 1)), int_at(graph, graph.source(sum, 1))) {
        (Some(factor), Some(constant)) => {
            match constant.checked_mul(factor) {
                Some(whole_part) => {
                    let value: usize = graph.source(sum, 0);
                    let product: usize = put_with_int(
                        graph,
                        BinaryOp::Mul,
                        dtype,
                        value,
                        factor,
                        id,
                    );
                    Some(put_with_int(graph, BinaryOp::Add, dtype, product, whole_part, id))
                },
                None => None,
            }
        },
        _ => None,
    }
}

/// Multiplying out a sum keeps what it means.
pub proof fn lemma_distributed_means(dag: Seq<NodeView>, id: usize, at: spec_fn(Op) -> int)
    requires
        dag_wf(dag),
        id < dag.len(),
        distributed(dag, id) is Some,
        distributed(dag, id)->0.dag.len() <= usize::MAX,
        meaning(dag, id, at) is Some,
    ensures
        ({
            let new = distributed(dag, id)->0;
            meaning(new.dag, new.id, at) == meaning(dag, id, at)
        }),
{
    let node = dag[id as int];
    lemma_arity(dag, id);
    lemma_meaning(dag, id, at);
    assert(dag[id as int].srcs[0] < id && dag[id as int].srcs[1] < id);
    let sum = dag[node.srcs[0] as int];
    lemma_arity(dag, node.srcs[0]);
    lemma_meaning(dag, node.srcs[0], at);
    lemma_meaning(dag, node.srcs[1], at);
    assert(dag[node.srcs[0] as int].srcs[0] < node.srcs[0]);
    assert(dag[node.srcs[0] as int].srcs[1] < node.srcs[0]);
    lemma_meaning(dag, sum.srcs[1], at);
    let factor = int_of(dag, node.srcs[1])->0 as int;
    let constant = int_of(dag, sum.srcs[1])->0 as int;
    let x = meaning(dag, sum.srcs[0], at)->0;
    let product = with_int(dag, BinaryOp::Mul, node.dtype, sum.srcs[0], factor, id);
    lemma_with_int_grows(product.dag, BinaryOp::Add, node.dtype, product.id, constant * factor, id);
    lemma_with_int(dag, BinaryOp::Mul, node.dtype, sum.srcs[0], factor, id, at);
    lemma_with_int(
        product.dag,
        BinaryOp::Add,
        node.dtype,
        product.id,
        constant * factor,
        id,
        at,
    );
    assert((x + constant) * factor == x * factor + constant * factor) by (nonlinear_arith);
}

} // verus!
