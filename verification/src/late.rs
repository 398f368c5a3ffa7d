//! Rewrites of integer arithmetic into cheaper operations, one node at a time.

use vstd::arithmetic::power2::{
    lemma_pow2_adds, lemma_pow2_pos, lemma_pow2_strictly_increases, lemma_pow2_unfold, pow2,
};
use vstd::prelude::*;

use crate::algebra::{is_identity, is_identity_value};
use crate::bounds::{
    admits, bounds, find_bounds, lemma_admits_extends, lemma_bounds_hold, lemma_copy_admits,
    lemma_put_admits, whole,
};
use crate::builders::{const_node, lemma_interned_keeps, put, Built};
use crate::fold::{binary_number, floored_div, truncated_div, word, word_count};
use crate::graph::{dag_wf, BinaryOp, ConstValue, DType, Graph, NodeView, Op, TernaryOp, UnaryOp};
use crate::meaning::{
    is_whole, lemma_arity, lemma_congruent, lemma_meaning, lemma_meaning_extends, lemma_put_meaning,
    meaning, stands_for,
};
use crate::passes::{extends, grown, moved, rewritten, walked, with_srcs, Pass};
use crate::topo::{lemma_topo, reaches, topo};

verus! {

/// The rewrites.
#[derive(Clone, Copy, Debug, PartialEq, Eq, Structural)]
pub enum Late {
    ModToAnd,
    MulToShl,
    DivToShr,
    NegFromMul,
    Comparisons,
}

/// The integer that a constant node holds.
pub open spec fn int_of(dag: Seq<NodeView>, id: usize) -> Option<i64> {
    match dag[id as int].op {
        Op::Const(ConstValue::Int(n)) => Some(n),
        _ => None,
    }
}

/// The power of two that a number is, from two on.
pub open spec fn exponent(c: i64) -> Option<nat> {
    if exists|n: nat| 1 <= n <= 62 && #[trigger] pow2(n) == c {
        Some(choose|n: nat| 1 <= n <= 62 && #[trigger] pow2(n) == c)
    } else {
        None
    }
}

/// A node with two sources.
pub open spec fn pair_node(op: BinaryOp, dtype: DType, a: usize, b: usize) -> NodeView {
    NodeView { op: Op::Binary(op), dtype, srcs: seq![a, b] }
}

/// An operation on a value and an integer constant of the type of another
/// node.
pub open spec fn with_int(
    dag: Seq<NodeView>,
    op: BinaryOp,
    dtype: DType,
    a: usize,
    n: int,
    like: usize,
) -> Built {
    let c = put(dag, const_node(ConstValue::Int(n as i64), dag[like as int].dtype));
    put(c.dag, pair_node(op, dtype, a, c.id))
}

/// An operation on an integer constant of the type of another node and a
/// value.
pub open spec fn int_with(
    dag: Seq<NodeView>,
    op: BinaryOp,
    dtype: DType,
    n: int,
    like: usize,
    b: usize,
) -> Built {
    let c = put(dag, const_node(ConstValue::Int(n as i64), dag[like as int].dtype));
    put(c.dag, pair_node(op, dtype, c.id, b))
}

/// The operations of integer arithmetic that have a neutral right operand.
pub open spec fn is_arithmetic(op: BinaryOp) -> bool {
    op == BinaryOp::Add || op == BinaryOp::Sub || op == BinaryOp::Mul || op == BinaryOp::FloorDiv
}

/// Whether a node is arithmetic whose right operand leaves the left one alone.
pub open spec fn is_neutral(dag: Seq<NodeView>, id: usize) -> bool {
    match dag[id as int].op {
        Op::Binary(op) => is_arithmetic(op) && (int_of(dag, dag[id as int].srcs[1]) matches Some(n)
            && is_identity(ConstValue::Int(n), op, true)),
        _ => false,
    }
}

/// A remainder by a power of two is its low bits.
pub open spec fn mod_to_and(dag: Seq<NodeView>, id: usize) -> Option<Built> {
    let node = dag[id as int];
    if node.op == Op::Binary(BinaryOp::FloorMod) {
        match int_of(dag, node.srcs[1]) {
            Some(c) => match exponent(c) {
                Some(n) => Some(
                    with_int(dag, BinaryOp::And, node.dtype, node.srcs[0], c - 1, node.srcs[1]),
                ),
                None => None,
            },
            None => None,
        }
    } else {
        None
    }
}

/// A product with a power of two is a shift.
pub open spec fn mul_to_shl(dag: Seq<NodeView>, id: usize) -> Option<Built> {
    let node = dag[id as int];
    if node.op == Op::Binary(BinaryOp::Mul) {
        match int_of(dag, node.srcs[1]) {
            Some(c) => match exponent(c) {
                Some(n) => Some(
                    with_int(dag, BinaryOp::Shl, node.dtype, node.srcs[0], n as int, node.srcs[1]),
                ),
                None => None,
            },
            None => None,
        }
    } else {
        None
    }
}

/// Whether a value is known not to be negative.
pub open spec fn never_negative(dag: Seq<NodeView>, id: usize) -> bool {
    bounds(dag, id) matches Some(pair) && pair.0 >= 0
}

/// A dividend moved up where it is negative, so that rounding down is rounding
/// toward zero.
pub open spec fn biased(dag: Seq<NodeView>, x: usize, c: i64, like: usize) -> Built {
    let dtype = dag[like as int].dtype;
    let zero = put(dag, const_node(ConstValue::Int(0), dtype));
    let negative = put(zero.dag, pair_node(BinaryOp::Lt, DType::Bool, x, zero.id));
    let bias = put(negative.dag, const_node(ConstValue::Int((c - 1) as i64), dtype));
    let chosen = put(
        bias.dag,
        NodeView {
            op: Op::Ternary(TernaryOp::Where),
            dtype,
            srcs: seq![negative.id, bias.id, zero.id],
        },
    );
    put(chosen.dag, pair_node(BinaryOp::Add, dag[x as int].dtype, x, chosen.id))
}

/// A quotient by a power of two is a shift, of the biased dividend where that
/// can be negative.
pub open spec fn div_to_shr(dag: Seq<NodeView>, id: usize) -> Option<Built> {
    let node = dag[id as int];
    if node.op == Op::Binary(BinaryOp::CDiv) {
        match int_of(dag, node.srcs[1]) {
            Some(c) => match exponent(c) {
                Some(n) => {
                    let x = if never_negative(dag, node.srcs[0]) {
                        Built { dag, id: node.srcs[0] }
                    } else {
                        biased(dag, node.srcs[0], c, node.srcs[1])
                    };
                    Some(with_int(x.dag, BinaryOp::Shr, node.dtype, x.id, n as int, node.srcs[1]))
                },
                None => None,
            },
            None => None,
        }
    } else {
        None
    }
}

/// A product with minus one is a negation, and adding a negation is
/// subtracting.
pub open spec fn neg_from_mul(dag: Seq<NodeView>, id: usize) -> Option<Built> {
    let node = dag[id as int];
    if node.op == Op::Binary(BinaryOp::Mul) && int_of(dag, node.srcs[1]) == Some(-1i64) {
        Some(
            put(
                dag,
                NodeView {
                    op: Op::Unary(UnaryOp::Neg),
                    dtype: node.dtype,
                    srcs: seq![node.srcs[0]],
                },
            ),
        )
    } else if node.op == Op::Binary(BinaryOp::Add) && dag[node.srcs[1] as int].op == Op::Unary(
        UnaryOp::Neg,
    ) {
        Some(
            put(
                dag,
                pair_node(
                    BinaryOp::Sub,
                    node.dtype,
                    node.srcs[0],
                    dag[node.srcs[1] as int].srcs[0],
                ),
            ),
        )
    } else {
        None
    }
}

/// Whether a node compares two whole numbers by `<`.
pub open spec fn is_whole_less(dag: Seq<NodeView>, id: usize) -> bool {
    let node = dag[id as int];
    &&& node.op == Op::Binary(BinaryOp::Lt)
    &&& is_whole(dag[node.srcs[0] as int].dtype)
    &&& is_whole(dag[node.srcs[1] as int].dtype)
}

/// Whether a node is a product with minus one.
pub open spec fn is_negated(dag: Seq<NodeView>, id: usize) -> bool {
    let node = dag[id as int];
    node.op == Op::Binary(BinaryOp::Mul) && int_of(dag, node.srcs[1]) == Some(-1i64)
}

/// `!(x < c)` is `c - 1 < x`, and `!(c < x)` is `x < c + 1`.
pub open spec fn negated_less(dag: Seq<NodeView>, id: usize) -> Option<Built> {
    let node = dag[id as int];
    let less = dag[node.srcs[0] as int];
    if node.op == Op::Unary(UnaryOp::Not) && is_whole_less(dag, node.srcs[0]) {
        match (int_of(dag, less.srcs[0]), int_of(dag, less.srcs[1])) {
            (_, Some(c)) => if c > i64::MIN {
                Some(
                    int_with(dag, BinaryOp::Lt, node.dtype, c - 1, less.srcs[1], less.srcs[0]),
                )
            } else {
                None
            },
            (Some(c), None) => if c < i64::MAX {
                Some(
                    with_int(dag, BinaryOp::Lt, node.dtype, less.srcs[1], c + 1, less.srcs[0]),
                )
            } else {
                None
            },
            _ => None,
        }
    } else {
        None
    }
}

/// `c - 1 < x` and `x < c + 1` is `x == c`.
pub open spec fn band(dag: Seq<NodeView>, id: usize) -> Option<Built> {
    let node = dag[id as int];
    let above = dag[node.srcs[0] as int];
    let below = dag[node.srcs[1] as int];
    if node.op == Op::Binary(BinaryOp::And) && is_whole_less(dag, node.srcs[0]) && is_whole_less(
        dag,
        node.srcs[1],
    ) && above.srcs[1] == below.srcs[0] {
        match (int_of(dag, above.srcs[0]), int_of(dag, below.srcs[1])) {
            (Some(a), Some(b)) => if b - a == 2 {
                Some(
                    with_int(dag, BinaryOp::Eq, node.dtype, above.srcs[1], a + 1, above.srcs[0]),
                )
            } else {
                None
            },
            _ => None,
        }
    } else {
        None
    }
}

/// `-x < c` is `-c < x`, and `-x < y * c` is `y * -c < x`.
pub open spec fn negated_operand(dag: Seq<NodeView>, id: usize) -> Option<Built> {
    let node = dag[id as int];
    let left = dag[node.srcs[0] as int];
    let right = dag[node.srcs[1] as int];
    if is_whole_less(dag, id) && is_negated(dag, node.srcs[0]) {
        match int_of(dag, node.srcs[1]) {
            Some(c) => if c > i64::MIN {
                Some(int_with(dag, BinaryOp::Lt, node.dtype, -c, node.srcs[1], left.srcs[0]))
            } else {
                None
            },
            None => if right.op == Op::Binary(BinaryOp::Mul) {
                match int_of(dag, right.srcs[1]) {
                    Some(c) => if c > i64::MIN {
                        let scaled = with_int(
                            dag,
                            BinaryOp::Mul,
                            right.dtype,
                            right.srcs[0],
                            -c,
                            right.srcs[1],
                        );
                        Some(
                            put(
                                scaled.dag,
                                pair_node(BinaryOp::Lt, node.dtype, scaled.id, left.srcs[0]),
                            ),
                        )
                    } else {
                        None
                    },
                    None => None,
                }
            } else {
                None
            },
        }
    } else {
        None
    }
}

/// What is made of a comparison of whole numbers.
pub open spec fn comparisons(dag: Seq<NodeView>, id: usize) -> Option<Built> {
    match negated_less(dag, id) {
        Some(built) => Some(built),
        None => match band(dag, id) {
            Some(built) => Some(built),
            None => negated_operand(dag, id),
        },
    }
}

/// What a rewrite makes of one node: the left operand where the right one is
/// neutral, and else what the rewrite is for, if it applies.
pub open spec fn late_rule(late: Late, dag: Seq<NodeView>, id: usize) -> Built {
    if is_neutral(dag, id) {
        Built { dag, id: dag[id as int].srcs[0] }
    } else {
        let made = match late {
            Late::ModToAnd => mod_to_and(dag, id),
            Late::MulToShl => mul_to_shl(dag, id),
            Late::DivToShr => div_to_shr(dag, id),
            Late::NegFromMul => neg_from_mul(dag, id),
            Late::Comparisons => comparisons(dag, id),
        };
        match made {
            Some(built) => built,
            None => Built { dag, id },
        }
    }
}

pub(crate) fn int_at(graph: &Graph, id: usize) -> (n: Option<i64>)
    requires
        id < graph@.len(),
    ensures
        n == int_of(graph@, id),
{
    match graph.op(id) {
        Op::Const(ConstValue::Int(n)) => Some(n),
        _ => None,
    }
}

proof fn lemma_exponent(c: i64, n: nat)
    requires
        1 <= n <= 62,
        pow2(n) == c,
    ensures
        exponent(c) == Some(n),
{
    let m = exponent(c).unwrap();
    assert(pow2(m) == c);
    if m < n {
        lemma_pow2_strictly_increases(m, n);
    } else if n < m {
        lemma_pow2_strictly_increases(n, m);
    }
}

/// The power of two that a number is, from two on.
pub fn find_exponent(c: i64) -> (n: Option<i64>)
    ensures
        match n {
            Some(n) => 1 <= n <= 62 && exponent(c) == Some(n as nat) && pow2(n as nat) == c,
            None => exponent(c) is None,
        },
{
    let mut p: i64 = 2;
    let mut n: i64 = 1;
    proof {
        lemma_pow2_unfold(1);
        vstd::arithmetic::power2::lemma2_to64();
    }
    while n < 62
        invariant
            1 <= n <= 62,
            p == pow2(n as nat),
            forall|k: nat| 1 <= k < n ==> #[trigger] pow2(k) != c,
        decreases 62 - n,
    {
        if p == c {
            proof {
                lemma_exponent(c, n as nat);
            }
            return Some(n);
        }
        proof {
            lemma_pow2_unfold((n + 1) as nat);
            vstd::arithmetic::power2::lemma2_to64_rest();
            if n + 1 < 62 {
                lemma_pow2_strictly_increases((n + 1) as nat, 62);
            }
            assert(pow2((n + 1) as nat) == 2 * p);
        }
        p = p * 2;
        n = n + 1;
    }
    if p == c {
        proof {
            lemma_exponent(c, 62);
        }
        return Some(62);
    }
    None
}

pub(crate) fn put_pair(graph: &mut Graph, op: BinaryOp, dtype: DType, a: usize, b: usize) -> (id: usize)
    requires
        old(graph).wf(),
        a < old(graph)@.len(),
        b < old(graph)@.len(),
    ensures
        grown(old(graph)@, *final(graph), put(old(graph)@, pair_node(op, dtype, a, b)), id),
{
    let ghost dag = graph@;
    let id: usize = graph.binary(Op::Binary(op), dtype, a, b);
    proof {
        lemma_interned_keeps(dag, pair_node(op, dtype, a, b));
    }
    id
}

pub(crate) fn put_int(graph: &mut Graph, n: i64, dtype: DType) -> (id: usize)
    requires
        old(graph).wf(),
    ensures
        grown(old(graph)@, *final(graph), put(old(graph)@, const_node(ConstValue::Int(n), dtype)), id),
{
    let ghost dag = graph@;
    let id: usize = graph.constant(ConstValue::Int(n), dtype);
    proof {
        lemma_interned_keeps(dag, const_node(ConstValue::Int(n), dtype));
    }
    id
}

pub(crate) fn put_with_int(
    graph: &mut Graph,
    op: BinaryOp,
    dtype: DType,
    a: usize,
    n: i64,
    like: usize,
) -> (id: usize)
    requires
        old(graph).wf(),
        a < old(graph)@.len(),
        like < old(graph)@.len(),
    ensures
        grown(old(graph)@, *final(graph), with_int(old(graph)@, op, dtype, a, n as int, like), id),
{
    let kind = graph.dtype(like);
    let c: usize = put_int(graph, n, kind);
    put_pair(graph, op, dtype, a, c)
}

pub(crate) fn put_int_with(
    graph: &mut Graph,
    op: BinaryOp,
    dtype: DType,
    n: i64,
    like: usize,
    b: usize,
) -> (id: usize)
    requires
        old(graph).wf(),
        b < old(graph)@.len(),
        like < old(graph)@.len(),
    ensures
        grown(old(graph)@, *final(graph), int_with(old(graph)@, op, dtype, n as int, like, b), id),
{
    let kind = graph.dtype(like);
    let c: usize = put_int(graph, n, kind);
    put_pair(graph, op, dtype, c, b)
}

fn neutral(graph: &Graph, id: usize) -> (r: bool)
    requires
        graph.wf(),
        id < graph@.len(),
    ensures
        r == is_neutral(graph@, id),
{
    proof {
        lemma_arity(graph@, id);
    }
    match graph.op(id) {
        Op::Binary(op) => {
            if op != BinaryOp::Add && op != BinaryOp::Sub && op != BinaryOp::Mul && op
                != BinaryOp::FloorDiv {
                return false;
            }
            match int_at(graph, graph.source(id, 1)) {
                Some(n) => is_identity_value(ConstValue::Int(n), op, true),
                None => false,
            }
        },
        _ => false,
    }
}

fn less_of_wholes(graph: &Graph, id: usize) -> (r: bool)
    requires
        graph.wf(),
        id < graph@.len(),
    ensures
        r == is_whole_less(graph@, id),
{
    proof {
        lemma_arity(graph@, id);
    }
    match graph.op(id) {
        Op::Binary(BinaryOp::Lt) => {
            whole(graph.dtype(graph.source(id, 0))) && whole(graph.dtype(graph.source(id, 1)))
        },
        _ => false,
    }
}

fn negated(graph: &Graph, id: usize) -> (r: bool)
    requires
        graph.wf(),
        id < graph@.len(),
    ensures
        r == is_negated(graph@, id),
{
    proof {
        lemma_arity(graph@, id);
    }
    match graph.op(id) {
        Op::Binary(BinaryOp::Mul) => match int_at(graph, graph.source(id, 1)) {
            Some(n) => n == -1,
            None => false,
        },
        _ => false,
    }
}

/// What a step made, if it applied.
pub open spec fn made(
    before: Seq<NodeView>,
    after: Graph,
    built: Option<Built>,
    id: Option<usize>,
) -> bool {
    match id {
        Some(id) => built matches Some(new) && grown(before, after, new, id),
        None => built is None && after.wf() && after@ == before,
    }
}

fn shift_left(graph: &mut Graph, id: usize) -> (new: Option<usize>)
    requires
        old(graph).wf(),
        id < old(graph)@.len(),
    ensures
        made(old(graph)@, *final(graph), mul_to_shl(old(graph)@, id), new),
{
    proof {
        lemma_arity(graph@, id);
    }
    match graph.op(id) {
        Op::Binary(BinaryOp::Mul) => {},
        _ => {
            return None;
        },
    }
    let dtype = graph.dtype(id);
    let x: usize = graph.source(id, 0);
    let right: usize = graph.source(id, 1);
    match int_at(graph, right) {
        Some(c) => match find_exponent(c) {
            Some(n) => Some(put_with_int(graph, BinaryOp::Shl, dtype, x, n, right)),
            None => None,
        },
        None => None,
    }
}

fn low_bits(graph: &mut Graph, id: usize) -> (new: Option<usize>)
    requires
        old(graph).wf(),
        id < old(graph)@.len(),
    ensures
        made(old(graph)@, *final(graph), mod_to_and(old(graph)@, id), new),
{
    proof {
        lemma_arity(graph@, id);
    }
    match graph.op(id) {
        Op::Binary(BinaryOp::FloorMod) => {},
        _ => {
            return None;
        },
    }
    let dtype = graph.dtype(id);
    let x: usize = graph.source(id, 0);
    let right: usize = graph.source(id, 1);
    match int_at(graph, right) {
        Some(c) => match find_exponent(c) {
            Some(n) => {
                proof {
                    lemma_pow2_pos(n as nat);
                }
                Some(put_with_int(graph, BinaryOp::And, dtype, x, c - 1, right))
            },
            None => None,
        },
        None => None,
    }
}

fn put_biased(graph: &mut Graph, x: usize, c: i64, like: usize) -> (id: usize)
    requires
        old(graph).wf(),
        x < old(graph)@.len(),
        like < old(graph)@.len(),
        c > i64::MIN,
    ensures
        grown(old(graph)@, *final(graph), biased(old(graph)@, x, c, like), id),
{
    let dtype = graph.dtype(like);
    let kind = graph.dtype(x);
    let zero: usize = put_int(graph, 0, dtype);
    let negative: usize = put_pair(graph, BinaryOp::Lt, DType::Bool, x, zero);
    let bias: usize = put_int(graph, c - 1, dtype);
    let ghost held = graph@;
    let chosen: usize = graph.ternary(
        Op::Ternary(TernaryOp::Where),
        dtype,
        negative,
        bias,
        zero,
    );
    proof {
        lemma_interned_keeps(
            held,
            NodeView {
                op: Op::Ternary(TernaryOp::Where),
                dtype,
                srcs: seq![negative, bias, zero],
            },
        );
    }
    put_pair(graph, BinaryOp::Add, kind, x, chosen)
}

fn shift_right(graph: &mut Graph, id: usize) -> (new: Option<usize>)
    requires
        old(graph).wf(),
        id < old(graph)@.len(),
    ensures
        made(old(graph)@, *final(graph), div_to_shr(old(graph)@, id), new),
{
    proof {
        lemma_arity(graph@, id);
    }
    match graph.op(id) {
        Op::Binary(BinaryOp::CDiv) => {},
        _ => {
            return None;
        },
    }
    let dtype = graph.dtype(id);
    let x: usize = graph.source(id, 0);
    let right: usize = graph.source(id, 1);
    match int_at(graph, right) {
        Some(c) => match find_exponent(c) {
            Some(n) => {
                let plain: bool = match find_bounds(graph, x) {
                    Some(pair) => pair.0 >= 0,
                    None => false,
                };
                proof {
                    lemma_pow2_pos(n as nat);
                }
                let shifted: usize = if plain {
                    x
                } else {
                    put_biased(graph, x, c, right)
                };
                Some(put_with_int(graph, BinaryOp::Shr, dtype, shifted, n, right))
            },
            None => None,
        },
        None => None,
    }
}

fn negate(graph: &mut Graph, id: usize) -> (new: Option<usize>)
    requires
        old(graph).wf(),
        id < old(graph)@.len(),
    ensures
        made(old(graph)@, *final(graph), neg_from_mul(old(graph)@, id), new),
{
    let ghost dag = graph@;
    proof {
        lemma_arity(graph@, id);
    }
    let dtype = graph.dtype(id);
    match graph.op(id) {
        Op::Binary(BinaryOp::Mul) => {
            if !negated(graph, id) {
                return None;
            }
            let x: usize = graph.source(id, 0);
            let new: usize = graph.unary(Op::Unary(UnaryOp::Neg), dtype, x);
            proof {
                lemma_interned_keeps(
                    dag,
                    NodeView { op: Op::Unary(UnaryOp::Neg), dtype, srcs: seq![x] },
                );
            }
            Some(new)
        },
        Op::Binary(BinaryOp::Add) => {
            let x: usize = graph.source(id, 0);
            let right: usize = graph.source(id, 1);
            match graph.op(right) {
                Op::Unary(UnaryOp::Neg) => {
                    proof {
                        lemma_arity(dag, right);
                    }
                    let y: usize = graph.source(right, 0);
                    Some(put_pair(graph, BinaryOp::Sub, dtype, x, y))
                },
                _ => None,
            }
        },
        _ => None,
    }
}

fn flip_less(graph: &mut Graph, id: usize) -> (new: Option<usize>)
    requires
        old(graph).wf(),
        id < old(graph)@.len(),
    ensures
        made(old(graph)@, *final(graph), negated_less(old(graph)@, id), new),
{
    proof {
        lemma_arity(graph@, id);
    }
    match graph.op(id) {
        Op::Unary(UnaryOp::Not) => {},
        _ => {
            return None;
        },
    }
    let dtype = graph.dtype(id);
    let less: usize = graph.source(id, 0);
    if !less_of_wholes(graph, less) {
        return None;
    }
    proof {
        lemma_arity(graph@, less);
    }
    let a: usize = graph.source(less, 0);
    let b: usize = graph.source(less, 1);
    match (int_at(graph, a), int_at(graph, b)) {
        (_, Some(c)) => {
            if c > i64::MIN {
                Some(put_int_with(graph, BinaryOp::Lt, dtype, c - 1, b, a))
            } else {
                None
            }
        },
        (Some(c), None) => {
            if c < i64::MAX {
                Some(put_with_int(graph, BinaryOp::Lt, dtype, b, c + 1, a))
            } else {
                None
            }
        },
        _ => None,
    }
}

fn close_band(graph: &mut Graph, id: usize) -> (new: Option<usize>)
    requires
        old(graph).wf(),
        id < old(graph)@.len(),
    ensures
        made(old(graph)@, *final(graph), band(old(graph)@, id), new),
{
    proof {
        lemma_arity(graph@, id);
    }
    match graph.op(id) {
        Op::Binary(BinaryOp::And) => {},
        _ => {
            return None;
        },
    }
    let dtype = graph.dtype(id);
    let above: usize = graph.source(id, 0);
    let below: usize = graph.source(id, 1);
    if !less_of_wholes(graph, above) || !less_of_wholes(graph, below) {
        return None;
    }
    proof {
        lemma_arity(graph@, above);
        lemma_arity(graph@, below);
    }
    let low: usize = graph.source(above, 0);
    let x: usize = graph.source(above, 1);
    let other: usize = graph.source(below, 0);
    let high: usize = graph.source(below, 1);
    if x != other {
        return None;
    }
    match (int_at(graph, low), int_at(graph, high)) {
        (Some(a), Some(b)) => {
            if b as i128 - a as i128 == 2 {
                Some(put_with_int(graph, BinaryOp::Eq, dtype, x, a + 1, low))
            } else {
                None
            }
        },
        _ => None,
    }
}

fn flip_negated(graph: &mut Graph, id: usize) -> (new: Option<usize>)
    requires
        old(graph).wf(),
        id < old(graph)@.len(),
    ensures
        made(old(graph)@, *final(graph), negated_operand(old(graph)@, id), new),
{
    if !less_of_wholes(graph, id) {
        return None;
    }
    proof {
        lemma_arity(graph@, id);
    }
    let dtype = graph.dtype(id);
    let left: usize = graph.source(id, 0);
    let right: usize = graph.source(id, 1);
    if !negated(graph, left) {
        return None;
    }
    proof {
        lemma_arity(graph@, left);
        lemma_arity(graph@, right);
    }
    let x: usize = graph.source(left, 0);
    match int_at(graph, right) {
        Some(c) => {
            if c > i64::MIN {
                Some(put_int_with(graph, BinaryOp::Lt, dtype, -c, right, x))
            } else {
                None
            }
        },
        None => {
            match graph.op(right) {
                Op::Binary(BinaryOp::Mul) => {},
                _ => {
                    return None;
                },
            }
            let y: usize = graph.source(right, 0);
            let factor: usize = graph.source(right, 1);
            match int_at(graph, factor) {
                Some(c) => {
                    if c > i64::MIN {
                        let kind = graph.dtype(right);
                        let scaled: usize = put_with_int(
                            graph,
                            BinaryOp::Mul,
                            kind,
                            y,
                            -c,
                            factor,
                        );
                        Some(put_pair(graph, BinaryOp::Lt, dtype, scaled, x))
                    } else {
                        None
                    }
                },
                None => None,
            }
        },
    }
}

/// Applies a rewrite to one node; see `late_rule`.
pub fn apply_late_rule(graph: &mut Graph, late: Late, id: usize) -> (new: usize)
    requires
        old(graph).wf(),
        id < old(graph)@.len(),
    ensures
        grown(old(graph)@, *final(graph), late_rule(late, old(graph)@, id), new),
{
    proof {
        lemma_arity(graph@, id);
    }
    if neutral(graph, id) {
        return graph.source(id, 0);
    }
    let new: Option<usize> = match late {
        Late::ModToAnd => low_bits(graph, id),
        Late::MulToShl => shift_left(graph, id),
        Late::DivToShr => shift_right(graph, id),
        Late::NegFromMul => negate(graph, id),
        Late::Comparisons => match flip_less(graph, id) {
            Some(new) => Some(new),
            None => match close_band(graph, id) {
                Some(new) => Some(new),
                None => flip_negated(graph, id),
            },
        },
    };
    match new {
        Some(new) => new,
        None => id,
    }
}

/// What an operation with an integer constant means.
pub proof fn lemma_with_int(
    dag: Seq<NodeView>,
    op: BinaryOp,
    dtype: DType,
    a: usize,
    n: int,
    like: usize,
    at: spec_fn(Op) -> int,
)
    requires
        dag_wf(dag),
        a < dag.len(),
        like < dag.len(),
        i64::MIN <= n <= i64::MAX,
        with_int(dag, op, dtype, a, n, like).dag.len() <= usize::MAX,
    ensures
        ({
            let new = with_int(dag, op, dtype, a, n, like);
            &&& dag_wf(new.dag)
            &&& extends(dag, new.dag)
            &&& new.id < new.dag.len()
            &&& meaning(new.dag, new.id, at) == (match meaning(dag, a, at) {
                Some(x) => binary_number(op, x, n),
                None => None,
            })
            &&& admits(dag, a, at) ==> admits(new.dag, new.id, at)
        }),
{
    let constant = const_node(ConstValue::Int(n as i64), dag[like as int].dtype);
    let c = put(dag, constant);
    let whole = pair_node(op, dtype, a, c.id);
    lemma_interned_keeps(dag, constant);
    lemma_interned_keeps(c.dag, whole);
    lemma_put_meaning(dag, constant, at);
    lemma_put_meaning(c.dag, whole, at);
    lemma_meaning_extends(dag, c.dag, a, at);
    lemma_put_admits(dag, constant, at);
    if admits(dag, a, at) {
        lemma_admits_extends(dag, c.dag, a, at);
        lemma_put_admits(c.dag, whole, at);
    }
}

/// What an operation of an integer constant with a value means.
pub proof fn lemma_int_with(
    dag: Seq<NodeView>,
    op: BinaryOp,
    dtype: DType,
    n: int,
    like: usize,
    b: usize,
    at: spec_fn(Op) -> int,
)
    requires
        dag_wf(dag),
        b < dag.len(),
        like < dag.len(),
        i64::MIN <= n <= i64::MAX,
        int_with(dag, op, dtype, n, like, b).dag.len() <= usize::MAX,
    ensures
        ({
            let new = int_with(dag, op, dtype, n, like, b);
            &&& dag_wf(new.dag)
            &&& extends(dag, new.dag)
            &&& new.id < new.dag.len()
            &&& meaning(new.dag, new.id, at) == (match meaning(dag, b, at) {
                Some(y) => binary_number(op, n, y),
                None => None,
            })
            &&& admits(dag, b, at) ==> admits(new.dag, new.id, at)
        }),
{
    let constant = const_node(ConstValue::Int(n as i64), dag[like as int].dtype);
    let c = put(dag, constant);
    let whole = pair_node(op, dtype, c.id, b);
    lemma_interned_keeps(dag, constant);
    lemma_interned_keeps(c.dag, whole);
    lemma_put_meaning(dag, constant, at);
    lemma_put_meaning(c.dag, whole, at);
    lemma_meaning_extends(dag, c.dag, b, at);
    lemma_put_admits(dag, constant, at);
    if admits(dag, b, at) {
        lemma_admits_extends(dag, c.dag, b, at);
        lemma_put_admits(c.dag, whole, at);
    }
}

/// The low bits of a number are its remainder by a power of two.
proof fn lemma_low_bits(x: int, c: i64, n: nat)
    requires
        1 <= n <= 62,
        pow2(n) == c,
    ensures
        binary_number(BinaryOp::And, x, c - 1) == binary_number(BinaryOp::FloorMod, x, c as int),
{
    let p = c as int;
    let w = word(x);
    lemma_pow2_pos(n);
    lemma_pow2_pos((64 - n) as nat);
    lemma_pow2_adds(n, (64 - n) as nat);
    vstd::arithmetic::power2::lemma2_to64();
    assert(n + (64 - n) as nat == 64);
    vstd::arithmetic::div_mod::lemma_mod_mod(x, p, pow2((64 - n) as nat) as int);
    vstd::arithmetic::div_mod::lemma_mod_bound(x, word_count());
    vstd::bits::lemma_u64_low_bits_mask_is_mod(w, n);
    vstd::arithmetic::div_mod::lemma_small_mod((c - 1) as nat, word_count() as nat);
    assert(word(c - 1) == (c - 1) as u64);
    vstd::arithmetic::div_mod::lemma_fundamental_div_mod(x, p);
    assert(floored_div(x, p) == x / p);
}

/// Rounding the biased number down is rounding the number toward zero.
proof fn lemma_biased_shift(x: int, c: int)
    requires
        c > 0,
    ensures
        (if x < 0 {
            x + (c - 1)
        } else {
            x
        }) / c == truncated_div(x, c),
{
    if x < 0 {
        let q = (-x) / c;
        let r = (-x) % c;
        vstd::arithmetic::div_mod::lemma_fundamental_div_mod(-x, c);
        vstd::arithmetic::div_mod::lemma_mod_bound(-x, c);
        assert(x + (c - 1) == (-q) * c + (c - 1 - r)) by (nonlinear_arith)
            requires
                -x == c * q + r,
        ;
        vstd::arithmetic::div_mod::lemma_fundamental_div_mod_converse(
            x + (c - 1),
            c,
            -q,
            c - 1 - r,
        );
    }
}

proof fn lemma_biased(dag: Seq<NodeView>, x: usize, c: i64, like: usize, at: spec_fn(Op) -> int)
    requires
        dag_wf(dag),
        x < dag.len(),
        like < dag.len(),
        c > 0,
        biased(dag, x, c, like).dag.len() <= usize::MAX,
    ensures
        ({
            let new = biased(dag, x, c, like);
            &&& dag_wf(new.dag)
            &&& extends(dag, new.dag)
            &&& new.id < new.dag.len()
            &&& meaning(new.dag, new.id, at) == (match meaning(dag, x, at) {
                Some(n) => Some(
                    if n < 0 {
                        n + (c - 1)
                    } else {
                        n
                    },
                ),
                None => None,
            })
            &&& admits(dag, x, at) ==> admits(new.dag, new.id, at)
        }),
{
    let dtype = dag[like as int].dtype;
    let n0 = const_node(ConstValue::Int(0), dtype);
    let zero = put(dag, n0);
    let n1 = pair_node(BinaryOp::Lt, DType::Bool, x, zero.id);
    let negative = put(zero.dag, n1);
    let n2 = const_node(ConstValue::Int((c - 1) as i64), dtype);
    let bias = put(negative.dag, n2);
    let n3 = NodeView {
        op: Op::Ternary(TernaryOp::Where),
        dtype,
        srcs: seq![negative.id, bias.id, zero.id],
    };
    let chosen = put(bias.dag, n3);
    let n4 = pair_node(BinaryOp::Add, dag[x as int].dtype, x, chosen.id);
    lemma_interned_keeps(dag, n0);
    lemma_interned_keeps(zero.dag, n1);
    lemma_interned_keeps(negative.dag, n2);
    lemma_interned_keeps(bias.dag, n3);
    lemma_interned_keeps(chosen.dag, n4);
    lemma_put_meaning(dag, n0, at);
    lemma_put_meaning(zero.dag, n1, at);
    lemma_put_meaning(negative.dag, n2, at);
    lemma_put_meaning(bias.dag, n3, at);
    lemma_put_meaning(chosen.dag, n4, at);
    lemma_meaning_extends(dag, zero.dag, x, at);
    lemma_meaning_extends(dag, chosen.dag, x, at);
    lemma_meaning_extends(zero.dag, bias.dag, zero.id, at);
    lemma_meaning_extends(negative.dag, bias.dag, negative.id, at);
    if admits(dag, x, at) {
        lemma_put_admits(dag, n0, at);
        lemma_admits_extends(dag, zero.dag, x, at);
        lemma_put_admits(zero.dag, n1, at);
        lemma_put_admits(negative.dag, n2, at);
        lemma_admits_extends(zero.dag, bias.dag, zero.id, at);
        lemma_admits_extends(negative.dag, bias.dag, negative.id, at);
        lemma_put_admits(bias.dag, n3, at);
        lemma_admits_extends(dag, chosen.dag, x, at);
        lemma_put_admits(chosen.dag, n4, at);
    }
}

/// What a rewrite keeps: the graph stays well formed with all of its nodes,
/// and the new node is admitted and stands for the old one.
pub open spec fn kept(dag: Seq<NodeView>, id: usize, new: Built, at: spec_fn(Op) -> int) -> bool {
    &&& dag_wf(new.dag)
    &&& extends(dag, new.dag)
    &&& new.id < new.dag.len()
    &&& admits(new.dag, new.id, at)
    &&& stands_for(dag, id, new.dag, new.id, at)
}

proof fn lemma_negated_less(dag: Seq<NodeView>, id: usize, at: spec_fn(Op) -> int)
    requires
        dag_wf(dag),
        id < dag.len(),
        admits(dag, id, at),
        negated_less(dag, id) is Some,
        negated_less(dag, id).unwrap().dag.len() <= usize::MAX,
    ensures
        kept(dag, id, negated_less(dag, id).unwrap(), at),
{
    let node = dag[id as int];
    lemma_arity(dag, id);
    lemma_meaning(dag, id, at);
    let s0 = node.srcs[0];
    assert(dag[id as int].srcs[0] < id);
    assert(admits(dag, s0, at));
    lemma_arity(dag, s0);
    lemma_meaning(dag, s0, at);
    let less = dag[s0 as int];
    assert(dag[s0 as int].srcs[0] < s0 && dag[s0 as int].srcs[1] < s0);
    let a = less.srcs[0];
    let b = less.srcs[1];
    assert(admits(dag, a, at) && admits(dag, b, at));
    lemma_meaning(dag, a, at);
    lemma_meaning(dag, b, at);
    match (int_of(dag, a), int_of(dag, b)) {
        (_, Some(c)) => {
            lemma_int_with(dag, BinaryOp::Lt, node.dtype, c - 1, b, a, at);
        },
        (Some(c), None) => {
            lemma_with_int(dag, BinaryOp::Lt, node.dtype, b, c + 1, a, at);
        },
        _ => {},
    }
}

proof fn lemma_band(dag: Seq<NodeView>, id: usize, at: spec_fn(Op) -> int)
    requires
        dag_wf(dag),
        id < dag.len(),
        admits(dag, id, at),
        band(dag, id) is Some,
        band(dag, id).unwrap().dag.len() <= usize::MAX,
    ensures
        kept(dag, id, band(dag, id).unwrap(), at),
{
    let node = dag[id as int];
    lemma_arity(dag, id);
    lemma_meaning(dag, id, at);
    let s0 = node.srcs[0];
    let s1 = node.srcs[1];
    assert(dag[id as int].srcs[0] < id && dag[id as int].srcs[1] < id);
    assert(admits(dag, s0, at));
    lemma_arity(dag, s0);
    lemma_arity(dag, s1);
    lemma_meaning(dag, s0, at);
    lemma_meaning(dag, s1, at);
    let above = dag[s0 as int];
    let below = dag[s1 as int];
    assert(dag[s0 as int].srcs[0] < s0 && dag[s0 as int].srcs[1] < s0);
    assert(dag[s1 as int].srcs[0] < s1 && dag[s1 as int].srcs[1] < s1);
    assert(admits(dag, above.srcs[1], at));
    lemma_meaning(dag, above.srcs[0], at);
    lemma_meaning(dag, below.srcs[1], at);
    let a = int_of(dag, above.srcs[0]).unwrap();
    lemma_with_int(dag, BinaryOp::Eq, node.dtype, above.srcs[1], a + 1, above.srcs[0], at);
    vstd::arithmetic::div_mod::lemma_small_mod(0, word_count() as nat);
    vstd::arithmetic::div_mod::lemma_small_mod(1, word_count() as nat);
    assert(word(0) == 0u64 && word(1) == 1u64);
    assert(0u64 & 0u64 == 0 && 0u64 & 1u64 == 0 && 1u64 & 0u64 == 0 && 1u64 & 1u64 == 1)
        by (bit_vector);
}

proof fn lemma_negated_operand(dag: Seq<NodeView>, id: usize, at: spec_fn(Op) -> int)
    requires
        dag_wf(dag),
        id < dag.len(),
        admits(dag, id, at),
        negated_operand(dag, id) is Some,
        negated_operand(dag, id).unwrap().dag.len() <= usize::MAX,
    ensures
        kept(dag, id, negated_operand(dag, id).unwrap(), at),
{
    let node = dag[id as int];
    lemma_arity(dag, id);
    lemma_meaning(dag, id, at);
    let s0 = node.srcs[0];
    let s1 = node.srcs[1];
    assert(dag[id as int].srcs[0] < id && dag[id as int].srcs[1] < id);
    assert(admits(dag, s0, at) && admits(dag, s1, at));
    lemma_arity(dag, s0);
    lemma_arity(dag, s1);
    lemma_meaning(dag, s0, at);
    lemma_meaning(dag, s1, at);
    let left = dag[s0 as int];
    let right = dag[s1 as int];
    let x = left.srcs[0];
    assert(dag[s0 as int].srcs[0] < s0 && dag[s0 as int].srcs[1] < s0);
    assert(admits(dag, x, at));
    lemma_meaning(dag, left.srcs[1], at);
    match meaning(dag, x, at) {
        Some(v) => {
            assert(v * -1 == -v);
        },
        None => {},
    }
    match int_of(dag, s1) {
        Some(c) => {
            lemma_int_with(dag, BinaryOp::Lt, node.dtype, -c, s1, x, at);
        },
        None => {
            let y = right.srcs[0];
            let factor = right.srcs[1];
            assert(dag[s1 as int].srcs[0] < s1 && dag[s1 as int].srcs[1] < s1);
            assert(admits(dag, y, at));
            lemma_meaning(dag, factor, at);
            let c = int_of(dag, factor).unwrap();
            let scaled = with_int(dag, BinaryOp::Mul, right.dtype, y, -c, factor);
            let last = pair_node(BinaryOp::Lt, node.dtype, scaled.id, x);
            lemma_interned_keeps(scaled.dag, last);
            lemma_with_int(dag, BinaryOp::Mul, right.dtype, y, -c, factor, at);
            lemma_put_meaning(scaled.dag, last, at);
            lemma_meaning_extends(dag, scaled.dag, x, at);
            lemma_admits_extends(dag, scaled.dag, x, at);
            lemma_put_admits(scaled.dag, last, at);
            match meaning(dag, y, at) {
                Some(v) => {
                    let k = c as int;
                    assert(v * (-k) == -(v * k)) by (nonlinear_arith);
                },
                None => {},
            }
        },
    }
}

proof fn lemma_comparison_meaning(dag: Seq<NodeView>, id: usize, at: spec_fn(Op) -> int)
    requires
        dag_wf(dag),
        id < dag.len(),
        admits(dag, id, at),
        comparisons(dag, id) is Some,
        comparisons(dag, id).unwrap().dag.len() <= usize::MAX,
    ensures
        kept(dag, id, comparisons(dag, id).unwrap(), at),
{
    if negated_less(dag, id) is Some {
        lemma_negated_less(dag, id, at);
    } else if band(dag, id) is Some {
        lemma_band(dag, id, at);
    } else {
        lemma_negated_operand(dag, id, at);
    }
}

/// The rewrites keep the meaning of every expression, at every assignment that
/// gives the variables values of their declared ranges.
#[verifier::rlimit(60)]
#[verifier::spinoff_prover]
pub proof fn lemma_late_keeps_meaning(
    late: Late,
    dag: Seq<NodeView>,
    id: usize,
    at: spec_fn(Op) -> int,
)
    requires
        dag_wf(dag),
        id < dag.len(),
        admits(dag, id, at),
        late_rule(late, dag, id).dag.len() <= usize::MAX,
    ensures
        kept(dag, id, late_rule(late, dag, id), at),
{
    let node = dag[id as int];
    lemma_arity(dag, id);
    lemma_meaning(dag, id, at);
    if node.op is Binary {
        assert(dag[id as int].srcs[0] < id && dag[id as int].srcs[1] < id);
        lemma_meaning(dag, node.srcs[1], at);
        let s0 = node.srcs[0];
        let s1 = node.srcs[1];
        assert(admits(dag, s0, at) && admits(dag, s1, at));
        if is_neutral(dag, id) {
            let n = int_of(dag, s1).unwrap();
            match (node.op, meaning(dag, s0, at)) {
                (Op::Binary(op), Some(x)) => {
                    let m = n as int;
                    if m == 1 {
                        assert(x * m == x && x / m == x) by (nonlinear_arith)
                            requires
                                m == 1,
                        ;
                    }
                },
                _ => {},
            }
        } else if late == Late::ModToAnd && mod_to_and(dag, id) is Some {
            let c = int_of(dag, s1).unwrap();
            let n = exponent(c).unwrap();
            lemma_pow2_pos(n);
            lemma_with_int(dag, BinaryOp::And, node.dtype, s0, c - 1, s1, at);
            match meaning(dag, s0, at) {
                Some(x) => {
                    lemma_low_bits(x, c, n);
                },
                None => {},
            }
        } else if late == Late::MulToShl && mul_to_shl(dag, id) is Some {
            let c = int_of(dag, s1).unwrap();
            let n = exponent(c).unwrap();
            lemma_with_int(dag, BinaryOp::Shl, node.dtype, s0, n as int, s1, at);
        } else if late == Late::DivToShr && div_to_shr(dag, id) is Some {
            let c = int_of(dag, s1).unwrap();
            let n = exponent(c).unwrap();
            lemma_pow2_pos(n);
            let x = if never_negative(dag, s0) {
                Built { dag, id: s0 }
            } else {
                biased(dag, s0, c, s1)
            };
            let last = with_int(x.dag, BinaryOp::Shr, node.dtype, x.id, n as int, s1);
            let constant = const_node(ConstValue::Int(n as i64), x.dag[s1 as int].dtype);
            lemma_interned_keeps(x.dag, constant);
            lemma_interned_keeps(
                put(x.dag, constant).dag,
                pair_node(BinaryOp::Shr, node.dtype, x.id, put(x.dag, constant).id),
            );
            assert(x.dag.len() <= last.dag.len());
            if !never_negative(dag, s0) {
                lemma_biased(dag, s0, c, s1, at);
            }
            lemma_with_int(x.dag, BinaryOp::Shr, node.dtype, x.id, n as int, s1, at);
            match meaning(dag, s0, at) {
                Some(v) => {
                    lemma_biased_shift(v, c as int);
                    if never_negative(dag, s0) {
                        assert(admits(dag, s0, at));
                        lemma_bounds_hold(dag, s0, at);
                    }
                },
                None => {},
            }
        } else if late == Late::NegFromMul && neg_from_mul(dag, id) is Some {
            if node.op == Op::Binary(BinaryOp::Mul) && int_of(dag, s1) == Some(-1i64) {
                let new = NodeView {
                    op: Op::Unary(UnaryOp::Neg),
                    dtype: node.dtype,
                    srcs: seq![s0],
                };
                lemma_put_meaning(dag, new, at);
                lemma_put_admits(dag, new, at);
                match meaning(dag, s0, at) {
                    Some(x) => {
                        assert(x * -1 == -x);
                    },
                    None => {},
                }
            } else {
                lemma_arity(dag, s1);
                assert(dag[s1 as int].srcs[0] < s1);
                let new = pair_node(BinaryOp::Sub, node.dtype, s0, dag[s1 as int].srcs[0]);
                lemma_meaning(dag, s1, at);
                assert(admits(dag, dag[s1 as int].srcs[0], at));
                lemma_put_meaning(dag, new, at);
                lemma_put_admits(dag, new, at);
            }
        } else if late == Late::Comparisons && comparisons(dag, id) is Some {
            lemma_comparison_meaning(dag, id, at);
        }
    } else if late == Late::Comparisons && comparisons(dag, id) is Some {
        lemma_comparison_meaning(dag, id, at);
    }
}

proof fn lemma_admits_below(dag: Seq<NodeView>, from: usize, to: usize, at: spec_fn(Op) -> int)
    requires
        admits(dag, from, at),
        reaches(dag, from, to),
    ensures
        admits(dag, to, at),
    decreases from,
{
    if from != to {
        let k = choose|k: int|
            #![trigger dag[from as int].srcs[k]]
            0 <= k < dag[from as int].srcs.len() && dag[from as int].srcs[k] < from && reaches(
                dag,
                dag[from as int].srcs[k],
                to,
            );
        lemma_admits_below(dag, dag[from as int].srcs[k], to, at);
    }
}

/// A graph does not shrink when an operation with a constant is put in.
pub proof fn lemma_with_int_grows(
    dag: Seq<NodeView>,
    op: BinaryOp,
    dtype: DType,
    a: usize,
    n: int,
    like: usize,
)
    ensures
        dag.len() <= with_int(dag, op, dtype, a, n, like).dag.len(),
        dag.len() <= int_with(dag, op, dtype, n, like, a).dag.len(),
{
    let constant = const_node(ConstValue::Int(n as i64), dag[like as int].dtype);
    let c = put(dag, constant);
    lemma_interned_keeps(dag, constant);
    lemma_interned_keeps(c.dag, pair_node(op, dtype, a, c.id));
    lemma_interned_keeps(c.dag, pair_node(op, dtype, c.id, a));
}

proof fn lemma_late_grows(late: Late, dag: Seq<NodeView>, id: usize)
    ensures
        dag.len() <= late_rule(late, dag, id).dag.len(),
{
    let node = dag[id as int];
    assert forall|
        more: Seq<NodeView>,
        op: BinaryOp,
        dtype: DType,
        a: usize,
        n: int,
        like: usize,
    | #![auto] more.len() <= with_int(more, op, dtype, a, n, like).dag.len() by {
        lemma_with_int_grows(more, op, dtype, a, n, like);
    }
    assert forall|
        more: Seq<NodeView>,
        op: BinaryOp,
        dtype: DType,
        a: usize,
        n: int,
        like: usize,
    | #![auto] more.len() <= int_with(more, op, dtype, n, like, a).dag.len() by {
        lemma_with_int_grows(more, op, dtype, a, n, like);
    }
    assert forall|more: Seq<NodeView>, new: NodeView| #![auto]
        more.len() <= put(more, new).dag.len() by {
        lemma_interned_keeps(more, new);
    }
    assert forall|x: usize, c: i64, like: usize| #![auto]
        dag.len() <= biased(dag, x, c, like).dag.len() by {
        let dtype = dag[like as int].dtype;
        let zero = put(dag, const_node(ConstValue::Int(0), dtype));
        let negative = put(zero.dag, pair_node(BinaryOp::Lt, DType::Bool, x, zero.id));
        let bias = put(negative.dag, const_node(ConstValue::Int((c - 1) as i64), dtype));
        let chosen = put(
            bias.dag,
            NodeView {
                op: Op::Ternary(TernaryOp::Where),
                dtype,
                srcs: seq![negative.id, bias.id, zero.id],
            },
        );
        let last = put(chosen.dag, pair_node(BinaryOp::Add, dag[x as int].dtype, x, chosen.id));
        assert(chosen.dag.len() <= last.dag.len());
    }
}

proof fn lemma_late_walk(
    late: Late,
    dag: Seq<NodeView>,
    root: usize,
    n: nat,
    at: spec_fn(Op) -> int,
)
    requires
        dag_wf(dag),
        root < dag.len(),
        admits(dag, root, at),
        n <= topo(dag, root).len(),
        walked(Pass::Late(late), dag, topo(dag, root), n).dag.len() <= usize::MAX,
    ensures
        ({
            let walk = topo(dag, root);
            let done = walked(Pass::Late(late), dag, walk, n);
            forall|p: int|
                0 <= p < n ==> kept(
                    dag,
                    #[trigger] walk[p],
                    (Built { dag: done.dag, id: done.stands[walk[p]] }),
                    at,
                )
        }),
        n == 0 ==> walked(Pass::Late(late), dag, topo(dag, root), n).dag == dag,
    decreases n,
{
    let pass = Pass::Late(late);
    let walk = topo(dag, root);
    lemma_topo(dag, root);
    if n > 0 {
        let rest = walked(pass, dag, walk, (n - 1) as nat);
        let u = walk[n - 1];
        let node = dag[u as int];
        let copied = with_srcs(node, moved(node.srcs, rest.stands));
        let copy = put(rest.dag, copied);
        let done = walked(pass, dag, walk, n);
        lemma_interned_keeps(rest.dag, copied);
        lemma_late_grows(late, copy.dag, copy.id);
        lemma_late_walk(late, dag, root, (n - 1) as nat, at);
        assert(walk.contains(u));
        assert(reaches(dag, root, u));
        lemma_admits_below(dag, root, u, at);
        lemma_arity(dag, u);
        assert forall|k: int| 0 <= k < node.srcs.len() implies kept(
            dag,
            #[trigger] node.srcs[k],
            (Built { dag: rest.dag, id: rest.stands[node.srcs[k]] }),
            at,
        ) by {
            assert(dag[walk[n - 1] as int].srcs[k] == node.srcs[k]);
            let q = choose|q: int| 0 <= q < n - 1 && #[trigger] walk[q] == node.srcs[k];
            assert(walk[q] == node.srcs[k]);
        }
        if n == 1 {
            assert(rest.dag == dag);
        } else {
            assert(kept(dag, walk[0], (Built { dag: rest.dag, id: rest.stands[walk[0]] }), at));
        }
        assert(dag_wf(rest.dag) && extends(dag, rest.dag));
        assert forall|k: int| 0 <= k < copied.srcs.len() implies (#[trigger] copied.srcs[k])
            < rest.dag.len() by {
            assert(kept(
                dag,
                node.srcs[k],
                (Built { dag: rest.dag, id: rest.stands[node.srcs[k]] }),
                at,
            ));
        }
        lemma_put_meaning(rest.dag, copied, at);
        assert forall|k: int| 0 <= k < dag[u as int].srcs.len() implies stands_for(
            dag,
            #[trigger] dag[u as int].srcs[k],
            copy.dag,
            copy.dag[copy.id as int].srcs[k],
            at,
        ) && admits(copy.dag, copy.dag[copy.id as int].srcs[k], at) by {
            assert(kept(
                dag,
                node.srcs[k],
                (Built { dag: rest.dag, id: rest.stands[node.srcs[k]] }),
                at,
            ));
            lemma_meaning_extends(rest.dag, copy.dag, copied.srcs[k], at);
            lemma_admits_extends(rest.dag, copy.dag, copied.srcs[k], at);
        }
        lemma_congruent(dag, u, copy.dag, copy.id, at);
        lemma_copy_admits(dag, u, copy.dag, copy.id, at);
        lemma_late_keeps_meaning(late, copy.dag, copy.id, at);
        assert forall|p: int| 0 <= p < n implies kept(
            dag,
            #[trigger] walk[p],
            (Built { dag: done.dag, id: done.stands[walk[p]] }),
            at,
        ) by {
            if p < n - 1 {
                assert(walk[p] != walk[n - 1]);
                assert(kept(
                    dag,
                    walk[p],
                    (Built { dag: rest.dag, id: rest.stands[walk[p]] }),
                    at,
                ));
                lemma_meaning_extends(rest.dag, done.dag, rest.stands[walk[p]], at);
                lemma_admits_extends(rest.dag, done.dag, rest.stands[walk[p]], at);
            }
        }
    }
}

/// Rewriting a whole expression keeps its meaning, at every assignment that
/// gives its variables values of their declared ranges.
pub proof fn lemma_late_rewrite_keeps_meaning(
    late: Late,
    dag: Seq<NodeView>,
    root: usize,
    at: spec_fn(Op) -> int,
)
    requires
        dag_wf(dag),
        root < dag.len(),
        admits(dag, root, at),
        rewritten(Pass::Late(late), dag, root).dag.len() <= usize::MAX,
    ensures
        kept(dag, root, rewritten(Pass::Late(late), dag, root), at),
{
    let walk = topo(dag, root);
    lemma_topo(dag, root);
    lemma_late_walk(late, dag, root, walk.len(), at);
    assert(walk[walk.len() - 1] == root);
}

} // verus!
