//! The least and the greatest value that an integer expression can take.

use vstd::prelude::*;

use crate::builders::put;
use crate::fold::{binary_number, floored_div, number_of};
use crate::graph::{
    arity_ok, dag_wf, BinaryOp, ConstValue, DType, Graph, NodeView, Op, TernaryOp, UnaryOp,
};
use crate::meaning::{
    is_whole, lemma_arity, lemma_meaning, lemma_meaning_extends, lemma_put_meaning, meaning,
    stands_for,
};
use crate::passes::extends;

verus! {

/// An interval, if both of its ends fit in 64 bits.
pub open spec fn fitting(low: int, high: int) -> Option<(int, int)> {
    if i64::MIN <= low <= i64::MAX && i64::MIN <= high <= i64::MAX {
        Some((low, high))
    } else {
        None
    }
}

/// The lesser of two numbers.
pub open spec fn least(a: int, b: int) -> int {
    if a < b {
        a
    } else {
        b
    }
}

/// The greater of two numbers.
pub open spec fn greatest(a: int, b: int) -> int {
    if a < b {
        b
    } else {
        a
    }
}

/// The interval of an operation on two intervals. A comparison is an interval
/// of truth values: one value where the intervals decide it.
pub open spec fn binary_bounds(op: BinaryOp, a: (int, int), b: (int, int)) -> Option<(int, int)> {
    match op {
        BinaryOp::Add => fitting(a.0 + b.0, a.1 + b.1),
        BinaryOp::Sub => fitting(a.0 - b.1, a.1 - b.0),
        BinaryOp::Mul => fitting(
            least(least(a.0 * b.0, a.0 * b.1), least(a.1 * b.0, a.1 * b.1)),
            greatest(greatest(a.0 * b.0, a.0 * b.1), greatest(a.1 * b.0, a.1 * b.1)),
        ),
        BinaryOp::Max => fitting(greatest(a.0, b.0), greatest(a.1, b.1)),
        BinaryOp::FloorMod => if b.0 == b.1 && b.0 > 0 {
            fitting(0, b.0 - 1)
        } else {
            None
        },
        BinaryOp::Lt => Some(
            if a.1 < b.0 {
                (1, 1)
            } else if a.0 >= b.1 {
                (0, 0)
            } else {
                (0, 1)
            },
        ),
        _ => None,
    }
}

/// The interval of a node, given those of its sources.
pub open spec fn combined_bounds(
    node: NodeView,
    of: spec_fn(usize) -> Option<(int, int)>,
) -> Option<(int, int)> {
    match node.op {
        Op::Const(value) => match number_of(value) {
            Some(n) => fitting(n, n),
            None => None,
        },
        Op::Variable { low, high, .. } => Some((low as int, high as int)),
        Op::Range { .. } => match of(node.srcs[0]) {
            Some(extent) => fitting(0, extent.1 - 1),
            None => None,
        },
        Op::Cast => if is_whole(node.dtype) {
            of(node.srcs[0])
        } else {
            None
        },
        Op::Unary(UnaryOp::Neg) => match of(node.srcs[0]) {
            Some(a) => fitting(-a.1, -a.0),
            None => None,
        },
        Op::Binary(op) => match (of(node.srcs[0]), of(node.srcs[1])) {
            (Some(a), Some(b)) => binary_bounds(op, a, b),
            _ => None,
        },
        Op::Ternary(TernaryOp::Where) => match (of(node.srcs[1]), of(node.srcs[2])) {
            (Some(a), Some(b)) => Some((least(a.0, b.0), greatest(a.1, b.1))),
            _ => None,
        },
        _ => None,
    }
}

/// The interval that an integer expression stays in, as far as its constants,
/// the declared ranges of its variables and the extents of its loops show.
pub open spec fn bounds(dag: Seq<NodeView>, id: usize) -> Option<(int, int)>
    decreases id,
{
    combined_bounds(
        dag[id as int],
        |src: usize|
            if src < id {
                bounds(dag, src)
            } else {
                None
            },
    )
}

/// Whether an assignment gives everything at and below a node a value that it
/// can have: a variable one of its declared range, and a loop counter one
/// below the extent of the loop.
pub open spec fn admits(dag: Seq<NodeView>, id: usize, at: spec_fn(Op) -> int) -> bool
    decreases id,
{
    let node = dag[id as int];
    &&& node.op matches Op::Variable { low, high, .. } ==> low <= at(node.op) <= high
    &&& node.op is Range ==> (meaning(dag, node.srcs[0], at) matches Some(extent) && 0 <= at(
        node.op,
    ) < extent)
    &&& forall|k: int|
        #![trigger node.srcs[k]]
        0 <= k < node.srcs.len() && node.srcs[k] < id ==> admits(dag, node.srcs[k], at)
}

/// A graph that grows keeps what an assignment admits.
pub proof fn lemma_admits_extends(
    dag: Seq<NodeView>,
    more: Seq<NodeView>,
    id: usize,
    at: spec_fn(Op) -> int,
)
    requires
        dag_wf(dag),
        dag_wf(more),
        extends(dag, more),
        id < dag.len(),
        admits(dag, id, at),
    ensures
        admits(more, id, at),
    decreases id,
{
    let node = dag[id as int];
    assert(more[id as int] == node);
    lemma_arity(dag, id);
    if node.op is Range {
        assert(dag[id as int].srcs[0] < id);
        lemma_meaning_extends(dag, more, node.srcs[0], at);
    }
    assert forall|k: int|
        #![trigger node.srcs[k]]
        0 <= k < node.srcs.len() && node.srcs[k] < id implies admits(more, node.srcs[k], at) by {
        lemma_admits_extends(dag, more, node.srcs[k], at);
    }
}

/// A node that is no variable and no loop counter is admitted with its sources.
pub proof fn lemma_put_admits(dag: Seq<NodeView>, node: NodeView, at: spec_fn(Op) -> int)
    requires
        dag_wf(dag),
        arity_ok(node.op, node.srcs.len()),
        !(node.op is Variable) && !(node.op is Range),
        forall|k: int|
            0 <= k < node.srcs.len() ==> (#[trigger] node.srcs[k]) < dag.len() && admits(
                dag,
                node.srcs[k],
                at,
            ),
        put(dag, node).dag.len() <= usize::MAX,
    ensures
        admits(put(dag, node).dag, put(dag, node).id, at),
{
    let new = put(dag, node);
    lemma_put_meaning(dag, node, at);
    assert forall|k: int|
        #![trigger node.srcs[k]]
        0 <= k < node.srcs.len() && node.srcs[k] < new.id implies admits(
        new.dag,
        node.srcs[k],
        at,
    ) by {
        lemma_admits_extends(dag, new.dag, node.srcs[k], at);
    }
}

/// A node over sources that stand for those of another is admitted where that
/// one is.
pub proof fn lemma_copy_admits(
    dag: Seq<NodeView>,
    id: usize,
    more: Seq<NodeView>,
    new: usize,
    at: spec_fn(Op) -> int,
)
    requires
        dag_wf(dag),
        dag_wf(more),
        id < dag.len(),
        new < more.len(),
        admits(dag, id, at),
        more[new as int].op == dag[id as int].op,
        more[new as int].srcs.len() == dag[id as int].srcs.len(),
        forall|k: int|
            0 <= k < dag[id as int].srcs.len() ==> stands_for(
                dag,
                #[trigger] dag[id as int].srcs[k],
                more,
                more[new as int].srcs[k],
                at,
            ) && admits(more, more[new as int].srcs[k], at),
    ensures
        admits(more, new, at),
{
    let node = dag[id as int];
    let copy = more[new as int];
    lemma_arity(dag, id);
    if node.op is Range {
        assert(dag[id as int].srcs[0] < id);
        assert(stands_for(dag, dag[id as int].srcs[0], more, copy.srcs[0], at));
    }
    assert forall|k: int|
        #![trigger copy.srcs[k]]
        0 <= k < copy.srcs.len() && copy.srcs[k] < new implies admits(more, copy.srcs[k], at) by {
        assert(dag[id as int].srcs[k] == node.srcs[k]);
    }
}

proof fn lemma_scaled(x: int, low: int, high: int, c: int)
    requires
        low <= x <= high,
    ensures
        least(low * c, high * c) <= x * c <= greatest(low * c, high * c),
{
    if c >= 0 {
        assert(low * c <= x * c <= high * c) by (nonlinear_arith)
            requires
                low <= x <= high,
                c >= 0,
        ;
    } else {
        assert(high * c <= x * c <= low * c) by (nonlinear_arith)
            requires
                low <= x <= high,
                c < 0,
        ;
    }
}

proof fn lemma_binary_bounds(op: BinaryOp, a: (int, int), b: (int, int), x: int, y: int)
    requires
        a.0 <= x <= a.1,
        b.0 <= y <= b.1,
        binary_bounds(op, a, b) is Some,
        binary_number(op, x, y) is Some,
    ensures
        ({
            let both = binary_bounds(op, a, b).unwrap();
            both.0 <= binary_number(op, x, y).unwrap() <= both.1
        }),
{
    match op {
        BinaryOp::Mul => {
            lemma_scaled(x, a.0, a.1, y);
            lemma_scaled(y, b.0, b.1, a.0);
            lemma_scaled(y, b.0, b.1, a.1);
            assert(y * a.0 == a.0 * y && y * a.1 == a.1 * y && b.0 * a.0 == a.0 * b.0 && b.1 * a.0
                == a.0 * b.1 && b.0 * a.1 == a.1 * b.0 && b.1 * a.1 == a.1 * b.1)
                by (nonlinear_arith);
        },
        BinaryOp::FloorMod => {
            vstd::arithmetic::div_mod::lemma_fundamental_div_mod(x, y);
            vstd::arithmetic::div_mod::lemma_mod_bound(x, y);
            assert(floored_div(x, y) == x / y);
        },
        _ => {},
    }
}

/// An expression stays in its interval.
pub proof fn lemma_bounds_hold(dag: Seq<NodeView>, id: usize, at: spec_fn(Op) -> int)
    requires
        dag_wf(dag),
        id < dag.len(),
        admits(dag, id, at),
        bounds(dag, id) is Some,
        meaning(dag, id, at) is Some,
    ensures
        bounds(dag, id).unwrap().0 <= meaning(dag, id, at).unwrap() <= bounds(dag, id).unwrap().1,
    decreases id,
{
    let node = dag[id as int];
    lemma_arity(dag, id);
    lemma_meaning(dag, id, at);
    if node.srcs.len() > 0 {
        let src = node.srcs[0];
        assert(dag[id as int].srcs[0] < id);
        assert(admits(dag, src, at));
        if bounds(dag, src) is Some && meaning(dag, src, at) is Some {
            lemma_bounds_hold(dag, src, at);
        }
    }
    if node.srcs.len() > 1 {
        let src = node.srcs[1];
        assert(dag[id as int].srcs[1] < id);
        assert(admits(dag, src, at));
        if bounds(dag, src) is Some && meaning(dag, src, at) is Some {
            lemma_bounds_hold(dag, src, at);
        }
    }
    if node.srcs.len() > 2 {
        let src = node.srcs[2];
        assert(dag[id as int].srcs[2] < id);
        assert(admits(dag, src, at));
        if bounds(dag, src) is Some && meaning(dag, src, at) is Some {
            lemma_bounds_hold(dag, src, at);
        }
    }
    match node.op {
        Op::Binary(op) => {
            lemma_binary_bounds(
                op,
                bounds(dag, node.srcs[0]).unwrap(),
                bounds(dag, node.srcs[1]).unwrap(),
                meaning(dag, node.srcs[0], at).unwrap(),
                meaning(dag, node.srcs[1], at).unwrap(),
            );
        },
        _ => {},
    }
}

/// An interval as it is computed.
pub open spec fn is_interval(found: Option<(i64, i64)>, want: Option<(int, int)>) -> bool {
    match found {
        Some(pair) => want == Some((pair.0 as int, pair.1 as int)),
        None => want is None,
    }
}

spec fn table_ok(dag: Seq<NodeView>, table: Seq<Option<(i64, i64)>>) -> bool {
    &&& table.len() <= dag.len()
    &&& forall|i: usize|
        #![trigger table[i as int]]
        i < table.len() ==> is_interval(table[i as int], bounds(dag, i))
}

fn fit(low: i128, high: i128) -> (pair: Option<(i64, i64)>)
    ensures
        is_interval(pair, fitting(low as int, high as int)),
{
    if -0x8000_0000_0000_0000 <= low && low <= 0x7fff_ffff_ffff_ffff && -0x8000_0000_0000_0000
        <= high && high <= 0x7fff_ffff_ffff_ffff {
        Some((low as i64, high as i64))
    } else {
        None
    }
}

fn lower(a: i128, b: i128) -> (r: i128)
    ensures
        r == least(a as int, b as int),
{
    if a < b {
        a
    } else {
        b
    }
}

fn upper(a: i128, b: i128) -> (r: i128)
    ensures
        r == greatest(a as int, b as int),
{
    if a < b {
        b
    } else {
        a
    }
}

fn times(a: i64, b: i64) -> (r: i128)
    ensures
        r == a * b,
{
    let x: i128 = a as i128;
    let y: i128 = b as i128;
    let m: i128 = 0x8000_0000_0000_0000;
    assert(-(m * m) <= x * y <= m * m) by (nonlinear_arith)
        requires
            -m <= x <= m,
            -m <= y <= m,
            m > 0,
    ;
    assert(m * m == 0x4000_0000_0000_0000_0000_0000_0000_0000) by (nonlinear_arith)
        requires
            m == 0x8000_0000_0000_0000,
    ;
    x * y
}

fn combine(op: BinaryOp, a: (i64, i64), b: (i64, i64)) -> (pair: Option<(i64, i64)>)
    ensures
        is_interval(
            pair,
            binary_bounds(op, (a.0 as int, a.1 as int), (b.0 as int, b.1 as int)),
        ),
{
    let (al, ah): (i128, i128) = (a.0 as i128, a.1 as i128);
    let (bl, bh): (i128, i128) = (b.0 as i128, b.1 as i128);
    match op {
        BinaryOp::Add => fit(al + bl, ah + bh),
        BinaryOp::Sub => fit(al - bh, ah - bl),
        BinaryOp::Mul => {
            let p: i128 = times(a.0, b.0);
            let q: i128 = times(a.0, b.1);
            let r: i128 = times(a.1, b.0);
            let s: i128 = times(a.1, b.1);
            fit(lower(lower(p, q), lower(r, s)), upper(upper(p, q), upper(r, s)))
        },
        BinaryOp::Max => fit(upper(al, bl), upper(ah, bh)),
        BinaryOp::FloorMod => if b.0 == b.1 && b.0 > 0 {
            fit(0, bl - 1)
        } else {
            None
        },
        BinaryOp::Lt => if a.1 < b.0 {
            Some((1, 1))
        } else if a.0 >= b.1 {
            Some((0, 0))
        } else {
            Some((0, 1))
        },
        _ => None,
    }
}

pub(crate) fn whole(dtype: DType) -> (r: bool)
    ensures
        r == is_whole(dtype),
{
    match dtype {
        DType::Int8
        | DType::Int16
        | DType::Int32
        | DType::Int64
        | DType::UInt8
        | DType::UInt16
        | DType::UInt32
        | DType::UInt64
        | DType::Index
        | DType::WeakInt => true,
        _ => false,
    }
}

fn next_bounds(graph: &Graph, id: usize, table: &Vec<Option<(i64, i64)>>) -> (pair: Option<
    (i64, i64),
>)
    requires
        graph.wf(),
        id < graph@.len(),
        id <= table@.len(),
        table_ok(graph@, table@),
    ensures
        is_interval(pair, bounds(graph@, id)),
{
    proof {
        lemma_arity(graph@, id);
    }
    match graph.op(id) {
        Op::Const(value) => match value {
            ConstValue::Int(n) => Some((n, n)),
            ConstValue::UInt(n) => fit(n as i128, n as i128),
            ConstValue::Bool(b) => if b {
                Some((1, 1))
            } else {
                Some((0, 0))
            },
            _ => None,
        },
        Op::Variable { low, high, .. } => Some((low, high)),
        Op::Range { .. } => {
            let extent: usize = graph.source(id, 0);
            match table[extent] {
                Some(pair) => fit(0, pair.1 as i128 - 1),
                None => None,
            }
        },
        Op::Cast => {
            let src: usize = graph.source(id, 0);
            if whole(graph.dtype(id)) {
                table[src]
            } else {
                None
            }
        },
        Op::Unary(UnaryOp::Neg) => {
            let src: usize = graph.source(id, 0);
            match table[src] {
                Some(pair) => fit(-(pair.1 as i128), -(pair.0 as i128)),
                None => None,
            }
        },
        Op::Binary(op) => {
            let left: usize = graph.source(id, 0);
            let right: usize = graph.source(id, 1);
            match (table[left], table[right]) {
                (Some(a), Some(b)) => combine(op, a, b),
                _ => None,
            }
        },
        Op::Ternary(TernaryOp::Where) => {
            let left: usize = graph.source(id, 1);
            let right: usize = graph.source(id, 2);
            match (table[left], table[right]) {
                (Some(a), Some(b)) => Some(
                    (
                        if a.0 < b.0 {
                            a.0
                        } else {
                            b.0
                        },
                        if a.1 < b.1 {
                            b.1
                        } else {
                            a.1
                        },
                    ),
                ),
                _ => None,
            }
        },
        _ => None,
    }
}

/// The interval that an integer expression stays in; see `bounds`.
pub fn find_bounds(graph: &Graph, id: usize) -> (pair: Option<(i64, i64)>)
    requires
        graph.wf(),
        id < graph@.len(),
    ensures
        is_interval(pair, bounds(graph@, id)),
{
    let mut table: Vec<Option<(i64, i64)>> = Vec::new();
    let mut at: usize = 0;
    while at < id
        invariant
            graph.wf(),
            at <= id < graph@.len(),
            table@.len() == at,
            table_ok(graph@, table@),
        decreases id - at,
    {
        let pair = next_bounds(graph, at, &table);
        table.push(pair);
        at += 1;
    }
    next_bounds(graph, id, &table)
}

} // verus!
