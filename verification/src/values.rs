//! What nodes are folded to in a graph that grows.

use vstd::prelude::*;

use crate::builders::{const_node, lemma_interned_keeps, put};
use crate::dce::where_node;
use crate::fold::{binary_number, cast_number, reads_sources, typed, value_of, Known};
use crate::graph::{
    arity_ok, dag_wf, lemma_interned_wf, BinaryOp, ConstValue, DType, NodeView, Op,
};
use crate::late::pair_node;
use crate::meaning::lemma_arity;
use crate::passes::{extends, lemma_put};
use crate::storage::{unary_node, with_uint};

verus! {

/// Whether only nodes have a known value that have none by themselves.
pub open spec fn knows_leaves(dag: Seq<NodeView>, known: Known) -> bool {
    forall|x: usize| #[trigger]
        known.contains_key(x) ==> x < dag.len() && !(dag[x as int].op is Const) && !reads_sources(
            dag[x as int].op,
        )
}

/// Whether a graph has grown by at most `n` nodes, and its nodes are folded to
/// the values that they had.
#[verifier::opaque]
pub open spec fn keeps_values(dag: Seq<NodeView>, more: Seq<NodeView>, known: Known, n: nat) -> bool {
    &&& dag_wf(more)
    &&& extends(dag, more)
    &&& more.len() <= dag.len() + n
    &&& knows_leaves(more, known)
    &&& forall|x: usize|
        x < dag.len() ==> #[trigger] value_of(more, known, x) == value_of(dag, known, x)
}

/// Whether a node of a type is folded to an unsigned number.
#[verifier::opaque]
pub open spec fn has_word(dag: Seq<NodeView>, known: Known, id: usize, dtype: DType, n: int) -> bool {
    &&& id < dag.len()
    &&& dag[id as int].dtype == dtype
    &&& 0 <= n <= u64::MAX
    &&& value_of(dag, known, id) == Some(ConstValue::UInt(n as u64))
}

/// Whether a node is folded to a boolean.
#[verifier::opaque]
pub open spec fn has_truth(dag: Seq<NodeView>, known: Known, id: usize, b: bool) -> bool {
    &&& id < dag.len()
    &&& dag[id as int].dtype == DType::Bool
    &&& value_of(dag, known, id) == Some(ConstValue::Bool(b))
}

/// Whether a graph has room for some nodes, and values of its own.
#[verifier::opaque]
pub open spec fn has_room(dag: Seq<NodeView>, known: Known, n: nat) -> bool {
    dag_wf(dag) && knows_leaves(dag, known) && dag.len() + n < usize::MAX
}

/// A graph that grows keeps the values of its nodes.
pub proof fn lemma_value_extends(dag: Seq<NodeView>, more: Seq<NodeView>, known: Known, id: usize)
    requires
        dag_wf(dag),
        extends(dag, more),
        id < dag.len(),
    ensures
        value_of(more, known, id) == value_of(dag, known, id),
    decreases id,
{
    let node = dag[id as int];
    assert(more[id as int] == node);
    lemma_arity(dag, id);
    if node.srcs.len() > 0 {
        assert(dag[id as int].srcs[0] < id);
        assert(more[node.srcs[0] as int] == dag[node.srcs[0] as int]);
        lemma_value_extends(dag, more, known, node.srcs[0]);
    }
    if node.srcs.len() > 1 {
        assert(dag[id as int].srcs[1] < id);
        lemma_value_extends(dag, more, known, node.srcs[1]);
    }
    if node.srcs.len() > 2 {
        assert(dag[id as int].srcs[2] < id);
        lemma_value_extends(dag, more, known, node.srcs[2]);
    }
}

/// What holds of a node in a graph that has grown.
pub proof fn lemma_kept_word(
    dag: Seq<NodeView>,
    more: Seq<NodeView>,
    known: Known,
    n: nat,
    id: usize,
    dtype: DType,
    x: int,
)
    requires
        keeps_values(dag, more, known, n),
        has_word(dag, known, id, dtype, x),
    ensures
        has_word(more, known, id, dtype, x),
{
    reveal(keeps_values);
    reveal(has_word);
    assert(value_of(more, known, id) == value_of(dag, known, id));
}

/// What holds of a node in a graph that has grown.
pub proof fn lemma_kept_truth(
    dag: Seq<NodeView>,
    more: Seq<NodeView>,
    known: Known,
    n: nat,
    id: usize,
    b: bool,
)
    requires
        keeps_values(dag, more, known, n),
        has_truth(dag, known, id, b),
    ensures
        has_truth(more, known, id, b),
{
    reveal(keeps_values);
    reveal(has_truth);
    assert(value_of(more, known, id) == value_of(dag, known, id));
}

/// A graph keeps its values when it grows twice.
pub proof fn lemma_keeps_twice(
    dag: Seq<NodeView>,
    mid: Seq<NodeView>,
    more: Seq<NodeView>,
    known: Known,
    i: nat,
    j: nat,
)
    requires
        keeps_values(dag, mid, known, i),
        keeps_values(mid, more, known, j),
    ensures
        keeps_values(dag, more, known, i + j),
{
    reveal(keeps_values);
    assert forall|x: usize| x < dag.len() implies #[trigger] value_of(more, known, x) == value_of(
        dag,
        known,
        x,
    ) by {
        assert(value_of(mid, known, x) == value_of(dag, known, x));
    }
}

proof fn lemma_put_node(dag: Seq<NodeView>, known: Known, node: NodeView, k: nat)
    requires
        has_room(dag, known, k),
        k >= 1,
        node.op is Const || reads_sources(node.op),
        arity_ok(node.op, node.srcs.len()),
        forall|k: int| 0 <= k < node.srcs.len() ==> (#[trigger] node.srcs[k]) < dag.len(),
    ensures
        ({
            let new = put(dag, node);
            &&& keeps_values(dag, new.dag, known, 1)
            &&& has_room(new.dag, known, (k - 1) as nat)
            &&& new.id < new.dag.len()
            &&& new.dag[new.id as int] == node
            &&& !known.contains_key(new.id)
            &&& forall|k: int| 0 <= k < node.srcs.len() ==> (#[trigger] node.srcs[k]) < new.id
        }),
{
    reveal(keeps_values);
    reveal(has_room);
    let new = put(dag, node);
    lemma_interned_keeps(dag, node);
    lemma_interned_wf(dag, node);
    lemma_put(dag, node);
    assert forall|x: usize| x < dag.len() implies #[trigger] value_of(new.dag, known, x)
        == value_of(dag, known, x) by {
        lemma_value_extends(dag, new.dag, known, x);
    }
    assert forall|k: int| 0 <= k < node.srcs.len() implies (#[trigger] node.srcs[k]) < new.id by {
        assert(new.dag[new.id as int].srcs[k] < new.id);
    }
}

/// A constant is folded to itself.
pub proof fn lemma_const_word(dag: Seq<NodeView>, known: Known, n: u64, dtype: DType, k: nat)
    requires
        has_room(dag, known, k),
        k >= 1,
    ensures
        ({
            let new = put(dag, const_node(ConstValue::UInt(n), dtype));
            &&& keeps_values(dag, new.dag, known, 1)
            &&& has_room(new.dag, known, (k - 1) as nat)
            &&& has_word(new.dag, known, new.id, dtype, n as int)
        }),
{
    reveal(has_word);
    lemma_put_node(dag, known, const_node(ConstValue::UInt(n), dtype), k);
}

/// The value of an operation on two words.
pub open spec fn pair_value(op: BinaryOp, x: int, y: int, dtype: DType) -> Option<ConstValue> {
    match binary_number(op, x, y) {
        Some(n) => typed(n, dtype),
        None => None,
    }
}

proof fn lemma_pair_value(
    dag: Seq<NodeView>,
    known: Known,
    op: BinaryOp,
    dtype: DType,
    a: usize,
    b: usize,
    r: DType,
    s: DType,
    x: int,
    y: int,
    k: nat,
)
    requires
        has_room(dag, known, k),
        k >= 1,
        has_word(dag, known, a, r, x),
        has_word(dag, known, b, s, y),
    ensures
        ({
            let new = put(dag, pair_node(op, dtype, a, b));
            &&& keeps_values(dag, new.dag, known, 1)
            &&& has_room(new.dag, known, (k - 1) as nat)
            &&& new.id < new.dag.len()
            &&& new.dag[new.id as int].dtype == dtype
            &&& value_of(new.dag, known, new.id) == pair_value(op, x, y, dtype)
        }),
{
    reveal(has_word);
    reveal(keeps_values);
    let node = pair_node(op, dtype, a, b);
    let new = put(dag, node);
    lemma_put_node(dag, known, node, k);
    assert(node.srcs[0] == a && node.srcs[1] == b);
    assert(value_of(new.dag, known, a) == value_of(dag, known, a));
    assert(value_of(new.dag, known, b) == value_of(dag, known, b));
}

/// An operation on two words that gives a word.
pub proof fn lemma_pair_word(
    dag: Seq<NodeView>,
    known: Known,
    op: BinaryOp,
    dtype: DType,
    a: usize,
    b: usize,
    r: DType,
    s: DType,
    x: int,
    y: int,
    n: int,
    k: nat,
)
    requires
        has_room(dag, known, k),
        k >= 1,
        has_word(dag, known, a, r, x),
        has_word(dag, known, b, s, y),
        0 <= n <= u64::MAX,
        pair_value(op, x, y, dtype) == Some(ConstValue::UInt(n as u64)),
    ensures
        ({
            let new = put(dag, pair_node(op, dtype, a, b));
            &&& keeps_values(dag, new.dag, known, 1)
            &&& has_room(new.dag, known, (k - 1) as nat)
            &&& has_word(new.dag, known, new.id, dtype, n)
        }),
{
    reveal(has_word);
    lemma_pair_value(dag, known, op, dtype, a, b, r, s, x, y, k);
}

/// A comparison of two words.
pub proof fn lemma_pair_truth(
    dag: Seq<NodeView>,
    known: Known,
    op: BinaryOp,
    a: usize,
    b: usize,
    r: DType,
    s: DType,
    x: int,
    y: int,
    yes: bool,
    k: nat,
)
    requires
        has_room(dag, known, k),
        k >= 1,
        has_word(dag, known, a, r, x),
        has_word(dag, known, b, s, y),
        pair_value(op, x, y, DType::Bool) == Some(ConstValue::Bool(yes)),
    ensures
        ({
            let new = put(dag, pair_node(op, DType::Bool, a, b));
            &&& keeps_values(dag, new.dag, known, 1)
            &&& has_room(new.dag, known, (k - 1) as nat)
            &&& has_truth(new.dag, known, new.id, yes)
        }),
{
    reveal(has_word);
    reveal(has_truth);
    lemma_pair_value(dag, known, op, DType::Bool, a, b, r, s, x, y, k);
}

/// An operation with a constant on its right that gives a word.
pub proof fn lemma_uint_word(
    dag: Seq<NodeView>,
    known: Known,
    op: BinaryOp,
    dtype: DType,
    kind: DType,
    a: usize,
    n: u64,
    r: DType,
    x: int,
    m: int,
    k: nat,
)
    requires
        has_room(dag, known, k),
        k >= 2,
        has_word(dag, known, a, r, x),
        0 <= m <= u64::MAX,
        pair_value(op, x, n as int, dtype) == Some(ConstValue::UInt(m as u64)),
    ensures
        ({
            let new = with_uint(dag, op, dtype, kind, a, n);
            &&& keeps_values(dag, new.dag, known, 2)
            &&& has_room(new.dag, known, (k - 2) as nat)
            &&& has_word(new.dag, known, new.id, dtype, m)
        }),
{
    let c = put(dag, const_node(ConstValue::UInt(n), kind));
    lemma_const_word(dag, known, n, kind, k);
    lemma_kept_word(dag, c.dag, known, 1, a, r, x);
    lemma_pair_word(
        c.dag,
        known,
        op,
        dtype,
        a,
        c.id,
        r,
        kind,
        x,
        n as int,
        m,
        (k - 1) as nat,
    );
    lemma_keeps_twice(dag, c.dag, with_uint(dag, op, dtype, kind, a, n).dag, known, 1, 1);
}

/// A comparison with a constant on its right.
pub proof fn lemma_uint_truth(
    dag: Seq<NodeView>,
    known: Known,
    op: BinaryOp,
    kind: DType,
    a: usize,
    n: u64,
    r: DType,
    x: int,
    yes: bool,
    k: nat,
)
    requires
        has_room(dag, known, k),
        k >= 2,
        has_word(dag, known, a, r, x),
        pair_value(op, x, n as int, DType::Bool) == Some(ConstValue::Bool(yes)),
    ensures
        ({
            let new = with_uint(dag, op, DType::Bool, kind, a, n);
            &&& keeps_values(dag, new.dag, known, 2)
            &&& has_room(new.dag, known, (k - 2) as nat)
            &&& has_truth(new.dag, known, new.id, yes)
        }),
{
    let c = put(dag, const_node(ConstValue::UInt(n), kind));
    lemma_const_word(dag, known, n, kind, k);
    lemma_kept_word(dag, c.dag, known, 1, a, r, x);
    lemma_pair_truth(
        c.dag,
        known,
        op,
        a,
        c.id,
        r,
        kind,
        x,
        n as int,
        yes,
        (k - 1) as nat,
    );
    lemma_keeps_twice(dag, c.dag, with_uint(dag, op, DType::Bool, kind, a, n).dag, known, 1, 1);
}

/// A conversion of a word to a word.
pub proof fn lemma_cast_word(
    dag: Seq<NodeView>,
    known: Known,
    dtype: DType,
    a: usize,
    r: DType,
    x: int,
    n: int,
    k: nat,
)
    requires
        has_room(dag, known, k),
        k >= 1,
        has_word(dag, known, a, r, x),
        0 <= n <= u64::MAX,
        cast_number(x, dtype) == Some(ConstValue::UInt(n as u64)),
    ensures
        ({
            let new = put(dag, unary_node(Op::Cast, dtype, a));
            &&& keeps_values(dag, new.dag, known, 1)
            &&& has_room(new.dag, known, (k - 1) as nat)
            &&& has_word(new.dag, known, new.id, dtype, n)
        }),
{
    reveal(has_word);
    reveal(keeps_values);
    let node = unary_node(Op::Cast, dtype, a);
    let new = put(dag, node);
    lemma_put_node(dag, known, node, k);
    assert(node.srcs[0] == a);
    assert(value_of(new.dag, known, a) == value_of(dag, known, a));
}

/// A choice between two words.
pub proof fn lemma_where_word(
    dag: Seq<NodeView>,
    known: Known,
    dtype: DType,
    c: usize,
    a: usize,
    b: usize,
    r: DType,
    s: DType,
    yes: bool,
    x: int,
    y: int,
    k: nat,
)
    requires
        has_room(dag, known, k),
        k >= 1,
        has_truth(dag, known, c, yes),
        has_word(dag, known, a, r, x),
        has_word(dag, known, b, s, y),
    ensures
        ({
            let new = put(dag, where_node(dtype, c, a, b));
            &&& keeps_values(dag, new.dag, known, 1)
            &&& has_room(new.dag, known, (k - 1) as nat)
            &&& has_word(
                new.dag,
                known,
                new.id,
                dtype,
                if yes {
                    x
                } else {
                    y
                },
            )
        }),
{
    reveal(has_word);
    reveal(has_truth);
    reveal(keeps_values);
    let node = where_node(dtype, c, a, b);
    let new = put(dag, node);
    lemma_put_node(dag, known, node, k);
    assert(node.srcs[0] == c && node.srcs[1] == a && node.srcs[2] == b);
    assert(value_of(new.dag, known, c) == value_of(dag, known, c));
    assert(value_of(new.dag, known, a) == value_of(dag, known, a));
    assert(value_of(new.dag, known, b) == value_of(dag, known, b));
}

/// A node with the bits of another stands above it and changes no values.
pub proof fn lemma_bits_node(
    dag: Seq<NodeView>,
    known: Known,
    dtype: DType,
    a: usize,
    r: DType,
    x: int,
    k: nat,
)
    requires
        has_room(dag, known, k),
        k >= 1,
        has_word(dag, known, a, r, x),
    ensures
        ({
            let node = unary_node(Op::BitCast, dtype, a);
            let new = put(dag, node);
            &&& keeps_values(dag, new.dag, known, 1)
            &&& has_room(new.dag, known, (k - 1) as nat)
            &&& new.id < new.dag.len()
            &&& new.dag[new.id as int] == node
        }),
{
    reveal(has_word);
    lemma_put_node(dag, known, unary_node(Op::BitCast, dtype, a), k);
}

} // verus!
