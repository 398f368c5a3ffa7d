//! Loops split in two, in the expressions that they walk.

use vstd::prelude::*;

use crate::builders::{const_node, lemma_interned_keeps, put, range_node, Built};
use crate::graph::{dag_wf, AxisId, AxisType, BinaryOp, ConstValue, Graph, NodeView, Op};
use crate::late::{pair_node, put_int, put_pair};
use crate::meaning::{
    is_leaf, lemma_arity, lemma_meaning, lemma_meaning_extends, lemma_put_meaning, meaning,
};
use crate::passes::{extends, grown, sources, with_srcs};
use crate::resolve::{lemma_visible_extends, lemma_visible_step};
use crate::scheduler::joined;
use crate::subst::{
    exchanges, lemma_lookup_one, lemma_substituted_grows, lemma_substitution_means, lookup,
    substitute, substituted, visible,
};
use crate::topo::topo;

verus! {

/// Whether a number is a positive multiple of an amount.
pub open spec fn divides(amount: i64, n: i64) -> bool {
    0 < amount && 0 < n && n as int % amount as int == 0
}

/// The extent of a loop divided by an amount, where that is known to leave
/// nothing: a constant, or a product with a constant.
pub open spec fn quotient_of(dag: Seq<NodeView>, end: usize, amount: i64) -> Option<Built> {
    let node = dag[end as int];
    match node.op {
        Op::Const(ConstValue::Int(n)) => if divides(amount, n) {
            Some(put(dag, const_node(ConstValue::Int((n as int / amount as int) as i64), node.dtype)))
        } else {
            None
        },
        Op::Binary(BinaryOp::Mul) => match dag[node.srcs[1] as int].op {
            Op::Const(ConstValue::Int(n)) => if !divides(amount, n) {
                None
            } else if n == amount {
                Some(Built { dag, id: node.srcs[0] })
            } else {
                let less = put(
                    dag,
                    const_node(
                        ConstValue::Int((n as int / amount as int) as i64),
                        dag[node.srcs[1] as int].dtype,
                    ),
                );
                Some(put(less.dag, pair_node(BinaryOp::Mul, node.dtype, node.srcs[0], less.id)))
            },
            _ => None,
        },
        _ => None,
    }
}

/// The two loops that a loop is split into, and the index that they stand for.
pub struct Parts {
    pub dag: Seq<NodeView>,
    pub quotient: usize,
    pub replaced: usize,
    pub new: usize,
    pub index: usize,
}

/// A loop split: it keeps its name at the quotient of its extent, and a loop of
/// the amount comes in under a name of its own. The new one varies fastest,
/// unless it is put on top.
pub open spec fn parts_of(
    dag: Seq<NodeView>,
    range: usize,
    amount: i64,
    axis: AxisId,
    kind: AxisType,
    top: bool,
) -> Option<Parts> {
    let node = dag[range as int];
    match quotient_of(dag, node.srcs[0], amount) {
        None => None,
        Some(quotient) => {
            let replaced = put(quotient.dag, with_srcs(node, node.srcs.update(0, quotient.id)));
            let width = put(
                replaced.dag,
                const_node(ConstValue::Int(amount), dag[node.srcs[0] as int].dtype),
            );
            let new = put(width.dag, range_node(width.id, axis, kind, node.dtype));
            let (outer, inner, step) = if top {
                (new.id, replaced.id, quotient.id)
            } else {
                (replaced.id, new.id, width.id)
            };
            let start = put(new.dag, pair_node(BinaryOp::Mul, node.dtype, outer, step));
            let index = put(start.dag, pair_node(BinaryOp::Add, node.dtype, start.id, inner));
            Some(
                Parts {
                    dag: index.dag,
                    quotient: quotient.id,
                    replaced: replaced.id,
                    new: new.id,
                    index: index.id,
                },
            )
        },
    }
}

/// Everything at and below a root with a loop split.
pub open spec fn shifted(
    dag: Seq<NodeView>,
    root: usize,
    range: usize,
    amount: i64,
    axis: AxisId,
    kind: AxisType,
    top: bool,
) -> Option<Built> {
    match parts_of(dag, range, amount, axis, kind, top) {
        Some(parts) => Some(substituted(parts.dag, root, seq![(range, parts.index)])),
        None => None,
    }
}

/// A root with a loop of it split: the loop that keeps the name, the new loop,
/// and the root over them.
#[derive(Clone, Copy, Debug, PartialEq, Eq, Structural)]
pub struct Split {
    pub root: usize,
    pub replaced: usize,
    pub new: usize,
}

fn divides_evenly(amount: i64, n: i64) -> (r: bool)
    ensures
        r == divides(amount, n),
{
    0 < amount && 0 < n && n % amount == 0
}

fn put_quotient(graph: &mut Graph, end: usize, amount: i64) -> (id: Option<usize>)
    requires
        old(graph).wf(),
        end < old(graph)@.len(),
    ensures
        match id {
            Some(id) => quotient_of(old(graph)@, end, amount) matches Some(built) && grown(
                old(graph)@,
                *final(graph),
                built,
                id,
            ),
            None => quotient_of(old(graph)@, end, amount) is None && *final(graph) == *old(graph),
        },
{
    proof {
        lemma_arity(graph@, end);
    }
    let dtype = graph.dtype(end);
    match graph.op(end) {
        Op::Const(ConstValue::Int(n)) => if divides_evenly(amount, n) {
            Some(put_int(graph, n / amount, dtype))
        } else {
            None
        },
        Op::Binary(BinaryOp::Mul) => {
            let value: usize = graph.source(end, 0);
            let factor: usize = graph.source(end, 1);
            match graph.op(factor) {
                Op::Const(ConstValue::Int(n)) => if !divides_evenly(amount, n) {
                    None
                } else if n == amount {
                    Some(value)
                } else {
                    let kind = graph.dtype(factor);
                    let less: usize = put_int(graph, n / amount, kind);
                    Some(put_pair(graph, BinaryOp::Mul, dtype, value, less))
                },
                _ => None,
            }
        },
        _ => None,
    }
}

/// Splits a loop in everything at and below a root; see `parts_of`. The new
/// loop takes an amount of steps, and its name is the caller's to choose. An
/// extent that is not known to be a multiple of the amount is not split.
pub fn shift_range(
    graph: &mut Graph,
    root: usize,
    range: usize,
    amount: i64,
    axis: AxisId,
    kind: AxisType,
    top: bool,
) -> (split: Option<Split>)
    requires
        old(graph).wf(),
        root < old(graph)@.len(),
        range < old(graph)@.len(),
        old(graph)@[range as int].op is Range,
    ensures
        match split {
            Some(done) => {
                let parts = parts_of(old(graph)@, range, amount, axis, kind, top);
                &&& parts is Some
                &&& done.replaced == parts->0.replaced
                &&& done.new == parts->0.new
                &&& grown(
                    old(graph)@,
                    *final(graph),
                    substituted(parts->0.dag, root, seq![(range, parts->0.index)]),
                    done.root,
                )
            },
            None => parts_of(old(graph)@, range, amount, axis, kind, top) is None && final(graph).wf()
                && final(graph)@ == old(graph)@,
        },
{
    let ghost dag = graph@;
    proof {
        lemma_arity(dag, range);
    }
    let end: usize = graph.source(range, 0);
    let op = graph.op(range);
    let dtype = graph.dtype(range);
    let weak = graph.dtype(end);
    let mut list = sources(graph, range);
    let quotient: usize = match put_quotient(graph, end, amount) {
        Some(id) => id,
        None => {
            return None;
        },
    };
    let ghost first = graph@;
    let ghost all = list@;
    list.set(0, quotient);
    proof {
        assert(list@ =~= all.update(0, quotient));
        assert forall|k: int| 0 <= k < list@.len() implies (#[trigger] list@[k]) < first.len() by {
            if k > 0 {
                assert(all[k] < range);
            }
        }
    }
    let replaced: usize = graph.node(op, dtype, list.as_slice());
    let ghost second = graph@;
    let width: usize = put_int(graph, amount, weak);
    let ghost third = graph@;
    let new: usize = graph.unary(Op::Range { axis, kind }, dtype, width);
    let ghost fourth = graph@;
    let (outer, inner, step) = if top {
        (new, replaced, quotient)
    } else {
        (replaced, new, width)
    };
    let start: usize = put_pair(graph, BinaryOp::Mul, dtype, outer, step);
    let index: usize = put_pair(graph, BinaryOp::Add, dtype, start, inner);
    let ghost last = graph@;
    proof {
        assert(range_node(width, axis, kind, dtype).srcs =~= seq![width]);
        assert forall|i: int| 0 <= i < dag.len() implies #[trigger] last[i] == dag[i] by {
            assert(first[i] == dag[i]);
            assert(second[i] == first[i]);
            assert(third[i] == second[i]);
            assert(fourth[i] == third[i]);
        }
    }
    let mut pairs: Vec<(usize, usize)> = Vec::new();
    pairs.push((range, index));
    assert(pairs@ =~= seq![(range, index)]);
    let done: usize = substitute(graph, root, &pairs);
    assert forall|i: int| 0 <= i < dag.len() implies #[trigger] graph@[i] == dag[i] by {
        assert(last[i] == dag[i]);
    }
    Some(Split { root: done, replaced, new })
}

/// What marks a loop to be split: a remainder of its counter by a constant that
/// the constant extent is a multiple of.
pub open spec fn mark_at(dag: Seq<NodeView>, id: usize) -> Option<(usize, i64)> {
    let node = dag[id as int];
    let range = dag[node.srcs[0] as int];
    if node.op != Op::Binary(BinaryOp::FloorMod) && node.op != Op::Binary(BinaryOp::CMod) {
        None
    } else if !(range.op is Range) {
        None
    } else {
        match (dag[range.srcs[0] as int].op, dag[node.srcs[1] as int].op) {
            (Op::Const(ConstValue::Int(n)), Op::Const(ConstValue::Int(amount))) => if divides(
                amount,
                n,
            ) {
                Some((node.srcs[0], amount))
            } else {
                None
            },
            _ => None,
        }
    }
}

/// The first mark among the first `n` nodes of a walk.
pub open spec fn first_mark(dag: Seq<NodeView>, walk: Seq<usize>, n: nat) -> Option<(usize, i64)>
    decreases n,
{
    if n == 0 {
        None
    } else {
        match first_mark(dag, walk, (n - 1) as nat) {
            Some(mark) => Some(mark),
            None => mark_at(dag, walk[n - 1]),
        }
    }
}

/// The first mark at or below a root, sources first.
pub open spec fn mark_below(dag: Seq<NodeView>, root: usize) -> Option<(usize, i64)> {
    first_mark(dag, topo(dag, root), topo(dag, root).len())
}

fn find_mark(graph: &Graph, id: usize) -> (mark: Option<(usize, i64)>)
    requires
        graph.wf(),
        id < graph@.len(),
    ensures
        mark == mark_at(graph@, id),
        mark matches Some(m) ==> m.0 < graph@.len() && graph@[m.0 as int].op is Range,
{
    proof {
        lemma_arity(graph@, id);
    }
    match graph.op(id) {
        Op::Binary(BinaryOp::FloorMod) | Op::Binary(BinaryOp::CMod) => {},
        _ => {
            return None;
        },
    }
    let range: usize = graph.source(id, 0);
    match graph.op(range) {
        Op::Range { .. } => {},
        _ => {
            return None;
        },
    }
    proof {
        lemma_arity(graph@, range);
    }
    match (graph.op(graph.source(range, 0)), graph.op(graph.source(id, 1))) {
        (Op::Const(ConstValue::Int(n)), Op::Const(ConstValue::Int(amount))) => {
            if 0 < amount && 0 < n && n % amount == 0 {
                Some((range, amount))
            } else {
                None
            }
        },
        _ => None,
    }
}

fn find_mark_below(graph: &Graph, root: usize) -> (mark: Option<(usize, i64)>)
    requires
        graph.wf(),
        root < graph@.len(),
    ensures
        mark == mark_below(graph@, root),
        mark matches Some(m) ==> m.0 < graph@.len() && graph@[m.0 as int].op is Range,
{
    let walk = graph.toposort(root);
    let mut found: Option<(usize, i64)> = None;
    let mut n: usize = 0;
    while n < walk.len()
        invariant
            graph.wf(),
            forall|p: int| 0 <= p < walk@.len() ==> (#[trigger] walk@[p]) < graph@.len(),
            n <= walk@.len(),
            found == first_mark(graph@, walk@, n as nat),
            found matches Some(m) ==> m.0 < graph@.len() && graph@[m.0 as int].op is Range,
        decreases walk@.len() - n,
    {
        if found.is_none() {
            found = find_mark(graph, walk[n]);
        }
        n += 1;
    }
    found
}

/// The kind of a loop.
pub open spec fn kind_of(op: Op) -> AxisType {
    match op {
        Op::Range { kind, .. } => kind,
        _ => AxisType::Loop,
    }
}

/// Splits the first loop that is marked at or below a root; see `mark_at`. The
/// new loop is of the same kind, and its name is the caller's to choose.
pub fn split_marked(graph: &mut Graph, root: usize, axis: AxisId) -> (split: Option<Split>)
    requires
        old(graph).wf(),
        root < old(graph)@.len(),
    ensures
        match split {
            Some(done) => {
                let mark = mark_below(old(graph)@, root);
                let kind = kind_of(old(graph)@[(mark->0).0 as int].op);
                let parts = parts_of(old(graph)@, (mark->0).0, (mark->0).1, axis, kind, false);
                &&& mark is Some
                &&& parts is Some
                &&& done.replaced == parts->0.replaced
                &&& done.new == parts->0.new
                &&& grown(
                    old(graph)@,
                    *final(graph),
                    substituted(parts->0.dag, root, seq![((mark->0).0, parts->0.index)]),
                    done.root,
                )
            },
            None => mark_below(old(graph)@, root) is None && final(graph).wf() && final(graph)@
                == old(graph)@,
        },
{
    let (range, amount) = match find_mark_below(graph, root) {
        Some(mark) => mark,
        None => {
            return None;
        },
    };
    let kind = match graph.op(range) {
        Op::Range { kind, .. } => kind,
        _ => AxisType::Loop,
    };
    proof {
        lemma_mark_divides(graph@, topo(graph@, root), topo(graph@, root).len());
    }
    shift_range(graph, root, range, amount, axis, kind, false)
}

/// A loop that is marked can be split.
proof fn lemma_mark_divides(dag: Seq<NodeView>, walk: Seq<usize>, n: nat)
    ensures
        first_mark(dag, walk, n) matches Some(mark) ==> quotient_of(
            dag,
            dag[mark.0 as int].srcs[0],
            mark.1,
        ) is Some,
    decreases n,
{
    if n > 0 {
        lemma_mark_divides(dag, walk, (n - 1) as nat);
    }
}

proof fn lemma_quotient_grows(dag: Seq<NodeView>, end: usize, amount: i64)
    requires
        quotient_of(dag, end, amount) is Some,
    ensures
        extends(dag, quotient_of(dag, end, amount)->0.dag),
{
    let node = dag[end as int];
    let n = match node.op {
        Op::Const(ConstValue::Int(n)) => n,
        _ => match dag[node.srcs[1] as int].op {
            Op::Const(ConstValue::Int(n)) => n,
            _ => 0,
        },
    };
    let less = (n as int / amount as int) as i64;
    lemma_interned_keeps(dag, const_node(ConstValue::Int(less), node.dtype));
    let kind = dag[node.srcs[1] as int].dtype;
    let smaller = put(dag, const_node(ConstValue::Int(less), kind));
    lemma_interned_keeps(dag, const_node(ConstValue::Int(less), kind));
    lemma_interned_keeps(
        smaller.dag,
        pair_node(BinaryOp::Mul, node.dtype, node.srcs[0], smaller.id),
    );
}

/// The quotient of an extent, times the amount, is the extent.
pub proof fn lemma_quotient_means(
    dag: Seq<NodeView>,
    end: usize,
    amount: i64,
    at: spec_fn(Op) -> int,
)
    requires
        dag_wf(dag),
        end < dag.len(),
        quotient_of(dag, end, amount) is Some,
        quotient_of(dag, end, amount)->0.dag.len() <= usize::MAX,
        meaning(dag, end, at) is Some,
    ensures
        ({
            let built = quotient_of(dag, end, amount)->0;
            &&& dag_wf(built.dag)
            &&& extends(dag, built.dag)
            &&& built.id < built.dag.len()
            &&& meaning(built.dag, built.id, at) is Some
            &&& meaning(built.dag, built.id, at)->0 * amount == meaning(dag, end, at)->0
        }),
{
    let node = dag[end as int];
    lemma_arity(dag, end);
    lemma_meaning(dag, end, at);
    lemma_quotient_grows(dag, end, amount);
    match node.op {
        Op::Const(ConstValue::Int(n)) => {
            let less = n as int / amount as int;
            lemma_exact(n as int, amount as int);
            let new = const_node(ConstValue::Int(less as i64), node.dtype);
            lemma_put_meaning(dag, new, at);
        },
        _ => {
            let value = node.srcs[0];
            let factor = node.srcs[1];
            assert(dag[end as int].srcs[0] < end && dag[end as int].srcs[1] < end);
            lemma_meaning(dag, factor, at);
            match dag[factor as int].op {
                Op::Const(ConstValue::Int(n)) => {
                    let x = meaning(dag, value, at)->0;
                    lemma_exact(n as int, amount as int);
                    let less = n as int / amount as int;
                    if n != amount {
                        let small = const_node(
                            ConstValue::Int(less as i64),
                            dag[factor as int].dtype,
                        );
                        let smaller = put(dag, small);
                        let last = pair_node(BinaryOp::Mul, node.dtype, value, smaller.id);
                        lemma_interned_keeps(dag, small);
                        lemma_interned_keeps(smaller.dag, last);
                        lemma_put_meaning(dag, small, at);
                        lemma_meaning_extends(dag, smaller.dag, value, at);
                        lemma_put_meaning(smaller.dag, last, at);
                        assert(x * less * amount == x * n) by (nonlinear_arith)
                            requires
                                less * amount == n,
                        ;
                    } else {
                        assert(x * n == x * amount);
                    }
                },
                _ => {},
            }
        },
    }
}

proof fn lemma_exact(n: int, amount: int)
    requires
        0 < n,
        0 < amount,
        n % amount == 0,
    ensures
        (n / amount) * amount == n,
        0 < n / amount <= n,
{
    assert((n / amount) * amount == n && 0 < n / amount && n / amount <= n) by (nonlinear_arith)
        requires
            0 < n,
            0 < amount,
            n % amount == 0,
    ;
}

/// The values that a split loop takes: the index that its two parts stand for.
pub open spec fn rejoined(
    dag: Seq<NodeView>,
    range: usize,
    quotient: int,
    amount: i64,
    axis: AxisId,
    kind: AxisType,
    top: bool,
    at: spec_fn(Op) -> int,
) -> spec_fn(Op) -> int {
    |op: Op|
        if op == dag[range as int].op {
            joined(top, quotient, amount as int, at(op), at(Op::Range { axis, kind }))
        } else {
            at(op)
        }
}

/// At any steps of the two loops, what a loop was split in means what it meant
/// at the step that the two stand for.
pub proof fn lemma_split_loop_means(
    dag: Seq<NodeView>,
    root: usize,
    range: usize,
    amount: i64,
    axis: AxisId,
    kind: AxisType,
    top: bool,
    at: spec_fn(Op) -> int,
)
    requires
        dag_wf(dag),
        root < dag.len(),
        range < dag.len(),
        dag[range as int].op is Range,
        shifted(dag, root, range, amount, axis, kind, top) is Some,
        shifted(dag, root, range, amount, axis, kind, top)->0.dag.len() <= usize::MAX,
        meaning(dag, dag[range as int].srcs[0], at) is Some,
        forall|x: usize| #[trigger]
            visible(dag, root, x) && x != range ==> dag[x as int].op != dag[range as int].op,
    ensures
        ({
            let built = shifted(dag, root, range, amount, axis, kind, top)->0;
            let parts = parts_of(dag, range, amount, axis, kind, top)->0;
            let quotient = meaning(parts.dag, parts.quotient, at)->0;
            &&& quotient * amount == meaning(dag, dag[range as int].srcs[0], at)->0
            &&& meaning(built.dag, built.id, at) == meaning(
                dag,
                root,
                rejoined(dag, range, quotient, amount, axis, kind, top, at),
            )
        }),
{
    let node = dag[range as int];
    lemma_arity(dag, range);
    assert(dag[range as int].srcs[0] < range);
    let end = node.srcs[0];
    let quotient = quotient_of(dag, end, amount)->0;
    let replaced_node = with_srcs(node, node.srcs.update(0, quotient.id));
    let replaced = put(quotient.dag, replaced_node);
    let width_node = const_node(ConstValue::Int(amount), dag[end as int].dtype);
    let width = put(replaced.dag, width_node);
    let new_node = range_node(width.id, axis, kind, node.dtype);
    let new = put(width.dag, new_node);
    let (outer, inner, step) = if top {
        (new.id, replaced.id, quotient.id)
    } else {
        (replaced.id, new.id, width.id)
    };
    let start_node = pair_node(BinaryOp::Mul, node.dtype, outer, step);
    let start = put(new.dag, start_node);
    let index_node = pair_node(BinaryOp::Add, node.dtype, start.id, inner);
    let index = put(start.dag, index_node);
    let parts = parts_of(dag, range, amount, axis, kind, top)->0;
    lemma_substituted_grows(index.dag, root, seq![(range, index.id)]);
    lemma_interned_keeps(start.dag, index_node);
    lemma_interned_keeps(new.dag, start_node);
    lemma_interned_keeps(width.dag, new_node);
    lemma_interned_keeps(replaced.dag, width_node);
    lemma_interned_keeps(quotient.dag, replaced_node);
    lemma_quotient_means(dag, end, amount, at);
    assert forall|k: int| 0 <= k < replaced_node.srcs.len() implies (#[trigger] replaced_node.srcs[k])
        < quotient.dag.len() by {
        if k > 0 {
            assert(dag[range as int].srcs[k] < range);
        }
    }
    lemma_put_meaning(quotient.dag, replaced_node, at);
    lemma_put_meaning(replaced.dag, width_node, at);
    lemma_put_meaning(width.dag, new_node, at);
    lemma_meaning_extends(quotient.dag, new.dag, quotient.id, at);
    lemma_meaning_extends(replaced.dag, new.dag, replaced.id, at);
    lemma_meaning_extends(width.dag, new.dag, width.id, at);
    lemma_put_meaning(new.dag, start_node, at);
    lemma_meaning_extends(new.dag, start.dag, inner, at);
    lemma_put_meaning(start.dag, index_node, at);
    let q = meaning(quotient.dag, quotient.id, at)->0;
    lemma_meaning_extends(quotient.dag, index.dag, quotient.id, at);
    let then = rejoined(dag, range, q, amount, axis, kind, top, at);
    assert forall|i: int| 0 <= i < dag.len() implies #[trigger] index.dag[i] == dag[i] by {
        assert(quotient.dag[i] == dag[i]);
        assert(replaced.dag[i] == dag[i]);
        assert(width.dag[i] == dag[i]);
        assert(new.dag[i] == dag[i]);
        assert(start.dag[i] == dag[i]);
    }
    let pairs = seq![(range, index.id)];
    assert(exchanges(index.dag, root, pairs, at, then)) by {
        assert forall|x: usize| #[trigger] visible(index.dag, root, x) implies match lookup(pairs, x) {
            Some(with) => with < index.dag.len() && meaning(index.dag, with, at) == meaning(
                index.dag,
                x,
                then,
            ),
            None => is_leaf(index.dag[x as int].op) ==> at(index.dag[x as int].op) == then(
                index.dag[x as int].op,
            ),
        } by {
            lemma_visible_extends(dag, index.dag, root, x);
            lemma_visible_step(dag, root, x);
            lemma_lookup_one(range, index.id, x);
            if x == range {
                lemma_meaning(index.dag, range, then);
            }
        }
    }
    lemma_substitution_means(index.dag, root, pairs, at, then);
    lemma_meaning_extends(dag, index.dag, root, then);
}

} // verus!
