//! Reductions over loops that the reduced value does not read, and over
//! products with factors that do not change.

use vstd::prelude::*;

use crate::bounds::{find_bounds, greatest, least, whole};
use crate::builders::{cast_node, lemma_interned_keeps, put, Built};
use crate::graph::{dag_wf, BinaryOp, DType, Graph, NodeView, Op, ReduceOp};
use crate::late::{int_at, int_of, made, never_negative, pair_node, put_pair};
use crate::meaning::{is_whole, lemma_arity, lemma_meaning, meaning};
use crate::passes::{extends, grown, sources};
use crate::topo::{lemma_reaches_transitive, lemma_topo, reaches, topo};

verus! {

/// The extent of a loop, if it is a constant.
pub open spec fn range_size(dag: Seq<NodeView>, id: usize) -> Option<i64> {
    if dag[id as int].op is Range {
        int_of(dag, dag[id as int].srcs[0])
    } else {
        None
    }
}

/// The extent of a loop, if it is a constant.
pub fn range_size_as_i64(graph: &Graph, id: usize) -> (size: Option<i64>)
    requires
        graph.wf(),
        id < graph@.len(),
    ensures
        size == range_size(graph@, id),
{
    proof {
        lemma_arity(graph@, id);
    }
    match graph.op(id) {
        Op::Range { .. } => int_at(graph, graph.source(id, 0)),
        _ => None,
    }
}

/// Those of the first `n` loops that a value reads, or else those it does not.
pub open spec fn sorted_out(
    dag: Seq<NodeView>,
    src: usize,
    ranges: Seq<usize>,
    read: bool,
    n: nat,
) -> Seq<usize>
    decreases n,
{
    if n == 0 {
        Seq::empty()
    } else {
        let rest = sorted_out(dag, src, ranges, read, (n - 1) as nat);
        if reaches(dag, src, ranges[n - 1]) == read {
            rest.push(ranges[n - 1])
        } else {
            rest
        }
    }
}

/// The loops that a value reads.
pub open spec fn tied(dag: Seq<NodeView>, src: usize, ranges: Seq<usize>) -> Seq<usize> {
    sorted_out(dag, src, ranges, true, ranges.len())
}

/// The loops that a value does not read.
pub open spec fn loose(dag: Seq<NodeView>, src: usize, ranges: Seq<usize>) -> Seq<usize> {
    sorted_out(dag, src, ranges, false, ranges.len())
}

/// A value as often as a loop runs: added, it is multiplied by the extent;
/// multiplied, it is raised to the extent; and of equal values it is the
/// greatest.
pub open spec fn repeated(
    dag: Seq<NodeView>,
    op: ReduceOp,
    dtype: DType,
    value: usize,
    extent: usize,
) -> Built {
    match op {
        ReduceOp::Max => Built { dag, id: value },
        _ => {
            let count = put(dag, cast_node(extent, dtype));
            put(
                count.dag,
                pair_node(
                    if op == ReduceOp::Add {
                        BinaryOp::Mul
                    } else {
                        BinaryOp::Pow
                    },
                    dtype,
                    value,
                    count.id,
                ),
            )
        },
    }
}

/// A value as often as each of the first `n` loops runs.
pub open spec fn repeated_all(
    base: Built,
    op: ReduceOp,
    dtype: DType,
    ranges: Seq<usize>,
    n: nat,
) -> Built
    decreases n,
{
    if n == 0 {
        base
    } else {
        let rest = repeated_all(base, op, dtype, ranges, (n - 1) as nat);
        repeated(rest.dag, op, dtype, rest.id, rest.dag[ranges[n - 1] as int].srcs[0])
    }
}

/// Whether a node reduces by an operation for which a loop that the value does
/// not read can be folded. The minimum is not among them.
pub open spec fn folds(op: ReduceOp) -> bool {
    op == ReduceOp::Add || op == ReduceOp::Mul || op == ReduceOp::Max
}

/// A reduction over loops that its value does not read is one over the others,
/// as often as the former run.
pub open spec fn unparented(dag: Seq<NodeView>, id: usize) -> Option<Built> {
    let node = dag[id as int];
    match node.op {
        Op::Reduce(op) => {
            let src = node.srcs[0];
            let ranges = node.srcs.skip(1);
            let inner = tied(dag, src, ranges);
            let outer = loose(dag, src, ranges);
            if !folds(op) || outer.len() == 0 || !all_ranges(dag, ranges) {
                None
            } else {
                let base = if inner.len() == 0 {
                    Built { dag, id: src }
                } else {
                    put(
                        dag,
                        NodeView {
                            op: node.op,
                            dtype: node.dtype,
                            srcs: seq![src] + inner,
                        },
                    )
                };
                Some(repeated_all(base, op, node.dtype, outer, outer.len()))
            }
        },
        _ => None,
    }
}

/// Whether nodes are loops.
pub open spec fn all_ranges(dag: Seq<NodeView>, ranges: Seq<usize>) -> bool {
    forall|k: int| 0 <= k < ranges.len() ==> dag[(#[trigger] ranges[k]) as int].op is Range
}

fn walk_has(walk: &Vec<usize>, id: usize) -> (r: bool)
    ensures
        r == walk@.contains(id),
{
    let mut k: usize = 0;
    while k < walk.len()
        invariant
            k <= walk@.len(),
            forall|j: int| 0 <= j < k ==> walk@[j] != id,
        decreases walk@.len() - k,
    {
        if walk[k] == id {
            return true;
        }
        k += 1;
    }
    false
}

pub(crate) fn sort_out(graph: &Graph, src: usize, ranges: &Vec<usize>, read: bool) -> (list: Vec<usize>)
    requires
        graph.wf(),
        src < graph@.len(),
        forall|k: int| 0 <= k < ranges@.len() ==> (#[trigger] ranges@[k]) < graph@.len(),
    ensures
        list@ == sorted_out(graph@, src, ranges@, read, ranges@.len()),
        forall|k: int| 0 <= k < list@.len() ==> ranges@.contains(#[trigger] list@[k]),
        forall|k: int| 0 <= k < list@.len() ==> (#[trigger] list@[k]) < graph@.len(),
{
    let walk = graph.toposort(src);
    proof {
        lemma_topo(graph@, src);
    }
    let mut list: Vec<usize> = Vec::new();
    let mut n: usize = 0;
    while n < ranges.len()
        invariant
            graph.wf(),
            src < graph@.len(),
            walk@ == topo(graph@, src),
            forall|x: usize| #[trigger] topo(graph@, src).contains(x) <==> reaches(graph@, src, x),
            forall|k: int| 0 <= k < ranges@.len() ==> (#[trigger] ranges@[k]) < graph@.len(),
            n <= ranges@.len(),
            list@ == sorted_out(graph@, src, ranges@, read, n as nat),
            forall|k: int| 0 <= k < list@.len() ==> ranges@.contains(#[trigger] list@[k]),
            forall|k: int| 0 <= k < list@.len() ==> (#[trigger] list@[k]) < graph@.len(),
        decreases ranges@.len() - n,
    {
        let r: usize = ranges[n];
        let hit: bool = walk_has(&walk, r);
        assert(hit == reaches(graph@, src, r));
        if hit == read {
            list.push(r);
            assert(ranges@[n as int] == r);
        }
        n += 1;
    }
    list
}

pub(crate) fn put_repeated(graph: &mut Graph, op: ReduceOp, dtype: DType, value: usize, extent: usize) -> (id:
    usize)
    requires
        old(graph).wf(),
        value < old(graph)@.len(),
        extent < old(graph)@.len(),
    ensures
        grown(old(graph)@, *final(graph), repeated(old(graph)@, op, dtype, value, extent), id),
{
    let by: BinaryOp = match op {
        ReduceOp::Max => {
            return value;
        },
        ReduceOp::Add => BinaryOp::Mul,
        _ => BinaryOp::Pow,
    };
    let ghost dag = graph@;
    let count: usize = graph.cast(extent, dtype);
    proof {
        lemma_interned_keeps(dag, cast_node(extent, dtype));
    }
    put_pair(graph, by, dtype, value, count)
}

/// The list of a node's sources but the first.
pub(crate) fn tail(list: &Vec<usize>) -> (rest: Vec<usize>)
    requires
        list@.len() > 0,
    ensures
        rest@ == list@.skip(1),
{
    let mut rest: Vec<usize> = Vec::new();
    let mut k: usize = 1;
    while k < list.len()
        invariant
            1 <= k <= list@.len(),
            rest@ == list@.subrange(1, k as int),
        decreases list@.len() - k,
    {
        rest.push(list[k]);
        k += 1;
        assert(rest@ =~= list@.subrange(1, k as int));
    }
    assert(rest@ =~= list@.skip(1));
    rest
}

pub(crate) fn are_ranges(graph: &Graph, ranges: &Vec<usize>) -> (r: bool)
    requires
        forall|k: int| 0 <= k < ranges@.len() ==> (#[trigger] ranges@[k]) < graph@.len(),
    ensures
        r == all_ranges(graph@, ranges@),
{
    let mut k: usize = 0;
    while k < ranges.len()
        invariant
            forall|k: int| 0 <= k < ranges@.len() ==> (#[trigger] ranges@[k]) < graph@.len(),
            k <= ranges@.len(),
            forall|j: int| 0 <= j < k ==> graph@[(#[trigger] ranges@[j]) as int].op is Range,
        decreases ranges@.len() - k,
    {
        match graph.op(ranges[k]) {
            Op::Range { .. } => {},
            _ => {
                assert(!(graph@[ranges@[k as int] as int].op is Range));
                return false;
            },
        }
        k += 1;
    }
    true
}

/// Folds the loops that a reduced value does not read; see `unparented`.
pub fn reduce_unparented(graph: &mut Graph, id: usize) -> (new: Option<usize>)
    requires
        old(graph).wf(),
        id < old(graph)@.len(),
    ensures
        made(old(graph)@, *final(graph), unparented(old(graph)@, id), new),
{
    let ghost dag = graph@;
    proof {
        lemma_arity(dag, id);
    }
    let op: ReduceOp = match graph.op(id) {
        Op::Reduce(op) => op,
        _ => {
            return None;
        },
    };
    let list = sources(graph, id);
    let src: usize = list[0];
    let ranges = tail(&list);
    assert forall|k: int| 0 <= k < ranges@.len() implies (#[trigger] ranges@[k]) < dag.len() by {
        assert(ranges@[k] == list@[k + 1]);
    }
    let dtype = graph.dtype(id);
    let inner = sort_out(graph, src, &ranges, true);
    let outer = sort_out(graph, src, &ranges, false);
    let foldable: bool = match op {
        ReduceOp::Min => false,
        _ => true,
    };
    if !foldable || outer.len() == 0 || !are_ranges(graph, &ranges) {
        return None;
    }
    let ghost inner_node = NodeView {
        op: Op::Reduce(op),
        dtype,
        srcs: seq![src] + inner@,
    };
    let mut acc: usize = src;
    if inner.len() > 0 {
        acc = graph.led(Op::Reduce(op), dtype, src, inner.as_slice());
        proof {
            lemma_interned_keeps(dag, inner_node);
        }
    }
    let ghost base = Built { dag: graph@, id: acc };
    let mut n: usize = 0;
    while n < outer.len()
        invariant
            graph.wf(),
            dag_wf(dag),
            extends(dag, base.dag),
            extends(dag, graph@),
            acc < graph@.len(),
            n <= outer@.len(),
            forall|k: int|
                0 <= k < outer@.len() ==> (#[trigger] outer@[k]) < dag.len()
                    && dag[outer@[k] as int].op is Range,
            (Built { dag: graph@, id: acc }) == repeated_all(base, op, dtype, outer@, n as nat),
        decreases outer@.len() - n,
    {
        let r: usize = outer[n];
        proof {
            lemma_arity(dag, r);
            assert(graph@[r as int] == dag[r as int]);
        }
        let extent: usize = graph.source(r, 0);
        acc = put_repeated(graph, op, dtype, acc, extent);
        n += 1;
    }
    Some(acc)
}

/// The factors of a product, left to right.
pub open spec fn factors(dag: Seq<NodeView>, id: usize) -> Seq<usize>
    decreases id,
{
    let node = dag[id as int];
    if node.op == Op::Binary(BinaryOp::Mul) && node.srcs[0] < id && node.srcs[1] < id {
        factors(dag, node.srcs[0]) + factors(dag, node.srcs[1])
    } else {
        seq![id]
    }
}

/// Whether a factor can be taken out of a reduction: it reads none of the
/// loops, and where the greatest value is taken it is known not to be
/// negative, since a negative factor turns the order round.
pub open spec fn lifts(dag: Seq<NodeView>, op: ReduceOp, factor: usize, ranges: Seq<usize>) -> bool {
    &&& forall|k: int| 0 <= k < ranges.len() ==> !reaches(dag, factor, #[trigger] ranges[k])
    &&& op == ReduceOp::Add || never_negative(dag, factor)
}

/// Those of the first `n` factors that can be taken out, or else those that
/// cannot.
pub open spec fn chosen(
    dag: Seq<NodeView>,
    op: ReduceOp,
    list: Seq<usize>,
    ranges: Seq<usize>,
    lifted: bool,
    n: nat,
) -> Seq<usize>
    decreases n,
{
    if n == 0 {
        Seq::empty()
    } else {
        let rest = chosen(dag, op, list, ranges, lifted, (n - 1) as nat);
        if lifts(dag, op, list[n - 1], ranges) == lifted {
            rest.push(list[n - 1])
        } else {
            rest
        }
    }
}

/// A value times the first `n` of some factors.
pub open spec fn scaled(base: Built, dtype: DType, list: Seq<usize>, n: nat) -> Built
    decreases n,
{
    if n == 0 {
        base
    } else {
        let rest = scaled(base, dtype, list, (n - 1) as nat);
        put(rest.dag, pair_node(BinaryOp::Mul, dtype, rest.id, list[n - 1]))
    }
}

/// A reduction of a product of whole numbers, by addition or to the greatest
/// value, is that of the factors that have to stay, times the others.
pub open spec fn mul_chain(dag: Seq<NodeView>, id: usize) -> Option<Built> {
    let node = dag[id as int];
    match node.op {
        Op::Reduce(op) => {
            let src = node.srcs[0];
            let ranges = node.srcs.skip(1);
            let list = factors(dag, src);
            let out = chosen(dag, op, list, ranges, true, list.len());
            let stay = chosen(dag, op, list, ranges, false, list.len());
            if (op == ReduceOp::Add || op == ReduceOp::Max) && is_whole(node.dtype) && out.len() > 0
                && stay.len() > 0 {
                let inner = scaled(
                    Built { dag, id: stay[0] },
                    node.dtype,
                    stay.skip(1),
                    (stay.len() - 1) as nat,
                );
                let reduced = put(
                    inner.dag,
                    NodeView {
                        op: node.op,
                        dtype: node.dtype,
                        srcs: seq![inner.id] + ranges,
                    },
                );
                Some(scaled(reduced, node.dtype, out, out.len()))
            } else {
                None
            }
        },
        _ => None,
    }
}

fn find_factors(graph: &Graph, id: usize) -> (list: Vec<usize>)
    requires
        graph.wf(),
        id < graph@.len(),
    ensures
        list@ == factors(graph@, id),
        list@.len() > 0,
        forall|k: int| 0 <= k < list@.len() ==> (#[trigger] list@[k]) <= id,
    decreases id,
{
    proof {
        lemma_arity(graph@, id);
    }
    match graph.op(id) {
        Op::Binary(BinaryOp::Mul) => {
            let left: usize = graph.source(id, 0);
            let right: usize = graph.source(id, 1);
            let mut list = find_factors(graph, left);
            let more = find_factors(graph, right);
            let ghost first = list@;
            let mut k: usize = 0;
            while k < more.len()
                invariant
                    k <= more@.len(),
                    list@ == first + more@.take(k as int),
                    first.len() > 0,
                    left < id,
                    right < id,
                    forall|j: int| 0 <= j < first.len() ==> (#[trigger] first[j]) <= left,
                    forall|j: int| 0 <= j < more@.len() ==> (#[trigger] more@[j]) <= right,
                    forall|j: int| 0 <= j < list@.len() ==> (#[trigger] list@[j]) <= id,
                decreases more@.len() - k,
            {
                list.push(more[k]);
                k += 1;
                assert(list@ =~= first + more@.take(k as int));
            }
            assert(more@.take(more@.len() as int) =~= more@);
            list
        },
        _ => {
            let mut list: Vec<usize> = Vec::new();
            list.push(id);
            assert(list@ =~= seq![id]);
            list
        },
    }
}

fn can_lift(graph: &Graph, op: ReduceOp, factor: usize, ranges: &Vec<usize>) -> (r: bool)
    requires
        graph.wf(),
        factor < graph@.len(),
    ensures
        r == lifts(graph@, op, factor, ranges@),
{
    let walk = graph.toposort(factor);
    proof {
        lemma_topo(graph@, factor);
    }
    let mut k: usize = 0;
    while k < ranges.len()
        invariant
            walk@ == topo(graph@, factor),
            forall|x: usize| #[trigger]
                topo(graph@, factor).contains(x) <==> reaches(graph@, factor, x),
            k <= ranges@.len(),
            forall|j: int| 0 <= j < k ==> !reaches(graph@, factor, #[trigger] ranges@[j]),
        decreases ranges@.len() - k,
    {
        if walk_has(&walk, ranges[k]) {
            assert(reaches(graph@, factor, ranges@[k as int]));
            return false;
        }
        k += 1;
    }
    match op {
        ReduceOp::Add => true,
        _ => match find_bounds(graph, factor) {
            Some(pair) => pair.0 >= 0,
            None => false,
        },
    }
}

fn choose_factors(
    graph: &Graph,
    op: ReduceOp,
    list: &Vec<usize>,
    ranges: &Vec<usize>,
    lifted: bool,
) -> (some: Vec<usize>)
    requires
        graph.wf(),
        forall|k: int| 0 <= k < list@.len() ==> (#[trigger] list@[k]) < graph@.len(),
    ensures
        some@ == chosen(graph@, op, list@, ranges@, lifted, list@.len()),
        forall|k: int| 0 <= k < some@.len() ==> (#[trigger] some@[k]) < graph@.len(),
{
    let mut some: Vec<usize> = Vec::new();
    let mut n: usize = 0;
    while n < list.len()
        invariant
            graph.wf(),
            forall|k: int| 0 <= k < list@.len() ==> (#[trigger] list@[k]) < graph@.len(),
            n <= list@.len(),
            some@ == chosen(graph@, op, list@, ranges@, lifted, n as nat),
            forall|k: int| 0 <= k < some@.len() ==> (#[trigger] some@[k]) < graph@.len(),
        decreases list@.len() - n,
    {
        let factor: usize = list[n];
        if can_lift(graph, op, factor, ranges) == lifted {
            some.push(factor);
        }
        n += 1;
    }
    some
}

fn put_scaled(graph: &mut Graph, base: usize, dtype: DType, list: &Vec<usize>) -> (id: usize)
    requires
        old(graph).wf(),
        base < old(graph)@.len(),
        forall|k: int| 0 <= k < list@.len() ==> (#[trigger] list@[k]) < old(graph)@.len(),
    ensures
        grown(
            old(graph)@,
            *final(graph),
            scaled(Built { dag: old(graph)@, id: base }, dtype, list@, list@.len()),
            id,
        ),
{
    let ghost dag = graph@;
    let ghost first = Built { dag, id: base };
    let mut acc: usize = base;
    let mut n: usize = 0;
    while n < list.len()
        invariant
            graph.wf(),
            extends(dag, graph@),
            acc < graph@.len(),
            forall|k: int| 0 <= k < list@.len() ==> (#[trigger] list@[k]) < dag.len(),
            n <= list@.len(),
            (Built { dag: graph@, id: acc }) == scaled(first, dtype, list@, n as nat),
        decreases list@.len() - n,
    {
        acc = put_pair(graph, BinaryOp::Mul, dtype, acc, list[n]);
        n += 1;
    }
    acc
}

/// Takes factors out of a reduction; see `mul_chain`.
pub fn reduce_mul_chain(graph: &mut Graph, id: usize) -> (new: Option<usize>)
    requires
        old(graph).wf(),
        id < old(graph)@.len(),
    ensures
        made(old(graph)@, *final(graph), mul_chain(old(graph)@, id), new),
{
    let ghost dag = graph@;
    proof {
        lemma_arity(dag, id);
    }
    let op: ReduceOp = match graph.op(id) {
        Op::Reduce(op) => op,
        _ => {
            return None;
        },
    };
    let dtype = graph.dtype(id);
    let fits: bool = match op {
        ReduceOp::Add => true,
        ReduceOp::Max => true,
        _ => false,
    };
    if !fits || !whole(dtype) {
        return None;
    }
    let list = sources(graph, id);
    let src: usize = list[0];
    let ranges = tail(&list);
    assert forall|k: int| 0 <= k < ranges@.len() implies (#[trigger] ranges@[k]) < dag.len() by {
        assert(ranges@[k] == list@[k + 1]);
    }
    let all = find_factors(graph, src);
    let out = choose_factors(graph, op, &all, &ranges, true);
    let stay = choose_factors(graph, op, &all, &ranges, false);
    if out.len() == 0 || stay.len() == 0 {
        return None;
    }
    let first: usize = stay[0];
    let rest = tail(&stay);
    assert forall|k: int| 0 <= k < rest@.len() implies (#[trigger] rest@[k]) < dag.len() by {
        assert(rest@[k] == stay@[k + 1]);
    }
    let inner: usize = put_scaled(graph, first, dtype, &rest);
    let ghost held = graph@;
    let reduced: usize = graph.led(Op::Reduce(op), dtype, inner, ranges.as_slice());
    proof {
        lemma_interned_keeps(
            held,
            NodeView {
                op: Op::Reduce(op),
                dtype,
                srcs: seq![inner] + ranges@,
            },
        );
    }
    Some(put_scaled(graph, reduced, dtype, &out))
}

/// What simplifies a reduction: the loops that it does not read are folded, or
/// else the factors that do not change are taken out.
pub open spec fn simplified(dag: Seq<NodeView>, id: usize) -> Option<Built> {
    match unparented(dag, id) {
        Some(built) => Some(built),
        None => mul_chain(dag, id),
    }
}

/// Simplifies a reduction; see `simplified`.
pub fn reduce_simplify(graph: &mut Graph, id: usize) -> (new: Option<usize>)
    requires
        old(graph).wf(),
        id < old(graph)@.len(),
    ensures
        made(old(graph)@, *final(graph), simplified(old(graph)@, id), new),
{
    match reduce_unparented(graph, id) {
        Some(new) => Some(new),
        None => reduce_mul_chain(graph, id),
    }
}

/// What two values are reduced to.
pub open spec fn joined(op: ReduceOp, a: int, b: int) -> int {
    match op {
        ReduceOp::Add => a + b,
        ReduceOp::Mul => a * b,
        ReduceOp::Max => greatest(a, b),
        ReduceOp::Min => least(a, b),
    }
}

/// What the values of the first `n` steps of a loop are reduced to. No values
/// have a sum and a product, but no greatest and no least.
pub open spec fn tallied(op: ReduceOp, n: nat, f: spec_fn(int) -> Option<int>) -> Option<int>
    decreases n,
{
    if n == 0 {
        match op {
            ReduceOp::Add => Some(0),
            ReduceOp::Mul => Some(1),
            _ => None,
        }
    } else if n == 1 && (op == ReduceOp::Max || op == ReduceOp::Min) {
        f(0)
    } else {
        match (tallied(op, (n - 1) as nat, f), f(n - 1)) {
            (Some(a), Some(b)) => Some(joined(op, a, b)),
            _ => None,
        }
    }
}

/// An assignment at one step of a loop.
pub open spec fn step_at(at: spec_fn(Op) -> int, axis: Op, i: int) -> spec_fn(Op) -> int {
    |op: Op|
        if op == axis {
            i
        } else {
            at(op)
        }
}

/// What a value is reduced to over loops of constant extents, the last loop
/// outermost.
pub open spec fn reduction(
    dag: Seq<NodeView>,
    op: ReduceOp,
    src: usize,
    ranges: Seq<usize>,
    at: spec_fn(Op) -> int,
) -> Option<int>
    decreases ranges.len(), 1int,
{
    if ranges.len() == 0 {
        meaning(dag, src, at)
    } else {
        match range_size(dag, ranges.last()) {
            Some(n) => if n >= 0 {
                tallied(op, n as nat, steps(dag, op, src, ranges, at))
            } else {
                None
            },
            None => None,
        }
    }
}

/// What a value is reduced to at each step of the outermost loop.
pub open spec fn steps(
    dag: Seq<NodeView>,
    op: ReduceOp,
    src: usize,
    ranges: Seq<usize>,
    at: spec_fn(Op) -> int,
) -> spec_fn(int) -> Option<int>
    decreases ranges.len(), 0int,
{
    if ranges.len() == 0 {
        |i: int| None
    } else {
        |i: int|
            reduction(
                dag,
                op,
                src,
                ranges.drop_last(),
                step_at(at, dag[ranges.last() as int].op, i),
            )
    }
}

/// A value that is the same at each of `n` steps, reduced.
pub open spec fn same_at_each(op: ReduceOp, value: Option<int>, n: int) -> Option<int> {
    match value {
        Some(x) => match op {
            ReduceOp::Add => Some(x * n),
            _ => Some(x),
        },
        None => None,
    }
}

/// A value that is the same at each step of each of some loops, reduced.
pub open spec fn same_at_all(
    dag: Seq<NodeView>,
    op: ReduceOp,
    value: Option<int>,
    ranges: Seq<usize>,
) -> Option<int>
    decreases ranges.len(),
{
    if ranges.len() == 0 {
        value
    } else {
        same_at_each(
            op,
            same_at_all(dag, op, value, ranges.drop_last()),
            range_size(dag, ranges.last()).unwrap() as int,
        )
    }
}

pub(crate) proof fn lemma_tallied_same(
    op: ReduceOp,
    n: nat,
    f: spec_fn(int) -> Option<int>,
    g: spec_fn(int) -> Option<int>,
)
    requires
        forall|i: int| 0 <= i < n ==> #[trigger] f(i) == g(i),
    ensures
        tallied(op, n, f) == tallied(op, n, g),
    decreases n,
{
    if n > 0 {
        assert(f(0) == g(0));
        assert(f(n - 1) == g(n - 1));
        lemma_tallied_same(op, (n - 1) as nat, f, g);
    }
}

/// A value that is the same at each step of a loop, reduced.
pub proof fn lemma_tallied_constant(
    op: ReduceOp,
    n: nat,
    value: Option<int>,
    f: spec_fn(int) -> Option<int>,
)
    requires
        op == ReduceOp::Add || op == ReduceOp::Max,
        n >= 1,
        forall|i: int| 0 <= i < n ==> #[trigger] f(i) == value,
    ensures
        tallied(op, n, f) == same_at_each(op, value, n as int),
    decreases n,
{
    assert(f(0) == value);
    assert(f(n - 1) == value);
    if n > 1 {
        lemma_tallied_constant(op, (n - 1) as nat, value, f);
        match value {
            Some(x) => {
                assert(x * (n - 1) + x == x * n) by (nonlinear_arith);
            },
            None => {},
        }
    } else {
        assert(tallied(op, 0, f) == (match op {
            ReduceOp::Add => Some(0int),
            ReduceOp::Mul => Some(1int),
            _ => None,
        }));
        match value {
            Some(x) => {
                assert(x * 1 == x);
            },
            None => {},
        }
    }
}

/// A factor comes out of a sum; and out of a greatest value, where it is not
/// negative.
pub proof fn lemma_factor_lifts(
    op: ReduceOp,
    n: nat,
    c: int,
    f: spec_fn(int) -> int,
)
    requires
        op == ReduceOp::Add || (op == ReduceOp::Max && c >= 0),
    ensures
        tallied(op, n, |i: int| Some(f(i) * c)) == (match tallied(op, n, |i: int| Some(f(i))) {
            Some(x) => Some(x * c),
            None => None,
        }),
    decreases n,
{
    let g = |i: int| Some(f(i));
    let h = |i: int| Some(f(i) * c);
    if n > 0 {
        lemma_factor_lifts(op, (n - 1) as nat, c, f);
        assert(h(n - 1) == Some(f(n - 1) * c));
        match tallied(op, (n - 1) as nat, g) {
            Some(x) => {
                let y = f(n - 1);
                if op == ReduceOp::Add {
                    assert((x + y) * c == x * c + y * c) by (nonlinear_arith);
                } else {
                    if x < y {
                        assert(x * c <= y * c) by (nonlinear_arith)
                            requires
                                x <= y,
                                c >= 0,
                        ;
                    } else {
                        assert(y * c <= x * c) by (nonlinear_arith)
                            requires
                                y <= x,
                                c >= 0,
                        ;
                    }
                }
            },
            None => {},
        }
    } else {
        assert(0 * c == 0);
    }
}

/// A value that does not read a loop is the same at each step of it.
pub proof fn lemma_meaning_ignores(
    dag: Seq<NodeView>,
    id: usize,
    axis: Op,
    i: int,
    at: spec_fn(Op) -> int,
)
    requires
        dag_wf(dag),
        id < dag.len(),
        forall|x: usize| reaches(dag, id, x) ==> (#[trigger] dag[x as int]).op != axis,
    ensures
        meaning(dag, id, step_at(at, axis, i)) == meaning(dag, id, at),
    decreases id,
{
    let now = step_at(at, axis, i);
    let node = dag[id as int];
    lemma_arity(dag, id);
    lemma_meaning(dag, id, at);
    lemma_meaning(dag, id, now);
    assert(reaches(dag, id, id));
    assert(now(node.op) == at(node.op));
    if node.srcs.len() > 0 {
        lemma_source_ignores(dag, id, 0, axis, i, at);
    }
    if node.srcs.len() > 1 {
        lemma_source_ignores(dag, id, 1, axis, i, at);
    }
    if node.srcs.len() > 2 {
        lemma_source_ignores(dag, id, 2, axis, i, at);
    }
}

proof fn lemma_source_ignores(
    dag: Seq<NodeView>,
    id: usize,
    k: int,
    axis: Op,
    i: int,
    at: spec_fn(Op) -> int,
)
    requires
        dag_wf(dag),
        id < dag.len(),
        0 <= k < dag[id as int].srcs.len(),
        forall|x: usize| reaches(dag, id, x) ==> (#[trigger] dag[x as int]).op != axis,
    ensures
        meaning(dag, dag[id as int].srcs[k], step_at(at, axis, i)) == meaning(
            dag,
            dag[id as int].srcs[k],
            at,
        ),
    decreases id, 0int,
{
    let src = dag[id as int].srcs[k];
    assert(src < id);
    assert(reaches(dag, src, src));
    assert(reaches(dag, id, src));
    assert forall|x: usize| reaches(dag, src, x) implies (#[trigger] dag[x as int]).op != axis by {
        lemma_reaches_transitive(dag, id, src, x);
    }
    lemma_meaning_ignores(dag, src, axis, i, at);
}

/// A reduction whose value does not read a loop is the same at each step of it.
proof fn lemma_reduction_ignores(
    dag: Seq<NodeView>,
    op: ReduceOp,
    src: usize,
    ranges: Seq<usize>,
    axis: Op,
    i: int,
    at: spec_fn(Op) -> int,
)
    requires
        dag_wf(dag),
        src < dag.len(),
        forall|x: usize| reaches(dag, src, x) ==> (#[trigger] dag[x as int]).op != axis,
    ensures
        reduction(dag, op, src, ranges, step_at(at, axis, i)) == reduction(
            dag,
            op,
            src,
            ranges,
            at,
        ),
    decreases ranges.len(),
{
    if ranges.len() == 0 {
        lemma_meaning_ignores(dag, src, axis, i, at);
    } else {
        let r = ranges.last();
        let rest = ranges.drop_last();
        let own = dag[r as int].op;
        let now = step_at(at, axis, i);
        let f = steps(dag, op, src, ranges, now);
        let g = steps(dag, op, src, ranges, at);
        match range_size(dag, r) {
            Some(n) => {
                if n >= 0 {
                    assert forall|j: int| 0 <= j < n implies #[trigger] f(j) == g(j) by {
                        if own == axis {
                            assert(step_at(now, own, j) =~= step_at(at, own, j));
                        } else {
                            assert(step_at(now, own, j) =~= step_at(
                                step_at(at, own, j),
                                axis,
                                i,
                            ));
                            lemma_reduction_ignores(
                                dag,
                                op,
                                src,
                                rest,
                                axis,
                                i,
                                step_at(at, own, j),
                            );
                        }
                    }
                    lemma_tallied_same(op, n as nat, f, g);
                }
            },
            None => {},
        }
    }
}

/// Reducing scaled values is scaling what the values are reduced to.
proof fn lemma_tallied_scaled(
    dag: Seq<NodeView>,
    op: ReduceOp,
    n: nat,
    ranges: Seq<usize>,
    f: spec_fn(int) -> Option<int>,
)
    requires
        op == ReduceOp::Add || op == ReduceOp::Max,
    ensures
        tallied(op, n, |i: int| same_at_all(dag, op, f(i), ranges)) == same_at_all(
            dag,
            op,
            tallied(op, n, f),
            ranges,
        ),
    decreases ranges.len(), n,
{
    let h = |i: int| same_at_all(dag, op, f(i), ranges);
    if ranges.len() == 0 {
        lemma_tallied_same(op, n, h, f);
    } else {
        let rest = ranges.drop_last();
        let k = range_size(dag, ranges.last()).unwrap() as int;
        let g = |i: int| same_at_all(dag, op, f(i), rest);
        lemma_tallied_scaled(dag, op, n, rest, f);
        lemma_tallied_scaled_once(op, n, k, g);
        let s = |i: int| same_at_each(op, g(i), k);
        lemma_tallied_same(op, n, h, s);
    }
}

proof fn lemma_tallied_scaled_once(
    op: ReduceOp,
    n: nat,
    k: int,
    g: spec_fn(int) -> Option<int>,
)
    requires
        op == ReduceOp::Add || op == ReduceOp::Max,
    ensures
        tallied(op, n, |i: int| same_at_each(op, g(i), k)) == same_at_each(
            op,
            tallied(op, n, g),
            k,
        ),
    decreases n,
{
    let s = |i: int| same_at_each(op, g(i), k);
    if n == 0 {
        assert(0 * k == 0);
    } else {
        lemma_tallied_scaled_once(op, (n - 1) as nat, k, g);
        assert(s(0) == same_at_each(op, g(0), k));
        assert(s(n - 1) == same_at_each(op, g(n - 1), k));
        match (tallied(op, (n - 1) as nat, g), g(n - 1)) {
            (Some(a), Some(b)) => {
                assert((a + b) * k == a * k + b * k) by (nonlinear_arith);
            },
            _ => {},
        }
    }
}

proof fn lemma_unparented_prefix(
    dag: Seq<NodeView>,
    op: ReduceOp,
    src: usize,
    ranges: Seq<usize>,
    n: nat,
    at: spec_fn(Op) -> int,
)
    requires
        dag_wf(dag),
        src < dag.len(),
        op == ReduceOp::Add || op == ReduceOp::Max,
        n <= ranges.len(),
        distinct_axes(dag, src, ranges),
    ensures
        reduction(dag, op, src, ranges.take(n as int), at) == same_at_all(
            dag,
            op,
            reduction(dag, op, src, sorted_out(dag, src, ranges, true, n), at),
            sorted_out(dag, src, ranges, false, n),
        ),
    decreases n,
{
    let inner = sorted_out(dag, src, ranges, true, n);
    let outer = sorted_out(dag, src, ranges, false, n);
    if n == 0 {
        assert(ranges.take(0) =~= Seq::<usize>::empty());
    } else {
        let some = ranges.take(n as int);
        let r = ranges[n - 1];
        let axis = dag[r as int].op;
        let size = range_size(dag, r).unwrap() as nat;
        assert(some.drop_last() =~= ranges.take(n - 1));
        assert(some.last() == r);
        let less = sorted_out(dag, src, ranges, true, (n - 1) as nat);
        let more = sorted_out(dag, src, ranges, false, (n - 1) as nat);
        let f = steps(dag, op, src, some, at);
        if reaches(dag, src, r) {
            assert(inner.drop_last() =~= less);
            assert(inner.last() == r);
            assert(outer == more);
            let g = steps(dag, op, src, inner, at);
            let h = |i: int| same_at_all(dag, op, g(i), more);
            assert forall|i: int| 0 <= i < size implies #[trigger] f(i) == h(i) by {
                lemma_unparented_prefix(
                    dag,
                    op,
                    src,
                    ranges,
                    (n - 1) as nat,
                    step_at(at, axis, i),
                );
            }
            lemma_tallied_same(op, size, f, h);
            lemma_tallied_scaled(dag, op, size, more, g);
        } else {
            assert(outer.drop_last() =~= more);
            assert(outer.last() == r);
            assert(inner == less);
            lemma_unparented_prefix(dag, op, src, ranges, (n - 1) as nat, at);
            let value = reduction(dag, op, src, ranges.take(n - 1), at);
            assert forall|i: int| 0 <= i < size implies #[trigger] f(i) == value by {
                lemma_reduction_ignores(dag, op, src, ranges.take(n - 1), axis, i, at);
            }
            lemma_tallied_constant(op, size, value, f);
        }
    }
}

/// Loops of constant positive extents, each of them on an axis that a value
/// either reads through this loop or does not read at all.
pub open spec fn distinct_axes(dag: Seq<NodeView>, src: usize, ranges: Seq<usize>) -> bool {
    forall|k: int|
        #![trigger ranges[k]]
        0 <= k < ranges.len() ==> {
            &&& ranges[k] < dag.len()
            &&& range_size(dag, ranges[k]) matches Some(n) && n >= 1
            &&& reaches(dag, src, ranges[k]) || (forall|x: usize|
                reaches(dag, src, x) ==> (#[trigger] dag[x as int]).op
                    != dag[ranges[k] as int].op)
        }
}

/// A reduction over loops that its value does not read is one over the others,
/// taken as often as the former run: multiplied by their extents where it adds
/// up, and as it is where it takes the greatest.
pub proof fn lemma_unparented_ranges_repeat(
    dag: Seq<NodeView>,
    op: ReduceOp,
    src: usize,
    ranges: Seq<usize>,
    at: spec_fn(Op) -> int,
)
    requires
        dag_wf(dag),
        src < dag.len(),
        op == ReduceOp::Add || op == ReduceOp::Max,
        distinct_axes(dag, src, ranges),
    ensures
        reduction(dag, op, src, ranges, at) == same_at_all(
            dag,
            op,
            reduction(dag, op, src, tied(dag, src, ranges), at),
            loose(dag, src, ranges),
        ),
{
    lemma_unparented_prefix(dag, op, src, ranges, ranges.len(), at);
    assert(ranges.take(ranges.len() as int) =~= ranges);
}

} // verus!
