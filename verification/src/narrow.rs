//! Loops that are run no further than something is read, and neighbouring loops
//! run as one.

use vstd::prelude::*;

use crate::builders::{const_node, put, Built};
use crate::graph::{dag_wf, BinaryOp, ConstValue, DType, Graph, NodeView, Op};
use crate::indexing::is_gated;
use crate::meaning::lemma_arity;
use crate::passes::{extends, grown, sources};
use crate::subst::{substitute, substituted};
use crate::topo::{lemma_topo, reach_row_ok, reaches, topo};

verus! {

/// A loop below a constant, where that is the whole condition of an index.
pub open spec fn gate_bound(dag: Seq<NodeView>, id: usize) -> Option<(usize, i64)> {
    if !is_gated(dag, id) {
        None
    } else {
        let condition = dag[dag[id as int].srcs[0] as int];
        if condition.op != Op::Binary(BinaryOp::Lt) || !(dag[condition.srcs[0] as int].op is Range) {
            None
        } else {
            match dag[condition.srcs[1] as int].op {
                Op::Const(ConstValue::Int(bound)) => Some((condition.srcs[0], bound)),
                _ => None,
            }
        }
    }
}

/// The indices of the accesses among the first `n` nodes of a walk.
pub open spec fn operands(dag: Seq<NodeView>, walk: Seq<usize>, n: nat) -> Seq<usize>
    decreases n,
{
    if n == 0 {
        Seq::empty()
    } else {
        let rest = operands(dag, walk, (n - 1) as nat);
        let node = dag[walk[n - 1] as int];
        if node.op is Index {
            rest + node.srcs.skip(1)
        } else {
            rest
        }
    }
}

/// How far a loop is read.
#[derive(Clone, Copy, Debug, PartialEq, Eq, Structural)]
pub enum ReadExtent {
    Unread,
    Below(i64),
    Whole,
}

/// How far the first `n` of some indices read a loop: as far as the largest
/// bound, or all of it if one of them has no bound.
pub open spec fn read_extent(dag: Seq<NodeView>, list: Seq<usize>, r: usize, n: nat) -> ReadExtent
    decreases n,
{
    if n == 0 {
        ReadExtent::Unread
    } else {
        let rest = read_extent(dag, list, r, (n - 1) as nat);
        match gate_bound(dag, list[n - 1]) {
            Some((loop_id, bound)) if loop_id == r => match rest {
                ReadExtent::Unread => ReadExtent::Below(bound),
                ReadExtent::Below(other) => ReadExtent::Below(
                    if other < bound {
                        bound
                    } else {
                        other
                    },
                ),
                ReadExtent::Whole => ReadExtent::Whole,
            },
            _ => if reaches(dag, list[n - 1], r) {
                ReadExtent::Whole
            } else {
                rest
            },
        }
    }
}

/// Whether a reduction among the first `n` nodes of a walk closes a loop.
pub open spec fn is_reduced_over(dag: Seq<NodeView>, walk: Seq<usize>, r: usize, n: nat) -> bool {
    exists|i: int|
        0 <= i < n && dag[(#[trigger] walk[i]) as int].op is Reduce
            && dag[walk[i] as int].srcs.skip(1).contains(r)
}

/// The constant extent of a loop.
pub open spec fn constant_extent(dag: Seq<NodeView>, r: usize) -> Option<i64> {
    if dag[r as int].op is Range {
        match dag[dag[r as int].srcs[0] as int].op {
            Op::Const(ConstValue::Int(n)) => Some(n),
            _ => None,
        }
    } else {
        None
    }
}

/// What the extent of a loop is cut to.
pub open spec fn narrowed_to(dag: Seq<NodeView>, root: usize, r: usize) -> Option<i64> {
    let walk = topo(dag, root);
    let list = operands(dag, walk, walk.len());
    match (constant_extent(dag, r), read_extent(dag, list, r, list.len())) {
        (Some(extent), ReadExtent::Below(bound)) if 0 < bound < extent && !is_reduced_over(
            dag,
            walk,
            r,
            walk.len(),
        ) => Some(bound),
        _ => None,
    }
}

/// A loop with another extent.
pub open spec fn resized(dag: Seq<NodeView>, like: NodeView, extent: i64) -> Built {
    let end = put(dag, const_node(ConstValue::Int(extent), DType::WeakInt));
    put(end.dag, NodeView { srcs: like.srcs.update(0, end.id), ..like })
}

/// The loops among the first `n` nodes of a walk that are cut, and what takes
/// their place.
pub open spec fn cut_loops(dag: Seq<NodeView>, root: usize, walk: Seq<usize>, n: nat) -> (
    Seq<NodeView>,
    Seq<(usize, usize)>,
)
    decreases n,
{
    if n == 0 {
        (dag, Seq::empty())
    } else {
        let (before, pairs) = cut_loops(dag, root, walk, (n - 1) as nat);
        match narrowed_to(dag, root, walk[n - 1]) {
            None => (before, pairs),
            Some(bound) => {
                let made = resized(before, dag[walk[n - 1] as int], bound);
                (made.dag, pairs.push((walk[n - 1], made.id)))
            },
        }
    }
}

/// Everything at and below a root, with loops run no further than something is
/// read.
pub open spec fn narrowed(dag: Seq<NodeView>, root: usize) -> Built {
    let walk = topo(dag, root);
    let (more, pairs) = cut_loops(dag, root, walk, walk.len());
    substituted(more, root, pairs)
}

/// The steps that are dropped read nothing: every index that a cut loop occurs
/// in holds only below a bound that is kept.
pub proof fn lemma_dropped_steps_read_nothing(dag: Seq<NodeView>, root: usize, r: usize, k: int)
    requires
        narrowed_to(dag, root, r) is Some,
        0 <= k < operands(dag, topo(dag, root), topo(dag, root).len()).len(),
        reaches(dag, operands(dag, topo(dag, root), topo(dag, root).len())[k], r),
    ensures
        ({
            let s = operands(dag, topo(dag, root), topo(dag, root).len())[k];
            &&& gate_bound(dag, s) is Some
            &&& (gate_bound(dag, s)->0).0 == r
            &&& (gate_bound(dag, s)->0).1 <= narrowed_to(dag, root, r)->0
        }),
{
    let walk = topo(dag, root);
    let list = operands(dag, walk, walk.len());
    lemma_read_extent(dag, list, r, list.len(), k);
}

proof fn lemma_read_extent(dag: Seq<NodeView>, list: Seq<usize>, r: usize, n: nat, k: int)
    requires
        0 <= k < n <= list.len(),
        reaches(dag, list[k], r),
        !(read_extent(dag, list, r, n) is Whole),
    ensures
        gate_bound(dag, list[k]) is Some,
        (gate_bound(dag, list[k])->0).0 == r,
        read_extent(dag, list, r, n) is Below,
        (gate_bound(dag, list[k])->0).1 <= read_extent(dag, list, r, n)->Below_0,
    decreases n,
{
    if k < n - 1 {
        lemma_read_extent(dag, list, r, (n - 1) as nat, k);
    }
}

fn find_gate_bound(graph: &Graph, id: usize) -> (found: Option<(usize, i64)>)
    requires
        graph.wf(),
        id < graph@.len(),
    ensures
        found == gate_bound(graph@, id),
{
    if !crate::indexing::gated(graph, id) {
        return None;
    }
    let condition: usize = graph.source(id, 0);
    proof {
        lemma_arity(graph@, condition);
    }
    match graph.op(condition) {
        Op::Binary(BinaryOp::Lt) => {
            let left: usize = graph.source(condition, 0);
            let right: usize = graph.source(condition, 1);
            match graph.op(left) {
                Op::Range { .. } => match graph.op(right) {
                    Op::Const(ConstValue::Int(bound)) => Some((left, bound)),
                    _ => None,
                },
                _ => None,
            }
        },
        _ => None,
    }
}

fn find_operands(graph: &Graph, walk: &Vec<usize>) -> (list: Vec<usize>)
    requires
        graph.wf(),
        forall|k: int| 0 <= k < walk@.len() ==> (#[trigger] walk@[k]) < graph@.len(),
    ensures
        list@ == operands(graph@, walk@, walk@.len()),
        forall|k: int| 0 <= k < list@.len() ==> (#[trigger] list@[k]) < graph@.len(),
{
    let mut list: Vec<usize> = Vec::new();
    let mut n: usize = 0;
    while n < walk.len()
        invariant
            n <= walk@.len(),
            graph.wf(),
            forall|k: int| 0 <= k < walk@.len() ==> (#[trigger] walk@[k]) < graph@.len(),
            list@ == operands(graph@, walk@, n as nat),
            forall|k: int| 0 <= k < list@.len() ==> (#[trigger] list@[k]) < graph@.len(),
        decreases walk@.len() - n,
    {
        let id: usize = walk[n];
        if matches!(graph.op(id), Op::Index) {
            proof {
                lemma_arity(graph@, id);
            }
            let ghost before = list@;
            let ghost rest = graph@[id as int].srcs.skip(1);
            let count: usize = graph.source_count(id);
            let mut k: usize = 1;
            assert(rest.take(0) =~= Seq::empty());
            while k < count
                invariant
                    graph.wf(),
                    id < graph@.len(),
                    count == graph@[id as int].srcs.len(),
                    1 <= k <= count,
                    rest == graph@[id as int].srcs.skip(1),
                    list@ == before + rest.take(k - 1),
                    forall|j: int| 0 <= j < list@.len() ==> (#[trigger] list@[j]) < graph@.len(),
                decreases count - k,
            {
                list.push(graph.source(id, k));
                k += 1;
                assert(list@ =~= before + rest.take(k - 1));
            }
            assert(rest.take(count - 1) =~= rest);
        }
        n += 1;
    }
    list
}

fn find_read_extent(graph: &Graph, rows: &Vec<Vec<bool>>, list: &Vec<usize>, r: usize) -> (found:
    ReadExtent)
    requires
        graph.wf(),
        r < graph@.len(),
        rows@.len() == graph@.len(),
        forall|i: usize|
            i < graph@.len() ==> reach_row_ok(graph@, i, #[trigger] rows@[i as int]@),
        forall|k: int| 0 <= k < list@.len() ==> (#[trigger] list@[k]) < graph@.len(),
    ensures
        found == read_extent(graph@, list@, r, list@.len()),
{
    let mut found = ReadExtent::Unread;
    let mut n: usize = 0;
    while n < list.len()
        invariant
            n <= list@.len(),
            graph.wf(),
            r < graph@.len(),
            rows@.len() == graph@.len(),
            forall|i: usize|
                i < graph@.len() ==> reach_row_ok(graph@, i, #[trigger] rows@[i as int]@),
            forall|k: int| 0 <= k < list@.len() ==> (#[trigger] list@[k]) < graph@.len(),
            found == read_extent(graph@, list@, r, n as nat),
        decreases list@.len() - n,
    {
        let id: usize = list[n];
        let mut bounded = false;
        match find_gate_bound(graph, id) {
            Some((loop_id, bound)) => {
                if loop_id == r {
                    bounded = true;
                    found = match found {
                        ReadExtent::Unread => ReadExtent::Below(bound),
                        ReadExtent::Below(other) => ReadExtent::Below(
                            if other < bound {
                                bound
                            } else {
                                other
                            },
                        ),
                        ReadExtent::Whole => ReadExtent::Whole,
                    };
                }
            },
            None => {},
        }
        assert(reach_row_ok(graph@, id, rows@[id as int]@));
        if !bounded && rows[id][r] {
            found = ReadExtent::Whole;
        }
        n += 1;
    }
    found
}

fn reduced_over(graph: &Graph, walk: &Vec<usize>, r: usize) -> (found: bool)
    requires
        graph.wf(),
        forall|k: int| 0 <= k < walk@.len() ==> (#[trigger] walk@[k]) < graph@.len(),
    ensures
        found == is_reduced_over(graph@, walk@, r, walk@.len()),
{
    let mut n: usize = 0;
    while n < walk.len()
        invariant
            n <= walk@.len(),
            graph.wf(),
            forall|k: int| 0 <= k < walk@.len() ==> (#[trigger] walk@[k]) < graph@.len(),
            !is_reduced_over(graph@, walk@, r, n as nat),
        decreases walk@.len() - n,
    {
        let id: usize = walk[n];
        if matches!(graph.op(id), Op::Reduce(_)) {
            let count: usize = graph.source_count(id);
            let ghost closed = graph@[id as int].srcs.skip(1);
            let mut k: usize = 1;
            while k < count
                invariant
                    graph.wf(),
                    id < graph@.len(),
                    id == walk@[n as int],
                    n < walk@.len(),
                    graph@[id as int].op is Reduce,
                    count == graph@[id as int].srcs.len(),
                    1 <= k,
                    closed == graph@[id as int].srcs.skip(1),
                    forall|j: int| 0 <= j < k - 1 && j < closed.len() ==> closed[j] != r,
                decreases count - k,
            {
                if graph.source(id, k) == r {
                    assert(closed[k - 1] == r);
                    assert(closed.contains(r));
                    return true;
                }
                k += 1;
            }
            assert(!closed.contains(r));
        }
        n += 1;
    }
    false
}

/// How many steps a loop takes, where that is a constant.
pub fn find_constant_extent(graph: &Graph, r: usize) -> (extent: Option<i64>)
    requires
        graph.wf(),
        r < graph@.len(),
    ensures
        extent == constant_extent(graph@, r),
{
    proof {
        lemma_arity(graph@, r);
    }
    match graph.op(r) {
        Op::Range { .. } => {
            let end: usize = graph.source(r, 0);
            match graph.op(end) {
                Op::Const(ConstValue::Int(n)) => Some(n),
                _ => None,
            }
        },
        _ => None,
    }
}

fn put_resized(graph: &mut Graph, r: usize, extent: i64) -> (id: usize)
    requires
        old(graph).wf(),
        r < old(graph)@.len(),
        old(graph)@[r as int].op is Range,
    ensures
        grown(old(graph)@, *final(graph), resized(old(graph)@, old(graph)@[r as int], extent), id),
{
    proof {
        lemma_arity(graph@, r);
    }
    let op = graph.op(r);
    let dtype = graph.dtype(r);
    let mut srcs = sources(graph, r);
    let end: usize = graph.constant(ConstValue::Int(extent), DType::WeakInt);
    srcs.set(0, end);
    graph.node(op, dtype, srcs.as_slice())
}

/// Runs the loops at and below a root no further than something is read. Loops
/// that a reduction closes are left alone.
pub fn simplify_ranges(graph: &mut Graph, root: usize) -> (new: usize)
    requires
        old(graph).wf(),
        root < old(graph)@.len(),
    ensures
        grown(old(graph)@, *final(graph), narrowed(old(graph)@, root), new),
{
    let ghost dag = graph@;
    let walk = graph.toposort(root);
    proof {
        lemma_topo(dag, root);
    }
    let list = find_operands(graph, &walk);
    let rows = graph.reach();
    let mut cuts: Vec<Option<i64>> = Vec::new();
    let mut n: usize = 0;
    while n < walk.len()
        invariant
            n <= walk@.len(),
            graph.wf(),
            graph@ == dag,
            root < dag.len(),
            walk@ == topo(dag, root),
            forall|k: int| 0 <= k < walk@.len() ==> (#[trigger] walk@[k]) < dag.len(),
            list@ == operands(dag, walk@, walk@.len()),
            forall|k: int| 0 <= k < list@.len() ==> (#[trigger] list@[k]) < dag.len(),
            rows@.len() == dag.len(),
            forall|i: usize| i < dag.len() ==> reach_row_ok(dag, i, #[trigger] rows@[i as int]@),
            cuts@.len() == n,
            forall|k: int|
                0 <= k < n ==> #[trigger] cuts@[k] == narrowed_to(dag, root, walk@[k]),
        decreases walk@.len() - n,
    {
        let r: usize = walk[n];
        let cut: Option<i64> = match find_constant_extent(graph, r) {
            None => None,
            Some(extent) => match find_read_extent(graph, &rows, &list, r) {
                ReadExtent::Below(bound) => if 0 < bound && bound < extent && !reduced_over(
                    graph,
                    &walk,
                    r,
                ) {
                    Some(bound)
                } else {
                    None
                },
                _ => None,
            },
        };
        cuts.push(cut);
        n += 1;
    }
    let mut pairs: Vec<(usize, usize)> = Vec::new();
    n = 0;
    while n < walk.len()
        invariant
            n <= walk@.len(),
            dag_wf(dag),
            graph.wf(),
            extends(dag, graph@),
            root < dag.len(),
            walk@ == topo(dag, root),
            forall|k: int| 0 <= k < walk@.len() ==> (#[trigger] walk@[k]) < dag.len(),
            cuts@.len() == walk@.len(),
            forall|k: int|
                0 <= k < walk@.len() ==> #[trigger] cuts@[k] == narrowed_to(dag, root, walk@[k]),
            cut_loops(dag, root, walk@, n as nat) == (graph@, pairs@),
            forall|k: int| 0 <= k < pairs@.len() ==> (#[trigger] pairs@[k]).1 < graph@.len(),
        decreases walk@.len() - n,
    {
        match cuts[n] {
            None => {
                assert(cuts@[n as int] == narrowed_to(dag, root, walk@[n as int]));
            },
            Some(bound) => {
                let r: usize = walk[n];
                assert(cuts@[n as int] == narrowed_to(dag, root, walk@[n as int]));
                assert(graph@[r as int] == dag[r as int]);
                let made: usize = put_resized(graph, r, bound);
                pairs.push((r, made));
            },
        }
        n += 1;
    }
    substitute(graph, root, &pairs)
}

/// Where the first two neighbouring loops of constant, positive extents and one
/// kind stand, from `k` on.
pub open spec fn mergeable(dag: Seq<NodeView>, closed: Seq<usize>, k: nat) -> Option<int>
    decreases closed.len() - k,
{
    if k + 1 >= closed.len() {
        None
    } else if can_merge(dag, closed[k as int], closed[(k + 1) as int]) {
        Some(k as int)
    } else {
        mergeable(dag, closed, k + 1)
    }
}

/// Whether two loops run as one: their extents are constant and positive, their
/// product fits, and they are of one kind.
pub open spec fn can_merge(dag: Seq<NodeView>, a: usize, b: usize) -> bool {
    match (constant_extent(dag, a), constant_extent(dag, b)) {
        (Some(m), Some(n)) => 0 < m && 0 < n && m * n <= i64::MAX && kind_of(dag[a as int].op)
            == kind_of(dag[b as int].op),
        _ => false,
    }
}

/// What a loop is for.
pub open spec fn kind_of(op: Op) -> Option<crate::graph::AxisType> {
    match op {
        Op::Range { kind, .. } => Some(kind),
        _ => None,
    }
}

/// An `End` over one loop in the place of two neighbours: the first is the
/// quotient of its counter by the extent of the second, and the second the
/// remainder.
pub open spec fn merged_end(dag: Seq<NodeView>, id: usize) -> Option<Built> {
    let node = dag[id as int];
    let closed = node.srcs.skip(1);
    if !(node.op is End) {
        None
    } else {
        match mergeable(dag, closed, 0) {
            None => None,
            Some(k) => {
                let a = closed[k];
                let b = closed[k + 1];
                let m = constant_extent(dag, a)->0;
                let n = constant_extent(dag, b)->0;
                let dtype = dag[a as int].dtype;
                let joined = resized(dag, dag[a as int], (m * n) as i64);
                let size = put(joined.dag, const_node(ConstValue::Int(n), dtype));
                let high = put(
                    size.dag,
                    NodeView {
                        op: Op::Binary(BinaryOp::FloorDiv),
                        dtype,
                        srcs: seq![joined.id, size.id],
                    },
                );
                let low = put(
                    high.dag,
                    NodeView {
                        op: Op::Binary(BinaryOp::FloorMod),
                        dtype,
                        srcs: seq![joined.id, size.id],
                    },
                );
                let value = substituted(low.dag, node.srcs[0], seq![(a, high.id), (b, low.id)]);
                let loops = closed.take(k).push(joined.id) + closed.skip(k + 2);
                Some(
                    put(
                        value.dag,
                        NodeView { srcs: seq![value.id] + loops, ..node },
                    ),
                )
            },
        }
    }
}

fn merge_ready(graph: &Graph, a: usize, b: usize) -> (r: bool)
    requires
        graph.wf(),
        a < graph@.len(),
        b < graph@.len(),
    ensures
        r == can_merge(graph@, a, b),
{
    match (find_constant_extent(graph, a), find_constant_extent(graph, b)) {
        (Some(m), Some(n)) => {
            if m <= 0 || n <= 0 {
                return false;
            }
            let fits = match m.checked_mul(n) {
                Some(_product) => true,
                None => false,
            };
            let same = match (graph.op(a), graph.op(b)) {
                (Op::Range { axis: _, kind: x }, Op::Range { axis: _, kind: y }) => x == y,
                _ => false,
            };
            proof {
                assert(m * n > 0) by (nonlinear_arith)
                    requires
                        m > 0,
                        n > 0,
                ;
            }
            fits && same
        },
        _ => false,
    }
}

/// Runs two neighbouring loops that an `End` closes as one, where it can.
pub fn merge_adjacent(graph: &mut Graph, id: usize) -> (new: Option<usize>)
    requires
        old(graph).wf(),
        id < old(graph)@.len(),
    ensures
        crate::late::made(old(graph)@, *final(graph), merged_end(old(graph)@, id), new),
{
    proof {
        lemma_arity(graph@, id);
    }
    match graph.op(id) {
        Op::End => {},
        _ => {
            return None;
        },
    }
    let ghost dag = graph@;
    let ghost closed = dag[id as int].srcs.skip(1);
    let all = sources(graph, id);
    let count: usize = all.len();
    let mut k: usize = 1;
    while k + 1 < count && !merge_ready(graph, all[k], all[k + 1])
        invariant
            graph.wf(),
            graph@ == dag,
            id < dag.len(),
            all@ == dag[id as int].srcs,
            all@.len() >= 2,
            count == all@.len(),
            forall|i: int| 0 <= i < all@.len() ==> (#[trigger] all@[i]) < id,
            closed == all@.skip(1),
            1 <= k < all@.len(),
            mergeable(dag, closed, 0) == mergeable(dag, closed, (k - 1) as nat),
        decreases all@.len() - k,
    {
        assert(closed[k - 1] == all@[k as int]);
        assert(closed[k as int] == all@[k + 1]);
        k += 1;
    }
    if k + 1 >= count {
        return None;
    }
    let a: usize = all[k];
    let b: usize = all[k + 1];
    proof {
        assert(closed[k - 1] == a);
        assert(closed[k as int] == b);
        assert(mergeable(dag, closed, 0) == Some(k - 1));
    }
    let (m, n): (i64, i64) = match (find_constant_extent(graph, a), find_constant_extent(graph, b)) {
        (Some(m), Some(n)) => (m, n),
        _ => (0, 0),
    };
    assert(m * n > 0) by (nonlinear_arith)
        requires
            m > 0,
            n > 0,
    ;
    let dtype = graph.dtype(a);
    let joined: usize = put_resized(graph, a, m * n);
    let size: usize = graph.constant(ConstValue::Int(n), dtype);
    let high: usize = graph.binary(Op::Binary(BinaryOp::FloorDiv), dtype, joined, size);
    let low: usize = graph.binary(Op::Binary(BinaryOp::FloorMod), dtype, joined, size);
    let mut pairs: Vec<(usize, usize)> = Vec::new();
    pairs.push((a, high));
    pairs.push((b, low));
    assert(pairs@ =~= seq![(a, high), (b, low)]);
    let node_dtype = graph.dtype(id);
    let value: usize = substitute(graph, all[0], &pairs);
    let mut loops: Vec<usize> = Vec::new();
    let mut i: usize = 1;
    while i < all.len()
        invariant
            1 <= i <= all@.len(),
            1 <= k,
            k + 1 < all@.len(),
            id < dag.len(),
            dag.len() <= graph@.len(),
            joined < graph@.len(),
            closed == all@.skip(1),
            forall|j: int| 0 <= j < all@.len() ==> (#[trigger] all@[j]) < id,
            loops@ == (if i <= k {
                closed.take(i - 1)
            } else if i == k + 1 {
                closed.take(k - 1).push(joined)
            } else {
                closed.take(k - 1).push(joined) + closed.subrange(k + 1, i - 1)
            }),
            forall|j: int| 0 <= j < loops@.len() ==> (#[trigger] loops@[j]) < graph@.len(),
        decreases all@.len() - i,
    {
        if i == k {
            loops.push(joined);
        } else if i != k + 1 {
            loops.push(all[i]);
        }
        i += 1;
        proof {
            if i <= k {
                assert(loops@ =~= closed.take(i - 1));
            } else if i > k + 1 {
                assert(loops@ =~= closed.take(k - 1).push(joined) + closed.subrange(
                    k + 1,
                    i - 1,
                ));
            }
        }
    }
    assert(loops@ =~= closed.take(k - 1).push(joined) + closed.skip(k + 1));
    Some(graph.led(Op::End, node_dtype, value, loops.as_slice()))
}

} // verus!
