//! Double precision computed in single precision, for devices without it.

use vstd::prelude::*;

use crate::builders::{cast_node, lemma_interned_keeps, put, Built};
use crate::graph::{dag_wf, AddrSpace, DType, Graph, NodeView, Op};
use crate::meaning::lemma_arity;
use crate::params::is_scoped;
use crate::passes::{
    extends, grown, lemma_put, lemma_settled_graph_is_kept, rewrite, rewritten, rule, sources,
    with_srcs, Pass,
};
use crate::topo::{lemma_reaches_below, reaches};

verus! {

/// What keeps its type whatever a device computes in: parameters, global
/// storage, and what reinterprets bits.
pub open spec fn is_fixed(op: Op) -> bool {
    op is Param || op is BitCast || (op is Buffer && !is_scoped(op))
}

/// The operations whose operands are computed with.
pub open spec fn computes(op: Op) -> bool {
    op is Unary || op is Binary || op is Ternary || op is Reduce || op is Stack
}

/// The first `n` sources, those of double precision converted to single.
pub open spec fn narrowed(dag: Seq<NodeView>, srcs: Seq<usize>, n: nat) -> (
    Seq<NodeView>,
    Seq<usize>,
)
    decreases n,
{
    if n == 0 {
        (dag, Seq::empty())
    } else {
        let (rest, list) = narrowed(dag, srcs, (n - 1) as nat);
        if rest[srcs[n - 1] as int].dtype == DType::Float64 {
            let cast = put(rest, cast_node(srcs[n - 1], DType::Float32));
            (cast.dag, list.push(cast.id))
        } else {
            (rest, list.push(srcs[n - 1]))
        }
    }
}

/// A type with double precision replaced by single.
pub open spec fn single(dtype: DType) -> DType {
    if dtype == DType::Float64 {
        DType::Float32
    } else {
        dtype
    }
}

/// A node with one source converted to a type, if it has another.
pub open spec fn with_cast(dag: Seq<NodeView>, node: NodeView, k: int, dtype: DType) -> Built {
    if dag[node.srcs[k] as int].dtype == dtype {
        put(dag, node)
    } else {
        let cast = put(dag, cast_node(node.srcs[k], dtype));
        put(cast.dag, with_srcs(node, node.srcs.update(k, cast.id)))
    }
}

/// A node of double precision in single precision.
pub open spec fn retyped(dag: Seq<NodeView>, node: NodeView) -> Built {
    put(dag, NodeView { op: node.op, dtype: single(node.dtype), srcs: node.srcs })
}

/// What is made of one node: it is computed in single precision. Storage
/// outside of the kernel keeps its type: what is loaded from there is
/// converted where it is used, and what is stored there, or stands in for a
/// guarded load from there, is converted back.
pub open spec fn demoted(dag: Seq<NodeView>, id: usize) -> Built {
    let node = dag[id as int];
    if is_fixed(node.op) {
        Built { dag, id }
    } else if computes(node.op) {
        let (more, list) = narrowed(dag, node.srcs, node.srcs.len());
        put(
            more,
            NodeView { op: node.op, dtype: single(node.dtype), srcs: list },
        )
    } else if node.op is Load && node.dtype == DType::Float64 && dag[node.srcs[0] as int].dtype
        == DType::Float64 {
        if node.srcs.len() == 3 {
            with_cast(dag, node, 1, DType::Float64)
        } else {
            Built { dag, id }
        }
    } else if node.op is Store && (dag[node.srcs[0] as int].dtype == DType::Float64
        || dag[node.srcs[0] as int].dtype == DType::Float32) && (dag[node.srcs[1] as int].dtype
        == DType::Float64 || dag[node.srcs[1] as int].dtype == DType::Float32) {
        with_cast(dag, node, 1, dag[node.srcs[0] as int].dtype)
    } else if (node.op is Index || node.op is After) && node.srcs.len() > 0
        && dag[node.srcs[0] as int].dtype == DType::Float64 {
        Built { dag, id }
    } else {
        retyped(dag, node)
    }
}

fn is_fixed_op(op: Op) -> (r: bool)
    ensures
        r == is_fixed(op),
{
    match op {
        Op::Param { .. } | Op::BitCast => true,
        Op::Buffer { space, .. } => space == AddrSpace::Global,
        _ => false,
    }
}

fn computing(op: Op) -> (r: bool)
    ensures
        r == computes(op),
{
    match op {
        Op::Unary(_) | Op::Binary(_) | Op::Ternary(_) | Op::Reduce(_) | Op::Stack => true,
        _ => false,
    }
}

fn to_single(dtype: DType) -> (r: DType)
    ensures
        r == single(dtype),
{
    if dtype == DType::Float64 {
        DType::Float32
    } else {
        dtype
    }
}

fn put_with_cast(graph: &mut Graph, id: usize, k: usize, dtype: DType) -> (new: usize)
    requires
        old(graph).wf(),
        id < old(graph)@.len(),
        k < old(graph)@[id as int].srcs.len(),
    ensures
        grown(
            old(graph)@,
            *final(graph),
            with_cast(old(graph)@, old(graph)@[id as int], k as int, dtype),
            new,
        ),
{
    let ghost dag = graph@;
    let ghost node = dag[id as int];
    proof {
        lemma_arity(dag, id);
    }
    let op = graph.op(id);
    let kind = graph.dtype(id);
    let mut list = sources(graph, id);
    if graph.dtype(list[k]) != dtype {
        let src: usize = list[k];
        let cast: usize = graph.cast(src, dtype);
        proof {
            lemma_interned_keeps(dag, cast_node(src, dtype));
        }
        list.set(k, cast);
    }
    let ghost held = graph@;
    let new: usize = graph.node(op, kind, list.as_slice());
    proof {
        lemma_interned_keeps(held, with_srcs(node, list@));
    }
    new
}

/// Computes one node in single precision; see `demoted`.
pub fn apply_demote_rule(graph: &mut Graph, id: usize) -> (new: usize)
    requires
        old(graph).wf(),
        id < old(graph)@.len(),
    ensures
        grown(old(graph)@, *final(graph), demoted(old(graph)@, id), new),
{
    let ghost dag = graph@;
    let ghost node = dag[id as int];
    proof {
        lemma_arity(dag, id);
    }
    let op = graph.op(id);
    let dtype = graph.dtype(id);
    if is_fixed_op(op) {
        return id;
    }
    let srcs = sources(graph, id);
    if computing(op) {
        let mut list: Vec<usize> = Vec::new();
        let mut n: usize = 0;
        while n < srcs.len()
            invariant
                graph.wf(),
                extends(dag, graph@),
                forall|k: int| 0 <= k < srcs@.len() ==> (#[trigger] srcs@[k]) < dag.len(),
                n <= srcs@.len(),
                (graph@, list@) == narrowed(dag, srcs@, n as nat),
                list@.len() == n,
                forall|k: int| 0 <= k < list@.len() ==> (#[trigger] list@[k]) < graph@.len(),
            decreases srcs@.len() - n,
        {
            let src: usize = srcs[n];
            if graph.dtype(src) == DType::Float64 {
                let ghost held = graph@;
                let cast: usize = graph.cast(src, DType::Float32);
                proof {
                    lemma_interned_keeps(held, cast_node(src, DType::Float32));
                }
                list.push(cast);
            } else {
                list.push(src);
            }
            n += 1;
        }
        let ghost held = graph@;
        let kind = to_single(dtype);
        let new: usize = graph.node(op, kind, list.as_slice());
        proof {
            lemma_interned_keeps(held, NodeView { op, dtype: kind, srcs: list@ });
        }
        return new;
    }
    let first: DType = if srcs.len() > 0 {
        graph.dtype(srcs[0])
    } else {
        DType::Void
    };
    match op {
        Op::Load => {
            if dtype == DType::Float64 && first == DType::Float64 {
                if srcs.len() == 3 {
                    return put_with_cast(graph, id, 1, DType::Float64);
                }
                return id;
            }
        },
        Op::Store => {
            let value = graph.dtype(srcs[1]);
            if (first == DType::Float64 || first == DType::Float32) && (value == DType::Float64
                || value == DType::Float32) {
                return put_with_cast(graph, id, 1, first);
            }
        },
        Op::Index | Op::After => {
            if srcs.len() > 0 && first == DType::Float64 {
                return id;
            }
        },
        _ => {},
    }
    let kind = to_single(dtype);
    let new: usize = graph.node(op, kind, srcs.as_slice());
    proof {
        lemma_interned_keeps(dag, NodeView { op, dtype: kind, srcs: srcs@ });
    }
    new
}

/// Whether a node can keep double precision: storage outside of the kernel,
/// what addresses or loads it, and what reinterprets bits.
pub open spec fn may_stay_double(op: Op) -> bool {
    is_fixed(op) || op is Load || op is Index || op is After || op is Store
}

/// What computes a value, computes it in single precision: double precision
/// stays with storage outside of the kernel.
pub proof fn lemma_computes_in_single(dag: Seq<NodeView>, id: usize)
    requires
        dag_wf(dag),
        id < dag.len(),
        demoted(dag, id).dag.len() <= usize::MAX,
    ensures
        ({
            let new = demoted(dag, id);
            let node = new.dag[new.id as int];
            &&& new.id < new.dag.len()
            &&& node.op == dag[id as int].op
            &&& node.dtype == DType::Float64 ==> may_stay_double(node.op)
        }),
{
    let node = dag[id as int];
    lemma_arity(dag, id);
    if is_fixed(node.op) {
    } else if computes(node.op) {
        let (more, list) = narrowed(dag, node.srcs, node.srcs.len());
        lemma_put(more, NodeView { op: node.op, dtype: single(node.dtype), srcs: list });
    } else {
        let cast64 = put(dag, cast_node(node.srcs[1], DType::Float64));
        let kind = dag[node.srcs[0] as int].dtype;
        let cast = put(dag, cast_node(node.srcs[1], kind));
        let new = demoted(dag, id);
        if node.op is Load && node.dtype == DType::Float64 && kind == DType::Float64 {
            if node.srcs.len() == 3 {
                if dag[node.srcs[1] as int].dtype == DType::Float64 {
                    lemma_put(dag, node);
                } else {
                    lemma_put(cast64.dag, with_srcs(node, node.srcs.update(1, cast64.id)));
                }
            }
        } else if node.op is Store && (kind == DType::Float64 || kind == DType::Float32) && (
        dag[node.srcs[1] as int].dtype == DType::Float64 || dag[node.srcs[1] as int].dtype
            == DType::Float32) {
            if dag[node.srcs[1] as int].dtype == kind {
                lemma_put(dag, node);
            } else {
                lemma_put(cast.dag, with_srcs(node, node.srcs.update(1, cast.id)));
            }
        } else if (node.op is Index || node.op is After) && node.srcs.len() > 0 && kind
            == DType::Float64 {
        } else {
            lemma_put(
                dag,
                NodeView { op: node.op, dtype: single(node.dtype), srcs: node.srcs },
            );
        }
    }
}

/// A graph without double precision is left as it is.
pub proof fn lemma_single_is_left_alone(dag: Seq<NodeView>, root: usize)
    requires
        dag_wf(dag),
        root < dag.len() <= usize::MAX,
        forall|i: int| 0 <= i < dag.len() ==> (#[trigger] dag[i]).dtype != DType::Float64,
    ensures
        rewritten(Pass::Demote, dag, root) == (Built { dag, id: root }),
{
    assert forall|i: usize| reaches(dag, root, i) implies #[trigger] rule(Pass::Demote, dag, i)
        == (Built { dag, id: i }) by {
        lemma_reaches_below(dag, root, i);
        let node = dag[i as int];
        lemma_arity(dag, i);
        crate::graph::lemma_id_of(dag, i);
        assert(dag.contains(node)) by {
            assert(dag[i as int] == node);
        }
        assert forall|k: int| 0 <= k < node.srcs.len() implies dag[(
        #[trigger] node.srcs[k]) as int].dtype != DType::Float64 by {
            assert(dag[i as int].srcs[k] < i);
        }
        if computes(node.op) {
            lemma_nothing_narrowed(dag, node.srcs, node.srcs.len());
            assert(node.srcs.take(node.srcs.len() as int) =~= node.srcs);
        }
        assert(with_srcs(node, node.srcs) == node);
    }
    lemma_settled_graph_is_kept(Pass::Demote, dag, root);
}

proof fn lemma_nothing_narrowed(dag: Seq<NodeView>, srcs: Seq<usize>, n: nat)
    requires
        n <= srcs.len(),
        forall|k: int|
            0 <= k < srcs.len() ==> dag[(#[trigger] srcs[k]) as int].dtype != DType::Float64,
    ensures
        narrowed(dag, srcs, n) == (dag, srcs.take(n as int)),
    decreases n,
{
    if n == 0 {
        assert(srcs.take(0) =~= Seq::<usize>::empty());
    } else {
        lemma_nothing_narrowed(dag, srcs, (n - 1) as nat);
        assert(dag[srcs[n - 1] as int].dtype != DType::Float64);
        assert(srcs.take(n as int) =~= srcs.take(n - 1).push(srcs[n - 1]));
    }
}

/// Computes everything at and below a root in single precision, unless double
/// precision is supported.
pub fn demote_unsupported_floats(graph: &mut Graph, root: usize, has_double: bool) -> (new: usize)
    requires
        old(graph).wf(),
        root < old(graph)@.len(),
    ensures
        has_double ==> final(graph).wf() && final(graph)@ == old(graph)@ && new == root,
        !has_double ==> grown(
            old(graph)@,
            *final(graph),
            rewritten(Pass::Demote, old(graph)@, root),
            new,
        ),
{
    if has_double {
        root
    } else {
        rewrite(graph, Pass::Demote, root)
    }
}

} // verus!
