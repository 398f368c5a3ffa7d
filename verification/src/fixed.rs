//! The two passes that take accesses apart and store booleans in bytes reach
//! their end in one go.

use vstd::prelude::*;

use crate::builders::{cast_node, lemma_interned_keeps, put, Built};
use crate::graph::{dag_wf, lemma_interned_wf, DType, NodeView, Op};
use crate::meaning::lemma_arity;
use crate::passes::{
    bool_storage, extends, is_alu, is_vector_alu, lemma_put, lemma_settled_below,
    lemma_settled_graph_is_kept, moved, rewritten, rule, walked, widest, width, with_srcs, Pass,
};
use crate::scalarize::{
    access_lanes, address_lanes, has_lanes, is_lane, is_shaped_address, lane_source,
    lemma_every_lane_is_accessed, scalarized,
};
use crate::settled::{
    has_single_offsets, is_apart, lemma_apart_extends, lemma_devectorize_is_idempotent,
    lemma_lane_is_apart, lemma_scalarized_wf, lemma_width_extends,
};
use crate::topo::{
    lemma_reaches_below, lemma_reaches_extends, lemma_reaches_transitive, lemma_topo, reaches,
    topo,
};

verus! {

/// Whether a node has nothing to do with how booleans are stored.
pub open spec fn is_bool_settled(dag: Seq<NodeView>, id: usize) -> bool {
    let node = dag[id as int];
    &&& !(node.op is Load && node.dtype == DType::Bool)
    &&& !(node.op is Store && dag[node.srcs[1] as int].dtype == DType::Bool)
    &&& !(node.op is BitCast && (node.dtype == DType::Bool || dag[node.srcs[0] as int].dtype
        == DType::Bool))
}

/// Whether a node is a plain read of one boolean.
pub open spec fn is_bool_load(dag: Seq<NodeView>, id: usize) -> bool {
    let node = dag[id as int];
    node.op is Load && node.dtype == DType::Bool && node.srcs.len() == 1 && width(dag, id) == 1
}

/// Whether neither pass changes a node, nor anything below it.
pub open spec fn is_done(dag: Seq<NodeView>, id: usize) -> bool
    decreases id,
{
    &&& is_apart(dag, id)
    &&& is_bool_settled(dag, id)
    &&& forall|k: int|
        #![trigger dag[id as int].srcs[k]]
        0 <= k < dag[id as int].srcs.len() && dag[id as int].srcs[k] < id ==> is_done(
            dag,
            dag[id as int].srcs[k],
        )
}

proof fn lemma_done_extends(dag: Seq<NodeView>, more: Seq<NodeView>, id: usize)
    requires
        dag_wf(dag),
        extends(dag, more),
        id < dag.len(),
        is_done(dag, id),
    ensures
        is_done(more, id),
    decreases id,
{
    let node = dag[id as int];
    assert(more[id as int] == node);
    lemma_arity(dag, id);
    lemma_apart_extends(dag, more, id);
    if node.op is Store {
        assert(dag[id as int].srcs[1] < id);
        assert(more[node.srcs[1] as int] == dag[node.srcs[1] as int]);
    }
    if node.op is BitCast {
        assert(dag[id as int].srcs[0] < id);
        assert(more[node.srcs[0] as int] == dag[node.srcs[0] as int]);
    }
    assert forall|k: int|
        #![trigger more[id as int].srcs[k]]
        0 <= k < more[id as int].srcs.len() && more[id as int].srcs[k] < id implies is_done(
        more,
        more[id as int].srcs[k],
    ) by {
        assert(dag[id as int].srcs[k] < id);
        lemma_done_extends(dag, more, node.srcs[k]);
    }
}

proof fn lemma_done_below(dag: Seq<NodeView>, root: usize, x: usize)
    requires
        dag_wf(dag),
        root < dag.len(),
        is_done(dag, root),
        reaches(dag, root, x),
    ensures
        is_done(dag, x),
    decreases root,
{
    if x != root {
        let k = choose|k: int|
            #![trigger dag[root as int].srcs[k]]
            0 <= k < dag[root as int].srcs.len() && dag[root as int].srcs[k] < root && reaches(
                dag,
                dag[root as int].srcs[k],
                x,
            );
        lemma_done_below(dag, dag[root as int].srcs[k], x);
    }
}

/// What is done stays as it is in both passes.
proof fn lemma_done_is_kept(dag: Seq<NodeView>, root: usize)
    requires
        dag_wf(dag),
        root < dag.len() <= usize::MAX,
        is_done(dag, root),
    ensures
        rewritten(Pass::Devectorize, dag, root) == (Built { dag, id: root }),
        rewritten(Pass::BoolStorage, dag, root) == (Built { dag, id: root }),
{
    assert forall|x: usize| reaches(dag, root, x) implies #[trigger] rule(
        Pass::Devectorize,
        dag,
        x,
    ) == (Built { dag, id: x }) by {
        lemma_done_below(dag, root, x);
    }
    assert forall|x: usize| reaches(dag, root, x) implies #[trigger] rule(
        Pass::BoolStorage,
        dag,
        x,
    ) == (Built { dag, id: x }) by {
        lemma_done_below(dag, root, x);
    }
    lemma_settled_graph_is_kept(Pass::Devectorize, dag, root);
    lemma_settled_graph_is_kept(Pass::BoolStorage, dag, root);
}

/// Whether a node has the lanes of another, and is a stack or an index where
/// that is one.
pub open spec fn is_alike(dag: Seq<NodeView>, u: usize, more: Seq<NodeView>, s: usize) -> bool {
    let (a, b) = (dag[u as int], more[s as int]);
    &&& width(more, s) == width(dag, u)
    &&& a.dtype == b.dtype
    &&& (a.op is Stack <==> b.op is Stack)
    &&& (a.op is Index <==> b.op is Index)
    &&& a.op is Stack || a.op is Index ==> a.srcs.len() == b.srcs.len()
    &&& a.op is Index && a.srcs.len() == 2 ==> {
        let (x, y) = (dag[a.srcs[1] as int], more[b.srcs[1] as int]);
        &&& (x.op is Stack <==> y.op is Stack)
        &&& x.op is Stack ==> x.srcs.len() == y.srcs.len()
    }
}

proof fn lemma_alike_extends(
    dag: Seq<NodeView>,
    u: usize,
    more: Seq<NodeView>,
    next: Seq<NodeView>,
    s: usize,
)
    requires
        dag_wf(more),
        extends(more, next),
        s < more.len(),
        is_alike(dag, u, more, s),
    ensures
        is_alike(dag, u, next, s),
{
    assert(next[s as int] == more[s as int]);
    lemma_width_extends(more, next, s);
    if more[s as int].op is Index && more[s as int].srcs.len() == 2 {
        assert(more[s as int].srcs[1] < s);
        assert(next[more[s as int].srcs[1] as int] == more[more[s as int].srcs[1] as int]);
    }
}

/// A copy of a node over sources that are alike.
spec fn is_copy(dag: Seq<NodeView>, u: usize, more: Seq<NodeView>, c: usize) -> bool {
    let (a, b) = (dag[u as int], more[c as int]);
    &&& a.op == b.op
    &&& a.dtype == b.dtype
    &&& a.srcs.len() == b.srcs.len()
    &&& forall|k: int|
        #![trigger a.srcs[k]]
        #![trigger b.srcs[k]]
        0 <= k < a.srcs.len() ==> is_alike(dag, a.srcs[k], more, b.srcs[k])
}

proof fn lemma_copy_widest(dag: Seq<NodeView>, u: usize, more: Seq<NodeView>, c: usize, n: nat)
    requires
        dag_wf(dag),
        dag_wf(more),
        u < dag.len(),
        c < more.len(),
        is_copy(dag, u, more, c),
        n <= dag[u as int].srcs.len(),
    ensures
        widest(more, c, n) == widest(dag, u, n),
    decreases n,
{
    if n > 0 {
        lemma_copy_widest(dag, u, more, c, (n - 1) as nat);
        assert(dag[u as int].srcs[n - 1] < u);
        assert(more[c as int].srcs[n - 1] < c);
    }
}

/// A copy is alike, and is apart where what it copies is.
proof fn lemma_copy(dag: Seq<NodeView>, u: usize, more: Seq<NodeView>, c: usize)
    requires
        dag_wf(dag),
        dag_wf(more),
        u < dag.len(),
        c < more.len(),
        is_copy(dag, u, more, c),
    ensures
        is_alike(dag, u, more, c),
        address_lanes(more, c) == address_lanes(dag, u),
        is_apart(dag, u) ==> is_apart(more, c),
{
    let (a, b) = (dag[u as int], more[c as int]);
    lemma_arity(dag, u);
    if a.srcs.len() > 0 {
        assert(dag[u as int].srcs[0] < u && more[c as int].srcs[0] < c);
        assert(is_alike(dag, a.srcs[0], more, b.srcs[0]));
    }
    if a.srcs.len() > 1 {
        assert(dag[u as int].srcs[1] < u && more[c as int].srcs[1] < c);
        assert(is_alike(dag, a.srcs[1], more, b.srcs[1]));
    }
    if is_alu(a.op) {
        lemma_copy_widest(dag, u, more, c, a.srcs.len());
    }
    assert(width(more, c) == width(dag, u));
    assert(address_lanes(more, c) == address_lanes(dag, u));
    if is_apart(dag, u) {
        if access_lanes(more, c) is Some {
            let n = address_lanes(dag, u)->0;
            assert forall|k: int| 1 <= k < dag[u as int].srcs.len() implies has_lanes(
                dag,
                #[trigger] dag[u as int].srcs[k],
                n,
            ) by {
                assert(has_lanes(more, more[c as int].srcs[k], n));
                assert(is_alike(dag, a.srcs[k], more, b.srcs[k]));
            }
        }
        if is_vector_alu(more, c) {
            assert forall|k: int| 0 <= k < a.srcs.len() implies width(dag, #[trigger] a.srcs[k])
                == width(dag, u) by {
                assert(width(more, b.srcs[k]) == width(more, c));
                assert(is_alike(dag, a.srcs[k], more, b.srcs[k]));
            }
        }
    }
}

/// What the rule for booleans makes of a copy of a node is done and alike.
#[verifier::rlimit(60)]
#[verifier::spinoff_prover]
proof fn lemma_bool_step(dag: Seq<NodeView>, u: usize, more: Seq<NodeView>, c: usize)
    requires
        dag_wf(dag),
        dag_wf(more),
        u < dag.len(),
        c < more.len(),
        is_copy(dag, u, more, c),
        is_apart(dag, u),
        is_bool_settled(dag, u) || is_bool_load(dag, u),
        forall|k: int| 0 <= k < more[c as int].srcs.len() ==> is_done(more, #[trigger] more[c as int].srcs[k]),
        bool_storage(more, c).dag.len() <= usize::MAX,
    ensures
        ({
            let new = bool_storage(more, c);
            &&& dag_wf(new.dag)
            &&& extends(more, new.dag)
            &&& new.id < new.dag.len()
            &&& is_alike(dag, u, new.dag, new.id)
            &&& is_done(new.dag, new.id)
        }),
{
    let (a, b) = (dag[u as int], more[c as int]);
    lemma_copy(dag, u, more, c);
    lemma_arity(dag, u);
    if a.srcs.len() > 0 {
        assert(is_alike(dag, a.srcs[0], more, b.srcs[0]));
    }
    if a.srcs.len() > 1 {
        assert(is_alike(dag, a.srcs[1], more, b.srcs[1]));
    }
    if is_bool_settled(dag, u) {
        assert(is_bool_settled(more, c));
        assert(bool_storage(more, c) == (Built { dag: more, id: c }));
        assert(is_done(more, c));
    } else {
        let bytes = NodeView { op: Op::Load, dtype: DType::UInt8, srcs: b.srcs };
        let load = put(more, bytes);
        let back = cast_node(load.id, DType::Bool);
        let new = put(load.dag, back);
        lemma_interned_keeps(more, bytes);
        lemma_interned_keeps(load.dag, back);
        assert(more[c as int].srcs[0] < c);
        lemma_interned_wf(more, bytes);
        lemma_put(more, bytes);
        lemma_interned_wf(load.dag, back);
        lemma_put(load.dag, back);
        assert(bool_storage(more, c) == new);
        assert(load.dag[load.id as int] == bytes);
        assert(new.dag[new.id as int] == back);
        assert(new.dag[load.id as int] == bytes);
        let src = b.srcs[0];
        lemma_width_extends(more, load.dag, src);
        assert(load.dag[load.id as int].srcs[0] < load.id);
        assert(width(load.dag, load.id) == width(more, src));
        assert(width(more, c) == width(more, src));
        lemma_width_extends(load.dag, new.dag, load.id);
        assert(new.dag[new.id as int].srcs[0] < new.id);
        assert(widest(new.dag, new.id, 1) == 1) by {
            reveal_with_fuel(widest, 2);
        }
        assert(width(new.dag, new.id) == 1);
        assert(is_apart(load.dag, load.id)) by {
            assert(address_lanes(more, c) is None) by {
                if is_shaped_address(more, src) {
                    assert(width(more, src) == width(more, more[src as int].srcs[1]));
                }
            }
            assert(load.dag[src as int] == more[src as int]);
            if more[src as int].op is Index && more[src as int].srcs.len() == 2 {
                assert(more[src as int].srcs[1] < src);
                assert(load.dag[more[src as int].srcs[1] as int] == more[more[src as int].srcs[1] as int]);
            }
            assert(address_lanes(load.dag, load.id) is None);
        }
        assert(is_done(load.dag, load.id)) by {
            assert forall|k: int|
                #![trigger load.dag[load.id as int].srcs[k]]
                0 <= k < load.dag[load.id as int].srcs.len() && load.dag[load.id as int].srcs[k]
                    < load.id implies is_done(load.dag, load.dag[load.id as int].srcs[k]) by {
                assert(is_done(more, more[c as int].srcs[k]));
                lemma_done_extends(more, load.dag, b.srcs[k]);
            }
        }
        lemma_done_extends(load.dag, new.dag, load.id);
        assert(is_done(new.dag, new.id));
        assert(extends(more, new.dag));
    }
}

proof fn lemma_bool_walk(dag: Seq<NodeView>, root: usize, n: nat)
    requires
        dag_wf(dag),
        root < dag.len() <= usize::MAX,
        n <= topo(dag, root).len(),
        walked(Pass::BoolStorage, dag, topo(dag, root), n).dag.len() <= usize::MAX,
        forall|x: usize| #[trigger]
            reaches(dag, root, x) ==> is_apart(dag, x) && (is_bool_settled(dag, x) || is_bool_load(
                dag,
                x,
            )),
    ensures
        ({
            let walk = topo(dag, root);
            let done = walked(Pass::BoolStorage, dag, walk, n);
            &&& dag_wf(done.dag)
            &&& forall|p: int|
                0 <= p < n ==> {
                    let s = done.stands[#[trigger] walk[p]];
                    &&& s < done.dag.len()
                    &&& is_alike(dag, walk[p], done.dag, s)
                    &&& is_done(done.dag, s)
                }
        }),
    decreases n,
{
    let walk = topo(dag, root);
    lemma_topo(dag, root);
    if n > 0 {
        let rest = walked(Pass::BoolStorage, dag, walk, (n - 1) as nat);
        let u = walk[n - 1];
        let node = dag[u as int];
        let srcs = moved(node.srcs, rest.stands);
        let want = with_srcs(node, srcs);
        let copy = put(rest.dag, want);
        let new = bool_storage(copy.dag, copy.id);
        let done = walked(Pass::BoolStorage, dag, walk, n);
        assert(done.dag == new.dag);
        lemma_interned_keeps(rest.dag, want);
        lemma_bool_grows(copy.dag, copy.id);
        lemma_bool_walk(dag, root, (n - 1) as nat);
        assert(walk.contains(u));
        lemma_reaches_below(dag, root, u);
        lemma_arity(dag, u);
        assert forall|k: int| 0 <= k < node.srcs.len() implies {
            let s = #[trigger] srcs[k];
            &&& s < rest.dag.len()
            &&& is_alike(dag, node.srcs[k], rest.dag, s)
            &&& is_done(rest.dag, s)
        } by {
            assert(dag[walk[n - 1] as int].srcs[k] == node.srcs[k]);
            let q = choose|q: int| 0 <= q < n - 1 && #[trigger] walk[q] == node.srcs[k];
            assert(walk[q] == node.srcs[k]);
        }
        lemma_interned_wf(rest.dag, want);
        lemma_put(rest.dag, want);
        assert(copy.dag[copy.id as int] == want);
        assert(is_copy(dag, u, copy.dag, copy.id)) by {
            assert forall|k: int|
                #![trigger node.srcs[k]]
                #![trigger want.srcs[k]]
                0 <= k < node.srcs.len() implies is_alike(
                dag,
                node.srcs[k],
                copy.dag,
                want.srcs[k],
            ) by {
                assert(srcs[k] < rest.dag.len());
                lemma_alike_extends(dag, node.srcs[k], rest.dag, copy.dag, srcs[k]);
            }
        }
        assert forall|k: int| 0 <= k < copy.dag[copy.id as int].srcs.len() implies is_done(
            copy.dag,
            #[trigger] copy.dag[copy.id as int].srcs[k],
        ) by {
            assert(srcs[k] < rest.dag.len());
            lemma_done_extends(rest.dag, copy.dag, srcs[k]);
        }
        lemma_bool_step(dag, u, copy.dag, copy.id);
        assert(extends(rest.dag, new.dag));
        assert forall|p: int| 0 <= p < n implies {
            let s = done.stands[#[trigger] walk[p]];
            &&& s < done.dag.len()
            &&& is_alike(dag, walk[p], done.dag, s)
            &&& is_done(done.dag, s)
        } by {
            if p < n - 1 {
                assert(walk[p] != walk[n - 1]);
                let s = rest.stands[walk[p]];
                lemma_alike_extends(dag, walk[p], rest.dag, new.dag, s);
                lemma_done_extends(rest.dag, new.dag, s);
            }
        }
    }
}

proof fn lemma_bool_grows(dag: Seq<NodeView>, id: usize)
    ensures
        dag.len() <= bool_storage(dag, id).dag.len(),
{
    let node = dag[id as int];
    let alt = cast_node(node.srcs[1], DType::UInt8);
    let first = put(dag, alt);
    let guarded = NodeView {
        op: Op::Load,
        dtype: DType::UInt8,
        srcs: seq![node.srcs[0], first.id, node.srcs[2]],
    };
    let second = put(first.dag, guarded);
    lemma_interned_keeps(dag, alt);
    lemma_interned_keeps(first.dag, guarded);
    lemma_interned_keeps(second.dag, cast_node(second.id, DType::Bool));
    let plain = NodeView { op: Op::Load, dtype: DType::UInt8, srcs: node.srcs };
    let load = put(dag, plain);
    lemma_interned_keeps(dag, plain);
    lemma_interned_keeps(load.dag, cast_node(load.id, DType::Bool));
    lemma_interned_keeps(first.dag, with_srcs(node, node.srcs.update(1, first.id)));
    lemma_interned_keeps(dag, cast_node(node.srcs[0], node.dtype));
}

/// What `apply_devectorize` makes of a root: accesses are taken apart, and then
/// booleans are stored in bytes.
pub open spec fn devectorized(dag: Seq<NodeView>, root: usize) -> Built {
    let lanes = rewritten(Pass::Devectorize, dag, root);
    rewritten(Pass::BoolStorage, lanes.dag, lanes.id)
}

/// Where everything at and below a root is apart, and booleans are only read,
/// one lane at a time, one run of both passes reaches the end: another changes
/// nothing.
pub proof fn lemma_apart_is_devectorized_once(dag: Seq<NodeView>, root: usize)
    requires
        dag_wf(dag),
        root < dag.len() <= usize::MAX,
        devectorized(dag, root).dag.len() <= usize::MAX,
        forall|x: usize| #[trigger]
            reaches(dag, root, x) ==> is_apart(dag, x) && (is_bool_settled(dag, x) || is_bool_load(
                dag,
                x,
            )),
    ensures
        ({
            let once = devectorized(dag, root);
            devectorized(once.dag, once.id) == once
        }),
{
    assert forall|x: usize| reaches(dag, root, x) implies #[trigger] rule(
        Pass::Devectorize,
        dag,
        x,
    ) == (Built { dag, id: x }) by {
        assert(is_apart(dag, x));
    }
    lemma_settled_graph_is_kept(Pass::Devectorize, dag, root);
    let walk = topo(dag, root);
    lemma_topo(dag, root);
    lemma_bool_walk(dag, root, walk.len());
    assert(walk[walk.len() - 1] == root);
    let once = devectorized(dag, root);
    lemma_done_is_kept(once.dag, once.id);
}

/// Whether no lane of the address of an access has lanes of its own: each
/// offset is one number.
pub open spec fn has_plain_offsets(dag: Seq<NodeView>, id: usize) -> bool {
    let address = dag[dag[id as int].srcs[0] as int];
    &&& has_single_offsets(dag, id)
    &&& address.op is Index && address.srcs.len() == 2 && dag[address.srcs[1] as int].op is Stack
        ==> forall|k: int|
        0 <= k < dag[address.srcs[1] as int].srcs.len() ==> width(
            dag,
            #[trigger] dag[address.srcs[1] as int].srcs[k],
        ) == 1
}

proof fn lemma_walk_grows(dag: Seq<NodeView>, walk: Seq<usize>, n: nat)
    ensures
        dag.len() <= walked(Pass::BoolStorage, dag, walk, n).dag.len(),
    decreases n,
{
    if n > 0 {
        let rest = walked(Pass::BoolStorage, dag, walk, (n - 1) as nat);
        let node = dag[walk[n - 1] as int];
        let want = with_srcs(node, moved(node.srcs, rest.stands));
        let copy = put(rest.dag, want);
        lemma_walk_grows(dag, walk, (n - 1) as nat);
        lemma_interned_keeps(rest.dag, want);
        lemma_bool_grows(copy.dag, copy.id);
    }
}

/// What the lanes of an access reach has nothing to do with booleans, but for
/// the lanes themselves where they read them.
#[verifier::rlimit(40)]
#[verifier::spinoff_prover]
proof fn lemma_lane_bools(dag: Seq<NodeView>, id: usize, x: usize)
    requires
        dag_wf(dag),
        id < dag.len() <= usize::MAX,
        access_lanes(dag, id) is Some,
        has_plain_offsets(dag, id),
        dag[id as int].op is Load ==> dag[id as int].srcs.len() == 1,
        dag[id as int].op is Store ==> forall|k: int|
            #![trigger dag[dag[id as int].srcs[1] as int].srcs[k]]
            0 <= k < dag[dag[id as int].srcs[1] as int].srcs.len() ==> dag[dag[dag[id as int].srcs[1] as int].srcs[k] as int].dtype
                != DType::Bool,
        dag[id as int].op is Store ==> dag[dag[id as int].srcs[1] as int].dtype != DType::Bool,
        forall|i: usize| #[trigger]
            reaches(dag, id, i) && i != id ==> is_apart(dag, i) && is_bool_settled(dag, i),
        scalarized(dag, id)->0.dag.len() <= usize::MAX,
        reaches(scalarized(dag, id)->0.dag, scalarized(dag, id)->0.id, x),
    ensures
        ({
            let lanes = scalarized(dag, id)->0;
            &&& is_apart(lanes.dag, x)
            &&& is_bool_settled(lanes.dag, x) || is_bool_load(lanes.dag, x)
        }),
{
    let lanes = scalarized(dag, id)->0;
    let more = lanes.dag;
    let node = dag[id as int];
    lemma_scalarized_wf(dag, id);
    lemma_every_lane_is_accessed(dag, id);
    lemma_arity(dag, id);
    assert(dag[id as int].srcs[0] < id);
    if x == lanes.id {
        assert(!is_alu(more[x as int].op));
    } else {
        let k = choose|k: int|
            #![trigger more[lanes.id as int].srcs[k]]
            0 <= k < more[lanes.id as int].srcs.len() && more[lanes.id as int].srcs[k] < lanes.id
                && reaches(more, more[lanes.id as int].srcs[k], x);
        let one = more[lanes.id as int].srcs[k];
        assert(is_lane(dag, more, id, k, one));
        lemma_lane_is_apart(dag, more, id, k, one, x);
        if x == one {
            lemma_lane_load(dag, id, k, one);
        } else {
            lemma_below_lane(dag, id, k, one, x);
        }
    }
}

/// A lane of an access reads one boolean, or has nothing to do with booleans.
proof fn lemma_lane_load(dag: Seq<NodeView>, id: usize, lane: int, one: usize)
    requires
        dag_wf(dag),
        dag_wf(scalarized(dag, id)->0.dag),
        extends(dag, scalarized(dag, id)->0.dag),
        id < dag.len() <= usize::MAX,
        access_lanes(dag, id) matches Some(n) && 0 <= lane < n,
        has_plain_offsets(dag, id),
        dag[id as int].op is Load ==> dag[id as int].srcs.len() == 1,
        dag[id as int].op is Store ==> forall|k: int|
            #![trigger dag[dag[id as int].srcs[1] as int].srcs[k]]
            0 <= k < dag[dag[id as int].srcs[1] as int].srcs.len() ==> dag[dag[dag[id as int].srcs[1] as int].srcs[k] as int].dtype
                != DType::Bool,
        dag[id as int].op is Store ==> dag[dag[id as int].srcs[1] as int].dtype != DType::Bool,
        one < scalarized(dag, id)->0.dag.len(),
        is_lane(dag, scalarized(dag, id)->0.dag, id, lane, one),
    ensures
        is_bool_settled(scalarized(dag, id)->0.dag, one) || is_bool_load(
            scalarized(dag, id)->0.dag,
            one,
        ),
{
    let more = scalarized(dag, id)->0.dag;
    let node = dag[id as int];
    let new = more[one as int];
    let address = new.srcs[0];
    let offset = more[address as int].srcs[1];
    let from = dag[node.srcs[0] as int];
    lemma_arity(dag, id);
    lemma_arity(more, one);
    assert(dag[id as int].srcs[0] < id);
    assert(more[one as int].srcs[0] < one);
    assert(more[address as int].srcs[1] < address);
    if node.op is Load {
        if from.op is Index {
            let index = from.srcs[1];
            assert(dag[node.srcs[0] as int].srcs[1] < node.srcs[0]);
            assert(dag[index as int].srcs[lane] < index);
            assert(offset == dag[index as int].srcs[lane]);
            lemma_width_extends(dag, more, offset);
            assert(width(dag, dag[index as int].srcs[lane]) == 1);
        }
        assert(width(more, offset) == 1);
        assert(width(more, address) == width(more, offset));
        assert(width(more, one) == width(more, address));
    } else {
        let value = node.srcs[1];
        assert(dag[id as int].srcs[1] < id);
        assert(has_lanes(dag, dag[id as int].srcs[1], access_lanes(dag, id)->0));
        assert(new.srcs[1] == lane_source(dag, value, lane));
        if dag[value as int].op is Stack {
            assert(dag[value as int].srcs[lane] < value);
        }
        assert(more[new.srcs[1] as int] == dag[new.srcs[1] as int]);
    }
}

/// What is below a lane of an access has nothing to do with booleans.
proof fn lemma_below_lane(dag: Seq<NodeView>, id: usize, lane: int, one: usize, x: usize)
    requires
        dag_wf(dag),
        dag_wf(scalarized(dag, id)->0.dag),
        extends(dag, scalarized(dag, id)->0.dag),
        id < dag.len() <= usize::MAX,
        access_lanes(dag, id) matches Some(n) && 0 <= lane < n,
        forall|i: usize| #[trigger]
            reaches(dag, id, i) && i != id ==> is_apart(dag, i) && is_bool_settled(dag, i),
        one < scalarized(dag, id)->0.dag.len(),
        is_lane(dag, scalarized(dag, id)->0.dag, id, lane, one),
        reaches(scalarized(dag, id)->0.dag, one, x),
        x != one,
    ensures
        is_bool_settled(scalarized(dag, id)->0.dag, x),
{
    let more = scalarized(dag, id)->0.dag;
    let node = dag[id as int];
    let new = more[one as int];
    let from = dag[node.srcs[0] as int];
    let address = new.srcs[0];
    lemma_arity(dag, id);
    assert(dag[id as int].srcs[0] < id);
    assert(reaches(dag, node.srcs[0], node.srcs[0]));
    assert(reaches(dag, id, node.srcs[0]));
    let k = choose|k: int|
        #![trigger more[one as int].srcs[k]]
        0 <= k < more[one as int].srcs.len() && more[one as int].srcs[k] < one && reaches(
            more,
            more[one as int].srcs[k],
            x,
        );
    if k > 0 {
        let src = node.srcs[k];
        assert(dag[id as int].srcs[k] < id);
        assert(new.srcs[k] == lane_source(dag, src, lane));
        assert(has_lanes(dag, dag[id as int].srcs[k], access_lanes(dag, id)->0));
        assert(reaches(dag, src, src));
        if dag[src as int].op is Stack {
            assert(dag[src as int].srcs[lane] < src);
            assert(reaches(dag, dag[src as int].srcs[lane], dag[src as int].srcs[lane]));
        }
        assert(reaches(dag, src, new.srcs[k]));
        assert(reaches(dag, id, src));
        lemma_reaches_transitive(dag, id, src, new.srcs[k]);
        lemma_old_is_settled(dag, more, id, new.srcs[k], x);
    } else if x != address {
        let j = choose|j: int|
            #![trigger more[address as int].srcs[j]]
            0 <= j < more[address as int].srcs.len() && more[address as int].srcs[j] < address
                && reaches(more, more[address as int].srcs[j], x);
        let src = more[address as int].srcs[j];
        if from.op is Index {
            if j == 0 {
                assert(dag[node.srcs[0] as int].srcs[0] < node.srcs[0]);
                assert(reaches(dag, from.srcs[0], from.srcs[0]));
                assert(reaches(dag, node.srcs[0], src));
            } else {
                let index = from.srcs[1];
                assert(dag[node.srcs[0] as int].srcs[1] < node.srcs[0]);
                assert(dag[index as int].srcs[lane] < index);
                assert(reaches(dag, dag[index as int].srcs[lane], dag[index as int].srcs[lane]));
                assert(reaches(dag, index, src));
                assert(reaches(dag, node.srcs[0], src));
            }
            lemma_reaches_transitive(dag, id, node.srcs[0], src);
            lemma_old_is_settled(dag, more, id, src, x);
        } else if j == 0 {
            lemma_old_is_settled(dag, more, id, src, x);
        } else {
            assert(x == src);
        }
    }
}

proof fn lemma_old_is_settled(
    dag: Seq<NodeView>,
    more: Seq<NodeView>,
    id: usize,
    src: usize,
    x: usize,
)
    requires
        dag_wf(dag),
        extends(dag, more),
        id < dag.len(),
        forall|i: usize| #[trigger]
            reaches(dag, id, i) && i != id ==> is_apart(dag, i) && is_bool_settled(dag, i),
        reaches(dag, id, src),
        src < id,
        reaches(more, src, x),
    ensures
        is_bool_settled(more, x),
{
    lemma_reaches_extends(dag, more, src, x);
    lemma_reaches_transitive(dag, id, src, x);
    lemma_reaches_below(dag, src, x);
    lemma_arity(dag, x);
    assert(more[x as int] == dag[x as int]);
    let node = dag[x as int];
    if node.op is Store {
        assert(dag[x as int].srcs[1] < x);
        assert(more[node.srcs[1] as int] == dag[node.srcs[1] as int]);
    }
    if node.op is BitCast {
        assert(dag[x as int].srcs[0] < x);
        assert(more[node.srcs[0] as int] == dag[node.srcs[0] as int]);
    }
}

/// One run of both passes takes an access on several lanes apart once and for
/// all: another run changes nothing. What is below the access is apart, its
/// offsets are numbers, and booleans are at most what the access itself reads.
pub proof fn lemma_devectorized_once(dag: Seq<NodeView>, id: usize)
    requires
        dag_wf(dag),
        id < dag.len() <= usize::MAX,
        access_lanes(dag, id) is Some,
        has_plain_offsets(dag, id),
        dag[id as int].op is Load ==> dag[id as int].srcs.len() == 1,
        dag[id as int].op is Store ==> forall|k: int|
            #![trigger dag[dag[id as int].srcs[1] as int].srcs[k]]
            0 <= k < dag[dag[id as int].srcs[1] as int].srcs.len() ==> dag[dag[dag[id as int].srcs[1] as int].srcs[k] as int].dtype
                != DType::Bool,
        dag[id as int].op is Store ==> dag[dag[id as int].srcs[1] as int].dtype != DType::Bool,
        forall|i: usize| #[trigger]
            reaches(dag, id, i) && i != id ==> is_apart(dag, i) && is_bool_settled(dag, i),
        devectorized(dag, id).dag.len() <= usize::MAX,
    ensures
        ({
            let once = devectorized(dag, id);
            devectorized(once.dag, once.id) == once
        }),
{
    let lanes = scalarized(dag, id)->0;
    let walk = topo(lanes.dag, lanes.id);
    lemma_walk_grows(lanes.dag, walk, walk.len());
    assert forall|i: usize|
        reaches(dag, id, i) && i != id implies #[trigger] rule(Pass::Devectorize, dag, i) == (
    Built { dag, id: i }) by {
        assert(is_apart(dag, i));
    }
    lemma_settled_below(Pass::Devectorize, dag, id);
    lemma_devectorize_is_idempotent(dag, id);
    lemma_scalarized_wf(dag, id);
    assert forall|x: usize| #[trigger] reaches(lanes.dag, lanes.id, x) implies is_apart(
        lanes.dag,
        x,
    ) && (is_bool_settled(lanes.dag, x) || is_bool_load(lanes.dag, x)) by {
        lemma_lane_bools(dag, id, x);
    }
    lemma_apart_is_devectorized_once(lanes.dag, lanes.id);
}

} // verus!
