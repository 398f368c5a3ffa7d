//! Accesses that are taken apart once and for all.

use vstd::prelude::*;

use crate::builders::{extent_node, lemma_interned_keeps, put, Built};
use crate::graph::{dag_wf, lemma_interned_wf, NodeView, Op};
use crate::meaning::lemma_arity;
use crate::passes::{
    extends, is_alu, is_vector_alu, lemma_put, lemma_settled_below, lemma_settled_graph_is_kept,
    rewritten, rule, widest, width, Pass,
};
use crate::scalarize::{
    access_lanes, address_lanes, has_lanes, holder, is_lane, is_shaped_address, lane_access,
    lane_accesses, lane_address, lane_source, lemma_access_grows, lemma_every_lane_is_accessed,
    lemma_lanes, scalarized,
};
use crate::topo::{lemma_reaches_below, lemma_reaches_extends, lemma_reaches_transitive, reaches};

verus! {

/// Whether nothing is left to take apart at a node.
pub open spec fn is_apart(dag: Seq<NodeView>, id: usize) -> bool {
    access_lanes(dag, id) is None && !is_vector_alu(dag, id)
}

/// Whether no lane of the address of an access has lanes of its own.
pub open spec fn has_single_offsets(dag: Seq<NodeView>, id: usize) -> bool {
    let address = dag[dag[id as int].srcs[0] as int];
    address.op is Index && address.srcs.len() == 2 && dag[address.srcs[1] as int].op is Stack
        ==> forall|k: int|
        0 <= k < dag[address.srcs[1] as int].srcs.len() ==> !(dag[(
        #[trigger] dag[address.srcs[1] as int].srcs[k]) as int].op is Stack)
}

pub(crate) proof fn lemma_width_extends(dag: Seq<NodeView>, more: Seq<NodeView>, id: usize)
    requires
        dag_wf(dag),
        extends(dag, more),
        id < dag.len(),
    ensures
        width(more, id) == width(dag, id),
    decreases id, 1int, 0int,
{
    let node = dag[id as int];
    assert(more[id as int] == node);
    if node.op is Stack {
    } else if is_alu(node.op) {
        lemma_widest_extends(dag, more, id, node.srcs.len());
    } else if node.op is Load || node.op is Reshape {
        if node.srcs.len() > 0 {
            assert(dag[id as int].srcs[0] < id);
            lemma_width_extends(dag, more, node.srcs[0]);
        }
    } else if node.op is Index {
        if node.srcs.len() > 1 {
            assert(dag[id as int].srcs[1] < id);
            lemma_width_extends(dag, more, node.srcs[1]);
        }
    }
}

proof fn lemma_widest_extends(dag: Seq<NodeView>, more: Seq<NodeView>, id: usize, n: nat)
    requires
        dag_wf(dag),
        extends(dag, more),
        id < dag.len(),
    ensures
        widest(more, id, n) == widest(dag, id, n),
    decreases id, 0int, n,
{
    assert(more[id as int] == dag[id as int]);
    if n > 0 && n <= dag[id as int].srcs.len() {
        assert(dag[id as int].srcs[n - 1] < id);
        lemma_widest_extends(dag, more, id, (n - 1) as nat);
        lemma_width_extends(dag, more, dag[id as int].srcs[n - 1]);
    }
}

proof fn lemma_lanes_extend(dag: Seq<NodeView>, more: Seq<NodeView>, id: usize)
    requires
        dag_wf(dag),
        extends(dag, more),
        id < dag.len(),
    ensures
        access_lanes(more, id) == access_lanes(dag, id),
{
    let node = dag[id as int];
    assert(more[id as int] == node);
    lemma_arity(dag, id);
    if node.op is Load || node.op is Store {
        let address = node.srcs[0];
        assert(dag[id as int].srcs[0] < id);
        assert(more[address as int] == dag[address as int]);
        if dag[address as int].op is Index && dag[address as int].srcs.len() == 2 {
            let index = dag[address as int].srcs[1];
            assert(dag[address as int].srcs[1] < address);
            assert(more[index as int] == dag[index as int]);
        }
        if node.op is Store {
            assert(dag[id as int].srcs[1] < id);
            assert(more[node.srcs[1] as int] == dag[node.srcs[1] as int]);
        }
        assert(address_lanes(more, id) == address_lanes(dag, id));
        if address_lanes(dag, id) is Some {
            let n = address_lanes(dag, id)->0;
            assert forall|k: int| 1 <= k < node.srcs.len() implies has_lanes(
                more,
                #[trigger] node.srcs[k],
                n,
            ) == has_lanes(dag, node.srcs[k], n) by {
                assert(dag[id as int].srcs[k] < id);
                assert(more[node.srcs[k] as int] == dag[node.srcs[k] as int]);
                lemma_width_extends(dag, more, node.srcs[k]);
            }
            if access_lanes(dag, id) is Some {
                assert forall|k: int| 1 <= k < more[id as int].srcs.len() implies has_lanes(
                    more,
                    #[trigger] more[id as int].srcs[k],
                    n,
                ) by {
                    assert(has_lanes(dag, dag[id as int].srcs[k], n));
                    assert(has_lanes(more, node.srcs[k], n) == has_lanes(dag, node.srcs[k], n));
                }
            } else {
                let k = choose|k: int|
                    1 <= k < dag[id as int].srcs.len() && !has_lanes(
                        dag,
                        #[trigger] dag[id as int].srcs[k],
                        n,
                    );
                assert(has_lanes(more, node.srcs[k], n) == has_lanes(dag, node.srcs[k], n));
                assert(!has_lanes(more, more[id as int].srcs[k], n));
            }
        }
    }
}

pub(crate) proof fn lemma_apart_extends(dag: Seq<NodeView>, more: Seq<NodeView>, id: usize)
    requires
        dag_wf(dag),
        extends(dag, more),
        id < dag.len(),
        is_apart(dag, id),
    ensures
        is_apart(more, id),
{
    let node = dag[id as int];
    assert(more[id as int] == node);
    lemma_lanes_extend(dag, more, id);
    lemma_width_extends(dag, more, id);
    if is_alu(node.op) && width(dag, id) > 1 {
        let k = choose|k: int|
            0 <= k < node.srcs.len() && width(dag, #[trigger] node.srcs[k]) != width(dag, id);
        assert(dag[id as int].srcs[k] < id);
        lemma_width_extends(dag, more, node.srcs[k]);
        assert(width(more, more[id as int].srcs[k]) != width(more, id));
    }
}

proof fn lemma_address_wf(dag: Seq<NodeView>, now: Seq<NodeView>, address: usize, lane: int)
    requires
        dag_wf(dag),
        dag_wf(now),
        extends(dag, now),
        address < dag.len(),
        dag[address as int].op is Index ==> is_shaped_address(dag, address) && 0 <= lane
            < dag[dag[address as int].srcs[1] as int].srcs.len(),
        lane_address(dag, now, address, lane).dag.len() <= usize::MAX,
    ensures
        dag_wf(lane_address(dag, now, address, lane).dag),
        extends(now, lane_address(dag, now, address, lane).dag),
        lane_address(dag, now, address, lane).id < lane_address(dag, now, address, lane).dag.len(),
{
    let node = dag[address as int];
    if node.op is Index {
        let at = lane_source(dag, node.srcs[1], lane);
        assert(dag[address as int].srcs[0] < address && dag[address as int].srcs[1] < address);
        assert(dag[node.srcs[1] as int].srcs[lane] < node.srcs[1]);
        let new = NodeView { op: Op::Index, dtype: node.dtype, srcs: seq![node.srcs[0], at] };
        lemma_interned_keeps(now, new);
        lemma_interned_wf(now, new);
        lemma_put(now, new);
    } else {
        let at = put(now, extent_node(lane as i64));
        let new = NodeView { op: Op::Index, dtype: node.dtype, srcs: seq![address, at.id] };
        lemma_interned_keeps(now, extent_node(lane as i64));
        lemma_interned_keeps(at.dag, new);
        lemma_interned_wf(now, extent_node(lane as i64));
        lemma_put(now, extent_node(lane as i64));
        lemma_interned_wf(at.dag, new);
        lemma_put(at.dag, new);
    }
}

proof fn lemma_access_wf(dag: Seq<NodeView>, now: Seq<NodeView>, id: usize, lane: int)
    requires
        dag_wf(dag),
        dag_wf(now),
        extends(dag, now),
        id < dag.len(),
        access_lanes(dag, id) matches Some(n) && 0 <= lane < n,
        lane_access(dag, now, id, lane).dag.len() <= usize::MAX,
    ensures
        dag_wf(lane_access(dag, now, id, lane).dag),
{
    let node = dag[id as int];
    lemma_arity(dag, id);
    assert(dag[id as int].srcs[0] < id);
    let address = lane_address(dag, now, node.srcs[0], lane);
    let rest = Seq::new(
        (node.srcs.len() - 1) as nat,
        |k: int| lane_source(dag, node.srcs[k + 1], lane),
    );
    let new = NodeView { op: node.op, dtype: node.dtype, srcs: seq![address.id] + rest };
    lemma_interned_keeps(address.dag, new);
    lemma_address_wf(dag, now, node.srcs[0], lane);
    assert forall|k: int| 0 <= k < new.srcs.len() implies (#[trigger] new.srcs[k])
        < address.dag.len() by {
        if k > 0 {
            let src = node.srcs[k];
            assert(dag[id as int].srcs[k] < id);
            assert(has_lanes(dag, dag[id as int].srcs[k], access_lanes(dag, id)->0));
            assert(new.srcs[k] == lane_source(dag, src, lane));
            if dag[src as int].op is Stack {
                assert(dag[src as int].srcs[lane] < src);
            }
        }
    }
    lemma_interned_wf(address.dag, new);
}

proof fn lemma_accesses_wf(dag: Seq<NodeView>, id: usize, n: nat)
    requires
        dag_wf(dag),
        id < dag.len(),
        access_lanes(dag, id) matches Some(all) && n <= all,
        lane_accesses(dag, id, n).dag.len() <= usize::MAX,
    ensures
        dag_wf(lane_accesses(dag, id, n).dag),
    decreases n,
{
    if n > 0 {
        let rest = lane_accesses(dag, id, (n - 1) as nat);
        lemma_access_grows(dag, rest.dag, id, n - 1);
        lemma_accesses_wf(dag, id, (n - 1) as nat);
        lemma_lanes(dag, id, (n - 1) as nat);
        lemma_access_wf(dag, rest.dag, id, n - 1);
    }
}

/// The access on one lane is apart, and so is all that it reaches.
pub(crate) proof fn lemma_lane_is_apart(
    dag: Seq<NodeView>,
    more: Seq<NodeView>,
    id: usize,
    lane: int,
    one: usize,
    x: usize,
)
    requires
        dag_wf(dag),
        dag_wf(more),
        extends(dag, more),
        id < dag.len(),
        access_lanes(dag, id) matches Some(n) && 0 <= lane < n,
        has_single_offsets(dag, id),
        forall|i: usize| #[trigger] reaches(dag, id, i) && i != id ==> is_apart(dag, i),
        one < more.len(),
        is_lane(dag, more, id, lane, one),
        reaches(more, one, x),
    ensures
        is_apart(more, x),
{
    let node = dag[id as int];
    let from = dag[node.srcs[0] as int];
    let new = more[one as int];
    let address = new.srcs[0];
    let offset = more[address as int].srcs[1];
    lemma_arity(dag, id);
    assert(dag[id as int].srcs[0] < id);
    assert(more[one as int].srcs[0] < one);
    assert(more[address as int].srcs[0] < address && more[address as int].srcs[1] < address);
    if from.op is Index {
        assert(dag[node.srcs[0] as int].srcs[1] < node.srcs[0]);
        assert(dag[from.srcs[1] as int].srcs[lane] < from.srcs[1]);
        assert(more[offset as int] == dag[offset as int]);
    }
    assert(!(more[offset as int].op is Stack));
    if x != one {
        let k = choose|k: int|
            #![trigger more[one as int].srcs[k]]
            0 <= k < more[one as int].srcs.len() && more[one as int].srcs[k] < one && reaches(
                more,
                more[one as int].srcs[k],
                x,
            );
        if k > 0 {
            let src = node.srcs[k];
            assert(dag[id as int].srcs[k] < id);
            assert(new.srcs[k] == lane_source(dag, src, lane));
            assert(has_lanes(dag, dag[id as int].srcs[k], access_lanes(dag, id)->0));
            assert(reaches(dag, src, src));
            if dag[src as int].op is Stack {
                assert(dag[src as int].srcs[lane] < src);
                assert(reaches(dag, dag[src as int].srcs[lane], dag[src as int].srcs[lane]));
            }
            assert(reaches(dag, src, new.srcs[k]));
            assert(reaches(dag, id, src));
            lemma_reaches_transitive(dag, id, src, new.srcs[k]);
            lemma_old_is_apart(dag, more, id, new.srcs[k], x);
        } else if x != address {
            let j = choose|j: int|
                #![trigger more[address as int].srcs[j]]
                0 <= j < more[address as int].srcs.len() && more[address as int].srcs[j] < address
                    && reaches(more, more[address as int].srcs[j], x);
            let src = more[address as int].srcs[j];
            assert(reaches(dag, node.srcs[0], node.srcs[0]));
            assert(reaches(dag, id, node.srcs[0]));
            if from.op is Index {
                if j == 0 {
                    assert(dag[node.srcs[0] as int].srcs[0] < node.srcs[0]);
                    assert(reaches(dag, from.srcs[0], from.srcs[0]));
                    assert(reaches(dag, node.srcs[0], src));
                } else {
                    let index = from.srcs[1];
                    assert(reaches(dag, dag[index as int].srcs[lane], dag[index as int].srcs[lane]));
                    assert(reaches(dag, index, src));
                    assert(reaches(dag, node.srcs[0], src));
                }
                lemma_reaches_transitive(dag, id, node.srcs[0], src);
                lemma_old_is_apart(dag, more, id, src, x);
            } else if j == 0 {
                lemma_old_is_apart(dag, more, id, src, x);
            } else {
                assert(more[src as int] == extent_node(lane as i64));
                assert(x == src);
            }
        }
    }
}

proof fn lemma_old_is_apart(
    dag: Seq<NodeView>,
    more: Seq<NodeView>,
    id: usize,
    src: usize,
    x: usize,
)
    requires
        dag_wf(dag),
        extends(dag, more),
        id < dag.len(),
        forall|i: usize| #[trigger] reaches(dag, id, i) && i != id ==> is_apart(dag, i),
        reaches(dag, id, src),
        src < id,
        reaches(more, src, x),
    ensures
        is_apart(more, x),
{
    lemma_reaches_extends(dag, more, src, x);
    lemma_reaches_transitive(dag, id, src, x);
    lemma_reaches_below(dag, src, x);
    lemma_apart_extends(dag, more, x);
}

/// Memory accesses are taken apart once: where nothing below an access is left
/// to take apart and no lane of its address has lanes of its own, the rewrite
/// leaves alone what it has made of the access.
pub proof fn lemma_devectorize_is_idempotent(dag: Seq<NodeView>, id: usize)
    requires
        dag_wf(dag),
        id < dag.len() <= usize::MAX,
        access_lanes(dag, id) is Some,
        has_single_offsets(dag, id),
        forall|i: usize| #[trigger] reaches(dag, id, i) && i != id ==> is_apart(dag, i),
        scalarized(dag, id)->0.dag.len() <= usize::MAX,
    ensures
        ({
            let once = rewritten(Pass::Devectorize, dag, id);
            &&& once == scalarized(dag, id)->0
            &&& rewritten(Pass::Devectorize, once.dag, once.id) == once
        }),
{
    let once = scalarized(dag, id)->0;
    let n = access_lanes(dag, id)->0;
    let node = dag[id as int];
    assert forall|i: usize|
        reaches(dag, id, i) && i != id implies #[trigger] rule(Pass::Devectorize, dag, i) == (
    Built { dag, id: i }) by {
        assert(is_apart(dag, i));
    }
    lemma_settled_below(Pass::Devectorize, dag, id);
    let list = lane_accesses(dag, id, n);
    let all = NodeView { op: holder(node.op), dtype: node.dtype, srcs: list.srcs };
    lemma_interned_keeps(list.dag, all);
    lemma_put(list.dag, all);
    lemma_lanes(dag, id, n);
    lemma_accesses_wf(dag, id, n);
    lemma_interned_wf(list.dag, all);
    lemma_every_lane_is_accessed(dag, id);
    assert(extends(dag, once.dag)) by {
        assert forall|i: int| 0 <= i < dag.len() implies #[trigger] once.dag[i] == dag[i] by {
            assert(list.dag[i] == dag[i]);
        }
    }
    assert forall|x: usize| reaches(once.dag, once.id, x) implies #[trigger] rule(
        Pass::Devectorize,
        once.dag,
        x,
    ) == (Built { dag: once.dag, id: x }) by {
        if x != once.id {
            let k = choose|k: int|
                #![trigger once.dag[once.id as int].srcs[k]]
                0 <= k < once.dag[once.id as int].srcs.len() && once.dag[once.id as int].srcs[k]
                    < once.id && reaches(once.dag, once.dag[once.id as int].srcs[k], x);
            let one = once.dag[once.id as int].srcs[k];
            assert(is_lane(dag, once.dag, id, k, one));
            lemma_lane_is_apart(dag, once.dag, id, k, one, x);
        }
        assert(is_apart(once.dag, x));
    }
    lemma_settled_graph_is_kept(Pass::Devectorize, once.dag, once.id);
}

/// An access that is taken apart leaves a graph well formed.
pub(crate) proof fn lemma_scalarized_wf(dag: Seq<NodeView>, id: usize)
    requires
        dag_wf(dag),
        id < dag.len() <= usize::MAX,
        access_lanes(dag, id) is Some,
        scalarized(dag, id)->0.dag.len() <= usize::MAX,
    ensures
        ({
            let once = scalarized(dag, id)->0;
            &&& dag_wf(once.dag)
            &&& extends(dag, once.dag)
            &&& once.id < once.dag.len()
        }),
{
    let n = access_lanes(dag, id)->0;
    let node = dag[id as int];
    let list = lane_accesses(dag, id, n);
    let all = NodeView { op: holder(node.op), dtype: node.dtype, srcs: list.srcs };
    lemma_interned_keeps(list.dag, all);
    lemma_put(list.dag, all);
    lemma_lanes(dag, id, n);
    lemma_accesses_wf(dag, id, n);
    lemma_interned_wf(list.dag, all);
    let once = scalarized(dag, id)->0;
    assert forall|i: int| 0 <= i < dag.len() implies #[trigger] once.dag[i] == dag[i] by {
        assert(list.dag[i] == dag[i]);
    }
}

} // verus!
