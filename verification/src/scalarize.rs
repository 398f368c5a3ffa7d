//! Memory accesses on several lanes as accesses on one lane each.

use vstd::prelude::*;

use crate::builders::{extent_node, lemma_interned_keeps, put, Built};
use crate::graph::{dag_wf, Graph, NodeView, Op};
use crate::late::made;
use crate::meaning::lemma_arity;
use crate::pad::Listed;
use crate::passes::{extends, grown, lane_count, lemma_put, rewrite, rewritten, sources, width, Pass};

verus! {

/// Whether an address has several lanes: an index with a stack of offsets.
pub open spec fn is_shaped_address(dag: Seq<NodeView>, id: usize) -> bool {
    let node = dag[id as int];
    node.op is Index && node.srcs.len() == 2 && dag[node.srcs[1] as int].op is Stack
        && dag[node.srcs[1] as int].srcs.len() > 1
}

/// Whether a value has a number of lanes, or one for all of them.
pub open spec fn has_lanes(dag: Seq<NodeView>, id: usize, n: nat) -> bool {
    if dag[id as int].op is Stack {
        dag[id as int].srcs.len() == n
    } else {
        width(dag, id) == 1
    }
}

/// How many lanes the address of an access has. Storage that is written whole
/// has those of the value.
pub open spec fn address_lanes(dag: Seq<NodeView>, id: usize) -> Option<nat> {
    let node = dag[id as int];
    let address = node.srcs[0];
    if !(node.op is Load) && !(node.op is Store) {
        None
    } else if is_shaped_address(dag, address) {
        Some(dag[dag[address as int].srcs[1] as int].srcs.len())
    } else if node.op is Store && !(dag[address as int].op is Index)
        && dag[node.srcs[1] as int].op is Stack && dag[node.srcs[1] as int].srcs.len() > 1 {
        Some(dag[node.srcs[1] as int].srcs.len())
    } else {
        None
    }
}

/// How many lanes an access has, if several and all its operands go with them.
pub open spec fn access_lanes(dag: Seq<NodeView>, id: usize) -> Option<nat> {
    match address_lanes(dag, id) {
        Some(n) => if forall|k: int|
            1 <= k < dag[id as int].srcs.len() ==> has_lanes(
                dag,
                #[trigger] dag[id as int].srcs[k],
                n,
            ) {
            Some(n)
        } else {
            None
        },
        None => None,
    }
}

/// One lane of a value.
pub open spec fn lane_source(dag: Seq<NodeView>, src: usize, lane: int) -> usize {
    if dag[src as int].op is Stack {
        dag[src as int].srcs[lane]
    } else {
        src
    }
}

/// One lane of an address, in a graph that has grown.
pub open spec fn lane_address(
    dag: Seq<NodeView>,
    now: Seq<NodeView>,
    address: usize,
    lane: int,
) -> Built {
    let node = dag[address as int];
    if node.op is Index {
        put(
            now,
            NodeView {
                op: Op::Index,
                dtype: node.dtype,
                srcs: seq![node.srcs[0], lane_source(dag, node.srcs[1], lane)],
            },
        )
    } else {
        let at = put(now, extent_node(lane as i64));
        put(at.dag, NodeView { op: Op::Index, dtype: node.dtype, srcs: seq![address, at.id] })
    }
}

/// One lane of an access.
pub open spec fn lane_access(dag: Seq<NodeView>, now: Seq<NodeView>, id: usize, lane: int) -> Built {
    let node = dag[id as int];
    let address = lane_address(dag, now, node.srcs[0], lane);
    put(
        address.dag,
        NodeView {
            op: node.op,
            dtype: node.dtype,
            srcs: seq![address.id] + Seq::new(
                (node.srcs.len() - 1) as nat,
                |k: int| lane_source(dag, node.srcs[k + 1], lane),
            ),
        },
    )
}

/// The first `n` lanes of an access.
pub open spec fn lane_accesses(dag: Seq<NodeView>, id: usize, n: nat) -> Listed
    decreases n,
{
    if n == 0 {
        Listed { dag, srcs: Seq::empty() }
    } else {
        let rest = lane_accesses(dag, id, (n - 1) as nat);
        let last = lane_access(dag, rest.dag, id, n - 1);
        Listed { dag: last.dag, srcs: rest.srcs.push(last.id) }
    }
}

/// What holds the lanes of an access together: a stack of loads, a group of
/// stores.
pub open spec fn holder(op: Op) -> Op {
    if op is Load {
        Op::Stack
    } else {
        Op::Group
    }
}

/// An access on several lanes as accesses on one.
pub open spec fn scalarized(dag: Seq<NodeView>, id: usize) -> Option<Built> {
    match access_lanes(dag, id) {
        Some(n) => {
            let node = dag[id as int];
            let list = lane_accesses(dag, id, n);
            Some(
                put(
                    list.dag,
                    NodeView { op: holder(node.op), dtype: node.dtype, srcs: list.srcs },
                ),
            )
        },
        None => None,
    }
}

fn shaped_address(graph: &Graph, id: usize) -> (lanes: Option<usize>)
    requires
        graph.wf(),
        id < graph@.len(),
    ensures
        is_shaped_address(graph@, id) == (lanes is Some),
        lanes matches Some(n) ==> n == graph@[graph@[id as int].srcs[1] as int].srcs.len(),
{
    match graph.op(id) {
        Op::Index => {},
        _ => {
            return None;
        },
    }
    if graph.source_count(id) != 2 {
        return None;
    }
    let index: usize = graph.source(id, 1);
    stack_lanes(graph, index)
}

fn stack_lanes(graph: &Graph, id: usize) -> (lanes: Option<usize>)
    requires
        graph.wf(),
        id < graph@.len(),
    ensures
        (graph@[id as int].op is Stack && graph@[id as int].srcs.len() > 1) == (lanes is Some),
        lanes matches Some(n) ==> n == graph@[id as int].srcs.len(),
{
    match graph.op(id) {
        Op::Stack => {
            let n: usize = graph.source_count(id);
            if n > 1 {
                Some(n)
            } else {
                None
            }
        },
        _ => None,
    }
}

fn goes_with(graph: &Graph, id: usize, n: usize) -> (r: bool)
    requires
        graph.wf(),
        id < graph@.len(),
    ensures
        r == has_lanes(graph@, id, n as nat),
{
    match graph.op(id) {
        Op::Stack => graph.source_count(id) == n,
        _ => lane_count(graph, id) == 1,
    }
}

fn find_access_lanes(graph: &Graph, id: usize) -> (lanes: Option<usize>)
    requires
        graph.wf(),
        id < graph@.len(),
    ensures
        match lanes {
            Some(n) => access_lanes(graph@, id) == Some(n as nat),
            None => access_lanes(graph@, id) is None,
        },
{
    proof {
        lemma_arity(graph@, id);
    }
    let op = graph.op(id);
    match op {
        Op::Load | Op::Store => {},
        _ => {
            return None;
        },
    }
    let address: usize = graph.source(id, 0);
    let n: usize = match shaped_address(graph, address) {
        Some(n) => n,
        None => {
            if matches!(op, Op::Load) || matches!(graph.op(address), Op::Index) {
                return None;
            }
            match stack_lanes(graph, graph.source(id, 1)) {
                Some(n) => n,
                None => {
                    return None;
                },
            }
        },
    };
    let count: usize = graph.source_count(id);
    let mut k: usize = 1;
    while k < count
        invariant
            graph.wf(),
            id < graph@.len(),
            count == graph@[id as int].srcs.len(),
            1 <= k <= count,
            address_lanes(graph@, id) == Some(n as nat),
            forall|j: int|
                1 <= j < k ==> has_lanes(graph@, #[trigger] graph@[id as int].srcs[j], n as nat),
        decreases count - k,
    {
        let src: usize = graph.source(id, k);
        if !goes_with(graph, src, n) {
            assert(!has_lanes(graph@, graph@[id as int].srcs[k as int], n as nat));
            return None;
        }
        k += 1;
    }
    Some(n)
}

fn find_lane_source(graph: &Graph, src: usize, lane: usize, Ghost(dag): Ghost<Seq<NodeView>>) -> (id: usize)
    requires
        graph.wf(),
        dag_wf(dag),
        extends(dag, graph@),
        src < dag.len(),
        dag[src as int].op is Stack ==> lane < dag[src as int].srcs.len(),
    ensures
        id == lane_source(dag, src, lane as int),
        id < dag.len(),
{
    assert(graph@[src as int] == dag[src as int]);
    match graph.op(src) {
        Op::Stack => {
            assert(dag[src as int].srcs[lane as int] < src);
            graph.source(src, lane)
        },
        _ => src,
    }
}

fn put_lane_address(graph: &mut Graph, address: usize, lane: usize, Ghost(dag): Ghost<Seq<NodeView>>) -> (id: usize)
    requires
        old(graph).wf(),
        dag_wf(dag),
        extends(dag, old(graph)@),
        address < dag.len(),
        dag[address as int].op is Index ==> is_shaped_address(dag, address) && lane
            < dag[dag[address as int].srcs[1] as int].srcs.len(),
    ensures
        grown(old(graph)@, *final(graph), lane_address(dag, old(graph)@, address, lane as int), id),
{
    let ghost held = graph@;
    assert(held[address as int] == dag[address as int]);
    let dtype = graph.dtype(address);
    match graph.op(address) {
        Op::Index => {
            let storage: usize = graph.source(address, 0);
            let index: usize = graph.source(address, 1);
            assert(dag[address as int].srcs[1] < address);
            let at: usize = find_lane_source(graph, index, lane, Ghost(dag));
            proof {
                lemma_interned_keeps(
                    held,
                    NodeView { op: Op::Index, dtype, srcs: seq![storage, at] },
                );
            }
            graph.binary(Op::Index, dtype, storage, at)
        },
        _ => {
            let at: usize = graph.index_const(lane as i64);
            let ghost sized = graph@;
            proof {
                lemma_interned_keeps(held, extent_node(lane as i64));
                lemma_interned_keeps(
                    sized,
                    NodeView { op: Op::Index, dtype, srcs: seq![address, at] },
                );
            }
            graph.binary(Op::Index, dtype, address, at)
        },
    }
}

fn put_lane_access(graph: &mut Graph, id: usize, lane: usize, Ghost(dag): Ghost<Seq<NodeView>>) -> (new: usize)
    requires
        old(graph).wf(),
        dag_wf(dag),
        extends(dag, old(graph)@),
        id < dag.len(),
        access_lanes(dag, id) matches Some(n) && lane < n,
    ensures
        grown(old(graph)@, *final(graph), lane_access(dag, old(graph)@, id, lane as int), new),
{
    let ghost held = graph@;
    let ghost node = dag[id as int];
    assert(held[id as int] == node);
    proof {
        lemma_arity(dag, id);
    }
    let op = graph.op(id);
    let dtype = graph.dtype(id);
    let srcs = sources(graph, id);
    assert(dag[id as int].srcs[0] < id);
    let address: usize = put_lane_address(graph, srcs[0], lane, Ghost(dag));
    let ghost addressed = graph@;
    let ghost tail = Seq::new(
        (node.srcs.len() - 1) as nat,
        |k: int| lane_source(dag, node.srcs[k + 1], lane as int),
    );
    let mut list: Vec<usize> = Vec::new();
    list.push(address);
    let mut k: usize = 1;
    while k < srcs.len()
        invariant
            graph.wf(),
            graph@ == addressed,
            dag_wf(dag),
            extends(dag, graph@),
            id < dag.len(),
            node == dag[id as int],
            srcs@ == node.srcs,
            access_lanes(dag, id) matches Some(n) && lane < n,
            address < graph@.len(),
            1 <= k <= srcs@.len(),
            tail == Seq::new(
                (node.srcs.len() - 1) as nat,
                |k: int| lane_source(dag, node.srcs[k + 1], lane as int),
            ),
            list@ == seq![address] + tail.take(k - 1),
            forall|j: int| 0 <= j < list@.len() ==> (#[trigger] list@[j]) < graph@.len(),
        decreases srcs@.len() - k,
    {
        let src: usize = srcs[k];
        assert(dag[id as int].srcs[k as int] < id);
        assert(has_lanes(dag, dag[id as int].srcs[k as int], access_lanes(dag, id)->0));
        let one: usize = find_lane_source(graph, src, lane, Ghost(dag));
        assert(tail[k - 1] == one);
        list.push(one);
        k += 1;
        assert(list@ =~= seq![address] + tail.take(k - 1));
    }
    assert(tail.take(srcs@.len() - 1) =~= tail);
    proof {
        lemma_interned_keeps(addressed, NodeView { op, dtype, srcs: list@ });
    }
    graph.node(op, dtype, list.as_slice())
}

/// Makes accesses on one lane of an access on several; see `scalarized`.
pub fn scalarize(graph: &mut Graph, id: usize) -> (new: Option<usize>)
    requires
        old(graph).wf(),
        id < old(graph)@.len(),
    ensures
        made(old(graph)@, *final(graph), scalarized(old(graph)@, id), new),
{
    let ghost dag = graph@;
    let lanes: usize = match find_access_lanes(graph, id) {
        Some(n) => n,
        None => {
            return None;
        },
    };
    let op = graph.op(id);
    let dtype = graph.dtype(id);
    let mut list: Vec<usize> = Vec::new();
    let mut n: usize = 0;
    while n < lanes
        invariant
            graph.wf(),
            dag_wf(dag),
            extends(dag, graph@),
            id < dag.len(),
            access_lanes(dag, id) == Some(lanes as nat),
            n <= lanes,
            graph@ == lane_accesses(dag, id, n as nat).dag,
            list@ == lane_accesses(dag, id, n as nat).srcs,
            list@.len() == n,
            forall|j: int| 0 <= j < list@.len() ==> (#[trigger] list@[j]) < graph@.len(),
        decreases lanes - n,
    {
        let one: usize = put_lane_access(graph, id, n, Ghost(dag));
        list.push(one);
        n += 1;
    }
    let held = match op {
        Op::Load => Op::Stack,
        _ => Op::Group,
    };
    let ghost all = graph@;
    proof {
        lemma_interned_keeps(all, NodeView { op: held, dtype, srcs: list@ });
    }
    Some(graph.node(held, dtype, list.as_slice()))
}

/// Takes arithmetic and memory accesses on several lanes apart, and stores
/// booleans in bytes.
pub fn apply_devectorize(graph: &mut Graph, id: usize) -> (new: usize)
    requires
        old(graph).wf(),
        id < old(graph)@.len(),
    ensures
        final(graph).wf(),
        extends(old(graph)@, final(graph)@),
        new < final(graph)@.len(),
        ({
            let lanes = rewritten(Pass::Devectorize, old(graph)@, id);
            let done = rewritten(Pass::BoolStorage, lanes.dag, lanes.id);
            final(graph)@ == done.dag && new == done.id
        }),
{
    let lanes: usize = rewrite(graph, Pass::Devectorize, id);
    rewrite(graph, Pass::BoolStorage, lanes)
}

/// Cleans values of several lanes; see `lane_rule`.
pub fn apply_devectorize_patterns(graph: &mut Graph, id: usize) -> (new: usize)
    requires
        old(graph).wf(),
        id < old(graph)@.len(),
    ensures
        final(graph).wf(),
        extends(old(graph)@, final(graph)@),
        new < final(graph)@.len(),
        final(graph)@ == rewritten(Pass::Lanes, old(graph)@, id).dag,
        new == rewritten(Pass::Lanes, old(graph)@, id).id,
{
    rewrite(graph, Pass::Lanes, id)
}

proof fn lemma_lane_access(dag: Seq<NodeView>, now: Seq<NodeView>, id: usize, lane: int)
    requires
        dag_wf(dag),
        id < dag.len(),
        extends(dag, now),
        access_lanes(dag, id) matches Some(n) && 0 <= lane < n,
        lane_access(dag, now, id, lane).dag.len() <= usize::MAX,
    ensures
        ({
            let new = lane_access(dag, now, id, lane);
            &&& extends(now, new.dag)
            &&& new.id < new.dag.len()
            &&& is_lane(dag, new.dag, id, lane, new.id)
        }),
{
    let node = dag[id as int];
    let address = node.srcs[0];
    let at = put(now, extent_node(lane as i64));
    let direct = NodeView {
        op: Op::Index,
        dtype: dag[address as int].dtype,
        srcs: seq![
            dag[address as int].srcs[0],
            lane_source(dag, dag[address as int].srcs[1], lane),
        ],
    };
    let beside = NodeView {
        op: Op::Index,
        dtype: dag[address as int].dtype,
        srcs: seq![address, at.id],
    };
    let found = lane_address(dag, now, address, lane);
    let rest = Seq::new(
        (node.srcs.len() - 1) as nat,
        |k: int| lane_source(dag, node.srcs[k + 1], lane),
    );
    let whole = NodeView { op: node.op, dtype: node.dtype, srcs: seq![found.id] + rest };
    lemma_arity(dag, id);
    assert(dag[id as int].srcs[0] < id);
    lemma_interned_keeps(now, extent_node(lane as i64));
    lemma_interned_keeps(now, direct);
    lemma_interned_keeps(at.dag, beside);
    lemma_interned_keeps(found.dag, whole);
    if dag[address as int].op is Index {
        let index = dag[address as int].srcs[1];
        assert(dag[address as int].srcs[1] < address);
        assert(dag[index as int].srcs[lane] < index);
    }
    if dag[address as int].op is Index {
        lemma_put(now, direct);
    } else {
        lemma_put(now, extent_node(lane as i64));
        lemma_put(at.dag, beside);
    }
    lemma_put(found.dag, whole);
}

/// Whether a node is one lane of an access: the same access, at the offset of
/// that lane, with the operands of that lane.
pub open spec fn is_lane(
    dag: Seq<NodeView>,
    now: Seq<NodeView>,
    id: usize,
    lane: int,
    one: usize,
) -> bool {
    let node = dag[id as int];
    let new = now[one as int];
    let address = now[new.srcs[0] as int];
    let from = dag[node.srcs[0] as int];
    &&& new.op == node.op
    &&& new.dtype == node.dtype
    &&& new.srcs[0] < now.len()
    &&& address.srcs[1] < now.len()
    &&& new.srcs.len() == 1 + (node.srcs.len() - 1) as nat
    &&& forall|k: int|
        1 <= k < new.srcs.len() ==> #[trigger] new.srcs[k] == lane_source(dag, node.srcs[k], lane)
    &&& address.op is Index
    &&& address.dtype == from.dtype
    &&& address.srcs.len() == 2
    &&& if from.op is Index {
        address.srcs == seq![from.srcs[0], lane_source(dag, from.srcs[1], lane)]
    } else {
        address.srcs[0] == node.srcs[0] && now[address.srcs[1] as int] == extent_node(lane as i64)
    }
}

pub(crate) proof fn lemma_access_grows(dag: Seq<NodeView>, now: Seq<NodeView>, id: usize, lane: int)
    ensures
        now.len() <= lane_access(dag, now, id, lane).dag.len(),
{
    let node = dag[id as int];
    let address = node.srcs[0];
    let at = put(now, extent_node(lane as i64));
    let found = lane_address(dag, now, address, lane);
    lemma_interned_keeps(now, extent_node(lane as i64));
    lemma_interned_keeps(
        now,
        NodeView {
            op: Op::Index,
            dtype: dag[address as int].dtype,
            srcs: seq![
                dag[address as int].srcs[0],
                lane_source(dag, dag[address as int].srcs[1], lane),
            ],
        },
    );
    lemma_interned_keeps(
        at.dag,
        NodeView { op: Op::Index, dtype: dag[address as int].dtype, srcs: seq![address, at.id] },
    );
    lemma_interned_keeps(
        found.dag,
        NodeView {
            op: node.op,
            dtype: node.dtype,
            srcs: seq![found.id] + Seq::new(
                (node.srcs.len() - 1) as nat,
                |k: int| lane_source(dag, node.srcs[k + 1], lane),
            ),
        },
    );
}

proof fn lemma_lane_stays(
    dag: Seq<NodeView>,
    now: Seq<NodeView>,
    more: Seq<NodeView>,
    id: usize,
    lane: int,
    one: usize,
)
    requires
        extends(now, more),
        one < now.len(),
        is_lane(dag, now, id, lane, one),
    ensures
        is_lane(dag, more, id, lane, one),
{
    assert(more[one as int] == now[one as int]);
    let address = now[one as int].srcs[0];
    assert(more[address as int] == now[address as int]);
    assert(more[now[address as int].srcs[1] as int] == now[now[address as int].srcs[1] as int]);
}

pub(crate) proof fn lemma_lanes(dag: Seq<NodeView>, id: usize, n: nat)
    requires
        dag_wf(dag),
        id < dag.len(),
        access_lanes(dag, id) matches Some(all) && n <= all,
        lane_accesses(dag, id, n).dag.len() <= usize::MAX,
    ensures
        ({
            let new = lane_accesses(dag, id, n);
            &&& extends(dag, new.dag)
            &&& new.srcs.len() == n
            &&& forall|i: int|
                0 <= i < n ==> (#[trigger] new.srcs[i]) < new.dag.len() && is_lane(
                    dag,
                    new.dag,
                    id,
                    i,
                    new.srcs[i],
                )
        }),
    decreases n,
{
    if n > 0 {
        let rest = lane_accesses(dag, id, (n - 1) as nat);
        let last = lane_access(dag, rest.dag, id, n - 1);
        let new = lane_accesses(dag, id, n);
        lemma_access_grows(dag, rest.dag, id, n - 1);
        lemma_lanes(dag, id, (n - 1) as nat);
        lemma_lane_access(dag, rest.dag, id, n - 1);
        assert forall|i: int| 0 <= i < n implies (#[trigger] new.srcs[i]) < new.dag.len()
            && is_lane(dag, new.dag, id, i, new.srcs[i]) by {
            if i < n - 1 {
                assert(new.srcs[i] == rest.srcs[i]);
                lemma_lane_stays(dag, rest.dag, last.dag, id, i, rest.srcs[i]);
            }
        }
    }
}

/// An access on several lanes becomes one access for each lane, in their order.
pub proof fn lemma_every_lane_is_accessed(dag: Seq<NodeView>, id: usize)
    requires
        dag_wf(dag),
        id < dag.len(),
        scalarized(dag, id) is Some,
        scalarized(dag, id)->0.dag.len() <= usize::MAX,
    ensures
        ({
            let done = scalarized(dag, id)->0;
            let all = done.dag[done.id as int];
            &&& all.op == holder(dag[id as int].op)
            &&& access_lanes(dag, id) == Some(all.srcs.len())
            &&& forall|i: int|
                0 <= i < all.srcs.len() ==> is_lane(dag, done.dag, id, i, #[trigger] all.srcs[i])
        }),
{
    let n = access_lanes(dag, id)->0;
    let node = dag[id as int];
    let list = lane_accesses(dag, id, n);
    let all = NodeView { op: holder(node.op), dtype: node.dtype, srcs: list.srcs };
    lemma_interned_keeps(list.dag, all);
    lemma_put(list.dag, all);
    lemma_lanes(dag, id, n);
    let done = scalarized(dag, id)->0;
    assert forall|i: int| 0 <= i < all.srcs.len() implies is_lane(
        dag,
        done.dag,
        id,
        i,
        #[trigger] all.srcs[i],
    ) by {
        lemma_lane_stays(dag, list.dag, done.dag, id, i, list.srcs[i]);
    }
}

} // verus!
