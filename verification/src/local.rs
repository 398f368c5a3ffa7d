//! Staged values as stores to storage that a kernel has of its own.

use vstd::prelude::*;

use crate::algebra::{element_count, elements};
use crate::bufferize::{find_most_steps, most_steps};
use crate::builders::{end_node, extent_node, put, Built};
use crate::graph::{AddrSpace, AxisId, DType, Graph, NodeView, Op};
use crate::late::made;
use crate::meaning::lemma_arity;
use crate::passes::{grown, sources};
use crate::shape::is_shape;
use crate::topo::lemma_distinct_len;

verus! {

/// The slots of a kernel's own storage that are taken.
#[derive(Debug)]
pub struct LocalBufferContext {
    pub used: Vec<usize>,
    /// The slot of the next staged value that belongs to no axis.
    pub next: usize,
}

/// The first slot of those for axes that come from other axes.
pub open spec fn nested_start() -> int {
    usize::MAX / 2 + 1
}

/// What the parts of a path are folded into.
pub const PATH_MODULUS: u64 = 1_000_000_007;

/// A number for a path, below the modulus.
pub open spec fn path_number(path: Seq<usize>) -> int
    decreases path.len(),
{
    if path.len() == 0 {
        0
    } else {
        (path_number(path.drop_last()) * 31 + path.last() as u64 % PATH_MODULUS + 1)
            % PATH_MODULUS as int
    }
}

/// The slot that a staged value would take: the number of its axis, a slot of
/// those for nested axes, or the next one where it has no axis.
pub open spec fn wanted_slot(axis: Option<Seq<usize>>, next: usize) -> usize {
    match axis {
        None => next,
        Some(path) => if path.len() == 1 {
            path[0]
        } else {
            (nested_start() + path_number(path)) as usize
        },
    }
}

/// The slot `k` steps behind another; the first one comes behind the last.
pub open spec fn stepped(slot: usize, k: nat) -> usize {
    if slot + k <= usize::MAX {
        (slot + k) as usize
    } else {
        (slot + k - usize::MAX - 1) as usize
    }
}

/// The first free slot from `k` steps behind a slot on, within some steps.
pub open spec fn search(used: Seq<usize>, slot: usize, k: nat, more: nat) -> usize
    decreases more,
{
    if more == 0 || !used.contains(stepped(slot, k)) {
        stepped(slot, k)
    } else {
        search(used, slot, k + 1, (more - 1) as nat)
    }
}

/// The first free slot from a slot on.
pub open spec fn free_slot(used: Seq<usize>, slot: usize) -> usize {
    search(used, slot, 0, used.len())
}

proof fn lemma_steps_fit(used: Seq<usize>, slot: usize, k: nat)
    requires
        k <= usize::MAX,
        used.len() <= usize::MAX,
        forall|j: nat| j < k ==> used.contains(#[trigger] stepped(slot, j)),
    ensures
        k <= used.len(),
{
    let place = |j: int| choose|i: int| 0 <= i < used.len() && used[i] == stepped(slot, j as nat);
    let list = Seq::new(k, |j: int| place(j) as usize);
    assert forall|j: int| 0 <= j < k implies 0 <= #[trigger] place(j) < used.len() && used[place(j)]
        == stepped(slot, j as nat) by {
        assert(used.contains(stepped(slot, j as nat)));
    }
    assert forall|a: int, b: int| 0 <= a < k && 0 <= b < k && a != b implies list[a] != list[b] by {
        assert(0 <= place(a) < used.len());
        assert(0 <= place(b) < used.len());
        if list[a] == list[b] {
            assert(place(a) == place(b));
            assert(stepped(slot, a as nat) == stepped(slot, b as nat));
        }
    }
    assert(list.no_duplicates());
    assert forall|p: int| 0 <= p < list.len() implies (#[trigger] list[p]) < used.len() by {
        assert(0 <= place(p) < used.len());
    }
    lemma_distinct_len(list, used.len());
}

proof fn lemma_search(used: Seq<usize>, slot: usize, k: nat, more: nat)
    requires
        used.len() < usize::MAX,
        k + more == used.len(),
        forall|j: nat| j < k ==> used.contains(#[trigger] stepped(slot, j)),
    ensures
        !used.contains(search(used, slot, k, more)),
    decreases more,
{
    if used.contains(stepped(slot, k)) {
        if more == 0 {
            lemma_steps_fit(used, slot, k + 1);
        } else {
            lemma_search(used, slot, k + 1, (more - 1) as nat);
        }
    }
}

/// A slot that is given out is free.
pub proof fn lemma_slot_is_free(used: Seq<usize>, slot: usize)
    requires
        used.len() < usize::MAX,
    ensures
        !used.contains(free_slot(used, slot)),
{
    lemma_search(used, slot, 0, used.len());
}

/// How many steps each of the first `n` loops takes at most, as far as that is
/// known of all of them.
pub open spec fn loop_sizes(dag: Seq<NodeView>, loops: Seq<usize>, n: nat) -> Option<Seq<usize>>
    decreases n,
{
    if n == 0 {
        Some(Seq::empty())
    } else {
        match (loop_sizes(dag, loops, (n - 1) as nat), most_steps(dag, loops[n - 1])) {
            (Some(rest), Some(size)) if dag[loops[n - 1] as int].op is Range => Some(
                rest.push(size),
            ),
            _ => None,
        }
    }
}

/// How much storage a staged value takes.
pub open spec fn staged_size(dag: Seq<NodeView>, id: usize) -> Option<usize> {
    let loops = dag[id as int].srcs.skip(1);
    match loop_sizes(dag, loops, loops.len()) {
        Some(sizes) if elements(sizes) <= i64::MAX && elements(sizes) <= usize::MAX => Some(
            elements(sizes) as usize,
        ),
        _ => None,
    }
}

/// The storage of a staged value: a parameter where it is outside of the
/// kernel.
pub open spec fn storage_in(
    dag: Seq<NodeView>,
    dtype: DType,
    space: AddrSpace,
    slot: usize,
    size: usize,
) -> Built {
    if space == AddrSpace::Global {
        let extent = put(dag, extent_node(size as i64));
        put(
            extent.dag,
            NodeView { op: Op::Param { slot, addrspace: Some(space) }, dtype, srcs: seq![extent.id] },
        )
    } else {
        put(dag, NodeView { op: Op::Buffer { slot, space, size }, dtype, srcs: Seq::empty() })
    }
}

/// The extents of loops.
pub open spec fn extents_of(dag: Seq<NodeView>, loops: Seq<usize>) -> Seq<usize> {
    Seq::new(loops.len(), |k: int| dag[loops[k] as int].srcs[0])
}

/// Storage in the shape that some loops walk; one loop walks it as it is.
pub open spec fn shaped_like(dag: Seq<NodeView>, storage: usize, loops: Seq<usize>) -> Built {
    if loops.len() == 1 {
        Built { dag, id: storage }
    } else {
        let shape = put(
            dag,
            NodeView { op: Op::Stack, dtype: DType::WeakInt, srcs: extents_of(dag, loops) },
        );
        put(
            shape.dag,
            NodeView {
                op: Op::Reshape,
                dtype: dag[storage as int].dtype,
                srcs: seq![storage, shape.id],
            },
        )
    }
}

/// A value stored where the loops stand, and the storage behind that store
/// closed over the loops.
pub open spec fn stored_at(
    dag: Seq<NodeView>,
    target: usize,
    value: usize,
    loops: Seq<usize>,
) -> Built {
    let dtype = dag[value as int].dtype;
    let index = put(dag, NodeView { op: Op::Index, dtype, srcs: seq![target] + loops });
    let store = put(
        index.dag,
        NodeView { op: Op::Store, dtype: DType::Void, srcs: seq![index.id, value] },
    );
    let end = if loops.len() == 0 {
        store
    } else {
        put(store.dag, end_node(store.id, loops))
    };
    put(end.dag, NodeView { op: Op::After, dtype, srcs: seq![target, end.id] })
}

/// A staged value as a store to storage under a slot. Nothing but a staged
/// value becomes one, and none whose size is unknown.
pub open spec fn locally_stored(dag: Seq<NodeView>, id: usize, slot: usize) -> Option<Built> {
    let node = dag[id as int];
    match (staged_size(dag, id), node.op) {
        (Some(size), Op::Stage { space, .. }) => {
            let loops = node.srcs.skip(1);
            let storage = storage_in(dag, dag[node.srcs[0] as int].dtype, space, slot, size);
            let target = shaped_like(storage.dag, storage.id, loops);
            Some(stored_at(target.dag, target.id, node.srcs[0], loops))
        },
        _ => None,
    }
}

impl LocalBufferContext {
    /// Whether more slots can be given out.
    pub open spec fn has_room(&self) -> bool {
        self.used@.len() < usize::MAX && self.next < usize::MAX
    }

    /// No slot is taken.
    pub fn new() -> (ctx: LocalBufferContext)
        ensures
            ctx.used@ == Seq::<usize>::empty(),
            ctx.next == 0,
    {
        LocalBufferContext { used: Vec::new(), next: 0 }
    }

    /// Takes the first free slot from the one that an axis would take.
    pub fn allocate(&mut self, axis: &Option<AxisId>) -> (slot: usize)
        requires
            old(self).has_room(),
        ensures
            slot == free_slot(old(self).used@, wanted_slot(path_of(*axis), old(self).next)),
            !old(self).used@.contains(slot),
            final(self).used@ == old(self).used@.push(slot),
            final(self).next == if axis is None {
                old(self).next + 1
            } else {
                old(self).next as int
            },
    {
        let wanted: usize = match axis {
            None => {
                let slot: usize = self.next;
                self.next = slot + 1;
                slot
            },
            Some(own) => {
                let steps = own.path();
                if steps.len() == 1 {
                    steps[0]
                } else {
                    let number: u64 = find_path_number(&steps);
                    usize::MAX / 2 + 1 + number as usize
                }
            },
        };
        let ghost used = self.used@;
        let mut slot: usize = wanted;
        let mut more: usize = self.used.len();
        let ghost mut k: nat = 0;
        while more > 0 && holds_slot(&self.used, slot)
            invariant
                used == self.used@,
                used.len() < usize::MAX,
                k + more == used.len(),
                slot == stepped(wanted, k),
                free_slot(used, wanted) == search(used, wanted, k, more as nat),
            decreases more,
        {
            slot = if slot == usize::MAX {
                0
            } else {
                slot + 1
            };
            more -= 1;
            proof {
                k = k + 1;
            }
        }
        proof {
            lemma_slot_is_free(used, wanted);
        }
        self.used.push(slot);
        slot
    }
}

/// The path of an axis, if there is one.
pub open spec fn path_of(axis: Option<AxisId>) -> Option<Seq<usize>> {
    match axis {
        Some(own) => Some(own.path_of()),
        None => None,
    }
}

fn holds_slot(used: &Vec<usize>, slot: usize) -> (r: bool)
    ensures
        r == used@.contains(slot),
{
    let mut k: usize = 0;
    while k < used.len()
        invariant
            k <= used@.len(),
            forall|i: int| 0 <= i < k ==> used@[i] != slot,
        decreases used@.len() - k,
    {
        if used[k] == slot {
            return true;
        }
        k += 1;
    }
    false
}

fn find_path_number(path: &Vec<usize>) -> (number: u64)
    ensures
        number == path_number(path@),
        number < PATH_MODULUS,
{
    let mut number: u64 = 0;
    let mut k: usize = 0;
    assert(path@.take(0) =~= Seq::<usize>::empty());
    while k < path.len()
        invariant
            k <= path@.len(),
            number == path_number(path@.take(k as int)),
            number < PATH_MODULUS,
        decreases path@.len() - k,
    {
        proof {
            assert(path@.take(k + 1).drop_last() =~= path@.take(k as int));
            assert(path@.take(k + 1).last() == path@[k as int]);
        }
        number = (number * 31 + path[k] as u64 % PATH_MODULUS + 1) % PATH_MODULUS;
        k += 1;
    }
    assert(path@.take(path@.len() as int) =~= path@);
    number
}

pub(crate) fn find_loop_sizes(graph: &Graph, loops: &Vec<usize>) -> (found: Option<Vec<usize>>)
    requires
        graph.wf(),
        forall|i: int| 0 <= i < loops@.len() ==> (#[trigger] loops@[i]) < graph@.len(),
    ensures
        is_shape(found, loop_sizes(graph@, loops@, loops@.len())),
        found is Some ==> forall|i: int|
            0 <= i < loops@.len() ==> graph@[#[trigger] loops@[i] as int].op is Range,
{
    let mut sizes: Vec<usize> = Vec::new();
    let mut k: usize = 0;
    while k < loops.len()
        invariant
            graph.wf(),
            forall|i: int| 0 <= i < loops@.len() ==> (#[trigger] loops@[i]) < graph@.len(),
            k <= loops@.len(),
            loop_sizes(graph@, loops@, k as nat) == Some(sizes@),
            forall|i: int| 0 <= i < k ==> graph@[#[trigger] loops@[i] as int].op is Range,
        decreases loops@.len() - k,
    {
        let id: usize = loops[k];
        assert(loops@[k as int] < graph@.len());
        let size: Option<usize> = match graph.op(id) {
            Op::Range { .. } => find_most_steps(graph, id),
            _ => None,
        };
        match size {
            Some(n) => {
                sizes.push(n);
            },
            None => {
                proof {
                    assert(loop_sizes(graph@, loops@, (k + 1) as nat) is None);
                    lemma_unknown_stays(graph@, loops@, (k + 1) as nat, loops@.len());
                }
                return None;
            },
        }
        k += 1;
    }
    Some(sizes)
}

fn find_staged_size(graph: &Graph, loops: &Vec<usize>) -> (size: Option<usize>)
    requires
        graph.wf(),
        forall|i: int| 0 <= i < loops@.len() ==> (#[trigger] loops@[i]) < graph@.len(),
    ensures
        size == match loop_sizes(graph@, loops@, loops@.len()) {
            Some(sizes) if elements(sizes) <= i64::MAX && elements(sizes) <= usize::MAX => Some(
                elements(sizes) as usize,
            ),
            _ => None,
        },
        size matches Some(_) ==> forall|i: int|
            0 <= i < loops@.len() ==> graph@[#[trigger] loops@[i] as int].op is Range,
{
    let sizes = match find_loop_sizes(graph, loops) {
        Some(list) => list,
        None => {
            return None;
        },
    };
    match element_count(&sizes) {
        Some(n) => if n as u64 <= i64::MAX as u64 {
            Some(n)
        } else {
            None
        },
        None => None,
    }
}

proof fn lemma_unknown_stays(dag: Seq<NodeView>, loops: Seq<usize>, n: nat, m: nat)
    requires
        loop_sizes(dag, loops, n) is None,
        n <= m,
    ensures
        loop_sizes(dag, loops, m) is None,
    decreases m - n,
{
    if n < m {
        lemma_unknown_stays(dag, loops, n, (m - 1) as nat);
    }
}

fn put_shaped_like(graph: &mut Graph, storage: usize, loops: &Vec<usize>) -> (id: usize)
    requires
        old(graph).wf(),
        storage < old(graph)@.len(),
        forall|i: int|
            0 <= i < loops@.len() ==> (#[trigger] loops@[i]) < old(graph)@.len() && old(
                graph,
            )@[loops@[i] as int].op is Range,
    ensures
        grown(old(graph)@, *final(graph), shaped_like(old(graph)@, storage, loops@), id),
{
    if loops.len() == 1 {
        return storage;
    }
    let ghost dag = graph@;
    let mut extents: Vec<usize> = Vec::new();
    let mut k: usize = 0;
    while k < loops.len()
        invariant
            graph.wf(),
            graph@ == dag,
            forall|i: int|
                0 <= i < loops@.len() ==> (#[trigger] loops@[i]) < dag.len()
                    && dag[loops@[i] as int].op is Range,
            k <= loops@.len(),
            extents@ == extents_of(dag, loops@).take(k as int),
            forall|i: int| 0 <= i < extents@.len() ==> (#[trigger] extents@[i]) < dag.len(),
        decreases loops@.len() - k,
    {
        assert(loops@[k as int] < dag.len());
        proof {
            lemma_arity(dag, loops@[k as int]);
        }
        let extent: usize = graph.source(loops[k], 0);
        extents.push(extent);
        k += 1;
        assert(extents@ =~= extents_of(dag, loops@).take(k as int));
    }
    assert(extents@ =~= extents_of(dag, loops@));
    let dtype = graph.dtype(storage);
    let shape: usize = graph.node(Op::Stack, DType::WeakInt, extents.as_slice());
    graph.binary(Op::Reshape, dtype, storage, shape)
}

fn put_stored_at(graph: &mut Graph, target: usize, value: usize, loops: &Vec<usize>) -> (id: usize)
    requires
        old(graph).wf(),
        target < old(graph)@.len(),
        value < old(graph)@.len(),
        forall|i: int| 0 <= i < loops@.len() ==> (#[trigger] loops@[i]) < old(graph)@.len(),
    ensures
        grown(old(graph)@, *final(graph), stored_at(old(graph)@, target, value, loops@), id),
{
    let dtype = graph.dtype(value);
    let index: usize = graph.led(Op::Index, dtype, target, loops.as_slice());
    let store: usize = graph.binary(Op::Store, DType::Void, index, value);
    let end: usize = if loops.len() == 0 {
        store
    } else {
        graph.end(store, loops.as_slice())
    };
    graph.binary(Op::After, dtype, target, end)
}

/// Turns a staged value into a store to storage in its space, under the slot of
/// its axis or else the first free one behind that.
pub fn add_local_buffer(
    graph: &mut Graph,
    id: usize,
    axis: &Option<AxisId>,
    ctx: &mut LocalBufferContext,
) -> (new: Option<usize>)
    requires
        old(graph).wf(),
        id < old(graph)@.len(),
        old(ctx).has_room(),
    ensures
        ({
            let slot = free_slot(old(ctx).used@, wanted_slot(path_of(*axis), old(ctx).next));
            &&& made(
                old(graph)@,
                *final(graph),
                locally_stored(old(graph)@, id, slot),
                new,
            )
            &&& new is Some ==> final(ctx).used@ == old(ctx).used@.push(slot)
                && !old(ctx).used@.contains(slot) && final(ctx).next == if axis is None {
                old(ctx).next + 1
            } else {
                old(ctx).next as int
            }
            &&& new is None ==> *final(ctx) == *old(ctx)
        }),
{
    let ghost dag = graph@;
    let space = match graph.op(id) {
        Op::Stage { space, .. } => space,
        _ => {
            return None;
        },
    };
    proof {
        lemma_arity(dag, id);
    }
    let value: usize = graph.source(id, 0);
    let mut loops = sources(graph, id);
    let ghost all = loops@;
    loops.remove(0);
    assert(loops@ =~= all.skip(1));
    proof {
        assert forall|i: int| 0 <= i < loops@.len() implies (#[trigger] loops@[i]) < dag.len() by {
            assert(all[i + 1] < id);
        }
    }
    let size: usize = match find_staged_size(graph, &loops) {
        Some(size) => size,
        None => {
            return None;
        },
    };
    let slot: usize = ctx.allocate(axis);
    let dtype = graph.dtype(value);
    let storage: usize = match space {
        AddrSpace::Global => {
            let extent: usize = graph.index_const(size as i64);
            graph.unary(Op::Param { slot, addrspace: Some(space) }, dtype, extent)
        },
        _ => graph.leaf(Op::Buffer { slot, space, size }, dtype),
    };
    let ghost mid = graph@;
    proof {
        assert forall|i: int| 0 <= i < loops@.len() implies (#[trigger] loops@[i]) < mid.len()
            && mid[loops@[i] as int].op is Range by {
            assert(loops@[i] < dag.len());
            assert(mid[loops@[i] as int] == dag[loops@[i] as int]);
        }
    }
    let target: usize = put_shaped_like(graph, storage, &loops);
    proof {
        assert(mid[value as int] == dag[value as int]);
    }
    let new: usize = put_stored_at(graph, target, value, &loops);
    Some(new)
}

} // verus!
