//! What a staged value holds, and what reads of it give.

use vstd::prelude::*;

use crate::address::{flat, lemma_flat, mean};
use crate::builders::{end_node, extent_node, lemma_interned_keeps, put, Built};
use crate::bufferize::{
    bufferized, closed_stores, is_proper_store, most_steps, reused, stage_loop, stored,
};
use crate::early::always_runs;
use crate::expanding::lemma_elements;
use crate::folding::{inlined, read_pairs, relinearized};
use crate::graph::{
    arity_ok, dag_wf, lemma_interned_wf, AddrSpace, ConstValue, DType, NodeView, Op,
};
use crate::limits::argument_count;
use crate::local::{
    extents_of, free_slot, locally_stored, loop_sizes, search, shaped_like, stepped, storage_in,
    stored_at,
};
use crate::meaning::{is_leaf, lemma_arity, lemma_meaning, lemma_meaning_extends, meaning};
use crate::movement::{offset, volume};
use crate::passes::{extends, lemma_put};
use crate::subst::{exchanges, lemma_substitution_means, lookup, visible};

verus! {

/// Whether a read of a staged value reads a loop of it elsewhere.
pub open spec fn reads_elsewhere(dag: Seq<NodeView>, loop_: usize, place: usize) -> bool {
    dag[loop_ as int].op is Range && dag[place as int].op != Op::Const(ConstValue::Invalid)
}

/// Whether one assignment gives each loop that a staged value was computed over
/// the place at which it is read under another one, and all else is the same.
pub open spec fn is_at_places(
    dag: Seq<NodeView>,
    loops: Seq<usize>,
    places: Seq<usize>,
    at: spec_fn(Op) -> int,
    then: spec_fn(Op) -> int,
) -> bool {
    &&& forall|k: int|
        0 <= k < loops.len() && reads_elsewhere(dag, #[trigger] loops[k], places[k]) ==> meaning(
            dag,
            places[k],
            at,
        ) == Some(then(dag[loops[k] as int].op))
    &&& forall|x: usize|
        x < dag.len() && is_leaf((#[trigger] dag[x as int]).op) && !(exists|k: int|
            0 <= k < loops.len() && #[trigger] loops[k] == x && reads_elsewhere(
                dag,
                x,
                places[k],
            )) ==> at(dag[x as int].op) == then(dag[x as int].op)
}

proof fn lemma_pairs(
    dag: Seq<NodeView>,
    loops: Seq<usize>,
    places: Seq<usize>,
    n: nat,
    x: usize,
)
    requires
        n <= loops.len(),
        loops.len() == places.len(),
        loops.no_duplicates(),
    ensures
        match lookup(read_pairs(dag, loops, places, n), x) {
            Some(new) => exists|k: int|
                0 <= k < n && #[trigger] loops[k] == x && places[k] == new && reads_elsewhere(
                    dag,
                    x,
                    new,
                ),
            None => forall|k: int|
                0 <= k < n && #[trigger] loops[k] == x ==> !reads_elsewhere(dag, x, places[k]),
        },
    decreases n,
{
    if n > 0 {
        lemma_pairs(dag, loops, places, (n - 1) as nat, x);
        let rest = read_pairs(dag, loops, places, (n - 1) as nat);
        let all = read_pairs(dag, loops, places, n);
        if reads_elsewhere(dag, loops[n - 1], places[n - 1]) {
            assert(all.last() == (loops[n - 1], places[n - 1]));
            assert(all.drop_last() =~= rest);
        }
    }
}

/// A staged value that is computed again where it is read means there what it
/// means at the place that is read: each of its loops stands at the index that
/// it is read at. A value that has to be staged is not computed again, nor one
/// that reads more than three storages.
pub proof fn lemma_inlined_value_is_read_there(
    dag: Seq<NodeView>,
    id: usize,
    at: spec_fn(Op) -> int,
    then: spec_fn(Op) -> int,
)
    requires
        dag_wf(dag),
        id < dag.len(),
        inlined(dag, id) is Some,
        inlined(dag, id)->0.dag.len() <= usize::MAX,
        dag[dag[id as int].srcs[0] as int].srcs.skip(1).no_duplicates(),
        is_at_places(
            dag,
            dag[dag[id as int].srcs[0] as int].srcs.skip(1),
            dag[id as int].srcs.skip(1),
            at,
            then,
        ),
    ensures
        ({
            let new = inlined(dag, id)->0;
            let stage = dag[dag[id as int].srcs[0] as int];
            &&& stage.op is Stage
            &&& !(stage.op matches Op::Stage { removable: false, .. })
            &&& !always_runs(dag[stage.srcs[0] as int].op)
            &&& argument_count(dag, stage.srcs[0], dag.len()) <= 3
            &&& stage.srcs.len() == dag[id as int].srcs.len()
            &&& meaning(new.dag, new.id, at) == meaning(dag, stage.srcs[0], then)
        }),
{
    let node = dag[id as int];
    lemma_arity(dag, id);
    assert(dag[id as int].srcs[0] < id);
    let stage = dag[node.srcs[0] as int];
    lemma_arity(dag, node.srcs[0]);
    let value = stage.srcs[0];
    assert(dag[node.srcs[0] as int].srcs[0] < node.srcs[0]);
    let (loops, places) = (stage.srcs.skip(1), node.srcs.skip(1));
    let pairs = read_pairs(dag, loops, places, loops.len());
    assert forall|x: usize| #[trigger] visible(dag, value, x) implies match lookup(pairs, x) {
        Some(new) => new < dag.len() && meaning(dag, new, at) == meaning(dag, x, then),
        None => is_leaf(dag[x as int].op) ==> at(dag[x as int].op) == then(dag[x as int].op),
    } by {
        lemma_pairs(dag, loops, places, loops.len(), x);
        lemma_visible_below(dag, value, x);
        match lookup(pairs, x) {
            Some(new) => {
                let k = choose|k: int|
                    0 <= k < loops.len() && #[trigger] loops[k] == x && places[k] == new
                        && reads_elsewhere(dag, x, new);
                assert(dag[id as int].srcs[k + 1] < id);
                lemma_meaning(dag, x, then);
            },
            None => {},
        }
    }
    assert(exchanges(dag, value, pairs, at, then));
    lemma_substitution_means(dag, value, pairs, at, then);
}

proof fn lemma_visible_below(dag: Seq<NodeView>, root: usize, x: usize)
    requires
        dag_wf(dag),
        root < dag.len(),
        visible(dag, root, x),
    ensures
        x < dag.len(),
{
}

proof fn lemma_loop_sizes(dag: Seq<NodeView>, loops: Seq<usize>, sizes: Seq<usize>, n: nat)
    requires
        n <= loops.len(),
        sizes.len() == loops.len(),
        forall|k: int|
            0 <= k < loops.len() ==> dag[(#[trigger] loops[k]) as int].op is Range && most_steps(
                dag,
                loops[k],
            ) == Some(sizes[k]),
    ensures
        loop_sizes(dag, loops, n) == Some(sizes.take(n as int)),
    decreases n,
{
    if n > 0 {
        lemma_loop_sizes(dag, loops, sizes, (n - 1) as nat);
        assert(dag[loops[n - 1] as int].op is Range);
        assert(sizes.take(n as int) =~= sizes.take(n - 1).push(sizes[n - 1]));
    } else {
        assert(sizes.take(0) =~= Seq::empty());
    }
}

/// A staged value that is read at the loops that it was computed over is read at
/// their row-major offset, as far as the loops are counted.
pub proof fn lemma_relinearized_read_is_in_order(
    dag: Seq<NodeView>,
    id: usize,
    sizes: Seq<usize>,
    counts: Seq<usize>,
    at: spec_fn(Op) -> int,
)
    requires
        dag_wf(dag),
        id < dag.len(),
        relinearized(dag, id) is Some,
        relinearized(dag, id)->0.dag.len() <= usize::MAX,
        sizes.len() == dag[id as int].srcs.len() - 1,
        forall|k: int|
            0 <= k < sizes.len() ==> dag[(#[trigger] dag[id as int].srcs.skip(1)[k]) as int].op is Range
                && most_steps(dag, dag[id as int].srcs.skip(1)[k]) == Some(sizes[k]),
        mean(dag, dag[id as int].srcs.skip(1), counts, at),
    ensures
        ({
            let new = relinearized(dag, id)->0;
            let own = new.dag[new.id as int];
            let stage = dag[dag[id as int].srcs[0] as int];
            &&& stage.op is Stage
            &&& stage.srcs.skip(1) == dag[id as int].srcs.skip(1)
            &&& own.op is Index
            &&& own.dtype == dag[id as int].dtype
            &&& own.srcs.len() == 2
            &&& own.srcs[0] == stage.srcs[0]
            &&& meaning(new.dag, own.srcs[1], at) == Some(
                offset(sizes, counts, sizes.len()) as int,
            )
        }),
{
    let node = dag[id as int];
    lemma_arity(dag, id);
    let loops = node.srcs.skip(1);
    lemma_loop_sizes(dag, loops, sizes, loops.len());
    assert(sizes.take(sizes.len() as int) =~= sizes);
    let place = flat(dag, sizes, loops, loops.len());
    let want = NodeView {
        op: Op::Index,
        dtype: node.dtype,
        srcs: seq![dag[node.srcs[0] as int].srcs[0], place.id],
    };
    let new = put(place.dag, want);
    lemma_interned_keeps(place.dag, want);
    lemma_flat(dag, sizes, loops, counts, loops.len(), at);
    lemma_put(place.dag, want);
    assert(new.dag[new.id as int] == want);
    lemma_meaning_extends(place.dag, new.dag, place.id, at);
}

/// The slot that is given out is the first from the wanted one on that is not
/// taken; behind the last slot comes the first.
pub proof fn lemma_slot_is_the_first_free(used: Seq<usize>, wanted: usize)
    requires
        used.len() < usize::MAX,
    ensures
        !used.contains(wanted) ==> free_slot(used, wanted) == wanted,
        exists|k: nat|
            k <= used.len() && free_slot(used, wanted) == #[trigger] stepped(wanted, k) && forall|
                j: nat,
            |
                j < k ==> used.contains(#[trigger] stepped(wanted, j)),
{
    lemma_search_is_first(used, wanted, 0, used.len());
}

proof fn lemma_search_is_first(used: Seq<usize>, wanted: usize, k: nat, more: nat)
    requires
        forall|j: nat| j < k ==> used.contains(#[trigger] stepped(wanted, j)),
    ensures
        exists|i: nat|
            k <= i <= k + more && search(used, wanted, k, more) == #[trigger] stepped(wanted, i)
                && forall|j: nat| j < i ==> used.contains(#[trigger] stepped(wanted, j)),
    decreases more,
{
    if more == 0 || !used.contains(stepped(wanted, k)) {
        assert(search(used, wanted, k, more) == stepped(wanted, k));
    } else {
        lemma_search_is_first(used, wanted, k + 1, (more - 1) as nat);
        let i = choose|i: nat|
            k + 1 <= i <= k + more && search(used, wanted, k + 1, (more - 1) as nat)
                == #[trigger] stepped(wanted, i) && forall|j: nat|
                j < i ==> used.contains(#[trigger] stepped(wanted, j));
        assert(search(used, wanted, k, more) == stepped(wanted, i));
    }
}

/// Whether a node is some storage once a value is written to it, at the place of
/// some loops in each of their steps.
pub open spec fn holds_in_every_step(
    dag: Seq<NodeView>,
    id: usize,
    target: usize,
    value: usize,
    places: Seq<usize>,
    loops: Seq<usize>,
) -> bool {
    let after = dag[id as int];
    let end = dag[after.srcs[1] as int];
    let store_id = if loops.len() == 0 {
        after.srcs[1]
    } else {
        end.srcs[0]
    };
    let store = dag[store_id as int];
    let place = dag[store.srcs[0] as int];
    &&& after.op is After
    &&& after.dtype == dag[value as int].dtype
    &&& after.srcs.len() == 2
    &&& after.srcs[0] == target
    &&& loops.len() > 0 ==> end.op is End && end.srcs.skip(1) == loops
    &&& store.op is Store
    &&& store.srcs.len() == 2
    &&& store.srcs[1] == value
    &&& place.op is Index
    &&& place.srcs.len() == places.len() + 1
    &&& place.srcs[0] == target
    &&& place.srcs.skip(1) == places
}

proof fn lemma_next(dag: Seq<NodeView>, want: NodeView)
    requires
        dag_wf(dag),
        arity_ok(want.op, want.srcs.len()),
        forall|k: int| 0 <= k < want.srcs.len() ==> (#[trigger] want.srcs[k]) < dag.len(),
        put(dag, want).dag.len() <= usize::MAX,
    ensures
        dag_wf(put(dag, want).dag),
        extends(dag, put(dag, want).dag),
        put(dag, want).id < put(dag, want).dag.len(),
        put(dag, want).dag[put(dag, want).id as int] == want,
        dag.len() <= put(dag, want).dag.len(),
{
    lemma_interned_keeps(dag, want);
    lemma_interned_wf(dag, want);
    lemma_put(dag, want);
}

/// A value that is staged outside of kernels is written to new storage, as large
/// as its loop has steps, at each step of the loop; a value without a loop is
/// written once.
#[verifier::spinoff_prover]
#[verifier::rlimit(50)]
pub proof fn lemma_staged_value_is_stored(
    dag: Seq<NodeView>,
    id: usize,
    slot: usize,
    size: usize,
)
    requires
        dag_wf(dag),
        id < dag.len(),
        dag[id as int].op matches Op::Stage { space: AddrSpace::Global, .. },
        !(dag[dag[id as int].srcs[0] as int].op is After),
        dag[id as int].srcs.len() <= 2,
        dag[id as int].srcs.len() == 2 ==> most_steps(dag, dag[id as int].srcs[1]) == Some(size),
        dag[id as int].srcs.len() == 1 ==> size == 1,
        bufferized(dag, id, slot) matches Some(new) ==> new.dag.len() <= usize::MAX,
    ensures
        bufferized(dag, id, slot) is Some,
        ({
            let new = bufferized(dag, id, slot)->0;
            let node = dag[id as int];
            let buffer = new.dag[new.id as int].srcs[0];
            &&& new.dag[buffer as int].op == (Op::Buffer { slot, space: AddrSpace::Global, size })
            &&& new.dag[buffer as int].dtype == dag[node.srcs[0] as int].dtype
            &&& if node.srcs.len() == 2 {
                holds_in_every_step(
                    new.dag,
                    new.id,
                    buffer,
                    node.srcs[0],
                    node.srcs.skip(1),
                    node.srcs.skip(1),
                )
            } else {
                exists|zero: usize|
                    #[trigger] new.dag[zero as int] == extent_node(0) && holds_in_every_step(
                        new.dag,
                        new.id,
                        buffer,
                        node.srcs[0],
                        seq![zero],
                        Seq::empty(),
                    )
            }
        }),
{
    let node = dag[id as int];
    lemma_arity(dag, id);
    let value = node.srcs[0];
    assert(dag[id as int].srcs[0] < id);
    let range = stage_loop(dag, id);
    let new = stored(dag, value, range, slot, size);
    assert(bufferized(dag, id, slot) == Some(new));
    let dtype = dag[value as int].dtype;
    let first = NodeView {
        op: Op::Buffer { slot, space: AddrSpace::Global, size },
        dtype,
        srcs: Seq::empty(),
    };
    let buffer = put(dag, first);
    let place = match range {
        Some(r) => Built { dag: buffer.dag, id: r },
        None => put(buffer.dag, extent_node(0)),
    };
    let second = NodeView { op: Op::Index, dtype, srcs: seq![buffer.id, place.id] };
    let index = put(place.dag, second);
    let third = NodeView { op: Op::Store, dtype: DType::Void, srcs: seq![index.id, value] };
    let store = put(index.dag, third);
    let closing = end_node(store.id, node.srcs.skip(1));
    let end = if range is Some {
        put(store.dag, closing)
    } else {
        store
    };
    let last = NodeView { op: Op::After, dtype, srcs: seq![buffer.id, end.id] };
    if range is Some {
        assert(node.srcs.skip(1) =~= seq![node.srcs[1]]);
        assert(dag[id as int].srcs[1] < id);
    }
    assert(new == put(end.dag, last));
    lemma_interned_keeps(end.dag, last);
    lemma_interned_keeps(store.dag, closing);
    lemma_interned_keeps(index.dag, third);
    lemma_interned_keeps(place.dag, second);
    lemma_interned_keeps(buffer.dag, extent_node(0));
    lemma_next(dag, first);
    if range is None {
        lemma_next(buffer.dag, extent_node(0));
    }
    lemma_next(place.dag, second);
    lemma_next(index.dag, third);
    if range is Some {
        lemma_next(store.dag, closing);
        assert(closing.srcs.skip(1) =~= node.srcs.skip(1));
    }
    lemma_next(end.dag, last);
    assert(new.dag[buffer.id as int] == first);
    assert(new.dag[index.id as int] == second);
    assert(new.dag[store.id as int] == third);
    assert(second.srcs.skip(1) =~= seq![place.id]);
    if range is Some {
        assert(new.dag[end.id as int] == closing);
        assert(seq![place.id] =~= node.srcs.skip(1));
    } else {
        assert(new.dag[place.id as int] == extent_node(0));
        assert(holds_in_every_step(
            new.dag,
            new.id,
            buffer.id,
            value,
            seq![place.id],
            Seq::empty(),
        ));
    }
}

/// Whether a node is storage of some size, under a slot: a parameter where it is
/// outside of kernels.
pub open spec fn is_storage(
    dag: Seq<NodeView>,
    id: usize,
    space: AddrSpace,
    slot: usize,
    size: usize,
) -> bool {
    let node = dag[id as int];
    if space == AddrSpace::Global {
        &&& node.op == (Op::Param { slot, addrspace: Some(space) })
        &&& node.srcs.len() == 1
        &&& dag[node.srcs[0] as int] == extent_node(size as i64)
    } else {
        node.op == (Op::Buffer { slot, space, size })
    }
}

/// Whether a node is storage in the shape that some loops walk.
pub open spec fn is_walked_by(
    dag: Seq<NodeView>,
    id: usize,
    storage: usize,
    loops: Seq<usize>,
) -> bool {
    let node = dag[id as int];
    let shape = dag[node.srcs[1] as int];
    if loops.len() == 1 {
        id == storage
    } else {
        &&& node.op is Reshape
        &&& node.srcs.len() == 2
        &&& node.srcs[0] == storage
        &&& shape.op is Stack
        &&& shape.srcs.len() == loops.len()
        &&& forall|k: int|
            0 <= k < loops.len() ==> (#[trigger] shape.srcs[k]) == dag[loops[k] as int].srcs[0]
    }
}

proof fn lemma_storage_in(
    dag: Seq<NodeView>,
    dtype: DType,
    space: AddrSpace,
    slot: usize,
    size: usize,
)
    requires
        dag_wf(dag),
        storage_in(dag, dtype, space, slot, size).dag.len() <= usize::MAX,
    ensures
        ({
            let new = storage_in(dag, dtype, space, slot, size);
            &&& dag_wf(new.dag)
            &&& extends(dag, new.dag)
            &&& new.id < new.dag.len()
            &&& new.dag[new.id as int].dtype == dtype
            &&& is_storage(new.dag, new.id, space, slot, size)
        }),
{
    if space == AddrSpace::Global {
        let extent = put(dag, extent_node(size as i64));
        let want = NodeView {
            op: Op::Param { slot, addrspace: Some(space) },
            dtype,
            srcs: seq![extent.id],
        };
        lemma_interned_keeps(extent.dag, want);
        lemma_next(dag, extent_node(size as i64));
        lemma_next(extent.dag, want);
    } else {
        lemma_next(dag, NodeView { op: Op::Buffer { slot, space, size }, dtype, srcs: Seq::empty() });
    }
}

proof fn lemma_shaped_like(dag: Seq<NodeView>, storage: usize, loops: Seq<usize>)
    requires
        dag_wf(dag),
        storage < dag.len(),
        forall|k: int|
            0 <= k < loops.len() ==> (#[trigger] loops[k]) < dag.len()
                && dag[loops[k] as int].op is Range,
        shaped_like(dag, storage, loops).dag.len() <= usize::MAX,
    ensures
        ({
            let new = shaped_like(dag, storage, loops);
            &&& dag_wf(new.dag)
            &&& extends(dag, new.dag)
            &&& new.id < new.dag.len()
            &&& is_walked_by(new.dag, new.id, storage, loops)
        }),
{
    if loops.len() != 1 {
        let list = extents_of(dag, loops);
        let first = NodeView { op: Op::Stack, dtype: DType::WeakInt, srcs: list };
        let shape = put(dag, first);
        let want = NodeView {
            op: Op::Reshape,
            dtype: dag[storage as int].dtype,
            srcs: seq![storage, shape.id],
        };
        lemma_interned_keeps(shape.dag, want);
        assert forall|k: int| 0 <= k < list.len() implies (#[trigger] list[k]) < dag.len() by {
            lemma_arity(dag, loops[k]);
            assert(dag[loops[k] as int].srcs[0] < loops[k]);
        }
        lemma_next(dag, first);
        lemma_next(shape.dag, want);
        let new = put(shape.dag, want);
        assert(new.dag[shape.id as int] == first);
        assert forall|k: int| 0 <= k < loops.len() implies (#[trigger] first.srcs[k])
            == new.dag[loops[k] as int].srcs[0] by {
            assert(new.dag[loops[k] as int] == dag[loops[k] as int]);
        }
    }
}

proof fn lemma_stored_at(dag: Seq<NodeView>, target: usize, value: usize, loops: Seq<usize>)
    requires
        dag_wf(dag),
        target < dag.len(),
        value < dag.len(),
        forall|k: int| 0 <= k < loops.len() ==> (#[trigger] loops[k]) < dag.len(),
        stored_at(dag, target, value, loops).dag.len() <= usize::MAX,
    ensures
        ({
            let new = stored_at(dag, target, value, loops);
            &&& extends(dag, new.dag)
            &&& holds_in_every_step(new.dag, new.id, target, value, loops, loops)
        }),
{
    let dtype = dag[value as int].dtype;
    let second = NodeView { op: Op::Index, dtype, srcs: seq![target] + loops };
    let index = put(dag, second);
    let third = NodeView { op: Op::Store, dtype: DType::Void, srcs: seq![index.id, value] };
    let store = put(index.dag, third);
    let closing = end_node(store.id, loops);
    let end = if loops.len() == 0 {
        store
    } else {
        put(store.dag, closing)
    };
    let last = NodeView { op: Op::After, dtype, srcs: seq![target, end.id] };
    let new = put(end.dag, last);
    lemma_interned_keeps(end.dag, last);
    lemma_interned_keeps(store.dag, closing);
    lemma_interned_keeps(index.dag, third);
    assert forall|k: int| 0 <= k < second.srcs.len() implies (#[trigger] second.srcs[k])
        < dag.len() by {
        if k > 0 {
            assert(second.srcs[k] == loops[k - 1]);
        }
    }
    lemma_next(dag, second);
    lemma_next(index.dag, third);
    if loops.len() > 0 {
        assert forall|k: int| 0 <= k < closing.srcs.len() implies (#[trigger] closing.srcs[k])
            < store.dag.len() by {
            if k > 0 {
                assert(closing.srcs[k] == loops[k - 1]);
            }
        }
        lemma_next(store.dag, closing);
    }
    lemma_next(end.dag, last);
    assert(new.dag[index.id as int] == second);
    assert(new.dag[store.id as int] == third);
    assert(second.srcs.skip(1) =~= loops);
    assert(closing.srcs.skip(1) =~= loops);
    if loops.len() > 0 {
        assert(new.dag[end.id as int] == closing);
    }
    assert(new.dag[value as int] == dag[value as int]);
}

/// A value that is staged over loops is written in each of their steps to storage
/// that they walk, as large as they have steps together, under the slot that is
/// given.
pub proof fn lemma_value_staged_over_loops_is_stored(
    dag: Seq<NodeView>,
    id: usize,
    slot: usize,
    space: AddrSpace,
    sizes: Seq<usize>,
)
    requires
        dag_wf(dag),
        id < dag.len(),
        dag[id as int].op matches Op::Stage { space: own, .. } && own == space,
        sizes.len() == dag[id as int].srcs.len() - 1,
        forall|k: int|
            0 <= k < sizes.len() ==> dag[(#[trigger] dag[id as int].srcs.skip(1)[k]) as int].op is Range
                && most_steps(dag, dag[id as int].srcs.skip(1)[k]) == Some(sizes[k]),
        volume(sizes, sizes.len()) <= i64::MAX,
        volume(sizes, sizes.len()) <= usize::MAX,
        locally_stored(dag, id, slot) matches Some(new) ==> new.dag.len() <= usize::MAX,
    ensures
        locally_stored(dag, id, slot) is Some,
        ({
            let new = locally_stored(dag, id, slot)->0;
            let node = dag[id as int];
            let loops = node.srcs.skip(1);
            let target = new.dag[new.id as int].srcs[0];
            let size = volume(sizes, sizes.len()) as usize;
            &&& holds_in_every_step(new.dag, new.id, target, node.srcs[0], loops, loops)
            &&& exists|storage: usize|
                #[trigger] is_storage(new.dag, storage, space, slot, size) && is_walked_by(
                    new.dag,
                    target,
                    storage,
                    loops,
                )
        }),
{
    let node = dag[id as int];
    lemma_arity(dag, id);
    let value = node.srcs[0];
    let loops = node.srcs.skip(1);
    lemma_loop_sizes(dag, loops, sizes, loops.len());
    assert(sizes.take(sizes.len() as int) =~= sizes);
    lemma_elements(sizes);
    let size = volume(sizes, sizes.len()) as usize;
    let dtype = dag[value as int].dtype;
    let storage = storage_in(dag, dtype, space, slot, size);
    let target = shaped_like(storage.dag, storage.id, loops);
    let new = stored_at(target.dag, target.id, value, loops);
    assert(locally_stored(dag, id, slot) == Some(new));
    assert(dag[id as int].srcs[0] < id);
    assert forall|k: int| 0 <= k < loops.len() implies (#[trigger] loops[k]) < dag.len() by {
        assert(dag[id as int].srcs[k + 1] < id);
    }
    lemma_shaped_grows(storage.dag, storage.id, loops);
    lemma_stored_grows(target.dag, target.id, value, loops);
    lemma_storage_in(dag, dtype, space, slot, size);
    assert forall|k: int| 0 <= k < loops.len() implies (#[trigger] loops[k]) < storage.dag.len()
        && storage.dag[loops[k] as int].op is Range by {
        assert(storage.dag[loops[k] as int] == dag[loops[k] as int]);
    }
    lemma_shaped_like(storage.dag, storage.id, loops);
    lemma_stored_at(target.dag, target.id, value, loops);
    assert(extends(storage.dag, new.dag));
    assert(is_storage(new.dag, storage.id, space, slot, size)) by {
        assert(new.dag[storage.id as int] == storage.dag[storage.id as int]);
        if space == AddrSpace::Global {
            assert(storage.dag[storage.id as int].srcs[0] < storage.id);
        }
    }
    assert(is_walked_by(new.dag, target.id, storage.id, loops)) by {
        let own = target.dag[target.id as int];
        assert(new.dag[target.id as int] == own);
        if loops.len() != 1 {
            assert(target.dag[target.id as int].srcs[1] < target.id);
            assert(new.dag[own.srcs[1] as int] == target.dag[own.srcs[1] as int]);
            assert forall|k: int| 0 <= k < loops.len() implies (
            #[trigger] new.dag[own.srcs[1] as int].srcs[k]) == new.dag[loops[k] as int].srcs[0] by {
                assert(target.dag[own.srcs[1] as int].srcs[k] == target.dag[loops[k] as int].srcs[0]);
                assert(target.dag[loops[k] as int] == storage.dag[loops[k] as int]);
            }
        }
    }
}

proof fn lemma_shaped_grows(dag: Seq<NodeView>, storage: usize, loops: Seq<usize>)
    ensures
        dag.len() <= shaped_like(dag, storage, loops).dag.len(),
{
    let first = NodeView { op: Op::Stack, dtype: DType::WeakInt, srcs: extents_of(dag, loops) };
    let shape = put(dag, first);
    lemma_interned_keeps(dag, first);
    lemma_interned_keeps(
        shape.dag,
        NodeView {
            op: Op::Reshape,
            dtype: dag[storage as int].dtype,
            srcs: seq![storage, shape.id],
        },
    );
}

proof fn lemma_stored_grows(dag: Seq<NodeView>, target: usize, value: usize, loops: Seq<usize>)
    ensures
        dag.len() <= stored_at(dag, target, value, loops).dag.len(),
{
    let dtype = dag[value as int].dtype;
    let second = NodeView { op: Op::Index, dtype, srcs: seq![target] + loops };
    let index = put(dag, second);
    let third = NodeView { op: Op::Store, dtype: DType::Void, srcs: seq![index.id, value] };
    let store = put(index.dag, third);
    let end = if loops.len() == 0 {
        store
    } else {
        put(store.dag, end_node(store.id, loops))
    };
    lemma_interned_keeps(dag, second);
    lemma_interned_keeps(index.dag, third);
    lemma_interned_keeps(store.dag, end_node(store.id, loops));
    lemma_interned_keeps(end.dag, NodeView { op: Op::After, dtype, srcs: seq![target, end.id] });
}

/// Whether a node closes another one over some loops; over none it is the node.
#[verifier::opaque]
pub open spec fn closes(dag: Seq<NodeView>, id: usize, value: usize, loops: Seq<usize>) -> bool {
    if loops.len() == 0 {
        id == value
    } else {
        dag[id as int].op is End && dag[id as int].srcs == seq![value] + loops
    }
}

/// Whether one of some nodes closes a node over some loops.
#[verifier::opaque]
pub open spec fn is_closed_among(
    dag: Seq<NodeView>,
    ends: Seq<usize>,
    value: usize,
    loops: Seq<usize>,
) -> bool {
    exists|i: int| 0 <= i < ends.len() && closes(dag, #[trigger] ends[i], value, loops)
}

/// Whether a node closes one of some stores of something new over some loops.
#[verifier::opaque]
pub open spec fn closes_among(
    dag: Seq<NodeView>,
    more: Seq<NodeView>,
    id: usize,
    deps: Seq<usize>,
    loops: Seq<usize>,
) -> bool {
    exists|k: int|
        0 <= k < deps.len() && is_proper_store(dag, #[trigger] deps[k]) && closes(
            more,
            id,
            deps[k],
            loops,
        )
}

/// Whether some nodes close exactly those of others that store something new.
pub open spec fn close_all(
    dag: Seq<NodeView>,
    more: Seq<NodeView>,
    ends: Seq<usize>,
    deps: Seq<usize>,
    loops: Seq<usize>,
) -> bool {
    &&& forall|i: int|
        0 <= i < ends.len() ==> closes_among(dag, more, #[trigger] ends[i], deps, loops)
    &&& forall|k: int|
        0 <= k < deps.len() && is_proper_store(dag, #[trigger] deps[k]) ==> is_closed_among(
            more,
            ends,
            deps[k],
            loops,
        )
}

proof fn lemma_closes_kept(
    dag: Seq<NodeView>,
    more: Seq<NodeView>,
    id: usize,
    value: usize,
    loops: Seq<usize>,
)
    requires
        extends(dag, more),
        id < dag.len(),
        closes(dag, id, value, loops),
    ensures
        closes(more, id, value, loops),
{
    reveal(closes);
}

proof fn lemma_close_kept(
    dag: Seq<NodeView>,
    before: Seq<NodeView>,
    more: Seq<NodeView>,
    ends: Seq<usize>,
    deps: Seq<usize>,
    loops: Seq<usize>,
)
    requires
        extends(before, more),
        close_all(dag, before, ends, deps, loops),
        forall|i: int| 0 <= i < ends.len() ==> (#[trigger] ends[i]) < before.len(),
    ensures
        close_all(dag, more, ends, deps, loops),
{
    assert forall|i: int| 0 <= i < ends.len() implies closes_among(
        dag,
        more,
        #[trigger] ends[i],
        deps,
        loops,
    ) by {
        assert(closes_among(dag, before, ends[i], deps, loops));
        reveal(closes_among);
        let k = choose|k: int|
            0 <= k < deps.len() && is_proper_store(dag, #[trigger] deps[k]) && closes(
                before,
                ends[i],
                deps[k],
                loops,
            );
        lemma_closes_kept(before, more, ends[i], deps[k], loops);
    }
    assert forall|k: int|
        0 <= k < deps.len() && is_proper_store(dag, #[trigger] deps[k]) implies is_closed_among(
        more,
        ends,
        deps[k],
        loops,
    ) by {
        assert(is_closed_among(before, ends, deps[k], loops));
        reveal(is_closed_among);
        let i = choose|i: int|
            0 <= i < ends.len() && closes(before, #[trigger] ends[i], deps[k], loops);
        lemma_closes_kept(before, more, ends[i], deps[k], loops);
    }
}

/// One more node and what closes it.
proof fn lemma_close_one_more(
    dag: Seq<NodeView>,
    more: Seq<NodeView>,
    ends: Seq<usize>,
    deps: Seq<usize>,
    loops: Seq<usize>,
    end: usize,
    dep: usize,
)
    requires
        close_all(dag, more, ends, deps, loops),
        is_proper_store(dag, dep),
        closes(more, end, dep, loops),
    ensures
        close_all(dag, more, ends.push(end), deps.push(dep), loops),
{
    let (x, y) = (ends.push(end), deps.push(dep));
    assert forall|i: int| 0 <= i < x.len() implies closes_among(
        dag,
        more,
        #[trigger] x[i],
        y,
        loops,
    ) by {
        reveal(closes_among);
        if i < ends.len() {
            assert(closes_among(dag, more, ends[i], deps, loops));
            let k = choose|k: int|
                0 <= k < deps.len() && is_proper_store(dag, #[trigger] deps[k]) && closes(
                    more,
                    ends[i],
                    deps[k],
                    loops,
                );
            assert(y[k] == deps[k]);
        } else {
            assert(y[deps.len() as int] == dep);
        }
    }
    assert forall|k: int|
        0 <= k < y.len() && is_proper_store(dag, #[trigger] y[k]) implies is_closed_among(
        more,
        x,
        y[k],
        loops,
    ) by {
        reveal(is_closed_among);
        if k < deps.len() {
            assert(y[k] == deps[k]);
            assert(is_closed_among(more, ends, deps[k], loops));
            let i = choose|i: int|
                0 <= i < ends.len() && closes(more, #[trigger] ends[i], deps[k], loops);
            assert(x[i] == ends[i]);
        } else {
            assert(x[ends.len() as int] == end);
        }
    }
}

/// One more node that stores nothing new.
proof fn lemma_close_none_more(
    dag: Seq<NodeView>,
    more: Seq<NodeView>,
    ends: Seq<usize>,
    deps: Seq<usize>,
    loops: Seq<usize>,
    dep: usize,
)
    requires
        close_all(dag, more, ends, deps, loops),
        !is_proper_store(dag, dep),
    ensures
        close_all(dag, more, ends, deps.push(dep), loops),
{
    let y = deps.push(dep);
    assert forall|i: int| 0 <= i < ends.len() implies closes_among(
        dag,
        more,
        #[trigger] ends[i],
        y,
        loops,
    ) by {
        reveal(closes_among);
        assert(closes_among(dag, more, ends[i], deps, loops));
        let k = choose|k: int|
            0 <= k < deps.len() && is_proper_store(dag, #[trigger] deps[k]) && closes(
                more,
                ends[i],
                deps[k],
                loops,
            );
        assert(y[k] == deps[k]);
    }
    assert forall|k: int|
        0 <= k < y.len() && is_proper_store(dag, #[trigger] y[k]) implies is_closed_among(
        more,
        ends,
        y[k],
        loops,
    ) by {
        if k < deps.len() {
            assert(y[k] == deps[k]);
        }
    }
}

proof fn lemma_closed_stores(
    dag: Seq<NodeView>,
    deps: Seq<usize>,
    loops: Seq<usize>,
    n: nat,
)
    requires
        dag_wf(dag),
        n <= deps.len(),
        forall|k: int| 0 <= k < deps.len() ==> (#[trigger] deps[k]) < dag.len(),
        forall|k: int| 0 <= k < loops.len() ==> (#[trigger] loops[k]) < dag.len(),
        closed_stores(dag, deps, loops, n).0.len() <= usize::MAX,
    ensures
        ({
            let (all, ends) = closed_stores(dag, deps, loops, n);
            &&& dag_wf(all)
            &&& extends(dag, all)
            &&& dag.len() <= all.len()
            &&& forall|i: int| 0 <= i < ends.len() ==> (#[trigger] ends[i]) < all.len()
            &&& close_all(dag, all, ends, deps.take(n as int), loops)
        }),
    decreases n,
{
    if n > 0 {
        let (before, list) = closed_stores(dag, deps, loops, (n - 1) as nat);
        let (all, ends) = closed_stores(dag, deps, loops, n);
        let dep = deps[n - 1];
        let part = deps.take(n - 1);
        let closing = end_node(dep, loops);
        if is_proper_store(dag, dep) && loops.len() > 0 {
            lemma_interned_keeps(before, closing);
        }
        lemma_closed_stores(dag, deps, loops, (n - 1) as nat);
        assert(deps.take(n as int) =~= part.push(dep));
        if !is_proper_store(dag, dep) {
            lemma_close_none_more(dag, all, list, part, loops, dep);
        } else {
            if loops.len() > 0 {
                assert forall|k: int| 0 <= k < closing.srcs.len() implies (
                #[trigger] closing.srcs[k]) < before.len() by {
                    if k > 0 {
                        assert(closing.srcs[k] == loops[k - 1]);
                    }
                }
                lemma_next(before, closing);
            }
            lemma_close_kept(dag, before, all, list, part, loops);
            assert(closes(all, ends.last(), dep, loops)) by {
                reveal(closes);
            }
            lemma_close_one_more(dag, all, list, part, loops, ends.last(), dep);
            assert(ends =~= list.push(ends.last()));
        }
    } else {
        assert(deps.take(0) =~= Seq::empty());
    }
}

/// A value that waits for stores and is staged outside of kernels keeps its
/// storage: it stands behind exactly those of the stores that store something
/// new, each closed over the loops that the value is staged over.
pub proof fn lemma_waiting_value_keeps_its_storage(dag: Seq<NodeView>, id: usize, slot: usize)
    requires
        dag_wf(dag),
        id < dag.len(),
        dag[id as int].op matches Op::Stage { space: AddrSpace::Global, .. },
        dag[dag[id as int].srcs[0] as int].op is After,
        bufferized(dag, id, slot) matches Some(new) ==> new.dag.len() <= usize::MAX,
    ensures
        bufferized(dag, id, slot) is Some,
        ({
            let new = bufferized(dag, id, slot)->0;
            let after = dag[dag[id as int].srcs[0] as int];
            let deps = after.srcs.skip(1);
            let loops = dag[id as int].srcs.skip(1);
            let own = new.dag[new.id as int];
            if exists|k: int| 0 <= k < deps.len() && is_proper_store(dag, #[trigger] deps[k]) {
                &&& own.op is After
                &&& own.srcs.len() > 0
                &&& own.srcs[0] == after.srcs[0]
                &&& close_all(dag, new.dag, own.srcs.skip(1), deps, loops)
            } else {
                new.id == after.srcs[0]
            }
        }),
{
    let node = dag[id as int];
    lemma_arity(dag, id);
    let at = node.srcs[0];
    assert(dag[id as int].srcs[0] < id);
    lemma_arity(dag, at);
    let after = dag[at as int];
    let loops = node.srcs.skip(1);
    let deps = after.srcs.skip(1);
    let (all, ends) = closed_stores(dag, deps, loops, deps.len());
    let want = NodeView {
        op: Op::After,
        dtype: dag[after.srcs[0] as int].dtype,
        srcs: seq![after.srcs[0]] + ends,
    };
    let new = reused(dag, at, loops);
    assert(bufferized(dag, id, slot) == Some(new));
    lemma_interned_keeps(all, want);
    assert forall|k: int| 0 <= k < deps.len() implies (#[trigger] deps[k]) < dag.len() by {
        assert(dag[at as int].srcs[k + 1] < at);
    }
    assert forall|k: int| 0 <= k < loops.len() implies (#[trigger] loops[k]) < dag.len() by {
        assert(dag[id as int].srcs[k + 1] < id);
    }
    lemma_closed_stores(dag, deps, loops, deps.len());
    assert(deps.take(deps.len() as int) =~= deps);
    assert(dag[at as int].srcs[0] < at);
    if ends.len() > 0 {
        lemma_put(all, want);
        assert(new.dag[new.id as int] == want);
        assert(want.srcs.skip(1) =~= ends);
        lemma_close_kept(dag, all, new.dag, ends, deps, loops);
        assert(closes_among(dag, all, ends[0], deps, loops));
        assert(exists|k: int| 0 <= k < deps.len() && is_proper_store(dag, #[trigger] deps[k])) by {
            reveal(closes_among);
        }
    } else {
        assert forall|k: int| 0 <= k < deps.len() implies !is_proper_store(
            dag,
            #[trigger] deps[k],
        ) by {
            if is_proper_store(dag, deps[k]) {
                assert(is_closed_among(all, ends, deps[k], loops));
                reveal(is_closed_among);
            }
        }
    }
}

} // verus!
