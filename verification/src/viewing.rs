//! What waits, copies and broadcasts of views read.

use vstd::prelude::*;

use crate::builders::{lemma_interned_keeps, put};
use crate::graph::{dag_wf, NodeView, Op};
use crate::meaning::lemma_arity;
use crate::movement::{is_inside, source_index, Movement};
use crate::passes::{lemma_put, with_srcs};
use crate::views::{
    broadcast_to, copied_in_order, is_movement, is_reordered, is_resized, pushed_through,
};

verus! {

/// A wait for a view or an address is the view or the address, unchanged but for
/// what it is made of, and that waits for the same things.
pub proof fn lemma_pushed_wait_still_waits(dag: Seq<NodeView>, id: usize)
    requires
        dag_wf(dag),
        id < dag.len(),
        pushed_through(dag, id) matches Some(new) ==> new.dag.len() <= usize::MAX,
    ensures
        pushed_through(dag, id) is Some <==> dag[id as int].op is After && (is_movement(
            dag[dag[id as int].srcs[0] as int].op,
        ) || dag[dag[id as int].srcs[0] as int].op is Index),
        pushed_through(dag, id) matches Some(new) ==> {
            let view = dag[dag[id as int].srcs[0] as int];
            let own = new.dag[new.id as int];
            let inner = new.dag[own.srcs[0] as int];
            &&& own.op == view.op
            &&& own.dtype == view.dtype
            &&& own.srcs.len() == view.srcs.len()
            &&& forall|k: int| 1 <= k < view.srcs.len() ==> #[trigger] own.srcs[k] == view.srcs[k]
            &&& inner.op is After
            &&& inner.dtype == dag[view.srcs[0] as int].dtype
            &&& inner.srcs.len() == dag[id as int].srcs.len()
            &&& inner.srcs[0] == view.srcs[0]
            &&& forall|k: int|
                1 <= k < inner.srcs.len() ==> #[trigger] inner.srcs[k] == dag[id as int].srcs[k]
        },
{
    let node = dag[id as int];
    if pushed_through(dag, id) is Some {
        let new = pushed_through(dag, id)->0;
        lemma_arity(dag, id);
        assert(dag[id as int].srcs[0] < id);
        let at = node.srcs[0];
        let view = dag[at as int];
        lemma_arity(dag, at);
        assert(dag[at as int].srcs[0] < at);
        let want = NodeView {
            op: Op::After,
            dtype: dag[view.srcs[0] as int].dtype,
            srcs: node.srcs.update(0, view.srcs[0]),
        };
        let inner = put(dag, want);
        let last = with_srcs(view, view.srcs.update(0, inner.id));
        lemma_interned_keeps(inner.dag, last);
        lemma_put(dag, want);
        lemma_put(inner.dag, last);
        assert(new.dag[new.id as int] == last);
        assert(new.dag[inner.id as int] == want);
    }
}

/// A view is copied as it is where its elements have the order and the number of
/// those that it is a view of; any other view is stored first, and what is
/// copied then is what was stored.
pub proof fn lemma_view_is_stored_before_it_is_copied(dag: Seq<NodeView>, id: usize)
    requires
        dag_wf(dag),
        id < dag.len(),
        copied_in_order(dag, id) matches Some(new) ==> new.dag.len() <= usize::MAX,
    ensures
        copied_in_order(dag, id) is Some <==> dag[id as int].op is Copy && is_movement(
            dag[dag[id as int].srcs[0] as int].op,
        ) && (is_reordered(dag, dag[id as int].srcs[0]) || is_resized(dag, dag[id as int].srcs[0])),
        copied_in_order(dag, id) matches Some(new) ==> {
            let view = dag[id as int].srcs[0];
            let own = new.dag[new.id as int];
            let stored = new.dag[own.srcs[0] as int];
            &&& own.op == dag[id as int].op
            &&& own.dtype == dag[id as int].dtype
            &&& own.srcs.len() == 1
            &&& stored.op is Contiguous
            &&& stored.dtype == dag[view as int].dtype
            &&& stored.srcs == seq![view]
        },
{
    if copied_in_order(dag, id) is Some {
        let node = dag[id as int];
        let new = copied_in_order(dag, id)->0;
        lemma_arity(dag, id);
        assert(dag[id as int].srcs[0] < id);
        let want = NodeView {
            op: Op::Contiguous,
            dtype: dag[node.srcs[0] as int].dtype,
            srcs: seq![node.srcs[0]],
        };
        let stored = put(dag, want);
        let last = NodeView { srcs: seq![stored.id], ..node };
        lemma_interned_keeps(stored.dag, last);
        lemma_put(dag, want);
        lemma_put(stored.dag, last);
        assert(new.dag[new.id as int] == last);
        assert(new.dag[stored.id as int] == want);
    }
}

/// The ranges that walk an operand read of it, for each place of what it is
/// broadcast to, the element that the place shows.
pub proof fn lemma_broadcast_ranges_read_what_is_shown(
    consumer: Vec<usize>,
    source: Seq<usize>,
    ranges: Seq<usize>,
    zero: usize,
    index: Seq<usize>,
    value: spec_fn(usize) -> usize,
)
    requires
        source.len() == consumer@.len(),
        source.len() > 0,
        ranges.len() == consumer@.len(),
        forall|k: int|
            0 <= k < source.len() ==> (#[trigger] source[k]) == 1 || source[k] == consumer@[k],
        is_inside(consumer@, index),
        value(zero) == 0,
        forall|k: int| 0 <= k < ranges.len() ==> value(#[trigger] ranges[k]) == index[k],
    ensures
        ({
            let mapped = broadcast_to(consumer@, source, ranges, zero);
            &&& mapped.len() == source.len()
            &&& Some(Seq::new(mapped.len(), |k: int| value(mapped[k]))) == source_index(
                Movement::Expand(consumer),
                source,
                index,
            )
            &&& is_inside(source, Seq::new(mapped.len(), |k: int| value(mapped[k])))
        }),
{
    let mapped = broadcast_to(consumer@, source, ranges, zero);
    let read = Seq::new(mapped.len(), |k: int| value(mapped[k]));
    let shown = source_index(Movement::Expand(consumer), source, index)->0;
    assert forall|k: int| 0 <= k < source.len() implies read[k] == shown[k] && (#[trigger] read[k])
        < source[k] by {
        assert(index[k] < consumer@[k]);
        assert(value(ranges[k]) == index[k]);
        assert(source[k] == 1 || source[k] == consumer@[k]);
    }
    assert(read =~= shown);
}

} // verus!
