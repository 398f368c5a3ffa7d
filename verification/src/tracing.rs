//! Where the elements of a view come from.

use vstd::prelude::*;

use crate::graph::{dag_wf, NodeView, Op};
use crate::lanes::{lane_dims, lemma_lane_dims_extend, lemma_shape_extends, lemma_sizes_extend};
use crate::meaning::lemma_arity;
use crate::movement::{digits, is_inside, is_order, offset, place_in, volume};
use crate::passes::extends;
use crate::shape::{dims, permuted, shape_of, sizes_of};

verus! {

/// The sizes of a value along its axes, through a change of their order.
pub open spec fn shown_dims(dag: Seq<NodeView>, id: usize) -> Option<Seq<usize>> {
    let node = dag[id as int];
    if node.op is Permute && node.srcs.len() > 0 {
        match (
            lane_dims(dag, node.srcs[0]),
            sizes_of(dag, node.srcs.skip(1), (node.srcs.len() - 1) as nat),
        ) {
            (Some(from), Some(axes)) => permuted(from, axes),
            _ => None,
        }
    } else {
        lane_dims(dag, id)
    }
}

/// Where the sizes of a value are known, they are its sizes.
pub(crate) proof fn lemma_shown_dims(dag: Seq<NodeView>, id: usize)
    requires
        dag_wf(dag),
        id < dag.len(),
        lane_dims(dag, id) is Some,
    ensures
        shown_dims(dag, id) == lane_dims(dag, id),
{
    let node = dag[id as int];
    if node.op is Permute {
        lemma_arity(dag, id);
        assert(dag[id as int].srcs[0] < id);
        assert(dims(dag, node.srcs[0]) is Some);
        assert(!(dag[node.srcs[0] as int].op is Stack) && !(dag[node.srcs[0] as int].op is Wmma));
    }
}

/// The index of its first source that a view shows at an index, where it shows
/// one: a reshaped value has its elements in the same order, a window starts
/// where it starts, and a value with its axes in another order has its
/// coordinates in that order.
pub open spec fn shown_index(dag: Seq<NodeView>, node: NodeView, index: Seq<usize>) -> Option<
    Seq<usize>,
> {
    match node.op {
        Op::Reshape => match (shape_of(dag, node.srcs[1]), shown_dims(dag, node.srcs[0])) {
            (Some(to), Some(from)) => if is_inside(to, index) && volume(to, to.len()) == volume(
                from,
                from.len(),
            ) {
                Some(digits(from, offset(to, index, to.len()), from.len()))
            } else {
                None
            },
            _ => None,
        },
        Op::Shrink => match (shape_of(dag, node.srcs[1]), shape_of(dag, node.srcs[2])) {
            (Some(starts), Some(sizes)) => if is_inside(sizes, index) && starts.len()
                == sizes.len() {
                Some(Seq::new(sizes.len(), |k: int| (starts[k] + index[k]) as usize))
            } else {
                None
            },
            _ => None,
        },
        Op::Permute => match sizes_of(dag, node.srcs.skip(1), (node.srcs.len() - 1) as nat) {
            Some(axes) => if is_order(axes) && axes.len() == index.len() {
                Some(Seq::new(axes.len(), |k: int| index[place_in(axes, k)]))
            } else {
                None
            },
            None => None,
        },
        _ => None,
    }
}

/// The index of a value that a view of a view of it shows at an index.
pub open spec fn source_of(dag: Seq<NodeView>, id: usize, index: Seq<usize>, base: usize) -> Option<
    Seq<usize>,
>
    decreases id,
{
    let node = dag[id as int];
    if id == base {
        Some(index)
    } else if node.srcs.len() > 0 && node.srcs[0] < id {
        match shown_index(dag, node, index) {
            Some(inner) => source_of(dag, node.srcs[0], inner, base),
            None => None,
        }
    } else {
        None
    }
}

/// A graph that grows keeps where the elements of its views come from.
pub(crate) proof fn lemma_source_extends(
    dag: Seq<NodeView>,
    more: Seq<NodeView>,
    id: usize,
    index: Seq<usize>,
    base: usize,
)
    requires
        dag_wf(dag),
        extends(dag, more),
        id < dag.len(),
        source_of(dag, id, index, base) is Some,
    ensures
        source_of(more, id, index, base) == source_of(dag, id, index, base),
    decreases id,
{
    let node = dag[id as int];
    assert(more[id as int] == node);
    if id != base {
        lemma_arity(dag, id);
        let inner = shown_index(dag, node, index)->0;
        if node.op is Reshape {
            assert(dag[id as int].srcs[1] < id);
            lemma_shape_extends(dag, more, node.srcs[1]);
            lemma_shown_extends(dag, more, node.srcs[0]);
        } else if node.op is Shrink {
            assert(dag[id as int].srcs[1] < id && dag[id as int].srcs[2] < id);
            lemma_shape_extends(dag, more, node.srcs[1]);
            lemma_shape_extends(dag, more, node.srcs[2]);
        } else {
            lemma_order_extends(dag, more, id);
        }
        assert(shown_index(more, node, index) == Some(inner));
        lemma_source_extends(dag, more, node.srcs[0], inner, base);
    }
}

proof fn lemma_order_extends(dag: Seq<NodeView>, more: Seq<NodeView>, id: usize)
    requires
        dag_wf(dag),
        extends(dag, more),
        id < dag.len(),
        dag[id as int].srcs.len() > 0,
    ensures
        ({
            let rest = dag[id as int].srcs.skip(1);
            sizes_of(more, rest, rest.len()) == sizes_of(dag, rest, rest.len())
        }),
{
    let rest = dag[id as int].srcs.skip(1);
    assert forall|k: int| 0 <= k < rest.len() implies (#[trigger] rest[k]) < dag.len() by {
        assert(dag[id as int].srcs[k + 1] < id);
    }
    lemma_sizes_extend(dag, more, rest, rest.len());
}

proof fn lemma_shown_extends(dag: Seq<NodeView>, more: Seq<NodeView>, id: usize)
    requires
        dag_wf(dag),
        extends(dag, more),
        id < dag.len(),
    ensures
        shown_dims(more, id) == shown_dims(dag, id),
{
    let node = dag[id as int];
    assert(more[id as int] == node);
    if node.op is Permute && node.srcs.len() > 0 {
        assert(dag[id as int].srcs[0] < id);
        lemma_lane_dims_extend(dag, more, node.srcs[0]);
        lemma_order_extends(dag, more, id);
    } else {
        lemma_lane_dims_extend(dag, more, id);
    }
}

} // verus!
