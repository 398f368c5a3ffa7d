//! Values that are computed without 64-bit integers.

use vstd::prelude::*;

use crate::graph::{dag_wf, DType, NodeView};
use crate::passes::extends;
use crate::topo::{lemma_reaches_below, lemma_reaches_extends, reaches};

verus! {

/// The types of 64-bit integers.
pub open spec fn is_long(dtype: DType) -> bool {
    dtype == DType::Int64 || dtype == DType::UInt64
}

/// Whether no node at and below another is a 64-bit integer.
#[verifier::opaque]
pub open spec fn is_short(dag: Seq<NodeView>, id: usize) -> bool {
    forall|x: usize| #[trigger] reaches(dag, id, x) ==> !is_long(dag[x as int].dtype)
}

/// A graph that grows keeps what its values are computed without.
pub(crate) proof fn lemma_short_kept(before: Seq<NodeView>, after: Seq<NodeView>, id: usize)
    requires
        dag_wf(before),
        extends(before, after),
        id < before.len(),
        is_short(before, id),
    ensures
        is_short(after, id),
{
    reveal(is_short);
    assert forall|x: usize| #[trigger] reaches(after, id, x) implies !is_long(
        after[x as int].dtype,
    ) by {
        lemma_reaches_extends(before, after, id, x);
        lemma_reaches_below(before, id, x);
        assert(after[x as int] == before[x as int]);
    }
}

/// Such a value is no 64-bit integer itself.
pub(crate) proof fn lemma_short_type(dag: Seq<NodeView>, id: usize)
    requires
        is_short(dag, id),
    ensures
        !is_long(dag[id as int].dtype),
{
    reveal(is_short);
    assert(reaches(dag, id, id));
}

/// A node over such values is one where it is no 64-bit integer itself.
pub(crate) proof fn lemma_short_node(dag: Seq<NodeView>, id: usize)
    requires
        !is_long(dag[id as int].dtype),
        forall|k: int|
            0 <= k < dag[id as int].srcs.len() ==> is_short(dag, #[trigger] dag[id as int].srcs[k]),
    ensures
        is_short(dag, id),
{
    reveal(is_short);
    assert forall|x: usize| #[trigger] reaches(dag, id, x) implies !is_long(
        dag[x as int].dtype,
    ) by {
        if x != id {
            let k = choose|k: int|
                #![trigger dag[id as int].srcs[k]]
                0 <= k < dag[id as int].srcs.len() && dag[id as int].srcs[k] < id && reaches(
                    dag,
                    dag[id as int].srcs[k],
                    x,
                );
            assert(is_short(dag, dag[id as int].srcs[k]));
        }
    }
}

} // verus!
