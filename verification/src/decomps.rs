//! The types that a target does not have, and what stands for them there.

use vstd::prelude::*;

use crate::builders::Built;
use crate::graph::{DType, Graph, NodeView};
use crate::longs::{can_split, is_split, split_longs, Part};
use crate::passes::{extends, rewrite, rewritten, Pass};
use crate::topo::{lemma_topo, reaches};

verus! {

/// What a kernel is rendered for.
#[derive(Clone, Copy, Debug, PartialEq, Eq, Structural)]
pub enum Target {
    Cpu,
    /// AMD accelerators of the generations that have the common eight-bit
    /// floats.
    Gfx942,
    Gfx950,
    /// An AMD graphics processor without eight-bit floats.
    Gfx1151,
    WebGpu,
}

/// A type, and the type that stands for it.
#[derive(Clone, Copy, Debug, PartialEq, Eq, Structural)]
pub struct Decomp {
    pub from: DType,
    pub to: DType,
}

/// The types that some target does not have, in the order in which they are
/// replaced.
pub open spec fn candidates() -> Seq<DType> {
    seq![
        DType::Int64,
        DType::FP8E4M3,
        DType::FP8E5M2,
        DType::Float16,
        DType::BFloat16,
        DType::FP8E4M3FNUZ,
        DType::FP8E5M2FNUZ,
    ]
}

/// What stands for a type on a target, if the target does not have the type:
/// none but the browser lacks 64-bit integers and 16-bit floats, and of the
/// eight-bit floats only the common ones are had anywhere.
pub open spec fn stand_in(target: Target, dtype: DType) -> Option<DType> {
    match target {
        Target::WebGpu => match dtype {
            DType::Int64 => Some(DType::Int32),
            DType::FP8E4M3
            | DType::FP8E5M2
            | DType::Float16
            | DType::BFloat16
            | DType::FP8E4M3FNUZ
            | DType::FP8E5M2FNUZ => Some(DType::Float32),
            _ => None,
        },
        Target::Gfx942 | Target::Gfx950 => match dtype {
            DType::FP8E4M3FNUZ | DType::FP8E5M2FNUZ => Some(DType::Float16),
            _ => None,
        },
        Target::Cpu | Target::Gfx1151 => match dtype {
            DType::FP8E4M3 | DType::FP8E5M2 | DType::FP8E4M3FNUZ | DType::FP8E5M2FNUZ => Some(
                DType::Float16,
            ),
            _ => None,
        },
    }
}

/// Whether a node of a type is at or below a root.
pub open spec fn uses_type(dag: Seq<NodeView>, root: usize, dtype: DType) -> bool {
    exists|x: usize| #[trigger] reaches(dag, root, x) && dag[x as int].dtype == dtype
}

/// The stand-ins that a target needs for what is at or below a root, among the
/// first `n` types.
pub open spec fn needed(dag: Seq<NodeView>, root: usize, target: Target, n: nat) -> Seq<Decomp>
    decreases n,
{
    if n == 0 {
        Seq::empty()
    } else {
        let rest = needed(dag, root, target, (n - 1) as nat);
        let from = candidates()[n - 1];
        match stand_in(target, from) {
            Some(to) if uses_type(dag, root, from) => rest.push(Decomp { from, to }),
            _ => rest,
        }
    }
}

fn candidate(n: usize) -> (dtype: DType)
    requires
        n < 7,
    ensures
        dtype == candidates()[n as int],
{
    if n == 0 {
        DType::Int64
    } else if n == 1 {
        DType::FP8E4M3
    } else if n == 2 {
        DType::FP8E5M2
    } else if n == 3 {
        DType::Float16
    } else if n == 4 {
        DType::BFloat16
    } else if n == 5 {
        DType::FP8E4M3FNUZ
    } else {
        DType::FP8E5M2FNUZ
    }
}

fn find_stand_in(target: Target, dtype: DType) -> (to: Option<DType>)
    ensures
        to == stand_in(target, dtype),
{
    match target {
        Target::WebGpu => match dtype {
            DType::Int64 => Some(DType::Int32),
            DType::FP8E4M3
            | DType::FP8E5M2
            | DType::Float16
            | DType::BFloat16
            | DType::FP8E4M3FNUZ
            | DType::FP8E5M2FNUZ => Some(DType::Float32),
            _ => None,
        },
        Target::Gfx942 | Target::Gfx950 => match dtype {
            DType::FP8E4M3FNUZ | DType::FP8E5M2FNUZ => Some(DType::Float16),
            _ => None,
        },
        Target::Cpu | Target::Gfx1151 => match dtype {
            DType::FP8E4M3 | DType::FP8E5M2 | DType::FP8E4M3FNUZ | DType::FP8E5M2FNUZ => Some(
                DType::Float16,
            ),
            _ => None,
        },
    }
}

fn occurs(graph: &Graph, root: usize, walk: &Vec<usize>, dtype: DType) -> (r: bool)
    requires
        graph.wf(),
        root < graph@.len(),
        forall|x: usize| walk@.contains(x) <==> #[trigger] reaches(graph@, root, x),
        forall|k: int| 0 <= k < walk@.len() ==> (#[trigger] walk@[k]) < graph@.len(),
    ensures
        r == uses_type(graph@, root, dtype),
{
    let mut k: usize = 0;
    while k < walk.len()
        invariant
            k <= walk@.len(),
            forall|j: int| 0 <= j < walk@.len() ==> (#[trigger] walk@[j]) < graph@.len(),
            forall|x: usize| walk@.contains(x) <==> #[trigger] reaches(graph@, root, x),
            forall|j: int| 0 <= j < k ==> graph@[#[trigger] walk@[j] as int].dtype != dtype,
        decreases walk@.len() - k,
    {
        let x: usize = walk[k];
        assert(walk@[k as int] < graph@.len());
        if graph.dtype(x) == dtype {
            assert(walk@.contains(x));
            assert(reaches(graph@, root, x));
            return true;
        }
        k += 1;
    }
    assert forall|x: usize| #[trigger] reaches(graph@, root, x) implies graph@[x as int].dtype
        != dtype by {
        assert(walk@.contains(x));
        let j = choose|j: int| 0 <= j < walk@.len() && walk@[j] == x;
        assert(graph@[walk@[j] as int].dtype != dtype);
    }
    false
}

/// The stand-ins that a target needs for what is at or below a root; see
/// `needed`.
pub fn get_dtype_decomps(graph: &Graph, root: usize, target: Target) -> (list: Vec<Decomp>)
    requires
        graph.wf(),
        root < graph@.len(),
    ensures
        list@ == needed(graph@, root, target, 7),
{
    let walk = graph.toposort(root);
    proof {
        lemma_topo(graph@, root);
    }
    let mut list: Vec<Decomp> = Vec::new();
    let mut n: usize = 0;
    while n < 7
        invariant
            graph.wf(),
            root < graph@.len(),
            forall|x: usize| walk@.contains(x) <==> #[trigger] reaches(graph@, root, x),
            forall|k: int| 0 <= k < walk@.len() ==> (#[trigger] walk@[k]) < graph@.len(),
            n <= 7,
            list@ == needed(graph@, root, target, n as nat),
        decreases 7 - n,
    {
        let from = candidate(n);
        match find_stand_in(target, from) {
            Some(to) => {
                if occurs(graph, root, &walk, from) {
                    list.push(Decomp { from, to });
                }
            },
            None => {},
        }
        n += 1;
    }
    list
}

/// Memory accesses taken apart, and floats of one type held in words and
/// computed with in another.
pub open spec fn decomposed(dag: Seq<NodeView>, root: usize, from: DType, to: DType) -> Built {
    let apart = rewritten(Pass::Devectorize, dag, root);
    rewritten(Pass::Storage { from, to }, apart.dag, apart.id)
}

/// Whether a root has become another with a type put aside: memory accesses are
/// taken apart, and then long integers are split into words where they can be,
/// and floats are held in words.
#[verifier::opaque]
pub open spec fn decomposes(
    dag: Seq<NodeView>,
    root: usize,
    from: DType,
    to: DType,
    new: Built,
) -> bool {
    let apart = rewritten(Pass::Devectorize, dag, root);
    if from != DType::Int64 {
        new == decomposed(dag, root, from, to)
    } else if can_split(apart.dag, apart.id) {
        exists|parts: Seq<Part>| #[trigger]
            is_split(apart.dag, apart.id, new.dag, parts, new.id)
    } else {
        new == apart
    }
}

/// Takes memory accesses apart, and puts a type aside: floats of the type are
/// held in words and computed with in another, and long integers are split.
pub fn decompose(graph: &mut Graph, root: usize, from: DType, to: DType) -> (new: usize)
    requires
        old(graph).wf(),
        root < old(graph)@.len(),
    ensures
        final(graph).wf(),
        new < final(graph)@.len(),
        extends(old(graph)@, final(graph)@),
        decomposes(old(graph)@, root, from, to, (Built { dag: final(graph)@, id: new })),
{
    let ghost dag = graph@;
    let apart: usize = rewrite(graph, Pass::Devectorize, root);
    let ghost mid = graph@;
    proof {
        reveal(decomposes);
    }
    match from {
        DType::Int64 => match split_longs(graph, apart) {
            Some(new) => {
                proof {
                    let parts = choose|parts: Seq<Part>| #[trigger]
                        is_split(mid, apart, graph@, parts, new);
                    let first = rewritten(Pass::Devectorize, dag, root);
                    assert(first.dag == mid && first.id == apart);
                    let last = Built { dag: graph@, id: new };
                    assert(is_split(first.dag, first.id, last.dag, parts, last.id));
                    assert(decomposes(dag, root, from, to, last));
                }
                new
            },
            None => {
                proof {
                    let last = Built { dag: graph@, id: apart };
                    let first = rewritten(Pass::Devectorize, dag, root);
                    assert(first.dag == last.dag && first.id == last.id);
                    assert(decomposes(dag, root, from, to, last));
                }
                apart
            },
        },
        _ => {
            let new: usize = rewrite(graph, Pass::Storage { from, to }, apart);
            assert(decomposed(dag, root, from, to) == (Built { dag: graph@, id: new }));
            new
        },
    }
}

/// Whether a root has become another with the first `n` of a list of types put
/// aside, one after the other.
pub open spec fn all_decompose(
    dag: Seq<NodeView>,
    root: usize,
    list: Seq<Decomp>,
    n: nat,
    new: Built,
) -> bool
    decreases n,
{
    if n == 0 {
        new == (Built { dag, id: root })
    } else {
        exists|mid: Built|
            all_decompose(dag, root, list, (n - 1) as nat, mid) && #[trigger] decomposes(
                mid.dag,
                mid.id,
                list[n - 1].from,
                list[n - 1].to,
                new,
            )
    }
}

/// Commits values whose type is open, and then puts the types aside that a
/// target does not have.
pub fn apply_dtype_decomps(graph: &mut Graph, root: usize, target: Target) -> (new: usize)
    requires
        old(graph).wf(),
        root < old(graph)@.len(),
    ensures
        final(graph).wf(),
        new < final(graph)@.len(),
        extends(old(graph)@, final(graph)@),
        ({
            let fixed = rewritten(Pass::Commit, old(graph)@, root);
            let list = needed(fixed.dag, fixed.id, target, 7);
            all_decompose(
                fixed.dag,
                fixed.id,
                list,
                list.len(),
                (Built { dag: final(graph)@, id: new }),
            )
        }),
{
    let ghost dag = graph@;
    let fixed: usize = rewrite(graph, Pass::Commit, root);
    let ghost start = graph@;
    let list = get_dtype_decomps(graph, fixed, target);
    let mut now: usize = fixed;
    let mut n: usize = 0;
    while n < list.len()
        invariant
            graph.wf(),
            now < graph@.len(),
            extends(dag, graph@),
            n <= list@.len(),
            all_decompose(start, fixed, list@, n as nat, (Built { dag: graph@, id: now })),
        decreases list@.len() - n,
    {
        let decomp = list[n];
        let ghost mid = Built { dag: graph@, id: now };
        now = decompose(graph, now, decomp.from, decomp.to);
        proof {
            let last = Built { dag: graph@, id: now };
            let more = (n + 1) as nat;
            assert(all_decompose(start, fixed, list@, (more - 1) as nat, mid));
            assert(decomposes(mid.dag, mid.id, list@[more - 1].from, list@[more - 1].to, last));
            assert(all_decompose(start, fixed, list@, more, last));
        }
        n += 1;
    }
    now
}

/// What stands for a type needs no stand-in itself.
pub proof fn lemma_stand_in_is_had(target: Target, dtype: DType)
    ensures
        stand_in(target, dtype) matches Some(to) ==> stand_in(target, to) is None,
{
}

/// A type is replaced exactly where it occurs and the target does not have it.
pub proof fn lemma_needed(dag: Seq<NodeView>, root: usize, target: Target, from: DType, to: DType)
    ensures
        needed(dag, root, target, 7).contains(Decomp { from, to }) <==> stand_in(target, from)
            == Some(to) && uses_type(dag, root, from),
{
    lemma_needed_among(dag, root, target, from, to, 7);
    assert(candidates()[0] == DType::Int64);
    assert(candidates()[1] == DType::FP8E4M3);
    assert(candidates()[2] == DType::FP8E5M2);
    assert(candidates()[3] == DType::Float16);
    assert(candidates()[4] == DType::BFloat16);
    assert(candidates()[5] == DType::FP8E4M3FNUZ);
    assert(candidates()[6] == DType::FP8E5M2FNUZ);
}

proof fn lemma_needed_among(
    dag: Seq<NodeView>,
    root: usize,
    target: Target,
    from: DType,
    to: DType,
    n: nat,
)
    requires
        n <= 7,
    ensures
        needed(dag, root, target, n).contains(Decomp { from, to }) <==> stand_in(target, from)
            == Some(to) && uses_type(dag, root, from) && exists|k: int|
            0 <= k < n && #[trigger] candidates()[k] == from,
    decreases n,
{
    let one = Decomp { from, to };
    if n > 0 {
        lemma_needed_among(dag, root, target, from, to, (n - 1) as nat);
        let rest = needed(dag, root, target, (n - 1) as nat);
        let last = candidates()[n - 1];
        match stand_in(target, last) {
            Some(other) if uses_type(dag, root, last) => {
                let new = Decomp { from: last, to: other };
                assert(rest.push(new).contains(one) <==> rest.contains(one) || one == new) by {
                    if rest.contains(one) {
                        let i = rest.index_of(one);
                        assert(rest.push(new)[i] == one);
                    }
                    if one == new {
                        assert(rest.push(new)[rest.len() as int] == one);
                    }
                }
            },
            _ => {},
        }
    }
}

} // verus!
