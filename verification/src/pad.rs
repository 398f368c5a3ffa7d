//! Loops that take more steps than there is to do: the added steps read and
//! write nothing.

use vstd::prelude::*;

use crate::builders::{const_node, lemma_interned_keeps, put, Built};
use crate::dce::{put_where, where_node};
use crate::fold::word;
use crate::graph::{dag_wf, BinaryOp, ConstValue, DType, Graph, NodeView, Op};
use crate::indexing::{condition_of, get_condition, get_idx, idx_of, is_gated};
use crate::late::{pair_node, put_int, put_pair};
use crate::meaning::{lemma_arity, lemma_meaning, lemma_meaning_extends, lemma_put_meaning, meaning};
use crate::narrow::{constant_extent, find_constant_extent};
use crate::passes::{extends, grown, sources, with_srcs, Walked};
use crate::subst::{
    find_visible, is_opaque, lemma_visible_source, moved_outside, opaque_op, visible,
};
use crate::topo::{lemma_reaches_below, lemma_topo, ordered, reach_row_ok, reaches, topo};

verus! {

/// An index that is valid only where a condition holds too.
pub open spec fn guarded(dag: Seq<NodeView>, index: usize, valid: usize) -> Built {
    let plain = idx_of(dag, index);
    let condition = match condition_of(dag, index) {
        Some(other) => put(dag, pair_node(BinaryOp::And, DType::Bool, valid, other)),
        None => Built { dag, id: valid },
    };
    let invalid = put(condition.dag, const_node(ConstValue::Invalid, DType::WeakInt));
    put(
        invalid.dag,
        where_node(dag[plain as int].dtype, condition.id, plain, invalid.id),
    )
}

/// A graph and some nodes of it.
pub struct Listed {
    pub dag: Seq<NodeView>,
    pub srcs: Seq<usize>,
}

/// The first `n` sources of an access, what stands for them in `moved`: each
/// index that depends on the loop is guarded.
pub open spec fn guarded_sources(
    dag: Seq<NodeView>,
    now: Seq<NodeView>,
    range: usize,
    valid: usize,
    srcs: Seq<usize>,
    moved: Seq<usize>,
    n: nat,
) -> Listed
    decreases n,
{
    if n == 0 {
        Listed { dag: now, srcs: Seq::empty() }
    } else {
        let rest = guarded_sources(dag, now, range, valid, srcs, moved, (n - 1) as nat);
        if n > 1 && reaches(dag, srcs[n - 1], range) {
            let built = guarded(rest.dag, moved[n - 1], valid);
            Listed { dag: built.dag, srcs: rest.srcs.push(built.id) }
        } else {
            Listed { dag: rest.dag, srcs: rest.srcs.push(moved[n - 1]) }
        }
    }
}

/// The first `n` nodes of a walk, over a loop that stands for another one, with
/// the indices guarded.
pub open spec fn pad_walk(
    dag: Seq<NodeView>,
    start: Seq<NodeView>,
    root: usize,
    range: usize,
    wide: usize,
    valid: usize,
    walk: Seq<usize>,
    n: nat,
) -> Walked
    decreases n,
{
    if n == 0 {
        Walked { dag: start, stands: Map::empty() }
    } else {
        let rest = pad_walk(dag, start, root, range, wide, valid, walk, (n - 1) as nat);
        let u = walk[n - 1];
        let node = dag[u as int];
        let moved = moved_outside(node, rest.stands);
        if !visible(dag, root, u) {
            rest
        } else if u == range {
            Walked { dag: rest.dag, stands: rest.stands.insert(u, wide) }
        } else if node.op is Index {
            let list = guarded_sources(
                dag,
                rest.dag,
                range,
                valid,
                node.srcs,
                moved,
                node.srcs.len(),
            );
            let copy = put(list.dag, with_srcs(node, list.srcs));
            Walked { dag: copy.dag, stands: rest.stands.insert(u, copy.id) }
        } else {
            let copy = put(rest.dag, with_srcs(node, moved));
            Walked { dag: copy.dag, stands: rest.stands.insert(u, copy.id) }
        }
    }
}

/// A longer loop in the place of a loop, and whether it stands below the extent
/// that the loop had.
pub open spec fn widened(dag: Seq<NodeView>, range: usize, old: i64, size: i64) -> (Built, usize) {
    let node = dag[range as int];
    let weak = dag[node.srcs[0] as int].dtype;
    let extent = put(dag, const_node(ConstValue::Int(size), weak));
    let wide = put(extent.dag, with_srcs(node, node.srcs.update(0, extent.id)));
    let end = put(wide.dag, const_node(ConstValue::Int(old), weak));
    let valid = put(end.dag, pair_node(BinaryOp::Lt, DType::Bool, wide.id, end.id));
    (valid, wide.id)
}

/// Everything at and below a root with a loop of a constant extent made longer.
/// A loop does not get shorter.
pub open spec fn padded(dag: Seq<NodeView>, root: usize, range: usize, size: i64) -> Option<Built> {
    match constant_extent(dag, range) {
        Some(old) if old <= size => {
            let (valid, wide) = widened(dag, range, old, size);
            let walk = topo(dag, root);
            let done = pad_walk(dag, valid.dag, root, range, wide, valid.id, walk, walk.len());
            Some(Built { dag: done.dag, id: done.stands[root] })
        },
        _ => None,
    }
}

pub(crate) fn put_guarded(graph: &mut Graph, index: usize, valid: usize) -> (id: usize)
    requires
        old(graph).wf(),
        index < old(graph)@.len(),
        valid < old(graph)@.len(),
    ensures
        grown(old(graph)@, *final(graph), guarded(old(graph)@, index, valid), id),
{
    let plain: usize = get_idx(graph, index);
    let dtype = graph.dtype(plain);
    let condition: usize = match get_condition(graph, index) {
        Some(other) => put_pair(graph, BinaryOp::And, DType::Bool, valid, other),
        None => valid,
    };
    let invalid: usize = graph.constant(ConstValue::Invalid, DType::WeakInt);
    put_where(graph, dtype, condition, plain, invalid)
}

/// Whether a table holds what stands for the nodes of a walk so far.
spec fn stands_ok(
    dag: Seq<NodeView>,
    now: Seq<NodeView>,
    root: usize,
    walk: Seq<usize>,
    n: nat,
    map: Map<usize, usize>,
    stands: Seq<usize>,
) -> bool {
    &&& stands.len() == root + 1
    &&& forall|p: int|
        0 <= p < n && visible(dag, root, #[trigger] walk[p]) ==> stands[walk[p] as int]
            == map[walk[p]] && stands[walk[p] as int] < now.len()
}

fn moved_sources(
    graph: &Graph,
    u: usize,
    stands: &Vec<usize>,
    Ghost(dag): Ghost<Seq<NodeView>>,
    Ghost(root): Ghost<usize>,
    Ghost(walk): Ghost<Seq<usize>>,
    Ghost(n): Ghost<nat>,
    Ghost(map): Ghost<Map<usize, usize>>,
) -> (list: Vec<usize>)
    requires
        graph.wf(),
        dag_wf(dag),
        extends(dag, graph@),
        ordered(dag, walk),
        n < walk.len(),
        u == walk[n as int],
        u <= root < dag.len(),
        visible(dag, root, u),
        stands_ok(dag, graph@, root, walk, n, map, stands@),
    ensures
        list@ == moved_outside(dag[u as int], map),
        forall|j: int| 0 <= j < list@.len() ==> (#[trigger] list@[j]) < graph@.len(),
{
    let ghost node = dag[u as int];
    proof {
        lemma_arity(dag, u);
        assert(graph@[u as int] == node);
    }
    let count: usize = graph.source_count(u);
    let hidden: bool = opaque_op(graph.op(u));
    let mut list: Vec<usize> = Vec::new();
    let mut k: usize = 0;
    while k < count
        invariant
            graph.wf(),
            dag_wf(dag),
            extends(dag, graph@),
            ordered(dag, walk),
            n < walk.len(),
            u == walk[n as int],
            u <= root < dag.len(),
            visible(dag, root, u),
            stands_ok(dag, graph@, root, walk, n, map, stands@),
            node == dag[u as int],
            graph@[u as int] == node,
            hidden == is_opaque(node.op),
            count == node.srcs.len(),
            k <= count,
            list@ == moved_outside(node, map).take(k as int),
            forall|j: int| 0 <= j < list@.len() ==> (#[trigger] list@[j]) < graph@.len(),
        decreases count - k,
    {
        let src: usize = graph.source(u, k);
        if hidden && k == 0 {
            list.push(src);
        } else {
            proof {
                lemma_visible_source(dag, root, u, k as int);
                assert(dag[walk[n as int] as int].srcs[k as int] == src);
                let q = choose|q: int| 0 <= q < n && #[trigger] walk[q] == src;
                assert(walk[q] == src);
            }
            list.push(stands[src]);
        }
        k += 1;
        assert(list@ =~= moved_outside(node, map).take(k as int));
    }
    assert(list@ =~= moved_outside(node, map));
    list
}

fn put_guarded_sources(
    graph: &mut Graph,
    u: usize,
    range: usize,
    valid: usize,
    moved: &Vec<usize>,
    rows: &Vec<Vec<bool>>,
    Ghost(dag): Ghost<Seq<NodeView>>,
) -> (list: Vec<usize>)
    requires
        old(graph).wf(),
        dag_wf(dag),
        extends(dag, old(graph)@),
        u < dag.len(),
        range < dag.len(),
        valid < old(graph)@.len(),
        moved@.len() == dag[u as int].srcs.len(),
        forall|j: int| 0 <= j < moved@.len() ==> (#[trigger] moved@[j]) < old(graph)@.len(),
        rows@.len() == dag.len(),
        forall|i: usize| i < dag.len() ==> reach_row_ok(dag, i, #[trigger] rows@[i as int]@),
    ensures
        final(graph).wf(),
        extends(old(graph)@, final(graph)@),
        ({
            let srcs = dag[u as int].srcs;
            let done = guarded_sources(
                dag,
                old(graph)@,
                range,
                valid,
                srcs,
                moved@,
                srcs.len(),
            );
            final(graph)@ == done.dag && list@ == done.srcs
        }),
        list@.len() == moved@.len(),
        forall|j: int| 0 <= j < list@.len() ==> (#[trigger] list@[j]) < final(graph)@.len(),
{
    let ghost now = graph@;
    let ghost srcs = dag[u as int].srcs;
    let mut list: Vec<usize> = Vec::new();
    let mut k: usize = 0;
    while k < moved.len()
        invariant
            graph.wf(),
            dag_wf(dag),
            extends(dag, now),
            extends(now, graph@),
            u < dag.len(),
            range < dag.len(),
            valid < now.len(),
            srcs == dag[u as int].srcs,
            moved@.len() == srcs.len(),
            forall|j: int| 0 <= j < moved@.len() ==> (#[trigger] moved@[j]) < now.len(),
            rows@.len() == dag.len(),
            forall|i: usize| i < dag.len() ==> reach_row_ok(dag, i, #[trigger] rows@[i as int]@),
            k <= moved@.len(),
            guarded_sources(dag, now, range, valid, srcs, moved@, k as nat) == (Listed {
                dag: graph@,
                srcs: list@,
            }),
            list@.len() == k,
            forall|j: int| 0 <= j < list@.len() ==> (#[trigger] list@[j]) < graph@.len(),
        decreases moved@.len() - k,
    {
        assert(now[u as int] == dag[u as int]);
        assert(graph@[u as int] == now[u as int]);
        assert(moved@[k as int] < now.len());
        let src: usize = graph.source(u, k);
        proof {
            assert(dag[u as int].srcs[k as int] < u);
            assert(reach_row_ok(dag, src, rows@[src as int]@));
        }
        let ghost before = graph@;
        let ghost held = list@;
        if k > 0 && rows[src][range] {
            let id: usize = put_guarded(graph, moved[k], valid);
            list.push(id);
        } else {
            list.push(moved[k]);
        }
        proof {
            assert forall|j: int| 0 <= j < list@.len() implies (#[trigger] list@[j]) < graph@.len() by {
                if j < held.len() {
                    assert(list@[j] == held[j]);
                }
            }
            assert forall|i: int| 0 <= i < now.len() implies #[trigger] graph@[i] == now[i] by {
                assert(before[i] == now[i]);
            }
        }
        k += 1;
    }
    list
}

/// Makes a loop longer in everything at and below a root. Where an index
/// depends on the loop, the added steps are invalid.
pub fn pad_range(graph: &mut Graph, root: usize, range: usize, size: i64) -> (new: Option<usize>)
    requires
        old(graph).wf(),
        root < old(graph)@.len(),
        range < old(graph)@.len(),
    ensures
        match new {
            Some(id) => padded(old(graph)@, root, range, size) matches Some(built) && grown(
                old(graph)@,
                *final(graph),
                built,
                id,
            ),
            None => {
                &&& padded(old(graph)@, root, range, size) is None
                &&& final(graph).wf()
                &&& final(graph)@ == old(graph)@
            },
        },
{
    let ghost dag = graph@;
    let length: i64 = match find_constant_extent(graph, range) {
        Some(length) => if length <= size {
            length
        } else {
            return None;
        },
        None => {
            return None;
        },
    };
    proof {
        lemma_arity(dag, range);
    }
    let walk = graph.toposort(root);
    let seen = find_visible(graph, root);
    let rows = graph.reach();
    let end: usize = graph.source(range, 0);
    let weak = graph.dtype(end);
    let op = graph.op(range);
    let dtype = graph.dtype(range);
    let mut loop_sources = sources(graph, range);
    let ghost all = loop_sources@;
    let extent: usize = put_int(graph, size, weak);
    let ghost first = graph@;
    loop_sources.set(0, extent);
    proof {
        assert(loop_sources@ =~= all.update(0, extent));
        assert forall|k: int| 0 <= k < loop_sources@.len() implies (#[trigger] loop_sources@[k])
            < first.len() by {
            if k > 0 {
                assert(all[k] < range);
            }
        }
    }
    let wide: usize = graph.node(op, dtype, loop_sources.as_slice());
    let ghost second = graph@;
    let old_end: usize = put_int(graph, length, weak);
    let valid: usize = put_pair(graph, BinaryOp::Lt, DType::Bool, wide, old_end);
    let ghost start = graph@;
    proof {
        lemma_topo(dag, root);
        assert forall|i: int| 0 <= i < dag.len() implies #[trigger] start[i] == dag[i] by {
            assert(first[i] == dag[i]);
            assert(second[i] == first[i]);
        }
    }
    let mut stands: Vec<usize> = Vec::new();
    let mut id: usize = 0;
    while id < root
        invariant
            id <= root,
            stands@.len() == id,
        decreases root - id,
    {
        stands.push(0);
        id += 1;
    }
    stands.push(0);
    let mut n: usize = 0;
    while n < walk.len()
        invariant
            graph.wf(),
            dag_wf(dag),
            extends(dag, start),
            extends(start, graph@),
            root < dag.len(),
            range < dag.len(),
            wide < start.len(),
            valid < start.len(),
            walk@ == topo(dag, root),
            ordered(dag, walk@),
            forall|x: usize| #[trigger] walk@.contains(x) <==> reaches(dag, root, x),
            seen@.len() == root + 1,
            forall|x: usize| x <= root ==> #[trigger] seen@[x as int] == visible(dag, root, x),
            rows@.len() == dag.len(),
            forall|i: usize| i < dag.len() ==> reach_row_ok(dag, i, #[trigger] rows@[i as int]@),
            n <= walk@.len(),
            graph@ == pad_walk(dag, start, root, range, wide, valid, walk@, n as nat).dag,
            stands_ok(
                dag,
                graph@,
                root,
                walk@,
                n as nat,
                pad_walk(dag, start, root, range, wide, valid, walk@, n as nat).stands,
                stands@,
            ),
        decreases walk@.len() - n,
    {
        let u: usize = walk[n];
        let ghost node = dag[u as int];
        let ghost rest = pad_walk(dag, start, root, range, wide, valid, walk@, n as nat);
        let ghost held = graph@;
        let ghost before = stands@;
        proof {
            assert(walk@.contains(u));
            lemma_reaches_below(dag, root, u);
            lemma_arity(dag, u);
            assert(start[u as int] == node);
            assert(graph@[u as int] == start[u as int]);
            assert(extends(dag, graph@)) by {
                assert forall|i: int| 0 <= i < dag.len() implies #[trigger] graph@[i] == dag[i] by {
                    assert(start[i] == dag[i]);
                }
            }
        }
        let shown: bool = seen[u];
        assert(shown == visible(dag, root, u));
        if shown {
            let new: usize = if u == range {
                wide
            } else {
                let moved = moved_sources(
                    graph,
                    u,
                    &stands,
                    Ghost(dag),
                    Ghost(root),
                    Ghost(walk@),
                    Ghost(n as nat),
                    Ghost(rest.stands),
                );
                let kind = graph.op(u);
                let typed = graph.dtype(u);
                match kind {
                    Op::Index => {
                        let list = put_guarded_sources(
                            graph,
                            u,
                            range,
                            valid,
                            &moved,
                            &rows,
                            Ghost(dag),
                        );
                        let ghost mid = graph@;
                        let copy: usize = graph.node(kind, typed, list.as_slice());
                        proof {
                            lemma_interned_keeps(mid, with_srcs(node, list@));
                        }
                        copy
                    },
                    _ => {
                        let copy: usize = graph.node(kind, typed, moved.as_slice());
                        proof {
                            lemma_interned_keeps(held, with_srcs(node, moved@));
                        }
                        copy
                    },
                }
            };
            stands.set(u, new);
            proof {
                let done = pad_walk(dag, start, root, range, wide, valid, walk@, (n + 1) as nat);
                assert(done.stands == rest.stands.insert(u, new));
                assert(extends(held, graph@));
                assert forall|p: int|
                    0 <= p < n + 1 && visible(dag, root, #[trigger] walk@[p]) implies stands@[walk@[p] as int]
                    == done.stands[walk@[p]] && stands@[walk@[p] as int] < graph@.len() by {
                    if p < n {
                        assert(walk@[p] != walk@[n as int]);
                        assert(before[walk@[p] as int] == rest.stands[walk@[p]]);
                    }
                }
                assert forall|i: int| 0 <= i < start.len() implies #[trigger] graph@[i] == start[i] by {
                    assert(held[i] == start[i]);
                }
            }
        }
        n += 1;
    }
    proof {
        assert(walk@[walk@.len() - 1] == root);
        assert(visible(dag, root, root));
        assert forall|i: int| 0 <= i < dag.len() implies #[trigger] graph@[i] == dag[i] by {
            assert(start[i] == dag[i]);
        }
    }
    Some(stands[root])
}

/// The conjunction of two truth values.
pub proof fn lemma_and_bits(a: int, b: int)
    requires
        a == 0 || a == 1,
        b == 0 || b == 1,
    ensures
        (word(a) & word(b)) as int == a * b,
{
    let x = word(a);
    let y = word(b);
    assert(x == a && y == b);
    assert((x == 0 || x == 1) && (y == 0 || y == 1) ==> x & y == if x == 1 && y == 1 {
        1u64
    } else {
        0u64
    }) by (bit_vector);
    assert(a * b == if a == 1 && b == 1 {
        1int
    } else {
        0int
    }) by (nonlinear_arith)
        requires
            a == 0 || a == 1,
            b == 0 || b == 1,
    ;
}

/// A guarded index is invalid where the guard does not hold, and means what it
/// meant where the guard holds.
pub proof fn lemma_guard_decides(
    dag: Seq<NodeView>,
    index: usize,
    valid: usize,
    at: spec_fn(Op) -> int,
)
    requires
        dag_wf(dag),
        index < dag.len(),
        valid < dag.len(),
        guarded(dag, index, valid).dag.len() <= usize::MAX,
        meaning(dag, valid, at) == Some(0int) || meaning(dag, valid, at) == Some(1int),
        condition_of(dag, index) matches Some(c) ==> (meaning(dag, c, at) matches Some(n) ==> n == 0
            || n == 1),
    ensures
        ({
            let new = guarded(dag, index, valid);
            &&& dag_wf(new.dag)
            &&& extends(dag, new.dag)
            &&& new.id < new.dag.len()
            &&& meaning(new.dag, new.id, at) == if meaning(dag, valid, at) == Some(0int) {
                None
            } else {
                meaning(dag, index, at)
            }
        }),
{
    lemma_arity(dag, index);
    lemma_meaning(dag, index, at);
    let plain = idx_of(dag, index);
    let both = pair_node(BinaryOp::And, DType::Bool, valid, condition_of(dag, index)->0);
    let condition = match condition_of(dag, index) {
        Some(other) => put(dag, both),
        None => Built { dag, id: valid },
    };
    let none = const_node(ConstValue::Invalid, DType::WeakInt);
    let invalid = put(condition.dag, none);
    let last = where_node(dag[plain as int].dtype, condition.id, plain, invalid.id);
    lemma_interned_keeps(dag, both);
    lemma_interned_keeps(condition.dag, none);
    lemma_interned_keeps(invalid.dag, last);
    if is_gated(dag, index) {
        assert(dag[index as int].srcs[0] < index);
        assert(dag[index as int].srcs[1] < index);
        assert(dag[index as int].srcs[2] < index);
        lemma_meaning(dag, dag[index as int].srcs[0], at);
        lemma_meaning(dag, dag[index as int].srcs[2], at);
    }
    match condition_of(dag, index) {
        Some(other) => {
            lemma_put_meaning(dag, both, at);
            match meaning(dag, other, at) {
                Some(n) => {
                    lemma_and_bits(meaning(dag, valid, at)->0, n);
                },
                None => {},
            }
        },
        None => {},
    }
    lemma_put_meaning(condition.dag, none, at);
    lemma_meaning_extends(condition.dag, invalid.dag, condition.id, at);
    lemma_meaning_extends(dag, condition.dag, plain, at);
    lemma_meaning_extends(condition.dag, invalid.dag, plain, at);
    lemma_put_meaning(invalid.dag, last, at);
}

/// The guard of a longer loop holds at the steps that the loop had, and at no
/// step that was added.
pub proof fn lemma_added_steps_are_invalid(
    dag: Seq<NodeView>,
    range: usize,
    old: i64,
    size: i64,
    at: spec_fn(Op) -> int,
)
    requires
        dag_wf(dag),
        range < dag.len(),
        dag[range as int].op is Range,
        widened(dag, range, old, size).0.dag.len() <= usize::MAX,
    ensures
        ({
            let (valid, _wide) = widened(dag, range, old, size);
            meaning(valid.dag, valid.id, at) == Some(
                if at(dag[range as int].op) < old {
                    1int
                } else {
                    0int
                },
            )
        }),
{
    let node = dag[range as int];
    lemma_arity(dag, range);
    assert(dag[range as int].srcs[0] < range);
    let weak = dag[node.srcs[0] as int].dtype;
    let size_node = const_node(ConstValue::Int(size), weak);
    let extent = put(dag, size_node);
    let wide_node = with_srcs(node, node.srcs.update(0, extent.id));
    let wide = put(extent.dag, wide_node);
    let old_node = const_node(ConstValue::Int(old), weak);
    let end = put(wide.dag, old_node);
    let last = pair_node(BinaryOp::Lt, DType::Bool, wide.id, end.id);
    lemma_interned_keeps(dag, size_node);
    lemma_interned_keeps(extent.dag, wide_node);
    lemma_interned_keeps(wide.dag, old_node);
    lemma_interned_keeps(end.dag, last);
    lemma_put_meaning(dag, size_node, at);
    assert forall|k: int| 0 <= k < wide_node.srcs.len() implies (#[trigger] wide_node.srcs[k])
        < extent.dag.len() by {
        if k > 0 {
            assert(dag[range as int].srcs[k] < range);
        }
    }
    lemma_put_meaning(extent.dag, wide_node, at);
    lemma_put_meaning(wide.dag, old_node, at);
    lemma_meaning_extends(wide.dag, end.dag, wide.id, at);
    lemma_put_meaning(end.dag, last, at);
}

} // verus!
