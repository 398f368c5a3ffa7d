//! Writes that have to wait: storage is not overwritten before the kernels that
//! read it from outside have run.

use vstd::prelude::*;

use crate::bufferize::{find_storage, lemma_storage_extends, storage};
use crate::builders::{lemma_interned_keeps, put, Built};
use crate::graph::{dag_wf, lemma_id_of, lemma_interned_wf, DType, Graph, NodeView, Op};
use crate::meaning::lemma_arity;
use crate::passes::{extends, lemma_put, moved, sources, with_srcs};
use crate::resolve::{lemma_visible_extends, lemma_visible_step, lemma_visible_through};
use crate::subst::{
    find_visible, is_body, lemma_lookup_one, lemma_substituted_grows, lemma_visible_source,
    moved_outside, subst_walk, substitute, substituted, visible,
};
use crate::topo::{lemma_reaches_below, lemma_topo, topo};

verus! {

/// A kernel that reads what another one writes, without waiting for the write:
/// the positions in a walk of the write and of what the reading kernel writes.
#[derive(Clone, Copy, Debug, PartialEq, Eq, Structural)]
pub struct Conflict {
    pub writer: usize,
    pub reader: usize,
}

/// A kernel that would have to run both before and after a write to storage
/// that it reads.
#[derive(Clone, Copy, Debug, PartialEq, Eq, Structural)]
pub struct WriteCycle {
    pub writer_buffer: usize,
    pub read_buffer: usize,
}

/// The first call among sources from the `k`-th on.
pub open spec fn call_from(dag: Seq<NodeView>, srcs: Seq<usize>, k: int) -> Option<usize>
    decreases srcs.len() - k,
{
    if k < 0 || k >= srcs.len() {
        None
    } else if dag[srcs[k] as int].op is Call {
        Some(srcs[k])
    } else {
        call_from(dag, srcs, k + 1)
    }
}

/// The kernel that makes a write: the first call that the write waits for.
pub open spec fn call_of(dag: Seq<NodeView>, id: usize) -> Option<usize> {
    call_from(dag, dag[id as int].srcs, 1)
}

/// Whether a node is a write outside of kernels.
pub open spec fn is_write(dag: Seq<NodeView>, root: usize, id: usize) -> bool {
    dag[id as int].op is After && visible(dag, root, id)
}

/// The last of the first `n` nodes of a walk that writes to storage.
pub open spec fn last_write(
    dag: Seq<NodeView>,
    root: usize,
    walk: Seq<usize>,
    n: nat,
    target: usize,
) -> Option<usize>
    decreases n,
{
    if n == 0 {
        None
    } else if is_write(dag, root, walk[n - 1]) && storage(dag, walk[n - 1]) == target {
        Some((n - 1) as usize)
    } else {
        last_write(dag, root, walk, (n - 1) as nat, target)
    }
}

/// The conflict of a write at a position with what its kernel reads: another
/// kernel wrote that storage earlier in the walk.
pub open spec fn conflict(
    dag: Seq<NodeView>,
    root: usize,
    walk: Seq<usize>,
    at: nat,
    read: usize,
) -> Option<Conflict> {
    let op = dag[read as int].op;
    if !(op is Buffer || op is Param) || read == storage(dag, walk[at as int]) {
        None
    } else {
        match last_write(dag, root, walk, at, read) {
            None => None,
            Some(writer) => if call_of(dag, walk[writer as int]) == call_of(dag, walk[at as int]) {
                None
            } else {
                Some(Conflict { writer, reader: at as usize })
            },
        }
    }
}

/// The conflicts of a write with the first `m` sources of its kernel; the body
/// is none of those that count.
pub open spec fn conflicts_at(
    dag: Seq<NodeView>,
    root: usize,
    walk: Seq<usize>,
    at: nat,
    m: nat,
) -> Seq<Conflict>
    decreases m,
{
    if m <= 1 {
        Seq::empty()
    } else {
        let rest = conflicts_at(dag, root, walk, at, (m - 1) as nat);
        let call = call_of(dag, walk[at as int])->0;
        match conflict(dag, root, walk, at, dag[call as int].srcs[m - 1]) {
            Some(found) => rest.push(found),
            None => rest,
        }
    }
}

/// The conflicts of the first `n` nodes of a walk.
pub open spec fn conflicts(
    dag: Seq<NodeView>,
    root: usize,
    walk: Seq<usize>,
    n: nat,
) -> Seq<Conflict>
    decreases n,
{
    if n == 0 {
        Seq::empty()
    } else {
        let rest = conflicts(dag, root, walk, (n - 1) as nat);
        if is_write(dag, root, walk[n - 1]) && call_of(dag, walk[n - 1]) is Some {
            let call = call_of(dag, walk[n - 1])->0;
            rest + conflicts_at(
                dag,
                root,
                walk,
                (n - 1) as nat,
                dag[call as int].srcs.len(),
            )
        } else {
            rest
        }
    }
}

/// Whether the reading side of a conflict waits for a write to what it reads.
pub open spec fn clashes(dag: Seq<NodeView>, walk: Seq<usize>, found: Conflict) -> bool {
    exists|x: usize|
        #![trigger visible(dag, walk[found.reader as int], x)]
        x <= walk[found.reader as int] && visible(dag, walk[found.reader as int], x)
            && dag[x as int].op is After && storage(dag, x) == storage(
            dag,
            walk[found.writer as int],
        )
}

/// The first of the conflicts from the `k`-th on that clashes.
pub open spec fn first_clash(
    dag: Seq<NodeView>,
    walk: Seq<usize>,
    list: Seq<Conflict>,
    k: int,
) -> Option<Conflict>
    decreases list.len() - k,
{
    if k < 0 || k >= list.len() {
        None
    } else if clashes(dag, walk, list[k]) {
        Some(list[k])
    } else {
        first_clash(dag, walk, list, k + 1)
    }
}

/// What a conflict that cannot be resolved is reported as.
pub open spec fn cycle_of(dag: Seq<NodeView>, walk: Seq<usize>, found: Conflict) -> WriteCycle {
    WriteCycle {
        writer_buffer: storage(dag, walk[found.reader as int]),
        read_buffer: storage(dag, walk[found.writer as int]),
    }
}

/// What stands in a graph for the node at a position, where `all` holds one
/// source for each.
pub open spec fn stand_in(dag: Seq<NodeView>, all: usize, at: usize) -> usize {
    dag[all as int].srcs[at as int]
}

/// A write that waits for one more node.
pub open spec fn later(node: NodeView, reader: usize) -> NodeView {
    with_srcs(node, node.srcs.push(reader))
}

/// One conflict resolved: the write waits for the reader, and everything that
/// stands over the write follows. Not where the reader waits for the write.
pub open spec fn resolved(dag: Seq<NodeView>, all: usize, found: Conflict) -> Option<Built> {
    let writer = stand_in(dag, all, found.writer);
    let reader = stand_in(dag, all, found.reader);
    if visible(dag, reader, writer) {
        None
    } else {
        let waits = put(dag, later(dag[writer as int], reader));
        Some(substituted(waits.dag, all, seq![(writer, waits.id)]))
    }
}

/// The first `n` conflicts resolved one after another.
pub open spec fn all_resolved(
    dag: Seq<NodeView>,
    all: usize,
    list: Seq<Conflict>,
    n: nat,
) -> Result<Built, Conflict>
    decreases n,
{
    if n == 0 {
        Ok(Built { dag, id: all })
    } else {
        match all_resolved(dag, all, list, (n - 1) as nat) {
            Err(found) => Err(found),
            Ok(rest) => match resolved(rest.dag, rest.id, list[n - 1]) {
                Some(built) => Ok(built),
                None => Err(list[n - 1]),
            },
        }
    }
}

/// A node that holds every node of a walk.
pub open spec fn holding(walk: Seq<usize>) -> NodeView {
    NodeView { op: Op::Sink, dtype: DType::Void, srcs: walk }
}

/// Everything at and below a root with every write waiting for the kernels that
/// read what it overwrites.
pub open spec fn ordered_writes(dag: Seq<NodeView>, root: usize) -> Result<Built, WriteCycle> {
    let walk = topo(dag, root);
    let list = conflicts(dag, root, walk, walk.len());
    match first_clash(dag, walk, list, 0) {
        Some(found) => Err(cycle_of(dag, walk, found)),
        None => if list.len() == 0 {
            Ok(Built { dag, id: root })
        } else {
            let all = put(dag, holding(walk));
            match all_resolved(all.dag, all.id, list, list.len()) {
                Err(found) => Err(cycle_of(dag, walk, found)),
                Ok(done) => Ok(
                    Built {
                        dag: done.dag,
                        id: stand_in(done.dag, done.id, (walk.len() - 1) as usize),
                    },
                ),
            }
        },
    }
}

/// Whether what a walk has put in the place of a node is as it should be, where
/// `b` goes in the place of `a`.
spec fn swapped(
    dag: Seq<NodeView>,
    more: Seq<NodeView>,
    stands: Map<usize, usize>,
    a: usize,
    b: usize,
    x: usize,
) -> bool {
    let y = stands[x];
    &&& y < more.len()
    &&& more[y as int].op == dag[x as int].op
    &&& x == a ==> y == b
    &&& x != a ==> more[y as int].srcs == moved_outside(dag[x as int], stands)
    &&& !visible(dag, x, a) ==> y == x
}

proof fn lemma_swap_walk(dag: Seq<NodeView>, root: usize, a: usize, b: usize, n: nat)
    requires
        dag_wf(dag),
        root < dag.len(),
        b < dag.len(),
        dag[b as int].op == dag[a as int].op,
        n <= topo(dag, root).len(),
        subst_walk(dag, root, seq![(a, b)], topo(dag, root), n).dag.len() <= usize::MAX,
    ensures
        ({
            let walk = topo(dag, root);
            let done = subst_walk(dag, root, seq![(a, b)], walk, n);
            &&& dag_wf(done.dag)
            &&& extends(dag, done.dag)
            &&& forall|p: int|
                0 <= p < n && visible(dag, root, #[trigger] walk[p]) ==> swapped(
                    dag,
                    done.dag,
                    done.stands,
                    a,
                    b,
                    walk[p],
                )
        }),
    decreases n,
{
    let walk = topo(dag, root);
    let pairs = seq![(a, b)];
    lemma_topo(dag, root);
    if n > 0 {
        let rest = subst_walk(dag, root, pairs, walk, (n - 1) as nat);
        let done = subst_walk(dag, root, pairs, walk, n);
        let u = walk[n - 1];
        let node = dag[u as int];
        assert(walk.contains(u));
        lemma_reaches_below(dag, root, u);
        lemma_arity(dag, u);
        lemma_lookup_one(a, b, u);
        let copied = with_srcs(node, moved_outside(node, rest.stands));
        lemma_interned_keeps(rest.dag, copied);
        lemma_swap_walk(dag, root, a, b, (n - 1) as nat);
        if visible(dag, root, u) {
            assert forall|k: int|
                0 <= k < node.srcs.len() && !is_body(node.op, k) implies swapped(
                dag,
                rest.dag,
                rest.stands,
                a,
                b,
                #[trigger] node.srcs[k],
            ) && node.srcs[k] != u by {
                lemma_visible_source(dag, root, u, k);
                assert(dag[walk[n - 1] as int].srcs[k] == node.srcs[k]);
                let q = choose|q: int| 0 <= q < n - 1 && #[trigger] walk[q] == node.srcs[k];
                assert(walk[q] == node.srcs[k]);
                assert(walk[q] != walk[n - 1]);
            }
            assert(done.stands == rest.stands.insert(u, done.stands[u]));
            assert(moved_outside(node, done.stands) =~= moved_outside(node, rest.stands));
            if u != a {
                assert forall|k: int| 0 <= k < copied.srcs.len() implies (#[trigger] copied.srcs[k])
                    < rest.dag.len() by {
                    if is_body(node.op, k) {
                        assert(dag[u as int].srcs[k] < u);
                    } else {
                        assert(swapped(dag, rest.dag, rest.stands, a, b, node.srcs[k]));
                    }
                }
                lemma_interned_wf(rest.dag, copied);
                lemma_put(rest.dag, copied);
                if !visible(dag, u, a) {
                    assert forall|k: int| 0 <= k < node.srcs.len() implies copied.srcs[k]
                        == node.srcs[k] by {
                        if !is_body(node.op, k) {
                            if visible(dag, node.srcs[k], a) {
                                lemma_visible_through(dag, u, k, a);
                            }
                            assert(swapped(dag, rest.dag, rest.stands, a, b, node.srcs[k]));
                        }
                    }
                    assert(copied.srcs =~= node.srcs);
                    assert(rest.dag[u as int] == copied);
                    assert(rest.dag.contains(copied));
                    lemma_id_of(rest.dag, u);
                }
            } else {
                assert(visible(dag, a, a));
            }
            assert forall|p: int| 0 <= p < n && visible(dag, root, #[trigger] walk[p]) implies swapped(
                dag,
                done.dag,
                done.stands,
                a,
                b,
                walk[p],
            ) by {
                if p < n - 1 {
                    assert(walk[p] != walk[n - 1]);
                    let x = walk[p];
                    assert(swapped(dag, rest.dag, rest.stands, a, b, x));
                    assert(done.dag[rest.stands[x] as int] == rest.dag[rest.stands[x] as int]);
                    assert forall|k: int| 0 <= k < dag[x as int].srcs.len() implies #[trigger] dag[x as int].srcs[k]
                        != u by {
                        assert(dag[walk[p] as int].srcs[k] == dag[x as int].srcs[k]);
                        let q = choose|q: int|
                            0 <= q < p && #[trigger] walk[q] == dag[x as int].srcs[k];
                        assert(walk[q] != walk[n - 1]);
                    }
                    assert(moved_outside(dag[x as int], done.stands) =~= moved_outside(
                        dag[x as int],
                        rest.stands,
                    ));
                }
            }
        }
    }
}

/// Whether the write at one position waits for what stands at another.
pub open spec fn waits(dag: Seq<NodeView>, all: usize, writer: usize, reader: usize) -> bool {
    exists|j: int|
        1 <= j < dag[stand_in(dag, all, writer) as int].srcs.len()
            && #[trigger] dag[stand_in(dag, all, writer) as int].srcs[j] == stand_in(
            dag,
            all,
            reader,
        )
}

/// Whether a node holds one stand-in for each of `count` positions.
pub open spec fn holds(dag: Seq<NodeView>, all: usize, count: nat) -> bool {
    all < dag.len() && dag[all as int].op is Sink && dag[all as int].srcs.len() == count
}

/// Whether the write of a conflict is one of the held nodes, and its reader too.
pub open spec fn fits(dag: Seq<NodeView>, all: usize, count: nat, found: Conflict) -> bool {
    found.writer < count && found.reader < count && dag[stand_in(
        dag,
        all,
        found.writer,
    ) as int].op is After
}

proof fn lemma_resolved(
    dag: Seq<NodeView>,
    all: usize,
    count: nat,
    found: Conflict,
)
    requires
        dag_wf(dag),
        holds(dag, all, count),
        fits(dag, all, count, found),
        resolved(dag, all, found) is Some,
        resolved(dag, all, found)->0.dag.len() <= usize::MAX,
    ensures
        ({
            let built = resolved(dag, all, found)->0;
            &&& dag_wf(built.dag)
            &&& extends(dag, built.dag)
            &&& holds(built.dag, built.id, count)
            &&& forall|other: Conflict| #[trigger]
                fits(dag, all, count, other) ==> fits(built.dag, built.id, count, other)
            &&& waits(built.dag, built.id, found.writer, found.reader)
            &&& forall|other: Conflict|
                #![trigger fits(dag, all, count, other)]
                fits(dag, all, count, other) && waits(dag, all, other.writer, other.reader)
                    ==> waits(built.dag, built.id, other.writer, other.reader)
        }),
{
    let a = stand_in(dag, all, found.writer);
    let u = stand_in(dag, all, found.reader);
    let node = dag[a as int];
    let late = later(node, u);
    let late_in = put(dag, late);
    let mid = late_in.dag;
    let b = late_in.id;
    let walk = topo(mid, all);
    let built = resolved(dag, all, found)->0;
    let done = subst_walk(mid, all, seq![(a, b)], walk, walk.len());
    assert(dag[all as int].srcs[found.writer as int] < all);
    assert(dag[all as int].srcs[found.reader as int] < all);
    lemma_interned_keeps(dag, late);
    assert forall|k: int| 0 <= k < late.srcs.len() implies (#[trigger] late.srcs[k]) < dag.len() by {
        if k < node.srcs.len() {
            assert(dag[a as int].srcs[k] < a);
        }
    }
    lemma_interned_wf(dag, late);
    lemma_substituted_grows(mid, all, seq![(a, b)]);
    lemma_put(dag, late);
    assert(mid[all as int] == dag[all as int]);
    assert(mid[a as int] == dag[a as int]);
    lemma_topo(mid, all);
    lemma_swap_walk(mid, all, a, b, walk.len());
    assert(walk[walk.len() - 1] == all);
    assert(visible(mid, all, all));
    assert(swapped(mid, done.dag, done.stands, a, b, all));
    assert(moved_outside(mid[all as int], done.stands) =~= moved(mid[all as int].srcs, done.stands));
    assert forall|k: int| 0 <= k < count implies {
        &&& swapped(mid, done.dag, done.stands, a, b, #[trigger] dag[all as int].srcs[k])
        &&& done.dag[built.id as int].srcs[k] == done.stands[dag[all as int].srcs[k]]
        &&& dag[all as int].srcs[k] < all
    } by {
        let x = dag[all as int].srcs[k];
        assert(mid[all as int].srcs[k] < all);
        lemma_visible_source(mid, all, all, k);
        assert(mid[walk[walk.len() - 1] as int].srcs[k] == x);
        let q = choose|q: int| 0 <= q < walk.len() - 1 && #[trigger] walk[q] == x;
        assert(walk[q] == x);
    }
    assert(extends(dag, built.dag)) by {
        assert forall|i: int| 0 <= i < dag.len() implies #[trigger] built.dag[i] == dag[i] by {
            assert(mid[i] == dag[i]);
        }
    }
    assert forall|other: Conflict| #[trigger] fits(dag, all, count, other) implies fits(
        built.dag,
        built.id,
        count,
        other,
    ) && (waits(dag, all, other.writer, other.reader) ==> waits(
        built.dag,
        built.id,
        other.writer,
        other.reader,
    )) by {
        let x = stand_in(dag, all, other.writer);
        let s = stand_in(dag, all, other.reader);
        assert(swapped(mid, done.dag, done.stands, a, b, x));
        assert(swapped(mid, done.dag, done.stands, a, b, s));
        assert(mid[x as int] == dag[x as int]);
        if waits(dag, all, other.writer, other.reader) {
            let j = choose|j: int|
                1 <= j < dag[x as int].srcs.len() && #[trigger] dag[x as int].srcs[j] == s;
            let y = stand_in(built.dag, built.id, other.writer);
            if x == a {
                assert(s < a) by {
                    assert(dag[a as int].srcs[j] < a);
                }
                if visible(mid, s, a) {
                    lemma_visible_step(mid, s, a);
                }
                assert(late.srcs[j] == s);
                assert(built.dag[y as int] == mid[b as int]);
                assert(built.dag[y as int].srcs[j] == stand_in(built.dag, built.id, other.reader));
            } else {
                assert(moved_outside(mid[x as int], done.stands)[j] == done.stands[s]);
                assert(built.dag[y as int].srcs[j] == stand_in(built.dag, built.id, other.reader));
            }
        }
    }
    assert(swapped(mid, done.dag, done.stands, a, b, a));
    assert(swapped(mid, done.dag, done.stands, a, b, u));
    if visible(mid, u, a) {
        lemma_visible_extends(dag, mid, u, a);
    }
    let y = stand_in(built.dag, built.id, found.writer);
    assert(y == b);
    assert(built.dag[y as int] == mid[b as int]);
    assert(late.srcs[node.srcs.len() as int] == u);
    assert(built.dag[y as int].srcs[node.srcs.len() as int] == stand_in(
        built.dag,
        built.id,
        found.reader,
    ));
}

/// Every write waits for the kernels that read what it overwrites, once the
/// conflicts are resolved.
pub proof fn lemma_writes_wait(
    dag: Seq<NodeView>,
    all: usize,
    count: nat,
    list: Seq<Conflict>,
    n: nat,
)
    requires
        dag_wf(dag),
        holds(dag, all, count),
        n <= list.len(),
        forall|i: int| 0 <= i < list.len() ==> fits(dag, all, count, #[trigger] list[i]),
        all_resolved(dag, all, list, n) is Ok,
        all_resolved(dag, all, list, n)->Ok_0.dag.len() <= usize::MAX,
    ensures
        ({
            let done = all_resolved(dag, all, list, n)->Ok_0;
            &&& dag_wf(done.dag)
            &&& extends(dag, done.dag)
            &&& holds(done.dag, done.id, count)
            &&& forall|i: int|
                0 <= i < list.len() ==> fits(done.dag, done.id, count, #[trigger] list[i])
            &&& forall|i: int|
                0 <= i < n ==> waits(done.dag, done.id, (#[trigger] list[i]).writer, list[i].reader)
        }),
    decreases n,
{
    if n > 0 {
        let rest = all_resolved(dag, all, list, (n - 1) as nat)->Ok_0;
        let found = list[n - 1];
        let writer = stand_in(rest.dag, rest.id, found.writer);
        let reader = stand_in(rest.dag, rest.id, found.reader);
        let late = put(rest.dag, later(rest.dag[writer as int], reader));
        lemma_substituted_grows(late.dag, rest.id, seq![(writer, late.id)]);
        lemma_interned_keeps(rest.dag, later(rest.dag[writer as int], reader));
        lemma_writes_wait(dag, all, count, list, (n - 1) as nat);
        assert(fits(rest.dag, rest.id, count, found));
        lemma_resolved(rest.dag, rest.id, count, found);
        assert forall|i: int| 0 <= i < list.len() implies {
            let done = all_resolved(dag, all, list, n)->Ok_0;
            &&& fits(done.dag, done.id, count, #[trigger] list[i])
            &&& i < n ==> waits(done.dag, done.id, list[i].writer, list[i].reader)
        } by {
            assert(fits(rest.dag, rest.id, count, list[i]));
        }
    }
}

proof fn lemma_last_write(
    dag: Seq<NodeView>,
    root: usize,
    walk: Seq<usize>,
    n: nat,
    target: usize,
)
    requires
        n <= usize::MAX,
    ensures
        last_write(dag, root, walk, n, target) matches Some(at) ==> at < n && is_write(
            dag,
            root,
            walk[at as int],
        ) && storage(dag, walk[at as int]) == target,
    decreases n,
{
    if n > 0 {
        lemma_last_write(dag, root, walk, (n - 1) as nat, target);
    }
}

proof fn lemma_conflicts_at(dag: Seq<NodeView>, root: usize, walk: Seq<usize>, at: nat, m: nat)
    requires
        at < usize::MAX,
    ensures
        forall|i: int|
            #![trigger conflicts_at(dag, root, walk, at, m)[i]]
            0 <= i < conflicts_at(dag, root, walk, at, m).len() ==> {
                let found = conflicts_at(dag, root, walk, at, m)[i];
                found.writer < at && found.reader == at && is_write(
                    dag,
                    root,
                    walk[found.writer as int],
                )
            },
    decreases m,
{
    if m > 1 {
        lemma_conflicts_at(dag, root, walk, at, (m - 1) as nat);
        let call = call_of(dag, walk[at as int])->0;
        lemma_last_write(dag, root, walk, at, dag[call as int].srcs[m - 1]);
        let rest = conflicts_at(dag, root, walk, at, (m - 1) as nat);
        let list = conflicts_at(dag, root, walk, at, m);
        assert forall|i: int| #![trigger list[i]] 0 <= i < list.len() implies list[i].writer < at
            && list[i].reader == at && is_write(dag, root, walk[list[i].writer as int]) by {
            if i < rest.len() {
                assert(list[i] == rest[i]);
            }
        }
    }
}

/// A conflict is between two nodes of the walk, and the first of them is a
/// write.
pub proof fn lemma_conflicts(dag: Seq<NodeView>, root: usize, walk: Seq<usize>, n: nat)
    requires
        n <= walk.len(),
        n <= usize::MAX,
    ensures
        forall|i: int|
            #![trigger conflicts(dag, root, walk, n)[i]]
            0 <= i < conflicts(dag, root, walk, n).len() ==> {
                let found = conflicts(dag, root, walk, n)[i];
                found.writer < found.reader < n && is_write(dag, root, walk[found.writer as int])
            },
    decreases n,
{
    if n > 0 {
        lemma_conflicts(dag, root, walk, (n - 1) as nat);
        let call = call_of(dag, walk[n - 1])->0;
        let m = dag[call as int].srcs.len();
        lemma_conflicts_at(dag, root, walk, (n - 1) as nat, m);
        let rest = conflicts(dag, root, walk, (n - 1) as nat);
        let added = conflicts_at(dag, root, walk, (n - 1) as nat, m);
        let list = conflicts(dag, root, walk, n);
        assert forall|i: int| #![trigger list[i]] 0 <= i < list.len() implies list[i].writer
            < list[i].reader < n && is_write(dag, root, walk[list[i].writer as int]) by {
            if i < rest.len() {
                assert(list[i] == rest[i]);
            } else {
                assert(list[i] == added[i - rest.len()]);
            }
        }
    }
}

fn find_call(graph: &Graph, id: usize) -> (call: Option<usize>)
    requires
        graph.wf(),
        id < graph@.len(),
    ensures
        call == call_of(graph@, id),
        call matches Some(c) ==> c < id && graph@[c as int].op is Call,
{
    let list = sources(graph, id);
    let mut k: usize = 1;
    while k < list.len()
        invariant
            graph.wf(),
            id < graph@.len(),
            list@ == graph@[id as int].srcs,
            forall|i: int| 0 <= i < list@.len() ==> (#[trigger] list@[i]) < id,
            k >= 1,
            call_of(graph@, id) == call_from(graph@, list@, k as int),
        decreases list@.len() - k,
    {
        let src: usize = list[k];
        assert(list@[k as int] < id);
        if matches!(graph.op(src), Op::Call) {
            return Some(src);
        }
        k += 1;
    }
    None
}

fn find_last_write(
    graph: &Graph,
    root: usize,
    walk: &Vec<usize>,
    seen: &Vec<bool>,
    n: usize,
    target: usize,
) -> (found: Option<usize>)
    requires
        graph.wf(),
        root < graph@.len(),
        n <= walk@.len(),
        forall|i: int| 0 <= i < walk@.len() ==> (#[trigger] walk@[i]) <= root,
        seen@.len() == root + 1,
        forall|x: usize| x <= root ==> #[trigger] seen@[x as int] == visible(graph@, root, x),
    ensures
        found == last_write(graph@, root, walk@, n as nat, target),
{
    let mut at: usize = n;
    while at > 0
        invariant
            graph.wf(),
            root < graph@.len(),
            at <= n <= walk@.len(),
            forall|i: int| 0 <= i < walk@.len() ==> (#[trigger] walk@[i]) <= root,
            seen@.len() == root + 1,
            forall|x: usize| x <= root ==> #[trigger] seen@[x as int] == visible(graph@, root, x),
            last_write(graph@, root, walk@, n as nat, target) == last_write(
                graph@,
                root,
                walk@,
                at as nat,
                target,
            ),
        decreases at,
    {
        let id: usize = walk[at - 1];
        assert(walk@[at - 1] <= root);
        if seen[id] && matches!(graph.op(id), Op::After) && find_storage(graph, id) == target {
            return Some(at - 1);
        }
        at -= 1;
    }
    None
}

/// The conflicts between writes at and below a root and the kernels that read
/// what they overwrite.
fn find_conflicts(graph: &Graph, root: usize, walk: &Vec<usize>) -> (list: Vec<Conflict>)
    requires
        graph.wf(),
        root < graph@.len(),
        forall|i: int| 0 <= i < walk@.len() ==> (#[trigger] walk@[i]) <= root,
    ensures
        list@ == conflicts(graph@, root, walk@, walk@.len()),
{
    let seen = find_visible(graph, root);
    let mut list: Vec<Conflict> = Vec::new();
    let mut n: usize = 0;
    while n < walk.len()
        invariant
            graph.wf(),
            root < graph@.len(),
            forall|i: int| 0 <= i < walk@.len() ==> (#[trigger] walk@[i]) <= root,
            seen@.len() == root + 1,
            forall|x: usize| x <= root ==> #[trigger] seen@[x as int] == visible(graph@, root, x),
            n <= walk@.len(),
            list@ == conflicts(graph@, root, walk@, n as nat),
        decreases walk@.len() - n,
    {
        let id: usize = walk[n];
        assert(walk@[n as int] <= root);
        if seen[id] && matches!(graph.op(id), Op::After) {
            if let Some(call) = find_call(graph, id) {
                let target: usize = find_storage(graph, id);
                let ghost before = list@;
                let reads = sources(graph, call);
                let mut m: usize = 1;
                proof {
                    lemma_arity(graph@, call);
                }
                while m < reads.len()
                    invariant
                        graph.wf(),
                        root < graph@.len(),
                        n < walk@.len(),
                        forall|i: int| 0 <= i < walk@.len() ==> (#[trigger] walk@[i]) <= root,
                        seen@.len() == root + 1,
                        forall|x: usize|
                            x <= root ==> #[trigger] seen@[x as int] == visible(graph@, root, x),
                        id == walk@[n as int],
                        id <= root,
                        call < id,
                        Some(call) == call_of(graph@, id),
                        target == storage(graph@, id),
                        reads@ == graph@[call as int].srcs,
                        forall|i: int| 0 <= i < reads@.len() ==> (#[trigger] reads@[i]) < call,
                        1 <= m <= reads@.len(),
                        list@ == before + conflicts_at(graph@, root, walk@, n as nat, m as nat),
                    decreases reads@.len() - m,
                {
                    let read: usize = reads[m];
                    assert(reads@[m as int] < call);
                    if matches!(graph.op(read), Op::Buffer { .. } | Op::Param { .. }) && read
                        != target {
                        if let Some(writer) = find_last_write(graph, root, walk, &seen, n, read) {
                            proof {
                                lemma_last_write(graph@, root, walk@, n as nat, read);
                                assert(walk@[writer as int] <= root);
                            }
                            let same: bool = match find_call(graph, walk[writer]) {
                                Some(other) => other == call,
                                None => false,
                            };
                            if !same {
                                list.push(Conflict { writer, reader: n });
                            }
                        }
                    }
                    m += 1;
                    assert(list@ =~= before + conflicts_at(
                        graph@,
                        root,
                        walk@,
                        n as nat,
                        m as nat,
                    ));
                }
            }
        }
        n += 1;
        assert(list@ =~= conflicts(graph@, root, walk@, n as nat));
    }
    list
}

/// Whether the reading side of a conflict waits for a write to what it reads.
fn does_clash(graph: &Graph, walk: &Vec<usize>, found: Conflict) -> (r: bool)
    requires
        graph.wf(),
        found.writer < walk@.len(),
        found.reader < walk@.len(),
        forall|i: int| 0 <= i < walk@.len() ==> (#[trigger] walk@[i]) < graph@.len(),
    ensures
        r == clashes(graph@, walk@, found),
{
    assert(walk@[found.reader as int] < graph@.len());
    assert(walk@[found.writer as int] < graph@.len());
    let reader: usize = walk[found.reader];
    let target: usize = find_storage(graph, walk[found.writer]);
    let seen = find_visible(graph, reader);
    let mut x: usize = 0;
    while x < seen.len()
        invariant
            graph.wf(),
            reader < graph@.len(),
            reader == walk@[found.reader as int],
            target == storage(graph@, walk@[found.writer as int]),
            seen@.len() == reader + 1,
            forall|y: usize| y <= reader ==> #[trigger] seen@[y as int] == visible(graph@, reader, y),
            x <= seen@.len(),
            forall|y: usize|
                y < x && #[trigger] visible(graph@, reader, y) && graph@[y as int].op is After
                    ==> storage(graph@, y) != target,
        decreases seen@.len() - x,
    {
        assert(seen@[x as int] == visible(graph@, reader, x));
        if seen[x] && matches!(graph.op(x), Op::After) && find_storage(graph, x) == target {
            return true;
        }
        x += 1;
    }
    false
}

/// Resolves one conflict; see `resolved`.
fn resolve_conflict(
    graph: &mut Graph,
    all: usize,
    found: Conflict,
    Ghost(count): Ghost<nat>,
) -> (new: Option<usize>)
    requires
        old(graph).wf(),
        holds(old(graph)@, all, count),
        fits(old(graph)@, all, count, found),
    ensures
        final(graph).wf(),
        extends(old(graph)@, final(graph)@),
        match new {
            Some(id) => resolved(old(graph)@, all, found) == Some(
                Built { dag: final(graph)@, id },
            ),
            None => resolved(old(graph)@, all, found) is None && final(graph)@ == old(graph)@,
        },
{
    let ghost dag = graph@;
    let writer: usize = graph.source(all, found.writer);
    let reader: usize = graph.source(all, found.reader);
    let seen = find_visible(graph, reader);
    proof {
        assert(dag[all as int].srcs[found.writer as int] < all);
        assert(dag[all as int].srcs[found.reader as int] < all);
        if writer > reader && visible(dag, reader, writer) {
            lemma_visible_step(dag, reader, writer);
        }
    }
    if writer <= reader && seen[writer] {
        return None;
    }
    assert(!visible(dag, reader, writer));
    let mut list = sources(graph, writer);
    list.push(reader);
    let late: usize = graph.node(graph.op(writer), graph.dtype(writer), list.as_slice());
    let ghost mid = graph@;
    proof {
        assert(list@ =~= dag[writer as int].srcs.push(reader));
        lemma_interned_keeps(dag, later(dag[writer as int], reader));
    }
    let mut pairs: Vec<(usize, usize)> = Vec::new();
    pairs.push((writer, late));
    assert(pairs@ =~= seq![(writer, late)]);
    let new: usize = substitute(graph, all, &pairs);
    assert forall|i: int| 0 <= i < dag.len() implies #[trigger] graph@[i] == dag[i] by {
        assert(mid[i] == dag[i]);
    }
    Some(new)
}

/// Makes every write at and below a root wait for the kernels that read what it
/// overwrites; see `ordered_writes`.
pub fn fix_assign(graph: &mut Graph, root: usize) -> (fixed: Result<usize, WriteCycle>)
    requires
        old(graph).wf(),
        root < old(graph)@.len(),
    ensures
        final(graph).wf(),
        extends(old(graph)@, final(graph)@),
        match fixed {
            Ok(id) => ordered_writes(old(graph)@, root) == Ok::<Built, WriteCycle>(
                Built { dag: final(graph)@, id },
            ) && id < final(graph)@.len(),
            Err(cycle) => ordered_writes(old(graph)@, root) == Err::<Built, WriteCycle>(cycle),
        },
{
    let ghost dag = graph@;
    let walk = graph.toposort(root);
    proof {
        lemma_topo(dag, root);
        assert forall|i: int| 0 <= i < walk@.len() implies (#[trigger] walk@[i]) <= root by {
            assert(walk@.contains(walk@[i]));
            lemma_reaches_below(dag, root, walk@[i]);
        }
    }
    let list = find_conflicts(graph, root, &walk);
    let total: usize = walk.len();
    proof {
        lemma_conflicts(dag, root, walk@, walk@.len());
    }
    let mut k: usize = 0;
    while k < list.len()
        invariant
            graph.wf(),
            graph@ == dag,
            root < dag.len(),
            walk@ == topo(dag, root),
            list@ == conflicts(dag, root, walk@, walk@.len()),
            forall|i: int| 0 <= i < walk@.len() ==> (#[trigger] walk@[i]) <= root,
            forall|i: int|
                #![trigger list@[i]]
                0 <= i < list@.len() ==> list@[i].writer < list@[i].reader < walk@.len(),
            k <= list@.len(),
            first_clash(dag, walk@, list@, 0) == first_clash(dag, walk@, list@, k as int),
        decreases list@.len() - k,
    {
        let found: Conflict = list[k];
        if does_clash(graph, &walk, found) {
            assert(walk@[found.reader as int] <= root);
            assert(walk@[found.writer as int] <= root);
            return Err(
                WriteCycle {
                    writer_buffer: find_storage(graph, walk[found.reader]),
                    read_buffer: find_storage(graph, walk[found.writer]),
                },
            );
        }
        k += 1;
    }
    if list.len() == 0 {
        return Ok(root);
    }
    let mut all: usize = graph.node(Op::Sink, DType::Void, walk.as_slice());
    let ghost start = graph@;
    let ghost first = all;
    proof {
        lemma_interned_keeps(dag, holding(walk@));
        assert forall|i: int| 0 <= i < list@.len() implies fits(
            start,
            all,
            walk@.len(),
            #[trigger] list@[i],
        ) by {
            let w = walk@[list@[i].writer as int];
            assert(w <= root);
            assert(start[w as int] == dag[w as int]);
        }
    }
    let mut n: usize = 0;
    while n < list.len()
        invariant
            graph.wf(),
            dag == old(graph)@,
            dag_wf(dag),
            root < dag.len(),
            extends(dag, graph@),
            walk@ == topo(dag, root),
            list@ == conflicts(dag, root, walk@, walk@.len()),
            list@.len() > 0,
            first_clash(dag, walk@, list@, 0) is None,
            forall|i: int| 0 <= i < walk@.len() ==> (#[trigger] walk@[i]) <= root,
            forall|i: int|
                #![trigger list@[i]]
                0 <= i < list@.len() ==> list@[i].writer < list@[i].reader < walk@.len(),
            put(dag, holding(walk@)) == (Built { dag: start, id: first }),
            n <= list@.len(),
            holds(graph@, all, walk@.len()),
            forall|i: int|
                0 <= i < list@.len() ==> fits(graph@, all, walk@.len(), #[trigger] list@[i]),
            all_resolved(start, first, list@, n as nat) == Ok::<Built, Conflict>(
                Built { dag: graph@, id: all },
            ),
        decreases list@.len() - n,
    {
        let found: Conflict = list[n];
        let ghost before = graph@;
        assert(fits(graph@, all, walk@.len(), list@[n as int]));
        match resolve_conflict(graph, all, found, Ghost(walk@.len())) {
            Some(new) => {
                proof {
                    assert(graph@.len() <= usize::MAX);
                    lemma_resolved(before, all, walk@.len(), found);
                    assert forall|i: int| 0 <= i < list@.len() implies fits(
                        graph@,
                        new,
                        walk@.len(),
                        #[trigger] list@[i],
                    ) by {
                        assert(fits(before, all, walk@.len(), list@[i]));
                    }
                }
                all = new;
            },
            None => {
                proof {
                    lemma_failed_stays(start, first, list@, (n + 1) as nat, list@.len());
                }
                assert(walk@[found.reader as int] <= root);
                assert(walk@[found.writer as int] <= root);
                let writer_buffer: usize = find_storage(graph, walk[found.reader]);
                let read_buffer: usize = find_storage(graph, walk[found.writer]);
                proof {
                    lemma_storage_extends(dag, graph@, walk@[found.reader as int]);
                    lemma_storage_extends(dag, graph@, walk@[found.writer as int]);
                }
                return Err(WriteCycle { writer_buffer, read_buffer });
            },
        }
        n += 1;
    }
    let last: usize = graph.source(all, total - 1);
    Ok(last)
}

proof fn lemma_failed_stays(
    dag: Seq<NodeView>,
    all: usize,
    list: Seq<Conflict>,
    n: nat,
    m: nat,
)
    requires
        all_resolved(dag, all, list, n) is Err,
        n <= m,
    ensures
        all_resolved(dag, all, list, m) == all_resolved(dag, all, list, n),
    decreases m - n,
{
    if n < m {
        lemma_failed_stays(dag, all, list, n, (m - 1) as nat);
    }
}

/// Once the writes are ordered, every write waits for the kernels that read
/// what it overwrites.
pub proof fn lemma_ordered_writes_wait(dag: Seq<NodeView>, root: usize)
    requires
        dag_wf(dag),
        root < dag.len(),
        topo(dag, root).len() <= usize::MAX,
        ordered_writes(dag, root) is Ok,
        ordered_writes(dag, root)->Ok_0.dag.len() <= usize::MAX,
    ensures
        ({
            let walk = topo(dag, root);
            let list = conflicts(dag, root, walk, walk.len());
            let done = ordered_writes(dag, root)->Ok_0;
            list.len() > 0 ==> exists|all: usize|
                {
                    &&& #[trigger] holds(done.dag, all, walk.len())
                    &&& stand_in(done.dag, all, (walk.len() - 1) as usize) == done.id
                    &&& forall|i: int|
                        0 <= i < list.len() ==> waits(
                            done.dag,
                            all,
                            (#[trigger] list[i]).writer,
                            list[i].reader,
                        )
                }
        }),
{
    let walk = topo(dag, root);
    let list = conflicts(dag, root, walk, walk.len());
    lemma_topo(dag, root);
    lemma_conflicts(dag, root, walk, walk.len());
    if list.len() > 0 {
        let all = put(dag, holding(walk));
        let done = all_resolved(all.dag, all.id, list, list.len())->Ok_0;
        assert forall|k: int| 0 <= k < walk.len() implies (#[trigger] holding(walk).srcs[k])
            < dag.len() by {
            assert(walk.contains(walk[k]));
            lemma_reaches_below(dag, root, walk[k]);
        }
        lemma_interned_wf(dag, holding(walk));
        lemma_interned_keeps(dag, holding(walk));
        lemma_all_resolved_grows(all.dag, all.id, list, list.len());
        lemma_put(dag, holding(walk));
        assert forall|i: int| 0 <= i < list.len() implies fits(
            all.dag,
            all.id,
            walk.len(),
            #[trigger] list[i],
        ) by {
            let w = list[i].writer as int;
            assert(holding(walk).srcs[w] < dag.len());
            assert(all.dag[walk[w] as int] == dag[walk[w] as int]);
        }
        lemma_writes_wait(all.dag, all.id, walk.len(), list, list.len());
        assert(holds(done.dag, done.id, walk.len()));
    }
}

proof fn lemma_all_resolved_grows(dag: Seq<NodeView>, all: usize, list: Seq<Conflict>, n: nat)
    requires
        all_resolved(dag, all, list, n) is Ok,
    ensures
        dag.len() <= all_resolved(dag, all, list, n)->Ok_0.dag.len(),
    decreases n,
{
    if n > 0 {
        let rest = all_resolved(dag, all, list, (n - 1) as nat)->Ok_0;
        lemma_all_resolved_grows(dag, all, list, (n - 1) as nat);
        let writer = stand_in(rest.dag, rest.id, list[n - 1].writer);
        let reader = stand_in(rest.dag, rest.id, list[n - 1].reader);
        let late = put(rest.dag, later(rest.dag[writer as int], reader));
        lemma_interned_keeps(rest.dag, later(rest.dag[writer as int], reader));
        lemma_substituted_grows(late.dag, rest.id, seq![(writer, late.id)]);
    }
}

} // verus!
