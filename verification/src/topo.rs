//! The order in which a graph is walked: every node behind its sources.

use vstd::prelude::*;

use crate::graph::{dag_wf, Graph, NodeView};
use crate::passes::extends;

verus! {

/// Whether `to` is `from` or stands somewhere below it.
pub open spec fn reaches(dag: Seq<NodeView>, from: usize, to: usize) -> bool
    decreases from,
{
    ||| from == to
    ||| exists|k: int|
        #![trigger dag[from as int].srcs[k]]
        0 <= k < dag[from as int].srcs.len() && dag[from as int].srcs[k] < from && reaches(
            dag,
            dag[from as int].srcs[k],
            to,
        )
}

/// The nodes walked so far, and then those at and below `id` that are missing:
/// sources first, left to right, then the node itself.
pub open spec fn visit(dag: Seq<NodeView>, done: Seq<usize>, id: usize) -> Seq<usize>
    decreases id, 1int, 0int,
{
    if done.contains(id) {
        done
    } else {
        visit_from(dag, done, id, 0).push(id)
    }
}

/// `visit` of the sources of `id` from position `k` on.
pub open spec fn visit_from(dag: Seq<NodeView>, done: Seq<usize>, id: usize, k: int) -> Seq<usize>
    decreases id, 0int, dag[id as int].srcs.len() - k,
{
    if k < 0 || k >= dag[id as int].srcs.len() || dag[id as int].srcs[k] >= id {
        done
    } else {
        visit_from(dag, visit(dag, done, dag[id as int].srcs[k]), id, k + 1)
    }
}

/// The walk from a root.
pub open spec fn topo(dag: Seq<NodeView>, root: usize) -> Seq<usize> {
    visit(dag, Seq::empty(), root)
}

/// Whether a list holds `x` before position `p`.
pub open spec fn before(list: Seq<usize>, p: int, x: usize) -> bool {
    exists|q: int| 0 <= q < p && #[trigger] list[q] == x
}

/// Every node of a list has its sources before it, and none occurs twice.
pub open spec fn ordered(dag: Seq<NodeView>, list: Seq<usize>) -> bool {
    &&& list.no_duplicates()
    &&& forall|p: int| 0 <= p < list.len() ==> (#[trigger] list[p]) < dag.len()
    &&& forall|p: int, k: int|
        #![trigger dag[list[p] as int].srcs[k]]
        0 <= p < list.len() && 0 <= k < dag[list[p] as int].srcs.len() ==> before(
            list,
            p,
            dag[list[p] as int].srcs[k],
        )
}

/// A node that follows its sources keeps a list ordered.
pub proof fn lemma_ordered_push(dag: Seq<NodeView>, list: Seq<usize>, id: usize)
    requires
        ordered(dag, list),
        id < dag.len(),
        !list.contains(id),
        forall|k: int|
            0 <= k < dag[id as int].srcs.len() ==> list.contains(
                #[trigger] dag[id as int].srcs[k],
            ),
    ensures
        ordered(dag, list.push(id)),
{
    let next = list.push(id);
    assert forall|p: int, k: int|
        #![trigger dag[next[p] as int].srcs[k]]
        0 <= p < next.len() && 0 <= k < dag[next[p] as int].srcs.len() implies before(
        next,
        p,
        dag[next[p] as int].srcs[k],
    ) by {
        if p < list.len() {
            assert(next[p] == list[p]);
            assert(before(list, p, dag[list[p] as int].srcs[k]));
            let q = choose|q: int| 0 <= q < p && list[q] == dag[list[p] as int].srcs[k];
            assert(next[q] == list[q]);
        } else {
            assert(list.contains(dag[id as int].srcs[k]));
            let q = choose|q: int| 0 <= q < list.len() && list[q] == dag[id as int].srcs[k];
            assert(next[q] == list[q]);
        }
    }
    assert forall|p: int| 0 <= p < next.len() implies (#[trigger] next[p]) < dag.len() by {
        if p < list.len() {
            assert(next[p] == list[p]);
        }
    }
    assert forall|i: int, j: int| 0 <= i < next.len() && 0 <= j < next.len() && i != j implies next[i]
        != next[j] by {
        if i < list.len() && j < list.len() {
            assert(next[i] == list[i] && next[j] == list[j]);
        } else if i < list.len() {
            assert(list.contains(list[i]));
        } else {
            assert(list.contains(list[j]));
        }
    }
}

/// What one `visit` adds.
proof fn lemma_visit(dag: Seq<NodeView>, done: Seq<usize>, id: usize)
    requires
        dag_wf(dag),
        ordered(dag, done),
        id < dag.len(),
    ensures
        ordered(dag, visit(dag, done, id)),
        done.is_prefix_of(visit(dag, done, id)),
        visit(dag, done, id).contains(id),
        !done.contains(id) ==> visit(dag, done, id).last() == id,
        forall|x: usize| #[trigger]
            visit(dag, done, id).contains(x) ==> done.contains(x) || reaches(dag, id, x),
    decreases id, 1int, 0int,
{
    if !done.contains(id) {
        lemma_visit_from(dag, done, id, 0);
        let inner = visit_from(dag, done, id, 0);
        if inner.contains(id) {
            assert(done.contains(id) || exists|k: int|
                0 <= k < dag[id as int].srcs.len() && reaches(dag, dag[id as int].srcs[k], id));
            let k = choose|k: int|
                0 <= k < dag[id as int].srcs.len() && reaches(dag, dag[id as int].srcs[k], id);
            lemma_reaches_below(dag, dag[id as int].srcs[k], id);
        }
        lemma_ordered_push(dag, inner, id);
        let next = inner.push(id);
        assert(next.last() == id);
        assert(next.contains(id)) by {
            assert(next[inner.len() as int] == id);
        }
        assert forall|x: usize| #[trigger] next.contains(x) implies done.contains(x) || reaches(
            dag,
            id,
            x,
        ) by {
            if x != id {
                let p = choose|p: int| 0 <= p < next.len() && next[p] == x;
                assert(inner[p] == x);
                assert(inner.contains(x));
            }
        }
    }
}

proof fn lemma_visit_from(dag: Seq<NodeView>, done: Seq<usize>, id: usize, k: int)
    requires
        dag_wf(dag),
        ordered(dag, done),
        id < dag.len(),
        0 <= k <= dag[id as int].srcs.len(),
    ensures
        ordered(dag, visit_from(dag, done, id, k)),
        done.is_prefix_of(visit_from(dag, done, id, k)),
        forall|j: int|
            k <= j < dag[id as int].srcs.len() ==> visit_from(dag, done, id, k).contains(
                #[trigger] dag[id as int].srcs[j],
            ),
        forall|x: usize| #[trigger]
            visit_from(dag, done, id, k).contains(x) ==> done.contains(x) || exists|j: int|
                0 <= j < dag[id as int].srcs.len() && reaches(
                    dag,
                    #[trigger] dag[id as int].srcs[j],
                    x,
                ),
    decreases id, 0int, dag[id as int].srcs.len() - k,
{
    if k < dag[id as int].srcs.len() {
        let src = dag[id as int].srcs[k];
        assert(src < id);
        lemma_visit(dag, done, src);
        let next = visit(dag, done, src);
        lemma_visit_from(dag, next, id, k + 1);
        let last = visit_from(dag, next, id, k + 1);
        assert(last.contains(src)) by {
            let p = choose|p: int| 0 <= p < next.len() && next[p] == src;
            assert(last[p] == next[p]);
        }
        assert forall|x: usize| #[trigger] last.contains(x) implies done.contains(x) || exists|
            j: int,
        |
            0 <= j < dag[id as int].srcs.len() && reaches(
                dag,
                #[trigger] dag[id as int].srcs[j],
                x,
            ) by {
            if next.contains(x) && !done.contains(x) {
                assert(reaches(dag, dag[id as int].srcs[k], x));
            }
        }
    }
}

/// What stands below a node has a smaller or the same id.
pub proof fn lemma_reaches_below(dag: Seq<NodeView>, from: usize, to: usize)
    requires
        reaches(dag, from, to),
    ensures
        to <= from,
    decreases from,
{
    if from != to {
        let k = choose|k: int|
            #![trigger dag[from as int].srcs[k]]
            0 <= k < dag[from as int].srcs.len() && dag[from as int].srcs[k] < from && reaches(
                dag,
                dag[from as int].srcs[k],
                to,
            );
        lemma_reaches_below(dag, dag[from as int].srcs[k], to);
    }
}

/// `reaches` is transitive.
pub proof fn lemma_reaches_transitive(dag: Seq<NodeView>, a: usize, b: usize, c: usize)
    requires
        reaches(dag, a, b),
        reaches(dag, b, c),
    ensures
        reaches(dag, a, c),
    decreases a,
{
    if a != b {
        let k = choose|k: int|
            #![trigger dag[a as int].srcs[k]]
            0 <= k < dag[a as int].srcs.len() && dag[a as int].srcs[k] < a && reaches(
                dag,
                dag[a as int].srcs[k],
                b,
            );
        lemma_reaches_transitive(dag, dag[a as int].srcs[k], b, c);
    }
}

/// A graph that grows keeps what stands below its nodes.
pub proof fn lemma_reaches_extends(
    dag: Seq<NodeView>,
    more: Seq<NodeView>,
    from: usize,
    to: usize,
)
    requires
        dag_wf(dag),
        extends(dag, more),
        from < dag.len(),
    ensures
        reaches(more, from, to) == reaches(dag, from, to),
    decreases from,
{
    assert(more[from as int] == dag[from as int]);
    let srcs = dag[from as int].srcs;
    assert forall|k: int| 0 <= k < srcs.len() implies reaches(more, #[trigger] srcs[k], to)
        == reaches(dag, srcs[k], to) by {
        assert(dag[from as int].srcs[k] < from);
        lemma_reaches_extends(dag, more, srcs[k], to);
    }
    if from != to {
        if reaches(dag, from, to) {
            let k = choose|k: int|
                #![trigger dag[from as int].srcs[k]]
                0 <= k < dag[from as int].srcs.len() && dag[from as int].srcs[k] < from && reaches(
                    dag,
                    dag[from as int].srcs[k],
                    to,
                );
            assert(more[from as int].srcs[k] == srcs[k]);
        }
        if reaches(more, from, to) {
            let k = choose|k: int|
                #![trigger more[from as int].srcs[k]]
                0 <= k < more[from as int].srcs.len() && more[from as int].srcs[k] < from
                    && reaches(more, more[from as int].srcs[k], to);
            assert(dag[from as int].srcs[k] == srcs[k]);
        }
    }
}

/// An ordered list that holds a node holds everything below it.
pub proof fn lemma_ordered_closed(dag: Seq<NodeView>, list: Seq<usize>, from: usize, to: usize)
    requires
        ordered(dag, list),
        list.contains(from),
        reaches(dag, from, to),
    ensures
        list.contains(to),
    decreases from,
{
    if from != to {
        let k = choose|k: int|
            #![trigger dag[from as int].srcs[k]]
            0 <= k < dag[from as int].srcs.len() && dag[from as int].srcs[k] < from && reaches(
                dag,
                dag[from as int].srcs[k],
                to,
            );
        let p = choose|p: int| 0 <= p < list.len() && list[p] == from;
        assert(before(list, p, dag[list[p] as int].srcs[k]));
        let q = choose|q: int| 0 <= q < p && list[q] == dag[list[p] as int].srcs[k];
        assert(list[q] == dag[from as int].srcs[k]);
        lemma_ordered_closed(dag, list, dag[from as int].srcs[k], to);
    }
}

/// The walk from a root holds each node at or below the root once, every node
/// behind its sources and the root last.
pub proof fn lemma_topo(dag: Seq<NodeView>, root: usize)
    requires
        dag_wf(dag),
        root < dag.len(),
    ensures
        ordered(dag, topo(dag, root)),
        forall|x: usize| #[trigger] topo(dag, root).contains(x) <==> reaches(dag, root, x),
        topo(dag, root).len() > 0,
        topo(dag, root).last() == root,
{
    let none = Seq::<usize>::empty();
    assert(ordered(dag, none));
    lemma_visit(dag, none, root);
    let list = topo(dag, root);
    assert(!none.contains(root));
    assert forall|x: usize| #[trigger] list.contains(x) <==> reaches(dag, root, x) by {
        if list.contains(x) {
            assert(!none.contains(x));
        }
        if reaches(dag, root, x) {
            lemma_ordered_closed(dag, list, root, x);
        }
    }
}

/// A list of distinct numbers below `n` has at most `n` of them.
pub proof fn lemma_distinct_len(list: Seq<usize>, n: nat)
    requires
        list.no_duplicates(),
        forall|p: int| 0 <= p < list.len() ==> (#[trigger] list[p]) < n,
    ensures
        list.len() <= n,
    decreases n,
{
    if n == 0 {
        if list.len() > 0 {
            assert(list[0] < 0);
        }
    } else if list.contains((n - 1) as usize) {
        let p = choose|p: int| 0 <= p < list.len() && list[p] == (n - 1) as usize;
        let rest = list.remove(p);
        assert forall|q: int| 0 <= q < rest.len() implies (#[trigger] rest[q]) < n - 1 by {
            if q < p {
                assert(rest[q] == list[q]);
            } else {
                assert(rest[q] == list[q + 1]);
            }
        }
        assert forall|i: int, j: int| 0 <= i < rest.len() && 0 <= j < rest.len() && i != j implies rest[i]
            != rest[j] by {
            let a = if i < p { i } else { i + 1 };
            let b = if j < p { j } else { j + 1 };
            assert(rest[i] == list[a] && rest[j] == list[b]);
        }
        lemma_distinct_len(rest, (n - 1) as nat);
    } else {
        assert forall|q: int| 0 <= q < list.len() implies (#[trigger] list[q]) < n - 1 by {
            assert(list.contains(list[q]));
        }
        lemma_distinct_len(list, (n - 1) as nat);
    }
}

/// What a list holds with one more member.
pub proof fn lemma_push_contains(list: Seq<usize>, id: usize, x: usize)
    ensures
        list.push(id).contains(x) == (list.contains(x) || x == id),
{
    let next = list.push(id);
    if list.contains(x) {
        let p = choose|p: int| 0 <= p < list.len() && list[p] == x;
        assert(next[p] == x);
    }
    assert(next[list.len() as int] == id);
    if next.contains(x) && x != id {
        let p = choose|p: int| 0 <= p < next.len() && next[p] == x;
        assert(list[p] == x);
    }
}

/// What is left to do when `stack` holds the nodes that are being walked, each
/// with the position of its next source.
spec fn unwound(dag: Seq<NodeView>, done: Seq<usize>, stack: Seq<(usize, usize)>) -> Seq<usize>
    decreases stack.len(),
{
    if stack.len() == 0 {
        done
    } else {
        let (id, k) = stack.last();
        unwound(dag, visit_from(dag, done, id, k as int).push(id), stack.drop_last())
    }
}

/// One node that is being walked: the sources before the next one are done,
/// but for the one that stands on the stack above it.
spec fn frame_ok(
    dag: Seq<NodeView>,
    done: Seq<usize>,
    frame: (usize, usize),
    above: Option<usize>,
) -> bool {
    let (id, k) = frame;
    let full = match above {
        Some(_) => k - 1,
        None => k as int,
    };
    &&& id < dag.len()
    &&& k <= dag[id as int].srcs.len()
    &&& !done.contains(id)
    &&& forall|j: int| 0 <= j < full ==> done.contains(#[trigger] dag[id as int].srcs[j])
    &&& above matches Some(src) ==> k > 0 && dag[id as int].srcs[k - 1] == src
}

spec fn frames_ok(dag: Seq<NodeView>, done: Seq<usize>, stack: Seq<(usize, usize)>) -> bool {
    &&& forall|f: int|
        0 <= f < stack.len() ==> frame_ok(
            dag,
            done,
            #[trigger] stack[f],
            if f + 1 < stack.len() {
                Some(stack[f + 1].0)
            } else {
                None
            },
        )
    &&& forall|f: int, g: int|
        0 <= f < g < stack.len() ==> (#[trigger] stack[f]).0 > (#[trigger] stack[g]).0
}

/// The next source of the topmost node is already done.
proof fn lemma_step_skip(dag: Seq<NodeView>, done: Seq<usize>, stack: Seq<(usize, usize)>)
    requires
        dag_wf(dag),
        frames_ok(dag, done, stack),
        stack.len() > 0,
        stack.last().1 < dag[stack.last().0 as int].srcs.len(),
        stack.last().1 < usize::MAX,
        done.contains(dag[stack.last().0 as int].srcs[stack.last().1 as int]),
    ensures
        ({
            let (id, k) = stack.last();
            let next = stack.drop_last().push((id, (k + 1) as usize));
            frames_ok(dag, done, next) && unwound(dag, done, next) == unwound(dag, done, stack)
        }),
{
    let (id, k) = stack.last();
    let next = stack.drop_last().push((id, (k + 1) as usize));
    assert(stack[stack.len() - 1] == (id, k));
    assert(dag[id as int].srcs[k as int] < id);
    assert(next.drop_last() =~= stack.drop_last());
    assert(visit(dag, done, dag[id as int].srcs[k as int]) == done);
    assert forall|f: int| 0 <= f < next.len() implies frame_ok(
        dag,
        done,
        #[trigger] next[f],
        if f + 1 < next.len() {
            Some(next[f + 1].0)
        } else {
            None
        },
    ) by {
        if f + 1 < next.len() {
            assert(next[f] == stack[f]);
            assert(next[f + 1].0 == stack[f + 1].0);
        } else {
            assert(frame_ok(dag, done, stack[f], None));
        }
    }
    assert forall|f: int, g: int| 0 <= f < g < next.len() implies (#[trigger] next[f]).0 > (
    #[trigger] next[g]).0 by {
        assert(stack[f].0 > stack[g].0);
    }
}

/// The next source of the topmost node is walked first.
proof fn lemma_step_push(dag: Seq<NodeView>, done: Seq<usize>, stack: Seq<(usize, usize)>)
    requires
        dag_wf(dag),
        frames_ok(dag, done, stack),
        stack.len() > 0,
        stack.last().1 < dag[stack.last().0 as int].srcs.len(),
        stack.last().1 < usize::MAX,
        !done.contains(dag[stack.last().0 as int].srcs[stack.last().1 as int]),
    ensures
        ({
            let (id, k) = stack.last();
            let src = dag[id as int].srcs[k as int];
            let next = stack.drop_last().push((id, (k + 1) as usize)).push((src, 0));
            frames_ok(dag, done, next) && unwound(dag, done, next) == unwound(dag, done, stack)
        }),
{
    let (id, k) = stack.last();
    let src = dag[id as int].srcs[k as int];
    let moved = stack.drop_last().push((id, (k + 1) as usize));
    let next = moved.push((src, 0usize));
    assert(stack[stack.len() - 1] == (id, k));
    assert(src < id);
    assert(next.drop_last() =~= moved);
    assert(moved.drop_last() =~= stack.drop_last());
    let inner = visit_from(dag, done, src, 0).push(src);
    assert(visit(dag, done, src) == inner);
    assert(unwound(dag, done, next) == unwound(dag, inner, moved));
    assert(unwound(dag, inner, moved) == unwound(
        dag,
        visit_from(dag, inner, id, k + 1).push(id),
        stack.drop_last(),
    ));
    assert(visit_from(dag, done, id, k as int) == visit_from(dag, inner, id, k + 1));
    assert forall|f: int| 0 <= f < next.len() implies frame_ok(
        dag,
        done,
        #[trigger] next[f],
        if f + 1 < next.len() {
            Some(next[f + 1].0)
        } else {
            None
        },
    ) by {
        if f + 2 < next.len() {
            assert(next[f] == stack[f]);
            assert(next[f + 1].0 == stack[f + 1].0);
        } else if f + 1 < next.len() {
            assert(frame_ok(dag, done, stack[f], None));
            assert(next[f] == (id, (k + 1) as usize));
            assert(next[f + 1] == (src, 0usize));
        }
    }
    assert forall|f: int, g: int| 0 <= f < g < next.len() implies (#[trigger] next[f]).0 > (
    #[trigger] next[g]).0 by {
        if g + 1 < next.len() {
            assert(stack[f].0 > stack[g].0);
        } else if f + 2 < next.len() {
            assert(stack[f].0 > stack[stack.len() - 1].0);
        }
    }
}

/// The topmost node has all its sources and follows them.
proof fn lemma_step_pop(dag: Seq<NodeView>, done: Seq<usize>, stack: Seq<(usize, usize)>)
    requires
        dag_wf(dag),
        ordered(dag, done),
        frames_ok(dag, done, stack),
        stack.len() > 0,
        stack.last().1 == dag[stack.last().0 as int].srcs.len(),
    ensures
        ({
            let next = done.push(stack.last().0);
            &&& ordered(dag, next)
            &&& next.len() <= dag.len()
            &&& frames_ok(dag, next, stack.drop_last())
            &&& unwound(dag, next, stack.drop_last()) == unwound(dag, done, stack)
        }),
{
    let (id, _k) = stack.last();
    let rest = stack.drop_last();
    let next = done.push(id);
    assert(frame_ok(dag, done, stack[stack.len() - 1], None));
    lemma_ordered_push(dag, done, id);
    lemma_distinct_len(next, dag.len());
    assert forall|f: int| 0 <= f < rest.len() implies frame_ok(
        dag,
        next,
        #[trigger] rest[f],
        if f + 1 < rest.len() {
            Some(rest[f + 1].0)
        } else {
            None
        },
    ) by {
        assert(rest[f] == stack[f]);
        assert(stack[f].0 > stack[stack.len() - 1].0);
        assert(frame_ok(dag, done, stack[f], Some(stack[f + 1].0)));
        lemma_push_contains(done, id, rest[f].0);
        assert forall|j: int| 0 <= j < rest[f].1 && done.contains(dag[rest[f].0 as int].srcs[j]) implies next.contains(
            #[trigger] dag[rest[f].0 as int].srcs[j],
        ) by {
            lemma_push_contains(done, id, dag[rest[f].0 as int].srcs[j]);
        }
        lemma_push_contains(done, id, id);
    }
}

impl Graph {
    /// The nodes at and below a root, every node behind its sources: sources
    /// are walked left to right, and a node follows the last of them.
    pub fn toposort(&self, root: usize) -> (list: Vec<usize>)
        requires
            self.wf(),
            root < self@.len(),
        ensures
            list@ == topo(self@, root),
            ordered(self@, list@),
            forall|x: usize| #[trigger] list@.contains(x) <==> reaches(self@, root, x),
            list@.len() > 0,
            list@.last() == root,
    {
        let ghost dag = self@;
        let mut done: Vec<usize> = Vec::new();
        let mut seen: Vec<bool> = Vec::new();
        let mut at: usize = 0;
        let len: usize = self.len();
        while at < len
            invariant
                at <= len,
                seen@.len() == at,
                forall|i: int| 0 <= i < at ==> !seen@[i],
            decreases len - at,
        {
            seen.push(false);
            at += 1;
        }
        let mut stack: Vec<(usize, usize)> = Vec::new();
        stack.push((root, 0));
        assert(ordered(dag, done@));
        assert(unwound(dag, done@, stack@) == topo(dag, root)) by {
            reveal_with_fuel(unwound, 2);
            assert(stack@.drop_last() =~= Seq::<(usize, usize)>::empty());
            assert(!done@.contains(root));
            assert(done@ =~= Seq::<usize>::empty());
        }
        while stack.len() > 0
            invariant
                self.wf(),
                dag == self@,
                len == dag.len(),
                root < dag.len(),
                seen@.len() == dag.len(),
                ordered(dag, done@),
                forall|i: usize|
                    #![trigger seen@[i as int]]
                    i < dag.len() ==> seen@[i as int] == done@.contains(i),
                frames_ok(dag, done@, stack@),
                unwound(dag, done@, stack@) == topo(dag, root),
            decreases
                    len - done@.len(),
                    if stack@.len() == 0 {
                        0
                    } else {
                        stack@.last().0 as int
                    },
                    if stack@.len() == 0 {
                        0
                    } else {
                        dag[stack@.last().0 as int].srcs.len() - stack@.last().1
                    },
        {
            let ghost before = stack@;
            let top: usize = stack.len() - 1;
            let (id, k) = stack[top];
            assert(frame_ok(dag, done@, stack@[top as int], None));
            let count: usize = self.source_count(id);
            if k < count {
                let src: usize = self.source(id, k);
                stack.set(top, (id, k + 1));
                assert(stack@ =~= before.drop_last().push((id, (k + 1) as usize)));
                if seen[src] {
                    proof {
                        lemma_step_skip(dag, done@, before);
                    }
                } else {
                    proof {
                        lemma_step_push(dag, done@, before);
                    }
                    stack.push((src, 0));
                }
            } else {
                proof {
                    lemma_step_pop(dag, done@, before);
                }
                let ghost walked = done@;
                stack.pop();
                done.push(id);
                seen.set(id, true);
                proof {
                    assert(stack@ =~= before.drop_last());
                    assert forall|i: usize|
                        #![trigger seen@[i as int]]
                        i < dag.len() implies seen@[i as int] == done@.contains(i) by {
                        lemma_push_contains(walked, id, i);
                    }
                }
            }
        }
        proof {
            lemma_topo(dag, root);
        }
        done
    }
}

/// One row of the reach table: what stands at and below a node.
pub open spec fn reach_row_ok(dag: Seq<NodeView>, id: usize, row: Seq<bool>) -> bool {
    &&& row.len() == dag.len()
    &&& forall|to: usize| to < dag.len() ==> #[trigger] row[to as int] == reaches(dag, id, to)
}

impl Graph {
    fn reach_row(&self, id: usize, rows: &Vec<Vec<bool>>) -> (row: Vec<bool>)
        requires
            self.wf(),
            id < self@.len(),
            id <= rows@.len(),
            forall|i: usize| i < id ==> reach_row_ok(self@, i, #[trigger] rows@[i as int]@),
        ensures
            reach_row_ok(self@, id, row@),
    {
        let ghost dag = self@;
        let len: usize = self.len();
        let count: usize = self.source_count(id);
        let mut row: Vec<bool> = Vec::new();
        let mut to: usize = 0;
        while to < len
            invariant
                self.wf(),
                dag == self@,
                len == dag.len(),
                id < dag.len(),
                id <= rows@.len(),
                count == dag[id as int].srcs.len(),
                forall|i: usize| i < id ==> reach_row_ok(dag, i, #[trigger] rows@[i as int]@),
                to <= len,
                row@.len() == to,
                forall|q: usize| q < to ==> #[trigger] row@[q as int] == reaches(dag, id, q),
            decreases len - to,
        {
            let mut found: bool = id == to;
            let mut k: usize = 0;
            while k < count
                invariant
                    self.wf(),
                    dag == self@,
                    len == dag.len(),
                    id < dag.len(),
                    to < len,
                    id <= rows@.len(),
                    count == dag[id as int].srcs.len(),
                    forall|i: usize| i < id ==> reach_row_ok(dag, i, #[trigger] rows@[i as int]@),
                    k <= count,
                    found == (id == to || exists|m: int|
                        #![trigger dag[id as int].srcs[m]]
                        0 <= m < k && dag[id as int].srcs[m] < id && reaches(
                            dag,
                            dag[id as int].srcs[m],
                            to,
                        )),
                decreases count - k,
            {
                let src: usize = self.source(id, k);
                assert(reach_row_ok(dag, src, rows@[src as int]@));
                assert(rows@[src as int]@[to as int] == reaches(dag, src, to));
                if rows[src][to] {
                    found = true;
                    assert(dag[id as int].srcs[k as int] == src);
                }
                k += 1;
            }
            row.push(found);
            to += 1;
        }
        row
    }

    /// For every node, what stands at and below it.
    pub fn reach(&self) -> (rows: Vec<Vec<bool>>)
        requires
            self.wf(),
        ensures
            rows@.len() == self@.len(),
            forall|i: usize| i < self@.len() ==> reach_row_ok(self@, i, #[trigger] rows@[i as int]@),
    {
        let mut rows: Vec<Vec<bool>> = Vec::new();
        let len: usize = self.len();
        let mut id: usize = 0;
        while id < len
            invariant
                self.wf(),
                len == self@.len(),
                id <= len,
                rows@.len() == id,
                forall|i: usize| i < id ==> reach_row_ok(self@, i, #[trigger] rows@[i as int]@),
            decreases len - id,
        {
            let row = self.reach_row(id, &rows);
            rows.push(row);
            id += 1;
        }
        rows
    }
}

} // verus!
