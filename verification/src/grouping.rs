//! What grouped reductions reduce: the parts that threads reduce on their own,
//! put together, are the whole.

use vstd::prelude::*;

use crate::builders::{lemma_interned_keeps, put};
use crate::graph::{
    arity_ok, dag_wf, lemma_interned_wf, AddrSpace, AxisType, NodeView, Op, ReduceOp, GROUP_LOOP,
};
use crate::group::{
    final_loop, final_loops, grouped_reduce, have_final_loops, is_loop_of, lemma_final_loops,
    lemma_sifted, reduce_node, sifted,
};
use crate::meaning::{is_leaf, lemma_arity, lemma_meaning, meaning};
use crate::passes::{extends, lemma_put};
use crate::reduce::{
    joined, lemma_tallied_same, range_size, reduction, step_at, steps, tallied,
};
use crate::registers::lemma_reduction_extends;
use crate::topo::{lemma_reaches_transitive, lemma_topo, reaches, topo};

verus! {

/// What two values are reduced to, where both are there.
pub open spec fn both_joined(op: ReduceOp, a: Option<int>, b: Option<int>) -> Option<int> {
    match (a, b) {
        (Some(x), Some(y)) => Some(joined(op, x, y)),
        _ => None,
    }
}

proof fn lemma_joined_four(op: ReduceOp, a: Option<int>, b: Option<int>, c: Option<int>, d: Option<
    int,
>)
    ensures
        both_joined(op, both_joined(op, a, b), both_joined(op, c, d)) == both_joined(
            op,
            both_joined(op, a, c),
            both_joined(op, b, d),
        ),
{
    if a is Some && b is Some && c is Some && d is Some {
        let (w, x, y, z) = (a->0, b->0, c->0, d->0);
        assert((w * x) * (y * z) == (w * y) * (x * z)) by (nonlinear_arith);
    }
}

proof fn lemma_tallied_pairs(
    op: ReduceOp,
    m: nat,
    f: spec_fn(int) -> Option<int>,
    g: spec_fn(int) -> Option<int>,
)
    ensures
        tallied(op, m, |j: int| both_joined(op, f(j), g(j))) == both_joined(
            op,
            tallied(op, m, f),
            tallied(op, m, g),
        ),
    decreases m,
{
    let h = |j: int| both_joined(op, f(j), g(j));
    if m == 0 {
        assert(1int * 1int == 1);
    } else if m == 1 && (op == ReduceOp::Max || op == ReduceOp::Min) {
        assert(h(0) == both_joined(op, f(0), g(0)));
    } else {
        lemma_tallied_pairs(op, (m - 1) as nat, f, g);
        assert(h(m - 1) == both_joined(op, f(m - 1), g(m - 1)));
        lemma_joined_four(
            op,
            tallied(op, (m - 1) as nat, f),
            tallied(op, (m - 1) as nat, g),
            f(m - 1),
            g(m - 1),
        );
    }
}

proof fn lemma_tallied_nothing(op: ReduceOp, m: nat, f: spec_fn(int) -> Option<int>)
    requires
        forall|j: int| 0 <= j < m ==> #[trigger] f(j) == tallied(op, 0, f),
    ensures
        tallied(op, m, f) == tallied(op, 0, f),
    decreases m,
{
    if m > 0 {
        assert(f(0) == tallied(op, 0, f));
        assert(f(m - 1) == tallied(op, 0, f));
        lemma_tallied_nothing(op, (m - 1) as nat, f);
        assert(1int * 1int == 1);
    }
}

/// Two loops can be reduced over in either order.
pub proof fn lemma_loops_can_be_swapped(
    op: ReduceOp,
    n: nat,
    m: nat,
    f: spec_fn(int, int) -> Option<int>,
)
    ensures
        tallied(op, n, |i: int| tallied(op, m, |j: int| f(i, j))) == tallied(
            op,
            m,
            |j: int| tallied(op, n, |i: int| f(i, j)),
        ),
    decreases n,
{
    let rows = |i: int| tallied(op, m, |j: int| f(i, j));
    let columns = |j: int| tallied(op, n, |i: int| f(i, j));
    if n == 0 {
        assert(tallied(op, 0, rows) == tallied(op, 0, columns));
        assert forall|j: int| 0 <= j < m implies #[trigger] columns(j) == tallied(
            op,
            0,
            columns,
        ) by {}
        lemma_tallied_nothing(op, m, columns);
    } else if n == 1 && (op == ReduceOp::Max || op == ReduceOp::Min) {
        let first = |j: int| f(0, j);
        assert(rows(0) == tallied(op, m, first));
        assert forall|j: int| 0 <= j < m implies #[trigger] columns(j) == first(j) by {
            let column = |i: int| f(i, j);
            assert(tallied(op, 1, column) == column(0));
        }
        lemma_tallied_same(op, m, columns, first);
    } else {
        lemma_loops_can_be_swapped(op, (n - 1) as nat, m, f);
        let fewer = |j: int| tallied(op, (n - 1) as nat, |i: int| f(i, j));
        let last = |j: int| f(n - 1, j);
        let both = |j: int| both_joined(op, fewer(j), last(j));
        lemma_tallied_pairs(op, m, fewer, last);
        assert forall|j: int| 0 <= j < m implies #[trigger] columns(j) == both(j) by {
            let column = |i: int| f(i, j);
            assert(columns(j) == tallied(op, n, column));
            assert(fewer(j) == tallied(op, (n - 1) as nat, column));
            assert(column(n - 1) == last(j));
        }
        lemma_tallied_same(op, m, columns, both);
        assert(rows(n - 1) == tallied(op, m, last));
    }
}

/// Whether loops take constant numbers of steps, and no two of them have one
/// counter.
pub open spec fn are_loops(dag: Seq<NodeView>, loops: Seq<usize>) -> bool {
    &&& forall|k: int|
        0 <= k < loops.len() ==> range_size(dag, #[trigger] loops[k]) is Some && range_size(
            dag,
            loops[k],
        )->0 >= 0
    &&& forall|i: int, k: int|
        0 <= i < k < loops.len() ==> dag[(#[trigger] loops[i]) as int].op != dag[(
        #[trigger] loops[k]) as int].op
}

/// A loop can be moved outside of others.
proof fn lemma_moved_outside(
    dag: Seq<NodeView>,
    op: ReduceOp,
    src: usize,
    inner: Seq<usize>,
    l: usize,
    outer: Seq<usize>,
    at: spec_fn(Op) -> int,
)
    requires
        range_size(dag, l) is Some,
        range_size(dag, l)->0 >= 0,
        forall|k: int|
            0 <= k < outer.len() ==> range_size(dag, #[trigger] outer[k]) is Some && range_size(
                dag,
                outer[k],
            )->0 >= 0 && dag[outer[k] as int].op != dag[l as int].op,
    ensures
        reduction(dag, op, src, inner.push(l) + outer, at) == reduction(
            dag,
            op,
            src,
            (inner + outer).push(l),
            at,
        ),
    decreases outer.len(),
{
    let before = inner.push(l) + outer;
    let after = (inner + outer).push(l);
    if outer.len() == 0 {
        assert(before =~= after);
    } else {
        let x = outer.last();
        let rest = outer.drop_last();
        assert(outer[outer.len() - 1] == x);
        assert(before.last() == x && after.last() == l);
        assert(before.drop_last() =~= inner.push(l) + rest);
        assert(after.drop_last() =~= inner + outer);
        let (n, m) = (range_size(dag, x)->0 as nat, range_size(dag, l)->0 as nat);
        let (ox, ol) = (dag[x as int].op, dag[l as int].op);
        let f = |i: int, j: int|
            reduction(dag, op, src, inner + rest, step_at(step_at(at, ox, i), ol, j));
        let rows = |i: int| tallied(op, m, |j: int| f(i, j));
        let columns = |j: int| tallied(op, n, |i: int| f(i, j));
        let first = steps(dag, op, src, before, at);
        let second = steps(dag, op, src, after, at);
        assert forall|k: int| 0 <= k < rest.len() implies range_size(dag, #[trigger] rest[k]) is
            Some && range_size(dag, rest[k])->0 >= 0 && dag[rest[k] as int].op
            != dag[l as int].op by {
            assert(rest[k] == outer[k]);
        }
        assert forall|i: int| 0 <= i < n implies #[trigger] first(i) == rows(i) by {
            let now = step_at(at, ox, i);
            lemma_moved_outside(dag, op, src, inner, l, rest, now);
            let moved = (inner + rest).push(l);
            assert(moved.drop_last() =~= inner + rest);
            assert(moved.last() == l);
            let own = steps(dag, op, src, moved, now);
            let row = |j: int| f(i, j);
            assert forall|j: int| 0 <= j < m implies #[trigger] own(j) == row(j) by {}
            lemma_tallied_same(op, m, own, row);
        }
        lemma_tallied_same(op, n, first, rows);
        lemma_loops_can_be_swapped(op, n, m, f);
        assert forall|j: int| 0 <= j < m implies #[trigger] second(j) == columns(j) by {
            let now = step_at(at, ol, j);
            let list = inner + outer;
            assert(list.last() == x);
            assert(list.drop_last() =~= inner + rest);
            let own = steps(dag, op, src, list, now);
            let column = |i: int| f(i, j);
            assert forall|i: int| 0 <= i < n implies #[trigger] own(i) == column(i) by {
                assert(step_at(now, ox, i) =~= step_at(step_at(at, ox, i), ol, j));
            }
            lemma_tallied_same(op, n, own, column);
        }
        lemma_tallied_same(op, m, second, columns);
    }
}

/// Reducing over the loops of a kind last changes nothing.
proof fn lemma_sifted_reduction(
    dag: Seq<NodeView>,
    op: ReduceOp,
    src: usize,
    loops: Seq<usize>,
    kind: AxisType,
    n: nat,
    at: spec_fn(Op) -> int,
)
    requires
        n <= loops.len(),
        are_loops(dag, loops),
    ensures
        reduction(
            dag,
            op,
            src,
            sifted(dag, loops, kind, false, n) + sifted(dag, loops, kind, true, n),
            at,
        ) == reduction(dag, op, src, loops.take(n as int), at),
    decreases n,
{
    let others = sifted(dag, loops, kind, false, n);
    let grouped = sifted(dag, loops, kind, true, n);
    if n == 0 {
        assert(others + grouped =~= loops.take(0));
    } else {
        let l = loops[n - 1];
        let had = sifted(dag, loops, kind, false, (n - 1) as nat);
        let took = sifted(dag, loops, kind, true, (n - 1) as nat);
        let all = loops.take(n as int);
        assert(all.last() == l);
        assert(all.drop_last() =~= loops.take(n - 1));
        let size = range_size(dag, l)->0 as nat;
        let list = (had + took).push(l);
        assert(list.last() == l && list.drop_last() =~= had + took);
        let f = steps(dag, op, src, list, at);
        let g = steps(dag, op, src, all, at);
        assert forall|i: int| 0 <= i < size implies #[trigger] f(i) == g(i) by {
            lemma_sifted_reduction(
                dag,
                op,
                src,
                loops,
                kind,
                (n - 1) as nat,
                step_at(at, dag[l as int].op, i),
            );
        }
        lemma_tallied_same(op, size, f, g);
        assert(reduction(dag, op, src, list, at) == reduction(dag, op, src, all, at));
        if is_loop_of(dag, l, kind) {
            assert(others + grouped =~= list);
        } else {
            assert(others + grouped =~= had.push(l) + took);
            assert forall|k: int| 0 <= k < took.len() implies range_size(
                dag,
                #[trigger] took[k],
            ) is Some && range_size(dag, took[k])->0 >= 0 && dag[took[k] as int].op
                != dag[l as int].op by {
                lemma_sifted_before(dag, loops, kind, true, (n - 1) as nat, k);
                let j = choose|j: int| 0 <= j < n - 1 && #[trigger] loops[j] == took[k];
                assert(dag[loops[j] as int].op != dag[loops[n - 1] as int].op);
            }
            lemma_moved_outside(dag, op, src, had, l, took, at);
        }
    }
}

proof fn lemma_sifted_before(
    dag: Seq<NodeView>,
    list: Seq<usize>,
    kind: AxisType,
    keep: bool,
    n: nat,
    k: int,
)
    requires
        n <= list.len(),
        0 <= k < sifted(dag, list, kind, keep, n).len(),
    ensures
        exists|j: int| 0 <= j < n && #[trigger] list[j] == sifted(dag, list, kind, keep, n)[k],
    decreases n,
{
    if n > 0 {
        let rest = sifted(dag, list, kind, keep, (n - 1) as nat);
        if k < rest.len() {
            lemma_sifted_before(dag, list, kind, keep, (n - 1) as nat, k);
            let j = choose|j: int| 0 <= j < n - 1 && #[trigger] list[j] == rest[k];
            assert(list[j] == sifted(dag, list, kind, keep, n)[k]);
        } else {
            assert(list[n - 1] == sifted(dag, list, kind, keep, n)[k]);
        }
    }
}

/// What a value that depends on the counters is reduced to over loops.
pub open spec fn tally_over(
    dag: Seq<NodeView>,
    op: ReduceOp,
    loops: Seq<usize>,
    f: spec_fn(spec_fn(Op) -> int) -> Option<int>,
    at: spec_fn(Op) -> int,
) -> Option<int>
    decreases loops.len(), 1int,
{
    if loops.len() == 0 {
        f(at)
    } else {
        match range_size(dag, loops.last()) {
            Some(n) => if n >= 0 {
                tallied(op, n as nat, tally_steps(dag, op, loops, f, at))
            } else {
                None
            },
            None => None,
        }
    }
}

/// What such a value is reduced to at each step of the outermost loop.
pub open spec fn tally_steps(
    dag: Seq<NodeView>,
    op: ReduceOp,
    loops: Seq<usize>,
    f: spec_fn(spec_fn(Op) -> int) -> Option<int>,
    at: spec_fn(Op) -> int,
) -> spec_fn(int) -> Option<int>
    decreases loops.len(), 0int,
{
    if loops.len() == 0 {
        |i: int| None
    } else {
        |i: int|
            tally_over(
                dag,
                op,
                loops.drop_last(),
                f,
                step_at(at, dag[loops.last() as int].op, i),
            )
    }
}

/// A reduction as a value that depends on the counters.
spec fn reduced(dag: Seq<NodeView>, op: ReduceOp, src: usize, loops: Seq<usize>) -> spec_fn(
    spec_fn(Op) -> int,
) -> Option<int> {
    |a: spec_fn(Op) -> int| reduction(dag, op, src, loops, a)
}

/// The counters where storage is read: each axis that a value was stored along
/// has the number that it is read at.
pub open spec fn counters_at(
    dag: Seq<NodeView>,
    axes: Seq<usize>,
    places: Seq<usize>,
    n: nat,
    at: spec_fn(Op) -> int,
) -> spec_fn(Op) -> int
    decreases n,
{
    if n == 0 {
        at
    } else {
        step_at(
            counters_at(dag, axes, places, (n - 1) as nat, at),
            dag[axes[n - 1] as int].op,
            meaning(dag, places[n - 1], at)->0,
        )
    }
}

/// What is read out of storage that a reduction was stored in along some axes:
/// the reduction, at the counters that the place of the read stands for.
pub open spec fn read_back(
    dag: Seq<NodeView>,
    op: ReduceOp,
    read: usize,
    at: spec_fn(Op) -> int,
) -> Option<int> {
    let places = dag[read as int].srcs.skip(1);
    let stage = dag[dag[read as int].srcs[0] as int];
    let axes = stage.srcs.skip(1);
    let partial = dag[stage.srcs[0] as int];
    reduction(
        dag,
        op,
        partial.srcs[0],
        partial.srcs.skip(1),
        counters_at(dag, axes, places, axes.len(), at),
    )
}

/// What a node means does not depend on counters that it does not read.
proof fn lemma_meaning_agrees(
    dag: Seq<NodeView>,
    id: usize,
    at: spec_fn(Op) -> int,
    then: spec_fn(Op) -> int,
)
    requires
        dag_wf(dag),
        id < dag.len(),
        forall|x: usize|
            reaches(dag, id, x) && is_leaf(dag[x as int].op) ==> at(
                (#[trigger] dag[x as int]).op,
            ) == then(dag[x as int].op),
    ensures
        meaning(dag, id, at) == meaning(dag, id, then),
    decreases id,
{
    let node = dag[id as int];
    lemma_arity(dag, id);
    lemma_meaning(dag, id, at);
    lemma_meaning(dag, id, then);
    assert(reaches(dag, id, id));
    assert(is_leaf(node.op) ==> at(dag[id as int].op) == then(dag[id as int].op));
    assert forall|k: int| 0 <= k < node.srcs.len() implies meaning(
        dag,
        #[trigger] node.srcs[k],
        at,
    ) == meaning(dag, node.srcs[k], then) by {
        let src = node.srcs[k];
        assert(dag[id as int].srcs[k] < id);
        assert(reaches(dag, src, src));
        assert(reaches(dag, id, src));
        assert forall|x: usize|
            reaches(dag, src, x) && is_leaf(dag[x as int].op) implies at(
            (#[trigger] dag[x as int]).op,
        ) == then(dag[x as int].op) by {
            lemma_reaches_transitive(dag, id, src, x);
        }
        lemma_meaning_agrees(dag, src, at, then);
    }
    if node.srcs.len() > 0 {
        assert(meaning(dag, node.srcs[0], at) == meaning(dag, node.srcs[0], then));
    }
    if node.srcs.len() > 1 {
        assert(meaning(dag, node.srcs[1], at) == meaning(dag, node.srcs[1], then));
    }
    if node.srcs.len() > 2 {
        assert(meaning(dag, node.srcs[2], at) == meaning(dag, node.srcs[2], then));
    }
}

proof fn lemma_reduction_agrees(
    dag: Seq<NodeView>,
    op: ReduceOp,
    src: usize,
    loops: Seq<usize>,
    at: spec_fn(Op) -> int,
    then: spec_fn(Op) -> int,
)
    requires
        dag_wf(dag),
        src < dag.len(),
        forall|x: usize|
            reaches(dag, src, x) && is_leaf(dag[x as int].op) ==> at(
                (#[trigger] dag[x as int]).op,
            ) == then(dag[x as int].op),
    ensures
        reduction(dag, op, src, loops, at) == reduction(dag, op, src, loops, then),
    decreases loops.len(),
{
    if loops.len() == 0 {
        lemma_meaning_agrees(dag, src, at, then);
    } else {
        match range_size(dag, loops.last()) {
            Some(n) => {
                if n >= 0 {
                    let f = steps(dag, op, src, loops, at);
                    let g = steps(dag, op, src, loops, then);
                    assert forall|i: int| 0 <= i < n implies #[trigger] f(i) == g(i) by {
                        let axis = dag[loops.last() as int].op;
                        lemma_reduction_agrees(
                            dag,
                            op,
                            src,
                            loops.drop_last(),
                            step_at(at, axis, i),
                            step_at(then, axis, i),
                        );
                    }
                    lemma_tallied_same(op, n as nat, f, g);
                }
            },
            None => {},
        }
    }
}

/// Reducing over some loops what is reduced over others reduces over all.
proof fn lemma_tally_reduction(
    dag: Seq<NodeView>,
    op: ReduceOp,
    src: usize,
    inner: Seq<usize>,
    outer: Seq<usize>,
    at: spec_fn(Op) -> int,
)
    ensures
        tally_over(dag, op, outer, reduced(dag, op, src, inner), at) == reduction(
            dag,
            op,
            src,
            inner + outer,
            at,
        ),
    decreases outer.len(),
{
    let value = reduced(dag, op, src, inner);
    let all = inner + outer;
    if outer.len() == 0 {
        assert(all =~= inner);
    } else {
        assert(all.last() == outer.last());
        assert(all.drop_last() =~= inner + outer.drop_last());
        match range_size(dag, outer.last()) {
            Some(n) => {
                if n >= 0 {
                    let axis = dag[outer.last() as int].op;
                    let f = tally_steps(dag, op, outer, value, at);
                    let g = steps(dag, op, src, all, at);
                    assert forall|i: int| 0 <= i < n implies #[trigger] f(i) == g(i) by {
                        lemma_tally_reduction(
                            dag,
                            op,
                            src,
                            inner,
                            outer.drop_last(),
                            step_at(at, axis, i),
                        );
                    }
                    lemma_tallied_same(op, n as nat, f, g);
                }
            },
            None => {},
        }
    }
}

/// What is read at a place, as a value that depends on the counters.
pub open spec fn read_values(dag: Seq<NodeView>, op: ReduceOp, read: usize) -> spec_fn(
    spec_fn(Op) -> int,
) -> Option<int> {
    |a: spec_fn(Op) -> int| read_back(dag, op, read, a)
}

proof fn lemma_counters_at(
    dag: Seq<NodeView>,
    locals: Seq<usize>,
    grouped: Seq<usize>,
    ends: Seq<usize>,
    n: nat,
    at: spec_fn(Op) -> int,
)
    requires
        dag_wf(dag),
        grouped.len() == ends.len(),
        n <= locals.len() + grouped.len(),
        forall|k: int|
            0 <= k < locals.len() ==> (#[trigger] locals[k]) < dag.len()
                && dag[locals[k] as int].op is Range,
        forall|k: int|
            0 <= k < ends.len() ==> (#[trigger] ends[k]) < dag.len() && dag[ends[k] as int].op is
                Range,
        forall|i: int, k: int|
            0 <= i < k < grouped.len() ==> dag[(#[trigger] grouped[i]) as int].op != dag[(
            #[trigger] grouped[k]) as int].op,
    ensures
        ({
            let now = counters_at(dag, locals + grouped, locals + ends, n, at);
            &&& forall|k: int|
                0 <= k < grouped.len() && k < n - locals.len() ==> now(
                    dag[(#[trigger] grouped[k]) as int].op,
                ) == at(dag[ends[k] as int].op)
            &&& forall|o: Op|
                (forall|k: int|
                    0 <= k < grouped.len() && k < n - locals.len() ==> dag[(
                    #[trigger] grouped[k]) as int].op != o) ==> #[trigger] now(o) == at(o)
        }),
    decreases n,
{
    let axes = locals + grouped;
    let places = locals + ends;
    if n > 0 {
        lemma_counters_at(dag, locals, grouped, ends, (n - 1) as nat, at);
        let had = counters_at(dag, axes, places, (n - 1) as nat, at);
        let now = counters_at(dag, axes, places, n, at);
        if n <= locals.len() {
            let l = locals[n - 1];
            assert(axes[n - 1] == l && places[n - 1] == l);
            lemma_meaning(dag, l, at);
            assert forall|o: Op| #[trigger] now(o) == at(o) by {
                assert(had(o) == at(o));
            }
        } else {
            let g = n - 1 - locals.len();
            assert(axes[n - 1] == grouped[g] && places[n - 1] == ends[g]);
            lemma_meaning(dag, ends[g], at);
            assert forall|k: int| 0 <= k < grouped.len() && k < n - locals.len() implies now(
                dag[(#[trigger] grouped[k]) as int].op,
            ) == at(dag[ends[k] as int].op) by {
                if k < g {
                    assert(dag[grouped[k] as int].op != dag[grouped[g] as int].op);
                }
            }
            assert forall|o: Op|
                (forall|k: int|
                    0 <= k < grouped.len() && k < n - locals.len() ==> dag[(
                    #[trigger] grouped[k]) as int].op != o) implies #[trigger] now(o) == at(o) by {
                assert(dag[grouped[g] as int].op != o);
                assert(had(o) == at(o));
            }
        }
    }
}

/// The loops of a kind, the final ones of others, and what is reduced.
struct Renamed {
    dag: Seq<NodeView>,
    src: usize,
    others: Seq<usize>,
    locals: Seq<usize>,
    grouped: Seq<usize>,
    ends: Seq<usize>,
    read: usize,
}

spec fn is_renamed(r: Renamed) -> bool {
    let dag = r.dag;
    &&& dag_wf(dag)
    &&& r.src < dag.len()
    &&& r.grouped.len() == r.ends.len()
    &&& forall|k: int|
        0 <= k < r.locals.len() ==> (#[trigger] r.locals[k]) < dag.len()
            && dag[r.locals[k] as int].op is Range
    &&& forall|k: int|
        0 <= k < r.ends.len() ==> {
            &&& (#[trigger] r.ends[k]) < dag.len()
            &&& dag[r.ends[k] as int].op is Range
            &&& range_size(dag, r.ends[k]) == range_size(dag, r.grouped[k])
            &&& !is_loop_of(dag, r.ends[k], AxisType::GroupReduce)
            &&& forall|x: usize|
                reaches(dag, r.src, x) ==> (#[trigger] dag[x as int]).op != dag[r.ends[k] as int].op
        }
    &&& forall|k: int|
        0 <= k < r.grouped.len() ==> is_loop_of(
            dag,
            #[trigger] r.grouped[k],
            AxisType::GroupReduce,
        )
    &&& forall|i: int, k: int|
        0 <= i < k < r.grouped.len() ==> dag[(#[trigger] r.grouped[i]) as int].op != dag[(
        #[trigger] r.grouped[k]) as int].op
    &&& forall|i: int, k: int|
        0 <= i < k < r.ends.len() ==> dag[(#[trigger] r.ends[i]) as int].op != dag[(
        #[trigger] r.ends[k]) as int].op
    &&& dag[r.read as int].srcs.skip(1) == r.locals + r.ends
    &&& dag[dag[r.read as int].srcs[0] as int].srcs.skip(1) == r.locals + r.grouped
    &&& dag[dag[dag[r.read as int].srcs[0] as int].srcs[0] as int].srcs[0] == r.src
    &&& dag[dag[dag[r.read as int].srcs[0] as int].srcs[0] as int].srcs.skip(1) == r.others
}

/// Whether two assignments agree but for the counters of final loops, and the
/// grouped ones from `n` on have in one the numbers that the final ones have in
/// the other.
spec fn are_renamed(
    r: Renamed,
    n: nat,
    at: spec_fn(Op) -> int,
    then: spec_fn(Op) -> int,
) -> bool {
    &&& forall|k: int|
        n <= k < r.grouped.len() ==> then(r.dag[(#[trigger] r.grouped[k]) as int].op) == at(
            r.dag[r.ends[k] as int].op,
        )
    &&& forall|o: Op|
        (forall|k: int| 0 <= k < r.grouped.len() ==> r.dag[(#[trigger] r.grouped[k]) as int].op != o)
            && (forall|k: int| 0 <= k < r.ends.len() ==> r.dag[(#[trigger] r.ends[k]) as int].op
            != o) ==> #[trigger] then(o) == at(o)
}

proof fn lemma_renamed(
    r: Renamed,
    op: ReduceOp,
    n: nat,
    at: spec_fn(Op) -> int,
    then: spec_fn(Op) -> int,
)
    requires
        is_renamed(r),
        n <= r.ends.len(),
        are_renamed(r, n, at, then),
    ensures
        tally_over(r.dag, op, r.ends.take(n as int), read_values(r.dag, op, r.read), at)
            == tally_over(
            r.dag,
            op,
            r.grouped.take(n as int),
            reduced(r.dag, op, r.src, r.others),
            then,
        ),
    decreases n,
{
    let dag = r.dag;
    let reads = read_values(dag, op, r.read);
    let values = reduced(dag, op, r.src, r.others);
    let left = r.ends.take(n as int);
    let right = r.grouped.take(n as int);
    if n == 0 {
        let all = r.locals + r.grouped;
        lemma_counters_at(dag, r.locals, r.grouped, r.ends, all.len(), at);
        let now = counters_at(dag, all, r.locals + r.ends, all.len(), at);
        assert(reads(at) == reduction(dag, op, r.src, r.others, now));
        assert forall|x: usize|
            reaches(dag, r.src, x) && is_leaf(dag[x as int].op) implies now(
            (#[trigger] dag[x as int]).op,
        ) == then(dag[x as int].op) by {
            let o = dag[x as int].op;
            assert forall|k: int| 0 <= k < r.ends.len() implies dag[(
            #[trigger] r.ends[k]) as int].op != o by {
                assert(reaches(dag, r.src, x) ==> dag[x as int].op != dag[r.ends[k] as int].op);
            }
            if exists|k: int| 0 <= k < r.grouped.len() && dag[(#[trigger] r.grouped[k]) as int].op
                == o {
                let k = choose|k: int|
                    0 <= k < r.grouped.len() && dag[(#[trigger] r.grouped[k]) as int].op == o;
                assert(now(dag[r.grouped[k] as int].op) == at(dag[r.ends[k] as int].op));
                assert(then(dag[r.grouped[k] as int].op) == at(dag[r.ends[k] as int].op));
            } else {
                assert(now(o) == at(o));
                assert(then(o) == at(o));
            }
        }
        lemma_reduction_agrees(dag, op, r.src, r.others, now, then);
    } else {
        let e = r.ends[n - 1];
        let g = r.grouped[n - 1];
        assert(left.last() == e && right.last() == g);
        assert(left.drop_last() =~= r.ends.take(n - 1));
        assert(right.drop_last() =~= r.grouped.take(n - 1));
        assert(range_size(dag, e) == range_size(dag, g));
        match range_size(dag, e) {
            Some(size) => {
                if size >= 0 {
                    let f = tally_steps(dag, op, left, reads, at);
                    let h = tally_steps(dag, op, right, values, then);
                    assert forall|i: int| 0 <= i < size implies #[trigger] f(i) == h(i) by {
                        let a = step_at(at, dag[e as int].op, i);
                        let c = step_at(then, dag[g as int].op, i);
                        assert(is_loop_of(dag, g, AxisType::GroupReduce));
                        assert forall|k: int| n - 1 <= k < r.grouped.len() implies c(
                            dag[(#[trigger] r.grouped[k]) as int].op,
                        ) == a(dag[r.ends[k] as int].op) by {
                            if k > n - 1 {
                                assert(dag[r.grouped[n - 1] as int].op
                                    != dag[r.grouped[k] as int].op);
                                assert(dag[r.ends[n - 1] as int].op != dag[r.ends[k] as int].op);
                                assert(then(dag[r.grouped[k] as int].op) == at(
                                    dag[r.ends[k] as int].op,
                                ));
                            }
                        }
                        assert forall|o: Op|
                            (forall|k: int|
                                0 <= k < r.grouped.len() ==> dag[(
                                #[trigger] r.grouped[k]) as int].op != o) && (forall|k: int|
                                0 <= k < r.ends.len() ==> dag[(#[trigger] r.ends[k]) as int].op
                                    != o) implies #[trigger] c(o) == a(o) by {
                            assert(dag[r.grouped[n - 1] as int].op != o);
                            assert(dag[r.ends[n - 1] as int].op != o);
                            assert(then(o) == at(o));
                        }
                        assert(are_renamed(r, (n - 1) as nat, a, c));
                        lemma_renamed(r, op, (n - 1) as nat, a, c);
                    }
                    lemma_tallied_same(op, size as nat, f, h);
                }
            },
            None => {},
        }
    }
}

/// Whether a node is the loop that puts the parts of a grouped one together: as
/// long, waiting for the same, over an axis of its own.
pub open spec fn is_final(dag: Seq<NodeView>, g: usize, more: Seq<NodeView>, e: usize) -> bool {
    let own = more[e as int];
    &&& dag[g as int].op matches Op::Range { axis, .. } && own.op matches Op::Range {
        axis: other,
        kind: AxisType::Reduce,
    } && axis.part(GROUP_LOOP) == Some(other)
    &&& own.dtype == dag[g as int].dtype
    &&& own.srcs == dag[g as int].srcs
}

/// A grouped reduction in parts: what is reduced on its own and kept in shared
/// memory, where it is kept, and where it is read from there.
pub struct Staged {
    pub partial: usize,
    pub stage: usize,
    pub read: usize,
    /// The local loops, the grouped ones and the final ones.
    pub locals: Seq<usize>,
    pub grouped: Seq<usize>,
    pub ends: Seq<usize>,
}

/// Whether a node puts together the parts of a reduction: the reduction over all
/// loops that are not grouped is kept along the local loops and the grouped
/// ones, read along the local loops and the final ones, and reduced over those.
pub open spec fn is_staged(
    more: Seq<NodeView>,
    new: usize,
    dag: Seq<NodeView>,
    id: usize,
    s: Staged,
) -> bool {
    let node = dag[id as int];
    let loops = node.srcs.skip(1);
    let others = more[s.partial as int].srcs.skip(1);
    &&& more[new as int].op == node.op
    &&& more[new as int].dtype == node.dtype
    &&& more[new as int].srcs == seq![s.read] + s.ends
    &&& more[s.read as int].op is Index
    &&& more[s.read as int].dtype == node.dtype
    &&& more[s.read as int].srcs == seq![s.stage] + (s.locals + s.ends)
    &&& more[s.stage as int].op matches Op::Stage { space: AddrSpace::Local, .. }
    &&& more[s.stage as int].dtype == node.dtype
    &&& more[s.stage as int].srcs == seq![s.partial] + (s.locals + s.grouped)
    &&& more[s.partial as int].op == node.op
    &&& more[s.partial as int].dtype == node.dtype
    &&& more[s.partial as int].srcs.len() > 0
    &&& more[s.partial as int].srcs[0] == node.srcs[0]
    &&& others.to_multiset().add(s.grouped.to_multiset()) == loops.to_multiset()
    &&& forall|k: int|
        0 <= k < others.len() ==> !is_loop_of(dag, #[trigger] others[k], AxisType::GroupReduce)
    &&& forall|k: int|
        0 <= k < s.grouped.len() ==> is_loop_of(
            dag,
            #[trigger] s.grouped[k],
            AxisType::GroupReduce,
        )
    &&& s.ends.len() == s.grouped.len()
    &&& forall|k: int| 0 <= k < s.ends.len() ==> is_final(dag, s.grouped[k], more, #[trigger] s.ends[k])
    &&& forall|x: usize| #[trigger]
        s.locals.contains(x) <==> reaches(dag, id, x) && is_loop_of(dag, x, AxisType::Local)
}

/// Whether a value reads no counter of a loop that puts parts together.
pub open spec fn reads_no_final(dag: Seq<NodeView>, value: usize, g: usize) -> bool {
    forall|x: usize|
        reaches(dag, value, x) ==> !((#[trigger] dag[x as int]).op matches Op::Range {
            axis: other,
            kind: AxisType::Reduce,
        } && dag[g as int].op matches Op::Range { axis, .. } && axis.part(GROUP_LOOP) == Some(other))
}

proof fn lemma_sifted_all(
    dag: Seq<NodeView>,
    list: Seq<usize>,
    kind: AxisType,
    keep: bool,
    n: nat,
    x: usize,
)
    requires
        n <= list.len(),
    ensures
        sifted(dag, list, kind, keep, n).contains(x) <==> list.take(n as int).contains(x) && (
        is_loop_of(dag, x, kind) == keep),
    decreases n,
{
    if n > 0 {
        lemma_sifted_all(dag, list, kind, keep, (n - 1) as nat, x);
        let rest = sifted(dag, list, kind, keep, (n - 1) as nat);
        assert(list.take(n as int) =~= list.take(n - 1).push(list[n - 1]));
        crate::topo::lemma_push_contains(list.take(n - 1), list[n - 1], x);
        crate::topo::lemma_push_contains(rest, list[n - 1], x);
    }
}

proof fn lemma_sifted_multisets(dag: Seq<NodeView>, list: Seq<usize>, kind: AxisType, n: nat)
    requires
        n <= list.len(),
    ensures
        sifted(dag, list, kind, false, n).to_multiset().add(
            sifted(dag, list, kind, true, n).to_multiset(),
        ) =~= list.take(n as int).to_multiset(),
    decreases n,
{
    let others = sifted(dag, list, kind, false, n);
    let grouped = sifted(dag, list, kind, true, n);
    if n == 0 {
        assert(others =~= Seq::<usize>::empty());
        assert(grouped =~= Seq::<usize>::empty());
        assert(list.take(0) =~= Seq::<usize>::empty());
        Seq::<usize>::empty().to_multiset_ensures();
        assert(Seq::<usize>::empty().to_multiset().len() == 0);
        assert(Seq::<usize>::empty().to_multiset() =~= vstd::multiset::Multiset::empty());
    } else {
        lemma_sifted_multisets(dag, list, kind, (n - 1) as nat);
        let had = sifted(dag, list, kind, false, (n - 1) as nat);
        let took = sifted(dag, list, kind, true, (n - 1) as nat);
        assert(list.take(n as int) =~= list.take(n - 1).push(list[n - 1]));
        list.take(n - 1).to_multiset_ensures();
        had.to_multiset_ensures();
        took.to_multiset_ensures();
    }
}

proof fn lemma_final_is_own(a: NodeView, b: NodeView)
    requires
        a.op is Range,
        b.op is Range,
        final_loop(a) is Some,
        final_loop(b) is Some,
        a.op->kind == b.op->kind,
        a.op != b.op,
    ensures
        final_loop(a)->0.op != final_loop(b)->0.op,
{
}

proof fn lemma_put_node(dag: Seq<NodeView>, node: NodeView)
    requires
        dag_wf(dag),
        arity_ok(node.op, node.srcs.len()),
        forall|k: int| 0 <= k < node.srcs.len() ==> (#[trigger] node.srcs[k]) < dag.len(),
        put(dag, node).dag.len() <= usize::MAX,
    ensures
        dag_wf(put(dag, node).dag),
        extends(dag, put(dag, node).dag),
        put(dag, node).id < put(dag, node).dag.len(),
        put(dag, node).dag[put(dag, node).id as int] == node,
{
    lemma_interned_keeps(dag, node);
    lemma_interned_wf(dag, node);
    lemma_put(dag, node);
}

proof fn lemma_final_loops_wf(dag: Seq<NodeView>, list: Seq<usize>, n: nat)
    requires
        dag_wf(dag),
        n <= list.len(),
        forall|k: int| 0 <= k < list.len() ==> (#[trigger] list[k]) < dag.len(),
        have_final_loops(dag, list, list.len()),
        final_loops(dag, list, n).dag.len() <= usize::MAX,
    ensures
        dag_wf(final_loops(dag, list, n).dag),
        dag.len() <= final_loops(dag, list, n).dag.len(),
    decreases n,
{
    if n > 0 {
        let rest = final_loops(dag, list, (n - 1) as nat);
        assert(final_loop(dag[list[n - 1] as int]) is Some);
        let node = final_loop(dag[list[n - 1] as int])->0;
        lemma_interned_keeps(rest.dag, node);
        lemma_final_loops_wf(dag, list, (n - 1) as nat);
        lemma_final_loops(dag, list, (n - 1) as nat);
        lemma_arity(dag, list[n - 1]);
        assert forall|k: int| 0 <= k < node.srcs.len() implies (#[trigger] node.srcs[k])
            < rest.dag.len() by {
            assert(dag[list[n - 1] as int].srcs[k] < list[n - 1]);
        }
        lemma_put_node(rest.dag, node);
    }
}

proof fn lemma_listed_below(first: usize, more: Seq<usize>, last: Seq<usize>, n: nat)
    requires
        first < n,
        forall|k: int| 0 <= k < more.len() ==> (#[trigger] more[k]) < n,
        forall|k: int| 0 <= k < last.len() ==> (#[trigger] last[k]) < n,
    ensures
        forall|k: int|
            0 <= k < (seq![first] + more + last).len() ==> (#[trigger] (seq![first] + more + last)[k])
                < n,
        seq![first] + more + last == seq![first] + (more + last),
        (seq![first] + more + last).skip(1) == more + last,
{
    let all = seq![first] + more + last;
    assert forall|k: int| 0 <= k < all.len() implies (#[trigger] all[k]) < n by {
        if 0 < k <= more.len() {
            assert(all[k] == more[k - 1]);
        } else if k > 0 {
            assert(all[k] == last[k - 1 - more.len()]);
        }
    }
    assert(all =~= seq![first] + (more + last));
    assert(all.skip(1) =~= more + last);
}

/// What a grouped reduction is made of.
#[verifier::rlimit(60)]
#[verifier::spinoff_prover]
proof fn lemma_staged(dag: Seq<NodeView>, id: usize) -> (s: Staged)
    requires
        dag_wf(dag),
        id < dag.len() <= usize::MAX,
        grouped_reduce(dag, id) is Some,
        grouped_reduce(dag, id)->0.dag.len() <= usize::MAX,
    ensures
        ({
            let new = grouped_reduce(dag, id)->0;
            let loops = dag[id as int].srcs.skip(1);
            &&& dag_wf(new.dag)
            &&& extends(dag, new.dag)
            &&& is_staged(new.dag, new.id, dag, id, s)
            &&& s.grouped == sifted(dag, loops, AxisType::GroupReduce, true, loops.len())
            &&& new.dag[s.partial as int].srcs.skip(1) == sifted(
                dag,
                loops,
                AxisType::GroupReduce,
                false,
                loops.len(),
            )
            &&& forall|k: int| 0 <= k < s.ends.len() ==> (#[trigger] s.ends[k]) < new.dag.len()
            &&& forall|k: int| 0 <= k < s.locals.len() ==> (#[trigger] s.locals[k]) < dag.len()
            &&& forall|k: int| 0 <= k < s.grouped.len() ==> (#[trigger] s.grouped[k]) < dag.len()
        }),
{
    let node = dag[id as int];
    let loops = node.srcs.skip(1);
    let kind = AxisType::GroupReduce;
    let grouped = sifted(dag, loops, kind, true, loops.len());
    let others = sifted(dag, loops, kind, false, loops.len());
    let walk = topo(dag, id);
    let locals = sifted(dag, walk, AxisType::Local, true, walk.len());
    let first = reduce_node(node, node.srcs[0], others);
    let partial = put(dag, first);
    let ends = final_loops(partial.dag, grouped, grouped.len());
    let kept = NodeView {
        op: Op::Stage { space: AddrSpace::Local, removable: true },
        dtype: node.dtype,
        srcs: seq![partial.id] + locals + grouped,
    };
    let stage = put(ends.dag, kept);
    let at = NodeView {
        op: Op::Index,
        dtype: node.dtype,
        srcs: seq![stage.id] + locals + ends.srcs,
    };
    let read = put(stage.dag, at);
    let last = reduce_node(node, read.id, ends.srcs);
    let new = put(read.dag, last);
    assert(grouped_reduce(dag, id) == Some(new));
    lemma_arity(dag, id);
    assert(dag[id as int].srcs[0] < id);
    lemma_interned_keeps(read.dag, last);
    lemma_interned_keeps(stage.dag, at);
    lemma_interned_keeps(ends.dag, kept);
    lemma_interned_keeps(dag, first);
    lemma_sifted(dag, loops, kind, true, loops.len());
    lemma_sifted(dag, loops, kind, false, loops.len());
    lemma_topo(dag, id);
    lemma_sifted(dag, walk, AxisType::Local, true, walk.len());
    assert forall|x: usize| loops.contains(x) implies x < dag.len() by {
        let j = choose|j: int| 0 <= j < loops.len() && loops[j] == x;
        assert(node.srcs[j + 1] == x);
        assert(dag[id as int].srcs[j + 1] < id);
    }
    assert forall|k: int| 0 <= k < grouped.len() implies (#[trigger] grouped[k]) < dag.len() by {
        assert(loops.contains(grouped[k]));
    }
    assert forall|k: int| 0 <= k < others.len() implies (#[trigger] others[k]) < dag.len() by {
        assert(loops.contains(others[k]));
    }
    assert forall|k: int| 0 <= k < locals.len() implies (#[trigger] locals[k]) < dag.len() by {
        assert(walk.contains(locals[k]));
    }
    lemma_listed_below(node.srcs[0], others, Seq::empty(), dag.len());
    assert(first.srcs =~= seq![node.srcs[0]] + others + Seq::<usize>::empty());
    assert(others + Seq::<usize>::empty() =~= others);
    lemma_final_loops_grow(partial.dag, grouped, grouped.len());
    lemma_put_node(dag, first);
    assert forall|k: int| 0 <= k < grouped.len() implies final_loop(
        partial.dag[#[trigger] grouped[k] as int],
    ) is Some by {
        assert(partial.dag[grouped[k] as int] == dag[grouped[k] as int]);
    }
    lemma_final_loops(partial.dag, grouped, grouped.len());
    lemma_final_loops_wf(partial.dag, grouped, grouped.len());
    lemma_listed_below(partial.id, locals, grouped, ends.dag.len());
    lemma_put_node(ends.dag, kept);
    lemma_listed_below(stage.id, locals, ends.srcs, stage.dag.len());
    lemma_put_node(stage.dag, at);
    lemma_listed_below(read.id, ends.srcs, Seq::empty(), read.dag.len());
    assert(last.srcs =~= seq![read.id] + ends.srcs + Seq::<usize>::empty());
    lemma_put_node(read.dag, last);
    let s = Staged {
        partial: partial.id,
        stage: stage.id,
        read: read.id,
        locals,
        grouped,
        ends: ends.srcs,
    };
    assert(new.dag[partial.id as int] == first);
    assert(new.dag[stage.id as int] == kept);
    assert(new.dag[read.id as int] == at);
    lemma_sifted_multisets(dag, loops, kind, loops.len());
    assert(loops.take(loops.len() as int) =~= loops);
    assert forall|k: int| 0 <= k < s.ends.len() implies is_final(
        dag,
        s.grouped[k],
        new.dag,
        #[trigger] s.ends[k],
    ) by {
        assert(Some(ends.dag[ends.srcs[k] as int]) == final_loop(partial.dag[grouped[k] as int]));
        assert(partial.dag[grouped[k] as int] == dag[grouped[k] as int]);
        assert(new.dag[ends.srcs[k] as int] == ends.dag[ends.srcs[k] as int]);
    }
    assert forall|x: usize| #[trigger]
        s.locals.contains(x) <==> reaches(dag, id, x) && is_loop_of(dag, x, AxisType::Local) by {
        lemma_sifted_all(dag, walk, AxisType::Local, true, walk.len(), x);
        assert(walk.take(walk.len() as int) =~= walk);
        assert(walk.contains(x) <==> reaches(dag, id, x));
    }
    assert forall|k: int| 0 <= k < s.ends.len() implies (#[trigger] s.ends[k]) < new.dag.len() by {
        assert(ends.srcs[k] < ends.dag.len());
    }
    s
}

proof fn lemma_final_loops_grow(dag: Seq<NodeView>, list: Seq<usize>, n: nat)
    ensures
        dag.len() <= final_loops(dag, list, n).dag.len(),
    decreases n,
{
    if n > 0 {
        lemma_final_loops_grow(dag, list, (n - 1) as nat);
        let rest = final_loops(dag, list, (n - 1) as nat);
        lemma_interned_keeps(rest.dag, final_loop(dag[list[n - 1] as int])->0);
    }
}

/// A reduction that has grouped loops, each of whose axes has room for one more
/// part, is taken apart, and any other is left alone. Each loop is reduced over
/// once: those that are not grouped before the value is kept in shared memory,
/// and for each grouped one its final loop behind that. What is reduced so is
/// what was reduced over all loops.
pub proof fn lemma_grouped_parts_make_the_whole(
    dag: Seq<NodeView>,
    id: usize,
    with: ReduceOp,
    at: spec_fn(Op) -> int,
)
    requires
        dag_wf(dag),
        id < dag.len() <= usize::MAX,
        dag[id as int].op == Op::Reduce(with),
        grouped_reduce(dag, id) is Some ==> grouped_reduce(dag, id)->0.dag.len() <= usize::MAX,
    ensures
        ({
            let loops = dag[id as int].srcs.skip(1);
            let kind = AxisType::GroupReduce;
            grouped_reduce(dag, id) is Some <==> (exists|k: int|
                0 <= k < loops.len() && is_loop_of(dag, #[trigger] loops[k], kind)) && (forall|
                k: int,
            |
                0 <= k < loops.len() && is_loop_of(dag, #[trigger] loops[k], kind) ==> (
                dag[loops[k] as int].op matches Op::Range { axis, .. } && axis.part(
                    GROUP_LOOP,
                ) is Some))
        }),
        grouped_reduce(dag, id) matches Some(new) ==> exists|s: Staged|
            {
                let node = dag[id as int];
                let loops = node.srcs.skip(1);
                &&& #[trigger] is_staged(new.dag, new.id, dag, id, s)
                &&& (are_loops(dag, loops) && forall|k: int|
                    0 <= k < s.grouped.len() ==> reads_no_final(
                        dag,
                        node.srcs[0],
                        #[trigger] s.grouped[k],
                    )) ==> tally_over(
                    new.dag,
                    with,
                    s.ends,
                    read_values(new.dag, with, s.read),
                    at,
                ) == reduction(dag, with, node.srcs[0], loops, at)
            },
{
    let node = dag[id as int];
    let loops = node.srcs.skip(1);
    let kind = AxisType::GroupReduce;
    let grouped = sifted(dag, loops, kind, true, loops.len());
    assert(loops.take(loops.len() as int) =~= loops);
    lemma_sifted(dag, loops, kind, true, loops.len());
    assert forall|k: int| 0 <= k < loops.len() && is_loop_of(dag, #[trigger] loops[k], kind) implies
        grouped.contains(loops[k]) by {
        lemma_sifted_all(dag, loops, kind, true, loops.len(), loops[k]);
        assert(loops.contains(loops[k]));
    }
    if grouped_reduce(dag, id) is Some {
        assert(grouped.len() > 0);
        let j = choose|j: int| 0 <= j < loops.len() && loops[j] == grouped[0];
        assert(loops.contains(grouped[0]));
        assert(is_loop_of(dag, loops[j], kind));
        assert forall|k: int| 0 <= k < loops.len() && is_loop_of(dag, #[trigger] loops[k], kind)
            implies dag[loops[k] as int].op matches Op::Range { axis, .. } && axis.part(
            GROUP_LOOP,
        ) is Some by {
            let i = choose|i: int| 0 <= i < grouped.len() && grouped[i] == loops[k];
            assert(final_loop(dag[grouped[i] as int]) is Some);
        }
        let s = lemma_staged(dag, id);
        if are_loops(dag, loops) && forall|k: int|
            0 <= k < s.grouped.len() ==> reads_no_final(
                dag,
                node.srcs[0],
                #[trigger] s.grouped[k],
            ) {
            lemma_whole(dag, id, with, at, s);
        }
    } else {
        if (exists|k: int| 0 <= k < loops.len() && is_loop_of(dag, #[trigger] loops[k], kind)) && (
        forall|k: int|
            0 <= k < loops.len() && is_loop_of(dag, #[trigger] loops[k], kind) ==> (
            dag[loops[k] as int].op matches Op::Range { axis, .. } && axis.part(GROUP_LOOP) is Some)) {
            let k = choose|k: int| 0 <= k < loops.len() && is_loop_of(dag, #[trigger] loops[k], kind);
            assert(grouped.contains(loops[k]));
            assert forall|i: int| 0 <= i < grouped.len() implies final_loop(
                dag[#[trigger] grouped[i] as int],
            ) is Some by {
                assert(loops.contains(grouped[i]));
                let j = choose|j: int| 0 <= j < loops.len() && loops[j] == grouped[i];
                assert(is_loop_of(dag, loops[j], kind));
            }
            assert(have_final_loops(dag, grouped, grouped.len()));
            assert(false);
        }
    }
}

#[verifier::rlimit(60)]
#[verifier::spinoff_prover]
proof fn lemma_whole(
    dag: Seq<NodeView>,
    id: usize,
    with: ReduceOp,
    at: spec_fn(Op) -> int,
    s: Staged,
)
    requires
        dag_wf(dag),
        id < dag.len() <= usize::MAX,
        dag[id as int].op == Op::Reduce(with),
        grouped_reduce(dag, id) is Some,
        ({
            let new = grouped_reduce(dag, id)->0;
            let loops = dag[id as int].srcs.skip(1);
            &&& dag_wf(new.dag)
            &&& extends(dag, new.dag)
            &&& is_staged(new.dag, new.id, dag, id, s)
            &&& s.grouped == sifted(dag, loops, AxisType::GroupReduce, true, loops.len())
            &&& new.dag[s.partial as int].srcs.skip(1) == sifted(
                dag,
                loops,
                AxisType::GroupReduce,
                false,
                loops.len(),
            )
            &&& forall|k: int| 0 <= k < s.ends.len() ==> (#[trigger] s.ends[k]) < new.dag.len()
            &&& forall|k: int| 0 <= k < s.locals.len() ==> (#[trigger] s.locals[k]) < dag.len()
            &&& forall|k: int| 0 <= k < s.grouped.len() ==> (#[trigger] s.grouped[k]) < dag.len()
            &&& are_loops(dag, loops)
            &&& forall|k: int|
                0 <= k < s.grouped.len() ==> reads_no_final(
                    dag,
                    dag[id as int].srcs[0],
                    #[trigger] s.grouped[k],
                )
        }),
    ensures
        ({
            let new = grouped_reduce(dag, id)->0;
            let node = dag[id as int];
            tally_over(new.dag, with, s.ends, read_values(new.dag, with, s.read), at) == reduction(
                dag,
                with,
                node.srcs[0],
                node.srcs.skip(1),
                at,
            )
        }),
{
    let node = dag[id as int];
    let more = grouped_reduce(dag, id)->0.dag;
    let loops = node.srcs.skip(1);
    let kind = AxisType::GroupReduce;
    let others = sifted(dag, loops, kind, false, loops.len());
    let src = node.srcs[0];
    assert(dag[id as int].srcs[0] < id);
    let r = Renamed {
        dag: more,
        src,
        others,
        locals: s.locals,
        grouped: s.grouped,
        ends: s.ends,
        read: s.read,
    };
    assert forall|k: int| 0 <= k < s.locals.len() implies (#[trigger] s.locals[k]) < more.len()
        && more[s.locals[k] as int].op is Range by {
        assert(s.locals.contains(s.locals[k]));
        assert(more[s.locals[k] as int] == dag[s.locals[k] as int]);
    }
    assert forall|k: int| 0 <= k < s.grouped.len() implies is_loop_of(
        more,
        #[trigger] s.grouped[k],
        kind,
    ) by {
        assert(more[s.grouped[k] as int] == dag[s.grouped[k] as int]);
    }
    assert forall|k: int| 0 <= k < s.ends.len() implies {
        &&& (#[trigger] s.ends[k]) < more.len()
        &&& more[s.ends[k] as int].op is Range
        &&& range_size(more, s.ends[k]) == range_size(more, s.grouped[k])
        &&& !is_loop_of(more, s.ends[k], kind)
        &&& forall|x: usize|
            reaches(more, src, x) ==> (#[trigger] more[x as int]).op != more[s.ends[k] as int].op
    } by {
        assert(is_final(dag, s.grouped[k], more, s.ends[k]));
        assert(more[s.grouped[k] as int] == dag[s.grouped[k] as int]);
        assert(reads_no_final(dag, src, s.grouped[k]));
        assert forall|x: usize| reaches(more, src, x) implies (#[trigger] more[x as int]).op
            != more[s.ends[k] as int].op by {
            crate::topo::lemma_reaches_extends(dag, more, src, x);
            crate::topo::lemma_reaches_below(dag, src, x);
            assert(more[x as int] == dag[x as int]);
        }
    }
    lemma_grouped_distinct(dag, loops, kind, loops.len());
    assert forall|i: int, k: int| 0 <= i < k < s.grouped.len() implies more[(
    #[trigger] s.grouped[i]) as int].op != more[(#[trigger] s.grouped[k]) as int].op by {
        assert(more[s.grouped[i] as int] == dag[s.grouped[i] as int]);
        assert(more[s.grouped[k] as int] == dag[s.grouped[k] as int]);
    }
    assert forall|i: int, k: int| 0 <= i < k < s.ends.len() implies more[(
    #[trigger] s.ends[i]) as int].op != more[(#[trigger] s.ends[k]) as int].op by {
        assert(is_final(dag, s.grouped[i], more, s.ends[i]));
        assert(is_final(dag, s.grouped[k], more, s.ends[k]));
        let (a, b) = (dag[s.grouped[i] as int], dag[s.grouped[k] as int]);
        assert(more[s.grouped[i] as int].op != more[s.grouped[k] as int].op);
        assert(more[s.grouped[i] as int] == a && more[s.grouped[k] as int] == b);
        assert(is_loop_of(dag, s.grouped[i], kind) && is_loop_of(dag, s.grouped[k], kind));
        lemma_final_is_own(a, b);
    }
    assert((seq![s.stage] + (s.locals + s.ends)).skip(1) =~= s.locals + s.ends);
    assert((seq![s.partial] + (s.locals + s.grouped)).skip(1) =~= s.locals + s.grouped);
    assert(is_renamed(r));
    let n = s.ends.len();
    assert(are_renamed(r, n, at, at));
    lemma_renamed(r, with, n, at, at);
    assert(s.ends.take(n as int) =~= s.ends);
    assert(s.grouped.take(n as int) =~= s.grouped);
    lemma_tally_reduction(more, with, src, others, s.grouped, at);
    assert forall|k: int| 0 <= k < loops.len() implies (#[trigger] loops[k]) < dag.len() by {
        assert(dag[id as int].srcs[k + 1] < id);
    }
    assert forall|k: int| 0 <= k < (others + s.grouped).len() implies (
    #[trigger] (others + s.grouped)[k]) < dag.len() by {
        if k < others.len() {
            lemma_sifted(dag, loops, kind, false, loops.len());
            assert(loops.contains(others[k]));
        } else {
            assert((others + s.grouped)[k] == s.grouped[k - others.len()]);
        }
    }
    lemma_reduction_extends(dag, more, with, src, others + s.grouped, at);
    lemma_sifted_reduction(dag, with, src, loops, kind, loops.len(), at);
    assert(loops.take(loops.len() as int) =~= loops);
}

proof fn lemma_grouped_distinct(dag: Seq<NodeView>, loops: Seq<usize>, kind: AxisType, n: nat)
    requires
        n <= loops.len(),
        are_loops(dag, loops),
    ensures
        forall|i: int, k: int|
            0 <= i < k < sifted(dag, loops, kind, true, n).len() ==> dag[(#[trigger] sifted(
                dag,
                loops,
                kind,
                true,
                n,
            )[i]) as int].op != dag[(#[trigger] sifted(dag, loops, kind, true, n)[k]) as int].op,
    decreases n,
{
    if n > 0 {
        lemma_grouped_distinct(dag, loops, kind, (n - 1) as nat);
        let rest = sifted(dag, loops, kind, true, (n - 1) as nat);
        let all = sifted(dag, loops, kind, true, n);
        assert forall|i: int, k: int| 0 <= i < k < all.len() implies dag[(
        #[trigger] all[i]) as int].op != dag[(#[trigger] all[k]) as int].op by {
            if k >= rest.len() {
                lemma_sifted_before(dag, loops, kind, true, (n - 1) as nat, i);
                let j = choose|j: int| 0 <= j < n - 1 && #[trigger] loops[j] == rest[i];
                assert(dag[loops[j] as int].op != dag[loops[n - 1] as int].op);
            } else {
                assert(all[i] == rest[i] && all[k] == rest[k]);
            }
        }
    }
}

} // verus!
