//! What neighbouring loops do that run as one: each step of the joined loop does
//! what one pair of their steps did.

use vstd::prelude::*;

use crate::alike::{
    does_alike, lemma_alike_before, lemma_alike_extends, lemma_substitution_does_alike,
    lemma_visible_extends,
};
use crate::builders::{const_node, lemma_interned_keeps, put};
use crate::fold::floored_div;
use crate::graph::{dag_wf, lemma_interned_wf, AxisType, BinaryOp, ConstValue, DType, NodeView, Op};
use crate::meaning::{lemma_arity, lemma_meaning, lemma_put_meaning, meaning};
use crate::narrow::{can_merge, constant_extent, kind_of, mergeable, merged_end, resized};
use crate::passes::{extends, lemma_put};
use crate::reduce::step_at;
use crate::subst::{exchanges, lemma_substituted_grows, lookup, substituted, visible};

verus! {

/// Whether a node is a loop of a kind that takes a constant number of steps.
pub open spec fn takes_steps(dag: Seq<NodeView>, id: usize, kind: AxisType, n: i64) -> bool {
    let node = dag[id as int];
    &&& node.op matches Op::Range { kind: own, .. } && own == kind
    &&& dag[node.srcs[0] as int].op == Op::Const(ConstValue::Int(n))
}

/// Whether two loops are of one kind, and take numbers of steps that are
/// constant, positive and few enough together.
pub open spec fn are_countable(
    dag: Seq<NodeView>,
    a: usize,
    b: usize,
    kind: AxisType,
    m: i64,
    n: i64,
) -> bool {
    &&& takes_steps(dag, a, kind, m)
    &&& takes_steps(dag, b, kind, n)
    &&& 0 < m
    &&& 0 < n
    &&& m * n <= i64::MAX
}

/// Whether two loops can run as one.
pub open spec fn can_join(dag: Seq<NodeView>, a: usize, b: usize) -> bool {
    exists|kind: AxisType, m: i64, n: i64| #[trigger] are_countable(dag, a, b, kind, m, n)
}

proof fn lemma_can_join(dag: Seq<NodeView>, a: usize, b: usize)
    ensures
        can_merge(dag, a, b) <==> can_join(dag, a, b),
        can_merge(dag, a, b) ==> are_countable(
            dag,
            a,
            b,
            kind_of(dag[a as int].op)->0,
            constant_extent(dag, a)->0,
            constant_extent(dag, b)->0,
        ),
{
    if can_merge(dag, a, b) {
        assert(are_countable(
            dag,
            a,
            b,
            kind_of(dag[a as int].op)->0,
            constant_extent(dag, a)->0,
            constant_extent(dag, b)->0,
        ));
    }
}

proof fn lemma_mergeable(dag: Seq<NodeView>, closed: Seq<usize>, k: nat)
    ensures
        match mergeable(dag, closed, k) {
            Some(j) => {
                &&& k <= j
                &&& j + 1 < closed.len()
                &&& can_join(dag, closed[j], closed[j + 1])
                &&& forall|i: int|
                    k <= i < j ==> !can_join(dag, #[trigger] closed[i], closed[i + 1])
            },
            None => forall|i: int|
                k <= i && i + 1 < closed.len() ==> !can_join(
                    dag,
                    #[trigger] closed[i],
                    closed[i + 1],
                ),
        },
    decreases closed.len() - k,
{
    if k + 1 < closed.len() {
        lemma_can_join(dag, closed[k as int], closed[(k + 1) as int]);
        if !can_merge(dag, closed[k as int], closed[(k + 1) as int]) {
            lemma_mergeable(dag, closed, k + 1);
        }
    }
}

/// Whether no other node below a root has the counter of a loop.
pub open spec fn has_own_counter(dag: Seq<NodeView>, root: usize, a: usize) -> bool {
    forall|x: usize| #[trigger]
        visible(dag, root, x) && dag[x as int].op == dag[a as int].op ==> x == a
}

/// The number of steps and the sources of two loops that are joined.
pub struct Joined {
    pub kind: AxisType,
    pub m: i64,
    pub n: i64,
    /// Where the first of the two loops stands.
    pub at: int,
}

/// Whether loops are others with one in the place of two neighbours, which takes
/// as many steps as they have pairs of steps.
pub open spec fn joins(
    dag: Seq<NodeView>,
    closed: Seq<usize>,
    more: Seq<NodeView>,
    loops: Seq<usize>,
    j: Joined,
) -> bool {
    &&& 0 <= j.at
    &&& j.at + 1 < closed.len()
    &&& are_countable(dag, closed[j.at], closed[j.at + 1], j.kind, j.m, j.n)
    &&& loops.len() + 1 == closed.len()
    &&& forall|k: int| 0 <= k < j.at ==> #[trigger] loops[k] == closed[k]
    &&& forall|k: int| j.at < k < loops.len() ==> #[trigger] loops[k] == closed[k + 1]
    &&& takes_steps(more, loops[j.at], j.kind, (j.m * j.n) as i64)
    &&& more[loops[j.at] as int].op == dag[closed[j.at] as int].op
    &&& more[loops[j.at] as int].srcs.skip(1) == dag[closed[j.at] as int].srcs.skip(1)
}

/// Whether each step of a joined loop does what one pair of the steps of the two
/// loops does, and every pair of steps is done by one: the step that counts the
/// pairs in order.
pub open spec fn runs_each_pair(
    dag: Seq<NodeView>,
    body: usize,
    a: usize,
    b: usize,
    j: Joined,
    more: Seq<NodeView>,
    new: usize,
    at: spec_fn(Op) -> int,
) -> bool {
    forall|x: int, y: int|
        0 <= x < j.m && 0 <= y < j.n ==> #[trigger] does_alike(
            dag,
            body,
            step_at(step_at(at, dag[a as int].op, x), dag[b as int].op, y),
            more,
            new,
            step_at(at, dag[a as int].op, x * j.n + y),
        )
}

/// An `End` runs the first two neighbouring loops as one that can be, and is
/// left alone where there are none: one loop in their place counts the pairs of
/// their steps, and does at each step what was done at the pair.
pub proof fn lemma_joined_loop_runs_each_pair_once(
    dag: Seq<NodeView>,
    id: usize,
    at: spec_fn(Op) -> int,
)
    requires
        dag_wf(dag),
        id < dag.len() <= usize::MAX,
        merged_end(dag, id) is Some ==> merged_end(dag, id)->0.dag.len() <= usize::MAX,
    ensures
        merged_end(dag, id) is Some <==> dag[id as int].op is End && exists|k: int|
            1 <= k && k + 1 < dag[id as int].srcs.len() && can_join(
                dag,
                #[trigger] dag[id as int].srcs[k],
                dag[id as int].srcs[k + 1],
            ),
        merged_end(dag, id) matches Some(new) ==> {
            let node = dag[id as int];
            let own = new.dag[new.id as int];
            let closed = node.srcs.skip(1);
            &&& own.op is End
            &&& own.dtype == node.dtype
            &&& own.srcs.len() > 0
            &&& exists|j: Joined|
                {
                    &&& #[trigger] joins(dag, closed, new.dag, own.srcs.skip(1), j)
                    &&& forall|k: int|
                        0 <= k < j.at ==> !can_join(dag, #[trigger] closed[k], closed[k + 1])
                    &&& (has_own_counter(dag, node.srcs[0], closed[j.at]) && has_own_counter(
                        dag,
                        node.srcs[0],
                        closed[j.at + 1],
                    ) && dag[closed[j.at] as int].op != dag[closed[j.at + 1] as int].op)
                        ==> runs_each_pair(
                        dag,
                        node.srcs[0],
                        closed[j.at],
                        closed[j.at + 1],
                        j,
                        new.dag,
                        own.srcs[0],
                        at,
                    )
                }
        },
{
    let node = dag[id as int];
    let closed = node.srcs.skip(1);
    lemma_arity(dag, id);
    lemma_mergeable(dag, closed, 0);
    if node.op is End {
        match mergeable(dag, closed, 0) {
            Some(k) => {
                assert(can_join(dag, node.srcs[k + 1], node.srcs[k + 1 + 1])) by {
                    assert(closed[k] == node.srcs[k + 1]);
                    assert(closed[k + 1] == node.srcs[k + 2]);
                }
                lemma_merged(dag, id, k, at);
            },
            None => {
                assert forall|k: int| 1 <= k && k + 1 < node.srcs.len() implies !can_join(
                    dag,
                    #[trigger] node.srcs[k],
                    node.srcs[k + 1],
                ) by {
                    assert(closed[k - 1] == node.srcs[k]);
                    assert(closed[k] == node.srcs[k + 1]);
                }
            },
        }
    }
}

/// A step of a joined loop in numbers.
proof fn lemma_pair(m: int, n: int, x: int, y: int)
    requires
        0 <= x < m,
        0 <= y < n,
    ensures
        floored_div(x * n + y, n) == x,
        x * n + y - n * floored_div(x * n + y, n) == y,
        0 <= x * n + y < m * n,
{
    assert((x * n + y) / n == x && 0 <= x * n + y < m * n && n * x == x * n) by (nonlinear_arith)
        requires
            0 <= x < m,
            0 <= y < n,
    ;
}

proof fn lemma_resized(dag: Seq<NodeView>, like: NodeView, extent: i64)
    requires
        dag_wf(dag),
        like.op is Range,
        like.srcs.len() > 0,
        forall|k: int| 0 <= k < like.srcs.len() ==> (#[trigger] like.srcs[k]) < dag.len(),
        resized(dag, like, extent).dag.len() <= usize::MAX,
    ensures
        ({
            let new = resized(dag, like, extent);
            let own = new.dag[new.id as int];
            &&& dag_wf(new.dag)
            &&& extends(dag, new.dag)
            &&& new.id < new.dag.len()
            &&& own.op == like.op
            &&& own.dtype == like.dtype
            &&& own.srcs.len() == like.srcs.len()
            &&& own.srcs.skip(1) == like.srcs.skip(1)
            &&& own.srcs[0] < new.dag.len()
            &&& new.dag[own.srcs[0] as int].op == Op::Const(ConstValue::Int(extent))
        }),
{
    let size = const_node(ConstValue::Int(extent), DType::WeakInt);
    let end = put(dag, size);
    let want = NodeView { srcs: like.srcs.update(0, end.id), ..like };
    lemma_interned_keeps(end.dag, want);
    lemma_interned_keeps(dag, size);
    lemma_interned_wf(dag, size);
    lemma_put(dag, size);
    lemma_interned_wf(end.dag, want);
    lemma_put(end.dag, want);
    assert(want.srcs.skip(1) =~= like.srcs.skip(1));
}

#[verifier::rlimit(60)]
#[verifier::spinoff_prover]
proof fn lemma_merged(dag: Seq<NodeView>, id: usize, k: int, at: spec_fn(Op) -> int)
    requires
        dag_wf(dag),
        id < dag.len() <= usize::MAX,
        dag[id as int].op is End,
        mergeable(dag, dag[id as int].srcs.skip(1), 0) == Some(k),
        0 <= k,
        k + 1 < dag[id as int].srcs.skip(1).len(),
        merged_end(dag, id)->0.dag.len() <= usize::MAX,
        can_merge(dag, dag[id as int].srcs.skip(1)[k], dag[id as int].srcs.skip(1)[k + 1])
            || can_join(dag, dag[id as int].srcs.skip(1)[k], dag[id as int].srcs.skip(1)[k + 1]),
    ensures
        merged_end(dag, id) is Some,
        ({
            let node = dag[id as int];
            let closed = node.srcs.skip(1);
            let new = merged_end(dag, id)->0;
            let own = new.dag[new.id as int];
            let (a, b) = (closed[k], closed[k + 1]);
            let j = Joined {
                kind: kind_of(dag[a as int].op)->0,
                m: constant_extent(dag, a)->0,
                n: constant_extent(dag, b)->0,
                at: k,
            };
            &&& own.op is End
            &&& own.dtype == node.dtype
            &&& own.srcs.len() > 0
            &&& joins(dag, closed, new.dag, own.srcs.skip(1), j)
            &&& (has_own_counter(dag, node.srcs[0], a) && has_own_counter(dag, node.srcs[0], b)
                && dag[a as int].op != dag[b as int].op) ==> runs_each_pair(
                dag,
                node.srcs[0],
                a,
                b,
                j,
                new.dag,
                own.srcs[0],
                at,
            )
        }),
{
    let node = dag[id as int];
    let body = node.srcs[0];
    let closed = node.srcs.skip(1);
    let (a, b) = (closed[k], closed[k + 1]);
    lemma_can_join(dag, a, b);
    let m = constant_extent(dag, a)->0;
    let n = constant_extent(dag, b)->0;
    let dtype = dag[a as int].dtype;
    let joined = resized(dag, dag[a as int], (m * n) as i64);
    let number = const_node(ConstValue::Int(n), dtype);
    let size = put(joined.dag, number);
    let over = NodeView {
        op: Op::Binary(BinaryOp::FloorDiv),
        dtype,
        srcs: seq![joined.id, size.id],
    };
    let high = put(size.dag, over);
    let rest = NodeView {
        op: Op::Binary(BinaryOp::FloorMod),
        dtype,
        srcs: seq![joined.id, size.id],
    };
    let low = put(high.dag, rest);
    let pairs = seq![(a, high.id), (b, low.id)];
    let value = substituted(low.dag, body, pairs);
    let loops = closed.take(k).push(joined.id) + closed.skip(k + 2);
    let last = NodeView { srcs: seq![value.id] + loops, ..node };
    let new = put(value.dag, last);
    assert(merged_end(dag, id) == Some(new));
    lemma_arity(dag, id);
    assert(dag[id as int].srcs[0] < id);
    assert(node.srcs[k + 1] == a && node.srcs[k + 2] == b);
    assert(dag[id as int].srcs[k + 1] < id && dag[id as int].srcs[k + 2] < id);
    lemma_interned_keeps(value.dag, last);
    lemma_substituted_grows(low.dag, body, pairs);
    lemma_interned_keeps(high.dag, rest);
    lemma_interned_keeps(size.dag, over);
    lemma_interned_keeps(joined.dag, number);
    lemma_arity(dag, a);
    assert forall|i: int| 0 <= i < dag[a as int].srcs.len() implies (
    #[trigger] dag[a as int].srcs[i]) < dag.len() by {}
    lemma_resized(dag, dag[a as int], (m * n) as i64);
    lemma_interned_wf(joined.dag, number);
    lemma_put(joined.dag, number);
    lemma_interned_wf(size.dag, over);
    lemma_put(size.dag, over);
    lemma_interned_wf(high.dag, rest);
    lemma_put(high.dag, rest);
    lemma_put(value.dag, last);
    assert(new.dag[new.id as int] == last);
    assert(last.srcs.skip(1) =~= loops);
    assert(extends(low.dag, new.dag));
    let j = Joined { kind: kind_of(dag[a as int].op)->0, m, n, at: k };
    assert(new.dag[joined.id as int] == joined.dag[joined.id as int]);
    let extent = joined.dag[joined.id as int].srcs[0];
    assert(new.dag[extent as int] == joined.dag[extent as int]);
    assert forall|i: int| k < i < loops.len() implies #[trigger] loops[i] == closed[i + 1] by {
        assert(closed.skip(k + 2)[i - k - 1] == closed[i + 1]);
    }
    assert(joins(dag, closed, new.dag, loops, j));
    if has_own_counter(dag, body, a) && has_own_counter(dag, body, b) && dag[a as int].op
        != dag[b as int].op {
        assert forall|x: int, y: int| 0 <= x < j.m && 0 <= y < j.n implies #[trigger] does_alike(
            dag,
            body,
            step_at(step_at(at, dag[a as int].op, x), dag[b as int].op, y),
            new.dag,
            value.id,
            step_at(at, dag[a as int].op, x * j.n + y),
        ) by {
            let then = step_at(step_at(at, dag[a as int].op, x), dag[b as int].op, y);
            let now = step_at(at, dag[a as int].op, x * j.n + y);
            lemma_pair(m as int, n as int, x, y);
            lemma_counters(dag, joined.dag, joined.id, a, b, n, x, y, at);
            lemma_exchange(dag, low.dag, body, a, b, high.id, low.id, now, then);
            lemma_substitution_does_alike(low.dag, body, pairs, now, then);
            lemma_alike_before(dag, low.dag, body, then, value.dag, value.id, now);
            assert forall|i: int| 0 <= i < last.srcs.len() implies (#[trigger] last.srcs[i])
                < value.dag.len() by {
                if i > 0 {
                    assert(last.srcs[i] == loops[i - 1]);
                    if i - 1 < k {
                        assert(loops[i - 1] == closed[i - 1]);
                        assert(dag[id as int].srcs[i] < id);
                    } else if i - 1 > k {
                        assert(loops[i - 1] == closed[i]);
                        assert(dag[id as int].srcs[i + 1] < id);
                    }
                }
            }
            lemma_interned_wf(value.dag, last);
            lemma_alike_extends(dag, body, then, value.dag, new.dag, value.id, now);
        }
    }
}

/// What the counters of two loops become means the steps of a pair.
proof fn lemma_counters(
    dag: Seq<NodeView>,
    base: Seq<NodeView>,
    joined: usize,
    a: usize,
    b: usize,
    n: i64,
    x: int,
    y: int,
    at: spec_fn(Op) -> int,
)
    requires
        dag_wf(base),
        joined < base.len(),
        base[joined as int].op == dag[a as int].op,
        dag[a as int].op is Range,
        0 <= x,
        0 <= y < n,
        floored_div(x * n + y, n as int) == x,
        ({
            let dtype = dag[a as int].dtype;
            let size = put(base, const_node(ConstValue::Int(n), dtype));
            let over = NodeView {
                op: Op::Binary(BinaryOp::FloorDiv),
                dtype,
                srcs: seq![joined, size.id],
            };
            let high = put(size.dag, over);
            let rest = NodeView {
                op: Op::Binary(BinaryOp::FloorMod),
                dtype,
                srcs: seq![joined, size.id],
            };
            put(high.dag, rest).dag.len() <= usize::MAX
        }),
    ensures
        ({
            let dtype = dag[a as int].dtype;
            let size = put(base, const_node(ConstValue::Int(n), dtype));
            let over = NodeView {
                op: Op::Binary(BinaryOp::FloorDiv),
                dtype,
                srcs: seq![joined, size.id],
            };
            let high = put(size.dag, over);
            let rest = NodeView {
                op: Op::Binary(BinaryOp::FloorMod),
                dtype,
                srcs: seq![joined, size.id],
            };
            let low = put(high.dag, rest);
            let now = step_at(at, dag[a as int].op, x * n + y);
            &&& dag_wf(low.dag)
            &&& high.id < low.dag.len()
            &&& low.id < low.dag.len()
            &&& meaning(low.dag, high.id, now) == Some(x)
            &&& meaning(low.dag, low.id, now) == Some(y)
        }),
{
    let dtype = dag[a as int].dtype;
    let number = const_node(ConstValue::Int(n), dtype);
    let size = put(base, number);
    let over = NodeView {
        op: Op::Binary(BinaryOp::FloorDiv),
        dtype,
        srcs: seq![joined, size.id],
    };
    let high = put(size.dag, over);
    let rest = NodeView {
        op: Op::Binary(BinaryOp::FloorMod),
        dtype,
        srcs: seq![joined, size.id],
    };
    let low = put(high.dag, rest);
    let now = step_at(at, dag[a as int].op, x * n + y);
    lemma_interned_keeps(high.dag, rest);
    lemma_interned_keeps(size.dag, over);
    lemma_interned_keeps(base, number);
    lemma_put_meaning(base, number, now);
    lemma_put_meaning(size.dag, over, now);
    lemma_put_meaning(high.dag, rest, now);
    lemma_meaning(size.dag, joined, now);
    lemma_meaning(low.dag, high.id, now);
    lemma_meaning(low.dag, joined, now);
    lemma_meaning(low.dag, size.id, now);
    lemma_meaning(high.dag, joined, now);
    lemma_meaning(high.dag, size.id, now);
    assert(low.dag[high.id as int] == over);
    assert(low.dag[joined as int] == base[joined as int]);
    assert(low.dag[size.id as int] == number);
    assert(high.dag[joined as int] == base[joined as int]);
    assert(high.dag[size.id as int] == number);
    assert(n * x == x * n) by (nonlinear_arith);
}

/// Two loops are exchanged for what means their steps.
proof fn lemma_exchange(
    dag: Seq<NodeView>,
    more: Seq<NodeView>,
    body: usize,
    a: usize,
    b: usize,
    high: usize,
    low: usize,
    now: spec_fn(Op) -> int,
    then: spec_fn(Op) -> int,
)
    requires
        dag_wf(dag),
        dag_wf(more),
        extends(dag, more),
        body < dag.len(),
        a < dag.len(),
        b < dag.len(),
        dag[a as int].op is Range,
        dag[b as int].op is Range,
        dag[a as int].op != dag[b as int].op,
        has_own_counter(dag, body, a),
        has_own_counter(dag, body, b),
        high < more.len(),
        low < more.len(),
        meaning(more, high, now) == Some(then(dag[a as int].op)),
        meaning(more, low, now) == Some(then(dag[b as int].op)),
        forall|op: Op|
            op != dag[a as int].op && op != dag[b as int].op ==> now(op) == #[trigger] then(op),
    ensures
        exchanges(more, body, seq![(a, high), (b, low)], now, then),
        forall|x: usize| #[trigger]
            visible(more, body, x) && lookup(seq![(a, high), (b, low)], x) is Some ==> meaning(
                more,
                x,
                then,
            ) is Some,
{
    let pairs = seq![(a, high), (b, low)];
    assert forall|x: usize| #[trigger] visible(more, body, x) implies (match lookup(pairs, x) {
        Some(new) => new < more.len() && meaning(more, new, now) == meaning(more, x, then),
        None => is_leaf_kept(more[x as int].op, now, then),
    }) && (lookup(pairs, x) is Some ==> meaning(more, x, then) is Some) by {
        assert(pairs.last() == (b, low));
        assert(pairs.drop_last() =~= seq![(a, high)]);
        assert(pairs.drop_last().last() == (a, high));
        assert(pairs.drop_last().drop_last().len() == 0);
        reveal_with_fuel(lookup, 3);
        lemma_visible_extends(dag, more, body, x);
        lemma_visible_below(dag, body, x);
        assert(more[x as int] == dag[x as int]);
        if x == a || x == b {
            lemma_meaning(more, x, then);
        } else {
            assert(dag[x as int].op != dag[a as int].op);
            assert(dag[x as int].op != dag[b as int].op);
            assert(now(dag[x as int].op) == then(dag[x as int].op));
        }
    }
}

spec fn is_leaf_kept(op: Op, now: spec_fn(Op) -> int, then: spec_fn(Op) -> int) -> bool {
    crate::meaning::is_leaf(op) ==> now(op) == then(op)
}

proof fn lemma_visible_below(dag: Seq<NodeView>, root: usize, id: usize)
    requires
        visible(dag, root, id),
    ensures
        id <= root,
{
}

} // verus!
