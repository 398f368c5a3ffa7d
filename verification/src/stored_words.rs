//! A word that is read as a float and stored: what it is stored as where floats
//! of its type are held in words.

use vstd::prelude::*;

use crate::builders::{const_node, lemma_interned_keeps, put, Built};
use crate::carried::{lemma_lowered_is_narrowed, lemma_raised_is_widened};
use crate::decomps::decomposes;
use crate::encodings::{
    is_word, lemma_narrowed_comes_back, lemma_widened_is_same_number, returned, widened,
};
use crate::fold::{value_of, Known};
use crate::graph::{
    arity_ok, dag_wf, lemma_id_of, lemma_interned_wf, ConstValue, DType, NodeView, Op,
};
use crate::meaning::lemma_arity;
use crate::passes::{
    extends, lemma_put, lemma_settled_graph_is_kept, moved, rewritten, rule, walked, width, widest,
    with_srcs, Pass,
};
use crate::settled::is_apart;
use crate::storage::{format_of, is_wider, lowered, raised, stored, unary_node, word_of};
use crate::topo::{before, lemma_distinct_len, lemma_reaches_below, lemma_topo, ordered, reaches, topo};
use crate::values::{has_room, has_word, keeps_values, knows_leaves, lemma_value_extends};

verus! {

/// Nothing is known.
pub open spec fn nothing() -> Known {
    Map::empty()
}

/// The operations of storage and its addresses.
pub open spec fn is_plain(op: Op) -> bool {
    op is Buffer || op is Index || op is Const
}

/// Whether a node stores a word that is read as a float of a type, in storage of
/// that type.
pub open spec fn stores_word(dag: Seq<NodeView>, root: usize, from: DType, w: u64) -> bool {
    let node = dag[root as int];
    let (address, value) = (node.srcs[0], node.srcs[1]);
    let word = dag[value as int].srcs[0];
    &&& node.op is Store
    &&& node.srcs.len() == 2
    &&& node.dtype != from
    &&& dag[address as int].op is Index
    &&& dag[address as int].dtype == from
    &&& dag[value as int] == unary_node(Op::BitCast, from, word)
    &&& dag[word as int] == const_node(ConstValue::UInt(w), word_of(format_of(from)->0))
    &&& forall|x: usize| #[trigger]
        reaches(dag, root, x) ==> x == root || x == value || is_plain(dag[x as int].op)
}

/// What holds of the node that stands for another.
#[verifier::opaque]
spec fn stands_right(
    dag: Seq<NodeView>,
    root: usize,
    from: DType,
    to: DType,
    w: u64,
    u: usize,
    now: Seq<NodeView>,
    s: usize,
) -> bool {
    let (narrow, wide) = (format_of(from)->0, format_of(to)->0);
    let value = dag[root as int].srcs[1];
    let word = dag[value as int].srcs[0];
    &&& s < now.len()
    &&& u == root ==> {
        &&& now[s as int].op is Store
        &&& now[s as int].srcs.len() == 2
        &&& has_word(
            now,
            nothing(),
            now[s as int].srcs[1],
            word_of(narrow),
            returned(narrow, wide, w as int),
        )
    }
    &&& u == value ==> {
        &&& now[s as int] == unary_node(Op::BitCast, to, now[s as int].srcs[0])
        &&& has_word(
            now,
            nothing(),
            now[s as int].srcs[0],
            word_of(wide),
            widened(narrow, wide, w as int),
        )
    }
    &&& u == word ==> s == word
    &&& u == dag[root as int].srcs[0] ==> now[s as int].dtype == word_of(narrow)
}

proof fn lemma_word_extends(
    dag: Seq<NodeView>,
    more: Seq<NodeView>,
    id: usize,
    dtype: DType,
    n: int,
)
    requires
        dag_wf(dag),
        extends(dag, more),
        has_word(dag, nothing(), id, dtype, n),
    ensures
        has_word(more, nothing(), id, dtype, n),
{
    reveal(has_word);
    lemma_value_extends(dag, more, nothing(), id);
}

proof fn lemma_right_extends(
    dag: Seq<NodeView>,
    root: usize,
    from: DType,
    to: DType,
    w: u64,
    u: usize,
    now: Seq<NodeView>,
    more: Seq<NodeView>,
    s: usize,
)
    requires
        dag_wf(now),
        extends(now, more),
        stands_right(dag, root, from, to, w, u, now, s),
    ensures
        stands_right(dag, root, from, to, w, u, more, s),
{
    reveal(stands_right);
    let (narrow, wide) = (format_of(from)->0, format_of(to)->0);
    assert(more[s as int] == now[s as int]);
    if u == root {
        lemma_word_extends(
            now,
            more,
            now[s as int].srcs[1],
            word_of(narrow),
            returned(narrow, wide, w as int),
        );
    }
    if u == dag[root as int].srcs[1] {
        lemma_word_extends(
            now,
            more,
            now[s as int].srcs[0],
            word_of(wide),
            widened(narrow, wide, w as int),
        );
    }
}

/// What is asked of the types and the graph.
#[verifier::opaque]
spec fn is_set(dag: Seq<NodeView>, root: usize, from: DType, to: DType, w: u64) -> bool {
    &&& dag_wf(dag)
    &&& root < dag.len()
    &&& format_of(from) is Some
    &&& format_of(to) is Some
    &&& is_wider(format_of(from)->0, format_of(to)->0)
    &&& is_word(format_of(from)->0, w as int)
    &&& stores_word(dag, root, from, w)
}

/// A node over what stands for its sources.
proof fn lemma_copied(now: Seq<NodeView>, node: NodeView)
    requires
        dag_wf(now),
        now.len() < usize::MAX,
        arity_ok(node.op, node.srcs.len()),
        forall|k: int| 0 <= k < node.srcs.len() ==> (#[trigger] node.srcs[k]) < now.len(),
    ensures
        ({
            let new = put(now, node);
            &&& dag_wf(new.dag)
            &&& extends(now, new.dag)
            &&& new.dag.len() <= now.len() + 1
            &&& new.id < new.dag.len()
            &&& new.dag[new.id as int] == node
        }),
{
    lemma_interned_keeps(now, node);
    lemma_interned_wf(now, node);
    lemma_put(now, node);
}

proof fn lemma_plain_step(
    dag: Seq<NodeView>,
    root: usize,
    from: DType,
    to: DType,
    w: u64,
    u: usize,
    now: Seq<NodeView>,
    srcs: Seq<usize>,
)
    requires
        is_set(dag, root, from, to, w),
        dag_wf(now),
        extends(dag, now),
        now.len() + 2 < usize::MAX,
        reaches(dag, root, u),
        u < dag.len(),
        u != root,
        u != dag[root as int].srcs[1],
        srcs.len() == dag[u as int].srcs.len(),
        forall|k: int| 0 <= k < srcs.len() ==> (#[trigger] srcs[k]) < now.len(),
    ensures
        ({
            let copy = put(now, with_srcs(dag[u as int], srcs));
            let new = rule(Pass::Storage { from, to }, copy.dag, copy.id);
            &&& dag_wf(new.dag)
            &&& extends(now, new.dag)
            &&& new.dag.len() <= now.len() + 2
            &&& stands_right(dag, root, from, to, w, u, new.dag, new.id)
        }),
{
    reveal(is_set);
    reveal(stands_right);
    let node = dag[u as int];
    let (narrow, wide) = (format_of(from)->0, format_of(to)->0);
    lemma_arity(dag, u);
    assert(is_plain(node.op));
    let want = with_srcs(node, srcs);
    let copy = put(now, want);
    lemma_copied(now, want);
    let kind = if node.op is Const {
        to
    } else {
        word_of(narrow)
    };
    lemma_copied(copy.dag, NodeView { dtype: kind, ..want });
    let word = dag[dag[root as int].srcs[1] as int].srcs[0];
    if u == word {
        assert(srcs =~= node.srcs);
        assert(now[u as int] == node);
        assert(now.contains(want));
        lemma_id_of(now, u);
    }
}

proof fn lemma_value_step(
    dag: Seq<NodeView>,
    root: usize,
    from: DType,
    to: DType,
    w: u64,
    now: Seq<NodeView>,
)
    requires
        is_set(dag, root, from, to, w),
        dag_wf(now),
        extends(dag, now),
        now.len() + 30 < usize::MAX,
    ensures
        ({
            let u = dag[root as int].srcs[1];
            let word = dag[u as int].srcs[0];
            let copy = put(now, with_srcs(dag[u as int], seq![word]));
            let new = rule(Pass::Storage { from, to }, copy.dag, copy.id);
            &&& dag_wf(new.dag)
            &&& extends(now, new.dag)
            &&& new.dag.len() <= now.len() + 30
            &&& stands_right(dag, root, from, to, w, u, new.dag, new.id)
        }),
{
    reveal(is_set);
    reveal(stands_right);
    let (narrow, wide) = (format_of(from)->0, format_of(to)->0);
    let u = dag[root as int].srcs[1];
    let word = dag[u as int].srcs[0];
    lemma_arity(dag, root);
    assert(dag[root as int].srcs[1] < root);
    assert(dag[root as int].srcs[0] < root);
    assert(dag[u as int].srcs[0] < u);
    let want = with_srcs(dag[u as int], seq![word]);
    let copy = put(now, want);
    lemma_copied(now, want);
    assert(now[word as int] == dag[word as int]);
    assert(copy.dag[word as int] == now[word as int]);
    assert(has_room(copy.dag, nothing(), 28)) by {
        reveal(has_room);
        assert(knows_leaves(copy.dag, nothing()));
    }
    assert(has_word(copy.dag, nothing(), word, word_of(narrow), w as int)) by {
        reveal(has_word);
    }
    lemma_raised_is_widened(copy.dag, nothing(), from, to, word, w as int, 28);
    let up = raised(copy.dag, narrow, wide, to, word);
    assert(want.srcs[0] == word);
    assert(rule(Pass::Storage { from, to }, copy.dag, copy.id) == up);
    reveal(keeps_values);
    assert(dag[u as int].op is BitCast && dag[root as int].op is Store && dag[word as int].op is Const
        && dag[dag[root as int].srcs[0] as int].op is Index);
}

proof fn lemma_root_step(
    dag: Seq<NodeView>,
    root: usize,
    from: DType,
    to: DType,
    w: u64,
    now: Seq<NodeView>,
    a: usize,
    v: usize,
)
    requires
        is_set(dag, root, from, to, w),
        dag_wf(now),
        extends(dag, now),
        now.len() + 40 < usize::MAX,
        stands_right(dag, root, from, to, w, dag[root as int].srcs[0], now, a),
        stands_right(dag, root, from, to, w, dag[root as int].srcs[1], now, v),
    ensures
        ({
            let copy = put(now, with_srcs(dag[root as int], seq![a, v]));
            let new = rule(Pass::Storage { from, to }, copy.dag, copy.id);
            &&& dag_wf(new.dag)
            &&& extends(now, new.dag)
            &&& new.dag.len() <= now.len() + 40
            &&& stands_right(dag, root, from, to, w, root, new.dag, new.id)
        }),
{
    reveal(is_set);
    reveal(stands_right);
    let (narrow, wide) = (format_of(from)->0, format_of(to)->0);
    lemma_arity(dag, root);
    assert(dag[root as int].srcs[0] < root && dag[root as int].srcs[1] < root);
    let want = with_srcs(dag[root as int], seq![a, v]);
    let copy = put(now, want);
    lemma_copied(now, want);
    assert(copy.dag[a as int] == now[a as int] && copy.dag[v as int] == now[v as int]);
    let bits = now[v as int].srcs[0];
    let y = widened(narrow, wide, w as int);
    lemma_widened_is_same_number(from, to, w as int);
    lemma_word_extends(now, copy.dag, bits, word_of(wide), y);
    assert(has_room(copy.dag, nothing(), 36)) by {
        reveal(has_room);
        assert(knows_leaves(copy.dag, nothing()));
    }
    lemma_lowered_is_narrowed(copy.dag, nothing(), from, to, v, y, 36);
    lemma_narrowed_comes_back(from, to, w as int);
    let less = lowered(copy.dag, narrow, wide, v);
    let last = NodeView { srcs: want.srcs.update(1, less.id), ..want };
    let n = returned(narrow, wide, w as int);
    assert(dag_wf(less.dag) && extends(copy.dag, less.dag) && less.dag.len() <= copy.dag.len() + 30
        && less.id < less.dag.len()) by {
        reveal(keeps_values);
        reveal(has_word);
    }
    lemma_copied(less.dag, last);
    let new = put(less.dag, last);
    assert(want.srcs[0] == a && want.srcs[1] == v);
    assert(now[v as int].dtype == to);
    assert(stored(copy.dag, from, to, copy.id) == Some(new));
    lemma_word_extends(less.dag, new.dag, less.id, word_of(narrow), n);
    assert(last.srcs[1] == less.id);
    let value = dag[root as int].srcs[1];
    assert(dag[value as int].op is BitCast && dag[root as int].op is Store
        && dag[dag[value as int].srcs[0] as int].op is Const
        && dag[dag[root as int].srcs[0] as int].op is Index);
}

proof fn lemma_one_step(
    dag: Seq<NodeView>,
    root: usize,
    from: DType,
    to: DType,
    w: u64,
    u: usize,
    now: Seq<NodeView>,
    srcs: Seq<usize>,
)
    requires
        is_set(dag, root, from, to, w),
        dag_wf(now),
        extends(dag, now),
        now.len() + 40 < usize::MAX,
        reaches(dag, root, u),
        u < dag.len(),
        srcs.len() == dag[u as int].srcs.len(),
        forall|k: int|
            0 <= k < srcs.len() ==> (#[trigger] srcs[k]) < now.len() && stands_right(
                dag,
                root,
                from,
                to,
                w,
                dag[u as int].srcs[k],
                now,
                srcs[k],
            ),
    ensures
        ({
            let copy = put(now, with_srcs(dag[u as int], srcs));
            let new = rule(Pass::Storage { from, to }, copy.dag, copy.id);
            &&& dag_wf(new.dag)
            &&& extends(now, new.dag)
            &&& new.dag.len() <= now.len() + 40
            &&& stands_right(dag, root, from, to, w, u, new.dag, new.id)
        }),
{
    reveal(is_set);
    let node = dag[u as int];
    if u == root {
        assert(srcs[0] < now.len() && srcs[1] < now.len());
        assert(srcs =~= seq![srcs[0], srcs[1]]);
        lemma_root_step(dag, root, from, to, w, now, srcs[0], srcs[1]);
    } else if u == dag[root as int].srcs[1] {
        assert(stands_right(dag, root, from, to, w, node.srcs[0], now, srcs[0]));
        assert(srcs[0] == node.srcs[0]) by {
            reveal(stands_right);
        }
        assert(srcs =~= seq![node.srcs[0]]);
        lemma_value_step(dag, root, from, to, w, now);
    } else {
        lemma_plain_step(dag, root, from, to, w, u, now, srcs);
    }
}

/// A walk is extended by what the rule makes of the next node.
proof fn lemma_walked_on(pass: Pass, dag: Seq<NodeView>, walk: Seq<usize>, n: nat, new: Built)
    requires
        n > 0,
        ({
            let rest = walked(pass, dag, walk, (n - 1) as nat);
            let node = dag[walk[n - 1] as int];
            let copy = put(rest.dag, with_srcs(node, moved(node.srcs, rest.stands)));
            new == rule(pass, copy.dag, copy.id)
        }),
    ensures
        ({
            let rest = walked(pass, dag, walk, (n - 1) as nat);
            let done = walked(pass, dag, walk, n);
            done.dag == new.dag && done.stands == rest.stands.insert(walk[n - 1], new.id)
        }),
{
}

/// Whether the first `n` nodes of a walk have become what they should.
#[verifier::opaque]
spec fn is_walked(
    dag: Seq<NodeView>,
    root: usize,
    from: DType,
    to: DType,
    w: u64,
    walk: Seq<usize>,
    done: Seq<NodeView>,
    stands: Map<usize, usize>,
    n: nat,
) -> bool {
    &&& dag_wf(done)
    &&& extends(dag, done)
    &&& done.len() <= dag.len() + 40 * n
    &&& forall|p: int|
        0 <= p < n ==> stands_right(dag, root, from, to, w, #[trigger] walk[p], done, stands[walk[p]])
}

proof fn lemma_walk_on(
    dag: Seq<NodeView>,
    root: usize,
    from: DType,
    to: DType,
    w: u64,
    walk: Seq<usize>,
    done: Seq<NodeView>,
    stands: Map<usize, usize>,
    n: nat,
) -> (new: Built)
    requires
        is_set(dag, root, from, to, w),
        dag_wf(dag),
        root < dag.len(),
        dag.len() * 41 + 100 < usize::MAX,
        ordered(dag, walk),
        walk.len() <= dag.len(),
        n < walk.len(),
        reaches(dag, root, walk[n as int]),
        is_walked(dag, root, from, to, w, walk, done, stands, n),
    ensures
        ({
            let node = dag[walk[n as int] as int];
            let copy = put(done, with_srcs(node, moved(node.srcs, stands)));
            new == rule(Pass::Storage { from, to }, copy.dag, copy.id)
        }),
        is_walked(
            dag,
            root,
            from,
            to,
            w,
            walk,
            new.dag,
            stands.insert(walk[n as int], new.id),
            n + 1,
        ),
{
    reveal(is_walked);
    let u = walk[n as int];
    let node = dag[u as int];
    lemma_reaches_below(dag, root, u);
    let srcs = moved(node.srcs, stands);
    assert forall|k: int| 0 <= k < srcs.len() implies (#[trigger] srcs[k]) < done.len()
        && stands_right(dag, root, from, to, w, node.srcs[k], done, srcs[k]) by {
        assert(before(walk, n as int, dag[walk[n as int] as int].srcs[k]));
        let q = choose|q: int| 0 <= q < n && #[trigger] walk[q] == node.srcs[k];
        assert(stands_right(dag, root, from, to, w, walk[q], done, stands[walk[q]]));
        reveal(stands_right);
    }
    let copy = put(done, with_srcs(node, srcs));
    let new = rule(Pass::Storage { from, to }, copy.dag, copy.id);
    lemma_one_step(dag, root, from, to, w, u, done, srcs);
    let after = stands.insert(u, new.id);
    assert forall|p: int| 0 <= p < n + 1 implies stands_right(
        dag,
        root,
        from,
        to,
        w,
        #[trigger] walk[p],
        new.dag,
        after[walk[p]],
    ) by {
        if p < n {
            assert(walk[p] != walk[n as int]);
            lemma_right_extends(dag, root, from, to, w, walk[p], done, new.dag, stands[walk[p]]);
        }
    }
    new
}

proof fn lemma_walk_steps(dag: Seq<NodeView>, root: usize, from: DType, to: DType, w: u64, n: nat)
    requires
        is_set(dag, root, from, to, w),
        dag_wf(dag),
        root < dag.len(),
        dag.len() * 41 + 100 < usize::MAX,
        n <= topo(dag, root).len(),
    ensures
        ({
            let walk = topo(dag, root);
            let done = walked(Pass::Storage { from, to }, dag, walk, n);
            is_walked(dag, root, from, to, w, walk, done.dag, done.stands, n)
        }),
    decreases n,
{
    let pass = Pass::Storage { from, to };
    let walk = topo(dag, root);
    lemma_topo(dag, root);
    lemma_distinct_len(walk, dag.len());
    if n > 0 {
        let m = (n - 1) as nat;
        lemma_walk_steps(dag, root, from, to, w, m);
        let rest = walked(pass, dag, walk, m);
        assert(walk.contains(walk[m as int]));
        let new = lemma_walk_on(dag, root, from, to, w, walk, rest.dag, rest.stands, m);
        lemma_walked_on(pass, dag, walk, n, new);
    } else {
        reveal(is_walked);
    }
}

proof fn lemma_is_apart(dag: Seq<NodeView>, root: usize, from: DType, w: u64, x: usize)
    requires
        dag_wf(dag),
        root < dag.len(),
        stores_word(dag, root, from, w),
        reaches(dag, root, x),
    ensures
        is_apart(dag, x),
{
    let node = dag[root as int];
    let (address, value) = (node.srcs[0], node.srcs[1]);
    lemma_arity(dag, root);
    assert(dag[root as int].srcs[0] < root && dag[root as int].srcs[1] < root);
    lemma_reaches_below(dag, root, x);
    if x == root {
        assert(reaches(dag, address, address));
        assert(reaches(dag, root, address));
        let at = dag[address as int];
        if at.srcs.len() == 2 {
            assert(dag[address as int].srcs[1] < address);
            assert(reaches(dag, at.srcs[1], at.srcs[1]));
            assert(reaches(dag, address, at.srcs[1]));
            assert(reaches(dag, root, at.srcs[1]));
        }
    } else if x == value {
        let word = dag[value as int].srcs[0];
        assert(dag[value as int].srcs[0] < value);
        assert(width(dag, word) == 1);
        assert(widest(dag, value, 0) == 1);
        assert(widest(dag, value, 1) == 1);
        assert(width(dag, value) == 1);
    }
}

/// Where floats of a type are held in words, a word that is read as one and
/// stored is stored as the same word, where it is a number that is not too small
/// or an infinity. Too small a number is stored as a zero, of the same sign
/// where there are two, and what is no number as the one encoding for that.
pub proof fn lemma_stored_word_comes_back(
    dag: Seq<NodeView>,
    root: usize,
    from: DType,
    to: DType,
    w: u64,
    new: Built,
)
    requires
        dag_wf(dag),
        root < dag.len(),
        dag.len() * 41 + 100 < usize::MAX,
        format_of(from) is Some,
        format_of(to) is Some,
        is_wider(format_of(from)->0, format_of(to)->0),
        is_word(format_of(from)->0, w as int),
        stores_word(dag, root, from, w),
        decomposes(dag, root, from, to, new),
    ensures
        ({
            let (narrow, wide) = (format_of(from)->0, format_of(to)->0);
            &&& new.dag[new.id as int].op is Store
            &&& new.dag[new.id as int].srcs.len() == 2
            &&& new.dag[new.id as int].srcs[1] < new.dag.len()
            &&& value_of(new.dag, nothing(), new.dag[new.id as int].srcs[1]) == Some(
                ConstValue::UInt(returned(narrow, wide, w as int) as u64),
            )
        }),
{
    reveal(is_set);
    reveal(stands_right);
    reveal(decomposes);
    let pass = Pass::Storage { from, to };
    assert forall|i: usize| reaches(dag, root, i) implies #[trigger] rule(
        Pass::Devectorize,
        dag,
        i,
    ) == (Built { dag, id: i }) by {
        lemma_is_apart(dag, root, from, w, i);
    }
    lemma_settled_graph_is_kept(Pass::Devectorize, dag, root);
    assert(new == rewritten(pass, dag, root));
    let walk = topo(dag, root);
    lemma_topo(dag, root);
    lemma_walk_steps(dag, root, from, to, w, walk.len());
    reveal(is_walked);
    assert(walk[walk.len() - 1] == root);
    reveal(has_word);
}

} // verus!
