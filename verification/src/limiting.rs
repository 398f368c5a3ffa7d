//! What a value is that is staged to keep a kernel within a limit.

use vstd::prelude::*;

use crate::builders::{lemma_interned_keeps, put};
use crate::graph::{
    dag_wf, lemma_interned_wf, AddrSpace, AxisId, AxisType, NodeView, Op,
};
use crate::limits::{open_loops, paired, renewed, staged};
use crate::meaning::{is_leaf, lemma_arity, lemma_meaning, lemma_meaning_extends, meaning};
use crate::passes::{extends, lemma_put};
use crate::scope::{in_scope, lemma_scope_is_range_below};
use crate::subst::{
    exchanges, lemma_substituted_grows, lemma_substitution_means, lookup, substituted, visible,
};
use crate::topo::{lemma_distinct_len, lemma_push_contains};

verus! {

/// Whether a loop is another one under a new number; a launch over devices is
/// itself.
pub open spec fn is_renewed(
    dag: Seq<NodeView>,
    more: Seq<NodeView>,
    old_: usize,
    new: usize,
    number: int,
) -> bool {
    let node = dag[old_ as int];
    match node.op {
        Op::Range { kind, .. } => if kind == AxisType::Device {
            new == old_
        } else {
            more[new as int] == (NodeView {
                op: Op::Range { axis: AxisId::Unrenumbered(number as usize), kind },
                dtype: node.dtype,
                srcs: node.srcs,
            })
        },
        _ => new == old_,
    }
}

/// How many of the first `n` loops take a new number.
pub open spec fn renewed_before(dag: Seq<NodeView>, loops: Seq<usize>, n: nat) -> nat
    decreases n,
{
    if n == 0 {
        0
    } else {
        renewed_before(dag, loops, (n - 1) as nat) + if dag[loops[n - 1] as int].op matches Op::Range {
            kind,
            ..
        } && kind != AxisType::Device {
            1nat
        } else {
            0nat
        }
    }
}

proof fn lemma_open_loops(dag: Seq<NodeView>, id: usize, n: nat)
    requires
        n <= usize::MAX,
    ensures
        open_loops(dag, id, n).no_duplicates(),
        forall|x: usize| #[trigger]
            open_loops(dag, id, n).contains(x) <==> x < n && in_scope(dag, id, x),
    decreases n,
{
    if n > 0 {
        lemma_open_loops(dag, id, (n - 1) as nat);
        let rest = open_loops(dag, id, (n - 1) as nat);
        let last = (n - 1) as usize;
        assert(!rest.contains(last));
        assert forall|x: usize| #[trigger] open_loops(dag, id, n).contains(x) <==> x < n && in_scope(
            dag,
            id,
            x,
        ) by {
            lemma_push_contains(rest, last, x);
            assert(rest.contains(x) <==> x < n - 1 && in_scope(dag, id, x));
        }
    }
}

proof fn lemma_renewed(dag: Seq<NodeView>, next: usize, loops: Seq<usize>, n: nat)
    requires
        dag_wf(dag),
        n <= loops.len(),
        next + loops.len() <= usize::MAX,
        forall|k: int|
            0 <= k < loops.len() ==> (#[trigger] loops[k]) < dag.len()
                && dag[loops[k] as int].op is Range,
        renewed(dag, next, loops, n).dag.len() <= usize::MAX,
    ensures
        ({
            let all = renewed(dag, next, loops, n);
            &&& dag_wf(all.dag)
            &&& extends(dag, all.dag)
            &&& all.loops.len() == n
            &&& all.next == next + renewed_before(dag, loops, n)
            &&& renewed_before(dag, loops, n) <= n
            &&& forall|k: int|
                0 <= k < n ==> (#[trigger] all.loops[k]) < all.dag.len() && is_renewed(
                    dag,
                    all.dag,
                    loops[k],
                    all.loops[k],
                    next + renewed_before(dag, loops, k as nat),
                )
        }),
    decreases n,
{
    if n > 0 {
        let before = renewed(dag, next, loops, (n - 1) as nat);
        let all = renewed(dag, next, loops, n);
        let old_ = loops[n - 1];
        let node = dag[old_ as int];
        let kind = node.op->Range_kind;
        let want = NodeView {
            op: Op::Range { axis: AxisId::Unrenumbered(before.next), kind },
            dtype: node.dtype,
            srcs: node.srcs,
        };
        lemma_interned_keeps(before.dag, want);
        lemma_renewed(dag, next, loops, (n - 1) as nat);
        lemma_arity(dag, old_);
        if kind != AxisType::Device {
            assert forall|k: int| 0 <= k < want.srcs.len() implies (#[trigger] want.srcs[k])
                < before.dag.len() by {
                assert(dag[old_ as int].srcs[k] < old_);
            }
            lemma_interned_wf(before.dag, want);
            lemma_put(before.dag, want);
        }
        assert forall|k: int| 0 <= k < n implies (#[trigger] all.loops[k]) < all.dag.len()
            && is_renewed(
            dag,
            all.dag,
            loops[k],
            all.loops[k],
            next + renewed_before(dag, loops, k as nat),
        ) by {
            if k < n - 1 {
                assert(all.loops[k] == before.loops[k]);
                assert(all.dag[before.loops[k] as int] == before.dag[before.loops[k] as int]);
            } else {
                assert(k as nat == (n - 1) as nat);
            }
        }
    }
}

proof fn lemma_paired(a: Seq<usize>, b: Seq<usize>, x: usize, n: nat)
    requires
        a.len() == b.len(),
        n <= a.len(),
        a.no_duplicates(),
    ensures
        match lookup(paired(a, b).take(n as int), x) {
            Some(new) => exists|k: int| 0 <= k < n && #[trigger] a[k] == x && b[k] == new,
            None => forall|k: int| 0 <= k < n ==> #[trigger] a[k] != x,
        },
    decreases n,
{
    let part = paired(a, b).take(n as int);
    if n > 0 {
        lemma_paired(a, b, x, (n - 1) as nat);
        assert(part.drop_last() =~= paired(a, b).take(n - 1));
        assert(part.last() == (a[n - 1], b[n - 1]));
    }
}

/// A value that is staged to keep a kernel within a limit is computed over new
/// loops of the same extents, one for each loop that it runs in, and read back
/// along those: at each step it is the value that it was.
#[verifier::spinoff_prover]
#[verifier::rlimit(40)]
pub proof fn lemma_staged_operand_is_read_back(
    dag: Seq<NodeView>,
    next: usize,
    id: usize,
    at: spec_fn(Op) -> int,
    then: spec_fn(Op) -> int,
)
    requires
        dag_wf(dag),
        id < dag.len() <= usize::MAX,
        next + dag.len() <= usize::MAX,
        staged(dag, next, id).0.dag.len() <= usize::MAX,
        ({
            let new = staged(dag, next, id).0;
            let stage = new.dag[new.dag[new.id as int].srcs[0] as int];
            &&& forall|k: int|
                1 <= k < stage.srcs.len() ==> at(
                    new.dag[(#[trigger] stage.srcs[k]) as int].op,
                ) == then(dag[new.dag[new.id as int].srcs[k] as int].op)
            &&& forall|x: usize|
                x < dag.len() && is_leaf((#[trigger] dag[x as int]).op) && !in_scope(dag, id, x)
                    ==> at(dag[x as int].op) == then(dag[x as int].op)
        }),
    ensures
        ({
            let (new, after) = staged(dag, next, id);
            let own = new.dag[new.id as int];
            let stage = new.dag[own.srcs[0] as int];
            let loops = own.srcs.skip(1);
            &&& own.op is Index
            &&& own.dtype == dag[id as int].dtype
            &&& stage.op == (Op::Stage { space: AddrSpace::Global, removable: true })
            &&& stage.dtype == dag[id as int].dtype
            &&& stage.srcs.len() == own.srcs.len()
            &&& loops.no_duplicates()
            &&& forall|x: usize| #[trigger] loops.contains(x) <==> in_scope(dag, id, x) && x < dag.len()
            &&& after == next + renewed_before(dag, loops, loops.len())
            &&& forall|k: int|
                0 <= k < loops.len() ==> is_renewed(
                    dag,
                    new.dag,
                    #[trigger] loops[k],
                    stage.srcs[k + 1],
                    next + renewed_before(dag, loops, k as nat),
                )
            &&& meaning(new.dag, stage.srcs[0], at) == meaning(dag, id, then)
        }),
{
    let loops = open_loops(dag, id, dag.len());
    lemma_open_loops(dag, id, dag.len());
    assert forall|k: int| 0 <= k < loops.len() implies (#[trigger] loops[k]) < dag.len()
        && dag[loops[k] as int].op is Range by {
        assert(loops.contains(loops[k]));
        lemma_scope_is_range_below(dag, id, loops[k]);
    }
    assert(loops.len() <= dag.len()) by {
        lemma_distinct_len(loops, dag.len());
    }
    let fresh = renewed(dag, next, loops, loops.len());
    let pairs = paired(loops, fresh.loops);
    let value = substituted(fresh.dag, id, pairs);
    let dtype = dag[id as int].dtype;
    let want = NodeView {
        op: Op::Stage { space: AddrSpace::Global, removable: true },
        dtype,
        srcs: seq![value.id] + fresh.loops,
    };
    let stage = put(value.dag, want);
    let last = NodeView { op: Op::Index, dtype, srcs: seq![stage.id] + loops };
    let new = put(stage.dag, last);
    lemma_interned_keeps(stage.dag, last);
    lemma_interned_keeps(value.dag, want);
    lemma_substituted_grows(fresh.dag, id, pairs);
    lemma_renewed(dag, next, loops, loops.len());
    lemma_put(value.dag, want);
    lemma_put(stage.dag, last);
    assert(new.dag[new.id as int] == last);
    assert(new.dag[stage.id as int] == want);
    assert(last.srcs.skip(1) =~= loops);
    assert(extends(fresh.dag, new.dag));
    assert(exchanges(fresh.dag, id, pairs, at, then)) by {
        assert forall|x: usize| #[trigger] visible(fresh.dag, id, x) implies match lookup(pairs, x) {
            Some(one) => one < fresh.dag.len() && meaning(fresh.dag, one, at) == meaning(
                fresh.dag,
                x,
                then,
            ),
            None => is_leaf(fresh.dag[x as int].op) ==> at(fresh.dag[x as int].op) == then(
                fresh.dag[x as int].op,
            ),
        } by {
            lemma_paired(loops, fresh.loops, x, loops.len());
            assert(pairs.take(loops.len() as int) =~= pairs);
            assert(x <= id);
            assert(fresh.dag[x as int] == dag[x as int]);
            match lookup(pairs, x) {
                Some(one) => {
                    let k = choose|k: int|
                        0 <= k < loops.len() && #[trigger] loops[k] == x && fresh.loops[k] == one;
                    assert(want.srcs[k + 1] == fresh.loops[k]);
                    assert(last.srcs[k + 1] == loops[k]);
                    assert(at(new.dag[want.srcs[k + 1] as int].op) == then(dag[x as int].op));
                    assert(new.dag[one as int] == fresh.dag[one as int]);
                    assert(fresh.dag[one as int].op is Range);
                    lemma_meaning(fresh.dag, one, at);
                    lemma_meaning(fresh.dag, x, then);
                },
                None => {
                    assert(!loops.contains(x));
                },
            }
        }
    }
    lemma_substitution_means(fresh.dag, id, pairs, at, then);
    assert forall|k: int| 0 <= k < want.srcs.len() implies (#[trigger] want.srcs[k])
        < value.dag.len() by {
        if k > 0 {
            assert(want.srcs[k] == fresh.loops[k - 1]);
        }
    }
    lemma_interned_wf(value.dag, want);
    assert forall|k: int| 0 <= k < last.srcs.len() implies (#[trigger] last.srcs[k])
        < stage.dag.len() by {
        if k > 0 {
            assert(last.srcs[k] == loops[k - 1]);
        }
    }
    lemma_interned_wf(stage.dag, last);
    lemma_meaning_extends(value.dag, new.dag, value.id, at);
    lemma_meaning_extends(dag, fresh.dag, id, then);
    assert forall|k: int| 0 <= k < loops.len() implies is_renewed(
        dag,
        new.dag,
        #[trigger] loops[k],
        want.srcs[k + 1],
        next + renewed_before(dag, loops, k as nat),
    ) by {
        assert(want.srcs[k + 1] == fresh.loops[k]);
        assert(new.dag[fresh.loops[k] as int] == fresh.dag[fresh.loops[k] as int]);
    }
}

} // verus!
