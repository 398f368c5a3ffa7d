//! What a program stores, with the gates of its stores and with branches in
//! their place.

use vstd::prelude::*;

use crate::builders::{lemma_interned_keeps, put};
use crate::graph::{dag_wf, NodeView, Op};
use crate::lines::{bare_store, cleaned, endif_node, if_node, is_gated_store, line, Lines};
use crate::passes::{extends, lemma_put};

verus! {

/// What has been stored by a program so far, where, and whether the next line
/// runs.
pub struct Run {
    pub on: bool,
    pub stored: Seq<(usize, usize)>,
}

/// A run with one more line: a branch decides whether the lines up to its end
/// run, and a store under a gate is made where its condition holds.
pub open spec fn run_line(node: NodeView, holds: spec_fn(usize) -> bool, run: Run) -> Run {
    match node.op {
        Op::If => Run { on: holds(node.srcs[0]), ..run },
        Op::EndIf => Run { on: true, ..run },
        Op::Store => if run.on && (node.srcs.len() < 3 || holds(node.srcs[2])) {
            Run { stored: run.stored.push((node.srcs[0], node.srcs[1])), ..run }
        } else {
            run
        },
        _ => run,
    }
}

/// A run of the first `n` lines of a program.
pub open spec fn run_lines(
    dag: Seq<NodeView>,
    list: Seq<usize>,
    holds: spec_fn(usize) -> bool,
    n: nat,
) -> Run
    decreases n,
{
    if n == 0 {
        Run { on: true, stored: Seq::empty() }
    } else {
        run_line(dag[list[n - 1] as int], holds, run_lines(dag, list, holds, (n - 1) as nat))
    }
}

proof fn lemma_same_run(
    dag: Seq<NodeView>,
    more: Seq<NodeView>,
    list: Seq<usize>,
    longer: Seq<usize>,
    holds: spec_fn(usize) -> bool,
    n: nat,
)
    requires
        n <= list.len(),
        n <= longer.len(),
        forall|i: int| 0 <= i < n ==> list[i] == #[trigger] longer[i],
        forall|i: int| 0 <= i < n ==> (#[trigger] longer[i]) < dag.len(),
        extends(dag, more),
    ensures
        run_lines(more, longer, holds, n) == run_lines(dag, list, holds, n),
    decreases n,
{
    if n > 0 {
        lemma_same_run(dag, more, list, longer, holds, (n - 1) as nat);
        assert(longer[n - 1] < dag.len());
        assert(more[longer[n - 1] as int] == dag[list[n - 1] as int]);
    }
}

proof fn lemma_line_runs(
    lines: Lines,
    id: usize,
    holds: spec_fn(usize) -> bool,
)
    requires
        id < lines.dag.len(),
        forall|i: int| 0 <= i < lines.list.len() ==> (#[trigger] lines.list[i]) < lines.dag.len(),
        line(lines, id).dag.len() <= usize::MAX,
        run_lines(lines.dag, lines.list, holds, lines.list.len()).on,
        !(lines.dag[id as int].op is If),
        !(lines.dag[id as int].op is EndIf),
    ensures
        ({
            let more = line(lines, id);
            &&& extends(lines.dag, more.dag)
            &&& lines.dag.len() <= more.dag.len()
            &&& forall|i: int| 0 <= i < more.list.len() ==> (#[trigger] more.list[i]) < more.dag.len()
            &&& run_lines(more.dag, more.list, holds, more.list.len()) == run_line(
                lines.dag[id as int],
                holds,
                run_lines(lines.dag, lines.list, holds, lines.list.len()),
            )
        }),
{
    let more = line(lines, id);
    let n = lines.list.len();
    let before = run_lines(lines.dag, lines.list, holds, n);
    if is_gated_store(lines.dag, id) {
        let store = lines.dag[id as int];
        let opened = put(lines.dag, if_node(store));
        let stored = put(opened.dag, bare_store(store));
        let closed = put(stored.dag, endif_node(opened.id));
        lemma_interned_keeps(stored.dag, endif_node(opened.id));
        lemma_interned_keeps(opened.dag, bare_store(store));
        lemma_interned_keeps(lines.dag, if_node(store));
        lemma_put(lines.dag, if_node(store));
        lemma_put(opened.dag, bare_store(store));
        lemma_put(stored.dag, endif_node(opened.id));
        assert(more.dag == closed.dag);
        assert(more.list =~= lines.list + seq![opened.id, stored.id, closed.id]);
        lemma_same_run(lines.dag, more.dag, lines.list, more.list, holds, n);
        assert(more.dag[opened.id as int] == if_node(store));
        assert(more.dag[stored.id as int] == bare_store(store));
        assert(more.dag[closed.id as int] == endif_node(opened.id));
        assert(more.list[n as int] == opened.id);
        assert(more.list[n as int + 1] == stored.id);
        assert(more.list[n as int + 2] == closed.id);
        let first = run_line(if_node(store), holds, before);
        let second = run_line(bare_store(store), holds, first);
        let third = run_line(endif_node(opened.id), holds, second);
        assert(run_lines(more.dag, more.list, holds, n + 1) == first);
        assert(run_lines(more.dag, more.list, holds, n + 2) == second);
        assert(run_lines(more.dag, more.list, holds, n + 3) == third);
        assert(more.list.len() == n + 3);
    } else {
        lemma_same_run(lines.dag, more.dag, lines.list, more.list, holds, n);
        assert(more.list[n as int] == id);
    }
}

proof fn lemma_cleaned_grows(dag: Seq<NodeView>, list: Seq<usize>, n: nat, m: nat)
    requires
        n <= m,
    ensures
        cleaned(dag, list, n).dag.len() <= cleaned(dag, list, m).dag.len(),
    decreases m,
{
    if n < m {
        lemma_cleaned_grows(dag, list, n, (m - 1) as nat);
        let lines = cleaned(dag, list, (m - 1) as nat);
        let id = list[m - 1];
        if is_gated_store(lines.dag, id) {
            let store = lines.dag[id as int];
            let opened = put(lines.dag, if_node(store));
            let stored = put(opened.dag, bare_store(store));
            lemma_interned_keeps(lines.dag, if_node(store));
            lemma_interned_keeps(opened.dag, bare_store(store));
            lemma_interned_keeps(stored.dag, endif_node(opened.id));
        }
    }
}

/// A program stores the same values to the same addresses, in the same order,
/// whether its stores are gated or stand in branches, whatever the gates hold.
pub proof fn lemma_branches_store_what_gates_let_through(
    dag: Seq<NodeView>,
    list: Seq<usize>,
    holds: spec_fn(usize) -> bool,
    n: nat,
)
    requires
        dag_wf(dag),
        n <= list.len(),
        forall|i: int|
            0 <= i < list.len() ==> (#[trigger] list[i]) < dag.len() && !(
            dag[list[i] as int].op is If) && !(dag[list[i] as int].op is EndIf),
        cleaned(dag, list, n).dag.len() <= usize::MAX,
    ensures
        ({
            let lines = cleaned(dag, list, n);
            &&& extends(dag, lines.dag)
            &&& forall|i: int|
                0 <= i < lines.list.len() ==> (#[trigger] lines.list[i]) < lines.dag.len()
            &&& run_lines(lines.dag, lines.list, holds, lines.list.len()) == run_lines(
                dag,
                list,
                holds,
                n,
            )
            &&& run_lines(dag, list, holds, n).on
        }),
    decreases n,
{
    if n > 0 {
        let before = cleaned(dag, list, (n - 1) as nat);
        lemma_cleaned_grows(dag, list, (n - 1) as nat, n);
        lemma_branches_store_what_gates_let_through(dag, list, holds, (n - 1) as nat);
        let id = list[n - 1];
        assert(before.dag[id as int] == dag[id as int]);
        lemma_line_runs(before, id, holds);
    }
}

/// No store of a program is left under a gate that has a branch in its place.
pub proof fn lemma_no_gated_store_is_left(dag: Seq<NodeView>, list: Seq<usize>, n: nat)
    requires
        dag_wf(dag),
        n <= list.len(),
        forall|i: int| 0 <= i < list.len() ==> (#[trigger] list[i]) < dag.len(),
        cleaned(dag, list, n).dag.len() <= usize::MAX,
    ensures
        ({
            let lines = cleaned(dag, list, n);
            &&& extends(dag, lines.dag)
            &&& forall|i: int|
                0 <= i < lines.list.len() ==> (#[trigger] lines.list[i]) < lines.dag.len() && (
                lines.dag[lines.list[i] as int].op is Store
                    && lines.dag[lines.list[i] as int].srcs.len() == 3 ==> exists|k: int|
                    0 <= k < n && lines.list[i] == #[trigger] list[k] && !is_gated_store(
                        cleaned(dag, list, k as nat).dag,
                        list[k],
                    ))
        }),
    decreases n,
{
    if n > 0 {
        let lines = cleaned(dag, list, (n - 1) as nat);
        let id = list[n - 1];
        let more = cleaned(dag, list, n);
        lemma_cleaned_grows(dag, list, (n - 1) as nat, n);
        lemma_no_gated_store_is_left(dag, list, (n - 1) as nat);
        if is_gated_store(lines.dag, id) {
            let store = lines.dag[id as int];
            let opened = put(lines.dag, if_node(store));
            let stored = put(opened.dag, bare_store(store));
            let closed = put(stored.dag, endif_node(opened.id));
            lemma_interned_keeps(stored.dag, endif_node(opened.id));
            lemma_interned_keeps(opened.dag, bare_store(store));
            lemma_put(lines.dag, if_node(store));
            lemma_put(opened.dag, bare_store(store));
            lemma_put(stored.dag, endif_node(opened.id));
            assert(more.dag == closed.dag);
            assert(more.list =~= lines.list + seq![opened.id, stored.id, closed.id]);
            assert(more.dag[opened.id as int] == if_node(store));
            assert(more.dag[stored.id as int] == bare_store(store));
            assert(more.dag[closed.id as int] == endif_node(opened.id));
        } else {
            assert(more.list =~= lines.list.push(id));
            assert(list[n - 1] == id);
        }
        assert forall|i: int| 0 <= i < more.list.len() implies (#[trigger] more.list[i])
            < more.dag.len() && (more.dag[more.list[i] as int].op is Store
            && more.dag[more.list[i] as int].srcs.len() == 3 ==> exists|k: int|
            0 <= k < n && more.list[i] == #[trigger] list[k] && !is_gated_store(
                cleaned(dag, list, k as nat).dag,
                list[k],
            )) by {
            if i < lines.list.len() {
                assert(more.list[i] == lines.list[i]);
                assert(more.dag[lines.list[i] as int] == lines.dag[lines.list[i] as int]);
            }
        }
    }
}

} // verus!
