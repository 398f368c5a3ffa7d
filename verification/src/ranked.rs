//! Programs by rank: the keys of all nodes become numbers first, and only
//! numbers are compared from there on.

use vstd::prelude::*;

use crate::graph::{dag_wf, Graph, NodeView};
use crate::keys::{lemma_tree_order_flips, order_row_ok, Keys, Order};
use crate::linearize::{
    by_key, counts_by_node, lemma_by_key_is_total, lemma_ranks_follow_keys, lemma_taken_once,
    placement, placement_order, places_of, rank_table, take_sorted, taken, topological, wanted,
};
use crate::scope::{countable, trips};
use crate::sort::{
    in_order, lemma_orders_agree, lemma_slot, lemma_sorted_members, lemma_stably_sorted,
    lemma_ties_keep_their_order, slot, stable_sort, stably_sorted, total_preorder,
};
use crate::topo::{lemma_distinct_len, lemma_reaches_below, lemma_topo, reaches, topo};

verus! {

/// Whether a table holds how all nodes compare by their keys.
spec fn is_tabled(dag: Seq<NodeView>, keys: &Keys, table: Seq<Vec<Order>>) -> bool {
    &&& table.len() == dag.len()
    &&& forall|a: usize| a < dag.len() ==> order_row_ok(*keys, dag, a, #[trigger] table[a as int]@)
}

fn may_stand(
    table: &Vec<Vec<Order>>,
    a: usize,
    b: usize,
    Ghost(dag): Ghost<Seq<NodeView>>,
    keys: &Keys,
) -> (r: bool)
    requires
        is_tabled(dag, keys, table@),
        a < dag.len(),
        b < dag.len(),
    ensures
        r == by_key(dag, keys)(a, b),
{
    assert(order_row_ok(*keys, dag, a, table@[a as int]@));
    assert(table@[a as int]@[b as int] == keys.order(dag, a, b));
    match table[a][b] {
        Order::Greater => false,
        _ => true,
    }
}

/// Where a node goes into a sorted list, found by halving the list.
fn find_slot(
    table: &Vec<Vec<Order>>,
    sorted: &Vec<usize>,
    x: usize,
    Ghost(dag): Ghost<Seq<NodeView>>,
    keys: &Keys,
) -> (at: usize)
    requires
        is_tabled(dag, keys, table@),
        x < dag.len(),
        forall|i: int| 0 <= i < sorted@.len() ==> (#[trigger] sorted@[i]) < dag.len(),
        in_order(by_key(dag, keys), sorted@),
    ensures
        at == slot(by_key(dag, keys), sorted@, x),
{
    let ghost le = by_key(dag, keys);
    proof {
        lemma_by_key_is_total(dag, keys);
    }
    let mut low: usize = 0;
    let mut high: usize = sorted.len();
    while low < high
        invariant
            low <= high <= sorted@.len(),
            is_tabled(dag, keys, table@),
            x < dag.len(),
            forall|i: int| 0 <= i < sorted@.len() ==> (#[trigger] sorted@[i]) < dag.len(),
            le == by_key(dag, keys),
            total_preorder(le),
            in_order(le, sorted@),
            forall|i: int| 0 <= i < low ==> le(#[trigger] sorted@[i], x),
            forall|i: int| high <= i < sorted@.len() ==> !le(#[trigger] sorted@[i], x),
        decreases high - low,
    {
        let middle: usize = low + (high - low) / 2;
        if may_stand(table, sorted[middle], x, Ghost(dag), keys) {
            assert forall|i: int| 0 <= i < middle + 1 implies le(#[trigger] sorted@[i], x) by {
                if i < middle {
                    assert(le(sorted@[i], sorted@[middle as int]));
                }
            }
            low = middle + 1;
        } else {
            assert forall|i: int| middle <= i < sorted@.len() implies !le(
                #[trigger] sorted@[i],
                x,
            ) by {
                if i > middle {
                    assert(le(sorted@[middle as int], sorted@[i]));
                }
            }
            high = middle;
        }
    }
    proof {
        lemma_slot(le, sorted@, x);
        let k = slot(le, sorted@, x) as int;
        if k < low {
            assert(le(sorted@[k], x));
        }
        if k > low {
            assert(!le(sorted@[k - 1], x));
        }
    }
    low
}

/// The ranks of listed nodes by their keys: each node is put where it goes
/// among those before it. Nodes with the same key rank in the order of the
/// list.
pub fn tuplize_ranks(graph: &Graph, nodes: &Vec<usize>, keys: &Keys) -> (ranks: Vec<usize>)
    requires
        graph.wf(),
        keys.covers(graph@.len()),
        nodes@.no_duplicates(),
        forall|i: int| 0 <= i < nodes@.len() ==> (#[trigger] nodes@[i]) < graph@.len(),
    ensures
        rank_table(graph@, keys, nodes@, ranks@),
{
    let ghost dag = graph@;
    let ghost le = by_key(dag, keys);
    let table = keys.table(graph);
    let mut sorted: Vec<usize> = Vec::new();
    let mut n: usize = 0;
    proof {
        lemma_by_key_is_total(dag, keys);
        assert(sorted@ =~= stably_sorted(le, nodes@.take(0)));
    }
    while n < nodes.len()
        invariant
            is_tabled(dag, keys, table@),
            le == by_key(dag, keys),
            total_preorder(le),
            n <= nodes@.len(),
            sorted@.len() == n,
            forall|i: int| 0 <= i < nodes@.len() ==> (#[trigger] nodes@[i]) < dag.len(),
            sorted@ == stably_sorted(le, nodes@.take(n as int)),
        decreases nodes@.len() - n,
    {
        let x: usize = nodes[n];
        let ghost whole = sorted@;
        let ghost had = nodes@.take(n as int);
        let ghost now = nodes@.take(n + 1);
        proof {
            lemma_stably_sorted(le, had);
            lemma_sorted_members(le, had);
            assert forall|i: int| 0 <= i < whole.len() implies (#[trigger] whole[i]) < dag.len() by {
                assert(whole.contains(whole[i]));
                assert(had.contains(whole[i]));
            }
        }
        let at: usize = find_slot(&table, &sorted, x, Ghost(dag), keys);
        proof {
            lemma_slot(le, whole, x);
        }
        sorted.insert(at, x);
        proof {
            assert(sorted@ =~= whole.take(at as int).push(x) + whole.skip(at as int));
            assert(now.drop_last() =~= had);
            assert(now.last() == x);
        }
        n += 1;
    }
    proof {
        assert(nodes@.take(nodes@.len() as int) =~= nodes@);
        lemma_sorted_members(le, nodes@);
        assert forall|i: int| 0 <= i < sorted@.len() implies (#[trigger] sorted@[i]) < dag.len() by {
            assert(sorted@.contains(sorted@[i]));
            assert(nodes@.contains(sorted@[i]));
        }
    }
    let places = places_of(&sorted, graph.len());
    let mut ranks: Vec<usize> = Vec::new();
    let mut at: usize = 0;
    while at < nodes.len()
        invariant
            places@.len() == dag.len(),
            sorted@.len() == nodes@.len(),
            forall|i: int| 0 <= i < sorted@.len() ==> places@[(#[trigger] sorted@[i]) as int] == i,
            forall|x: usize| #[trigger] sorted@.contains(x) <==> nodes@.contains(x),
            forall|i: int| 0 <= i < nodes@.len() ==> (#[trigger] nodes@[i]) < dag.len(),
            at <= nodes@.len(),
            ranks@.len() == at,
            forall|i: int|
                0 <= i < at ==> (#[trigger] ranks@[i]) < nodes@.len() && sorted@[ranks@[i] as int]
                    == nodes@[i],
        decreases nodes@.len() - at,
    {
        let x: usize = nodes[at];
        assert(nodes@.contains(x));
        assert(sorted@.contains(x));
        let ghost p = choose|p: int| 0 <= p < sorted@.len() && sorted@[p] == x;
        assert(places@[sorted@[p] as int] == p);
        ranks.push(places[x]);
        at += 1;
    }
    ranks
}

/// The ranks of listed nodes are what their keys make them: there is one table
/// of them.
pub proof fn lemma_ranks_are_one(
    dag: Seq<NodeView>,
    keys: &Keys,
    nodes: Seq<usize>,
    a: Seq<usize>,
    b: Seq<usize>,
)
    requires
        nodes.no_duplicates(),
        rank_table(dag, keys, nodes, a),
        rank_table(dag, keys, nodes, b),
    ensures
        a == b,
{
    let sorted = stably_sorted(by_key(dag, keys), nodes);
    lemma_sorted_members(by_key(dag, keys), nodes);
    assert forall|i: int| 0 <= i < nodes.len() implies a[i] == b[i] by {
        assert(sorted[a[i] as int] == nodes[i] && sorted[b[i] as int] == nodes[i]);
    }
    assert(a =~= b);
}

/// The order of nodes by placement and then by rank.
spec fn by_rank(
    dag: Seq<NodeView>,
    priorities: Seq<(i32, Option<i64>)>,
    ranks: Seq<usize>,
) -> spec_fn(usize, usize) -> bool {
    |a: usize, b: usize|
        {
            let order = placement_order(
                placement(dag, priorities, a),
                placement(dag, priorities, b),
            );
            order == Order::Less || (order == Order::Equal && ranks[a as int] <= ranks[b as int])
        }
}

/// What two nodes are compared by.
spec fn weighs(
    dag: Seq<NodeView>,
    priorities: Seq<(i32, Option<i64>)>,
    counts: Seq<u64>,
    ranks: Seq<usize>,
    a: usize,
) -> bool {
    &&& a < dag.len()
    &&& counts.len() == dag.len()
    &&& counts[a as int] == trips(dag, a, dag.len())
    &&& priorities.len() == dag.len()
    &&& ranks.len() == dag.len()
}

fn may_precede(
    graph: &Graph,
    priorities: &Vec<(i32, Option<i64>)>,
    counts: &Vec<u64>,
    ranks: &Vec<usize>,
    a: usize,
    b: usize,
) -> (r: bool)
    requires
        weighs(graph@, priorities@, counts@, ranks@, a),
        weighs(graph@, priorities@, counts@, ranks@, b),
    ensures
        r == by_rank(graph@, priorities@, ranks@)(a, b),
{
    if counts[a] != counts[b] {
        return counts[a] < counts[b];
    }
    if priorities[a].0 != priorities[b].0 {
        return priorities[a].0 < priorities[b].0;
    }
    let tied: bool = ranks[a] <= ranks[b];
    match (priorities[a].1, priorities[b].1) {
        (None, None) => tied,
        (None, Some(_)) => true,
        (Some(_), None) => false,
        (Some(x), Some(y)) => x < y || (x == y && tied),
    }
}

/// Of two nodes of a walk, the first has the smaller rank where it may stand
/// before the other by its key, and the greater one where it may not.
proof fn lemma_ranks_decide(
    dag: Seq<NodeView>,
    keys: &Keys,
    walk: Seq<usize>,
    ranks: Seq<usize>,
    i: int,
    j: int,
)
    requires
        walk.no_duplicates(),
        rank_table(dag, keys, walk, ranks),
        0 <= i < j < walk.len(),
    ensures
        ranks[i] <= ranks[j] <==> keys.order(dag, walk[i], walk[j]) != Order::Greater,
{
    let le = by_key(dag, keys);
    if le(walk[i], walk[j]) {
        assert(ranks[i] < walk.len() && ranks[j] < walk.len());
        lemma_ties_keep_their_order(le, walk, i, j, ranks[i] as int, ranks[j] as int);
    } else {
        lemma_tree_order_flips(keys.key(dag, walk[i]), keys.key(dag, walk[j]));
        lemma_ranks_follow_keys(dag, keys, walk, ranks, j, i);
    }
}

/// The program of the graph below a sink, by the ranks of its nodes: the same
/// nodes are taken one after the other as by whole keys.
pub fn linearize(
    graph: &Graph,
    sink: usize,
    priorities: &Vec<(i32, Option<i64>)>,
    keys: &Keys,
) -> (list: Vec<usize>)
    requires
        graph.wf(),
        sink < graph@.len(),
        forall|x: usize| #[trigger] reaches(graph@, sink, x) ==> countable(graph@, x),
        priorities@.len() == graph@.len(),
        keys.covers(graph@.len()),
    ensures
        taken(
            graph@,
            sink,
            stably_sorted(wanted(graph@, priorities@, keys), topo(graph@, sink)),
            list@.reverse(),
        ),
        topological(graph@, sink, list@),
{
    let ghost dag = graph@;
    let walk = graph.toposort(sink);
    proof {
        lemma_topo(dag, sink);
        lemma_distinct_len(walk@, dag.len());
        assert forall|i: int| 0 <= i < walk@.len() implies countable(dag, #[trigger] walk@[i])
            && walk@[i] < dag.len() by {
            assert(walk@.contains(walk@[i]));
            lemma_reaches_below(dag, sink, walk@[i]);
        }
    }
    let counts = counts_by_node(graph, &walk);
    let listed = tuplize_ranks(graph, &walk, keys);
    let ranks = ranks_by_node(&walk, &listed, graph.len());
    let ghost le = by_rank(dag, priorities@, ranks@);
    proof {
        assert forall|i: int| 0 <= i < walk@.len() implies weighs(
            dag,
            priorities@,
            counts@,
            ranks@,
            #[trigger] walk@[i],
        ) by {}
        assert forall|i: int, j: int| 0 <= i < j < walk@.len() implies le(
            #[trigger] walk@[i],
            #[trigger] walk@[j],
        ) == wanted(dag, priorities@, keys)(walk@[i], walk@[j]) by {
            lemma_ranks_decide(dag, keys, walk@, listed@, i, j);
            assert(ranks@[walk@[i] as int] == listed@[i]);
            assert(ranks@[walk@[j] as int] == listed@[j]);
        }
        lemma_orders_agree(le, wanted(dag, priorities@, keys), walk@);
        lemma_sorted_members(le, walk@);
    }
    let may = |a: usize, b: usize| -> (r: bool)
        requires
            weighs(graph@, priorities@, counts@, ranks@, a),
            weighs(graph@, priorities@, counts@, ranks@, b),
        ensures
            r == by_rank(graph@, priorities@, ranks@)(a, b),
        { may_precede(graph, priorities, &counts, &ranks, a, b) };
    let sorted = stable_sort(
        &walk,
        may,
        Ghost(le),
        Ghost(|a: usize| weighs(dag, priorities@, counts@, ranks@, a)),
    );
    take_sorted(graph, sink, &walk, &sorted)
}

fn ranks_by_node(walk: &Vec<usize>, listed: &Vec<usize>, len: usize) -> (ranks: Vec<usize>)
    requires
        walk@.no_duplicates(),
        listed@.len() == walk@.len(),
        forall|i: int| 0 <= i < walk@.len() ==> (#[trigger] walk@[i]) < len,
    ensures
        ranks@.len() == len,
        forall|i: int|
            0 <= i < walk@.len() ==> ranks@[(#[trigger] walk@[i]) as int] == listed@[i],
{
    let mut ranks: Vec<usize> = Vec::new();
    let mut id: usize = 0;
    while id < len
        invariant
            id <= len,
            ranks@.len() == id,
        decreases len - id,
    {
        ranks.push(0);
        id += 1;
    }
    let mut at: usize = 0;
    while at < walk.len()
        invariant
            walk@.no_duplicates(),
            listed@.len() == walk@.len(),
            forall|i: int| 0 <= i < walk@.len() ==> (#[trigger] walk@[i]) < len,
            ranks@.len() == len,
            at <= walk@.len(),
            forall|i: int|
                0 <= i < at ==> ranks@[(#[trigger] walk@[i]) as int] == listed@[i],
        decreases walk@.len() - at,
    {
        let x: usize = walk[at];
        ranks.set(x, listed[at]);
        at += 1;
    }
    ranks
}

/// Whatever two programs of one graph are taken in the order that its nodes
/// want, they are the same: the program by rank is the one by whole keys.
pub proof fn lemma_linearizations_agree(
    dag: Seq<NodeView>,
    sink: usize,
    priorities: Seq<(i32, Option<i64>)>,
    keys: &Keys,
    a: Seq<usize>,
    b: Seq<usize>,
)
    requires
        dag_wf(dag),
        sink < dag.len() <= usize::MAX,
        taken(dag, sink, stably_sorted(wanted(dag, priorities, keys), topo(dag, sink)), a.reverse()),
        taken(dag, sink, stably_sorted(wanted(dag, priorities, keys), topo(dag, sink)), b.reverse()),
    ensures
        a == b,
{
    let le = wanted(dag, priorities, keys);
    let walk = topo(dag, sink);
    lemma_topo(dag, sink);
    lemma_sorted_members(le, walk);
    assert forall|x: usize| reaches(dag, sink, x) implies #[trigger] stably_sorted(
        le,
        walk,
    ).contains(x) by {
        assert(walk.contains(x));
    }
    lemma_taken_once(dag, sink, stably_sorted(le, walk), a.reverse(), b.reverse());
    assert(a =~= a.reverse().reverse());
    assert(b =~= b.reverse().reverse());
}

} // verus!
