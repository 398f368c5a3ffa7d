//! The order of nodes by what they compute: the operation, then its argument
//! and type, then the sources from left to right.

use vstd::prelude::*;

use crate::graph::{dag_wf, Graph, NodeView};

verus! {

/// The outcome of a comparison.
#[derive(Clone, Copy, Debug, PartialEq, Eq, Structural)]
pub enum Order {
    Less,
    Equal,
    Greater,
}

/// How two numbers are ordered.
pub open spec fn int_order(a: int, b: int) -> Order {
    if a < b {
        Order::Less
    } else if a == b {
        Order::Equal
    } else {
        Order::Greater
    }
}

/// A key: the rank of a node's head, and the keys of its sources.
pub struct KeyTree {
    pub head: int,
    pub kids: Seq<KeyTree>,
}

/// Keys compare by their heads and then by their sources.
pub open spec fn tree_order(a: KeyTree, b: KeyTree) -> Order
    decreases a, 0int,
{
    if a.head != b.head {
        int_order(a.head, b.head)
    } else {
        kids_order(a.kids, b.kids, 0)
    }
}

/// Lists of keys compare by their first difference from position `k` on; a
/// list comes before the longer ones that it starts.
pub open spec fn kids_order(a: Seq<KeyTree>, b: Seq<KeyTree>, k: int) -> Order
    decreases a, a.len() - k,
{
    if k < 0 || k >= a.len() || k >= b.len() {
        int_order(a.len() as int, b.len() as int)
    } else if tree_order(a[k], b[k]) != Order::Equal {
        tree_order(a[k], b[k])
    } else {
        kids_order(a, b, k + 1)
    }
}

/// The key of a node. A node with lanes has those for sources.
pub open spec fn key_tree(
    dag: Seq<NodeView>,
    heads: Seq<u32>,
    lanes: Seq<Seq<u32>>,
    id: usize,
) -> KeyTree
    decreases id,
{
    KeyTree {
        head: heads[id as int] as int,
        kids: if lanes[id as int].len() > 0 {
            Seq::new(
                lanes[id as int].len(),
                |k: int| KeyTree { head: lanes[id as int][k] as int, kids: Seq::empty() },
            )
        } else {
            Seq::new(
                dag[id as int].srcs.len(),
                |k: int|
                    if 0 <= k < dag[id as int].srcs.len() && dag[id as int].srcs[k] < id {
                        key_tree(dag, heads, lanes, dag[id as int].srcs[k])
                    } else {
                        KeyTree { head: 0, kids: Seq::empty() }
                    },
            )
        },
    }
}

/// The order the other way round.
pub open spec fn flipped(order: Order) -> Order {
    match order {
        Order::Less => Order::Greater,
        Order::Equal => Order::Equal,
        Order::Greater => Order::Less,
    }
}

/// Comparing two keys the other way round gives the opposite outcome.
pub proof fn lemma_tree_order_flips(a: KeyTree, b: KeyTree)
    ensures
        tree_order(b, a) == flipped(tree_order(a, b)),
    decreases a, 0int,
{
    if a.head == b.head {
        lemma_kids_order_flips(a.kids, b.kids, 0);
    }
}

proof fn lemma_kids_order_flips(a: Seq<KeyTree>, b: Seq<KeyTree>, k: int)
    ensures
        kids_order(b, a, k) == flipped(kids_order(a, b, k)),
    decreases a, a.len() - k,
{
    if 0 <= k < a.len() && k < b.len() {
        lemma_tree_order_flips(a[k], b[k]);
        lemma_kids_order_flips(a, b, k + 1);
    }
}

/// A key is equal to itself.
pub proof fn lemma_tree_order_reflexive(a: KeyTree)
    ensures
        tree_order(a, a) == Order::Equal,
{
    lemma_tree_order_flips(a, a);
}

/// A key that does not come after a second one, which does not come after a
/// third, does not come after the third.
pub proof fn lemma_tree_order_transitive(a: KeyTree, b: KeyTree, c: KeyTree)
    requires
        tree_order(a, b) != Order::Greater,
        tree_order(b, c) != Order::Greater,
    ensures
        tree_order(a, c) != Order::Greater,
        tree_order(a, c) == Order::Equal ==> tree_order(a, b) == Order::Equal && tree_order(b, c)
            == Order::Equal,
        tree_order(a, b) == Order::Equal && tree_order(b, c) == Order::Equal ==> tree_order(a, c)
            == Order::Equal,
    decreases a, 0int,
{
    if a.head == b.head && b.head == c.head {
        lemma_kids_order_transitive(a.kids, b.kids, c.kids, 0);
    }
}

proof fn lemma_kids_order_transitive(
    a: Seq<KeyTree>,
    b: Seq<KeyTree>,
    c: Seq<KeyTree>,
    k: int,
)
    requires
        k >= 0,
        kids_order(a, b, k) != Order::Greater,
        kids_order(b, c, k) != Order::Greater,
    ensures
        kids_order(a, c, k) != Order::Greater,
        kids_order(a, c, k) == Order::Equal ==> kids_order(a, b, k) == Order::Equal && kids_order(
            b,
            c,
            k,
        ) == Order::Equal,
        kids_order(a, b, k) == Order::Equal && kids_order(b, c, k) == Order::Equal ==> kids_order(
            a,
            c,
            k,
        ) == Order::Equal,
    decreases a, a.len() - k,
{
    if k < a.len() && k < b.len() && k < c.len() {
        lemma_tree_order_transitive(a[k], b[k], c[k]);
        if tree_order(a[k], b[k]) == Order::Equal && tree_order(b[k], c[k]) == Order::Equal {
            lemma_kids_order_transitive(a, b, c, k + 1);
        }
    }
}

/// What the nodes of a graph are compared by: for each the rank of its head,
/// and the heads of its lanes if it is a constant of several lanes.
pub struct Keys {
    pub heads: Vec<u32>,
    pub lanes: Vec<Vec<u32>>,
}

impl Keys {
    /// The heads of all lanes.
    pub open spec fn lane_heads(&self) -> Seq<Seq<u32>> {
        Seq::new(self.lanes@.len(), |i: int| self.lanes@[i]@)
    }

    /// The keys belong to a graph of this many nodes.
    pub open spec fn covers(&self, len: nat) -> bool {
        self.heads@.len() == len && self.lanes@.len() == len
    }

    /// The key of a node.
    pub open spec fn key(&self, dag: Seq<NodeView>, id: usize) -> KeyTree {
        key_tree(dag, self.heads@, self.lane_heads(), id)
    }

    /// How two nodes compare.
    pub open spec fn order(&self, dag: Seq<NodeView>, a: usize, b: usize) -> Order {
        tree_order(self.key(dag, a), self.key(dag, b))
    }
}

/// One row of the table of comparisons.
pub open spec fn order_row_ok(
    keys: Keys,
    dag: Seq<NodeView>,
    a: usize,
    row: Seq<Order>,
) -> bool {
    &&& row.len() == dag.len()
    &&& forall|b: usize| b < dag.len() ==> #[trigger] row[b as int] == keys.order(dag, a, b)
}

fn rank_order(a: u32, b: u32) -> (order: Order)
    ensures
        order == int_order(a as int, b as int),
{
    if a < b {
        Order::Less
    } else if a == b {
        Order::Equal
    } else {
        Order::Greater
    }
}

impl Keys {
    /// A source of a key is a lane or the key of a node's source.
    proof fn lemma_kid(&self, dag: Seq<NodeView>, id: usize, k: int)
        requires
            dag_wf(dag),
            id < dag.len(),
            self.covers(dag.len()),
            0 <= k < self.key(dag, id).kids.len(),
        ensures
            self.key(dag, id).kids[k] == if self.lanes@[id as int]@.len() > 0 {
                KeyTree { head: self.lanes@[id as int]@[k] as int, kids: Seq::empty() }
            } else {
                self.key(dag, dag[id as int].srcs[k])
            },
    {
        assert(self.lane_heads()[id as int] == self.lanes@[id as int]@);
        if self.lanes@[id as int]@.len() == 0 {
            assert(dag[id as int].srcs[k] < id);
        }
    }

    /// The number of sources that a node's key has.
    fn kid_count(&self, graph: &Graph, id: usize) -> (count: usize)
        requires
            id < graph@.len(),
            self.covers(graph@.len()),
        ensures
            count == self.key(graph@, id).kids.len(),
    {
        let lanes: usize = self.lanes[id].len();
        assert(self.lane_heads()[id as int] == self.lanes@[id as int]@);
        if lanes > 0 {
            lanes
        } else {
            graph.source_count(id)
        }
    }

    /// How the sources of two keys at one position compare.
    fn kid_order(
        &self,
        graph: &Graph,
        table: &Vec<Vec<Order>>,
        a: usize,
        b: usize,
        k: usize,
    ) -> (order: Order)
        requires
            graph.wf(),
            a < graph@.len(),
            b < graph@.len(),
            self.covers(graph@.len()),
            a <= table@.len(),
            forall|i: usize|
                i < a ==> order_row_ok(*self, graph@, i, #[trigger] table@[i as int]@),
            k < self.key(graph@, a).kids.len(),
            k < self.key(graph@, b).kids.len(),
        ensures
            order == tree_order(
                self.key(graph@, a).kids[k as int],
                self.key(graph@, b).kids[k as int],
            ),
    {
        let ghost dag = graph@;
        assert(self.lane_heads()[a as int] == self.lanes@[a as int]@);
        assert(self.lane_heads()[b as int] == self.lanes@[b as int]@);
        proof {
            self.lemma_kid(dag, a, k as int);
            self.lemma_kid(dag, b, k as int);
        }
        let a_lanes: bool = self.lanes[a].len() > 0;
        let b_lanes: bool = self.lanes[b].len() > 0;
        if a_lanes && b_lanes {
            rank_order(self.lanes[a][k], self.lanes[b][k])
        } else if a_lanes {
            let y: usize = graph.source(b, k);
            let order = rank_order(self.lanes[a][k], self.heads[y]);
            if order != Order::Equal {
                order
            } else if self.kid_count(graph, y) == 0 {
                Order::Equal
            } else {
                Order::Less
            }
        } else if b_lanes {
            let x: usize = graph.source(a, k);
            let order = rank_order(self.heads[x], self.lanes[b][k]);
            if order != Order::Equal {
                order
            } else if self.kid_count(graph, x) == 0 {
                Order::Equal
            } else {
                Order::Greater
            }
        } else {
            let x: usize = graph.source(a, k);
            let y: usize = graph.source(b, k);
            assert(order_row_ok(*self, dag, x, table@[x as int]@));
            assert(table@[x as int]@[y as int] == self.order(dag, x, y));
            table[x][y]
        }
    }

    fn pair_order(&self, graph: &Graph, table: &Vec<Vec<Order>>, a: usize, b: usize) -> (order:
        Order)
        requires
            graph.wf(),
            a < graph@.len(),
            b < graph@.len(),
            self.covers(graph@.len()),
            a <= table@.len(),
            forall|i: usize|
                i < a ==> order_row_ok(*self, graph@, i, #[trigger] table@[i as int]@),
        ensures
            order == self.order(graph@, a, b),
    {
        let ghost left = self.key(graph@, a);
        let ghost right = self.key(graph@, b);
        let heads = rank_order(self.heads[a], self.heads[b]);
        if heads != Order::Equal {
            return heads;
        }
        let a_count: usize = self.kid_count(graph, a);
        let b_count: usize = self.kid_count(graph, b);
        let mut k: usize = 0;
        while k < a_count && k < b_count
            invariant
                graph.wf(),
                a < graph@.len(),
                b < graph@.len(),
                self.covers(graph@.len()),
                a <= table@.len(),
                forall|i: usize|
                    i < a ==> order_row_ok(*self, graph@, i, #[trigger] table@[i as int]@),
                left == self.key(graph@, a),
                right == self.key(graph@, b),
                a_count == left.kids.len(),
                b_count == right.kids.len(),
                k <= a_count,
                k <= b_count,
                kids_order(left.kids, right.kids, 0) == kids_order(
                    left.kids,
                    right.kids,
                    k as int,
                ),
                left.head == right.head,
            decreases a_count - k,
        {
            let order = self.kid_order(graph, table, a, b, k);
            if order != Order::Equal {
                return order;
            }
            k += 1;
        }
        if a_count < b_count {
            Order::Less
        } else if a_count == b_count {
            Order::Equal
        } else {
            Order::Greater
        }
    }

    /// How every two nodes compare.
    pub fn table(&self, graph: &Graph) -> (table: Vec<Vec<Order>>)
        requires
            graph.wf(),
            self.covers(graph@.len()),
        ensures
            table@.len() == graph@.len(),
            forall|a: usize|
                a < graph@.len() ==> order_row_ok(*self, graph@, a, #[trigger] table@[a as int]@),
    {
        let len: usize = graph.len();
        let mut table: Vec<Vec<Order>> = Vec::new();
        let mut a: usize = 0;
        while a < len
            invariant
                graph.wf(),
                self.covers(graph@.len()),
                len == graph@.len(),
                a <= len,
                table@.len() == a,
                forall|i: usize|
                    i < a ==> order_row_ok(*self, graph@, i, #[trigger] table@[i as int]@),
            decreases len - a,
        {
            let mut row: Vec<Order> = Vec::new();
            let mut b: usize = 0;
            while b < len
                invariant
                    graph.wf(),
                    self.covers(graph@.len()),
                    len == graph@.len(),
                    a < len,
                    table@.len() == a,
                    forall|i: usize|
                        i < a ==> order_row_ok(*self, graph@, i, #[trigger] table@[i as int]@),
                    b <= len,
                    row@.len() == b,
                    forall|j: usize|
                        j < b ==> #[trigger] row@[j as int] == self.order(graph@, a, j),
                decreases len - b,
            {
                let order = self.pair_order(graph, &table, a, b);
                row.push(order);
                b += 1;
            }
            table.push(row);
            a += 1;
        }
        table
    }
}

} // verus!
