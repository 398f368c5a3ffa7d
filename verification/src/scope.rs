//! Which loops a node runs in, and which loops it closes.

use vstd::prelude::*;

use crate::bounds::{bounds, find_bounds};
use crate::graph::{arity_ok, dag_wf, ConstValue, Graph, NodeView, Op};
use crate::topo::{ordered, reaches, topo};

verus! {

/// Whether an operation is a loop.
pub open spec fn is_range(op: Op) -> bool {
    op is Range
}

/// The operations that name the ranges they close behind their computation.
pub open spec fn closes(op: Op) -> bool {
    op is End || op is Reduce || op is Stage
}

/// The nodes whose loops `id` ends: the ranges that it closes itself, or what
/// the dependencies of an `After` end.
pub open spec fn ended(dag: Seq<NodeView>, id: usize) -> Seq<usize>
    decreases id, 1int, 0int,
{
    if closes(dag[id as int].op) {
        dag[id as int].srcs.skip(1)
    } else if dag[id as int].op is After {
        ended_from(dag, id, 1)
    } else {
        Seq::empty()
    }
}

/// What the sources of `id` from position `k` on end, one after the other.
pub open spec fn ended_from(dag: Seq<NodeView>, id: usize, k: int) -> Seq<usize>
    decreases id, 0int, dag[id as int].srcs.len() - k,
{
    if k < 0 || k >= dag[id as int].srcs.len() || dag[id as int].srcs[k] >= id {
        Seq::empty()
    } else {
        ended(dag, dag[id as int].srcs[k]) + ended_from(dag, id, k + 1)
    }
}

/// Whether node `id` runs inside the loop of range `r`: the range itself does,
/// and so does whatever has a source in the loop and does not end it. Ending a
/// node that is no range ends every loop that this node runs in.
pub open spec fn in_scope(dag: Seq<NodeView>, id: usize, r: usize) -> bool
    decreases id,
{
    ||| is_range(dag[id as int].op) && r == id
    ||| {
        &&& exists|k: int|
            #![trigger dag[id as int].srcs[k]]
            0 <= k < dag[id as int].srcs.len() && dag[id as int].srcs[k] < id && in_scope(
                dag,
                dag[id as int].srcs[k],
                r,
            )
        &&& !exists|j: int|
            #![trigger ended(dag, id)[j]]
            0 <= j < ended(dag, id).len() && ended(dag, id)[j] < id && if is_range(
                dag[ended(dag, id)[j] as int].op,
            ) {
                ended(dag, id)[j] == r
            } else {
                in_scope(dag, ended(dag, id)[j], r)
            }
    }
}

/// What ends at `id` stands below it.
pub proof fn lemma_ended_below(dag: Seq<NodeView>, id: usize)
    requires
        dag_wf(dag),
        id < dag.len(),
    ensures
        forall|j: int| 0 <= j < ended(dag, id).len() ==> (#[trigger] ended(dag, id)[j]) < id,
    decreases id, 1int, 0int,
{
    if closes(dag[id as int].op) {
        assert forall|j: int| 0 <= j < ended(dag, id).len() implies (#[trigger] ended(dag, id)[j])
            < id by {
            assert(ended(dag, id)[j] == dag[id as int].srcs[j + 1]);
        }
    } else if dag[id as int].op is After {
        lemma_ended_from_below(dag, id, 1);
        assert forall|j: int| 0 <= j < ended(dag, id).len() implies (#[trigger] ended(dag, id)[j])
            < id by {
            assert(ended(dag, id)[j] == ended_from(dag, id, 1)[j]);
        }
    }
}

proof fn lemma_ended_from_below(dag: Seq<NodeView>, id: usize, k: int)
    requires
        dag_wf(dag),
        id < dag.len(),
    ensures
        forall|j: int|
            0 <= j < ended_from(dag, id, k).len() ==> (#[trigger] ended_from(dag, id, k)[j]) < id,
    decreases id, 0int, dag[id as int].srcs.len() - k,
{
    if 0 <= k < dag[id as int].srcs.len() {
        let src = dag[id as int].srcs[k];
        assert(src < id);
        lemma_ended_below(dag, src);
        lemma_ended_from_below(dag, id, k + 1);
        let all = ended_from(dag, id, k);
        assert forall|j: int| 0 <= j < all.len() implies (#[trigger] all[j]) < id by {
            if j < ended(dag, src).len() {
                assert(all[j] == ended(dag, src)[j]);
            } else {
                assert(all[j] == ended_from(dag, id, k + 1)[j - ended(dag, src).len()]);
            }
        }
    }
}

/// A loop that a node runs in is opened by a range at or below the node.
pub proof fn lemma_scope_is_range_below(dag: Seq<NodeView>, id: usize, r: usize)
    requires
        dag_wf(dag),
        id < dag.len(),
        in_scope(dag, id, r),
    ensures
        r <= id,
        is_range(dag[r as int].op),
        reaches(dag, id, r),
    decreases id,
{
    if !(is_range(dag[id as int].op) && r == id) {
        let k = choose|k: int|
            #![trigger dag[id as int].srcs[k]]
            0 <= k < dag[id as int].srcs.len() && dag[id as int].srcs[k] < id && in_scope(
                dag,
                dag[id as int].srcs[k],
                r,
            );
        lemma_scope_is_range_below(dag, dag[id as int].srcs[k], r);
    }
}

/// A node that closes a range by name is outside that range's loop.
pub proof fn lemma_closed_is_out_of_scope(dag: Seq<NodeView>, id: usize, r: usize)
    requires
        dag_wf(dag),
        id < dag.len(),
        ended(dag, id).contains(r),
        is_range(dag[r as int].op),
    ensures
        !in_scope(dag, id, r),
{
    lemma_ended_below(dag, id);
    let j = choose|j: int| 0 <= j < ended(dag, id).len() && ended(dag, id)[j] == r;
    assert(ended(dag, id)[j] < id);
}

/// One row of the scope table: the loops that a node runs in.
pub open spec fn row_ok(dag: Seq<NodeView>, id: usize, row: Seq<bool>) -> bool {
    &&& row.len() == dag.len()
    &&& forall|r: usize| r < dag.len() ==> #[trigger] row[r as int] == in_scope(dag, id, r)
}

/// The largest value that a range's extent can take: the upper bound of the
/// expression, or the largest index where it has none. A range whose extent is
/// never positive has no steps.
pub open spec fn extent(dag: Seq<NodeView>, r: usize) -> int {
    let end = dag[r as int].srcs[0];
    match dag[end as int].op {
        Op::Const(ConstValue::UInt(value)) => value as int,
        _ => match bounds(dag, end) {
            Some((_, high)) => if high > 0 {
                high
            } else {
                0
            },
            None => i64::MAX as int,
        },
    }
}

/// The product of the extents of the loops below `upto` that `id` runs in.
pub open spec fn trips(dag: Seq<NodeView>, id: usize, upto: nat) -> int
    decreases upto,
{
    if upto == 0 {
        1
    } else {
        let r = (upto - 1) as usize;
        let below = trips(dag, id, (upto - 1) as nat);
        if in_scope(dag, id, r) {
            below * extent(dag, r)
        } else {
            below
        }
    }
}

/// How often a node runs can be computed: the products of the extents of its
/// loops fit.
pub open spec fn countable(dag: Seq<NodeView>, id: usize) -> bool {
    forall|upto: nat| upto <= dag.len() ==> #[trigger] trips(dag, id, upto) <= u64::MAX
}

/// A node outside every loop runs once.
pub proof fn lemma_runs_once_outside_loops(dag: Seq<NodeView>, id: usize, upto: nat)
    requires
        forall|r: usize| !in_scope(dag, id, r),
    ensures
        trips(dag, id, upto) == 1,
    decreases upto,
{
    if upto > 0 {
        lemma_runs_once_outside_loops(dag, id, (upto - 1) as nat);
    }
}

/// A node `v` that reads `u` leaves the loop of `r` without ending it.
pub open spec fn leaves_open(dag: Seq<NodeView>, u: usize, v: usize, r: usize) -> bool {
    &&& dag[v as int].srcs.contains(u)
    &&& !(dag[v as int].op is After)
    &&& in_scope(dag, u, r)
    &&& !in_scope(dag, v, r)
    &&& !ended(dag, v).contains(r)
}

/// A graph below `root` in which a value leaves a loop only where it is ended.
pub open spec fn scopes_nest(dag: Seq<NodeView>, root: usize) -> bool {
    forall|u: usize, v: usize, r: usize|
        reaches(dag, root, u) && reaches(dag, root, v) ==> !#[trigger] leaves_open(dag, u, v, r)
}

/// The loops below `n` that a node runs in, in ascending order.
pub open spec fn loops_below(dag: Seq<NodeView>, id: usize, n: nat) -> Seq<usize>
    decreases n,
{
    if n == 0 {
        Seq::empty()
    } else {
        let rest = loops_below(dag, id, (n - 1) as nat);
        if in_scope(dag, id, (n - 1) as usize) {
            rest.push((n - 1) as usize)
        } else {
            rest
        }
    }
}

/// Whether no pair of nodes before the one at `a` and the one at `b` leaves a
/// loop open: readers are tried in order, for one producer after the other.
pub open spec fn nests_before(dag: Seq<NodeView>, nodes: Seq<usize>, a: int, b: int) -> bool {
    &&& forall|p: int, q: int, r: usize|
        0 <= p < a && 0 <= q < nodes.len() ==> !#[trigger] leaves_open(dag, nodes[p], nodes[q], r)
    &&& forall|q: int, r: usize|
        0 <= q < b ==> !#[trigger] leaves_open(dag, nodes[a], nodes[q], r)
}

/// A value that leaves a loop which its reader does not end.
#[derive(Clone, Copy, Debug, PartialEq, Eq, Structural)]
pub struct TreeScopeViolation {
    pub producer: usize,
    pub consumer: usize,
    pub range: usize,
}

impl Graph {
    /// The nodes whose loops a node ends.
    pub fn ended_ranges(&self, id: usize) -> (list: Vec<usize>)
        requires
            self.wf(),
            id < self@.len(),
        ensures
            list@ == ended(self@, id),
        decreases id,
    {
        let ghost dag = self@;
        let mut list: Vec<usize> = Vec::new();
        let count: usize = self.source_count(id);
        match self.op(id) {
            Op::End | Op::Reduce(_) | Op::Stage { .. } => {
                let mut at: usize = 1;
                while at < count
                    invariant
                        self.wf(),
                        dag == self@,
                        id < dag.len(),
                        count == dag[id as int].srcs.len(),
                        1 <= at,
                        count > 0 ==> at <= count,
                        list@ == dag[id as int].srcs.subrange(1, at as int),
                    decreases count - at,
                {
                    list.push(self.source(id, at));
                    at += 1;
                    assert(dag[id as int].srcs.subrange(1, at as int) =~= dag[id as int].srcs.subrange(
                        1,
                        at - 1,
                    ).push(dag[id as int].srcs[at - 1]));
                }
                assert(list@ =~= dag[id as int].srcs.skip(1));
            },
            Op::After => {
                let mut at: usize = 1;
                assert(list@ + ended_from(dag, id, 1) =~= ended(dag, id));
                while at < count
                    invariant
                        self.wf(),
                        dag == self@,
                        id < dag.len(),
                        count == dag[id as int].srcs.len(),
                        list@ + ended_from(dag, id, at as int) == ended(dag, id),
                    decreases count - at,
                {
                    let src: usize = self.source(id, at);
                    let mut more = self.ended_ranges(src);
                    let ghost had = list@;
                    list.append(&mut more);
                    assert(list@ + ended_from(dag, id, at + 1) =~= had + ended_from(
                        dag,
                        id,
                        at as int,
                    ));
                    at += 1;
                }
                assert(list@ =~= ended(dag, id));
            },
            _ => {},
        }
        list
    }

    /// The loops that a node runs in, from those of the nodes before it.
    fn scope_row(&self, id: usize, rows: &Vec<Vec<bool>>) -> (row: Vec<bool>)
        requires
            self.wf(),
            id < self@.len(),
            id <= rows@.len(),
            forall|i: usize| i < id ==> row_ok(self@, i, #[trigger] rows@[i as int]@),
        ensures
            row_ok(self@, id, row@),
    {
        let ghost dag = self@;
        let len: usize = self.len();
        let count: usize = self.source_count(id);
        let opens: bool = match self.op(id) {
            Op::Range { .. } => true,
            _ => false,
        };
        let ends = self.ended_ranges(id);
        proof {
            lemma_ended_below(dag, id);
        }
        let mut row: Vec<bool> = Vec::new();
        let mut r: usize = 0;
        while r < len
            invariant
                self.wf(),
                dag == self@,
                len == dag.len(),
                id < dag.len(),
                id <= rows@.len(),
                count == dag[id as int].srcs.len(),
                opens == is_range(dag[id as int].op),
                ends@ == ended(dag, id),
                forall|j: int| 0 <= j < ended(dag, id).len() ==> (#[trigger] ended(dag, id)[j]) < id,
                forall|i: usize| i < id ==> row_ok(dag, i, #[trigger] rows@[i as int]@),
                r <= len,
                row@.len() == r,
                forall|q: usize| q < r ==> #[trigger] row@[q as int] == in_scope(dag, id, q),
            decreases len - r,
        {
            let mut flows: bool = false;
            let mut k: usize = 0;
            while k < count
                invariant
                    self.wf(),
                    dag == self@,
                    len == dag.len(),
                    id < dag.len(),
                    r < len,
                    id <= rows@.len(),
                    count == dag[id as int].srcs.len(),
                    forall|i: usize| i < id ==> row_ok(dag, i, #[trigger] rows@[i as int]@),
                    k <= count,
                    flows == exists|m: int|
                        #![trigger dag[id as int].srcs[m]]
                        0 <= m < k && dag[id as int].srcs[m] < id && in_scope(
                            dag,
                            dag[id as int].srcs[m],
                            r,
                        ),
                decreases count - k,
            {
                let src: usize = self.source(id, k);
                assert(row_ok(dag, src, rows@[src as int]@));
                assert(rows@[src as int]@[r as int] == in_scope(dag, src, r));
                if rows[src][r] {
                    flows = true;
                    assert(dag[id as int].srcs[k as int] == src);
                }
                k += 1;
            }
            let mut stops: bool = false;
            let mut j: usize = 0;
            while j < ends.len()
                invariant
                    self.wf(),
                    dag == self@,
                    len == dag.len(),
                    id < dag.len(),
                    r < len,
                    id <= rows@.len(),
                    ends@ == ended(dag, id),
                    forall|m: int|
                        0 <= m < ended(dag, id).len() ==> (#[trigger] ended(dag, id)[m]) < id,
                    forall|i: usize| i < id ==> row_ok(dag, i, #[trigger] rows@[i as int]@),
                    j <= ends@.len(),
                    stops == exists|m: int|
                        #![trigger ended(dag, id)[m]]
                        0 <= m < j && ended(dag, id)[m] < id && if is_range(
                            dag[ended(dag, id)[m] as int].op,
                        ) {
                            ended(dag, id)[m] == r
                        } else {
                            in_scope(dag, ended(dag, id)[m], r)
                        },
                decreases ends@.len() - j,
            {
                let end: usize = ends[j];
                assert(ended(dag, id)[j as int] == end);
                assert(row_ok(dag, end, rows@[end as int]@));
                assert(rows@[end as int]@[r as int] == in_scope(dag, end, r));
                let stop: bool = match self.op(end) {
                    Op::Range { .. } => end == r,
                    _ => rows[end][r],
                };
                if stop {
                    stops = true;
                }
                j += 1;
            }
            row.push((opens && r == id) || (flows && !stops));
            r += 1;
        }
        row
    }

    /// For every node, the loops that it runs in.
    pub fn scopes(&self) -> (rows: Vec<Vec<bool>>)
        requires
            self.wf(),
        ensures
            rows@.len() == self@.len(),
            forall|i: usize| i < self@.len() ==> row_ok(self@, i, #[trigger] rows@[i as int]@),
    {
        let mut rows: Vec<Vec<bool>> = Vec::new();
        let len: usize = self.len();
        let mut id: usize = 0;
        while id < len
            invariant
                self.wf(),
                len == self@.len(),
                id <= len,
                rows@.len() == id,
                forall|i: usize| i < id ==> row_ok(self@, i, #[trigger] rows@[i as int]@),
            decreases len - id,
        {
            let row = self.scope_row(id, &rows);
            rows.push(row);
            id += 1;
        }
        rows
    }

    fn trip_product(&self, id: usize, row: &Vec<bool>) -> (count: u64)
        requires
            self.wf(),
            id < self@.len(),
            row_ok(self@, id, row@),
            countable(self@, id),
        ensures
            count == trips(self@, id, self@.len()),
    {
        let ghost dag = self@;
        let len: usize = self.len();
        let mut count: u64 = 1;
        let mut r: usize = 0;
        while r < len
            invariant
                self.wf(),
                dag == self@,
                len == dag.len(),
                id < dag.len(),
                r <= len,
                row_ok(dag, id, row@),
                countable(dag, id),
                count == trips(dag, id, r as nat),
            decreases len - r,
        {
            assert(row@[r as int] == in_scope(dag, id, r));
            assert(trips(dag, id, (r + 1) as nat) <= u64::MAX);
            if row[r] {
                proof {
                    lemma_scope_is_range_below(dag, id, r);
                    assert(arity_ok(dag[r as int].op, dag[r as int].srcs.len()));
                }
                let end: usize = self.source(r, 0);
                let n: u64 = match self.op(end) {
                    Op::Const(ConstValue::UInt(value)) => value,
                    _ => match find_bounds(self, end) {
                        Some((_, high)) => if high > 0 {
                            high as u64
                        } else {
                            0
                        },
                        None => i64::MAX as u64,
                    },
                };
                assert(n == extent(dag, r));
                assert(count * n == trips(dag, id, (r + 1) as nat));
                count = count * n;
            }
            r += 1;
        }
        count
    }

    /// How often a node runs: the product of the extents of its loops.
    pub fn run_count(&self, id: usize) -> (count: u64)
        requires
            self.wf(),
            id < self@.len(),
            countable(self@, id),
        ensures
            count == trips(self@, id, self@.len()),
    {
        let rows = self.scopes();
        assert(row_ok(self@, id, rows@[id as int]@));
        self.trip_product(id, &rows[id])
    }

    /// How often each of the listed nodes runs.
    pub fn run_counts(&self, list: &Vec<usize>) -> (counts: Vec<u64>)
        requires
            self.wf(),
            forall|i: int|
                0 <= i < list@.len() ==> (#[trigger] list@[i]) < self@.len() && countable(
                    self@,
                    list@[i],
                ),
        ensures
            counts@.len() == list@.len(),
            forall|i: int|
                0 <= i < list@.len() ==> #[trigger] counts@[i] == trips(
                    self@,
                    list@[i],
                    self@.len(),
                ),
    {
        let rows = self.scopes();
        let mut counts: Vec<u64> = Vec::new();
        let mut at: usize = 0;
        while at < list.len()
            invariant
                self.wf(),
                rows@.len() == self@.len(),
                forall|i: usize| i < self@.len() ==> row_ok(self@, i, #[trigger] rows@[i as int]@),
                forall|i: int|
                    0 <= i < list@.len() ==> (#[trigger] list@[i]) < self@.len() && countable(
                        self@,
                        list@[i],
                    ),
                at <= list@.len(),
                counts@.len() == at,
                forall|i: int|
                    0 <= i < at ==> #[trigger] counts@[i] == trips(self@, list@[i], self@.len()),
            decreases list@.len() - at,
        {
            let id: usize = list[at];
            assert(row_ok(self@, id, rows@[id as int]@));
            let count: u64 = self.trip_product(id, &rows[id]);
            counts.push(count);
            at += 1;
        }
        counts
    }

    /// The loops that a node runs in, in ascending order.
    pub fn scope_list(&self, id: usize) -> (list: Vec<usize>)
        requires
            self.wf(),
            id < self@.len(),
        ensures
            list@ == loops_below(self@, id, self@.len()),
    {
        let rows = self.scopes();
        let len: usize = self.len();
        let mut list: Vec<usize> = Vec::new();
        let mut at: usize = 0;
        assert(row_ok(self@, id, rows@[id as int]@));
        while at < len
            invariant
                id < len == self@.len(),
                rows@.len() == len,
                row_ok(self@, id, rows@[id as int]@),
                at <= len,
                list@ == loops_below(self@, id, at as nat),
            decreases len - at,
        {
            assert(rows@[id as int]@[at as int] == in_scope(self@, id, at));
            if rows[id][at] {
                list.push(at);
            }
            at += 1;
        }
        list
    }

    /// Looks for a value below `root` that leaves a loop which its reader does
    /// not end. An `After` may: it only orders.
    pub fn check_tree_scope(&self, root: usize) -> (result: Result<(), TreeScopeViolation>)
        requires
            self.wf(),
            root < self@.len(),
        ensures
            result is Ok <==> scopes_nest(self@, root),
            result matches Err(found) ==> {
                &&& reaches(self@, root, found.producer)
                &&& reaches(self@, root, found.consumer)
                &&& leaves_open(self@, found.producer, found.consumer, found.range)
                &&& exists|a: int, b: int|
                    {
                        &&& 0 <= a < topo(self@, root).len()
                        &&& 0 <= b < topo(self@, root).len()
                        &&& found.producer == topo(self@, root)[a]
                        &&& found.consumer == topo(self@, root)[b]
                        &&& #[trigger] nests_before(self@, topo(self@, root), a, b)
                    }
            },
    {
        let ghost dag = self@;
        let nodes = self.toposort(root);
        let rows = self.scopes();
        let len: usize = self.len();
        let mut a: usize = 0;
        while a < nodes.len()
            invariant
                self.wf(),
                dag == self@,
                len == dag.len(),
                nodes@ == topo(dag, root),
                ordered(dag, nodes@),
                forall|x: usize| #[trigger] nodes@.contains(x) <==> reaches(dag, root, x),
                rows@.len() == len,
                forall|i: usize| i < dag.len() ==> row_ok(dag, i, #[trigger] rows@[i as int]@),
                a <= nodes@.len(),
                forall|p: int, q: int, r: usize|
                    0 <= p < a && 0 <= q < nodes@.len() ==> !#[trigger] leaves_open(
                        dag,
                        nodes@[p],
                        nodes@[q],
                        r,
                    ),
            decreases nodes@.len() - a,
        {
            let u: usize = nodes[a];
            assert(nodes@.contains(u));
            let mut b: usize = 0;
            while b < nodes.len()
                invariant
                    self.wf(),
                    dag == self@,
                    len == dag.len(),
                    ordered(dag, nodes@),
                    forall|x: usize| #[trigger] nodes@.contains(x) <==> reaches(dag, root, x),
                    rows@.len() == len,
                    forall|i: usize| i < dag.len() ==> row_ok(dag, i, #[trigger] rows@[i as int]@),
                    a < nodes@.len(),
                    u == nodes@[a as int],
                    reaches(dag, root, u),
                    nodes@ == topo(dag, root),
                    forall|p: int, q: int, r: usize|
                        0 <= p < a && 0 <= q < nodes@.len() ==> !#[trigger] leaves_open(
                            dag,
                            nodes@[p],
                            nodes@[q],
                            r,
                        ),
                    b <= nodes@.len(),
                    forall|q: int, r: usize|
                        0 <= q < b ==> !#[trigger] leaves_open(dag, u, nodes@[q], r),
                decreases nodes@.len() - b,
            {
                let v: usize = nodes[b];
                assert(nodes@.contains(v));
                let after: bool = match self.op(v) {
                    Op::After => true,
                    _ => false,
                };
                if self.has_source(v, u) && !after {
                    let ends = self.ended_ranges(v);
                    assert(row_ok(dag, u, rows@[u as int]@));
                    assert(row_ok(dag, v, rows@[v as int]@));
                    let mut r: usize = 0;
                    while r < len
                        invariant
                            self.wf(),
                            dag == self@,
                            len == dag.len(),
                            u < len,
                            v < len,
                            rows@.len() == len,
                            row_ok(dag, u, rows@[u as int]@),
                            row_ok(dag, v, rows@[v as int]@),
                            ends@ == ended(dag, v),
                            dag[v as int].srcs.contains(u),
                            !(dag[v as int].op is After),
                            reaches(dag, root, u),
                            reaches(dag, root, v),
                            a < nodes@.len(),
                            b < nodes@.len(),
                            u == nodes@[a as int],
                            v == nodes@[b as int],
                            nodes@ == topo(dag, root),
                            nests_before(dag, nodes@, a as int, b as int),
                            r <= len,
                            forall|q: usize| q < r ==> !#[trigger] leaves_open(dag, u, v, q),
                        decreases len - r,
                    {
                        assert(rows@[u as int]@[r as int] == in_scope(dag, u, r));
                        assert(rows@[v as int]@[r as int] == in_scope(dag, v, r));
                        if rows[u][r] && !rows[v][r] && !holds(&ends, r) {
                            assert(leaves_open(dag, u, v, r));
                            return Err(
                                TreeScopeViolation { producer: u, consumer: v, range: r },
                            );
                        }
                        r += 1;
                    }
                    assert forall|q: usize| !#[trigger] leaves_open(dag, u, v, q) by {
                        if q >= len && in_scope(dag, u, q) {
                            lemma_scope_is_range_below(dag, u, q);
                        }
                    }
                }
                b += 1;
            }
            a += 1;
        }
        assert forall|u: usize, v: usize, r: usize|
            reaches(dag, root, u) && reaches(dag, root, v) implies !#[trigger] leaves_open(
            dag,
            u,
            v,
            r,
        ) by {
            assert(nodes@.contains(u) && nodes@.contains(v));
            let p = choose|p: int| 0 <= p < nodes@.len() && nodes@[p] == u;
            let q = choose|q: int| 0 <= q < nodes@.len() && nodes@[q] == v;
            assert(!leaves_open(dag, nodes@[p], nodes@[q], r));
        }
        Ok(())
    }
}

/// Whether a list holds an id.
pub fn holds(list: &Vec<usize>, id: usize) -> (found: bool)
    ensures
        found == list@.contains(id),
{
    let mut at: usize = 0;
    while at < list.len()
        invariant
            at <= list@.len(),
            forall|i: int| 0 <= i < at ==> list@[i] != id,
        decreases list@.len() - at,
    {
        if list[at] == id {
            return true;
        }
        at += 1;
    }
    false
}

} // verus!
