//! Which ranges walk a value: ranges are numbered as they are made, each node
//! has its own, and the ranges of several consumers are merged into one per
//! dimension.

use std::collections::{HashMap, HashSet};

use vstd::prelude::*;

use crate::builders::{const_node, extent_node, put, range_node, Built};
use crate::graph::{
    dag_wf, AxisId, AxisType, BinaryOp, ConstValue, DType, Graph, NodeView, Op, TernaryOp,
};
use crate::passes::{extends, grown};

verus! {

broadcast use vstd::std_specs::hash::group_hash_axioms;

/// What is known of the nodes while their ranges are chosen.
pub struct IndexingContext {
    /// The next free number of a range.
    pub next: usize,
    /// The ranges that walk what each node reads, and what it gives.
    pub inputs: HashMap<usize, Vec<usize>>,
    pub outputs: HashMap<usize, Vec<usize>>,
    /// The nodes that are stored: all of their axes, or those that are listed.
    pub realize_map: HashMap<usize, Option<Vec<usize>>>,
    /// The stored nodes whose storage must stay.
    pub pinned: HashSet<usize>,
}

/// A range of a constant size: one of a single step is the index zero and takes
/// no number.
pub open spec fn sized_range(dag: Seq<NodeView>, next: usize, size: usize, kind: AxisType) -> Built {
    if size == 1 {
        put(dag, extent_node(0))
    } else {
        let ended = put(dag, extent_node(size as i64));
        put(ended.dag, range_node(ended.id, AxisId::Unrenumbered(next), kind, DType::WeakInt))
    }
}

/// The next free number after a range of a constant size.
pub open spec fn number_after(next: usize, size: usize) -> usize {
    if size == 1 {
        next
    } else {
        (next + 1) as usize
    }
}

impl IndexingContext {
    /// Whether nothing but the next free number may differ.
    pub open spec fn same_tables(&self, other: &IndexingContext) -> bool {
        &&& self.inputs@ == other.inputs@
        &&& self.outputs@ == other.outputs@
        &&& self.realize_map@ == other.realize_map@
        &&& self.pinned@ == other.pinned@
    }

    /// Nothing is known yet.
    pub fn new() -> (ctx: IndexingContext)
        ensures
            ctx.next == 0,
            ctx.inputs@ == Map::<usize, Vec<usize>>::empty(),
            ctx.outputs@ == Map::<usize, Vec<usize>>::empty(),
            ctx.realize_map@ == Map::<usize, Option<Vec<usize>>>::empty(),
            ctx.pinned@ == Set::<usize>::empty(),
    {
        IndexingContext {
            next: 0,
            inputs: HashMap::new(),
            outputs: HashMap::new(),
            realize_map: HashMap::new(),
            pinned: HashSet::new(),
        }
    }

    /// How many numbers were taken.
    pub fn range_counter(&self) -> (count: usize)
        ensures
            count == self.next,
    {
        self.next
    }

    /// A range of a constant size.
    pub fn new_range(&mut self, graph: &mut Graph, size: usize, kind: AxisType) -> (id: usize)
        requires
            old(graph).wf(),
            old(self).next < usize::MAX,
            size <= i64::MAX,
        ensures
            grown(
                old(graph)@,
                *final(graph),
                sized_range(old(graph)@, old(self).next, size, kind),
                id,
            ),
            final(self).next == number_after(old(self).next, size),
            final(self).same_tables(old(self)),
    {
        if size == 1 {
            graph.index_const(0)
        } else {
            let end: usize = graph.index_const(size as i64);
            let number: usize = self.next;
            self.next = number + 1;
            graph.unary(Op::Range { axis: AxisId::Unrenumbered(number), kind }, DType::WeakInt, end)
        }
    }

    /// A range of an extent that is a node; it takes a number whatever the
    /// extent is.
    pub fn new_range_from(&mut self, graph: &mut Graph, end: usize, kind: AxisType) -> (id: usize)
        requires
            old(graph).wf(),
            end < old(graph)@.len(),
            old(self).next < usize::MAX,
        ensures
            grown(
                old(graph)@,
                *final(graph),
                put(
                    old(graph)@,
                    range_node(end, AxisId::Unrenumbered(old(self).next), kind, DType::WeakInt),
                ),
                id,
            ),
            final(self).next == old(self).next + 1,
            final(self).same_tables(old(self)),
    {
        let number: usize = self.next;
        self.next = number + 1;
        graph.unary(Op::Range { axis: AxisId::Unrenumbered(number), kind }, DType::WeakInt, end)
    }

    /// Gives a node the ranges that walk what it reads and what it gives.
    pub fn set_ranges(&mut self, id: usize, inputs: Vec<usize>, outputs: Vec<usize>)
        ensures
            final(self).inputs@ == old(self).inputs@.insert(id, inputs),
            final(self).outputs@ == old(self).outputs@.insert(id, outputs),
            final(self).realize_map@ == old(self).realize_map@,
            final(self).next == old(self).next,
            final(self).pinned@ == old(self).pinned@,
    {
        self.inputs.insert(id, inputs);
        self.outputs.insert(id, outputs);
    }

    /// The ranges that walk what a node reads.
    pub fn input_ranges(&self, id: usize) -> (ranges: Option<&Vec<usize>>)
        ensures
            match ranges {
                Some(list) => self.inputs@.contains_key(id) && *list == self.inputs@[id],
                None => !self.inputs@.contains_key(id),
            },
    {
        self.inputs.get(&id)
    }

    /// The ranges that walk what a node gives.
    pub fn output_ranges(&self, id: usize) -> (ranges: Option<&Vec<usize>>)
        ensures
            match ranges {
                Some(list) => self.outputs@.contains_key(id) && *list == self.outputs@[id],
                None => !self.outputs@.contains_key(id),
            },
    {
        self.outputs.get(&id)
    }

    /// Stores a node along all of its axes.
    pub fn mark_realize_all(&mut self, id: usize)
        ensures
            final(self).realize_map@ == old(self).realize_map@.insert(id, None),
            final(self).inputs@ == old(self).inputs@,
            final(self).outputs@ == old(self).outputs@,
            final(self).next == old(self).next,
            final(self).pinned@ == old(self).pinned@,
    {
        self.realize_map.insert(id, None);
    }

    /// Stores a node along some axes.
    pub fn mark_realize(&mut self, id: usize, axes: Vec<usize>)
        ensures
            final(self).realize_map@ == old(self).realize_map@.insert(id, Some(axes)),
            final(self).inputs@ == old(self).inputs@,
            final(self).outputs@ == old(self).outputs@,
            final(self).next == old(self).next,
            final(self).pinned@ == old(self).pinned@,
    {
        self.realize_map.insert(id, Some(axes));
    }

    /// Stores a node along all of its axes, in storage that must stay.
    pub fn pin_realize(&mut self, id: usize)
        ensures
            final(self).realize_map@ == old(self).realize_map@.insert(id, None),
            final(self).pinned@ == old(self).pinned@.insert(id),
            final(self).inputs@ == old(self).inputs@,
            final(self).outputs@ == old(self).outputs@,
            final(self).next == old(self).next,
    {
        self.realize_map.insert(id, None);
        self.pinned.insert(id);
    }

    /// Whether a node is stored in storage that must stay.
    pub fn is_non_removable_realize(&self, id: usize) -> (r: bool)
        ensures
            r == self.pinned@.contains(id),
    {
        self.pinned.contains(&id)
    }

    /// Whether a node is stored.
    pub fn should_realize(&self, id: usize) -> (r: bool)
        ensures
            r == self.realize_map@.contains_key(id),
    {
        self.realize_map.contains_key(&id)
    }

    /// The axes along which a node is stored, where they are listed.
    pub fn get_realize_axes(&self, id: usize) -> (axes: Option<&Vec<usize>>)
        ensures
            match axes {
                Some(list) => self.realize_map@.contains_key(id) && self.realize_map@[id] == Some(
                    *list,
                ),
                None => !self.realize_map@.contains_key(id) || self.realize_map@[id] is None,
            },
    {
        match self.realize_map.get(&id) {
            Some(Some(axes)) => Some(axes),
            _ => None,
        }
    }
}

/// Whether an operation only moves elements.
pub open spec fn moves(op: Op) -> bool {
    match op {
        Op::Reshape | Op::Expand | Op::Permute | Op::Flip | Op::Pad | Op::Shrink => true,
        _ => false,
    }
}

/// What takes the place of a node that only moves elements: its source, once
/// the ranges that walk the node are known, for they say what is moved where.
pub fn remove_movement(graph: &Graph, ctx: &IndexingContext, id: usize) -> (source: Option<usize>)
    requires
        graph.wf(),
        id < graph@.len(),
    ensures
        source == if moves(graph@[id as int].op) && graph@[id as int].srcs.len() > 0
            && ctx.inputs@.contains_key(id) {
            Some(graph@[id as int].srcs[0])
        } else {
            None
        },
{
    let moving: bool = match graph.op(id) {
        Op::Reshape | Op::Expand | Op::Permute | Op::Flip | Op::Pad | Op::Shrink => true,
        _ => false,
    };
    if !moving || graph.source_count(id) == 0 {
        return None;
    }
    match ctx.input_ranges(id) {
        Some(_) => Some(graph.source(id, 0)),
        None => None,
    }
}

/// Whether an index is valid only where a condition holds.
pub open spec fn is_gated(dag: Seq<NodeView>, id: usize) -> bool {
    &&& dag[id as int].op == Op::Ternary(TernaryOp::Where)
    &&& dag[dag[id as int].srcs[2] as int].op == Op::Const(ConstValue::Invalid)
}

/// An index without its condition.
pub open spec fn idx_of(dag: Seq<NodeView>, id: usize) -> usize {
    if is_gated(dag, id) {
        dag[id as int].srcs[1]
    } else {
        id
    }
}

/// Whether a node is the constant that always holds.
pub open spec fn is_true(dag: Seq<NodeView>, id: usize) -> bool {
    dag[id as int].op == Op::Const(ConstValue::Bool(true))
}

/// The condition of an index; there is none where it always holds.
pub open spec fn condition_of(dag: Seq<NodeView>, id: usize) -> Option<usize> {
    if is_gated(dag, id) && !is_true(dag, dag[id as int].srcs[0]) {
        Some(dag[id as int].srcs[0])
    } else {
        None
    }
}

/// Splits an index: what it is without its condition.
pub fn get_idx(graph: &Graph, id: usize) -> (idx: usize)
    requires
        graph.wf(),
        id < graph@.len(),
    ensures
        idx == idx_of(graph@, id),
        idx <= id,
{
    if gated(graph, id) {
        graph.source(id, 1)
    } else {
        id
    }
}

/// The condition of an index, where it does not always hold.
pub fn get_condition(graph: &Graph, id: usize) -> (condition: Option<usize>)
    requires
        graph.wf(),
        id < graph@.len(),
    ensures
        condition == condition_of(graph@, id),
        condition matches Some(c) ==> c < id,
{
    if gated(graph, id) {
        let condition: usize = graph.source(id, 0);
        match graph.op(condition) {
            Op::Const(ConstValue::Bool(true)) => None,
            _ => Some(condition),
        }
    } else {
        None
    }
}

/// The condition of an index as a node: the constant `true` where it has none.
pub fn get_valid(graph: &mut Graph, id: usize) -> (valid: usize)
    requires
        old(graph).wf(),
        id < old(graph)@.len(),
    ensures
        match condition_of(old(graph)@, id) {
            Some(condition) => valid == condition && final(graph)@ == old(graph)@,
            None => grown(
                old(graph)@,
                *final(graph),
                put(old(graph)@, const_node(ConstValue::Bool(true), DType::Bool)),
                valid,
            ),
        },
        final(graph).wf(),
        valid < final(graph)@.len(),
{
    match get_condition(graph, id) {
        Some(condition) => condition,
        None => graph.constant(ConstValue::Bool(true), DType::Bool),
    }
}

pub(crate) fn gated(graph: &Graph, id: usize) -> (r: bool)
    requires
        graph.wf(),
        id < graph@.len(),
    ensures
        r == is_gated(graph@, id),
        r ==> graph@[id as int].srcs.len() == 3,
{
    proof {
        crate::meaning::lemma_arity(graph@, id);
    }
    match graph.op(id) {
        Op::Ternary(TernaryOp::Where) => {
            let other: usize = graph.source(id, 2);
            matches!(graph.op(other), Op::Const(ConstValue::Invalid))
        },
        _ => false,
    }
}

/// Whether all nodes of a list are one.
pub open spec fn is_same(list: Seq<usize>) -> bool {
    forall|i: int| 0 <= i < list.len() ==> #[trigger] list[i] == list[0]
}

/// Whether all nodes of a list are one; a list without nodes passes.
pub fn all_ranges_same(list: &Vec<usize>) -> (same: bool)
    ensures
        same == is_same(list@),
{
    let mut n: usize = 0;
    while n < list.len()
        invariant
            n <= list@.len(),
            forall|i: int| 0 <= i < n ==> #[trigger] list@[i] == list@[0],
        decreases list@.len() - n,
    {
        if list[n] != list[0] {
            assert(list@[n as int] != list@[0]);
            return false;
        }
        n += 1;
    }
    true
}

/// The ranges of the first `n` consumers along a dimension. A consumer with
/// fewer ranges has none there.
pub open spec fn column(consumers: Seq<Vec<usize>>, axis: int, n: nat) -> Seq<usize>
    decreases n,
{
    if n == 0 {
        Seq::empty()
    } else {
        let rest = column(consumers, axis, (n - 1) as nat);
        if axis < consumers[n - 1]@.len() {
            rest.push(consumers[n - 1]@[axis])
        } else {
            rest
        }
    }
}

/// The ranges of a list without their conditions.
pub open spec fn indices(dag: Seq<NodeView>, list: Seq<usize>) -> Seq<usize> {
    Seq::new(list.len(), |i: int| idx_of(dag, list[i]))
}

/// Whether the consumers agree along the first `n` dimensions, conditions apart.
pub open spec fn agree(dag: Seq<NodeView>, consumers: Seq<Vec<usize>>, n: nat) -> bool {
    forall|axis: int|
        0 <= axis < n ==> is_same(
            indices(dag, #[trigger] column(consumers, axis, consumers.len())),
        )
}

/// Whether one of the first `n` ranges is valid everywhere.
pub open spec fn some_always(dag: Seq<NodeView>, list: Seq<usize>, n: nat) -> bool {
    exists|i: int| 0 <= i < n && condition_of(dag, #[trigger] list[i]) is None
}

/// A node that holds where one of the conditions of the first `n` ranges does.
/// A condition that comes again is taken once.
pub open spec fn disjunction(dag: Seq<NodeView>, list: Seq<usize>, n: nat) -> Built
    decreases n,
{
    if n <= 1 {
        Built { dag, id: condition_of(dag, list[0])->0 }
    } else {
        let rest = disjunction(dag, list, (n - 1) as nat);
        let next = condition_of(dag, list[n - 1])->0;
        if next == rest.id {
            rest
        } else {
            put(
                rest.dag,
                NodeView {
                    op: Op::Binary(BinaryOp::Or),
                    dtype: DType::Bool,
                    srcs: seq![rest.id, next],
                },
            )
        }
    }
}

/// The range that the ranges of agreeing consumers merge into: the index, valid
/// where one of them is.
pub open spec fn merged_range(dag: Seq<NodeView>, list: Seq<usize>) -> Built {
    let idx = idx_of(dag, list[0]);
    if some_always(dag, list, list.len()) {
        Built { dag, id: idx }
    } else {
        let any = disjunction(dag, list, list.len());
        let invalid = put(any.dag, const_node(ConstValue::Invalid, DType::WeakInt));
        put(
            invalid.dag,
            NodeView {
                op: Op::Ternary(TernaryOp::Where),
                dtype: dag[idx as int].dtype,
                srcs: seq![any.id, idx, invalid.id],
            },
        )
    }
}

/// What merging has made so far.
pub struct Merged {
    pub dag: Seq<NodeView>,
    pub next: usize,
    pub ranges: Seq<usize>,
    pub realized: Seq<usize>,
}

/// The ranges along the first `n` dimensions: merged where the consumers agree
/// in all dimensions, and else new, in which case the dimension is stored. A
/// dimension without consumers gets a new range.
pub open spec fn merged(
    dag: Seq<NodeView>,
    next: usize,
    sizes: Seq<usize>,
    consumers: Seq<Vec<usize>>,
    n: nat,
) -> Merged
    decreases n,
{
    if n == 0 {
        Merged { dag, next, ranges: Seq::empty(), realized: Seq::empty() }
    } else {
        let before = merged(dag, next, sizes, consumers, (n - 1) as nat);
        let list = column(consumers, n - 1, consumers.len());
        if list.len() > 0 && agree(dag, consumers, sizes.len()) {
            let made = merged_range(before.dag, list);
            Merged { dag: made.dag, ranges: before.ranges.push(made.id), ..before }
        } else {
            let made = sized_range(before.dag, before.next, sizes[n - 1], AxisType::Loop);
            Merged {
                dag: made.dag,
                next: number_after(before.next, sizes[n - 1]),
                ranges: before.ranges.push(made.id),
                realized: before.realized.push((n - 1) as usize),
            }
        }
    }
}

/// Consumers whose ranges are in a graph.
pub open spec fn consumers_in(dag: Seq<NodeView>, consumers: Seq<Vec<usize>>) -> bool {
    forall|i: int, k: int|
        0 <= i < consumers.len() && 0 <= k < consumers[i]@.len() ==> (
        #[trigger] consumers[i]@[k]) < dag.len()
}

proof fn lemma_column(dag: Seq<NodeView>, consumers: Seq<Vec<usize>>, axis: int, n: nat)
    requires
        consumers_in(dag, consumers),
        0 <= axis,
        n <= consumers.len(),
    ensures
        forall|i: int|
            0 <= i < column(consumers, axis, n).len() ==> (#[trigger] column(consumers, axis, n)[i])
                < dag.len(),
    decreases n,
{
    if n > 0 {
        lemma_column(dag, consumers, axis, (n - 1) as nat);
        let rest = column(consumers, axis, (n - 1) as nat);
        let all = column(consumers, axis, n);
        assert forall|i: int| 0 <= i < all.len() implies (#[trigger] all[i]) < dag.len() by {
            if i < rest.len() {
                assert(all[i] == rest[i]);
            } else {
                assert(consumers[n - 1]@[axis] < dag.len());
            }
        }
    }
}

fn find_column(consumers: &Vec<Vec<usize>>, axis: usize) -> (list: Vec<usize>)
    ensures
        list@ == column(consumers@, axis as int, consumers@.len()),
{
    let mut list: Vec<usize> = Vec::new();
    let mut n: usize = 0;
    while n < consumers.len()
        invariant
            n <= consumers@.len(),
            list@ == column(consumers@, axis as int, n as nat),
        decreases consumers@.len() - n,
    {
        if axis < consumers[n].len() {
            list.push(consumers[n][axis]);
        }
        n += 1;
    }
    list
}

fn find_agreement(graph: &Graph, consumers: &Vec<Vec<usize>>, rank: usize) -> (r: bool)
    requires
        graph.wf(),
        consumers_in(graph@, consumers@),
    ensures
        r == agree(graph@, consumers@, rank as nat),
{
    let mut axis: usize = 0;
    while axis < rank
        invariant
            axis <= rank,
            graph.wf(),
            consumers_in(graph@, consumers@),
            agree(graph@, consumers@, axis as nat),
        decreases rank - axis,
    {
        let list = find_column(consumers, axis);
        proof {
            lemma_column(graph@, consumers@, axis as int, consumers@.len());
        }
        let mut bare: Vec<usize> = Vec::new();
        let mut n: usize = 0;
        while n < list.len()
            invariant
                n <= list@.len(),
                graph.wf(),
                forall|i: int| 0 <= i < list@.len() ==> (#[trigger] list@[i]) < graph@.len(),
                bare@.len() == n,
                forall|i: int| 0 <= i < n ==> bare@[i] == idx_of(graph@, list@[i]),
            decreases list@.len() - n,
        {
            bare.push(get_idx(graph, list[n]));
            n += 1;
        }
        assert(bare@ =~= indices(graph@, list@));
        if !all_ranges_same(&bare) {
            assert(!is_same(
                indices(graph@, column(consumers@, axis as int, consumers@.len())),
            ));
            return false;
        }
        axis += 1;
    }
    true
}

proof fn lemma_parts_extend(dag: Seq<NodeView>, more: Seq<NodeView>, id: usize)
    requires
        dag_wf(dag),
        extends(dag, more),
        id < dag.len(),
    ensures
        idx_of(more, id) == idx_of(dag, id),
        condition_of(more, id) == condition_of(dag, id),
        more[id as int] == dag[id as int],
{
    crate::meaning::lemma_arity(dag, id);
    if dag[id as int].op == Op::Ternary(TernaryOp::Where) {
        assert(dag[id as int].srcs[0] < id);
        assert(dag[id as int].srcs[1] < id);
        assert(dag[id as int].srcs[2] < id);
    }
}

fn put_disjunction(graph: &mut Graph, list: &Vec<usize>) -> (id: usize)
    requires
        old(graph).wf(),
        list@.len() > 0,
        forall|i: int| 0 <= i < list@.len() ==> (#[trigger] list@[i]) < old(graph)@.len(),
        !some_always(old(graph)@, list@, list@.len()),
    ensures
        grown(old(graph)@, *final(graph), disjunction(old(graph)@, list@, list@.len()), id),
{
    let ghost dag = graph@;
    assert(condition_of(dag, list@[0]) is Some);
    let mut id: usize = match get_condition(graph, list[0]) {
        Some(condition) => condition,
        None => 0,
    };
    let mut n: usize = 1;
    while n < list.len()
        invariant
            1 <= n <= list@.len(),
            dag_wf(dag),
            forall|i: int| 0 <= i < list@.len() ==> (#[trigger] list@[i]) < dag.len(),
            !some_always(dag, list@, list@.len()),
            grown(dag, *graph, disjunction(dag, list@, n as nat), id),
        decreases list@.len() - n,
    {
        proof {
            assert(condition_of(dag, list@[n as int]) is Some);
            lemma_parts_extend(dag, graph@, list@[n as int]);
        }
        let next: usize = match get_condition(graph, list[n]) {
            Some(condition) => condition,
            None => 0,
        };
        if next != id {
            id = graph.binary(Op::Binary(BinaryOp::Or), DType::Bool, id, next);
        }
        n += 1;
    }
    id
}

fn put_merged_range(graph: &mut Graph, list: &Vec<usize>) -> (id: usize)
    requires
        old(graph).wf(),
        list@.len() > 0,
        forall|i: int| 0 <= i < list@.len() ==> (#[trigger] list@[i]) < old(graph)@.len(),
    ensures
        grown(old(graph)@, *final(graph), merged_range(old(graph)@, list@), id),
{
    let idx: usize = get_idx(graph, list[0]);
    let mut n: usize = 0;
    while n < list.len()
        invariant
            n <= list@.len(),
            graph.wf(),
            graph@ == old(graph)@,
            idx == idx_of(graph@, list@[0]),
            idx < graph@.len(),
            forall|i: int| 0 <= i < list@.len() ==> (#[trigger] list@[i]) < graph@.len(),
            !some_always(graph@, list@, n as nat),
        decreases list@.len() - n,
    {
        if get_condition(graph, list[n]).is_none() {
            assert(condition_of(graph@, list@[n as int]) is None);
            return idx;
        }
        n += 1;
    }
    let dtype = graph.dtype(idx);
    let any: usize = put_disjunction(graph, list);
    let invalid: usize = graph.constant(ConstValue::Invalid, DType::WeakInt);
    graph.ternary(Op::Ternary(TernaryOp::Where), dtype, any, idx, invalid)
}

/// Which nodes are stored once a node is stored along some axes, if any.
pub open spec fn stored_along(
    before: Map<usize, Option<Vec<usize>>>,
    after: Map<usize, Option<Vec<usize>>>,
    id: usize,
    axes: Seq<usize>,
) -> bool {
    if axes.len() == 0 {
        after == before
    } else {
        exists|list: Vec<usize>| list@ == axes && after == #[trigger] before.insert(id, Some(list))
    }
}

/// Merges the ranges of the consumers of a node, one per dimension. Where they
/// do not agree, every dimension gets a new range and the node is stored.
pub fn merge_consumer_ranges(
    graph: &mut Graph,
    ctx: &mut IndexingContext,
    id: usize,
    sizes: &Vec<usize>,
    consumers: &Vec<Vec<usize>>,
) -> (ranges: Vec<usize>)
    requires
        old(graph).wf(),
        consumers_in(old(graph)@, consumers@),
        old(ctx).next + sizes@.len() < usize::MAX,
        forall|i: int| 0 <= i < sizes@.len() ==> (#[trigger] sizes@[i]) <= i64::MAX,
    ensures
        final(graph).wf(),
        extends(old(graph)@, final(graph)@),
        ({
            let all = merged(old(graph)@, old(ctx).next, sizes@, consumers@, sizes@.len());
            &&& final(graph)@ == all.dag
            &&& ranges@ == all.ranges
            &&& final(ctx).next == all.next
            &&& final(ctx).inputs@ == old(ctx).inputs@
            &&& final(ctx).outputs@ == old(ctx).outputs@
            &&& final(ctx).pinned@ == old(ctx).pinned@
            &&& stored_along(old(ctx).realize_map@, final(ctx).realize_map@, id, all.realized)
        }),
{
    let ghost dag = graph@;
    let ghost start = ctx.next;
    let agreed = find_agreement(graph, consumers, sizes.len());
    let mut ranges: Vec<usize> = Vec::new();
    let mut realized: Vec<usize> = Vec::new();
    let mut n: usize = 0;
    while n < sizes.len()
        invariant
            n <= sizes@.len(),
            dag == old(graph)@,
            start == old(ctx).next,
            dag_wf(dag),
            graph.wf(),
            extends(dag, graph@),
            consumers_in(dag, consumers@),
            agreed == agree(dag, consumers@, sizes@.len()),
            start + sizes@.len() < usize::MAX,
            ctx.next <= start + n,
            ctx.same_tables(old(ctx)),
            forall|i: int| 0 <= i < sizes@.len() ==> (#[trigger] sizes@[i]) <= i64::MAX,
            graph@ == merged(dag, start, sizes@, consumers@, n as nat).dag,
            ctx.next == merged(dag, start, sizes@, consumers@, n as nat).next,
            ranges@ == merged(dag, start, sizes@, consumers@, n as nat).ranges,
            realized@ == merged(dag, start, sizes@, consumers@, n as nat).realized,
        decreases sizes@.len() - n,
    {
        let list = find_column(consumers, n);
        proof {
            lemma_column(dag, consumers@, n as int, consumers@.len());
        }
        if list.len() > 0 && agreed {
            let range: usize = put_merged_range(graph, &list);
            ranges.push(range);
        } else {
            let range: usize = ctx.new_range(graph, sizes[n], AxisType::Loop);
            ranges.push(range);
            realized.push(n);
        }
        n += 1;
    }
    let ghost axes = realized;
    if realized.len() > 0 {
        ctx.mark_realize(id, realized);
        assert(ctx.realize_map@ == old(ctx).realize_map@.insert(id, Some(axes)));
    }
    ranges
}

/// Consumers that all walk a dimension with one unguarded range share that
/// range, and nothing is stored.
pub proof fn lemma_shared_ranges_pass(
    dag: Seq<NodeView>,
    next: usize,
    sizes: Seq<usize>,
    ranges: Seq<usize>,
    consumers: Seq<Vec<usize>>,
    n: nat,
)
    requires
        dag_wf(dag),
        consumers.len() > 0,
        n <= sizes.len(),
        ranges.len() == sizes.len(),
        forall|i: int| 0 <= i < ranges.len() ==> !is_gated(dag, #[trigger] ranges[i]),
        forall|i: int| 0 <= i < consumers.len() ==> (#[trigger] consumers[i])@ == ranges,
    ensures
        merged(dag, next, sizes, consumers, n) == (Merged {
            dag,
            next,
            ranges: ranges.take(n as int),
            realized: Seq::empty(),
        }),
    decreases n,
{
    if n > 0 {
        lemma_shared_ranges_pass(dag, next, sizes, ranges, consumers, (n - 1) as nat);
        assert forall|axis: int| 0 <= axis < sizes.len() implies is_same(
            indices(dag, #[trigger] column(consumers, axis, consumers.len())),
        ) by {
            lemma_shared_column(ranges, consumers, axis, consumers.len());
        }
        lemma_shared_column(ranges, consumers, n - 1, consumers.len());
        let list = column(consumers, n - 1, consumers.len());
        assert(condition_of(dag, list[0]) is None);
        assert(ranges.take(n as int) =~= ranges.take(n - 1).push(ranges[n - 1]));
    } else {
        assert(ranges.take(0) =~= Seq::empty());
    }
}

proof fn lemma_shared_column(
    ranges: Seq<usize>,
    consumers: Seq<Vec<usize>>,
    axis: int,
    n: nat,
)
    requires
        0 <= axis < ranges.len(),
        n <= consumers.len(),
        forall|i: int| 0 <= i < consumers.len() ==> (#[trigger] consumers[i])@ == ranges,
    ensures
        column(consumers, axis, n).len() == n,
        forall|i: int| 0 <= i < n ==> #[trigger] column(consumers, axis, n)[i] == ranges[axis],
    decreases n,
{
    if n > 0 {
        lemma_shared_column(ranges, consumers, axis, (n - 1) as nat);
        assert(consumers[n - 1]@ == ranges);
    }
}

} // verus!
