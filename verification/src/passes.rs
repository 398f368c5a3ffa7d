//! Rewrites of memory accesses and of vector arithmetic.

use vstd::prelude::*;

use crate::accumulate::{accumulate, accumulated, clean_up_group_sink, ungrouped};
use crate::address::{end_view, ended_view, fold_views, folded_views};
use crate::broadcast::{broadcast_product, expand_broadcast};
use crate::builders::{cast_node, const_node, extent_node, lemma_interned_keeps, put, Built};
use crate::commit::{commit, committed};
use crate::dce::{apply_branch_rule, apply_loop_rule, dead_branch, dead_loop};
use crate::demote::{apply_demote_rule, demoted};
use crate::divide::{divide_fast, undivided};
use crate::early::{early_rewrite, early_rewritten};
use crate::finish::{validate, validated};
use crate::flatten::{flatten_range_impl, flattened};
use crate::graph::{
    arity_ok, dag_wf, interned, lemma_id_of, ConstValue, DType, Graph, NodeView, Op, TernaryOp,
};
use crate::group::{group_for_reduce, grouped_reduce};
use crate::lanes::{lane_rule, take_apart};
use crate::late::{apply_late_rule, late_rule, Late};
use crate::multi::{apply_lower_rule, apply_multi_rule, lower_rule, multi_rule};
use crate::scalarize::{scalarize, scalarized};
use crate::storage::{store_in_words, stored};
use crate::symbolic::{distribute, distributed, simplified, simplify};
use crate::topo::{lemma_topo, ordered, reaches, topo};

verus! {

/// Whether a graph still has all nodes of another where they were.
pub open spec fn extends(dag: Seq<NodeView>, more: Seq<NodeView>) -> bool {
    &&& dag.len() <= more.len()
    &&& forall|i: int| 0 <= i < dag.len() ==> #[trigger] more[i] == dag[i]
}

/// The operations whose operands are combined lane by lane.
pub open spec fn is_alu(op: Op) -> bool {
    op is Unary || op is Binary || op is Ternary || op is Cast || op is BitCast || op is Precast
}

/// The number of lanes of a node's value. A stack has one for each source,
/// arithmetic as many as the widest operand, a memory access as many as its
/// address, and a reshaped value as many as before.
pub open spec fn width(dag: Seq<NodeView>, id: usize) -> nat
    decreases id, 1int, 0int,
{
    let node = dag[id as int];
    if node.op is Stack {
        node.srcs.len()
    } else if is_alu(node.op) {
        widest(dag, id, node.srcs.len())
    } else if node.op is Load || node.op is Reshape {
        if node.srcs.len() > 0 && node.srcs[0] < id {
            width(dag, node.srcs[0])
        } else {
            1
        }
    } else if node.op is Index {
        if node.srcs.len() > 1 && node.srcs[1] < id {
            width(dag, node.srcs[1])
        } else {
            1
        }
    } else {
        1
    }
}

/// The number of lanes of the widest of the first `n` sources.
pub open spec fn widest(dag: Seq<NodeView>, id: usize, n: nat) -> nat
    decreases id, 0int, n,
{
    if n == 0 || n > dag[id as int].srcs.len() || dag[id as int].srcs[n - 1] >= id {
        1
    } else {
        let rest = widest(dag, id, (n - 1) as nat);
        let last = width(dag, dag[id as int].srcs[n - 1]);
        if last > rest {
            last
        } else {
            rest
        }
    }
}

/// The zero of a type.
pub open spec fn zero_of(dtype: DType) -> ConstValue {
    match dtype {
        DType::Bool => ConstValue::Bool(false),
        DType::FP8E4M3
        | DType::FP8E5M2
        | DType::FP8E4M3FNUZ
        | DType::FP8E5M2FNUZ
        | DType::Float16
        | DType::BFloat16
        | DType::Float32
        | DType::Float64
        | DType::WeakFloat => ConstValue::Float(0),
        _ => ConstValue::Int(0),
    }
}

/// Whether a node is the marker of an invalid value.
pub open spec fn is_invalid(dag: Seq<NodeView>, id: usize) -> bool {
    dag[id as int].op == Op::Const(ConstValue::Invalid)
}

/// Whether a node is the marker, or a stack of nothing but markers.
pub open spec fn all_invalid(dag: Seq<NodeView>, id: usize) -> bool {
    ||| is_invalid(dag, id)
    ||| {
        &&& dag[id as int].op is Stack
        &&& dag[id as int].srcs.len() > 0
        &&& forall|k: int|
            0 <= k < dag[id as int].srcs.len() ==> is_invalid(
                dag,
                #[trigger] dag[id as int].srcs[k],
            )
    }
}

/// The zero of a type in a number of lanes.
pub open spec fn zeros(dag: Seq<NodeView>, dtype: DType, lanes: nat) -> Built {
    let one = put(dag, const_node(zero_of(dtype), dtype));
    if lanes == 1 {
        one
    } else {
        put(
            one.dag,
            NodeView { op: Op::Stack, dtype, srcs: Seq::new(lanes, |i: int| one.id) },
        )
    }
}

/// The rewrites.
#[derive(Clone, Copy, Debug, PartialEq, Eq, Structural)]
pub enum Pass {
    BoolStorage,
    NoVectorizedAlu,
    Gater,
    InvalidFold,
    Late(Late),
    DeadLoops,
    DeadBranches,
    Multi,
    LowerCollectives,
    Demote,
    Flatten,
    Early,
    Lanes,
    FastDivision,
    Symbolic,
    Address,
    Distribute,
    Commit,
    Devectorize,
    Final,
    Accumulate,
    Ungroup,
    GroupReduce,
    Broadcast,
    Storage { from: DType, to: DType },
}

/// The node with other sources.
pub open spec fn with_srcs(node: NodeView, srcs: Seq<usize>) -> NodeView {
    NodeView { op: node.op, dtype: node.dtype, srcs }
}

/// A boolean is stored in a byte: a load of one is converted from a byte, with
/// its alternative converted to one; a stored one is converted to a byte,
/// unless it is invalid; and what reinterprets one converts it.
pub open spec fn bool_storage(dag: Seq<NodeView>, id: usize) -> Built {
    let node = dag[id as int];
    if node.op is Load && node.dtype == DType::Bool {
        if node.srcs.len() == 3 {
            let alt = put(dag, cast_node(node.srcs[1], DType::UInt8));
            let load = put(
                alt.dag,
                NodeView {
                    op: Op::Load,
                    dtype: DType::UInt8,
                    srcs: seq![node.srcs[0], alt.id, node.srcs[2]],
                },
            );
            put(load.dag, cast_node(load.id, DType::Bool))
        } else {
            let load = put(
                dag,
                NodeView { op: Op::Load, dtype: DType::UInt8, srcs: node.srcs },
            );
            put(load.dag, cast_node(load.id, DType::Bool))
        }
    } else if node.op is Store && dag[node.srcs[1] as int].dtype == DType::Bool && !is_invalid(
        dag,
        node.srcs[1],
    ) {
        let value = put(dag, cast_node(node.srcs[1], DType::UInt8));
        put(value.dag, with_srcs(node, node.srcs.update(1, value.id)))
    } else if node.op is BitCast && (node.dtype == DType::Bool || dag[node.srcs[0] as int].dtype
        == DType::Bool) {
        put(dag, cast_node(node.srcs[0], node.dtype))
    } else {
        Built { dag, id }
    }
}

/// Whether an address is guarded: its first index is chosen by a condition,
/// and invalid where that does not hold.
pub open spec fn is_guarded(dag: Seq<NodeView>, address: usize) -> bool {
    let node = dag[address as int];
    &&& node.op is Index
    &&& node.srcs.len() > 1
    &&& dag[node.srcs[1] as int].op == Op::Ternary(TernaryOp::Where)
    &&& all_invalid(dag, dag[node.srcs[1] as int].srcs[2])
}

/// The condition of a guarded address.
pub open spec fn guard_of(dag: Seq<NodeView>, address: usize) -> usize {
    dag[dag[address as int].srcs[1] as int].srcs[0]
}

/// A guarded address without its condition.
pub open spec fn bare_address(dag: Seq<NodeView>, address: usize) -> NodeView {
    let node = dag[address as int];
    with_srcs(node, node.srcs.update(1, dag[node.srcs[1] as int].srcs[1]))
}

/// The condition of a guarded address moves to the access: a load reads zero
/// where it does not hold, and a store does nothing. A choice by the condition
/// of a load between the load and something else is the load's alternative.
pub open spec fn move_guard(dag: Seq<NodeView>, id: usize) -> Built {
    let node = dag[id as int];
    if node.op is Load && node.srcs.len() == 1 && is_guarded(dag, node.srcs[0]) {
        let guard = guard_of(dag, node.srcs[0]);
        let address = put(dag, bare_address(dag, node.srcs[0]));
        let alt = zeros(address.dag, node.dtype, width(address.dag, address.id));
        put(alt.dag, with_srcs(node, seq![address.id, alt.id, guard]))
    } else if node.op is Store && node.srcs.len() == 2 && is_guarded(dag, node.srcs[0]) {
        let guard = guard_of(dag, node.srcs[0]);
        let address = put(dag, bare_address(dag, node.srcs[0]));
        put(address.dag, with_srcs(node, seq![address.id, node.srcs[1], guard]))
    } else if node.op == Op::Ternary(TernaryOp::Where) && dag[node.srcs[1] as int].op is Load
        && dag[node.srcs[1] as int].srcs.len() == 3 && dag[node.srcs[1] as int].srcs[2]
        == node.srcs[0] {
        let load = dag[node.srcs[1] as int];
        put(dag, with_srcs(load, load.srcs.update(1, node.srcs[2])))
    } else {
        Built { dag, id }
    }
}

/// An access at an invalid address is folded away: a load to its alternative,
/// or to zero if it has none; and a store to nothing, unless it is guarded.
pub open spec fn fold_invalid(dag: Seq<NodeView>, id: usize) -> Built {
    let node = dag[id as int];
    let at = dag[node.srcs[0] as int];
    let folds = at.op is Index && at.srcs.len() > 1 && all_invalid(dag, at.srcs[1]);
    if node.op is Load && folds {
        if node.srcs.len() == 3 {
            Built { dag, id: node.srcs[1] }
        } else {
            zeros(dag, node.dtype, width(dag, id))
        }
    } else if node.op is Store && folds && node.srcs.len() == 2 {
        put(dag, NodeView { op: Op::Noop, dtype: DType::Void, srcs: Seq::empty() })
    } else {
        Built { dag, id }
    }
}

/// One lane of a value: of a stack the source at that position, and of any
/// other value what an index reads.
pub open spec fn lane_of(dag: Seq<NodeView>, src: usize, lane: usize) -> Built {
    let node = dag[src as int];
    if node.op is Stack {
        Built { dag, id: node.srcs[lane as int] }
    } else {
        let at = put(dag, extent_node(lane as i64));
        put(at.dag, NodeView { op: Op::Index, dtype: node.dtype, srcs: seq![src, at.id] })
    }
}

/// One lane of each of the first `n` sources.
pub open spec fn lane_sources(
    dag: Seq<NodeView>,
    srcs: Seq<usize>,
    lane: usize,
    n: nat,
) -> (Seq<NodeView>, Seq<usize>)
    decreases n,
{
    if n == 0 {
        (dag, Seq::empty())
    } else {
        let (rest, list) = lane_sources(dag, srcs, lane, (n - 1) as nat);
        let next = lane_of(rest, srcs[n - 1], lane);
        (next.dag, list.push(next.id))
    }
}

/// The first `n` lanes of an arithmetic node.
pub open spec fn lanes_of(dag: Seq<NodeView>, node: NodeView, n: nat) -> (Seq<NodeView>, Seq<usize>)
    decreases n,
{
    if n == 0 {
        (dag, Seq::empty())
    } else {
        let (rest, list) = lanes_of(dag, node, (n - 1) as nat);
        let (wide, srcs) = lane_sources(rest, node.srcs, (n - 1) as usize, node.srcs.len());
        let next = put(wide, with_srcs(node, srcs));
        (next.dag, list.push(next.id))
    }
}

/// Whether a node is arithmetic on several lanes, as many in every operand.
pub open spec fn is_vector_alu(dag: Seq<NodeView>, id: usize) -> bool {
    let node = dag[id as int];
    &&& is_alu(node.op)
    &&& width(dag, id) > 1
    &&& forall|k: int|
        0 <= k < node.srcs.len() ==> width(dag, #[trigger] node.srcs[k]) == width(dag, id)
}

/// Arithmetic on several lanes becomes a stack of arithmetic on one.
pub open spec fn devectorize(dag: Seq<NodeView>, id: usize) -> Built {
    if is_vector_alu(dag, id) {
        let node = dag[id as int];
        let (wide, lanes) = lanes_of(dag, node, width(dag, id));
        put(wide, NodeView { op: Op::Stack, dtype: node.dtype, srcs: lanes })
    } else {
        Built { dag, id }
    }
}

/// What goes in the place of a node: the node itself where nothing else does.
pub open spec fn replaced_by(built: Option<Built>, dag: Seq<NodeView>, id: usize) -> Built {
    match built {
        Some(new) => new,
        None => Built { dag, id },
    }
}

/// What a rewrite makes of one node.
pub open spec fn rule(pass: Pass, dag: Seq<NodeView>, id: usize) -> Built {
    match pass {
        Pass::BoolStorage => bool_storage(dag, id),
        Pass::NoVectorizedAlu => devectorize(dag, id),
        Pass::Gater => move_guard(dag, id),
        Pass::InvalidFold => fold_invalid(dag, id),
        Pass::Late(late) => late_rule(late, dag, id),
        Pass::DeadLoops => dead_loop(dag, id),
        Pass::DeadBranches => dead_branch(dag, id),
        Pass::Multi => multi_rule(dag, id),
        Pass::LowerCollectives => lower_rule(dag, id),
        Pass::Demote => demoted(dag, id),
        Pass::Flatten => replaced_by(flattened(dag, id), dag, id),
        Pass::Early => replaced_by(early_rewritten(dag, id), dag, id),
        Pass::Lanes => replaced_by(lane_rule(dag, id), dag, id),
        Pass::FastDivision => replaced_by(undivided(dag, id), dag, id),
        Pass::Symbolic => replaced_by(simplified(dag, id), dag, id),
        Pass::Distribute => replaced_by(distributed(dag, id), dag, id),
        Pass::Commit => replaced_by(committed(dag, id), dag, id),
        Pass::Final => replaced_by(validated(dag, id), dag, id),
        Pass::Accumulate => replaced_by(accumulated(dag, id), dag, id),
        Pass::Ungroup => replaced_by(ungrouped(dag, id), dag, id),
        Pass::GroupReduce => replaced_by(grouped_reduce(dag, id), dag, id),
        Pass::Broadcast => replaced_by(broadcast_product(dag, id), dag, id),
        Pass::Storage { from, to } => replaced_by(stored(dag, from, to, id), dag, id),
        Pass::Devectorize => match scalarized(dag, id) {
            Some(new) => new,
            None => devectorize(dag, id),
        },
        Pass::Address => match ended_view(dag, id) {
            Some(new) => new,
            None => folded_views(dag, id),
        },
    }
}

/// What a step of a rewrite leaves: a well-formed graph that has all earlier
/// nodes, and a node in it.
pub open spec fn grown(before: Seq<NodeView>, after: Graph, built: Built, id: usize) -> bool {
    &&& after.wf()
    &&& after@ == built.dag
    &&& id == built.id
    &&& id < after@.len()
    &&& extends(before, after@)
}

/// The widths of the nodes before `id`.
spec fn widths_ok(dag: Seq<NodeView>, widths: Seq<usize>) -> bool {
    &&& widths.len() <= dag.len()
    &&& forall|i: usize| i < widths.len() ==> #[trigger] widths[i as int] == width(dag, i)
}

fn next_width(graph: &Graph, id: usize, widths: &Vec<usize>) -> (lanes: usize)
    requires
        graph.wf(),
        id < graph@.len(),
        id <= widths@.len(),
        widths_ok(graph@, widths@),
    ensures
        lanes == width(graph@, id),
{
    let ghost dag = graph@;
    let count: usize = graph.source_count(id);
    match graph.op(id) {
        Op::Stack => count,
        Op::Unary(_) | Op::Binary(_) | Op::Ternary(_) | Op::Cast | Op::BitCast | Op::Precast => {
            let mut lanes: usize = 1;
            let mut k: usize = 0;
            while k < count
                invariant
                    graph.wf(),
                    dag == graph@,
                    id < dag.len(),
                    id <= widths@.len(),
                    widths_ok(dag, widths@),
                    count == dag[id as int].srcs.len(),
                    k <= count,
                    lanes == widest(dag, id, k as nat),
                decreases count - k,
            {
                let src: usize = graph.source(id, k);
                if widths[src] > lanes {
                    lanes = widths[src];
                }
                k += 1;
            }
            lanes
        },
        Op::Load | Op::Reshape => {
            if count > 0 {
                widths[graph.source(id, 0)]
            } else {
                1
            }
        },
        Op::Index => {
            if count > 1 {
                widths[graph.source(id, 1)]
            } else {
                1
            }
        },
        _ => 1,
    }
}

/// The widths of all nodes up to `id`.
fn widths_upto(graph: &Graph, id: usize) -> (widths: Vec<usize>)
    requires
        graph.wf(),
        id < graph@.len(),
    ensures
        widths@.len() == id + 1,
        widths_ok(graph@, widths@),
{
    let mut widths: Vec<usize> = Vec::new();
    let mut at: usize = 0;
    while at < id
        invariant
            graph.wf(),
            at <= id < graph@.len(),
            widths@.len() == at,
            widths_ok(graph@, widths@),
        decreases id - at,
    {
        let lanes: usize = next_width(graph, at, &widths);
        widths.push(lanes);
        at += 1;
    }
    let lanes: usize = next_width(graph, id, &widths);
    widths.push(lanes);
    widths
}

/// The number of lanes of a node's value.
pub fn lane_count(graph: &Graph, id: usize) -> (lanes: usize)
    requires
        graph.wf(),
        id < graph@.len(),
    ensures
        lanes == width(graph@, id),
{
    let widths = widths_upto(graph, id);
    widths[id]
}

pub(crate) fn invalid(graph: &Graph, id: usize) -> (r: bool)
    requires
        id < graph@.len(),
    ensures
        r == is_invalid(graph@, id),
{
    match graph.op(id) {
        Op::Const(ConstValue::Invalid) => true,
        _ => false,
    }
}

fn wholly_invalid(graph: &Graph, id: usize) -> (r: bool)
    requires
        graph.wf(),
        id < graph@.len(),
    ensures
        r == all_invalid(graph@, id),
{
    if invalid(graph, id) {
        return true;
    }
    let stack: bool = match graph.op(id) {
        Op::Stack => true,
        _ => false,
    };
    let count: usize = graph.source_count(id);
    if !stack || count == 0 {
        return false;
    }
    let mut k: usize = 0;
    while k < count
        invariant
            graph.wf(),
            id < graph@.len(),
            count == graph@[id as int].srcs.len(),
            !is_invalid(graph@, id),
            k <= count,
            forall|j: int|
                0 <= j < k ==> is_invalid(graph@, #[trigger] graph@[id as int].srcs[j]),
        decreases count - k,
    {
        let src: usize = graph.source(id, k);
        if !invalid(graph, src) {
            assert(!is_invalid(graph@, graph@[id as int].srcs[k as int]));
            return false;
        }
        k += 1;
    }
    true
}

pub(crate) fn zero(dtype: DType) -> (value: ConstValue)
    ensures
        value == zero_of(dtype),
{
    match dtype {
        DType::Bool => ConstValue::Bool(false),
        DType::FP8E4M3
        | DType::FP8E5M2
        | DType::FP8E4M3FNUZ
        | DType::FP8E5M2FNUZ
        | DType::Float16
        | DType::BFloat16
        | DType::Float32
        | DType::Float64
        | DType::WeakFloat => ConstValue::Float(0),
        _ => ConstValue::Int(0),
    }
}

fn build_zeros(graph: &mut Graph, dtype: DType, lanes: usize) -> (id: usize)
    requires
        old(graph).wf(),
    ensures
        grown(old(graph)@, *final(graph), zeros(old(graph)@, dtype, lanes as nat), id),
{
    let one: usize = graph.constant(zero(dtype), dtype);
    proof {
        lemma_interned_keeps(old(graph)@, const_node(zero_of(dtype), dtype));
    }
    if lanes == 1 {
        return one;
    }
    let ghost held = graph@;
    let mut list: Vec<usize> = Vec::new();
    let mut at: usize = 0;
    while at < lanes
        invariant
            at <= lanes,
            list@.len() == at,
            forall|i: int| 0 <= i < at ==> #[trigger] list@[i] == one,
        decreases lanes - at,
    {
        list.push(one);
        at += 1;
    }
    assert(list@ =~= Seq::new(lanes as nat, |i: int| one));
    let id: usize = graph.node(Op::Stack, dtype, list.as_slice());
    proof {
        lemma_interned_keeps(held, NodeView { op: Op::Stack, dtype, srcs: list@ });
    }
    id
}

/// The sources of a node.
pub(crate) fn sources(graph: &Graph, id: usize) -> (list: Vec<usize>)
    requires
        graph.wf(),
        id < graph@.len(),
    ensures
        list@ == graph@[id as int].srcs,
        forall|i: int| 0 <= i < list@.len() ==> (#[trigger] list@[i]) < id,
{
    let count: usize = graph.source_count(id);
    let mut list: Vec<usize> = Vec::new();
    let mut k: usize = 0;
    while k < count
        invariant
            graph.wf(),
            id < graph@.len(),
            count == graph@[id as int].srcs.len(),
            k <= count,
            list@ == graph@[id as int].srcs.take(k as int),
            forall|i: int| 0 <= i < list@.len() ==> (#[trigger] list@[i]) < id,
        decreases count - k,
    {
        let src: usize = graph.source(id, k);
        list.push(src);
        k += 1;
        assert(list@ =~= graph@[id as int].srcs.take(k as int));
    }
    assert(list@ =~= graph@[id as int].srcs);
    list
}

fn apply_bool_rule(graph: &mut Graph, id: usize) -> (new: usize)
    requires
        old(graph).wf(),
        id < old(graph)@.len(),
    ensures
        grown(old(graph)@, *final(graph), bool_storage(old(graph)@, id), new),
{
    let ghost dag = graph@;
    let ghost node = dag[id as int];
    assert(arity_ok(node.op, node.srcs.len()));
    let dtype = graph.dtype(id);
    match graph.op(id) {
        Op::Load => {
            if dtype != DType::Bool {
                return id;
            }
            let address: usize = graph.source(id, 0);
            let load: usize = if graph.source_count(id) == 3 {
                let alt: usize = graph.source(id, 1);
                let guard: usize = graph.source(id, 2);
                let byte: usize = graph.cast(alt, DType::UInt8);
                proof {
                    lemma_interned_keeps(dag, cast_node(alt, DType::UInt8));
                }
                let ghost held = graph@;
                let load: usize = graph.ternary(Op::Load, DType::UInt8, address, byte, guard);
                proof {
                    lemma_interned_keeps(
                        held,
                        NodeView {
                            op: Op::Load,
                            dtype: DType::UInt8,
                            srcs: seq![address, byte, guard],
                        },
                    );
                }
                load
            } else {
                assert(node.srcs =~= seq![address]);
                let load: usize = graph.unary(Op::Load, DType::UInt8, address);
                proof {
                    lemma_interned_keeps(
                        dag,
                        NodeView { op: Op::Load, dtype: DType::UInt8, srcs: seq![address] },
                    );
                }
                load
            };
            let ghost held = graph@;
            let new: usize = graph.cast(load, DType::Bool);
            proof {
                lemma_interned_keeps(held, cast_node(load, DType::Bool));
            }
            new
        },
        Op::Store => {
            let value: usize = graph.source(id, 1);
            if graph.dtype(value) != DType::Bool || invalid(graph, value) {
                return id;
            }
            let mut list = sources(graph, id);
            let byte: usize = graph.cast(value, DType::UInt8);
            proof {
                lemma_interned_keeps(dag, cast_node(value, DType::UInt8));
            }
            let ghost held = graph@;
            list.set(1, byte);
            let new: usize = graph.node(Op::Store, dtype, list.as_slice());
            proof {
                lemma_interned_keeps(held, with_srcs(node, list@));
            }
            new
        },
        Op::BitCast => {
            let src: usize = graph.source(id, 0);
            if dtype != DType::Bool && graph.dtype(src) != DType::Bool {
                return id;
            }
            let new: usize = graph.cast(src, dtype);
            proof {
                lemma_interned_keeps(dag, cast_node(src, dtype));
            }
            new
        },
        _ => id,
    }
}

fn guarded(graph: &Graph, address: usize) -> (r: bool)
    requires
        graph.wf(),
        address < graph@.len(),
    ensures
        r == is_guarded(graph@, address),
{
    let index: bool = match graph.op(address) {
        Op::Index => true,
        _ => false,
    };
    if !index || graph.source_count(address) < 2 {
        return false;
    }
    let chosen: usize = graph.source(address, 1);
    match graph.op(chosen) {
        Op::Ternary(TernaryOp::Where) => {
            assert(arity_ok(graph@[chosen as int].op, graph@[chosen as int].srcs.len()));
            let other: usize = graph.source(chosen, 2);
            wholly_invalid(graph, other)
        },
        _ => false,
    }
}

/// Takes the condition off a guarded address.
fn strip_guard(graph: &mut Graph, address: usize) -> (result: (usize, usize))
    requires
        old(graph).wf(),
        address < old(graph)@.len(),
        is_guarded(old(graph)@, address),
    ensures
        grown(
            old(graph)@,
            *final(graph),
            put(old(graph)@, bare_address(old(graph)@, address)),
            result.0,
        ),
        result.1 == guard_of(old(graph)@, address),
        result.1 < old(graph)@.len(),
{
    let ghost dag = graph@;
    let ghost node = dag[address as int];
    let chosen: usize = graph.source(address, 1);
    assert(arity_ok(dag[chosen as int].op, dag[chosen as int].srcs.len()));
    let guard: usize = graph.source(chosen, 0);
    let index: usize = graph.source(chosen, 1);
    let dtype = graph.dtype(address);
    let mut list = sources(graph, address);
    list.set(1, index);
    let bare: usize = graph.node(Op::Index, dtype, list.as_slice());
    proof {
        lemma_interned_keeps(dag, bare_address(dag, address));
    }
    (bare, guard)
}

fn apply_guard_rule(graph: &mut Graph, id: usize) -> (new: usize)
    requires
        old(graph).wf(),
        id < old(graph)@.len(),
    ensures
        grown(old(graph)@, *final(graph), move_guard(old(graph)@, id), new),
{
    let ghost dag = graph@;
    let ghost node = dag[id as int];
    assert(arity_ok(node.op, node.srcs.len()));
    let dtype = graph.dtype(id);
    match graph.op(id) {
        Op::Load => {
            if graph.source_count(id) != 1 {
                return id;
            }
            let address: usize = graph.source(id, 0);
            if !guarded(graph, address) {
                return id;
            }
            let (bare, guard) = strip_guard(graph, address);
            let lanes: usize = lane_count(graph, bare);
            let alt: usize = build_zeros(graph, dtype, lanes);
            let ghost held = graph@;
            let new: usize = graph.ternary(Op::Load, dtype, bare, alt, guard);
            proof {
                lemma_interned_keeps(held, with_srcs(node, seq![bare, alt, guard]));
            }
            new
        },
        Op::Store => {
            if graph.source_count(id) != 2 {
                return id;
            }
            let address: usize = graph.source(id, 0);
            let value: usize = graph.source(id, 1);
            if !guarded(graph, address) {
                return id;
            }
            let (bare, guard) = strip_guard(graph, address);
            let ghost held = graph@;
            let new: usize = graph.ternary(Op::Store, dtype, bare, value, guard);
            proof {
                lemma_interned_keeps(held, with_srcs(node, seq![bare, value, guard]));
            }
            new
        },
        Op::Ternary(TernaryOp::Where) => {
            let condition: usize = graph.source(id, 0);
            let load: usize = graph.source(id, 1);
            let other: usize = graph.source(id, 2);
            let loads: bool = match graph.op(load) {
                Op::Load => true,
                _ => false,
            };
            if !loads || graph.source_count(load) != 3 || graph.source(load, 2) != condition {
                return id;
            }
            let kind = graph.dtype(load);
            let mut list = sources(graph, load);
            list.set(1, other);
            let new: usize = graph.node(Op::Load, kind, list.as_slice());
            proof {
                lemma_interned_keeps(dag, with_srcs(dag[load as int], list@));
            }
            new
        },
        _ => id,
    }
}

fn apply_invalid_rule(graph: &mut Graph, id: usize) -> (new: usize)
    requires
        old(graph).wf(),
        id < old(graph)@.len(),
    ensures
        grown(old(graph)@, *final(graph), fold_invalid(old(graph)@, id), new),
{
    let ghost dag = graph@;
    let ghost node = dag[id as int];
    assert(arity_ok(node.op, node.srcs.len()));
    let loads: bool = match graph.op(id) {
        Op::Load => true,
        Op::Store => false,
        _ => {
            return id;
        },
    };
    let address: usize = graph.source(id, 0);
    let index: bool = match graph.op(address) {
        Op::Index => true,
        _ => false,
    };
    if !index || graph.source_count(address) < 2 {
        return id;
    }
    let first: usize = graph.source(address, 1);
    if !wholly_invalid(graph, first) {
        return id;
    }
    let count: usize = graph.source_count(id);
    if loads {
        if count == 3 {
            graph.source(id, 1)
        } else {
            let dtype = graph.dtype(id);
            let lanes: usize = lane_count(graph, id);
            build_zeros(graph, dtype, lanes)
        }
    } else if count == 2 {
        let new: usize = graph.leaf(Op::Noop, DType::Void);
        proof {
            lemma_interned_keeps(
                dag,
                NodeView { op: Op::Noop, dtype: DType::Void, srcs: Seq::empty() },
            );
        }
        new
    } else {
        id
    }
}

fn build_lane(graph: &mut Graph, src: usize, lane: usize) -> (id: usize)
    requires
        old(graph).wf(),
        src < old(graph)@.len(),
        old(graph)@[src as int].op is Stack ==> lane < old(graph)@[src as int].srcs.len(),
    ensures
        grown(old(graph)@, *final(graph), lane_of(old(graph)@, src, lane), id),
{
    let ghost dag = graph@;
    match graph.op(src) {
        Op::Stack => graph.source(src, lane),
        _ => {
            let dtype = graph.dtype(src);
            let at: usize = graph.index_const(lane as i64);
            proof {
                lemma_interned_keeps(dag, extent_node(lane as i64));
            }
            let ghost held = graph@;
            let id: usize = graph.binary(Op::Index, dtype, src, at);
            proof {
                lemma_interned_keeps(
                    held,
                    NodeView { op: Op::Index, dtype, srcs: seq![src, at] },
                );
            }
            id
        },
    }
}

/// One lane of each source of an arithmetic node.
fn build_lane_sources(graph: &mut Graph, srcs: &Vec<usize>, lane: usize) -> (list: Vec<usize>)
    requires
        old(graph).wf(),
        forall|k: int|
            0 <= k < srcs@.len() ==> {
                let src = #[trigger] srcs@[k];
                src < old(graph)@.len() && (old(graph)@[src as int].op is Stack ==> lane
                    < old(graph)@[src as int].srcs.len())
            },
    ensures
        final(graph).wf(),
        extends(old(graph)@, final(graph)@),
        final(graph)@ == lane_sources(old(graph)@, srcs@, lane, srcs@.len()).0,
        list@ == lane_sources(old(graph)@, srcs@, lane, srcs@.len()).1,
        list@.len() == srcs@.len(),
        forall|k: int| 0 <= k < list@.len() ==> (#[trigger] list@[k]) < final(graph)@.len(),
{
    let ghost dag = graph@;
    let mut list: Vec<usize> = Vec::new();
    let mut k: usize = 0;
    while k < srcs.len()
        invariant
            graph.wf(),
            extends(dag, graph@),
            forall|j: int|
                0 <= j < srcs@.len() ==> {
                    let src = #[trigger] srcs@[j];
                    src < dag.len() && (dag[src as int].op is Stack ==> lane < dag[
                        src as int
                    ].srcs.len())
                },
            k <= srcs@.len(),
            graph@ == lane_sources(dag, srcs@, lane, k as nat).0,
            list@ == lane_sources(dag, srcs@, lane, k as nat).1,
            list@.len() == k,
            forall|j: int| 0 <= j < list@.len() ==> (#[trigger] list@[j]) < graph@.len(),
        decreases srcs@.len() - k,
    {
        let src: usize = srcs[k];
        assert(graph@[src as int] == dag[src as int]);
        let id: usize = build_lane(graph, src, lane);
        list.push(id);
        k += 1;
    }
    list
}

/// Whether a node is arithmetic on several lanes, as many in every operand;
/// and how many.
fn vector_lanes(graph: &Graph, id: usize) -> (lanes: Option<usize>)
    requires
        graph.wf(),
        id < graph@.len(),
    ensures
        match lanes {
            Some(n) => is_vector_alu(graph@, id) && n == width(graph@, id),
            None => !is_vector_alu(graph@, id),
        },
{
    let ghost dag = graph@;
    match graph.op(id) {
        Op::Unary(_) | Op::Binary(_) | Op::Ternary(_) | Op::Cast | Op::BitCast | Op::Precast => {},
        _ => {
            return None;
        },
    }
    let widths = widths_upto(graph, id);
    let lanes: usize = widths[id];
    if lanes <= 1 {
        return None;
    }
    let count: usize = graph.source_count(id);
    let mut k: usize = 0;
    while k < count
        invariant
            graph.wf(),
            dag == graph@,
            id < dag.len(),
            widths@.len() == id + 1,
            widths_ok(dag, widths@),
            lanes == width(dag, id),
            count == dag[id as int].srcs.len(),
            k <= count,
            forall|j: int|
                0 <= j < k ==> width(dag, #[trigger] dag[id as int].srcs[j]) == lanes,
        decreases count - k,
    {
        let src: usize = graph.source(id, k);
        if widths[src] != lanes {
            assert(width(dag, dag[id as int].srcs[k as int]) != lanes);
            return None;
        }
        k += 1;
    }
    Some(lanes)
}

fn apply_lane_rule(graph: &mut Graph, id: usize) -> (new: usize)
    requires
        old(graph).wf(),
        id < old(graph)@.len(),
    ensures
        grown(old(graph)@, *final(graph), devectorize(old(graph)@, id), new),
{
    let ghost dag = graph@;
    let ghost node = dag[id as int];
    let lanes: usize = match vector_lanes(graph, id) {
        Some(n) => n,
        None => {
            return id;
        },
    };
    let op = graph.op(id);
    let dtype = graph.dtype(id);
    let srcs = sources(graph, id);
    assert(arity_ok(node.op, node.srcs.len()));
    let mut list: Vec<usize> = Vec::new();
    let mut at: usize = 0;
    while at < lanes
        invariant
            graph.wf(),
            extends(dag, graph@),
            id < dag.len(),
            node == dag[id as int],
            op == node.op,
            dtype == node.dtype,
            srcs@ == node.srcs,
            arity_ok(node.op, node.srcs.len()),
            is_vector_alu(dag, id),
            lanes == width(dag, id),
            forall|k: int| 0 <= k < srcs@.len() ==> (#[trigger] srcs@[k]) < id,
            at <= lanes,
            graph@ == lanes_of(dag, node, at as nat).0,
            list@ == lanes_of(dag, node, at as nat).1,
            list@.len() == at,
            forall|k: int| 0 <= k < list@.len() ==> (#[trigger] list@[k]) < graph@.len(),
        decreases lanes - at,
    {
        proof {
            assert forall|k: int| 0 <= k < srcs@.len() implies {
                let src = #[trigger] srcs@[k];
                src < graph@.len() && (graph@[src as int].op is Stack ==> at < graph@[
                    src as int
                ].srcs.len())
            } by {
                let src = srcs@[k];
                assert(graph@[src as int] == dag[src as int]);
                assert(width(dag, node.srcs[k]) == lanes);
            }
        }
        let ghost held = graph@;
        let inner = build_lane_sources(graph, &srcs, at);
        let ghost wide = graph@;
        let lane: usize = graph.node(op, dtype, inner.as_slice());
        proof {
            lemma_interned_keeps(wide, with_srcs(node, inner@));
        }
        list.push(lane);
        at += 1;
    }
    let ghost held = graph@;
    let new: usize = graph.node(Op::Stack, dtype, list.as_slice());
    proof {
        lemma_interned_keeps(held, NodeView { op: Op::Stack, dtype, srcs: list@ });
    }
    new
}

fn apply_rule(graph: &mut Graph, pass: Pass, id: usize) -> (new: usize)
    requires
        old(graph).wf(),
        id < old(graph)@.len(),
    ensures
        grown(old(graph)@, *final(graph), rule(pass, old(graph)@, id), new),
{
    match pass {
        Pass::BoolStorage => apply_bool_rule(graph, id),
        Pass::NoVectorizedAlu => apply_lane_rule(graph, id),
        Pass::Gater => apply_guard_rule(graph, id),
        Pass::InvalidFold => apply_invalid_rule(graph, id),
        Pass::Late(late) => apply_late_rule(graph, late, id),
        Pass::DeadLoops => apply_loop_rule(graph, id),
        Pass::DeadBranches => apply_branch_rule(graph, id),
        Pass::Multi => apply_multi_rule(graph, id),
        Pass::LowerCollectives => apply_lower_rule(graph, id),
        Pass::Demote => apply_demote_rule(graph, id),
        Pass::Flatten => match flatten_range_impl(graph, id) {
            Some(new) => new,
            None => id,
        },
        Pass::Early => match early_rewrite(graph, id) {
            Some(new) => new,
            None => id,
        },
        Pass::Lanes => match take_apart(graph, id) {
            Some(new) => new,
            None => id,
        },
        Pass::FastDivision => match divide_fast(graph, id, false) {
            Some(new) => new,
            None => id,
        },
        Pass::Symbolic => match simplify(graph, id) {
            Some(new) => new,
            None => id,
        },
        Pass::Distribute => match distribute(graph, id) {
            Some(new) => new,
            None => id,
        },
        Pass::Commit => match commit(graph, id) {
            Some(new) => new,
            None => id,
        },
        Pass::Accumulate => match accumulate(graph, id) {
            Some(new) => new,
            None => id,
        },
        Pass::Ungroup => match clean_up_group_sink(graph, id) {
            Some(new) => new,
            None => id,
        },
        Pass::GroupReduce => match group_for_reduce(graph, id) {
            Some(new) => new,
            None => id,
        },
        Pass::Broadcast => match expand_broadcast(graph, id) {
            Some(new) => new,
            None => id,
        },
        Pass::Final => match validate(graph, id) {
            Some(new) => new,
            None => id,
        },
        Pass::Storage { from, to } => match store_in_words(graph, from, to, id) {
            Some(new) => new,
            None => id,
        },
        Pass::Devectorize => match scalarize(graph, id) {
            Some(new) => new,
            None => apply_lane_rule(graph, id),
        },
        Pass::Address => match end_view(graph, id) {
            Some(new) => new,
            None => fold_views(graph, id),
        },
    }
}

/// A graph in the middle of a rewrite, and what stands for the nodes so far.
pub struct Walked {
    pub dag: Seq<NodeView>,
    pub stands: Map<usize, usize>,
}

/// The sources that stand for those of a node.
pub open spec fn moved(srcs: Seq<usize>, stands: Map<usize, usize>) -> Seq<usize> {
    Seq::new(srcs.len(), |k: int| stands[srcs[k]])
}

/// The first `n` nodes of a walk rewritten: each over what stands for its
/// sources, and then by the rule.
pub open spec fn walked(pass: Pass, dag: Seq<NodeView>, walk: Seq<usize>, n: nat) -> Walked
    decreases n,
{
    if n == 0 {
        Walked { dag, stands: Map::empty() }
    } else {
        let rest = walked(pass, dag, walk, (n - 1) as nat);
        let node = dag[walk[n - 1] as int];
        let copy = put(rest.dag, with_srcs(node, moved(node.srcs, rest.stands)));
        let new = rule(pass, copy.dag, copy.id);
        Walked { dag: new.dag, stands: rest.stands.insert(walk[n - 1], new.id) }
    }
}

/// A rewrite of everything at and below a root.
pub open spec fn rewritten(pass: Pass, dag: Seq<NodeView>, root: usize) -> Built {
    let done = walked(pass, dag, topo(dag, root), topo(dag, root).len());
    Built { dag: done.dag, id: done.stands[root] }
}

/// Rewrites everything at and below a root, sources first.
#[verifier::rlimit(80)]
#[verifier::spinoff_prover]
pub fn rewrite(graph: &mut Graph, pass: Pass, root: usize) -> (new: usize)
    requires
        old(graph).wf(),
        root < old(graph)@.len(),
    ensures
        final(graph).wf(),
        final(graph)@ == rewritten(pass, old(graph)@, root).dag,
        new == rewritten(pass, old(graph)@, root).id,
        new < final(graph)@.len(),
        extends(old(graph)@, final(graph)@),
{
    let ghost dag = graph@;
    let walk = graph.toposort(root);
    let len: usize = graph.len();
    let mut stands: Vec<usize> = Vec::new();
    let mut id: usize = 0;
    while id < len
        invariant
            id <= len,
            stands@.len() == id,
        decreases len - id,
    {
        stands.push(0);
        id += 1;
    }
    let mut n: usize = 0;
    while n < walk.len()
        invariant
            graph.wf(),
            dag_wf(dag),
            extends(dag, graph@),
            root < dag.len(),
            walk@ == topo(dag, root),
            ordered(dag, walk@),
            len == dag.len(),
            stands@.len() == len,
            n <= walk@.len(),
            graph@ == walked(pass, dag, walk@, n as nat).dag,
            forall|p: int|
                0 <= p < n ==> stands@[(#[trigger] walk@[p]) as int] == walked(
                    pass,
                    dag,
                    walk@,
                    n as nat,
                ).stands[walk@[p]] && stands@[walk@[p] as int] < graph@.len(),
        decreases walk@.len() - n,
    {
        let u: usize = walk[n];
        let ghost node = dag[u as int];
        let ghost rest = walked(pass, dag, walk@, n as nat);
        assert(graph@[u as int] == node);
        assert(arity_ok(node.op, node.srcs.len()));
        let op = graph.op(u);
        let dtype = graph.dtype(u);
        let count: usize = graph.source_count(u);
        let mut list: Vec<usize> = Vec::new();
        let mut k: usize = 0;
        while k < count
            invariant
                graph.wf(),
                ordered(dag, walk@),
                extends(dag, graph@),
                n < walk@.len(),
                u == walk@[n as int],
                node == dag[u as int],
                graph@[u as int] == node,
                u < dag.len(),
                len == dag.len(),
                stands@.len() == len,
                count == node.srcs.len(),
                rest == walked(pass, dag, walk@, n as nat),
                forall|p: int|
                    0 <= p < n ==> stands@[(#[trigger] walk@[p]) as int] == rest.stands[walk@[p]]
                        && stands@[walk@[p] as int] < graph@.len(),
                k <= count,
                list@ == moved(node.srcs, rest.stands).take(k as int),
                forall|j: int| 0 <= j < list@.len() ==> (#[trigger] list@[j]) < graph@.len(),
            decreases count - k,
        {
            let src: usize = graph.source(u, k);
            proof {
                assert(dag[walk@[n as int] as int].srcs[k as int] == src);
                let q = choose|q: int| 0 <= q < n && #[trigger] walk@[q] == src;
                assert(walk@[q] == src);
            }
            list.push(stands[src]);
            k += 1;
            assert(list@ =~= moved(node.srcs, rest.stands).take(k as int));
        }
        assert(list@ =~= moved(node.srcs, rest.stands));
        let ghost held = graph@;
        let copy: usize = graph.node(op, dtype, list.as_slice());
        proof {
            lemma_interned_keeps(held, with_srcs(node, list@));
        }
        let new: usize = apply_rule(graph, pass, copy);
        let ghost before = stands@;
        stands.set(u, new);
        proof {
            let now = walked(pass, dag, walk@, (n + 1) as nat);
            assert(now.stands == rest.stands.insert(u, new));
            assert forall|p: int| 0 <= p < n + 1 implies stands@[(#[trigger] walk@[p]) as int]
                == now.stands[walk@[p]] && stands@[walk@[p] as int] < graph@.len() by {
                if p < n {
                    assert(walk@[p] != walk@[n as int]);
                    assert(before[walk@[p] as int] == rest.stands[walk@[p]]);
                }
            }
        }
        n += 1;
    }
    proof {
        assert(walk@[walk@.len() - 1] == root);
    }
    stands[root]
}

/// A graph is kept as it is where the rule leaves every node at and below the
/// root alone.
pub proof fn lemma_settled_graph_is_kept(pass: Pass, dag: Seq<NodeView>, root: usize)
    requires
        dag_wf(dag),
        root < dag.len() <= usize::MAX,
        forall|i: usize|
            reaches(dag, root, i) ==> #[trigger] rule(pass, dag, i) == (Built { dag, id: i }),
    ensures
        rewritten(pass, dag, root) == (Built { dag, id: root }),
{
    let walk = topo(dag, root);
    lemma_topo(dag, root);
    assert forall|p: int| 0 <= p < walk.len() implies #[trigger] rule(pass, dag, walk[p])
        == (Built { dag, id: walk[p] }) by {
        assert(walk.contains(walk[p]));
    }
    lemma_settled_walk(pass, dag, root, walk.len());
    assert(walk[walk.len() - 1] == root);
}

/// Where the rule leaves every node below the root alone, a rewrite is what the
/// rule makes of the root.
pub proof fn lemma_settled_below(pass: Pass, dag: Seq<NodeView>, root: usize)
    requires
        dag_wf(dag),
        root < dag.len() <= usize::MAX,
        forall|i: usize|
            reaches(dag, root, i) && i != root ==> #[trigger] rule(pass, dag, i) == (Built {
                dag,
                id: i,
            }),
    ensures
        rewritten(pass, dag, root) == rule(pass, dag, root),
{
    let walk = topo(dag, root);
    let n = (walk.len() - 1) as nat;
    lemma_topo(dag, root);
    assert forall|p: int| 0 <= p < n implies #[trigger] rule(pass, dag, walk[p]) == (Built {
        dag,
        id: walk[p],
    }) by {
        assert(walk.contains(walk[p]));
        assert(walk[p] != walk[n as int]);
    }
    lemma_settled_walk(pass, dag, root, n);
    let rest = walked(pass, dag, walk, n);
    let node = dag[root as int];
    assert forall|k: int| 0 <= k < node.srcs.len() implies rest.stands[node.srcs[k]]
        == node.srcs[k] by {
        assert(dag[walk[n as int] as int].srcs[k] == node.srcs[k]);
        let q = choose|q: int| 0 <= q < n && #[trigger] walk[q] == node.srcs[k];
        assert(walk[q] == node.srcs[k]);
    }
    assert(moved(node.srcs, rest.stands) =~= node.srcs);
    assert(with_srcs(node, node.srcs) == node);
    assert(dag.contains(node)) by {
        assert(dag[root as int] == node);
    }
    lemma_id_of(dag, root);
}

proof fn lemma_settled_walk(pass: Pass, dag: Seq<NodeView>, root: usize, n: nat)
    requires
        dag_wf(dag),
        root < dag.len() <= usize::MAX,
        n <= topo(dag, root).len(),
        forall|p: int|
            0 <= p < n ==> #[trigger] rule(pass, dag, topo(dag, root)[p]) == (Built {
                dag,
                id: topo(dag, root)[p],
            }),
    ensures
        walked(pass, dag, topo(dag, root), n).dag == dag,
        forall|p: int|
            0 <= p < n ==> walked(pass, dag, topo(dag, root), n).stands[#[trigger] topo(
                dag,
                root,
            )[p]] == topo(dag, root)[p],
    decreases n,
{
    let walk = topo(dag, root);
    lemma_topo(dag, root);
    if n > 0 {
        lemma_settled_walk(pass, dag, root, (n - 1) as nat);
        let rest = walked(pass, dag, walk, (n - 1) as nat);
        let u = walk[n - 1];
        let node = dag[u as int];
        assert forall|k: int| 0 <= k < node.srcs.len() implies rest.stands[node.srcs[k]]
            == node.srcs[k] by {
            assert(dag[walk[n - 1] as int].srcs[k] == node.srcs[k]);
            let q = choose|q: int| 0 <= q < n - 1 && #[trigger] walk[q] == node.srcs[k];
            assert(walk[q] == node.srcs[k]);
        }
        assert(moved(node.srcs, rest.stands) =~= node.srcs);
        assert(with_srcs(node, node.srcs) == node);
        assert(dag.contains(node)) by {
            assert(dag[u as int] == node);
        }
        lemma_id_of(dag, u);
        assert(rule(pass, dag, u) == (Built { dag, id: u }));
        let now = walked(pass, dag, walk, n);
        assert forall|p: int| 0 <= p < n implies now.stands[#[trigger] walk[p]] == walk[p] by {
            if p < n - 1 {
                assert(walk[p] != walk[n - 1]);
            }
        }
    }
}

/// Boolean loads and stores go through bytes; see `bool_storage`.
pub fn apply_bool_storage(graph: &mut Graph, id: usize) -> (new: usize)
    requires
        old(graph).wf(),
        id < old(graph)@.len(),
    ensures
        final(graph).wf(),
        final(graph)@ == rewritten(Pass::BoolStorage, old(graph)@, id).dag,
        new == rewritten(Pass::BoolStorage, old(graph)@, id).id,
        new < final(graph)@.len(),
        extends(old(graph)@, final(graph)@),
{
    rewrite(graph, Pass::BoolStorage, id)
}

/// Arithmetic on several lanes becomes a stack of arithmetic on one; see
/// `devectorize`.
pub fn apply_no_vectorized_alu(graph: &mut Graph, id: usize) -> (new: usize)
    requires
        old(graph).wf(),
        id < old(graph)@.len(),
    ensures
        final(graph).wf(),
        final(graph)@ == rewritten(Pass::NoVectorizedAlu, old(graph)@, id).dag,
        new == rewritten(Pass::NoVectorizedAlu, old(graph)@, id).id,
        new < final(graph)@.len(),
        extends(old(graph)@, final(graph)@),
{
    rewrite(graph, Pass::NoVectorizedAlu, id)
}

/// The conditions of addresses move to the accesses; see `move_guard`.
pub fn apply_gater(graph: &mut Graph, id: usize) -> (new: usize)
    requires
        old(graph).wf(),
        id < old(graph)@.len(),
    ensures
        final(graph).wf(),
        final(graph)@ == rewritten(Pass::Gater, old(graph)@, id).dag,
        new == rewritten(Pass::Gater, old(graph)@, id).id,
        new < final(graph)@.len(),
        extends(old(graph)@, final(graph)@),
{
    rewrite(graph, Pass::Gater, id)
}

/// Accesses at invalid addresses are folded away; see `fold_invalid`.
pub fn apply_invalid_fold(graph: &mut Graph, id: usize) -> (new: usize)
    requires
        old(graph).wf(),
        id < old(graph)@.len(),
    ensures
        final(graph).wf(),
        final(graph)@ == rewritten(Pass::InvalidFold, old(graph)@, id).dag,
        new == rewritten(Pass::InvalidFold, old(graph)@, id).id,
        new < final(graph)@.len(),
        extends(old(graph)@, final(graph)@),
{
    rewrite(graph, Pass::InvalidFold, id)
}

/// A node that is put in a graph stands where it is said to.
pub proof fn lemma_put(dag: Seq<NodeView>, node: NodeView)
    requires
        put(dag, node).dag.len() <= usize::MAX,
    ensures
        put(dag, node).id < put(dag, node).dag.len(),
        put(dag, node).dag[put(dag, node).id as int] == node,
{
    let next = interned(dag, node);
    let i = if dag.contains(node) {
        choose|i: int| 0 <= i < dag.len() && dag[i] == node
    } else {
        dag.len() as int
    };
    assert(next[i] == node);
    assert((i as usize) < next.len() && next[(i as usize) as int] == node);
}

/// What a rule makes of a node, the rule leaves alone.
pub proof fn lemma_rules_settle(pass: Pass, dag: Seq<NodeView>, id: usize)
    requires
        dag_wf(dag),
        id < dag.len(),
        pass == Pass::BoolStorage || pass == Pass::NoVectorizedAlu || pass == Pass::Gater,
        rule(pass, dag, id).dag.len() <= usize::MAX,
    ensures
        rule(pass, rule(pass, dag, id).dag, rule(pass, dag, id).id) == rule(pass, dag, id),
{
    let node = dag[id as int];
    assert(arity_ok(node.op, node.srcs.len()));
    match pass {
        Pass::BoolStorage => {
            if node.op is Load && node.dtype == DType::Bool {
                let load = if node.srcs.len() == 3 {
                    let alt = put(dag, cast_node(node.srcs[1], DType::UInt8));
                    put(
                        alt.dag,
                        NodeView {
                            op: Op::Load,
                            dtype: DType::UInt8,
                            srcs: seq![node.srcs[0], alt.id, node.srcs[2]],
                        },
                    )
                } else {
                    put(dag, NodeView { op: Op::Load, dtype: DType::UInt8, srcs: node.srcs })
                };
                lemma_put(load.dag, cast_node(load.id, DType::Bool));
            } else if node.op is Store && dag[node.srcs[1] as int].dtype == DType::Bool
                && !is_invalid(dag, node.srcs[1]) {
                let byte = cast_node(node.srcs[1], DType::UInt8);
                let value = put(dag, byte);
                let store = with_srcs(node, node.srcs.update(1, value.id));
                lemma_interned_keeps(value.dag, store);
                lemma_put(dag, byte);
                lemma_put(value.dag, store);
            } else if node.op is BitCast && (node.dtype == DType::Bool
                || dag[node.srcs[0] as int].dtype == DType::Bool) {
                lemma_put(dag, cast_node(node.srcs[0], node.dtype));
            }
        },
        Pass::NoVectorizedAlu => {
            if is_vector_alu(dag, id) {
                let (wide, lanes) = lanes_of(dag, node, width(dag, id));
                lemma_put(wide, NodeView { op: Op::Stack, dtype: node.dtype, srcs: lanes });
            }
        },
        Pass::Gater => {
            if node.op is Load && node.srcs.len() == 1 && is_guarded(dag, node.srcs[0]) {
                let guard = guard_of(dag, node.srcs[0]);
                let address = put(dag, bare_address(dag, node.srcs[0]));
                let alt = zeros(address.dag, node.dtype, width(address.dag, address.id));
                lemma_put(alt.dag, with_srcs(node, seq![address.id, alt.id, guard]));
            } else if node.op is Store && node.srcs.len() == 2 && is_guarded(dag, node.srcs[0]) {
                let guard = guard_of(dag, node.srcs[0]);
                let address = put(dag, bare_address(dag, node.srcs[0]));
                lemma_put(address.dag, with_srcs(node, seq![address.id, node.srcs[1], guard]));
            } else if node.op == Op::Ternary(TernaryOp::Where) && dag[node.srcs[1] as int].op is Load
                && dag[node.srcs[1] as int].srcs.len() == 3 && dag[node.srcs[1] as int].srcs[2]
                == node.srcs[0] {
                let load = dag[node.srcs[1] as int];
                lemma_put(dag, with_srcs(load, load.srcs.update(1, node.srcs[2])));
            }
        },
        _ => {},
    }
}

/// A graph that a node is put in has all earlier nodes.
pub proof fn lemma_extends_put(dag: Seq<NodeView>, more: Seq<NodeView>, node: NodeView)
    requires
        extends(dag, more),
    ensures
        extends(dag, put(more, node).dag),
        extends(more, put(more, node).dag),
{
    lemma_interned_keeps(more, node);
}

proof fn lemma_lane_sources_extend(dag: Seq<NodeView>, srcs: Seq<usize>, lane: usize, n: nat)
    ensures
        extends(dag, lane_sources(dag, srcs, lane, n).0),
        lane_sources(dag, srcs, lane, n).1.len() == n,
    decreases n,
{
    if n > 0 {
        lemma_lane_sources_extend(dag, srcs, lane, (n - 1) as nat);
        let (rest, _list) = lane_sources(dag, srcs, lane, (n - 1) as nat);
        let src = srcs[n - 1];
        let node = rest[src as int];
        if !(node.op is Stack) {
            let at = put(rest, extent_node(lane as i64));
            lemma_extends_put(dag, rest, extent_node(lane as i64));
            lemma_extends_put(
                dag,
                at.dag,
                NodeView { op: Op::Index, dtype: node.dtype, srcs: seq![src, at.id] },
            );
        }
    }
}

/// Whether a node does what another does, on one lane.
pub open spec fn is_lane(dag: Seq<NodeView>, lane: usize, node: NodeView) -> bool {
    &&& lane < dag.len()
    &&& dag[lane as int].op == node.op
    &&& dag[lane as int].dtype == node.dtype
    &&& dag[lane as int].srcs.len() == node.srcs.len()
}

proof fn lemma_lanes(dag: Seq<NodeView>, node: NodeView, n: nat)
    requires
        lanes_of(dag, node, n).0.len() <= usize::MAX,
    ensures
        extends(dag, lanes_of(dag, node, n).0),
        lanes_of(dag, node, n).1.len() == n,
        forall|i: int|
            0 <= i < n ==> is_lane(
                lanes_of(dag, node, n).0,
                #[trigger] lanes_of(dag, node, n).1[i],
                node,
            ),
    decreases n,
{
    if n > 0 {
        let (rest, list) = lanes_of(dag, node, (n - 1) as nat);
        let (wide, srcs) = lane_sources(rest, node.srcs, (n - 1) as usize, node.srcs.len());
        lemma_lane_sources_extend(rest, node.srcs, (n - 1) as usize, node.srcs.len());
        let lane = with_srcs(node, srcs);
        lemma_interned_keeps(wide, lane);
        lemma_put(wide, lane);
        lemma_lanes(dag, node, (n - 1) as nat);
        let (more, now) = lanes_of(dag, node, n);
        assert forall|i: int| 0 <= i < n implies is_lane(more, #[trigger] now[i], node) by {
            if i < n - 1 {
                assert(now[i] == list[i]);
                assert(wide[list[i] as int] == rest[list[i] as int]);
                assert(more[list[i] as int] == wide[list[i] as int]);
            }
        }
    }
}

/// Arithmetic on several lanes becomes a stack of as many nodes, each of them
/// the same operation.
pub proof fn lemma_every_lane_is_computed(dag: Seq<NodeView>, id: usize)
    requires
        dag_wf(dag),
        id < dag.len(),
        is_vector_alu(dag, id),
        devectorize(dag, id).dag.len() <= usize::MAX,
    ensures
        ({
            let done = devectorize(dag, id);
            let stack = done.dag[done.id as int];
            &&& stack.op is Stack
            &&& stack.srcs.len() == width(dag, id)
            &&& forall|i: int|
                0 <= i < stack.srcs.len() ==> is_lane(
                    done.dag,
                    #[trigger] stack.srcs[i],
                    dag[id as int],
                )
        }),
{
    let node = dag[id as int];
    let (wide, lanes) = lanes_of(dag, node, width(dag, id));
    let stack = NodeView { op: Op::Stack, dtype: node.dtype, srcs: lanes };
    lemma_interned_keeps(wide, stack);
    lemma_put(wide, stack);
    lemma_lanes(dag, node, width(dag, id));
    let done = devectorize(dag, id);
    assert forall|i: int| 0 <= i < lanes.len() implies is_lane(
        done.dag,
        #[trigger] lanes[i],
        node,
    ) by {
        assert(done.dag[lanes[i] as int] == wide[lanes[i] as int]);
    }
}

} // verus!
