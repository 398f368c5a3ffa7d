//! The storage and the loops of a kernel under its own numbers.

use vstd::prelude::*;

use crate::builders::{const_node, extent_node, lemma_interned_keeps, put, Built};
use crate::context::RangeifyBufferContext;
use crate::graph::{AddrSpace, AxisId, ConstValue, DType, Graph, NodeView, Op};
use crate::late::{int_at, int_of, put_int};
use crate::meaning::lemma_arity;
use crate::passes::{extends, sources};

verus! {

/// Storage that belongs to a kernel: it is synchronized inside the kernel.
pub open spec fn is_scoped(op: Op) -> bool {
    match op {
        Op::Buffer { space, .. } => space != AddrSpace::Global,
        Op::Param { addrspace, .. } => addrspace == Some(AddrSpace::Local) || addrspace == Some(
            AddrSpace::Reg,
        ),
        _ => false,
    }
}

/// The storage behind wrappers for several devices: the first of a stack, and
/// the selected one of a selection.
pub open spec fn storage_of(dag: Seq<NodeView>, id: usize) -> usize
    decreases id,
{
    let node = dag[id as int];
    match node.op {
        Op::MStack => if node.srcs[0] < id {
            storage_of(dag, node.srcs[0])
        } else {
            id
        },
        Op::MSelect(at) => if node.srcs[0] < id {
            let stack = dag[node.srcs[0] as int];
            if stack.op is MStack && at < stack.srcs.len() && stack.srcs[at as int] < id {
                storage_of(dag, stack.srcs[at as int])
            } else {
                storage_of(dag, node.srcs[0])
            }
        } else {
            id
        },
        _ => id,
    }
}

/// The parameter that a buffer becomes, in a slot.
pub open spec fn slot_param(dag: Seq<NodeView>, id: usize, slot: usize) -> Built {
    let node = dag[id as int];
    match node.op {
        Op::Buffer { size, .. } => {
            let extent = put(dag, extent_node(size as i64));
            put(
                extent.dag,
                NodeView {
                    op: Op::Param { slot, addrspace: Some(AddrSpace::Global) },
                    dtype: node.dtype,
                    srcs: seq![extent.id],
                },
            )
        },
        _ => Built { dag, id },
    }
}

/// The loop that a loop becomes under a number of the kernel; an empty loop
/// becomes a weak zero.
pub open spec fn numbered(dag: Seq<NodeView>, id: usize, number: usize) -> Built {
    let node = dag[id as int];
    match node.op {
        Op::Range { axis, kind } => if int_of(dag, node.srcs[0]) == Some(0i64) {
            put(dag, const_node(ConstValue::Int(0), DType::WeakInt))
        } else {
            put(
                dag,
                NodeView {
                    op: Op::Range { axis: AxisId::Renumbered(number), kind },
                    dtype: node.dtype,
                    srcs: node.srcs,
                },
            )
        },
        _ => Built { dag, id },
    }
}

/// What is to be done with a node of a kernel's body.
pub enum Step {
    /// It stays.
    Keep,
    /// A buffer takes the next slot.
    Slot,
    /// A loop takes the next number.
    Number,
    /// A bound variable becomes a parameter, and its value is passed.
    Unbind,
    /// What orders storage is taken off.
    Unwrap,
}

/// What is to be done with a node of a kernel's body.
pub open spec fn step_of(dag: Seq<NodeView>, id: usize) -> Step {
    let node = dag[id as int];
    match node.op {
        Op::Buffer { space, .. } => if space == AddrSpace::Global {
            Step::Slot
        } else {
            Step::Keep
        },
        Op::Range { axis, .. } => match axis {
            AxisId::Unrenumbered(_) => Step::Number,
            _ => Step::Keep,
        },
        Op::Bind => Step::Unbind,
        Op::After => Step::Unwrap,
        _ => Step::Keep,
    }
}

/// The name of a variable.
pub open spec fn name_of_variable(op: Op, names: Seq<String>) -> Option<Seq<char>> {
    match op {
        Op::Variable { name, .. } => if name < names.len() {
            Some(names[name as int]@)
        } else {
            None
        },
        _ => None,
    }
}

/// The variables with one more bound.
pub open spec fn bound_with(
    vars: Map<Seq<char>, (usize, Option<i64>)>,
    name: Option<Seq<char>>,
    var: usize,
    value: Option<i64>,
) -> Map<Seq<char>, (usize, Option<i64>)> {
    match name {
        Some(text) => vars.insert(text, (var, value)),
        None => vars,
    }
}

pub(crate) fn find_storage(graph: &Graph, id: usize) -> (storage: usize)
    requires
        graph.wf(),
        id < graph@.len(),
    ensures
        storage == storage_of(graph@, id),
        storage <= id,
    decreases id,
{
    proof {
        lemma_arity(graph@, id);
    }
    match graph.op(id) {
        Op::MStack => find_storage(graph, graph.source(id, 0)),
        Op::MSelect(at) => {
            let src: usize = graph.source(id, 0);
            let stack: bool = match graph.op(src) {
                Op::MStack => true,
                _ => false,
            };
            if stack && at < graph.source_count(src) {
                find_storage(graph, graph.source(src, at))
            } else {
                find_storage(graph, src)
            }
        },
        _ => id,
    }
}

fn scoped(op: Op) -> (r: bool)
    ensures
        r == is_scoped(op),
{
    match op {
        Op::Buffer { space, .. } => space != AddrSpace::Global,
        Op::Param { addrspace, .. } => match addrspace {
            Some(AddrSpace::Local) | Some(AddrSpace::Reg) => true,
            _ => false,
        },
        _ => false,
    }
}

/// Brings one node of a kernel's body under the kernel's own numbers, and
/// tells what stands for it, if anything does.
pub fn to_param(
    graph: &mut Graph,
    id: usize,
    ctx: &mut RangeifyBufferContext,
    names: &Vec<String>,
) -> (new: Option<usize>)
    requires
        old(graph).wf(),
        id < old(graph)@.len(),
        old(ctx).wf(),
        old(ctx).global_counter < usize::MAX,
        old(ctx).range_counter < usize::MAX,
        old(graph)@[id as int].op matches Op::Buffer { size, .. } ==> size <= i64::MAX,
    ensures
        final(graph).wf(),
        final(ctx).wf(),
        extends(old(graph)@, final(graph)@),
        final(ctx).local_counter == old(ctx).local_counter,
        final(ctx).lunique_counter == old(ctx).lunique_counter,
        match step_of(old(graph)@, id) {
            Step::Keep => new is None && final(graph)@ == old(graph)@ && final(ctx).same_counters(
                old(ctx),
            ) && final(ctx).same_tables(old(ctx)),
            Step::Slot => {
                let param = slot_param(old(graph)@, id, old(ctx).global_counter);
                &&& new == Some(param.id)
                &&& final(graph)@ == param.dag
                &&& final(ctx).global_counter == old(ctx).global_counter + 1
                &&& final(ctx).range_counter == old(ctx).range_counter
                &&& final(ctx).buffers() == old(ctx).buffers().insert(id, param.id)
                &&& final(ctx).vars@ == old(ctx).vars@
            },
            Step::Number => {
                let range = numbered(old(graph)@, id, old(ctx).range_counter);
                &&& new == Some(range.id)
                &&& final(graph)@ == range.dag
                &&& final(ctx).range_counter == old(ctx).range_counter + 1
                &&& final(ctx).global_counter == old(ctx).global_counter
                &&& final(ctx).same_tables(old(ctx))
            },
            Step::Unbind => {
                let var = old(graph)@[id as int].srcs[0];
                let value = int_of(old(graph)@, old(graph)@[id as int].srcs[1]);
                &&& new == Some(var)
                &&& final(graph)@ == old(graph)@
                &&& final(ctx).same_counters(old(ctx))
                &&& final(ctx).buffers() == old(ctx).buffers()
                &&& final(ctx).vars@ == bound_with(
                    old(ctx).vars@,
                    name_of_variable(old(graph)@[var as int].op, names@),
                    var,
                    value,
                )
            },
            Step::Unwrap => {
                let storage = storage_of(old(graph)@, old(graph)@[id as int].srcs[0]);
                &&& new == Some(storage)
                &&& final(graph)@ == old(graph)@
                &&& final(ctx).same_counters(old(ctx))
                &&& final(ctx).vars@ == old(ctx).vars@
                &&& final(ctx).buffers() == if is_scoped(old(graph)@[storage as int].op) {
                    old(ctx).buffers()
                } else {
                    old(ctx).buffers().insert(storage, id)
                }
            },
        },
{
    let ghost dag = graph@;
    proof {
        lemma_arity(dag, id);
    }
    match graph.op(id) {
        Op::Buffer { space, size, .. } => {
            if space != AddrSpace::Global {
                return None;
            }
            let dtype = graph.dtype(id);
            let slot: usize = ctx.next_global();
            let extent: usize = put_int(graph, size as i64, DType::WeakInt);
            let ghost held = graph@;
            let param: usize = graph.unary(
                Op::Param { slot, addrspace: Some(AddrSpace::Global) },
                dtype,
                extent,
            );
            proof {
                lemma_interned_keeps(
                    held,
                    NodeView {
                        op: Op::Param { slot, addrspace: Some(AddrSpace::Global) },
                        dtype,
                        srcs: seq![extent],
                    },
                );
            }
            ctx.map_buffer(id, param);
            Some(param)
        },
        Op::Range { axis, kind } => {
            match axis {
                AxisId::Unrenumbered(_) => {},
                _ => {
                    return None;
                },
            }
            let number: usize = ctx.next_range();
            let extent: usize = graph.source(id, 0);
            let empty: bool = match int_at(graph, extent) {
                Some(n) => n == 0,
                None => false,
            };
            if empty {
                return Some(put_int(graph, 0, DType::WeakInt));
            }
            let dtype = graph.dtype(id);
            let list = sources(graph, id);
            let range: usize = graph.node(
                Op::Range { axis: AxisId::Renumbered(number), kind },
                dtype,
                list.as_slice(),
            );
            proof {
                lemma_interned_keeps(
                    dag,
                    NodeView {
                        op: Op::Range { axis: AxisId::Renumbered(number), kind },
                        dtype,
                        srcs: list@,
                    },
                );
            }
            Some(range)
        },
        Op::Bind => {
            let var: usize = graph.source(id, 0);
            let value: Option<i64> = int_at(graph, graph.source(id, 1));
            let name: Option<String> = match graph.op(var) {
                Op::Variable { name, .. } => {
                    if name < names.len() {
                        Some(copy_text(&names[name]))
                    } else {
                        None
                    }
                },
                _ => None,
            };
            ctx.add_var(var, name, value);
            Some(var)
        },
        Op::After => {
            let storage: usize = find_storage(graph, graph.source(id, 0));
            if !scoped(graph.op(storage)) {
                ctx.map_buffer(storage, id);
            }
            Some(storage)
        },
        _ => None,
    }
}

fn copy_text(text: &String) -> (copy: String)
    ensures
        copy@ == text@,
{
    let mut copy = String::new();
    crate::text::push_text(&mut copy, text.as_str());
    copy
}

} // verus!
