//! Addresses and values of several lanes.

use vstd::prelude::*;

use crate::address::{are_small, listed};
use crate::builders::{extent_node, lemma_interned_keeps, put, Built};
use crate::graph::{AddrSpace, DType, Graph, NodeView, Op};
use crate::movement::volume;
use crate::pad::Listed;
use crate::passes::grown;
use crate::shape::dims;

verus! {

/// The size that storage is taken to have where it is not known.
pub const ASSUMED_SIZE: usize = 1024;

/// The first `n` numbers as index constants.
pub open spec fn numbers(dag: Seq<NodeView>, list: Seq<i64>, n: nat) -> Listed
    decreases n,
{
    if n == 0 {
        Listed { dag, srcs: Seq::empty() }
    } else {
        let rest = numbers(dag, list, (n - 1) as nat);
        let last = put(rest.dag, extent_node(list[n - 1]));
        Listed { dag: last.dag, srcs: rest.srcs.push(last.id) }
    }
}

/// Numbers as a stack of index constants.
pub open spec fn stacked(dag: Seq<NodeView>, list: Seq<i64>) -> Built {
    let all = numbers(dag, list, list.len());
    put(all.dag, NodeView { op: Op::Stack, dtype: DType::WeakInt, srcs: all.srcs })
}

/// The size of storage.
pub open spec fn storage_size(op: Op) -> usize {
    match op {
        Op::Buffer { size, .. } => size,
        _ => ASSUMED_SIZE,
    }
}

/// Storage as a parameter that lives in no space.
pub open spec fn defined(dag: Seq<NodeView>, buffer: usize) -> Built {
    let node = dag[buffer as int];
    let size = put(dag, extent_node(storage_size(node.op) as i64));
    put(
        size.dag,
        NodeView {
            op: Op::Param { slot: buffer, addrspace: None },
            dtype: node.dtype,
            srcs: seq![size.id],
        },
    )
}

/// An address in storage with a lane for each offset.
pub open spec fn shaped_address(dag: Seq<NodeView>, buffer: usize, offsets: Seq<i64>) -> Built {
    let define = defined(dag, buffer);
    let lanes = stacked(define.dag, offsets);
    put(
        lanes.dag,
        NodeView {
            op: Op::Index,
            dtype: dag[buffer as int].dtype,
            srcs: seq![define.id, lanes.id],
        },
    )
}

/// The numbers below a count.
pub open spec fn iota(count: nat) -> Seq<i64> {
    Seq::new(count, |k: int| k as i64)
}

/// A value with other sizes.
pub open spec fn reshaped(dag: Seq<NodeView>, src: usize, sizes: Seq<usize>) -> Built {
    let shape = stacked(dag, Seq::new(sizes.len(), |k: int| sizes[k] as i64));
    put(
        shape.dag,
        NodeView { op: Op::Reshape, dtype: dag[src as int].dtype, srcs: seq![src, shape.id] },
    )
}

fn put_numbers(graph: &mut Graph, list: &[i64]) -> (ids: Vec<usize>)
    requires
        old(graph).wf(),
    ensures
        listed(old(graph)@, *final(graph), numbers(old(graph)@, list@, list@.len()), ids@),
{
    let ghost dag = graph@;
    let mut ids: Vec<usize> = Vec::new();
    let mut n: usize = 0;
    while n < list.len()
        invariant
            dag == old(graph)@,
            n <= list@.len(),
            listed(dag, *graph, numbers(dag, list@, n as nat), ids@),
        decreases list@.len() - n,
    {
        let ghost held = graph@;
        let id: usize = graph.index_const(list[n]);
        proof {
            lemma_interned_keeps(held, extent_node(list@[n as int]));
        }
        ids.push(id);
        n += 1;
    }
    ids
}

fn put_stacked(graph: &mut Graph, list: &[i64]) -> (id: usize)
    requires
        old(graph).wf(),
    ensures
        grown(old(graph)@, *final(graph), stacked(old(graph)@, list@), id),
{
    let ids = put_numbers(graph, list);
    let ghost held = graph@;
    proof {
        lemma_interned_keeps(
            held,
            NodeView { op: Op::Stack, dtype: DType::WeakInt, srcs: ids@ },
        );
    }
    graph.node(Op::Stack, DType::WeakInt, ids.as_slice())
}

/// A parameter of a kernel in a space, of no known shape.
pub fn codegen_param(graph: &mut Graph, slot: usize, dtype: DType, space: AddrSpace) -> (id: usize)
    requires
        old(graph).wf(),
    ensures
        ({
            let shape = stacked(old(graph)@, Seq::empty());
            grown(
                old(graph)@,
                *final(graph),
                put(
                    shape.dag,
                    NodeView {
                        op: Op::Param { slot, addrspace: Some(space) },
                        dtype,
                        srcs: seq![shape.id],
                    },
                ),
                id,
            )
        }),
{
    let none: Vec<i64> = Vec::new();
    assert(none@ =~= Seq::<i64>::empty());
    let shape: usize = put_stacked(graph, none.as_slice());
    graph.unary(Op::Param { slot, addrspace: Some(space) }, dtype, shape)
}

/// Storage as a parameter that lives in no space; see `defined`.
pub fn buffer_to_define(graph: &mut Graph, buffer: usize) -> (id: usize)
    requires
        old(graph).wf(),
        buffer < old(graph)@.len(),
    ensures
        grown(old(graph)@, *final(graph), defined(old(graph)@, buffer), id),
{
    let dtype = graph.dtype(buffer);
    let size: usize = match graph.op(buffer) {
        Op::Buffer { size, .. } => size,
        _ => ASSUMED_SIZE,
    };
    let extent: usize = graph.index_const(size as i64);
    graph.unary(Op::Param { slot: buffer, addrspace: None }, dtype, extent)
}

/// An address in storage with a lane for each offset; see `shaped_address`.
pub fn shaped_addr(graph: &mut Graph, buffer: usize, offsets: &[i64]) -> (id: usize)
    requires
        old(graph).wf(),
        buffer < old(graph)@.len(),
    ensures
        grown(old(graph)@, *final(graph), shaped_address(old(graph)@, buffer, offsets@), id),
{
    let dtype = graph.dtype(buffer);
    let define: usize = buffer_to_define(graph, buffer);
    let lanes: usize = put_stacked(graph, offsets);
    graph.binary(Op::Index, dtype, define, lanes)
}

/// The elements of a value at some positions, in the order of the positions.
pub fn index_axes(graph: &mut Graph, value: usize, positions: &[i64]) -> (id: usize)
    requires
        old(graph).wf(),
        value < old(graph)@.len(),
    ensures
        ({
            let lanes = stacked(old(graph)@, positions@);
            grown(
                old(graph)@,
                *final(graph),
                put(
                    lanes.dag,
                    NodeView {
                        op: Op::Index,
                        dtype: old(graph)@[value as int].dtype,
                        srcs: seq![value, lanes.id],
                    },
                ),
                id,
            )
        }),
{
    let dtype = graph.dtype(value);
    let lanes: usize = put_stacked(graph, positions);
    graph.binary(Op::Index, dtype, value, lanes)
}

/// An address of the first elements of storage, with a lane for each.
pub fn iota_addr(graph: &mut Graph, buffer: usize, count: usize) -> (id: usize)
    requires
        old(graph).wf(),
        buffer < old(graph)@.len(),
    ensures
        grown(
            old(graph)@,
            *final(graph),
            shaped_address(old(graph)@, buffer, iota(count as nat)),
            id,
        ),
{
    let mut offsets: Vec<i64> = Vec::new();
    let mut k: usize = 0;
    while k < count
        invariant
            k <= count,
            offsets@.len() == k,
            forall|j: int| 0 <= j < k ==> #[trigger] offsets@[j] == j as i64,
        decreases count - k,
    {
        offsets.push(k as i64);
        k += 1;
    }
    assert(offsets@ =~= iota(count as nat));
    shaped_addr(graph, buffer, offsets.as_slice())
}

/// A value with other sizes, for as many elements; see `reshaped`.
pub fn reshape_to(graph: &mut Graph, src: usize, sizes: &[usize]) -> (id: usize)
    requires
        old(graph).wf(),
        src < old(graph)@.len(),
        are_small(sizes@),
        dims(old(graph)@, src) matches Some(from) ==> volume(from, from.len()) == volume(
            sizes@,
            sizes@.len(),
        ),
    ensures
        grown(old(graph)@, *final(graph), reshaped(old(graph)@, src, sizes@), id),
{
    let dtype = graph.dtype(src);
    let mut list: Vec<i64> = Vec::new();
    let mut k: usize = 0;
    while k < sizes.len()
        invariant
            k <= sizes@.len(),
            list@.len() == k,
            forall|j: int| 0 <= j < k ==> #[trigger] list@[j] == sizes@[j] as i64,
        decreases sizes@.len() - k,
    {
        list.push(sizes[k] as i64);
        k += 1;
    }
    assert(list@ =~= Seq::new(sizes@.len(), |k: int| sizes@[k] as i64));
    let shape: usize = put_stacked(graph, list.as_slice());
    graph.binary(Op::Reshape, dtype, src, shape)
}

} // verus!
