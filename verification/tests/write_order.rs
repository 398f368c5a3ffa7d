//! Writes wait for the kernels that read what they overwrite.

use svod_schedule::bufferize::find_storage;
use svod_schedule::graph::{AddrSpace, DType, Graph, Op};
use svod_schedule::writes::{fix_assign, WriteCycle};

fn sources(graph: &Graph, id: usize) -> Vec<usize> {
    (0..graph.source_count(id)).map(|at| graph.source(id, at)).collect()
}

fn buffer(graph: &mut Graph, slot: usize) -> usize {
    graph.leaf(Op::Buffer { slot, space: AddrSpace::Global, size: 16 }, DType::Float32)
}

fn sink(graph: &mut Graph, srcs: &[usize]) -> usize {
    graph.node(Op::Sink, DType::Void, srcs)
}

fn call_with(graph: &mut Graph, body: usize, args: &[usize]) -> usize {
    let mut srcs = vec![body];
    srcs.extend_from_slice(args);
    graph.node(Op::Call, DType::Void, &srcs)
}

fn sink_call(graph: &mut Graph, args: &[usize]) -> usize {
    let body = sink(graph, &[]);
    call_with(graph, body, args)
}

fn after(graph: &mut Graph, storage: usize, deps: &[usize]) -> usize {
    let mut srcs = vec![storage];
    srcs.extend_from_slice(deps);
    let dtype = graph.dtype(storage);
    graph.node(Op::After, dtype, &srcs)
}

fn find_after_for_buffer(graph: &Graph, root: usize, storage: usize) -> usize {
    graph
        .toposort(root)
        .into_iter()
        .find(|&id| graph.op(id) == Op::After && find_storage(graph, id) == storage)
        .expect("expected AFTER for buffer")
}

fn after_deps(graph: &Graph, id: usize) -> Vec<usize> {
    sources(graph, id)[1..].to_vec()
}

#[test]
fn test_fix_assign_cycle_returns_typed_error() {
    let mut graph = Graph::new();
    let b1 = buffer(&mut graph, 1);
    let b2 = buffer(&mut graph, 2);
    let call_for_b2 = sink_call(&mut graph, &[b2]);
    let after_b2 = after(&mut graph, b2, &[call_for_b2]);
    let noop = graph.leaf(Op::Noop, DType::Void);
    let writer = sink(&mut graph, &[noop]);
    let call_for_b1 = call_with(&mut graph, writer, &[b2]);
    let after_b1 = after(&mut graph, b1, &[after_b2, call_for_b1]);
    let root = sink(&mut graph, &[after_b1]);

    let err = fix_assign(&mut graph, root).expect_err("expected typed cycle error");
    assert_eq!(err, WriteCycle { writer_buffer: b1, read_buffer: b2 });
}

#[test]
fn test_fix_assign_adds_war_dep_when_callable_differs_even_with_shared_dep() {
    let mut graph = Graph::new();
    let read_write_buf = buffer(&mut graph, 1);
    let output_buf = buffer(&mut graph, 2);
    let shared_dep = graph.leaf(Op::Noop, DType::Void);
    let writer = sink_call(&mut graph, &[read_write_buf]);
    let writer_after = after(&mut graph, read_write_buf, &[shared_dep, writer]);
    let reader = sink_call(&mut graph, &[read_write_buf, output_buf]);
    let reader_after = after(&mut graph, output_buf, &[shared_dep, reader]);
    let root = sink(&mut graph, &[writer_after, reader_after]);

    let fixed = fix_assign(&mut graph, root).expect("fix_assign should succeed");
    let late = find_after_for_buffer(&graph, fixed, read_write_buf);
    let deps = after_deps(&graph, late);
    assert!(
        deps.iter().any(|&d| graph.op(d) == Op::After && find_storage(&graph, d) == output_buf),
        "writer AFTER should depend on reader AFTER when callable differs"
    );
    assert_eq!(deps, vec![shared_dep, writer, reader_after]);
    assert_eq!(sources(&graph, fixed), vec![late, reader_after]);
}

#[test]
fn test_fix_assign_skips_war_dep_for_same_callable_multi_output() {
    let mut graph = Graph::new();
    let shared_buf = buffer(&mut graph, 1);
    let output_buf = buffer(&mut graph, 2);
    let shared_callable = sink_call(&mut graph, &[shared_buf, output_buf]);
    let writer_after = after(&mut graph, shared_buf, &[shared_callable]);
    let reader_after = after(&mut graph, output_buf, &[shared_callable]);
    let root = sink(&mut graph, &[writer_after, reader_after]);

    let fixed = fix_assign(&mut graph, root).expect("fix_assign should succeed");
    let deps = after_deps(&graph, find_after_for_buffer(&graph, fixed, shared_buf));
    assert_eq!(deps.len(), 1, "same-callable outputs should not receive extra WAR deps");
    assert_eq!(fixed, root);
}

#[test]
fn a_write_waits_for_a_reader_that_waits_itself() {
    let mut graph = Graph::new();
    let a = buffer(&mut graph, 1);
    let b = buffer(&mut graph, 2);
    let c = buffer(&mut graph, 3);
    let write_a = sink_call(&mut graph, &[a]);
    let after_a = after(&mut graph, a, &[write_a]);
    let read_a = sink_call(&mut graph, &[a, b]);
    let after_b = after(&mut graph, b, &[read_a]);
    let read_b = sink_call(&mut graph, &[b, c]);
    let after_c = after(&mut graph, c, &[read_b]);
    let root = sink(&mut graph, &[after_a, after_b, after_c]);

    let fixed = fix_assign(&mut graph, root).expect("no cycle");
    let now = sources(&graph, fixed);
    assert_eq!(now[2], after_c);
    assert_eq!(sources(&graph, now[1]), vec![b, read_a, after_c]);
    assert_eq!(sources(&graph, now[0]), vec![a, write_a, now[1]]);
}

#[test]
fn writes_that_wait_for_each_other_are_a_cycle() {
    let mut graph = Graph::new();
    let a = buffer(&mut graph, 1);
    let b = buffer(&mut graph, 2);
    let c = buffer(&mut graph, 3);
    let write_a = sink_call(&mut graph, &[a]);
    let after_a = after(&mut graph, a, &[write_a]);
    let read_a = sink_call(&mut graph, &[a, b]);
    let after_b = after(&mut graph, b, &[read_a]);
    let read_b = sink_call(&mut graph, &[b, c]);
    let after_c = after(&mut graph, c, &[read_b, after_a]);
    let root = sink(&mut graph, &[after_a, after_b, after_c]);

    let err = fix_assign(&mut graph, root).expect_err("c waits for a, which waits for b");
    assert_eq!(err, WriteCycle { writer_buffer: c, read_buffer: b });
}

#[test]
fn what_a_kernel_holds_is_no_write_of_the_schedule() {
    let mut graph = Graph::new();
    let a = buffer(&mut graph, 1);
    let b = buffer(&mut graph, 2);
    let inner_call = sink_call(&mut graph, &[a]);
    let inner = after(&mut graph, a, &[inner_call]);
    let body = sink(&mut graph, &[inner]);
    let reader = call_with(&mut graph, body, &[a, b]);
    let after_b = after(&mut graph, b, &[reader]);
    let root = sink(&mut graph, &[after_b]);
    assert_eq!(fix_assign(&mut graph, root), Ok(root));
}
