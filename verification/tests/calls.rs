//! Functions put in the place of their uses, and the parameters of kernels.

use svod_schedule::context::RangeifyBufferContext;
use svod_schedule::graph::{AddrSpace, AxisId, AxisType, BinaryOp, ConstValue, DType, Graph, Op, UnaryOp};
use svod_schedule::params::to_param;
use svod_schedule::resolve::{resolve_calls, CallError};
use svod_schedule::subst::{find_visible, substitute};

fn sources(graph: &Graph, id: usize) -> Vec<usize> {
    (0..graph.source_count(id)).map(|at| graph.source(id, at)).collect()
}

fn formal(graph: &mut Graph, slot: usize) -> usize {
    let extent = graph.index_const(8);
    graph.unary(Op::Param { slot, addrspace: None }, DType::Float32, extent)
}

fn storage(graph: &mut Graph, slot: usize, size: usize, dtype: DType) -> usize {
    graph.leaf(Op::Buffer { slot, space: AddrSpace::Global, size }, dtype)
}

fn buffer8(graph: &mut Graph, slot: usize) -> usize {
    storage(graph, slot, 8, DType::Float32)
}

fn function(graph: &mut Graph, body: usize, args: &[usize], precompile: bool) -> usize {
    let tuple = graph.node(Op::Tuple, DType::Void, &[body]);
    graph.led(Op::Function { precompile }, DType::Void, tuple, args)
}

fn add_of_params(graph: &mut Graph) -> usize {
    let (a, b) = (formal(graph, 0), formal(graph, 1));
    graph.alu(BinaryOp::Add, a, b)
}

fn sqrt_of_param(graph: &mut Graph) -> usize {
    let a = formal(graph, 0);
    graph.unary(Op::Unary(UnaryOp::Sqrt), DType::Float32, a)
}

fn no_function(graph: &Graph, root: usize) -> bool {
    graph.toposort(root).iter().all(|id| !matches!(graph.op(*id), Op::Function { .. }))
}

#[test]
fn a_function_is_inlined_through_its_parameters() {
    let mut graph = Graph::new();
    let body = add_of_params(&mut graph);
    let (a, b) = (buffer8(&mut graph, 0), buffer8(&mut graph, 1));
    let used = function(&mut graph, body, &[a, b], false);
    let resolved = resolve_calls(&mut graph, used).expect("the arguments fit");
    assert_eq!(graph.op(resolved), Op::Tuple);
    let inlined = graph.source(resolved, 0);
    assert_eq!(graph.op(inlined), Op::Binary(BinaryOp::Add));
    assert_eq!(sources(&graph, inlined), [a, b]);
    assert!(no_function(&graph, resolved));
}

#[test]
fn a_call_body_is_never_inlined() {
    for row in 0..4 {
        let mut graph = Graph::new();
        let (a, b) = (buffer8(&mut graph, 0), buffer8(&mut graph, 1));
        let one = graph.constant(ConstValue::Float(1.0f64.to_bits()), DType::Float32);
        let body = match row {
            0 => add_of_params(&mut graph),
            1 => graph.sink(&[one]),
            2 => graph.led(Op::Call, DType::Void, one, &[]),
            _ => {
                let inner = add_of_params(&mut graph);
                let inner = function(&mut graph, inner, &[a, b], false);
                graph.led(Op::Call, DType::Void, inner, &[])
            }
        };
        let call = graph.led(Op::Call, DType::Void, body, &[a, b]);
        let resolved = resolve_calls(&mut graph, call).expect("nothing is put in place");
        assert_eq!(graph.op(resolved), Op::Call);
        assert_eq!(sources(&graph, resolved), [body, a, b]);
    }
}

#[test]
fn a_precompile_function_is_preserved_intact() {
    let mut graph = Graph::new();
    let body = sqrt_of_param(&mut graph);
    let arg = buffer8(&mut graph, 0);
    let ahead = function(&mut graph, body, &[arg], true);
    let resolved = resolve_calls(&mut graph, ahead).expect("it stays");
    assert_eq!(graph.op(resolved), Op::Function { precompile: true });
    let parts = sources(&graph, resolved);
    assert_eq!(graph.op(parts[0]), Op::Tuple);
    assert_eq!(sources(&graph, parts[0]), [body]);
    assert_eq!(parts[1..], [arg]);
}

#[test]
fn a_nested_function_under_a_precompile_function_is_left_unresolved() {
    let mut graph = Graph::new();
    let body = formal(&mut graph, 0);
    let arg = buffer8(&mut graph, 0);
    let inner = function(&mut graph, body, &[arg], false);
    let outer = function(&mut graph, inner, &[], true);
    let resolved = resolve_calls(&mut graph, outer).expect("the body is not looked into");
    assert_eq!(graph.op(resolved), Op::Function { precompile: true });
    assert!(graph.toposort(resolved).contains(&inner));
}

#[test]
fn a_gettuple_over_a_precompile_function_is_preserved() {
    let mut graph = Graph::new();
    let body = formal(&mut graph, 0);
    let arg = buffer8(&mut graph, 0);
    let ahead = function(&mut graph, body, &[arg], true);
    let element = graph.unary(Op::GetTuple(0), DType::Float32, ahead);
    let resolved = resolve_calls(&mut graph, element).expect("it stays");
    assert_eq!(graph.op(resolved), Op::GetTuple(0));
    let kept = graph.source(resolved, 0);
    assert_eq!(graph.op(kept), Op::Function { precompile: true });
    assert_eq!(sources(&graph, kept)[1..], [arg]);
}

#[test]
fn a_root_without_functions_is_returned_unchanged() {
    let mut graph = Graph::new();
    let one = graph.constant(ConstValue::Float(1.0f64.to_bits()), DType::Float32);
    let sum = add_of_params(&mut graph);
    let sink = graph.sink(&[sum]);
    for root in [one, sink] {
        assert_eq!(resolve_calls(&mut graph, root), Ok(root));
    }
}

#[test]
fn a_gettuple_over_a_function_tuple_resolves_to_its_element() {
    let mut graph = Graph::new();
    let body = formal(&mut graph, 0);
    let arg = buffer8(&mut graph, 0);
    let used = function(&mut graph, body, &[arg], false);
    let element = graph.unary(Op::GetTuple(0), DType::Float32, used);
    assert_eq!(resolve_calls(&mut graph, element), Ok(arg));
}

#[test]
fn a_bind_body_function_is_inlined() {
    let mut graph = Graph::new();
    let n = graph.leaf(Op::Variable { name: 0, low: 0, high: 32 }, DType::Index);
    let eight = graph.index_const(8);
    let bind = graph.binary(Op::Bind, DType::Index, n, eight);
    let used = function(&mut graph, bind, &[], false);
    let resolved = resolve_calls(&mut graph, used).expect("there is nothing to substitute");
    assert_eq!(graph.op(resolved), Op::Tuple);
    assert_eq!(graph.source(resolved, 0), bind);
    assert!(no_function(&graph, resolved));
}

#[test]
fn a_non_contiguous_formal_slot_substitutes_only_the_slots_it_uses() {
    let mut graph = Graph::new();
    let (first, third) = (formal(&mut graph, 0), formal(&mut graph, 2));
    let body = graph.alu(BinaryOp::Add, first, third);
    let (a0, a1, a2) = (buffer8(&mut graph, 0), buffer8(&mut graph, 1), buffer8(&mut graph, 2));
    let used = function(&mut graph, body, &[a0, a1, a2], false);
    let resolved = resolve_calls(&mut graph, used).expect("a slot may be unused");
    let walk = graph.toposort(resolved);
    assert!(!walk.iter().any(|id| matches!(graph.op(*id), Op::Param { .. })));
    assert!(walk.contains(&a0) && walk.contains(&a2) && !walk.contains(&a1));
}

#[test]
fn a_mismatched_actual_argument_is_a_typed_error() {
    let mut graph = Graph::new();
    let sum = add_of_params(&mut graph);
    let a = buffer8(&mut graph, 0);
    let missing = function(&mut graph, sum, &[a], false);
    assert_eq!(
        resolve_calls(&mut graph, missing),
        Err(CallError::FormalSlotMissing { slot: 1, arg_count: 1 })
    );
    let root = sqrt_of_param(&mut graph);
    let short = storage(&mut graph, 1, 4, DType::Float32);
    let wrong_shape = function(&mut graph, root, &[short], false);
    assert_eq!(
        resolve_calls(&mut graph, wrong_shape),
        Err(CallError::ArgShapeMismatch { arg_index: 0 })
    );
    let whole = storage(&mut graph, 2, 8, DType::Int32);
    let wrong_dtype = function(&mut graph, root, &[whole], false);
    assert_eq!(
        resolve_calls(&mut graph, wrong_dtype),
        Err(CallError::ArgDTypeMismatch { arg_index: 0 })
    );
}

#[test]
fn resolving_is_idempotent() {
    let mut graph = Graph::new();
    let body = add_of_params(&mut graph);
    let (a, b) = (buffer8(&mut graph, 0), buffer8(&mut graph, 1));
    let used = function(&mut graph, body, &[a, b], false);
    let once = resolve_calls(&mut graph, used).expect("the arguments fit");
    assert_eq!(resolve_calls(&mut graph, once), Ok(once));
}

#[test]
fn a_substitution_does_not_look_into_bodies() {
    let mut graph = Graph::new();
    let (a, b, c) = (buffer8(&mut graph, 0), buffer8(&mut graph, 1), buffer8(&mut graph, 2));
    let sum = graph.alu(BinaryOp::Add, a, b);
    let call = graph.led(Op::Call, DType::Void, sum, &[b]);
    let replaced = substitute(&mut graph, call, &vec![(b, c)]);
    assert_eq!(graph.op(replaced), Op::Call);
    assert_eq!(sources(&graph, replaced), [sum, c]);
    let seen = find_visible(&graph, call);
    assert!(seen[call] && seen[b] && !seen[sum] && !seen[a]);
    let moved = substitute(&mut graph, sum, &vec![(b, c)]);
    assert_eq!(sources(&graph, moved), [a, c]);
    assert_eq!(substitute(&mut graph, sum, &vec![]), sum);
}

fn names() -> Vec<String> {
    vec!["x".to_string()]
}

#[test]
fn buffers_are_numbered_into_dense_param_slots() {
    let mut graph = Graph::new();
    let mut ctx = RangeifyBufferContext::new();
    for slot in 0..2 {
        let size = 100 * (slot + 1);
        let buffer = storage(&mut graph, 40 + slot, size, DType::Float32);
        let param = to_param(&mut graph, buffer, &mut ctx, &names()).expect("it takes a slot");
        assert_eq!(graph.op(param), Op::Param { slot, addrspace: Some(AddrSpace::Global) });
        let extent = graph.source(param, 0);
        assert_eq!(graph.op(extent), Op::Const(ConstValue::Int(size as i64)));
        assert_eq!(ctx.global_counter, slot + 1);
        assert_eq!(ctx.get_buffer(buffer), Some(param));
    }
}

#[test]
fn a_bound_variable_becomes_a_scalar_param_and_a_launch_value() {
    let mut graph = Graph::new();
    let mut ctx = RangeifyBufferContext::new();
    let var = graph.leaf(Op::Variable { name: 0, low: 0, high: 10 }, DType::WeakInt);
    let five = graph.constant(ConstValue::Int(5), DType::WeakInt);
    let bind = graph.binary(Op::Bind, DType::WeakInt, var, five);
    let param = to_param(&mut graph, bind, &mut ctx, &names()).expect("it is unbound");
    assert_ne!(graph.op(param), Op::Bind);
    let (_, value) = ctx.vars.get("x").expect("the value is passed");
    assert_eq!(*value, Some(5));
}

#[test]
fn unrenumbered_ranges_are_numbered_sequentially() {
    let mut graph = Graph::new();
    let mut ctx = RangeifyBufferContext::new();
    let kinds = [AxisType::Loop, AxisType::Loop, AxisType::Reduce];
    for (i, kind) in kinds.into_iter().enumerate() {
        let extent = graph.constant(ConstValue::Int(10 * (i as i64 + 1)), DType::WeakInt);
        let op = Op::Range { axis: AxisId::Unrenumbered(i + 5), kind };
        let range = graph.unary(op, DType::Index, extent);
        let numbered = to_param(&mut graph, range, &mut ctx, &names()).expect("it is numbered");
        assert_eq!(graph.op(numbered), Op::Range { axis: AxisId::Renumbered(i), kind });
        assert_eq!(sources(&graph, numbered), [extent]);
    }
    assert_eq!(ctx.range_counter, 3);
}

#[test]
fn a_zero_extent_range_is_rewritten_and_consumes_its_id() {
    let mut graph = Graph::new();
    let mut ctx = RangeifyBufferContext::new();
    let zero = graph.constant(ConstValue::Int(0), DType::WeakInt);
    let op = Op::Range { axis: AxisId::Unrenumbered(0), kind: AxisType::Loop };
    let range = graph.unary(op, DType::WeakInt, zero);
    let result = to_param(&mut graph, range, &mut ctx, &names()).expect("it is rewritten");
    assert_eq!(graph.op(result), Op::Const(ConstValue::Int(0)));
    assert_eq!(graph.dtype(result), DType::WeakInt);
    assert_eq!(ctx.range_counter, 1);
}

#[test]
fn canonical_nodes_are_left_alone() {
    let mut graph = Graph::new();
    let nodes = [
        graph.range(10, AxisType::Loop, 5),
        graph.range(10, AxisType::Loop, 0),
        graph.constant(ConstValue::Int(42), DType::Int32),
    ];
    for node in nodes {
        let mut ctx = RangeifyBufferContext::new();
        assert_eq!(to_param(&mut graph, node, &mut ctx, &names()), None);
        assert_eq!((ctx.global_counter, ctx.range_counter), (0, 0));
    }
}

#[test]
fn after_unwraps_to_its_storage_and_tracks_only_global() {
    let mut graph = Graph::new();
    let noop = graph.leaf(Op::Noop, DType::Void);
    let scoped = |space| Op::Buffer { slot: 1, space, size: 1024 };
    let cases = [
        (formal(&mut graph, 11), true),
        (storage(&mut graph, 0, 1024, DType::Float32), true),
        (graph.leaf(scoped(AddrSpace::Local), DType::Float32), false),
        (graph.leaf(scoped(AddrSpace::Reg), DType::Float32), false),
    ];
    for (storage, mapped) in cases {
        let mut ctx = RangeifyBufferContext::new();
        let after = graph.after(storage, &[noop]);
        assert_eq!(to_param(&mut graph, after, &mut ctx, &names()), Some(storage));
        assert_eq!(ctx.has_buffer(storage), mapped);
        assert_eq!(ctx.get_buffer(storage), if mapped { Some(after) } else { None });
    }
}

#[test]
fn after_sees_through_multi_device_wrappers() {
    let mut graph = Graph::new();
    let noop = graph.leaf(Op::Noop, DType::Void);
    let (one, two) = (buffer8(&mut graph, 1), buffer8(&mut graph, 2));
    let op = Op::Buffer { slot: 1, space: AddrSpace::Local, size: 1024 };
    let local = graph.leaf(op, DType::Float32);
    let cases = [
        (graph.node(Op::MStack, DType::Float32, &[one, two]), one, true),
        (graph.unary(Op::MSelect(0), DType::Float32, one), one, true),
        (graph.node(Op::MStack, DType::Float32, &[local, local]), local, false),
        (graph.unary(Op::MSelect(0), DType::Float32, local), local, false),
    ];
    for (wrapped, representative, mapped) in cases {
        let mut ctx = RangeifyBufferContext::new();
        let after = graph.after(wrapped, &[noop]);
        assert_eq!(to_param(&mut graph, after, &mut ctx, &names()), Some(representative));
        assert_eq!(ctx.has_buffer(representative), mapped);
        if mapped {
            assert_eq!(ctx.get_buffer(representative), Some(after));
        }
    }
}
