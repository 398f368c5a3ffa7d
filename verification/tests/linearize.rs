//! Keys, the order of lines, and the loops that they run in.

use svod_schedule::args::{
    compare_heads, const_key, partial_arg_order, partial_const_order, partial_param_order,
    range_key, reduce_key, ArgKey, ConstKey, ParamKey,
};
use svod_schedule::builders::{ONE, THREE, TWO};
use svod_schedule::graph::{
    AddrSpace, AxisId, AxisType, BinaryOp, ConstValue, DType, Graph, Op, RendererDevice, Steps,
    WmmaDims, WmmaMetadata,
};
use svod_schedule::heads::{arg_key, dtype_key, heads_of, keys_of, op_value, param_key};
use svod_schedule::keys::Order;
use svod_schedule::linearize::{
    is_topological, oracle_linearize, oracle_ranks, position_of, priority,
};
use svod_schedule::lines::line_rewrite_cleanups;
use svod_schedule::ranked::{linearize, tuplize_ranks};

const WEAK: u16 = 7;
const ADD: u16 = 1;

fn weak_range(path: &[usize]) -> ArgKey {
    range_key(path.to_vec(), WEAK)
}

fn float(value: f64) -> ConstValue {
    ConstValue::Float(value.to_bits())
}

#[test]
fn partial_arg_comparison_orders_only_what_it_can() {
    let constant = |value: ConstValue| ArgKey::Const(const_key(value));
    let text = |value: &str| ArgKey::Text(value.to_string());
    let cases = [
        (ArgKey::Nothing, ArgKey::Nothing, Some(Order::Equal)),
        (text("a"), text("z"), Some(Order::Less)),
        (constant(ConstValue::Int(1)), constant(ConstValue::Int(2)), Some(Order::Less)),
        (reduce_key(ADD, vec![0]), reduce_key(ADD, vec![0, 1]), Some(Order::Less)),
        (weak_range(&[0, 1]), weak_range(&[0, 1]), Some(Order::Equal)),
        (weak_range(&[0]), weak_range(&[0, 1]), None),
        (weak_range(&[0, 1]), weak_range(&[0]), None),
        (range_key(vec![0, 1], 2), weak_range(&[0, 1]), None),
        (constant(float(f64::NAN)), constant(float(f64::NAN)), None),
        (ArgKey::Nothing, text("a"), None),
    ];
    for (left, right, expected) in cases {
        assert_eq!(partial_arg_order(&left, &right), expected, "{left:?} {right:?}");
    }
}

#[test]
fn tinygrad_float_keys_coalesce_signed_zero_and_nan_payloads() {
    assert_eq!(const_key(float(-0.0)), const_key(float(0.0)));
    let left = const_key(ConstValue::Float(0x7ff8_0000_0000_0001));
    let right = const_key(ConstValue::Float(0x7ff8_0000_0000_0002));
    assert_eq!(left, right);
    assert_eq!(partial_const_order(left, right), None);
}

#[test]
fn float_keys_grow_with_the_float() {
    let values = [f64::NEG_INFINITY, -2.5, -1.0, 0.0, 0.5, 3.0, f64::INFINITY];
    for pair in values.windows(2) {
        let (low, high) = (const_key(float(pair[0])), const_key(float(pair[1])));
        assert_eq!(partial_const_order(low, high), Some(Order::Less), "{pair:?}");
    }
    assert_eq!(const_key(ConstValue::Bool(true)), ConstKey::Bool(true));
}

#[test]
fn partial_param_comparison_orders_by_name_and_stops_at_an_unknown_field() {
    let key = |name: &str, addrspace: Option<u8>| ParamKey { name: name.to_string(), addrspace };
    let order = |a: &ParamKey, b: &ParamKey| partial_param_order(a, b);
    assert_eq!(order(&key("a", Some(4)), &key("z", Some(4))), Some(Order::Less));
    assert_eq!(order(&key("z", Some(4)), &key("a", Some(4))), Some(Order::Greater));
    assert_eq!(order(&key("a", Some(4)), &key("a", Some(4))), Some(Order::Equal));
    let (left, right) = (key("a", None), key("b", Some(1)));
    assert_eq!(order(&left, &right), Some(Order::Less), "a decided name beats a later unset field");
    assert_eq!(order(&right, &left), Some(Order::Greater));
    assert_eq!(order(&key("a", None), &key("a", Some(1))), None);

    let variable = |name: usize| Op::Variable { name, low: 0, high: 8 };
    let projected = param_key(variable(7)).expect("a variable is a parameter");
    assert_eq!(projected.addrspace, Some(4));
    assert!(matches!(arg_key(variable(7)), ArgKey::Param(ParamKey { addrspace: Some(4), .. })));
    let other = param_key(variable(8)).expect("a variable is a parameter");
    assert_eq!(order(&projected, &other), Some(Order::Less));
    assert_eq!(order(&other, &projected), Some(Order::Greater));
    assert!(param_key(Op::Noop).is_none());
}

fn placements(graph: &Graph) -> Vec<(i32, Option<i64>)> {
    (0..graph.len())
        .map(|id| match graph.op(id) {
            op @ (Op::Param { .. }
            | Op::Variable { .. }
            | Op::Buffer { .. }
            | Op::Const(_)
            | Op::Range { .. }) => priority(op),
            _ => (0, None),
        })
        .collect()
}

/// Constants of types with one number, and chains over them.
fn tied_keys_graph(graph: &mut Graph) -> usize {
    let index = graph.constant(ConstValue::Int(1), DType::Index);
    let long = graph.constant(ConstValue::Int(1), DType::Int64);
    let index_chain = graph.unary(Op::Precast, DType::Index, index);
    let long_chain = graph.unary(Op::Precast, DType::Int64, long);
    let two = graph.constant(ConstValue::Int(2), DType::Int64);
    graph.sink(&[long_chain, index_chain, two, index, long])
}

#[test]
fn compute_tuplize_interns_equal_heads_onto_one_rank() {
    let mut graph = Graph::new();
    tied_keys_graph(&mut graph);
    let keys = keys_of(&graph);
    assert_eq!(keys.heads[0], keys.heads[1], "Index and Int64 have one number");
    assert_ne!(keys.heads[0], keys.heads[4], "another value has another rank");
    let heads = heads_of(&graph);
    let mut table: Vec<usize> = (0..graph.len()).collect();
    table.sort_by_key(|id| keys.heads[*id]);
    for pair in table.windows(2) {
        let order = compare_heads(&heads[pair[0]], &heads[pair[1]]);
        assert_ne!(order, Order::Greater, "the heads are sorted by rank");
        assert_eq!(order == Order::Equal, keys.heads[pair[0]] == keys.heads[pair[1]]);
    }
}

/// A constant of several lanes.
fn vconst(graph: &mut Graph, values: &[i64]) -> usize {
    let lanes: Vec<usize> = values
        .iter()
        .map(|value| graph.constant(ConstValue::Int(*value), DType::WeakInt))
        .collect();
    graph.node(Op::Stack, DType::WeakInt, &lanes)
}

fn indices(graph: &mut Graph) -> usize {
    let range = graph.range(8, AxisType::Loop, 0);
    let special = graph.leaf(Op::Variable { name: 0, low: 0, high: 7 }, DType::WeakInt);
    graph.node(Op::Stack, DType::WeakInt, &[range, special])
}

#[test]
fn tinygrad_vconst_linearizer_key_is_stack_of_constants() {
    let mut graph = Graph::new();
    let constant = vconst(&mut graph, &[1, 2]);
    let stack = indices(&mut graph);
    let heads = heads_of(&graph);
    let head = &heads[constant];
    assert_eq!((head.op, head.dtype), (16, dtype_key(DType::WeakInt)));
    assert!(matches!(head.arg, ArgKey::Nothing));
    assert_eq!(graph.source_count(constant), 2);
    for (lane, value) in [1i64, 2].into_iter().enumerate() {
        let head = &heads[graph.source(constant, lane)];
        assert_eq!((head.op, head.dtype), (61, dtype_key(DType::WeakInt)));
        assert!(matches!(head.arg, ArgKey::Const(ConstKey::Int(n)) if n == value));
    }
    let table = keys_of(&graph).table(&graph);
    assert_eq!(table[stack][constant], Order::Less);
}

/// Constants of several lanes that differ in the order of their lanes alone.
fn vconst_graph(graph: &mut Graph) -> usize {
    let ascending = vconst(graph, &[1, 2]);
    let descending = vconst(graph, &[2, 1]);
    let stack = indices(graph);
    graph.sink(&[descending, stack, ascending])
}

fn assert_matches_pairwise_oracle(graph: &Graph, sink: usize) {
    let keys = keys_of(graph);
    let walk = graph.toposort(sink);
    assert_eq!(tuplize_ranks(graph, &walk, &keys), oracle_ranks(graph, &walk, &keys));
    let places = placements(graph);
    let expected = oracle_linearize(graph, sink, &places, &keys);
    assert_eq!(linearize(graph, sink, &places, &keys), expected, "diverged from the oracle");
}

fn wmma_metadata() -> WmmaMetadata {
    WmmaMetadata {
        name: 2,
        dims: WmmaDims { n: 16, m: 16, k: 16 },
        dtype_in: DType::Float16,
        dtype_out: DType::Float32,
        device: RendererDevice::CudaSm80,
        threads: 32,
        upcast: true,
    }
}

/// A product over one value, with an axis that its first operand is unrolled along.
fn wmma_node(graph: &mut Graph, metadata: WmmaMetadata, axis: AxisId) -> usize {
    let value = graph.constant(ConstValue::Float(0), DType::Float32);
    let mut sources = vec![value; 3];
    if metadata.upcast {
        let two = graph.index_const(2);
        let along = graph.unary(Op::UpcastAxis(axis), DType::Void, two);
        let none = graph.leaf(Op::UpcastAxes, DType::Void);
        sources.push(graph.unary(Op::UpcastAxes, DType::Void, along));
        sources.extend([none, none]);
    }
    graph.node(Op::Wmma(metadata), DType::Float32, &sources)
}

#[test]
fn wmma_key_keeps_only_the_load_bearing_metadata() {
    let base = wmma_metadata();
    let (flat, nested) = (AxisId::Renumbered(3), AxisId::RenumberedPath(3, Steps::One(1)));
    let cases = [
        (base, flat, Some(Order::Equal), "identical metadata compares equal"),
        (WmmaMetadata { name: 1, ..base }, flat, Some(Order::Equal), "the name is dropped"),
        (
            WmmaMetadata { dtype_out: DType::Int32, ..base },
            flat,
            Some(Order::Equal),
            "the output dtype is dropped",
        ),
        (base, nested, Some(Order::Equal), "an upcast path is spelled the same"),
        (
            WmmaMetadata { upcast: false, ..base },
            flat,
            None,
            "omitting the upcast axes leaves the order partial",
        ),
        (
            WmmaMetadata { dims: WmmaDims { n: 8, m: 16, k: 16 }, ..base },
            flat,
            Some(Order::Greater),
            "smaller dims sort earlier",
        ),
        (
            WmmaMetadata { threads: 16, ..base },
            flat,
            Some(Order::Greater),
            "fewer threads sort earlier",
        ),
        (
            WmmaMetadata { dtype_in: DType::BFloat16, ..base },
            flat,
            Some(Order::Less),
            "the input dtype is load-bearing",
        ),
        (
            WmmaMetadata { device: RendererDevice::CudaSm89, ..base },
            flat,
            Some(Order::Equal),
            "every CUDA variant has one device name",
        ),
        (
            WmmaMetadata { device: RendererDevice::Cpu, ..base },
            flat,
            Some(Order::Greater),
            "another backend is load-bearing",
        ),
    ];
    for (changed, axis, expected, what) in cases {
        let order = partial_arg_order(&arg_key(Op::Wmma(base)), &arg_key(Op::Wmma(changed)));
        assert_eq!(order, expected, "{what}");
        let mut graph = Graph::new();
        let one = wmma_node(&mut graph, base, flat);
        let other = wmma_node(&mut graph, changed, axis);
        let table = keys_of(&graph).table(&graph);
        match expected {
            Some(order) => assert_eq!(table[one][other], order, "{what}"),
            None => assert_ne!(table[one][other], Order::Equal, "{what}"),
        }
    }
}

#[test]
fn equal_dependency_side_effects_use_full_arg_order() {
    let mut graph = Graph::new();
    let dependency = graph.constant(ConstValue::Int(0), DType::Int32);
    let mut effect =
        |code: char| graph.unary(Op::CustomI { code: code as usize }, DType::Void, dependency);
    let (earlier, later) = (effect('a'), effect('z'));
    let sink = graph.node(Op::Sink, DType::Void, &[later, earlier]);
    let order = linearized(&graph, sink);
    let at = |node: usize| order.iter().position(|id| *id == node).expect("it is emitted");
    assert!(at(earlier) < at(later));
}

#[test]
fn axis_paths_ins_attributes_and_op_values_are_pinned() {
    let range = |part: usize| {
        let axis = AxisId::RenumberedPath(0, Steps::One(part));
        Op::Range { axis, kind: AxisType::Loop }
    };
    let order = partial_arg_order(&arg_key(range(1)), &arg_key(range(2)));
    assert_eq!(order, Some(Order::Less));
    let ins = |attribute: usize| Op::Ins { name: 0, attribute };
    assert_eq!(partial_arg_order(&arg_key(ins(1)), &arg_key(ins(2))), Some(Order::Less));
    assert_eq!(op_value(ins(1)), 64);
}

#[test]
fn tinygrad_placement_priorities() {
    let buffer = |slot: usize, space: AddrSpace| Op::Buffer { slot, space, size: 1 };
    let param = Op::Param { slot: 3, addrspace: Some(AddrSpace::Global) };
    let variable = Op::Variable { name: 0, low: 0, high: 8 };
    let range = Op::Range { axis: AxisId::Renumbered(0), kind: AxisType::Weak };
    for (op, expected) in [
        (param, (-20, Some(3))),
        (variable, (-20, Some(-1))),
        (buffer(1, AddrSpace::Global), (-18, None)),
        (buffer(2, AddrSpace::Reg), (-18, None)),
        (buffer(0, AddrSpace::Local), (-17, None)),
        (Op::Const(ConstValue::Int(7)), (0, None)),
        (range, (5, None)),
    ] {
        assert_eq!(priority(op), expected, "{op:?}");
    }
}

#[test]
fn run_count_is_the_product_of_the_in_scope_trip_counts() {
    let mut graph = Graph::new();
    let (outer, inner) = (graph.global_range(10, 0), graph.global_range(4, 1));
    let one = graph.constant(ConstValue::Float(ONE), DType::Float32);
    let inner_value = graph.cast(inner, DType::Float32);
    let outer_value = graph.cast(outer, DType::Float32);
    let sum = graph.alu(BinaryOp::Add, one, inner_value);
    let nested = graph.alu(BinaryOp::Add, sum, outer_value);
    for (node, count) in [(one, 1), (outer, 10), (inner, 4), (nested, 40)] {
        assert_eq!(graph.run_count(node), count);
    }
    let end = graph.end(nested, &[outer, inner]);
    let after = graph.after(nested, &[end]);
    assert_eq!(graph.run_count(after), 1, "outside the loops that its dependency closed");
    assert_eq!(graph.run_counts(&vec![outer, after]), [10, 1]);
    let three = graph.index_const(3);
    let four = graph.index_const(4);
    let extent = graph.alu(BinaryOp::Mul, three, four);
    let op = Op::Range { axis: AxisId::Renumbered(5), kind: AxisType::Loop };
    let computed = graph.unary(op, DType::WeakInt, extent);
    assert_eq!(graph.run_count(computed), 12, "an extent that is computed");
    let variable = graph.leaf(Op::Variable { name: 0, low: 1, high: 6 }, DType::WeakInt);
    let open = graph.unary(op, DType::WeakInt, variable);
    assert_eq!(graph.run_count(open), 6, "the greatest extent");
}

fn linearized(graph: &Graph, sink: usize) -> Vec<usize> {
    linearize(graph, sink, &placements(graph), &keys_of(graph))
}

#[test]
fn deep_precast_chain_linearizes_in_tuplize_order() {
    let mut graph = Graph::new();
    let mut low = graph.constant(ConstValue::Int(1), DType::Int32);
    let mut high = graph.constant(ConstValue::Int(2), DType::Int32);
    for _ in 0..140 {
        low = graph.unary(Op::Precast, DType::Int32, low);
        high = graph.unary(Op::Precast, DType::Int32, high);
    }
    let sink = graph.sink(&[high, low]);
    let walk = graph.toposort(sink);
    let ranks = tuplize_ranks(&graph, &walk, &keys_of(&graph));
    assert!(ranks[position_of(&walk, low)] < ranks[position_of(&walk, high)]);
    let order = linearized(&graph, sink);
    assert!(position_of(&order, low) < position_of(&order, high), "the lower rank comes first");
}

/// A diamond inside a loop, beside a stored load.
fn kernel_like_graph(graph: &mut Graph) -> usize {
    let shared = graph.constant(ConstValue::Float(ONE), DType::Float32);
    let two = graph.constant(ConstValue::Float(TWO), DType::Float32);
    let three = graph.constant(ConstValue::Float(THREE), DType::Float32);
    let left = graph.alu(BinaryOp::Add, shared, two);
    let right = graph.alu(BinaryOp::Add, shared, three);
    let range = graph.range(10, AxisType::Loop, 0);
    let sum = graph.alu(BinaryOp::Add, left, right);
    let looped = graph.end(sum, &[range]);
    let param = |slot: usize| Op::Param { slot, addrspace: None };
    let input = graph.leaf(param(0), DType::Float32);
    let output = graph.leaf(param(1), DType::Float32);
    let address = graph.binary(Op::Index, DType::Float32, input, range);
    let load = graph.unary(Op::Load, DType::Float32, address);
    let target = graph.binary(Op::Index, DType::Float32, output, range);
    let value = graph.alu(BinaryOp::Mul, load, two);
    let store = graph.binary(Op::Store, DType::Void, target, value);
    graph.sink(&[looped, store])
}

#[test]
fn linearize_is_topological_and_matches_the_pairwise_oracle() {
    for build in [kernel_like_graph, vconst_graph, tied_keys_graph] {
        let mut graph = Graph::new();
        let sink = build(&mut graph);
        assert_matches_pairwise_oracle(&graph, sink);
        let order = linearized(&graph, sink);
        assert!(is_topological(&graph, sink, &order));
        assert_eq!(order.last(), Some(&sink));
        assert_eq!(order.len(), graph.toposort(sink).len());
        assert!(!is_topological(&graph, sink, &order[1..]), "a node is missing");
    }
}

#[test]
fn ties_keep_the_order_of_the_walk() {
    let mut graph = Graph::new();
    let sink = tied_keys_graph(&mut graph);
    let walk = graph.toposort(sink);
    let ranks = oracle_ranks(&graph, &walk, &keys_of(&graph));
    let mut sorted = ranks.clone();
    sorted.sort_unstable();
    assert_eq!(sorted, (0..walk.len()).collect::<Vec<_>>(), "the ranks are dense");
    let (long, index) = (position_of(&walk, 1), position_of(&walk, 0));
    assert_eq!(long < index, ranks[long] < ranks[index]);
}

fn address(graph: &mut Graph) -> usize {
    let param = graph.leaf(Op::Param { slot: 0, addrspace: None }, DType::Float32);
    let zero = graph.index_const(0);
    graph.binary(Op::Index, DType::Float32, param, zero)
}

fn truth(graph: &mut Graph, value: bool) -> usize {
    graph.constant(ConstValue::Bool(value), DType::Bool)
}

#[test]
fn line_rewrite_expands_only_gated_stores_over_addressable_indices() {
    let mut graph = Graph::new();
    let address = address(&mut graph);
    let value = graph.constant(ConstValue::Float(ONE), DType::Float32);
    let (yes, no) = (truth(&mut graph, true), truth(&mut graph, false));
    let gated = graph.ternary(Op::Store, DType::Void, address, value, yes);
    let lines = line_rewrite_cleanups(&mut graph, &vec![gated]);
    assert_eq!(lines.len(), 3);
    assert_eq!(graph.op(lines[0]), Op::If);
    assert_eq!(graph.source(lines[0], 0), yes);
    assert_eq!(graph.source_count(lines[0]), 2);
    assert_eq!((graph.op(lines[1]), graph.source_count(lines[1])), (Op::Store, 2));
    assert_eq!(graph.op(lines[2]), Op::EndIf);
    assert_eq!(graph.source(lines[2], 0), lines[0]);

    let other = graph.ternary(Op::Store, DType::Void, address, value, no);
    let lines = line_rewrite_cleanups(&mut graph, &vec![gated, other]);
    assert_eq!(lines.len(), 6);
    assert_eq!((graph.op(lines[0]), graph.op(lines[2])), (Op::If, Op::EndIf));
    assert_eq!((graph.op(lines[3]), graph.op(lines[5])), (Op::If, Op::EndIf));
    assert_eq!(graph.source(lines[3], 0), no);

    let cast = graph.cast(address, DType::Int64);
    let through = graph.ternary(Op::Store, DType::Void, cast, value, yes);
    assert_eq!(line_rewrite_cleanups(&mut graph, &vec![through]).len(), 3);

    let plain = graph.binary(Op::Store, DType::Void, address, value);
    let number = graph.constant(ConstValue::Int(1), DType::Int32);
    let by_number = graph.ternary(Op::Store, DType::Void, address, value, number);
    let zero = graph.constant(ConstValue::Int(0), DType::Int32);
    let elsewhere = graph.ternary(Op::Store, DType::Void, zero, value, yes);
    for line in [plain, by_number, elsewhere] {
        assert_eq!(line_rewrite_cleanups(&mut graph, &vec![line]), [line]);
    }
}

/// A forest of sums and products over a few constants and variables.
fn forest(graph: &mut Graph, seed: u64) -> usize {
    let mut state = seed.wrapping_mul(0x9e37_79b9_7f4a_7c15) | 1;
    let mut next = |below: u64| {
        state = state.wrapping_mul(6364136223846793005).wrapping_add(1442695040888963407);
        (state >> 33) % below
    };
    let mut nodes: Vec<usize> = Vec::new();
    for name in 0..3 {
        nodes.push(graph.leaf(Op::Variable { name, low: 0, high: 9 }, DType::Int32));
        nodes.push(graph.constant(ConstValue::Int(next(5) as i64), DType::Int32));
    }
    for _ in 0..12 {
        let (a, b) = (next(nodes.len() as u64) as usize, next(nodes.len() as u64) as usize);
        let op = [BinaryOp::Add, BinaryOp::Mul, BinaryOp::Sub, BinaryOp::Max][next(4) as usize];
        nodes.push(graph.alu(op, nodes[a], nodes[b]));
    }
    let trees = nodes.len() - 1 - next(3) as usize;
    graph.sink(&nodes[trees..])
}

#[test]
fn ranked_linearize_matches_the_pairwise_oracle_on_arithmetic_forests() {
    for seed in 0..64 {
        let mut graph = Graph::new();
        let sink = forest(&mut graph, seed);
        assert_matches_pairwise_oracle(&graph, sink);
        let order = linearized(&graph, sink);
        assert_eq!(order.last(), Some(&sink), "the sink is emitted last");
        assert!(is_topological(&graph, sink, &order));
        assert_eq!(order.len(), graph.toposort(sink).len());
    }
}
