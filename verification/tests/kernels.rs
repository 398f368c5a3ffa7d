//! Stores that become kernels, and the order of kernels.

use svod_schedule::devices::{
    drop_copy, extract_device_from_graph, find_device, kernel_device, DeviceSpec, Devices,
    KernelSplitMixedDevices,
};
use svod_schedule::graph::{
    AddrSpace, AxisId, AxisType, BinaryOp, ConstValue, DType, Graph, Op, ReduceOp,
};
use svod_schedule::helpers::closed_range_count;
use svod_schedule::split::split_store;

fn sources(graph: &Graph, id: usize) -> Vec<usize> {
    (0..graph.source_count(id)).map(|at| graph.source(id, at)).collect()
}

fn storage_in(graph: &mut Graph, slot: usize, size: usize, space: AddrSpace) -> usize {
    graph.leaf(Op::Buffer { slot, space, size }, DType::Float32)
}

fn buffer(graph: &mut Graph, slot: usize) -> usize {
    storage_in(graph, slot, 100, AddrSpace::Global)
}

fn float(graph: &mut Graph, value: f64) -> usize {
    graph.constant(ConstValue::Float(value.to_bits()), DType::Float32)
}

fn indexed(graph: &mut Graph, storage: usize, at: usize) -> usize {
    let dtype = graph.dtype(storage);
    graph.binary(Op::Index, dtype, storage, at)
}

fn load_at(graph: &mut Graph, storage: usize, at: usize) -> usize {
    let address = indexed(graph, storage, at);
    let dtype = graph.dtype(address);
    graph.unary(Op::Load, dtype, address)
}

fn store_at(graph: &mut Graph, storage: usize, at: usize, value: usize) -> usize {
    let address = indexed(graph, storage, at);
    graph.binary(Op::Store, DType::Void, address, value)
}

fn store_at_zero(graph: &mut Graph, value: usize) -> usize {
    let storage = buffer(graph, 40);
    let zero = graph.index_const(0);
    store_at(graph, storage, zero, value)
}

/// The one source of a kernel's body.
fn only_source(graph: &Graph, call: usize) -> usize {
    let body = graph.source(call, 0);
    assert_eq!(graph.op(body), Op::Sink);
    assert_eq!(graph.source_count(body), 1);
    graph.source(body, 0)
}

#[test]
fn a_closed_store_becomes_a_call_over_a_param() {
    for row in 0..4 {
        let mut graph = Graph::new();
        let (dtype, value) = match row {
            0 => (DType::Float32, float(&mut graph, 1.0)),
            1 => (DType::Int32, graph.constant(ConstValue::Int(1), DType::Int32)),
            2 => (DType::Bool, graph.constant(ConstValue::Bool(true), DType::Bool)),
            _ => {
                let (one, two) = (float(&mut graph, 1.0), float(&mut graph, 2.0));
                (DType::Float32, graph.alu(BinaryOp::Add, one, two))
            }
        };
        let op = Op::Buffer { slot: 7, space: AddrSpace::Global, size: 100 };
        let storage = graph.leaf(op, dtype);
        let zero = graph.index_const(0);
        let store = store_at(&mut graph, storage, zero, value);
        let call = split_store(&mut graph, store).expect("a closed store splits");
        assert_eq!(graph.op(call), Op::Call);
        assert_eq!(sources(&graph, call)[1..], [storage]);
        let inner = only_source(&graph, call);
        assert_eq!(graph.op(inner), Op::Store);
        assert_eq!(graph.source(inner, 1), value);
        let param = graph.source(graph.source(inner, 0), 0);
        assert_eq!(graph.op(param), Op::Param { slot: 0, addrspace: Some(AddrSpace::Global) });
        assert_eq!(graph.dtype(param), dtype);
    }
}

#[test]
fn two_stores_in_one_graph_become_two_distinct_kernels() {
    let mut graph = Graph::new();
    let (one, two) = (float(&mut graph, 1.0), float(&mut graph, 2.0));
    let zero = graph.index_const(0);
    let (a, b) = (buffer(&mut graph, 0), buffer(&mut graph, 1));
    let stores = [store_at(&mut graph, a, zero, one), store_at(&mut graph, b, zero, two)];
    let calls = stores.map(|store| split_store(&mut graph, store).expect("a closed store splits"));
    assert_ne!(calls[0], calls[1]);
    assert_ne!(graph.source(calls[0], 0), graph.source(calls[1], 0));
    assert_eq!(sources(&graph, calls[0])[1..], [a]);
    assert_eq!(sources(&graph, calls[1])[1..], [b]);
}

#[test]
fn an_already_split_kernel_is_not_split_again() {
    let mut graph = Graph::new();
    let one = float(&mut graph, 1.0);
    let store = store_at_zero(&mut graph, one);
    let call = split_store(&mut graph, store).expect("a closed store splits");
    assert_eq!(split_store(&mut graph, call), None);
}

#[test]
fn an_end_over_a_store_keeps_every_closed_range() {
    let weak = (AxisType::Weak, 4, 0);
    let looped = (AxisType::Loop, 8, 1);
    for axes in [vec![weak], vec![weak, (AxisType::Weak, 8, 1)], vec![looped], vec![weak, looped], vec![looped, weak]] {
        let mut graph = Graph::new();
        let one = float(&mut graph, 1.0);
        let store = store_at_zero(&mut graph, one);
        let ranges: Vec<usize> =
            axes.iter().map(|(kind, extent, axis)| graph.range(*extent, *kind, *axis)).collect();
        let end = graph.end(store, &ranges);
        let call = split_store(&mut graph, end).expect("an end of a store splits");
        assert!(graph.source_count(call) > 1);
        let body = graph.source(call, 0);
        assert_eq!(closed_range_count(&graph, body), axes.len());
    }
}

#[test]
fn an_end_over_an_end_over_a_store_is_not_a_kernel_root() {
    let mut graph = Graph::new();
    let one = float(&mut graph, 1.0);
    let store = store_at_zero(&mut graph, one);
    let (first, second) = (graph.range(4, AxisType::Weak, 0), graph.range(8, AxisType::Weak, 1));
    let inner = graph.end(store, &[first]);
    let outer = graph.end(inner, &[second]);
    assert_eq!(split_store(&mut graph, outer), None);
}

#[test]
fn only_a_store_rooted_shape_splits() {
    let mut graph = Graph::new();
    let one = float(&mut graph, 1.0);
    let nothing = graph.leaf(Op::Noop, DType::Void);
    let range = graph.range(10, AxisType::Weak, 0);
    let storage = buffer(&mut graph, 0);
    let at = graph.range(10, AxisType::Global, 1);
    let read = load_at(&mut graph, storage, at);
    let roots = [
        one,
        graph.end(nothing, &[range]),
        graph.end(one, &[range]),
        graph.end(read, &[range]),
    ];
    for root in roots {
        assert_eq!(split_store(&mut graph, root), None);
    }
}

#[test]
fn an_open_range_blocks_the_split_unless_it_is_a_launch_lane() {
    for (kind, splits) in [(AxisType::Weak, false), (AxisType::Loop, false), (AxisType::Device, true)] {
        let mut graph = Graph::new();
        let storage = buffer(&mut graph, 0);
        let at = graph.range(4, kind, 0);
        let one = float(&mut graph, 1.0);
        let store = store_at(&mut graph, storage, at, one);
        assert_eq!(split_store(&mut graph, store).is_some(), splits, "{kind:?}");
    }
}

#[test]
fn a_device_lane_crossed_with_a_loop_still_blocks_the_split() {
    let mut graph = Graph::new();
    let storage = buffer(&mut graph, 0);
    let (lane, inner) = (graph.range(2, AxisType::Device, 0), graph.range(2, AxisType::Loop, 1));
    let two = graph.index_const(2);
    let scaled = graph.alu(BinaryOp::Mul, lane, two);
    let flat = graph.alu(BinaryOp::Add, scaled, inner);
    let one = float(&mut graph, 1.0);
    let store = store_at(&mut graph, storage, flat, one);
    assert_eq!(split_store(&mut graph, store), None);
}

#[test]
fn a_stored_copy_becomes_the_kernel_body() {
    for row in 0..3 {
        let mut graph = Graph::new();
        let (from, to) = (buffer(&mut graph, 0), buffer(&mut graph, 1));
        let zero = graph.index_const(0);
        let copy = graph.unary(Op::Copy, DType::Float32, from);
        let root = match row {
            0 => store_at(&mut graph, to, zero, copy),
            1 => {
                let store = store_at(&mut graph, to, zero, copy);
                let range = graph.range(10, AxisType::Weak, 0);
                graph.end(store, &[range])
            }
            _ => {
                let again = graph.unary(Op::Copy, DType::Float32, copy);
                store_at(&mut graph, to, zero, again)
            }
        };
        let call = split_store(&mut graph, root).expect("a stored copy splits");
        assert_eq!(graph.op(graph.source(call, 0)), Op::Copy);
    }
}

#[test]
fn globals_and_scalar_bindings_become_dense_call_positions() {
    let mut graph = Graph::new();
    let output = storage_in(&mut graph, 41, 4, AddrSpace::Global);
    let local = storage_in(&mut graph, 700, 4, AddrSpace::Local);
    let peer = storage_in(&mut graph, 701, 4, AddrSpace::Local);
    let reg = storage_in(&mut graph, 800, 1, AddrSpace::Reg);
    let input = storage_in(&mut graph, 990, 4, AddrSpace::Global);
    let n = graph.leaf(Op::Variable { name: 0, low: 1, high: 4 }, DType::Float32);
    let two = float(&mut graph, 2.0);
    let scalar = graph.binary(Op::Bind, DType::Float32, n, two);
    let nothing = graph.leaf(Op::Noop, DType::Void);
    let zero = graph.index_const(0);
    let stacked = graph.node(Op::MStack, DType::Float32, &[local, peer]);
    let stacked = graph.after(stacked, &[nothing]);
    let held = graph.after(reg, &[nothing]);
    let a = load_at(&mut graph, stacked, zero);
    let b = load_at(&mut graph, held, zero);
    let c = load_at(&mut graph, input, zero);
    let value = graph.alu(BinaryOp::Add, a, b);
    let value = graph.alu(BinaryOp::Add, value, c);
    let value = graph.alu(BinaryOp::Add, value, scalar);
    let store = store_at(&mut graph, output, zero, value);
    let call = split_store(&mut graph, store).expect("a closed store splits");
    let args = sources(&graph, call)[1..].to_vec();
    assert_eq!(args.len(), 3, "two storages and then the bound variable");
    assert!(args[..2].contains(&output) && args[..2].contains(&input));
    assert_eq!(args[2], scalar);
    let body = graph.source(call, 0);
    let walk = graph.toposort(body);
    let mut slots: Vec<usize> = walk
        .iter()
        .filter_map(|id| match graph.op(*id) {
            Op::Param { slot, addrspace: Some(AddrSpace::Global) } => Some(slot),
            _ => None,
        })
        .collect();
    slots.sort_unstable();
    assert_eq!(slots, [0, 1]);
    assert!(walk.contains(&n) && !walk.contains(&scalar), "the body reads the bare variable");
    assert!(!walk.contains(&output) && !walk.contains(&input));
}

#[test]
fn local_and_register_allocations_stay_inside_the_body() {
    let mut graph = Graph::new();
    let output = storage_in(&mut graph, 41, 4, AddrSpace::Global);
    let local = storage_in(&mut graph, 700, 4, AddrSpace::Local);
    let reg = storage_in(&mut graph, 800, 1, AddrSpace::Reg);
    let nothing = graph.leaf(Op::Noop, DType::Void);
    let zero = graph.index_const(0);
    let (held, shared) = (graph.after(reg, &[nothing]), graph.after(local, &[nothing]));
    let (a, b) = (load_at(&mut graph, held, zero), load_at(&mut graph, shared, zero));
    let value = graph.alu(BinaryOp::Add, a, b);
    let store = store_at(&mut graph, output, zero, value);
    let call = split_store(&mut graph, store).expect("a closed store splits");
    assert_eq!(sources(&graph, call)[1..], [output]);
    let walk = graph.toposort(graph.source(call, 0));
    assert!(walk.contains(&local) && walk.contains(&reg));
}

#[test]
fn what_a_kernel_waits_for_is_not_in_it() {
    let mut graph = Graph::new();
    let (input, output, other) = (buffer(&mut graph, 0), buffer(&mut graph, 1), buffer(&mut graph, 2));
    let zero = graph.index_const(0);
    let one = float(&mut graph, 1.0);
    let read = load_at(&mut graph, other, zero);
    let sum = graph.alu(BinaryOp::Add, read, one);
    let writes = store_at(&mut graph, input, zero, sum);
    let ready = graph.after(input, &[writes]);
    let value = load_at(&mut graph, ready, zero);
    let store = store_at(&mut graph, output, zero, value);
    let call = split_store(&mut graph, store).expect("a closed store splits");
    let args = sources(&graph, call)[1..].to_vec();
    assert_eq!(args.len(), 2);
    assert!(args.contains(&input) && args.contains(&output) && !args.contains(&other));
}

#[test]
fn loops_of_a_kernel_take_numbers_of_its_own() {
    let mut graph = Graph::new();
    let storage = buffer(&mut graph, 0);
    let four = graph.index_const(4);
    let op = Op::Range { axis: AxisId::Unrenumbered(17), kind: AxisType::Loop };
    let range = graph.unary(op, DType::Index, four);
    let one = float(&mut graph, 1.0);
    let store = store_at(&mut graph, storage, range, one);
    let end = graph.end(store, &[range]);
    let call = split_store(&mut graph, end).expect("an end of a store splits");
    let inner = only_source(&graph, call);
    let renumbered = graph.source(inner, 1);
    let op = Op::Range { axis: AxisId::Renumbered(0), kind: AxisType::Loop };
    assert_eq!(graph.op(renumbered), op);
}

const AMD: DeviceSpec = DeviceSpec::Amd { device_id: 0 };
const CUDA: DeviceSpec = DeviceSpec::Cuda { device_id: 0 };

fn buffer_on(graph: &mut Graph, devices: &mut Devices, slot: usize, device: DeviceSpec) -> usize {
    let storage = storage_in(graph, slot, 16, AddrSpace::Global);
    devices.place(storage, device);
    storage
}

#[test]
fn the_device_comes_from_the_storage_or_the_collective() {
    let (mut graph, mut devices) = (Graph::new(), Devices::new());
    let one = float(&mut graph, 1.0);
    let storage = buffer_on(&mut graph, &mut devices, 1, DeviceSpec::Cpu);
    assert_eq!(extract_device_from_graph(&graph, &devices, storage), Some(DeviceSpec::Cpu));
    let copy = graph.unary(Op::Copy, DType::Float32, one);
    devices.place(copy, DeviceSpec::Cpu);
    assert_eq!(extract_device_from_graph(&graph, &devices, copy), Some(DeviceSpec::Cpu));
    let range = graph.range(4, AxisType::Loop, 0);
    let stage = Op::Stage { space: AddrSpace::Local, removable: true };
    let staged = graph.binary(stage, DType::Float32, one, range);
    devices.place(staged, AMD);
    assert_eq!(extract_device_from_graph(&graph, &devices, staged), Some(AMD));
    let reduced = graph.unary(Op::AllReduce(ReduceOp::Add), DType::Float32, one);
    devices.place(reduced, CUDA);
    assert_eq!(extract_device_from_graph(&graph, &devices, reduced), Some(CUDA));
    assert_eq!(extract_device_from_graph(&graph, &devices, one), None);
}

#[test]
fn a_same_device_copy_is_replaced_by_its_source() {
    let (mut graph, mut devices) = (Graph::new(), Devices::new());
    let storage = buffer_on(&mut graph, &mut devices, 0, DeviceSpec::Cpu);
    let copy = graph.unary(Op::Copy, DType::Float32, storage);
    devices.place(copy, DeviceSpec::Cpu);
    assert_eq!(drop_copy(&graph, &devices, copy), Some(storage));
    assert_eq!(find_device(&graph, &devices, copy), find_device(&graph, &devices, storage));
    assert_eq!(drop_copy(&graph, &devices, storage), None);
    devices.place(copy, AMD);
    assert_eq!(drop_copy(&graph, &devices, copy), None, "the copy goes to another device");
}

#[test]
fn a_value_is_on_the_device_of_its_sources() {
    let (mut graph, mut devices) = (Graph::new(), Devices::new());
    let one = float(&mut graph, 1.0);
    let storage = buffer_on(&mut graph, &mut devices, 0, AMD);
    let zero = graph.index_const(0);
    let value = load_at(&mut graph, storage, zero);
    let sum = graph.alu(BinaryOp::Add, one, value);
    assert_eq!(find_device(&graph, &devices, sum), Some(AMD));
    let copy = graph.unary(Op::Copy, DType::Float32, sum);
    devices.place(copy, CUDA);
    assert_eq!(find_device(&graph, &devices, copy), Some(CUDA));
    assert_eq!(find_device(&graph, &devices, one), None);
    devices.place(storage, DeviceSpec::Cpu);
    assert_eq!(devices.named(storage), Some(DeviceSpec::Cpu), "the last one counts");
}

fn cpu_to_amd(graph: &mut Graph, devices: &mut Devices) -> usize {
    let (cpu, amd) =
        (buffer_on(graph, devices, 0, DeviceSpec::Cpu), buffer_on(graph, devices, 1, AMD));
    let zero = graph.index_const(0);
    let value = load_at(graph, cpu, zero);
    store_at(graph, amd, zero, value)
}

fn cpu_plus_amd(graph: &mut Graph, devices: &mut Devices) -> usize {
    let (cpu, amd) =
        (buffer_on(graph, devices, 0, DeviceSpec::Cpu), buffer_on(graph, devices, 1, AMD));
    let zero = graph.index_const(0);
    let (left, right) = (load_at(graph, cpu, zero), load_at(graph, amd, zero));
    let value = graph.alu(BinaryOp::Add, left, right);
    store_at(graph, cpu, zero, value)
}

fn amd_behind_an_after(graph: &mut Graph, devices: &mut Devices) -> usize {
    let amd = buffer_on(graph, devices, 1, AMD);
    let zero = graph.index_const(0);
    let one = float(graph, 1.0);
    let dependency = store_at(graph, amd, zero, one);
    let loaded = load_at(graph, amd, zero);
    let value = graph.node(Op::After, DType::Float32, &[loaded, dependency]);
    let cpu = buffer_on(graph, devices, 0, DeviceSpec::Cpu);
    store_at(graph, cpu, zero, value)
}

#[test]
fn a_mixed_device_kernel_is_rejected() {
    for build in [cpu_to_amd, cpu_plus_amd, amd_behind_an_after] {
        let (mut graph, mut devices) = (Graph::new(), Devices::new());
        let store = build(&mut graph, &mut devices);
        let call = split_store(&mut graph, store).expect("a closed store splits");
        let Err(KernelSplitMixedDevices { devices: mixed }) =
            kernel_device(&graph, &devices, call)
        else {
            panic!("mixed devices must not be compiled");
        };
        assert!(mixed.len() > 1);
        assert!(mixed.contains(&AMD) && mixed.contains(&DeviceSpec::Cpu));
    }
}

#[test]
fn two_single_device_stores_split_into_two_kernels() {
    let (mut graph, mut devices) = (Graph::new(), Devices::new());
    let (one, two) = (float(&mut graph, 1.0), float(&mut graph, 2.0));
    let zero = graph.index_const(0);
    let cpu = buffer_on(&mut graph, &mut devices, 0, DeviceSpec::Cpu);
    let amd = buffer_on(&mut graph, &mut devices, 1, AMD);
    let stores = [store_at(&mut graph, cpu, zero, one), store_at(&mut graph, amd, zero, two)];
    let calls = stores.map(|store| split_store(&mut graph, store).expect("a closed store splits"));
    assert_ne!(calls[0], calls[1]);
    assert_eq!(kernel_device(&graph, &devices, calls[0]), Ok(Some(DeviceSpec::Cpu)));
    assert_eq!(kernel_device(&graph, &devices, calls[1]), Ok(Some(AMD)));
}

#[test]
fn bind_args_do_not_participate_in_kernel_device_validation() {
    let (mut graph, mut devices) = (Graph::new(), Devices::new());
    let cuda = graph.leaf(Op::Param { slot: 1, addrspace: None }, DType::Index);
    devices.place(cuda, CUDA);
    let variable = graph.leaf(Op::Variable { name: 0, low: 0, high: 15 }, DType::Index);
    let bound = graph.binary(Op::Bind, DType::Index, variable, cuda);
    let storage = buffer_on(&mut graph, &mut devices, 0, DeviceSpec::Cpu);
    let one = float(&mut graph, 1.0);
    let store = store_at(&mut graph, storage, bound, one);
    let call = split_store(&mut graph, store).expect("a closed store splits");
    assert!(sources(&graph, call)[1..].contains(&bound));
    assert_eq!(kernel_device(&graph, &devices, call), Ok(Some(DeviceSpec::Cpu)));
}

#[test]
fn a_cross_device_copy_is_a_kernel_of_two_devices() {
    let (mut graph, mut devices) = (Graph::new(), Devices::new());
    let cpu = buffer_on(&mut graph, &mut devices, 0, DeviceSpec::Cpu);
    let cuda = buffer_on(&mut graph, &mut devices, 1, CUDA);
    let copy = graph.unary(Op::Copy, DType::Float32, cpu);
    devices.place(copy, CUDA);
    let zero = graph.index_const(0);
    let store = store_at(&mut graph, cuda, zero, copy);
    let call = split_store(&mut graph, store).expect("a stored copy splits");
    assert_eq!(graph.op(graph.source(call, 0)), Op::Copy);
    assert!(kernel_device(&graph, &devices, call).is_ok());
}
