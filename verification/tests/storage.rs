//! Floats that are held in words.

use svod_schedule::decomps::{apply_dtype_decomps, decompose, Target};
use svod_schedule::fold::fold_alone;
use svod_schedule::graph::{AddrSpace, BinaryOp, ConstValue, DType, Graph, Op};
use svod_schedule::helpers::loads;
use svod_schedule::shaped::shaped_addr;
use svod_schedule::storage::store_in_words;

fn buffer_of(graph: &mut Graph, slot: usize, size: usize, dtype: DType) -> usize {
    graph.leaf(Op::Buffer { slot, space: AddrSpace::Global, size }, dtype)
}

fn index(graph: &mut Graph, storage: usize) -> usize {
    let zero = graph.index_const(0);
    let dtype = graph.dtype(storage);
    graph.binary(Op::Index, dtype, storage, zero)
}

fn load(graph: &mut Graph, address: usize) -> usize {
    let dtype = graph.dtype(address);
    graph.unary(Op::Load, dtype, address)
}

fn store(graph: &mut Graph, address: usize, value: usize) -> usize {
    graph.binary(Op::Store, DType::Void, address, value)
}

fn store_value_dtypes(graph: &Graph, root: usize) -> Vec<DType> {
    graph
        .toposort(root)
        .into_iter()
        .filter(|id| graph.op(*id) == Op::Store)
        .map(|id| graph.dtype(graph.source(id, 1)))
        .collect()
}

fn has_dtype(graph: &Graph, root: usize, dtype: DType) -> bool {
    graph.toposort(root).into_iter().any(|id| graph.dtype(id) == dtype)
}

#[test]
fn fp8_decomp_preserves_alt_on_gated_load() {
    let mut graph = Graph::new();
    let alt = graph.constant(ConstValue::Float(0), DType::FP8E5M2);
    let storage = buffer_of(&mut graph, 0, 64, DType::FP8E5M2);
    let address = index(&mut graph, storage);
    let no = graph.constant(ConstValue::Bool(false), DType::Bool);
    let access = graph.ternary(Op::Load, DType::FP8E5M2, address, alt, no);
    let decomposed = decompose(&mut graph, access, DType::FP8E5M2, DType::Float16);
    assert_eq!(graph.dtype(decomposed), DType::Float16);
    let read: Vec<usize> = graph
        .toposort(decomposed)
        .into_iter()
        .filter(|id| graph.op(*id) == Op::Load)
        .collect();
    assert_eq!(read.len(), 1, "the guarded load survives");
    assert_eq!(graph.source_count(read[0]), 3);
    assert_eq!(graph.source(read[0], 2), no);
    assert_eq!(graph.dtype(graph.source(read[0], 1)), DType::UInt8);
    assert!(!has_dtype(&graph, decomposed, DType::FP8E5M2));
}

#[test]
fn vector_fp8_load_decomposes_to_scalar_loads_and_stack() {
    let mut graph = Graph::new();
    let storage = buffer_of(&mut graph, 0, 4, DType::FP8E4M3);
    let address = shaped_addr(&mut graph, storage, &[0, 1, 2, 3]);
    let access = load(&mut graph, address);
    let decomposed = decompose(&mut graph, access, DType::FP8E4M3, DType::Float16);
    assert_eq!(graph.op(decomposed), Op::Stack);
    assert_eq!(graph.dtype(decomposed), DType::Float16);
    assert_eq!(loads(&graph, decomposed), 4);
}

#[test]
fn fnuz_store_and_load_are_both_decomposed() {
    let mut graph = Graph::new();
    let storage = buffer_of(&mut graph, 0, 4, DType::FP8E4M3FNUZ);
    let address = index(&mut graph, storage);
    let value = graph.constant(ConstValue::Float(1.0f64.to_bits()), DType::FP8E4M3FNUZ);
    let (written, read) = (store(&mut graph, address, value), load(&mut graph, address));
    let root = graph.sink(&[written, read]);
    let decomposed = decompose(&mut graph, root, DType::FP8E4M3FNUZ, DType::Float16);
    assert!(!has_dtype(&graph, decomposed, DType::FP8E4M3FNUZ));
    assert!(store_value_dtypes(&graph, decomposed).contains(&DType::UInt8));
    assert_eq!(loads(&graph, decomposed), 1, "one byte is read");
    let walk = graph.toposort(decomposed);
    let read = *walk.iter().find(|id| graph.op(**id) == Op::Load).expect("the byte that is read");
    assert_eq!(graph.dtype(read), DType::UInt8);
}

#[test]
fn combined_dtype_pass_commits_weak_stores_before_decomposition() {
    let mut graph = Graph::new();
    let mut stores = Vec::new();
    for (slot, dtype, value) in [(0, DType::FP8E4M3, 1.5f64), (1, DType::BFloat16, -2.0)] {
        let storage = buffer_of(&mut graph, slot, 4, dtype);
        let address = index(&mut graph, storage);
        let weak = graph.constant(ConstValue::Float(value.to_bits()), DType::WeakFloat);
        stores.push(store(&mut graph, address, weak));
    }
    let root = graph.sink(&stores);
    let decomposed = apply_dtype_decomps(&mut graph, root, Target::WebGpu);
    assert!(!has_dtype(&graph, decomposed, DType::FP8E4M3));
    assert!(!has_dtype(&graph, decomposed, DType::BFloat16));
    let dtypes = store_value_dtypes(&graph, decomposed);
    assert!(dtypes.contains(&DType::UInt8) && dtypes.contains(&DType::UInt16));
}

#[test]
fn combined_dtype_pass_commits_long_weak_store_before_word_split() {
    let mut graph = Graph::new();
    let wide = graph.constant(ConstValue::Int(0x1_0000_0000), DType::WeakInt);
    let count = graph.constant(ConstValue::Int(0x7654_3210), DType::WeakInt);
    let value = graph.binary(Op::Binary(BinaryOp::Shl), DType::WeakInt, wide, count);
    let storage = buffer_of(&mut graph, 0, 4, DType::Int64);
    let address = index(&mut graph, storage);
    let stored = store(&mut graph, address, value);
    let root = graph.sink(&[stored]);
    let decomposed = apply_dtype_decomps(&mut graph, root, Target::WebGpu);
    assert_eq!(store_value_dtypes(&graph, decomposed), [DType::Int32; 2]);
    assert!(!has_dtype(&graph, decomposed, DType::Int64));
    let walk = graph.toposort(decomposed);
    let words = Op::Buffer { slot: 0, space: AddrSpace::Global, size: 8 };
    assert!(walk.iter().any(|id| graph.op(*id) == words && graph.dtype(*id) == DType::Int32));
}

fn word_type(dtype: DType) -> DType {
    match dtype {
        DType::Float16 | DType::BFloat16 => DType::UInt16,
        _ => DType::UInt8,
    }
}

/// A word that is read as a float, and what the float becomes.
fn widened(from: DType, bits: u64) -> u64 {
    let mut graph = Graph::new();
    let word = graph.constant(ConstValue::UInt(bits), word_type(from));
    let value = graph.unary(Op::BitCast, from, word);
    let wide = store_in_words(&mut graph, from, DType::Float32, value).expect("it is widened");
    assert_eq!((graph.op(wide), graph.dtype(wide)), (Op::BitCast, DType::Float32));
    match fold_alone(&graph, graph.source(wide, 0)) {
        Some(ConstValue::UInt(n)) => n,
        other => panic!("expected a word, got {other:?}"),
    }
}

/// A word that is widened, stored and narrowed again.
fn stored_back(from: DType, bits: u64) -> u64 {
    let mut graph = Graph::new();
    let storage = buffer_of(&mut graph, 0, 8, from);
    let address = index(&mut graph, storage);
    let word = graph.constant(ConstValue::UInt(bits), word_type(from));
    let value = graph.unary(Op::BitCast, from, word);
    let root = store(&mut graph, address, value);
    let decomposed = decompose(&mut graph, root, from, DType::Float32);
    assert_eq!(graph.op(decomposed), Op::Store);
    match fold_alone(&graph, graph.source(decomposed, 1)) {
        Some(ConstValue::UInt(n)) => n,
        other => panic!("expected a word, got {other:?}"),
    }
}

/// A number by the fields of its encoding.
fn number(bits: u64, mantissa: u32, width: u32, bias: i32) -> f32 {
    let exponent = ((bits >> mantissa) & ((1 << (width - 1 - mantissa)) - 1)) as i32;
    let fraction = (bits & ((1 << mantissa) - 1)) as f32 / (1u64 << mantissa) as f32;
    let magnitude = (1.0 + fraction) * ((exponent - bias) as f32).exp2();
    if bits >> (width - 1) == 1 { -magnitude } else { magnitude }
}

#[test]
fn words_widen_to_the_numbers_they_encode() {
    let rows = [
        (DType::FP8E4M3, 3, 8, 7),
        (DType::FP8E5M2, 2, 8, 15),
        (DType::FP8E4M3FNUZ, 3, 8, 8),
        (DType::FP8E5M2FNUZ, 2, 8, 16),
        (DType::Float16, 10, 16, 15),
        (DType::BFloat16, 7, 16, 127),
    ];
    for (from, mantissa, width, bias) in rows {
        let ones = (1u64 << (width - 1 - mantissa)) - 1;
        let step = if width == 8 { 1 } else { 97 };
        for bits in (0..1u64 << width).step_by(step) {
            let exponent = (bits >> mantissa) & ones;
            let magnitude = bits & ((1 << (width - 1)) - 1);
            let wide = f32::from_bits(widened(from, bits) as u32);
            let ieee = matches!(from, DType::FP8E5M2 | DType::Float16 | DType::BFloat16);
            let none = match from {
                DType::FP8E4M3 => magnitude == 0x7f,
                DType::FP8E4M3FNUZ | DType::FP8E5M2FNUZ => bits == 0x80,
                _ => exponent == ones && magnitude != ones << mantissa,
            };
            if none {
                assert!(wide.is_nan(), "{from:?} {bits:#x}");
            } else if ieee && exponent == ones {
                assert!(wide.is_infinite(), "{from:?} {bits:#x}");
            } else if exponent == 0 {
                assert_eq!(wide, 0.0, "{from:?} {bits:#x}");
            } else {
                assert_eq!(wide, number(bits, mantissa, width, bias), "{from:?} {bits:#x}");
                assert_eq!(stored_back(from, bits), bits, "{from:?} {bits:#x}");
            }
        }
    }
}

#[test]
fn small_words_are_stored_back_as_zero() {
    for (bits, expected) in [(0x00, 0x00), (0x80, 0x80), (0x01, 0x00), (0x07, 0x00), (0x87, 0x80)] {
        assert_eq!(stored_back(DType::FP8E4M3, bits), expected, "{bits:#x}");
    }
    assert_eq!(stored_back(DType::FP8E4M3, 0x7f), 0x7f);
    assert_eq!(stored_back(DType::FP8E4M3FNUZ, 0x80), 0x80);
    assert_eq!(stored_back(DType::FP8E5M2, 0x7c), 0x7c, "an infinity");
}

/// The word that a 32-bit float is stored as.
fn narrowed(from: DType, value: f32) -> u64 {
    let mut graph = Graph::new();
    let word = graph.constant(ConstValue::UInt(value.to_bits() as u64), DType::UInt32);
    let wide = graph.unary(Op::BitCast, DType::Float32, word);
    let storage = buffer_of(&mut graph, 0, 8, word_type(from));
    let address = index(&mut graph, storage);
    let root = store(&mut graph, address, wide);
    let done = store_in_words(&mut graph, from, DType::Float32, root).expect("it is narrowed");
    match fold_alone(&graph, graph.source(done, 1)) {
        Some(ConstValue::UInt(n)) => n,
        other => panic!("expected a word, got {other:?}"),
    }
}

#[test]
fn numbers_are_rounded_to_the_nearest_word() {
    for (value, expected) in [
        (1.0, 0x38),
        (1.0625, 0x38),
        (1.0626, 0x39),
        (1.1875, 0x3a),
        (1.9999, 0x40),
        (448.0, 0x7e),
        (1e9, 0x7e),
        (-1e9, 0xfe),
        (1e-9, 0x00),
        (-1e-9, 0x80),
    ] {
        assert_eq!(narrowed(DType::FP8E4M3, value), expected, "{value}");
    }
    assert_eq!(narrowed(DType::FP8E4M3, f32::NAN), 0x7f);
    assert_eq!(narrowed(DType::FP8E5M2, f32::INFINITY), 0x7c);
    assert_eq!(narrowed(DType::FP8E4M3FNUZ, -0.0), 0x00);
    assert_eq!(narrowed(DType::BFloat16, 3.0), 0x4040);
    assert_eq!(narrowed(DType::Float16, 65504.0), 0x7bff);
}

#[test]
fn other_values_are_left_alone() {
    let mut graph = Graph::new();
    let one = graph.constant(ConstValue::Int(1), DType::Int32);
    assert_eq!(store_in_words(&mut graph, DType::FP8E4M3, DType::Float32, one), None);
    assert_eq!(store_in_words(&mut graph, DType::Float32, DType::Float16, one), None);
    let value = graph.constant(ConstValue::Float(1.0f64.to_bits()), DType::BFloat16);
    let sum = graph.binary(Op::Binary(BinaryOp::Add), DType::BFloat16, value, value);
    let wide = store_in_words(&mut graph, DType::BFloat16, DType::Float32, sum).expect("a float");
    assert_eq!((graph.op(wide), graph.dtype(wide)), (Op::Binary(BinaryOp::Add), DType::Float32));
}
