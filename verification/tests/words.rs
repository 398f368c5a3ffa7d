//! Numbers: words, eight-bit floats, folded constants and neutral operands.

use std::collections::HashMap;

use svod_schedule::algebra::{
    assert_vcount, element_count, is_identity_value, is_zero_value, stack_with_shape,
};
use svod_schedule::bounds::find_bounds;
use svod_schedule::fold::{fold, fold_alone, reinterpret_bits};
use svod_schedule::fp8::{fp8_node, round_trip, widen_fp8, Fp8Op};
use svod_schedule::graph::{AddrSpace, BinaryOp, ConstValue, DType, Graph, Op, TernaryOp, UnaryOp, RendererDevice, WmmaDims, WmmaMetadata};
use svod_schedule::helpers::const_value;
use svod_schedule::idlist::IdList;
use svod_schedule::longs::split_longs;
use svod_schedule::rounding::{find_single_pattern, find_widened_pattern};
use svod_schedule::text::{parse_signed, parse_unsigned, push_decimal, push_text, same_text};
use svod_schedule::words::{
    divmod_words, mul_words, neg_words, split_words, sub_words, word_addresses, Words,
};

const SIGNED: bool = true;
const UNSIGNED: bool = false;

fn long_const(graph: &mut Graph, signed: bool, bits: u64) -> usize {
    if signed {
        graph.constant(ConstValue::Int(bits as i64), DType::Int64)
    } else {
        graph.constant(ConstValue::UInt(bits), DType::UInt64)
    }
}

/// Stores a number at an index, splits it, and folds each word and its address.
fn split_store(
    signed: bool,
    at: i64,
    value: impl Fn(&mut Graph) -> usize,
) -> [(u32, ConstValue); 2] {
    let mut graph = Graph::new();
    let dtype = if signed { DType::Int64 } else { DType::UInt64 };
    let storage = graph.leaf(Op::Buffer { slot: 0, space: AddrSpace::Global, size: 8 }, dtype);
    let index = graph.index_const(at);
    let address = graph.binary(Op::Index, dtype, storage, index);
    let stored = value(&mut graph);
    let root = graph.binary(Op::Store, DType::Void, address, stored);
    let split = split_longs(&mut graph, root).expect("it can be split");
    let walk = graph.toposort(split);
    assert!(walk.iter().all(|id| !matches!(graph.dtype(*id), DType::Int64 | DType::UInt64)));
    assert_eq!((graph.op(split), graph.source_count(split)), (Op::Group, 2));
    [0, 1].map(|half| {
        let store = graph.source(split, half);
        assert_eq!(graph.op(store), Op::Store);
        let place = graph.source(graph.source(store, 0), 1);
        let (low, high) = find_bounds(&graph, place).expect("a constant index");
        assert_eq!(low, high);
        let address = ConstValue::Int(low);
        let word = match fold(&graph, graph.source(store, 1), &mut HashMap::new()) {
            Some(ConstValue::Int(n)) => n as u32,
            Some(ConstValue::UInt(n)) => n as u32,
            other => panic!("a word must fold to an integer, not {other:?}"),
        };
        (word, address)
    })
}

#[test]
fn long_word_ops_split_into_words() {
    let minus = |n: i64| (-n) as u64;
    let cases = [
        (SIGNED, BinaryOp::Add, 0x1_0000_0000, 0xffff_ffff),
        (SIGNED, BinaryOp::Sub, 0x1_0000_0000, 1),
        (SIGNED, BinaryOp::And, 0xff00_ff00_ff00_ff00, 0x0ff0_0ff0_0ff0_0ff0),
        (SIGNED, BinaryOp::Or, 0xff00_ff00_ff00_ff00, 0x0ff0_0ff0_0ff0_0ff0),
        (SIGNED, BinaryOp::Xor, 0xff00_ff00_ff00_ff00, 0x0ff0_0ff0_0ff0_0ff0),
        (SIGNED, BinaryOp::CDiv, 7, 2),
        (SIGNED, BinaryOp::CDiv, minus(7), 2),
        (SIGNED, BinaryOp::CDiv, 7, minus(2)),
        (SIGNED, BinaryOp::CDiv, minus(7), minus(2)),
        (SIGNED, BinaryOp::CMod, 7, 2),
        (SIGNED, BinaryOp::CMod, minus(7), 2),
        (SIGNED, BinaryOp::CMod, 7, minus(2)),
        (UNSIGNED, BinaryOp::CDiv, (1 << 40) + 5, 3),
        (UNSIGNED, BinaryOp::CMod, (1 << 40) + 5, 3),
        (UNSIGNED, BinaryOp::CDiv, u64::MAX, 0x1_0000_0001),
    ];
    for (signed, op, a, b) in cases {
        let (signed_a, signed_b) = (a as i64, b as i64);
        let expected = match op {
            BinaryOp::Add => a.wrapping_add(b),
            BinaryOp::Sub => a.wrapping_sub(b),
            BinaryOp::And => a & b,
            BinaryOp::Or => a | b,
            BinaryOp::Xor => a ^ b,
            BinaryOp::CDiv if signed => (signed_a / signed_b) as u64,
            BinaryOp::CMod if signed => (signed_a % signed_b) as u64,
            BinaryOp::CDiv => a / b,
            BinaryOp::CMod => a % b,
            _ => unreachable!("only operations on words"),
        };
        let expected = [expected as u32, (expected >> 32) as u32];
        let words = split_words(signed, op, a, b);
        assert_eq!([words.low, words.high], expected, "{op:?}");
        let stored = split_store(signed, 1, |graph| {
            let (x, y) = (long_const(graph, signed, a), long_const(graph, signed, b));
            graph.alu(op, x, y)
        });
        assert_eq!(stored.map(|(word, _)| word), expected, "{op:?} on a graph");
    }
}

#[test]
fn long_shifts_move_bits_between_the_words() {
    for count in [0u64, 1, 31, 32, 33, 63] {
        let bits = 0x1234_5678_9abc_def1u64;
        let stored = split_store(UNSIGNED, 0, |graph| {
            let (x, y) = (long_const(graph, false, bits), long_const(graph, false, count));
            graph.alu(BinaryOp::Shl, x, y)
        });
        let expected = bits << count;
        assert_eq!(stored.map(|(word, _)| word), [expected as u32, (expected >> 32) as u32]);
    }
}

#[test]
fn narrow_numbers_are_extended_by_their_sign() {
    for (value, dtype) in [(-2i64, DType::Int32), (7, DType::Int32), (0xffff_fffe, DType::UInt32)] {
        let stored = split_store(SIGNED, 0, |graph| {
            let narrow = graph.constant(ConstValue::Int(value), dtype);
            graph.cast(narrow, DType::Int64)
        });
        let bits = value as u64;
        assert_eq!(stored.map(|(word, _)| word), [bits as u32, (bits >> 32) as u32]);
    }
}

#[test]
fn long_reads_and_choices_are_split() {
    let mut graph = Graph::new();
    let storage =
        graph.leaf(Op::Buffer { slot: 0, space: AddrSpace::Global, size: 8 }, DType::Int64);
    let index = graph.index_const(2);
    let address = graph.binary(Op::Index, DType::Int64, storage, index);
    let load = graph.unary(Op::Load, DType::Int64, address);
    let one = graph.constant(ConstValue::Int(1), DType::Int64);
    let yes = graph.constant(ConstValue::Bool(true), DType::Bool);
    let choice = graph.ternary(Op::Ternary(TernaryOp::Where), DType::Int64, yes, load, one);
    let root = graph.binary(Op::Store, DType::Void, address, choice);
    let split = split_longs(&mut graph, root).expect("it can be split");
    let walk = graph.toposort(split);
    let loads: Vec<usize> = walk.iter().copied().filter(|id| graph.op(*id) == Op::Load).collect();
    assert_eq!(loads.len(), 2);
    assert!(loads.iter().all(|id| graph.dtype(*id) == DType::Int32));
    assert!(walk.iter().all(|id| graph.dtype(*id) != DType::Int64));

    let less = graph.binary(Op::Binary(BinaryOp::Shr), DType::Int64, load, one);
    let stuck = graph.binary(Op::Store, DType::Void, address, less);
    assert_eq!(split_longs(&mut graph, stuck), None, "this shift has no words");
}

#[test]
fn long_arithmetic_word_split_matches_native_at_boundaries() {
    for (a, b) in [(u64::MAX, u64::MAX), (0x0000_0000_ffff_ffff, 0x0000_0000_0000_0002)] {
        for signed in [SIGNED, UNSIGNED] {
            assert_eq!(split_words(signed, BinaryOp::Add, a, b).join(), a.wrapping_add(b));
            assert_eq!(split_words(signed, BinaryOp::Sub, a, b).join(), a.wrapping_sub(b));
            assert_eq!(split_words(signed, BinaryOp::Mul, a, b).join(), a.wrapping_mul(b));
            let cases: [(BinaryOp, u64); 3] = [
                (BinaryOp::Add, a.wrapping_add(b)),
                (BinaryOp::Sub, a.wrapping_sub(b)),
                (BinaryOp::Mul, a.wrapping_mul(b)),
            ];
            for (op, expected) in cases {
                let stored = split_store(signed, 1, |graph| {
                    let (x, y) = (long_const(graph, signed, a), long_const(graph, signed, b));
                    graph.alu(op, x, y)
                });
                let words = [expected as u32, (expected >> 32) as u32];
                assert_eq!(stored.map(|(word, _)| word), words, "{op:?}");
            }
        }
    }
}

#[test]
fn long_store_words_address_adjacent_elements() {
    for at in [0, 3] {
        assert_eq!(word_addresses(at), [2 * at, 2 * at + 1]);
        for signed in [SIGNED, UNSIGNED] {
            let split = split_store(signed, at, |graph| {
                long_const(graph, signed, 0xdead_beef_feed_face)
            });
            assert_eq!(split.map(|(word, _)| word), [0xfeed_face, 0xdead_beef]);
            let places = [ConstValue::Int(2 * at), ConstValue::Int(2 * at + 1)];
            assert_eq!(split.map(|(_, address)| address), places);
        }
        let words = Words::split(0xdead_beef_feed_face);
        assert_eq!([words.low, words.high], [0xfeed_face, 0xdead_beef]);
        assert_eq!(words.join(), 0xdead_beef_feed_face);
    }
}

#[test]
fn words_wrap_as_the_whole_number_does() {
    let (zero, one) = (Words::split(0), Words::split(1));
    assert_eq!(sub_words(zero, one).join(), u64::MAX);
    assert_eq!(neg_words(one).join(), u64::MAX);
    let wide = Words::split(0x1234_5678_9abc_def0);
    assert_eq!(mul_words(wide, wide).join(), 0x1234_5678_9abc_def0u64.wrapping_mul(0x1234_5678_9abc_def0));
    let (quotient, rest) = divmod_words(wide, Words::split(1000));
    assert_eq!(quotient.join(), 0x1234_5678_9abc_def0 / 1000);
    assert_eq!(rest.join(), 0x1234_5678_9abc_def0 % 1000);
}

#[test]
fn fp8_round_trips_through_a_wider_float() {
    for bits in 0..=u8::MAX {
        let (exponent, mantissa) = ((bits >> 3) & 0x0f, bits & 0x07);
        if exponent != 0 && (exponent != 0x0f || mantissa != 0x07) {
            assert_eq!(round_trip(bits), ConstValue::UInt(bits as u64));
        }
    }
}

#[test]
fn fp8_zero_exponents_flush_to_zero() {
    for (bits, expected) in [(0x00, 0x00), (0x80, 0x80), (0x01, 0x00), (0x07, 0x00), (0x87, 0x80)] {
        assert_eq!(round_trip(bits), ConstValue::UInt(expected), "{bits:#x}");
    }
}

#[test]
fn fp8_encodings_that_are_no_number_lose_their_sign() {
    for bits in [0x7f, 0xff] {
        assert_eq!(round_trip(bits), ConstValue::UInt(0x7f), "{bits:#x}");
    }
}

fn sources(graph: &Graph, id: usize) -> Vec<usize> {
    (0..graph.source_count(id)).map(|at| graph.source(id, at)).collect()
}

#[test]
fn amd_widens_fp8_alu_through_float32() {
    let cases = [
        Fp8Op::Unary,
        Fp8Op::Binary,
        Fp8Op::Compare,
        Fp8Op::Where,
        Fp8Op::MulAccLike,
        Fp8Op::CastTo,
        Fp8Op::CastFrom,
    ];
    for op in cases {
        let mut graph = Graph::new();
        let id = fp8_node(&mut graph, op);
        let widened = widen_fp8(&mut graph, id).expect("an eight-bit float is widened");
        if op == Fp8Op::Compare {
            assert_eq!(graph.dtype(widened), DType::Bool);
            let wide = |source: &usize| graph.dtype(*source) == DType::Float32;
            assert!(sources(&graph, widened).iter().all(wide));
        } else if matches!(op, Fp8Op::CastTo | Fp8Op::CastFrom) {
            assert_eq!(graph.op(widened), Op::Cast);
            let expected = if op == Fp8Op::CastTo { DType::FP8E4M3 } else { DType::Int32 };
            assert_eq!(graph.dtype(widened), expected);
            let inner = graph.source(widened, 0);
            assert_eq!((graph.op(inner), graph.dtype(inner)), (Op::Cast, DType::Float32));
        } else {
            assert_eq!((graph.op(widened), graph.dtype(widened)), (Op::Cast, DType::FP8E4M3));
            let inner = graph.source(widened, 0);
            assert_eq!(graph.dtype(inner), DType::Float32);
            let narrow = |source: &usize| graph.dtype(*source) == DType::FP8E4M3;
            assert!(!sources(&graph, inner).iter().any(narrow));
        }
    }
}

#[test]
fn amd_leaves_wmma_and_memory_nodes_alone() {
    let mut graph = Graph::new();
    let param = graph.leaf(Op::Param { slot: 0, addrspace: None }, DType::FP8E4M3);
    let zero = graph.index_const(0);
    let address = graph.binary(Op::Index, DType::FP8E4M3, param, zero);
    let load = graph.unary(Op::Load, DType::FP8E4M3, address);
    let form = WmmaMetadata {
        name: 0,
        dims: WmmaDims { n: 16, m: 16, k: 16 },
        dtype_in: DType::FP8E4M3,
        dtype_out: DType::FP8E4M3,
        device: RendererDevice::Cpu,
        threads: 32,
        upcast: false,
    };
    let wmma = graph.ternary(Op::Wmma(form), DType::FP8E4M3, load, load, load);
    for node in [load, wmma] {
        assert_eq!(widen_fp8(&mut graph, node), None);
    }
}

#[test]
fn folded_constants_wrap_to_their_type() {
    let mut graph = Graph::new();
    let big = graph.constant(ConstValue::Int(200), DType::Int32);
    let narrow = graph.cast(big, DType::Int8);
    assert_eq!(fold_alone(&graph, narrow), Some(ConstValue::Int(-56)));
    let minus = graph.constant(ConstValue::Int(-7), DType::Int64);
    let two = graph.constant(ConstValue::Int(2), DType::Int64);
    let quotient = graph.alu(BinaryOp::CDiv, minus, two);
    assert_eq!(fold_alone(&graph, quotient), Some(ConstValue::Int(-3)));
    let rest = graph.alu(BinaryOp::CMod, minus, two);
    assert_eq!(fold_alone(&graph, rest), Some(ConstValue::Int(-1)));
    let floor = graph.alu(BinaryOp::FloorDiv, minus, two);
    assert_eq!(fold_alone(&graph, floor), Some(ConstValue::Int(-4)));
    let negated = graph.unary(Op::Unary(UnaryOp::Neg), DType::Int64, minus);
    assert_eq!(fold_alone(&graph, negated), Some(ConstValue::Int(7)));
    let less = graph.binary(Op::Binary(BinaryOp::Lt), DType::Bool, minus, two);
    assert_eq!(fold_alone(&graph, less), Some(ConstValue::Bool(true)));
    let choice = graph.ternary(Op::Ternary(TernaryOp::Where), DType::Int64, less, two, minus);
    assert_eq!(fold_alone(&graph, choice), Some(ConstValue::Int(2)));
    let bits = graph.unary(Op::BitCast, DType::UInt64, minus);
    assert_eq!(fold_alone(&graph, bits), Some(ConstValue::UInt(-7i64 as u64)));
    let range = graph.global_range(4, 0);
    assert_eq!(fold_alone(&graph, range), None);
}

#[test]
fn known_values_are_answered_and_learned() {
    let mut graph = Graph::new();
    let range = graph.global_range(4, 0);
    let one = graph.constant(ConstValue::Int(1), DType::WeakInt);
    let sum = graph.binary(Op::Binary(BinaryOp::Add), DType::Int32, range, one);
    assert_eq!(fold_alone(&graph, sum), None);
    let mut known = HashMap::from([(range, ConstValue::Int(2))]);
    assert_eq!(fold(&graph, sum, &mut known), Some(ConstValue::Int(3)));
    assert_eq!(known.get(&sum), Some(&ConstValue::Int(3)), "what was folded is known");
    known.insert(sum, ConstValue::Int(40));
    assert_eq!(fold(&graph, sum, &mut known), Some(ConstValue::Int(40)), "what is known is answered");
    let mut nothing = HashMap::new();
    assert_eq!(fold(&graph, sum, &mut nothing), None);
    assert!(nothing.is_empty());
}

#[test]
fn floats_are_reinterpreted_at_their_own_type() {
    let mut graph = Graph::new();
    for value in [1.0f32, -2.5, 0.1, f32::INFINITY, f32::MIN_POSITIVE, 1.0e-42] {
        let wide = ConstValue::Float((value as f64).to_bits());
        let single = graph.constant(wide, DType::Float32);
        let bits = graph.unary(Op::BitCast, DType::UInt32, single);
        let pattern = ConstValue::UInt(value.to_bits() as u64);
        assert_eq!(fold_alone(&graph, bits), Some(pattern), "{value}");
        let back = graph.unary(Op::BitCast, DType::Float32, bits);
        assert_eq!(fold_alone(&graph, back), Some(wide), "{value}");
        let double = graph.constant(wide, DType::Float64);
        let whole = graph.unary(Op::BitCast, DType::UInt64, double);
        let stored = ConstValue::UInt((value as f64).to_bits());
        assert_eq!(fold_alone(&graph, whole), Some(stored), "{value}");
        assert_eq!(find_single_pattern((value as f64).to_bits()), value.to_bits() as u64);
        assert_eq!(find_widened_pattern(value.to_bits() as u64), (value as f64).to_bits());
    }
    let one = graph.constant(ConstValue::Float(1.0f64.to_bits()), DType::Float32);
    let bits = graph.unary(Op::BitCast, DType::UInt32, one);
    assert_eq!(fold_alone(&graph, bits), Some(ConstValue::UInt(0x3f80_0000)));
    assert_eq!(reinterpret_bits(0x3f80_0000, DType::Float32), float(1.0));
    assert_eq!(reinterpret_bits(2.5f64.to_bits(), DType::Float64), float(2.5));
}

#[test]
fn complements_and_casts_to_floats_fold() {
    let mut graph = Graph::new();
    let five = graph.constant(ConstValue::Int(5), DType::Int32);
    let flipped = graph.unary(Op::Unary(UnaryOp::Not), DType::Int32, five);
    assert_eq!(fold_alone(&graph, flipped), Some(ConstValue::Int(!5)));
    let yes = graph.constant(ConstValue::Bool(true), DType::Bool);
    let no = graph.unary(Op::Unary(UnaryOp::Not), DType::Bool, yes);
    assert_eq!(fold_alone(&graph, no), Some(ConstValue::Bool(false)));
    for dtype in [DType::Float32, DType::Float64] {
        let cast = graph.cast(five, dtype);
        assert_eq!(fold_alone(&graph, cast), Some(float(5.0)));
    }
}

#[test]
fn bits_are_read_in_the_type_they_are_given() {
    let bits = 0xffff_fffe_8000_0081;
    let cases = [
        (DType::Int8, ConstValue::Int(-127)),
        (DType::Int16, ConstValue::Int(0x81)),
        (DType::Int32, ConstValue::Int(-0x7fff_ff7f)),
        (DType::Int64, ConstValue::Int(bits as i64)),
        (DType::UInt8, ConstValue::UInt(0x81)),
        (DType::UInt16, ConstValue::UInt(0x81)),
        (DType::UInt32, ConstValue::UInt(0x8000_0081)),
        (DType::UInt64, ConstValue::UInt(bits)),
        (DType::Void, ConstValue::Invalid),
    ];
    for (dtype, expected) in cases {
        assert_eq!(reinterpret_bits(bits, dtype), expected, "{dtype:?}");
    }
}

fn float(value: f64) -> ConstValue {
    ConstValue::Float(value.to_bits())
}

#[test]
fn identity_values() {
    let cases = [
        (ConstValue::Int(0), BinaryOp::Add, false, true),
        (ConstValue::Int(0), BinaryOp::Add, true, true),
        (float(0.0), BinaryOp::Add, false, true),
        (ConstValue::Int(1), BinaryOp::Mul, false, true),
        (ConstValue::Int(1), BinaryOp::Mul, true, true),
        (float(1.0), BinaryOp::Mul, false, true),
        (ConstValue::Int(0), BinaryOp::Sub, false, false),
        (ConstValue::Int(0), BinaryOp::Sub, true, true),
        (ConstValue::Int(1), BinaryOp::FloorDiv, false, false),
        (ConstValue::Int(1), BinaryOp::FloorDiv, true, true),
        (float(1.0), BinaryOp::Fdiv, true, true),
        (float(2.0), BinaryOp::Fdiv, true, false),
        (ConstValue::Int(0), BinaryOp::Or, false, true),
        (ConstValue::Int(0), BinaryOp::Xor, true, true),
        (ConstValue::Int(-1), BinaryOp::And, false, true),
        (ConstValue::Int(0), BinaryOp::And, true, false),
        (ConstValue::Int(2), BinaryOp::Add, false, false),
        (ConstValue::Int(0), BinaryOp::Mul, false, false),
    ];
    for (value, op, right, expected) in cases {
        assert_eq!(is_identity_value(value, op, right), expected, "{value:?} {op:?} {right}");
    }
}

#[test]
fn zero_values() {
    let cases = [
        (ConstValue::Int(0), BinaryOp::Mul, true),
        (float(0.0), BinaryOp::Mul, true),
        (float(-0.0), BinaryOp::Mul, true),
        (ConstValue::Int(0), BinaryOp::And, true),
        (ConstValue::UInt(0), BinaryOp::And, false),
        (ConstValue::Int(1), BinaryOp::Mul, false),
        (ConstValue::Int(0), BinaryOp::Add, false),
    ];
    for (value, op, expected) in cases {
        assert_eq!(is_zero_value(value, op), expected, "{value:?} {op:?}");
    }
}

#[test]
fn only_constants_have_a_const_value() {
    let mut graph = Graph::new();
    let c = graph.constant(ConstValue::Int(42), DType::Int32);
    assert_eq!(const_value(&graph, c), Some(ConstValue::Int(42)));
    assert_ne!(const_value(&graph, c), Some(ConstValue::Int(0)));
    let param = graph.leaf(Op::Param { slot: 0, addrspace: None }, DType::Float32);
    assert_eq!(const_value(&graph, param), None);
}

#[test]
fn stack_with_shape_accepts_iff_the_product_matches() {
    let cases: [(usize, &[usize], bool); 6] = [
        (4, &[2, 2], true),
        (6, &[1, 6], true),
        (1, &[], true),
        (0, &[4, 0], false),
        (4, &[4, 0], false),
        (3, &[2, 2], false),
    ];
    for (count, dims, expected) in cases {
        assert_eq!(stack_with_shape(count, &dims.to_vec()), expected, "{count} {dims:?}");
    }
}

#[test]
fn stack_with_shape_agrees_with_the_product_rule() {
    for a in 0..5usize {
        for b in 0..5usize {
            for offset in -2i64..3 {
                let dims = vec![a, b];
                let count = ((a * b) as i64 + offset).max(0) as usize;
                let expected = a > 0 && b > 0 && a * b == count;
                assert_eq!(stack_with_shape(count, &dims), expected, "{dims:?} {count}");
            }
        }
    }
}

#[test]
fn the_elements_of_a_shape_are_counted_as_far_as_they_can_be() {
    assert_eq!(element_count(&vec![]), Some(1));
    assert_eq!(element_count(&vec![3, 4, 5]), Some(60));
    assert_eq!(element_count(&vec![usize::MAX, 2]), None);
    let shape = vec![Some(2), Some(3)];
    assert!(assert_vcount(Some(&shape), 1, 6));
    assert!(!assert_vcount(Some(&shape), 1, 5));
    assert!(assert_vcount(None, 4, 4));
    assert!(!assert_vcount(None, 4, 3));
}

#[test]
fn a_list_of_ids_outgrows_its_inline_room() {
    let mut list = IdList::new();
    for id in 0..9 {
        list.push(id * 3);
    }
    assert_eq!(list.len(), 9);
    assert_eq!((0..9).map(|at| list.get(at)).collect::<Vec<usize>>(), [0, 3, 6, 9, 12, 15, 18, 21, 24]);
    assert!(list.contains(24) && !list.contains(25));
    assert!(list.same(&IdList::from_slice(&[0, 3, 6, 9, 12, 15, 18, 21, 24])));
    assert!(!list.same(&IdList::from_slice(&[0, 3, 6])));
}

#[test]
fn numbers_are_read_and_written_in_decimal() {
    let mut text = String::new();
    push_text(&mut text, "r_");
    for n in [0, 7, 10, 1024, u64::MAX] {
        push_decimal(&mut text, n);
        push_text(&mut text, " ");
    }
    assert_eq!(text, "r_0 7 10 1024 18446744073709551615 ");
    assert!(same_text("auto", "auto") && !same_text("auto", "autos"));
    assert_eq!(parse_unsigned("18446744073709551615"), Some(u64::MAX));
    assert_eq!(parse_unsigned("18446744073709551616"), None);
    assert_eq!(parse_unsigned("+12"), "+12".parse().ok());
    for text in ["", "-1", "1 ", "x", "+", "-"] {
        assert_eq!(parse_unsigned(text), text.parse().ok(), "{text}");
        assert_eq!(parse_signed(text), text.parse().ok(), "{text}");
    }
    assert_eq!(parse_signed("-9223372036854775808"), Some(i64::MIN));
    assert_eq!(parse_signed("9223372036854775808"), None);
}
