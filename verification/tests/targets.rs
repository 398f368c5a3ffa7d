//! Types that targets do not have.

use svod_schedule::decomps::{get_dtype_decomps, Decomp, Target};
use svod_schedule::graph::{ConstValue, DType, Graph};

fn decomps(list: &[(DType, DType)]) -> Vec<Decomp> {
    list.iter().map(|&(from, to)| Decomp { from, to }).collect()
}

#[test]
fn dtype_decomposition_mapping_is_target_sensitive() {
    let one = ConstValue::Float(1f64.to_bits());
    let values = [
        (DType::FP8E4M3, one),
        (DType::FP8E4M3FNUZ, one),
        (DType::FP8E5M2, one),
        (DType::FP8E5M2FNUZ, one),
        (DType::Float16, one),
        (DType::BFloat16, one),
        (DType::Int64, ConstValue::Int(1)),
        (DType::UInt64, ConstValue::UInt(1)),
    ];
    let mut graph = Graph::new();
    let list: Vec<usize> =
        values.iter().map(|&(dtype, value)| graph.constant(value, dtype)).collect();
    let sink = graph.sink(&list);
    let half = decomps(&[
        (DType::FP8E4M3, DType::Float16),
        (DType::FP8E5M2, DType::Float16),
        (DType::FP8E4M3FNUZ, DType::Float16),
        (DType::FP8E5M2FNUZ, DType::Float16),
    ]);
    let fnuz = decomps(&[
        (DType::FP8E4M3FNUZ, DType::Float16),
        (DType::FP8E5M2FNUZ, DType::Float16),
    ]);
    let browser = decomps(&[
        (DType::Int64, DType::Int32),
        (DType::FP8E4M3, DType::Float32),
        (DType::FP8E5M2, DType::Float32),
        (DType::Float16, DType::Float32),
        (DType::BFloat16, DType::Float32),
        (DType::FP8E4M3FNUZ, DType::Float32),
        (DType::FP8E5M2FNUZ, DType::Float32),
    ]);
    for (target, expected) in [
        (Target::Cpu, &half),
        (Target::Gfx942, &fnuz),
        (Target::Gfx950, &fnuz),
        (Target::Gfx1151, &half),
        (Target::WebGpu, &browser),
    ] {
        assert_eq!(&get_dtype_decomps(&graph, sink, target), expected, "{target:?}");
    }
}

#[test]
fn only_types_that_occur_are_replaced() {
    let mut graph = Graph::new();
    let long = graph.constant(ConstValue::Int(1), DType::Int64);
    let sink = graph.sink(&[long]);
    let expected = decomps(&[(DType::Int64, DType::Int32)]);
    assert_eq!(get_dtype_decomps(&graph, sink, Target::WebGpu), expected);
    assert_eq!(get_dtype_decomps(&graph, sink, Target::Cpu), vec![]);
}
