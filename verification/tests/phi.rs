//! Values of a loop that are used after it.

use std::collections::{HashMap, HashSet};

use svod_schedule::builders::TWO;
use svod_schedule::graph::{AxisType, BinaryOp, ConstValue, DType, Graph, Op, ReduceOp};
use svod_schedule::phi::{
    check_phi_dominance, inherited_deps, require_open, tree_scope_message,
};

#[test]
fn the_oracle_reports_closed_loop_uses() {
    for through_after in [false, true] {
        let mut graph = Graph::new();
        let range = graph.range(4, AxisType::Loop, 0);
        let inside = graph.cast(range, DType::Float32);
        let end = graph.end(inside, &[range]);
        let tail = if through_after {
            graph.after(inside, &[end])
        } else {
            let two = graph.constant(ConstValue::Float(TWO), DType::Float32);
            graph.alu(BinaryOp::Add, inside, two)
        };
        let result = check_phi_dominance(&graph, &[range, inside, end, tail]);
        if through_after {
            assert_eq!(result, Ok(()), "the value passes the end of the loop");
        } else {
            let error = result.expect_err("a use after the end must fail");
            assert!(error.contains("closed range"), "{error}");
            assert_eq!(
                error,
                format!("phi-dominance violation at [3]: Binary depends on closed range {range}")
            );
        }
    }
}

#[test]
fn an_end_of_a_closed_loop_is_reported() {
    let mut graph = Graph::new();
    let (first, second) = (graph.range(4, AxisType::Loop, 0), graph.range(4, AxisType::Loop, 1));
    let inside = graph.cast(first, DType::Float32);
    let end = graph.end(inside, &[first]);
    let late = graph.end(inside, &[second]);
    assert_eq!(
        check_phi_dominance(&graph, &[first, second, inside, end, late]),
        Err(format!("END at [4] depends on closed range {first}"))
    );
}

#[test]
fn a_dependency_has_to_be_open() {
    let set = |ids: &[usize]| ids.iter().copied().collect::<HashSet<usize>>();
    assert_eq!(require_open(&set(&[1, 2]), &set(&[1, 2, 3]), 0, "END"), Ok(()));
    assert_eq!(require_open(&set(&[]), &set(&[]), 0, "END"), Ok(()));
    assert_eq!(
        require_open(&set(&[7]), &set(&[1]), 12, "AFTER"),
        Err("AFTER at [12] depends on closed range 7".to_string())
    );
}

#[test]
fn dependencies_come_from_the_sources() {
    let mut graph = Graph::new();
    let (a, b) = (graph.range(4, AxisType::Loop, 0), graph.range(4, AxisType::Loop, 1));
    let sum = graph.alu(BinaryOp::Add, a, b);
    let mut deps: HashMap<usize, HashSet<usize>> = HashMap::new();
    deps.insert(a, HashSet::from([a]));
    deps.insert(b, HashSet::from([b]));
    assert_eq!(inherited_deps(&deps, &graph, sum), HashSet::from([a, b]));
}

/// A product of matrices, with the least of each row if asked for.
fn build_matmul(graph: &mut Graph, n: i64, k: i64, d: i64, min_over_k: bool) -> usize {
    let rows = graph.range(n, AxisType::Global, 0);
    let columns = graph.range(k, AxisType::Global, 1);
    let depth = graph.range(d, AxisType::Reduce, 2);
    let row = graph.cast(rows, DType::BFloat16);
    let column = graph.cast(columns, DType::BFloat16);
    let inner = graph.cast(depth, DType::BFloat16);
    let left = graph.alu(BinaryOp::Add, row, inner);
    let right = graph.alu(BinaryOp::Add, inner, column);
    let product = graph.alu(BinaryOp::Mul, left, right);
    let matmul = graph.reduce(product, &[depth], ReduceOp::Add);
    if min_over_k {
        let least = graph.reduce(matmul, &[columns], ReduceOp::Min);
        graph.sink(&[least, rows])
    } else {
        graph.sink(&[matmul, rows, columns])
    }
}

#[test]
fn a_matmul_keeps_its_scopes() {
    for min_over_k in [false, true] {
        let mut graph = Graph::new();
        let sink = build_matmul(&mut graph, 64, 1024, 64, min_over_k);
        assert_eq!(graph.check_tree_scope(sink), Ok(()));
        let walk = graph.toposort(sink);
        assert_eq!(check_phi_dominance(&graph, &walk), Ok(()));
    }
}

#[test]
fn an_end_that_names_an_expression_leaves_its_loop_open() {
    let mut graph = Graph::new();
    let outer = graph.range(4, AxisType::Loop, 0);
    let inner = graph.range(8, AxisType::Loop, 1);
    let sum = graph.alu(BinaryOp::Add, outer, inner);
    let end = graph.end(sum, &[sum]);
    let found = graph.check_tree_scope(end).expect_err("the loops are not named");
    assert_eq!((found.producer, found.consumer), (sum, end));
    assert!(found.range == outer || found.range == inner);
    assert_eq!(graph.scope_list(sum), vec![outer, inner]);
    assert!(graph.scope_list(end).is_empty());
    assert_eq!(
        tree_scope_message(&graph, found),
        format!(
            "tree-scope violation: Binary (scope={{{outer}, {inner}}}) -> End (scope={{}}) does \
             not end range {}",
            found.range
        )
    );
}

#[test]
fn an_end_closes_only_the_ranges_it_names() {
    let mut graph = Graph::new();
    let closed = graph.range(16, AxisType::Local, 0);
    let open = graph.range(32, AxisType::Local, 1);
    let sum = graph.alu(BinaryOp::Add, closed, open);
    let end = graph.end(sum, &[closed]);
    let five = graph.index_const(5);
    let shifted = graph.alu(BinaryOp::Add, open, five);
    let downstream = graph.after(shifted, &[end]);
    let rows = graph.scopes();
    assert!(!rows[downstream][closed], "the ended range leaves scope");
    assert!(rows[downstream][open], "its sibling stays");
    assert!(graph.toposort(downstream).contains(&closed), "but it can still be reached");
    assert_eq!(graph.ended_ranges(end), [closed]);
}

#[test]
fn an_index_only_holds_the_ranges_it_addresses_with() {
    let mut graph = Graph::new();
    let addressed = graph.range(16, AxisType::Local, 0);
    let unused = graph.range(16, AxisType::Local, 1);
    let param = graph.leaf(Op::Param { slot: 0, addrspace: None }, DType::Float32);
    let index = graph.binary(Op::Index, DType::Float32, param, addressed);
    let rows = graph.scopes();
    assert!(rows[index][addressed]);
    assert!(!rows[index][unused]);
}
