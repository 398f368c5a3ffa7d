use svod_schedule::builders::{counted, loop_, ONE};
use svod_schedule::cfg::CFGContext;
use svod_schedule::graph::{BinaryOp, ConstValue, DType, Graph};

fn one(graph: &mut Graph) -> usize {
    graph.constant(ConstValue::Float(ONE), DType::Float32)
}

/// Ranges closed by the same END are not chained: predecessor edges only come from loops
/// that actually follow one another, so the first loop of a group has no predecessor.
#[test]
fn ranges_closed_by_one_end_have_no_predecessor_edges() {
    for count in [1usize, 2] {
        let mut graph = Graph::new();
        let ranges: Vec<usize> = (0..count).map(|axis| graph.global_range(10, axis)).collect();
        let value = one(&mut graph);
        let end = loop_(&mut graph, value, &ranges);
        let sink = graph.sink(&[end]);
        let ctx = CFGContext::new(&graph, sink);
        assert!(!ctx.has_edges());
        assert_eq!(ctx.edge_count(), 0);
        assert!(ranges.iter().all(|range| ctx.get_predecessor(*range).is_none()));
    }
}

/// The positive path: the second sibling RANGE must wait for the first sibling's END.
#[test]
fn a_second_sibling_range_waits_for_the_first_end() {
    let mut graph = Graph::new();
    let (first, second) = (graph.global_range(10, 0), graph.global_range(10, 1));
    let first_end = counted(&mut graph, first);
    let second_end = counted(&mut graph, second);
    let sink = graph.sink(&[first_end, second_end]);
    let ctx = CFGContext::new(&graph, sink);
    assert_eq!(ctx.edge_count(), 1);
    assert!(ctx.has_edges());
    assert_eq!(ctx.get_predecessor(second).expect("the second sibling must be ordered"), first_end);
    assert!(ctx.get_predecessor(first).is_none(), "the first sibling starts the group");
}

/// Siblings are ordered by how many of the other siblings they depend on, not by toposort
/// order: `dependent` closes `base` yet must still follow the independent sibling.
#[test]
fn sibling_edges_follow_dependency_count_not_toposort_order() {
    let mut graph = Graph::new();
    let (base_range, dependent_range, independent_range) =
        (graph.global_range(10, 0), graph.global_range(10, 1), graph.global_range(10, 2));
    let base = counted(&mut graph, base_range);
    let dependent = loop_(&mut graph, base, &[dependent_range]);
    let independent = counted(&mut graph, independent_range);
    let sink = graph.sink(&[base, dependent, independent]);
    let ctx = CFGContext::new(&graph, sink);
    assert_eq!(ctx.edge_count(), 2);
    assert_eq!(ctx.get_predecessor(independent_range).expect("independent follows base"), base);
    let after_independent = ctx.get_predecessor(dependent_range).expect("dependent must follow independent");
    assert_eq!(after_independent, independent);
    assert!(ctx.get_predecessor(base_range).is_none());
}

/// An END nested inside another END is not a sibling of its parent: its RANGE waits for the
/// parent's RANGE, and the parent keeps no predecessor.
#[test]
fn an_inner_range_waits_for_its_parent_range() {
    let mut graph = Graph::new();
    let (inner_range, outer_range) = (graph.global_range(10, 0), graph.global_range(10, 1));
    let value = one(&mut graph);
    let outer_value = graph.cast(outer_range, DType::Float32);
    let body = graph.alu(BinaryOp::Add, value, outer_value);
    let inner_end = loop_(&mut graph, body, &[inner_range]);
    let outer_end = loop_(&mut graph, inner_end, &[outer_range]);
    let sink = graph.sink(&[outer_end]);
    let ctx = CFGContext::new(&graph, sink);
    assert_eq!(ctx.edge_count(), 1);
    let inner_predecessor = ctx.get_predecessor(inner_range).expect("the inner loop waits for its parent");
    assert_eq!(inner_predecessor, outer_range);
    assert!(ctx.get_predecessor(outer_range).is_none(), "the parent is not a sibling of its own body");
}

/// An edge that would close a cycle is malformed input: the predecessor's subtree already
/// contains the RANGE the later sibling closes.
#[test]
fn an_edge_that_would_close_a_cycle_is_rejected() {
    let mut graph = Graph::new();
    let (closed, consumed) = (graph.global_range(10, 0), graph.global_range(10, 1));
    let value = one(&mut graph);
    let read = graph.cast(consumed, DType::Float32);
    let body = graph.alu(BinaryOp::Add, value, read);
    let first = loop_(&mut graph, body, &[closed]);
    let second = counted(&mut graph, consumed);
    let sink = graph.sink(&[first, second]);
    let error = match CFGContext::try_new(&graph, sink) {
        Ok(_) => panic!("the edge would create cycle"),
        Err(error) => error,
    };
    assert_eq!((error.range, error.predecessor), (consumed, first));
}

/// A dependent loop runs after what it depends on, whatever the order of the sources.
#[test]
fn dependent_loops_run_later() {
    let mut graph = Graph::new();
    let (base_range, dependent_range) = (graph.global_range(10, 0), graph.global_range(10, 1));
    let base = counted(&mut graph, base_range);
    let dependent = loop_(&mut graph, base, &[dependent_range]);
    let sink = graph.sink(&[dependent, base]);
    let ctx = CFGContext::new(&graph, sink);
    assert_eq!(ctx.get_predecessor(dependent_range), Some(base));
    assert_eq!(ctx.get_predecessor(base_range), None);
}
