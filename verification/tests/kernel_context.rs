use svod_schedule::context::{LocalAddBufferContext, RangeifyBufferContext};

/// The counters are disjoint: global, local, range and `lunique` slots each
/// advance on their own, and the graph seeds only the `lunique` one.
#[test]
fn the_counters_are_independent_and_the_lunique_seed_moves_one() {
    let mut ctx = RangeifyBufferContext::new();
    assert_eq!((ctx.global_counter, ctx.local_counter, ctx.range_counter), (0, 0, 0));
    assert_eq!([ctx.next_global(), ctx.next_global(), ctx.next_global()], [0, 1, 2]);
    assert_eq!([ctx.next_local(), ctx.next_local()], [0, 1]);
    assert_eq!([ctx.next_range()], [0]);
    assert_eq!((ctx.global_counter, ctx.local_counter, ctx.range_counter), (3, 2, 1));
    assert_eq!([ctx.next_lunique(), ctx.next_lunique()], [0, 1]);

    let mut seeded = RangeifyBufferContext::with_lunique_start(7);
    assert_eq!([seeded.next_lunique(), seeded.next_lunique()], [7, 8]);
    assert_eq!(seeded.global_counter, 0, "the seed only moves the lunique counter");
}

#[test]
fn a_mapped_buffer_reads_back_by_uop_identity() {
    let mut ctx = RangeifyBufferContext::new();
    let (original, replacement) = (4, 9);

    assert!(!ctx.has_buffer(original));
    ctx.map_buffer(original, replacement);

    assert_eq!(ctx.get_buffer(original).expect("mapped"), replacement);
    assert_eq!(ctx.get_buffer(replacement), None);
}

/// A tracked var keeps its node and bound value; a name binds once, so rebinding
/// replaces the entry rather than appending and the latest value wins.
#[test]
fn tracked_vars_keep_one_latest_valued_entry_per_name() {
    let mut ctx = RangeifyBufferContext::new();
    let var = 3;

    assert_eq!(ctx.vars.len(), 0);
    ctx.add_var(var, Some("test_var".to_string()), Some(1));
    ctx.add_var(var, Some("test_var".to_string()), Some(5));

    let (stored_node, stored_val) = ctx.vars.get("test_var").expect("tracked");
    assert_eq!(*stored_node, var);
    assert_eq!(*stored_val, Some(5));
    assert_eq!(ctx.vars.len(), 1);
}

/// The per-kernel context keeps binding order: rebinding a name takes the old entry out
/// and appends the new one, so each name occupies exactly one, latest-valued slot.
#[test]
fn local_add_var_appends_one_entry_per_name() {
    let mut ctx = LocalAddBufferContext::new();
    let (var, first, second) = (0, 1, 2);

    ctx.add_var(first, var, Some("x".to_string()), Some(1));
    ctx.add_var(second, var, Some("x".to_string()), Some(2));

    assert_eq!(ctx.vars.len(), 1);
    let bound = ctx.vars.iter().next().expect("one entry");
    assert_eq!(bound.value, Some(2));
    assert_eq!(bound.binding, second, "the newest binding is the one that survives");
}

#[test]
fn rebinding_keeps_the_order_of_the_others() {
    let mut ctx = LocalAddBufferContext::new();
    for (binding, name) in [(1, "a"), (2, "b"), (3, "c"), (4, "a")] {
        ctx.add_var(binding, 0, Some(name.to_string()), None);
    }
    let order: Vec<(usize, &str)> = ctx.vars.iter().map(|bound| (bound.binding, bound.name.as_str())).collect();
    assert_eq!(order, [(2, "b"), (3, "c"), (4, "a")]);
}

/// A var with no name is not part of the launch ABI and is not tracked, in
/// either context.
#[test]
fn an_anonymous_var_is_not_tracked() {
    let mut ctx = RangeifyBufferContext::new();
    ctx.add_var(0, None, Some(3));
    assert_eq!(ctx.vars.len(), 0);

    let mut local = LocalAddBufferContext::new();
    local.add_var(0, 1, None, Some(3));
    assert!(local.vars.is_empty());
}
