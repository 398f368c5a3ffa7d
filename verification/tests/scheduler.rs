//! Axes, the optimizations that change them, and the names that list them.

use svod_schedule::graph::AxisType;
use svod_schedule::graph::AxisType::{
    Global, GroupReduce, Local, Loop, Reduce, Thread, Unroll, Upcast, Weak,
};
use svod_schedule::heuristics::{
    apply_default_upcast, apply_opts, apply_threading, chosen_opts,
};
use svod_schedule::kernel_info::KernelInfo;
use svod_schedule::kernel_shape::KernelNames;
use svod_schedule::naming::{finalize_kernel_name, KernelNaming};
use svod_schedule::opts::{Opt, OptOps};
use svod_schedule::scheduler::{
    apply_opt, Axis, Body, Extent, Feature, Limit, OptError, Reduction, Refusal, Renderer,
    Scheduler,
};

fn cpu() -> Renderer {
    Renderer {
        has_local: false,
        has_shared: false,
        shared_max: 0,
        upcast_max: 16,
        unroll_max: 32,
        threads: Some(64),
    }
}

fn cuda() -> Renderer {
    Renderer {
        has_local: true,
        has_shared: true,
        shared_max: 49152,
        upcast_max: 16,
        unroll_max: 32,
        threads: None,
    }
}

fn body(reduces: bool) -> Body {
    let reduction = if reduces { Reduction::Single } else { Reduction::Elementwise };
    Body { reduction, item_size: 4, multi_index: false }
}

fn axes(list: &[(usize, AxisType)]) -> Vec<Axis> {
    list.iter()
        .enumerate()
        .map(|(id, &(extent, kind))| Axis { id, kind, extent: Extent::Const(extent) })
        .collect()
}

fn scheduled(list: &[(usize, AxisType)], reduces: bool, renderer: Renderer) -> Scheduler {
    Scheduler::new(&axes(list), body(reduces), vec![], renderer)
}

fn symbolic(factor: usize, max: usize, kind: AxisType, renderer: Renderer) -> Scheduler {
    let axis = Axis { id: 0, kind, extent: Extent::Symbolic { factor, max } };
    Scheduler::new(&vec![axis], body(false), vec![], renderer)
}

fn kinds(scheduler: &Scheduler) -> Vec<AxisType> {
    scheduler.rngs().iter().map(|axis| axis.kind).collect()
}

fn ids(scheduler: &Scheduler) -> Vec<usize> {
    scheduler.rngs().iter().map(|axis| axis.id).collect()
}

fn extents(scheduler: &Scheduler) -> Vec<usize> {
    scheduler
        .rngs()
        .iter()
        .map(|axis| match axis.extent {
            Extent::Const(n) => n,
            Extent::Symbolic { max, .. } => max,
        })
        .collect()
}

fn apply(scheduler: &mut Scheduler, opt: &Opt) {
    assert_eq!(apply_opt(scheduler, opt, true), Ok(()), "{opt:?}");
}

fn apply_err(scheduler: &mut Scheduler, opt: &Opt) -> OptError {
    let before = (kinds(scheduler), ids(scheduler), extents(scheduler));
    let opts = scheduler.applied_opts.clone();
    let error = apply_opt(scheduler, opt, false).expect_err("must fail");
    assert_eq!((kinds(scheduler), ids(scheduler), extents(scheduler)), before);
    assert_eq!(scheduler.applied_opts, opts, "a failing optimization changes nothing");
    error
}

fn refused(op: OptOps, reason: Refusal) -> OptError {
    OptError::ValidationFailed { op, reason }
}

#[test]
fn test_scheduler_new() {
    let scheduler = Scheduler::new(&vec![], body(false), vec![], cpu());
    assert!(scheduler.applied_opts.is_empty());
    assert!(!scheduler.dont_use_locals);
    assert_eq!(scheduler.shape_len(), 0);
}

#[test]
fn test_scheduler_rngs() {
    let scheduler = scheduled(&[(16, Global), (8, Local), (32, Reduce), (4, Loop)], false, cpu());
    assert_eq!(scheduler.rngs().len(), 4);
    assert_eq!(scheduler.shape_len(), 4);
    assert_eq!(kinds(&scheduler), [Loop, Global, Local, Reduce]);

    let scheduler = scheduled(&[(1, Global), (16, Global), (1, Reduce)], true, cpu());
    assert_eq!(scheduler.shape_len(), 1, "axes of one step are not scheduled");
    assert_eq!(kinds(&scheduler), [Global]);
}

#[test]
fn test_scheduler_maxarg() {
    let list = vec![
        Axis { id: 5, kind: Loop, extent: Extent::Const(10) },
        Axis { id: 2, kind: Global, extent: Extent::Const(20) },
        Axis { id: 10, kind: Reduce, extent: Extent::Const(30) },
    ];
    assert_eq!(Scheduler::new(&list, body(false), vec![], cpu()).maxarg(), 10);
}

#[test]
fn test_scheduler_helper_properties() {
    let scheduler = scheduled(&[(16, Global), (8, Local), (32, Reduce)], true, cpu());
    assert_eq!(scheduler.output_shape(), vec![16, 8], "the reduced axis is dropped");
    assert_eq!(scheduler.full_shape(), vec![16, 8, 32]);
    assert_eq!(scheduler.upcast_size(), 1);
    assert!(!scheduler.upcasted());
    assert_eq!(scheduler.group_for_reduces(), 0);
}

#[test]
fn test_scheduler_upcast_size() {
    let scheduler = scheduled(&[(4, Upcast), (8, Unroll), (16, Global)], false, cpu());
    assert_eq!(scheduler.upcast_size(), 32);
    assert!(scheduler.upcasted());
    let scheduler = scheduled(&[(4, Unroll)], false, cpu());
    assert_eq!(scheduler.upcast_size(), 4);
    assert!(scheduler.upcasted());
}

#[test]
fn test_scheduler_dim_queries() {
    let scheduler = scheduled(&[(16, Global), (32, Weak), (16, Reduce), (1, Global)], false, cpu());
    assert_eq!(scheduler.upcastable_dims(), [0, 1]);
    assert_eq!(scheduler.unrollable_dims(), [2]);
    assert_eq!(scheduler.group_for_reduces(), 0);

    let scheduler = scheduled(&[(16, Global), (32, Reduce), (16, Reduce), (1, Reduce)], true, cpu());
    assert_eq!(scheduler.upcastable_dims(), [0]);
    assert_eq!(scheduler.unrollable_dims(), [1, 2]);

    let scheduler = scheduled(&[(16, GroupReduce), (32, Reduce)], false, cpu());
    assert!(scheduler.upcastable_dims().is_empty());
    assert_eq!(scheduler.unrollable_dims(), [0, 1]);
    assert_eq!(scheduler.group_for_reduces(), 1);
}

#[test]
fn test_scheduler_axes_of() {
    let scheduler = scheduled(&[(16, Global), (8, Local), (32, Reduce)], false, cpu());
    assert_eq!(scheduler.axes_of(&vec![Global]), vec![0]);
    assert_eq!(scheduler.axes_of(&vec![Reduce]), vec![2]);
    assert_eq!(scheduler.axes_of(&vec![Upcast, Local]), vec![1]);
    assert_eq!(scheduler.rngs()[2].kind, Reduce);
}

#[test]
fn test_scheduler_symbolic_extents_are_unknown() {
    let list = vec![
        Axis { id: 0, kind: Global, extent: Extent::Symbolic { factor: 1, max: 64 } },
        Axis { id: 1, kind: Global, extent: Extent::Const(16) },
    ];
    let scheduler = Scheduler::new(&list, body(false), vec![], cpu());
    assert_eq!(scheduler.colored_shape(), "g?g16");
    assert_eq!(scheduler.shape_str().join(","), "g?,g16");
    assert_eq!(scheduler.full_shape(), vec![-1, 16], "a symbolic extent is -1");
    assert_eq!(scheduler.output_shape(), vec![16], "a symbolic extent is not an output size");
    assert_eq!(scheduler.upcastable_dims(), vec![1], "a symbolic extent is not upcastable");
}

#[test]
fn test_scheduler_real_axis_maps_logical_to_physical() {
    let list = [(16, Global), (16, Loop), (32, Reduce), (16, Reduce)];
    let scheduler = scheduled(&list, true, cpu());
    for (op, axis, expected) in [
        (OptOps::UPCAST, Some(1), 1),
        (OptOps::LOCAL, Some(0), 0),
        (OptOps::UNROLL, Some(0), 2),
        (OptOps::UNROLL, Some(1), 3),
        (OptOps::GROUP, Some(0), 2),
        (OptOps::GROUPTOP, Some(1), 3),
        (OptOps::TC, None, -1),
        (OptOps::NOLOCALS, None, -1),
    ] {
        let found = scheduler.real_axis(op, axis).expect("in range");
        assert_eq!(found.map_or(-1, |k| k as isize), expected, "{op:?}");
    }
}

#[test]
fn test_scheduler_real_axis_rejects_out_of_bounds() {
    let scheduler = scheduled(&[(16, Global), (32, Reduce)], true, cpu());
    for (op, axis, len) in [(OptOps::UPCAST, 10, 2), (OptOps::UNROLL, 5, 1), (OptOps::GROUP, 9, 1)] {
        assert_eq!(
            scheduler.real_axis(op, Some(axis)),
            Err(OptError::AxisOutOfBounds { axis, len })
        );
    }
}

#[test]
fn test_scheduler_real_axis_requires_axis() {
    let scheduler = scheduled(&[(16, Global)], false, cpu());
    for op in [OptOps::UPCAST, OptOps::UNROLL, OptOps::GROUP, OptOps::GROUPTOP, OptOps::THREAD] {
        assert_eq!(scheduler.real_axis(op, None), Err(OptError::MissingAxisParameter));
    }
}

#[test]
fn test_scheduler_colored_shape_and_display() {
    let cases: [(&[(usize, AxisType)], bool, &str, &str); 3] = [
        (&[(16, Global), (8, Local), (32, Reduce), (4, Upcast)], true, "g16l8u4R32", "r"),
        (&[(256, Global), (256, Global)], false, "g256g256", "E"),
        (
            &[(2, Loop), (32, Global), (16, Local), (32, Reduce), (4, Upcast), (8, Unroll)],
            true,
            "L2g32l16u4R32r8",
            "r",
        ),
    ];
    for (list, reduces, colored, kernel_type) in cases {
        let scheduler = scheduled(list, reduces, cpu());
        assert_eq!(scheduler.colored_shape(), colored);
        assert_eq!(scheduler.shape_str().concat(), colored);
        assert_eq!(scheduler.kernel_type().to_string(), kernel_type);
        assert_eq!(scheduler.to_text(), format!("{kernel_type}_{colored}"));
    }
}

#[test]
fn test_shift_to_basic_split() {
    let mut scheduler = scheduled(&[(16, Global)], false, cpu());
    assert_eq!((scheduler.shape_len(), scheduler.maxarg()), (1, 0));
    let (replaced, new) = scheduler.shift_to(0, 4, Upcast).expect("16 % 4 == 0");
    assert_eq!(replaced, Axis { id: 0, kind: Global, extent: Extent::Const(4) });
    assert_eq!(new, Axis { id: 1, kind: Upcast, extent: Extent::Const(4) });
    assert_eq!((scheduler.shape_len(), scheduler.maxarg()), (2, 1));
}

#[test]
fn test_shift_to_rejects_indivisible() {
    let mut scheduler = scheduled(&[(15, Global)], false, cpu());
    assert_eq!(
        scheduler.shift_to(0, 4, Upcast),
        Err(OptError::DivisionError { size: 15, amount: 4 })
    );
    let mut scheduler = symbolic(3, 192, Global, cpu());
    assert_eq!(
        scheduler.shift_to(0, 2, Upcast),
        Err(OptError::SymbolicDivisionError { amount: 2 })
    );
}

#[test]
fn test_shift_to_symbolic_exact_division() {
    let mut scheduler = symbolic(2, 128, Global, cpu());
    let (replaced, _) = scheduler.shift_to(0, 2, Upcast).expect("V*2 divides by 2");
    assert_eq!(replaced.extent, Extent::Symbolic { factor: 1, max: 64 });
    assert_eq!(scheduler.shape_len(), 2);
}

#[test]
fn test_shift_to_multiple_splits() {
    let mut scheduler = scheduled(&[(64, Global)], false, cpu());
    scheduler.shift_to(0, 4, Upcast).expect("64 % 4 == 0");
    assert_eq!((scheduler.shape_len(), scheduler.maxarg()), (2, 1));
    scheduler.shift_to(0, 2, Local).expect("16 % 2 == 0");
    assert_eq!((scheduler.shape_len(), scheduler.maxarg()), (3, 2));
    assert_eq!(scheduler.rngs().len(), 3);
}

#[test]
fn shift_to_split_law() {
    for quotient in [2, 3, 7, 100, 1023] {
        for amount in 2..=16 {
            let mut scheduler = scheduled(&[(quotient * amount, Global)], false, cpu());
            let before = scheduler.maxarg();
            let (replaced, new) = scheduler.shift_to(0, amount, Upcast).expect("divisible");
            assert_eq!(replaced, Axis { id: 0, kind: Global, extent: Extent::Const(quotient) });
            assert_eq!(
                new,
                Axis { id: before + 1, kind: Upcast, extent: Extent::Const(amount) }
            );
            assert_eq!(scheduler.shape_len(), 2);
            assert_eq!(scheduler.maxarg(), before + 1);
            let steps: usize = extents(&scheduler).iter().product();
            assert_eq!(steps, quotient * amount, "a split keeps the work");
        }
    }
}

#[test]
fn test_apply_opt_lands_the_axes() {
    let cases = [
        (scheduled(&[(16, Global)], false, cpu()), Opt::upcast(0, 4), vec![Global, Upcast]),
        (scheduled(&[(64, Global)], false, cuda()), Opt::local(0, 8), vec![Global, Local]),
        (scheduled(&[(64, Reduce)], true, cuda()), Opt::group(0, 8), vec![GroupReduce, Reduce]),
        (scheduled(&[(64, Weak)], false, cpu()), Opt::thread(0, 8), vec![Weak, Thread]),
    ];
    for (mut scheduler, opt, expected) in cases {
        apply(&mut scheduler, &opt);
        assert_eq!(scheduler.applied_opts, [opt]);
        assert_eq!(kinds(&scheduler), expected);
        assert_eq!(scheduler.shape_len(), 2);
    }
}

#[test]
fn test_apply_opt_rejects() {
    let reduced = |renderer: Renderer| scheduled(&[(64, Reduce)], true, renderer);
    let limit = |limit: Limit, value: usize, max: usize| OptError::DeviceLimitExceeded {
        limit,
        value,
        max,
    };
    let missing = |feature: Feature| OptError::UnsupportedFeature { feature };

    let mut s = scheduled(&[(32, Reduce)], true, cpu());
    assert_eq!(apply_err(&mut s, &Opt::upcast(0, 4)), refused(OptOps::UPCAST, Refusal::UpcastKind));
    let mut s = scheduled(&[(256, Global)], false, cpu());
    assert_eq!(apply_err(&mut s, &Opt::upcast(0, 32)), limit(Limit::Upcast, 32, 16));
    let mut s = scheduled(&[(64, Global)], false, cpu());
    assert_eq!(apply_err(&mut s, &Opt::local(0, 8)), missing(Feature::LocalMemory));
    let mut s = scheduled(&[(32, Reduce)], true, cuda());
    assert_eq!(apply_err(&mut s, &Opt::local(0, 4)), refused(OptOps::LOCAL, Refusal::LocalKind));
    let mut s = scheduled(&[(32, Reduce)], true, cpu());
    assert_eq!(
        apply_err(&mut s, &Opt::unroll(1, 4)),
        OptError::AxisOutOfBounds { axis: 1, len: 1 }
    );
    let mut s = scheduled(&[(128, Reduce)], true, cpu());
    assert_eq!(apply_err(&mut s, &Opt::unroll(0, 64)), limit(Limit::Unroll, 64, 32));
    assert_eq!(apply_err(&mut reduced(cpu()), &Opt::group(0, 8)), missing(Feature::LocalMemory));
    let unshared = Renderer { has_shared: false, ..cuda() };
    assert_eq!(
        apply_err(&mut reduced(unshared), &Opt::group(0, 8)),
        missing(Feature::SharedMemory)
    );
    let mut s = reduced(cuda());
    s.applied_opts.push(Opt { op: OptOps::TC, axis: None, arg: Some(0) });
    assert_eq!(apply_err(&mut s, &Opt::group(0, 8)), refused(OptOps::GROUP, Refusal::TensorCores));
    let nested = Body { reduction: Reduction::Nested, item_size: 4, multi_index: false };
    let mut s = Scheduler::new(&axes(&[(64, Reduce), (64, Reduce)]), nested, vec![], cuda());
    assert_eq!(
        apply_err(&mut s, &Opt::group(0, 8)),
        refused(OptOps::GROUP, Refusal::InnerReduction)
    );
    let small = Renderer { shared_max: 1, ..cuda() };
    assert_eq!(
        apply_err(&mut reduced(small), &Opt::group(0, 8)),
        limit(Limit::SharedMemory, 32, 1)
    );
    let mut s = scheduled(&[(24, Upcast)], false, cpu());
    assert_eq!(apply_err(&mut s, &Opt::padto(0, 32)), refused(OptOps::PADTO, Refusal::PadKind));
    let mut s = scheduled(&[(8, Global)], false, cpu());
    assert_eq!(apply_err(&mut s, &Opt::padto(0, 32)), refused(OptOps::PADTO, Refusal::PadWork));
    let doubled = Body { reduction: Reduction::Elementwise, item_size: 4, multi_index: true };
    let mut s = Scheduler::new(&axes(&[(24, Global)]), doubled, vec![], cpu());
    assert_eq!(
        apply_err(&mut s, &Opt::padto(0, 32)),
        refused(OptOps::PADTO, Refusal::PadMultiIndex)
    );
    let mut s = scheduled(&[(64, Global)], false, cuda());
    apply(&mut s, &Opt::local(0, 8));
    assert_eq!(
        apply_err(&mut s, &Opt::nolocals()),
        refused(OptOps::NOLOCALS, Refusal::LocalsInUse)
    );
    let mut s = scheduled(&[(16, Global), (32, Global)], false, cpu());
    assert_eq!(
        apply_err(&mut s, &Opt::swap(0, 5)),
        OptError::AxisOutOfBounds { axis: 5, len: 2 }
    );
    let mut s = scheduled(&[(16, Global), (32, Reduce)], true, cpu());
    assert_eq!(apply_err(&mut s, &Opt::swap(0, 1)), refused(OptOps::SWAP, Refusal::SwapKind));
    let mut s = scheduled(&[(16, Global)], false, cpu());
    let wrong = Opt { op: OptOps::UPCAST, axis: Some(0), arg: None };
    assert_eq!(apply_err(&mut s, &wrong), OptError::InvalidArgType);
    let single = Renderer { threads: None, ..cpu() };
    let mut s = scheduled(&[(64, Weak)], false, single);
    assert_eq!(apply_err(&mut s, &Opt::thread(0, 8)), missing(Feature::Threads));
    let mut s = scheduled(&[(256, Weak)], false, cpu());
    assert_eq!(apply_err(&mut s, &Opt::thread(0, 128)), limit(Limit::Threads, 128, 64));
    let mut s = scheduled(&[(16, Global)], false, cpu());
    let axisless = Opt { op: OptOps::UPCAST, axis: None, arg: Some(4) };
    assert_eq!(apply_err(&mut s, &axisless), OptError::MissingAxisParameter);
}

#[test]
fn test_upcast_full_axis_amount_zero_resolves_to_the_axis_size() {
    let mut scheduler = scheduled(&[(8, Local)], false, cuda());
    let opt = Opt::upcast(0, 0);
    apply(&mut scheduler, &opt);
    assert_eq!(scheduler.applied_opts, [opt]);
    assert_eq!(scheduler.shape_len(), 1, "the axis of one step that is left is not scheduled");
    assert_eq!(kinds(&scheduler), [Upcast]);
    assert_eq!(extents(&scheduler), [8]);
}

#[test]
fn test_unroll_basic() {
    let mut scheduler = scheduled(&[(32, Reduce)], true, cpu());
    assert_eq!(scheduler.unrollable_dims().len(), 1);
    apply(&mut scheduler, &Opt::unroll(0, 4));
    assert_eq!(scheduler.shape_len(), 2);
    assert_eq!(kinds(&scheduler), [Reduce, Unroll]);
}

#[test]
fn test_apply_opt_multiple_operations() {
    let mut scheduler = scheduled(&[(64, Global), (32, Reduce)], true, cpu());
    let (upcast, unroll) = (Opt::upcast(0, 4), Opt::unroll(0, 8));
    apply(&mut scheduler, &upcast);
    apply(&mut scheduler, &unroll);
    assert_eq!(scheduler.applied_opts, [upcast, unroll]);
    assert_eq!(scheduler.shape_len(), 4);
}

#[test]
fn test_nolocals_basic() {
    let mut scheduler = scheduled(&[(16, Global)], false, cuda());
    apply(&mut scheduler, &Opt::nolocals());
    assert!(scheduler.dont_use_locals);
    let error = apply_err(&mut scheduler, &Opt::local(0, 4));
    assert_eq!(error, refused(OptOps::LOCAL, Refusal::LocalsOff));
}

#[test]
fn test_swap_basic() {
    let mut scheduler = scheduled(&[(16, Global), (32, Global)], false, cpu());
    apply(&mut scheduler, &Opt::swap(0, 1));
    assert_eq!((ids(&scheduler), extents(&scheduler)), (vec![0, 1], vec![32, 16]));
}

#[test]
fn test_swap_square_axes() {
    let mut scheduler = scheduled(&[(16, Global), (16, Global)], false, cpu());
    apply(&mut scheduler, &Opt::swap(0, 1));
    assert_eq!((ids(&scheduler), extents(&scheduler)), (vec![0, 1], vec![16, 16]));
}

#[test]
fn padding_rounds_the_axis_up() {
    let mut scheduler = scheduled(&[(24, Global)], false, cpu());
    let opt = Opt::padto(0, 32);
    apply(&mut scheduler, &opt);
    assert_eq!(scheduler.applied_opts, [opt]);
    assert_eq!(extents(&scheduler), [32], "24 rounds up to 32");
}

#[test]
fn test_padto_rejects_a_symbolic_axis() {
    let mut scheduler = symbolic(1, 64, Global, cpu());
    assert_eq!(scheduler.shape_len(), 1, "a bounded symbolic axis is still scheduled");
    let error = apply_err(&mut scheduler, &Opt::padto(0, 32));
    assert_eq!(error, refused(OptOps::PADTO, Refusal::PadSymbolic));
}

#[test]
fn test_convert_loop_to_global() {
    let mut scheduler = scheduled(&[(16, Weak), (16, Weak)], false, cuda());
    scheduler.convert_loop_to_global();
    assert_eq!(kinds(&scheduler), [Global, Global]);
    let mut scheduler = scheduled(&[(16, Weak)], false, cpu());
    scheduler.convert_loop_to_global();
    assert_eq!(kinds(&scheduler), [Weak], "without local memory the axis stays serial");
}

#[test]
fn test_convert_loop_to_global_leaves_genuine_loop_axes() {
    let mut scheduler = scheduled(&[(16, Weak), (16, Loop)], false, cuda());
    scheduler.convert_loop_to_global();
    assert_eq!(kinds(&scheduler), [Loop, Global]);
    assert_eq!(ids(&scheduler), [1, 0]);
}

#[test]
fn test_globalizable_rngs_require_every_store() {
    let list = axes(&[(64, Weak), (64, Weak)]);
    let mut scheduler = Scheduler::new(&list, body(false), vec![1], cuda());
    assert_eq!(scheduler.globalizable_rngs(), [0]);
    scheduler.convert_loop_to_global();
    assert_eq!(kinds(&scheduler), [Weak, Global]);
    assert_eq!(ids(&scheduler)[1], 0, "the shared axis became parallel");
}

#[test]
fn test_globalizable_rngs_require_a_shared_store() {
    let list = axes(&[(64, Weak), (64, Weak)]);
    let scheduler = Scheduler::new(&list, body(false), vec![0, 1], cpu());
    assert!(scheduler.globalizable_rngs().is_empty(), "no axis appears in both stores");
}

#[test]
fn test_get_optimized_ast_names_the_kernel() {
    let list = [(16, Global), (8, Local), (32, Reduce), (4, Upcast)];
    assert_eq!(scheduled(&list, true, cuda()).kernel_name(&vec![]), "r_16_8_4_32");
    assert_eq!(scheduled(&[(256, Global)], false, cuda()).kernel_name(&vec![]), "E_256");
}

#[test]
fn test_kernel_name_places_special_extents_before_range_extents() {
    let scheduler = scheduled(&[(16, Local)], false, cuda());
    assert_eq!(scheduler.kernel_name(&vec![Extent::Const(8)]), "E_8_16");
}

#[test]
fn test_phase7_integration() {
    let mut scheduler = scheduled(&[(16, Weak), (16, Weak)], false, cuda());
    scheduler.convert_loop_to_global();
    apply(&mut scheduler, &Opt::upcast(0, 4));
    let mut names = KernelNames::new();
    let info = scheduler.get_kernel_info(&vec![], KernelNaming::Unique, &mut names);
    assert_eq!(info.applied_opts, [Opt::upcast(0, 4)]);
}

#[test]
fn test_get_optimized_ast_custom_name_bypasses_the_counter() {
    let scheduler = scheduled(&[(16, Global)], false, cuda());
    let mut names = KernelNames::new();
    let mut named = || {
        let naming = KernelNaming::Custom("custom_kernel".to_string());
        scheduler.get_kernel_info(&vec![], naming, &mut names).name
    };
    assert_eq!(named(), "custom_kernel");
    assert_eq!(named(), "custom_kernel", "an override is not suffixed on reuse");
}

#[test]
fn test_kernel_name_deduplication() {
    let scheduler = scheduled(&[(16, Global)], false, cuda());
    let mut names = KernelNames::new();
    let drawn: Vec<String> = (0..3)
        .map(|_| scheduler.get_kernel_info(&vec![], KernelNaming::Unique, &mut names).name)
        .collect();
    assert_eq!(drawn, ["E_16", "E_16n1", "E_16n2"]);
}

#[test]
fn test_deferred_naming_finalizes_to_the_unique_name() {
    let scheduler = scheduled(&[(4099, Global)], false, cuda());
    let mut names = KernelNames::new();
    let unique = scheduler.get_kernel_info(&vec![], KernelNaming::Unique, &mut names);
    assert_eq!(unique.name, "E_4099");
    let deferred = scheduler.get_kernel_info(&vec![], KernelNaming::Deferred, &mut names);
    assert_eq!(deferred.name, "E_4099");
    let finalized = finalize_kernel_name(&deferred, &mut names);
    assert_eq!(finalized.name, "E_4099n1", "the second draw is one further");
    assert_eq!(finalized.applied_opts, unique.applied_opts);
}

#[test]
fn test_finalize_kernel_name_leaves_a_non_sink_root_structurally_unchanged() {
    let mut names = KernelNames::new();
    let root = KernelInfo::new("NON_SINK_ROOT".to_string(), vec![], false);
    let first = finalize_kernel_name(&root, &mut names);
    let second = finalize_kernel_name(&root, &mut names);
    assert_eq!(first.name, "NON_SINK_ROOT", "the first draw keeps the name");
    assert_eq!(second.name, "NON_SINK_ROOTn1", "further draws are suffixed");
    assert_eq!(root.name, "NON_SINK_ROOT", "the first one keeps what is known of it");
}

#[test]
fn test_authored_kernel_names_go_through_the_counter() {
    let mut names = KernelNames::new();
    assert_eq!(names.draw("authored_kernel_test"), "authored_kernel_test");
    assert_eq!(names.draw("authored_kernel_test"), "authored_kernel_testn1");
    assert_eq!(names.draw("another"), "another", "each name is counted on its own");
}

#[test]
fn test_thread_rejects_second_application() {
    let mut scheduler = scheduled(&[(64, Weak)], false, cpu());
    apply(&mut scheduler, &Opt::thread(0, 8));
    assert!(!scheduler.axes_of(&vec![Thread]).is_empty());
    let error = apply_err(&mut scheduler, &Opt::thread(0, 2));
    assert_eq!(error, refused(OptOps::THREAD, Refusal::AlreadyThreaded));
}

#[test]
fn test_thread_rejects_non_globalizable_axis() {
    let list = axes(&[(64, Weak), (64, Weak)]);
    let mut scheduler = Scheduler::new(&list, body(false), vec![0, 1], cpu());
    let error = apply_err(&mut scheduler, &Opt::thread(0, 2));
    assert_eq!(error, refused(OptOps::THREAD, Refusal::NotGlobalizable));
    assert!(scheduler.axes_of(&vec![Thread]).is_empty());
}

#[test]
fn test_apply_threading_heuristic() {
    let mut scheduler = scheduled(&[(262144, Weak)], false, cpu());
    assert!(apply_threading(&mut scheduler, 2));
    assert!(!scheduler.axes_of(&vec![Thread]).is_empty());
    let mut scheduler = symbolic(4, 524288, Weak, cpu());
    assert!(apply_threading(&mut scheduler, 4), "the greatest value bounds the work");
    assert!(!scheduler.axes_of(&vec![Thread]).is_empty());
}

#[test]
fn threading_pads_undividable_loop_axes() {
    let renderer = Renderer { threads: Some(32), ..cpu() };
    let cases: [(usize, usize, &[Opt]); 4] = [
        (10007, 512, &[Opt::padto(0, 32), Opt::thread(0, 32)]),
        (51865, 512, &[Opt::thread(0, 5)]),
        (96, 65536, &[Opt::thread(0, 32)]),
        (10007, 4, &[]),
    ];
    for (rows, cols, expected) in cases {
        let mut scheduler = scheduled(&[(rows, Weak), (cols, Reduce)], true, renderer);
        assert_eq!(apply_threading(&mut scheduler, 32), !expected.is_empty());
        assert_eq!(scheduler.applied_opts, expected, "{rows}x{cols}");
    }
}

#[test]
fn apply_opt_is_total() {
    let ops = [
        OptOps::TC,
        OptOps::UPCAST,
        OptOps::LOCAL,
        OptOps::UNROLL,
        OptOps::NOLOCALS,
        OptOps::SWAP,
        OptOps::GROUP,
        OptOps::GROUPTOP,
        OptOps::THREAD,
        OptOps::PADTO,
    ];
    for op in ops {
        for axis in [None, Some(0), Some(1), Some(2), Some(5)] {
            for arg in 1..64 {
                let mut scheduler = scheduled(&[(16, Global), (8, Reduce)], true, cpu());
                let opt = Opt { op, axis, arg: Some(arg) };
                let applied = apply_opt(&mut scheduler, &opt, true);
                assert_eq!(scheduler.applied_opts.len(), usize::from(applied.is_ok()));
            }
        }
    }
}

fn global_sink(sizes: &[usize]) -> Vec<(usize, AxisType)> {
    sizes.iter().map(|&size| (size, Global)).collect()
}

fn reduce_over(globals: &[usize], reduces: &[usize]) -> Vec<(usize, AxisType)> {
    let mut list = global_sink(globals);
    list.extend(reduces.iter().map(|&size| (size, Reduce)));
    list
}

#[test]
fn upcast_splits_the_global_axis() {
    let cases: [(&[usize], usize, &[i64], usize); 4] = [
        (&[16, 16], 2, &[8, 16, 2], 2),
        (&[16, 16], 4, &[4, 16, 4], 2),
        (&[16, 16], 8, &[2, 16, 8], 2),
        (&[4], 4, &[4], 0),
    ];
    for (shape, amount, full_shape, globals) in cases {
        let mut scheduler = scheduled(&global_sink(shape), false, cpu());
        apply(&mut scheduler, &Opt::upcast(0, amount));
        assert_eq!(scheduler.full_shape(), full_shape);
        assert_eq!(scheduler.axes_of(&vec![Global]).len(), globals);
        assert_eq!(scheduler.axes_of(&vec![Upcast]).len(), 1);
    }
}

fn assert_opts_apply(
    list: &[(usize, AxisType)],
    opts: Vec<Opt>,
    expected: &[(AxisType, usize)],
) {
    let mut scheduler = scheduled(list, true, cuda());
    assert_eq!(apply_opts(&mut scheduler, &opts), Ok(()), "{opts:?}");
    assert_eq!(scheduler.applied_opts, opts);
    for &(kind, count) in expected {
        assert_eq!(scheduler.axes_of(&vec![kind]).len(), count, "{kind:?} after {opts:?}");
    }
}

#[test]
fn local_and_grouped_reduce_compose() {
    let list = reduce_over(&[4, 4, 128], &[128]);
    let check = |opts: Vec<Opt>, expected: &[(AxisType, usize)]| {
        assert_opts_apply(&list, opts, expected);
    };
    check(vec![Opt::local(0, 2)], &[(Local, 1), (Global, 3)]);
    check(vec![Opt::local(2, 8)], &[(Local, 1), (Global, 3)]);
    check(vec![Opt::local(2, 16)], &[(Local, 1), (Global, 3)]);
    check(vec![Opt::grouptop(0, 2)], &[(GroupReduce, 1)]);
    check(vec![Opt::grouptop(0, 32)], &[(GroupReduce, 1)]);
    check(vec![Opt::grouptop(0, 64)], &[(GroupReduce, 1)]);
    check(vec![Opt::local(0, 2), Opt::grouptop(0, 2)], &[(Local, 1), (GroupReduce, 1)]);
    check(vec![Opt::local(2, 16), Opt::grouptop(0, 16)], &[(Local, 1), (GroupReduce, 1)]);
    check(
        vec![Opt::local(2, 2), Opt::grouptop(0, 2), Opt::upcast(0, 2), Opt::unroll(0, 2)],
        &[(Local, 1), (Upcast, 1), (Unroll, 1), (GroupReduce, 0)],
    );
}

#[test]
fn double_reduce_handles_each_reduce_axis() {
    let list = reduce_over(&[8, 8], &[128, 128]);
    let check = |opts: Vec<Opt>, expected: &[(AxisType, usize)]| {
        assert_opts_apply(&list, opts, expected);
    };
    check(vec![Opt::grouptop(0, 2)], &[(GroupReduce, 1)]);
    check(vec![Opt::grouptop(0, 32)], &[(GroupReduce, 1)]);
    check(vec![Opt::grouptop(1, 2)], &[(GroupReduce, 1)]);
    check(vec![Opt::grouptop(1, 32)], &[(GroupReduce, 1)]);
    check(vec![Opt::grouptop(0, 2), Opt::grouptop(1, 2)], &[(GroupReduce, 2)]);
    check(vec![Opt::grouptop(0, 4), Opt::grouptop(1, 64)], &[(GroupReduce, 2)]);
    check(
        vec![Opt::grouptop(0, 16), Opt::grouptop(1, 2), Opt::unroll(0, 4)],
        &[(Unroll, 1), (GroupReduce, 2), (Reduce, 2)],
    );
    check(
        vec![Opt::local(0, 4), Opt::local(1, 4), Opt::grouptop(0, 4), Opt::grouptop(1, 4)],
        &[(Local, 2), (GroupReduce, 2)],
    );
    check(
        vec![
            Opt::local(0, 2),
            Opt::local(1, 2),
            Opt::grouptop(0, 8),
            Opt::grouptop(1, 4),
            Opt::upcast(0, 2),
        ],
        &[(Local, 2), (GroupReduce, 2), (Upcast, 1)],
    );
    check(
        vec![
            Opt::local(0, 4),
            Opt::local(1, 4),
            Opt::grouptop(0, 4),
            Opt::grouptop(1, 4),
            Opt::upcast(0, 2),
            Opt::upcast(0, 2),
        ],
        &[(Local, 2), (GroupReduce, 2), (Upcast, 2), (Global, 0)],
    );
    check(
        vec![Opt::grouptop(0, 2), Opt::grouptop(1, 32), Opt::unroll(2, 4)],
        &[(Global, 2), (GroupReduce, 2), (Reduce, 2), (Unroll, 1)],
    );
    check(
        vec![
            Opt::local(0, 4),
            Opt::local(1, 4),
            Opt::grouptop(0, 2),
            Opt::grouptop(1, 32),
            Opt::unroll(1, 4),
        ],
        &[(Global, 2), (Local, 2), (GroupReduce, 2), (Reduce, 2), (Unroll, 1)],
    );
    check(
        deep_ladder(),
        &[(Global, 2), (Local, 2), (GroupReduce, 1), (Reduce, 2), (Upcast, 1), (Unroll, 2)],
    );
}

fn deep_ladder() -> Vec<Opt> {
    vec![
        Opt::local(0, 2),
        Opt::local(1, 2),
        Opt::grouptop(0, 8),
        Opt::grouptop(1, 4),
        Opt::upcast(0, 2),
        Opt::unroll(0, 4),
        Opt::unroll(1, 4),
    ]
}

#[test]
fn the_deep_ladder_splits_the_axes_it_names() {
    let mut scheduler = scheduled(&reduce_over(&[8, 8], &[128, 128]), true, cuda());
    assert_eq!(apply_opts(&mut scheduler, &deep_ladder()), Ok(()));
    assert_eq!(scheduler.full_shape(), vec![2, 4, 2, 2, 2, 2, 16, 32, 4, 4]);
    assert_eq!(scheduler.applied_opts, deep_ladder());
}

#[test]
fn full_axis_upcast_resolves_the_constant_end() {
    let mut scheduler = scheduled(&global_sink(&[8]), false, cpu());
    apply(&mut scheduler, &Opt::upcast(0, 0));
    assert_eq!(scheduler.full_shape(), vec![8]);
    assert_eq!(scheduler.axes_of(&vec![Upcast]).len(), 1);
    assert_eq!(scheduler.axes_of(&vec![Global]).len(), 0);
}

#[test]
fn full_axis_upcast_rejects_a_symbolic_end_at_shift_to() {
    let mut scheduler = symbolic(1, 4, Loop, cpu());
    assert_eq!(
        apply_err(&mut scheduler, &Opt::upcast(0, 0)),
        OptError::SymbolicDivisionError { amount: 4 }
    );
}

#[test]
fn padto_is_reduce_op_agnostic() {
    let mut scheduler = scheduled(&reduce_over(&[4, 4], &[17]), true, cuda());
    apply(&mut scheduler, &Opt::padto(2, 32));
    assert_eq!(scheduler.full_shape()[2], 32);
    assert!(scheduler.applied_opts.contains(&Opt::padto(2, 32)));
}

#[test]
fn padto_reports_its_rejections() {
    let mut scheduler = symbolic(1, 4, Loop, cuda());
    let error = apply_opt(&mut scheduler, &Opt::padto(0, 32), true).expect_err("symbolic");
    assert_eq!(error, refused(OptOps::PADTO, Refusal::PadSymbolic));
    assert!(scheduler.applied_opts.is_empty(), "a rejected optimization is not recorded");
    let mut scheduler = scheduled(&[(17, Reduce)], true, cuda());
    let error = apply_opt(&mut scheduler, &Opt::padto(0, 0), true).expect_err("zero");
    assert_eq!(error, refused(OptOps::PADTO, Refusal::PadAlignment));
    assert!(scheduler.applied_opts.is_empty());
}

#[test]
fn opts_to_apply_applies_exactly_the_supplied_list() {
    for (marker, config) in
        [(Some(vec![Opt::upcast(0, 4)]), None), (None, Some(vec![Opt::upcast(0, 4)]))]
    {
        let opts = chosen_opts(marker, config).expect("a list");
        let mut scheduler = scheduled(&[(8, Weak)], false, cpu());
        assert_eq!(apply_opts(&mut scheduler, &opts), Ok(()));
        assert_eq!(scheduler.full_shape(), [2, 4]);
        assert_eq!(kinds(&scheduler), [Weak, Upcast]);
    }
}

#[test]
fn kernel_marker_precedes_the_config_level_list() {
    let opts = chosen_opts(Some(vec![]), Some(vec![Opt::upcast(0, 4)])).expect("a list");
    let mut scheduler = scheduled(&[(8, Weak)], false, cpu());
    assert_eq!(apply_opts(&mut scheduler, &opts), Ok(()));
    assert_eq!(scheduler.full_shape(), [8]);
    assert_eq!(chosen_opts(None, None), None);
}

#[test]
fn opts_to_apply_propagates_a_failure() {
    let mut scheduler = scheduled(&[(8, Weak)], false, cpu());
    assert_eq!(
        apply_opts(&mut scheduler, &vec![Opt::upcast(0, 64)]),
        Err(OptError::DeviceLimitExceeded { limit: Limit::Upcast, value: 64, max: 16 })
    );
}

#[test]
fn default_upcast_follows_tinygrad_gate() {
    let cases: [(usize, Option<(usize, AxisType)>, bool); 6] = [
        (16, None, true),
        (6, None, false),
        (1, None, false),
        (16, Some((4, Unroll)), false),
        (16, Some((4, Upcast)), false),
        (16, Some((8, Reduce)), true),
    ];
    for (size, extra, expected) in cases {
        let present = usize::from(matches!(extra, Some((_, Upcast))));
        let mut list = vec![(size, Weak)];
        list.extend(extra);
        let mut scheduler = scheduled(&list, false, cpu());
        assert_eq!(apply_default_upcast(&mut scheduler), expected, "{size} {extra:?}");
        assert_eq!(scheduler.axes_of(&vec![Upcast]).len(), present + usize::from(expected));
    }
}

#[test]
fn default_upcast_picks_the_innermost_upcastable_axis() {
    let mut scheduler = scheduled(&[(16, Weak), (8, Global)], false, cpu());
    let innermost = *scheduler.upcastable_dims().last().expect("two upcastable dims");
    assert!(apply_default_upcast(&mut scheduler));
    assert_eq!(scheduler.applied_opts, [Opt::upcast(innermost, 4)]);
}

#[test]
fn opts_to_apply_empty_applies_no_opts() {
    let opts = chosen_opts(Some(vec![]), None).expect("a list");
    let mut scheduler = scheduled(&[(8, Weak)], false, cpu());
    assert_eq!(apply_opts(&mut scheduler, &opts), Ok(()));
    assert!(scheduler.applied_opts.is_empty() && !scheduler.upcasted());
    assert_eq!((scheduler.full_shape(), kinds(&scheduler)), (vec![8], vec![Weak]));
}
