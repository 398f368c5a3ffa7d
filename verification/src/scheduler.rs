//! The axes of a kernel, and the optimizations that change them.

use vstd::prelude::*;

use crate::graph::AxisType;
use crate::opts::{Opt, OptOps};

verus! {

/// The extent of an axis: a constant, or a variable times a constant factor
/// with a greatest value.
#[derive(Clone, Copy, Debug, PartialEq, Eq, Structural)]
pub enum Extent {
    Const(usize),
    Symbolic { factor: usize, max: usize },
}

/// An axis: its number, what it is for, and its extent.
#[derive(Clone, Copy, Debug, PartialEq, Eq, Structural)]
pub struct Axis {
    pub id: usize,
    pub kind: AxisType,
    pub extent: Extent,
}

/// The place of a kind of axis in the order of axes: loops outside, then what
/// runs in parallel, and reductions inside.
pub open spec fn place(kind: AxisType) -> int {
    match kind {
        AxisType::Loop | AxisType::Weak => -1,
        AxisType::Global | AxisType::Thread | AxisType::Device => 0,
        AxisType::Local | AxisType::GroupReduce => 2,
        AxisType::Upcast => 3,
        AxisType::Reduce => 4,
        AxisType::Unroll => 5,
    }
}

/// Whether an axis comes before another: by the place of its kind, and then by
/// its number.
pub open spec fn precedes(a: Axis, b: Axis) -> bool {
    place(a.kind) < place(b.kind) || (place(a.kind) == place(b.kind) && a.id < b.id)
}

/// Whether an axis is scheduled: one of a single step is not.
pub open spec fn is_scheduled(extent: Extent) -> bool {
    match extent {
        Extent::Const(n) => n > 1,
        Extent::Symbolic { .. } => true,
    }
}

/// Extents that a machine integer holds. A variable times a factor has a
/// greatest value that the factor divides.
pub open spec fn is_sound(extent: Extent) -> bool {
    match extent {
        Extent::Const(n) => n <= i64::MAX,
        Extent::Symbolic { factor, max } => 0 < factor <= i64::MAX && max % factor == 0 && max
            <= i64::MAX,
    }
}

/// The greatest value of an extent.
pub open spec fn most(extent: Extent) -> usize {
    match extent {
        Extent::Const(n) => n,
        Extent::Symbolic { max, .. } => max,
    }
}

/// Axes in order, each of them once, and none of a single step.
pub open spec fn in_order(axes: Seq<Axis>) -> bool {
    &&& forall|i: int, j: int|
        0 <= i < j < axes.len() ==> precedes(#[trigger] axes[i], #[trigger] axes[j])
    &&& forall|i: int|
        0 <= i < axes.len() ==> is_scheduled((#[trigger] axes[i]).extent) && is_sound(
            axes[i].extent,
        )
    &&& forall|i: int, j: int|
        0 <= i < axes.len() && 0 <= j < axes.len() && i != j ==> (#[trigger] axes[i]).id != (
        #[trigger] axes[j]).id
}

/// The number of the axes that come before another.
pub open spec fn before_count(axes: Seq<Axis>, axis: Axis, n: nat) -> nat
    decreases n,
{
    if n == 0 {
        0
    } else {
        before_count(axes, axis, (n - 1) as nat) + (if precedes(axes[n - 1], axis) {
            1nat
        } else {
            0nat
        })
    }
}

/// Axes with one more, in its place; one of a single step is left out.
pub open spec fn with_axis(axes: Seq<Axis>, axis: Axis) -> Seq<Axis> {
    if is_scheduled(axis.extent) {
        axes.insert(before_count(axes, axis, axes.len()) as int, axis)
    } else {
        axes
    }
}

/// Whether no axis has a number.
pub open spec fn is_fresh(axes: Seq<Axis>, id: usize) -> bool {
    forall|i: int| 0 <= i < axes.len() ==> (#[trigger] axes[i]).id != id
}

fn place_number(kind: AxisType) -> (n: i8)
    ensures
        n == place(kind),
{
    match kind {
        AxisType::Loop | AxisType::Weak => -1,
        AxisType::Global | AxisType::Thread | AxisType::Device => 0,
        AxisType::Local | AxisType::GroupReduce => 2,
        AxisType::Upcast => 3,
        AxisType::Reduce => 4,
        AxisType::Unroll => 5,
    }
}

fn comes_before(a: Axis, b: Axis) -> (r: bool)
    ensures
        r == precedes(a, b),
{
    let x: i8 = place_number(a.kind);
    let y: i8 = place_number(b.kind);
    x < y || (x == y && a.id < b.id)
}

fn scheduled(extent: Extent) -> (r: bool)
    ensures
        r == is_scheduled(extent),
{
    match extent {
        Extent::Const(n) => n > 1,
        Extent::Symbolic { .. } => true,
    }
}

proof fn lemma_before_count(axes: Seq<Axis>, axis: Axis, n: nat)
    requires
        in_order(axes),
        is_fresh(axes, axis.id),
        n <= axes.len(),
    ensures
        before_count(axes, axis, n) <= n,
        forall|i: int|
            0 <= i < before_count(axes, axis, n) ==> precedes(#[trigger] axes[i], axis),
        forall|i: int|
            before_count(axes, axis, n) <= i < n ==> precedes(axis, #[trigger] axes[i]),
    decreases n,
{
    if n > 0 {
        lemma_before_count(axes, axis, (n - 1) as nat);
        let c = before_count(axes, axis, (n - 1) as nat);
        let last = axes[n - 1];
        assert(last.id != axis.id);
        if precedes(last, axis) {
            if c < n - 1 {
                assert(precedes(axis, axes[c as int]));
                assert(precedes(axes[c as int], axes[n - 1]));
            }
        } else {
            assert(precedes(axis, last));
        }
    }
}

/// Putting an axis with a fresh number in its place keeps the order.
pub proof fn lemma_with_axis_in_order(axes: Seq<Axis>, axis: Axis)
    requires
        in_order(axes),
        is_fresh(axes, axis.id),
        is_sound(axis.extent),
    ensures
        in_order(with_axis(axes, axis)),
{
    if is_scheduled(axis.extent) {
        lemma_before_count(axes, axis, axes.len());
        let c = before_count(axes, axis, axes.len()) as int;
        let new = with_axis(axes, axis);
        assert forall|i: int, j: int| 0 <= i < j < new.len() implies precedes(
            #[trigger] new[i],
            #[trigger] new[j],
        ) by {
            if i < c && j < c {
                assert(new[i] == axes[i] && new[j] == axes[j]);
            } else if i < c && j == c {
                assert(new[i] == axes[i]);
            } else if i < c && j > c {
                assert(new[i] == axes[i] && new[j] == axes[j - 1]);
            } else if i == c {
                assert(new[j] == axes[j - 1]);
            } else {
                assert(new[i] == axes[i - 1] && new[j] == axes[j - 1]);
            }
        }
        assert forall|i: int| 0 <= i < new.len() implies is_scheduled(
            (#[trigger] new[i]).extent,
        ) && is_sound(new[i].extent) by {
            if i < c {
                assert(new[i] == axes[i]);
            } else if i > c {
                assert(new[i] == axes[i - 1]);
            }
        }
        assert forall|i: int, j: int|
            0 <= i < new.len() && 0 <= j < new.len() && i != j implies (#[trigger] new[i]).id != (
        #[trigger] new[j]).id by {
            let a = if i < c {
                i
            } else {
                i - 1
            };
            let b = if j < c {
                j
            } else {
                j - 1
            };
            if i != c {
                assert(new[i] == axes[a]);
            }
            if j != c {
                assert(new[j] == axes[b]);
            }
        }
    }
}

proof fn lemma_remove_in_order(axes: Seq<Axis>, k: int)
    requires
        in_order(axes),
        0 <= k < axes.len(),
    ensures
        in_order(axes.remove(k)),
        is_fresh(axes.remove(k), axes[k].id),
{
    let new = axes.remove(k);
    assert forall|i: int| 0 <= i < new.len() implies new[i] == axes[if i < k {
        i
    } else {
        i + 1
    }] by {}
}

proof fn lemma_with_axis_fresh(axes: Seq<Axis>, axis: Axis, id: usize)
    requires
        is_fresh(axes, id),
        in_order(axes),
        is_fresh(axes, axis.id),
        axis.id != id,
    ensures
        is_fresh(with_axis(axes, axis), id),
{
    if is_scheduled(axis.extent) {
        lemma_before_count(axes, axis, axes.len());
        let c = before_count(axes, axis, axes.len()) as int;
        let new = with_axis(axes, axis);
        assert forall|i: int| 0 <= i < new.len() implies (#[trigger] new[i]).id != id by {
            if i < c {
                assert(new[i] == axes[i]);
            } else if i > c {
                assert(new[i] == axes[i - 1]);
            }
        }
    }
}

fn insert_axis(axes: &mut Vec<Axis>, axis: Axis)
    requires
        in_order(old(axes)@),
        is_fresh(old(axes)@, axis.id),
        is_sound(axis.extent),
    ensures
        final(axes)@ == with_axis(old(axes)@, axis),
        in_order(final(axes)@),
{
    proof {
        lemma_with_axis_in_order(axes@, axis);
        lemma_before_count(axes@, axis, axes@.len());
    }
    if scheduled(axis.extent) {
        let mut at: usize = 0;
        let mut n: usize = 0;
        while n < axes.len()
            invariant
                n <= axes@.len(),
                at <= n,
                at == before_count(axes@, axis, n as nat),
                axes@ == old(axes)@,
            decreases axes@.len() - n,
        {
            if comes_before(axes[n], axis) {
                at += 1;
            }
            n += 1;
        }
        axes.insert(at, axis);
    }
}

/// What a device can do.
#[derive(Clone, Copy, Debug, PartialEq, Eq, Structural)]
pub struct Renderer {
    pub has_local: bool,
    pub has_shared: bool,
    pub shared_max: usize,
    pub upcast_max: usize,
    pub unroll_max: usize,
    pub threads: Option<usize>,
}

/// How a kernel reduces.
#[derive(Clone, Copy, Debug, PartialEq, Eq, Structural)]
pub enum Reduction {
    Elementwise,
    Single,
    Nested,
}

/// What else matters of a kernel: how it reduces, the size of an element of
/// what it reduces, and whether an access has more than one index.
#[derive(Clone, Copy, Debug, PartialEq, Eq, Structural)]
pub struct Body {
    pub reduction: Reduction,
    pub item_size: usize,
    pub multi_index: bool,
}

/// Why an optimization is not valid.
#[derive(Clone, Copy, Debug, PartialEq, Eq, Structural)]
pub enum Refusal {
    UpcastKind,
    LocalKind,
    LocalsOff,
    TensorCores,
    InnerReduction,
    LocalsInUse,
    SwapKind,
    PadSymbolic,
    PadKind,
    PadAlignment,
    PadWork,
    PadMultiIndex,
    AlreadyThreaded,
    NotGlobalizable,
}

/// What a device lacks.
#[derive(Clone, Copy, Debug, PartialEq, Eq, Structural)]
pub enum Feature {
    LocalMemory,
    SharedMemory,
    Threads,
    TensorCores,
}

/// A limit of a device.
#[derive(Clone, Copy, Debug, PartialEq, Eq, Structural)]
pub enum Limit {
    Upcast,
    Unroll,
    SharedMemory,
    Threads,
}

/// Why an optimization is not applied.
#[derive(Clone, Copy, Debug, PartialEq, Eq, Structural)]
pub enum OptError {
    ValidationFailed { op: OptOps, reason: Refusal },
    UnsupportedFeature { feature: Feature },
    DeviceLimitExceeded { limit: Limit, value: usize, max: usize },
    AxisOutOfBounds { axis: usize, len: usize },
    DivisionError { size: usize, amount: usize },
    SymbolicDivisionError { amount: usize },
    MissingAxisParameter,
    InvalidArgType,
}

/// Which axes are asked for.
#[derive(Clone, Copy, Debug, PartialEq, Eq, Structural)]
pub enum Choice {
    Upcastable,
    Unrollable,
    Kind(AxisType),
}

/// Whether an axis is asked for. A vector axis is split off a parallel or a
/// serial axis of a constant extent, and a reduction of a constant extent is
/// unrolled.
pub open spec fn is_chosen(choice: Choice, axis: Axis) -> bool {
    match choice {
        Choice::Upcastable => axis.extent is Const && is_spread(axis.kind),
        Choice::Unrollable => axis.extent is Const && (axis.kind == AxisType::Reduce || axis.kind
            == AxisType::GroupReduce),
        Choice::Kind(kind) => axis.kind == kind,
    }
}

/// Axes that a vector axis can be split off.
pub open spec fn is_spread(kind: AxisType) -> bool {
    kind == AxisType::Global || kind == AxisType::Local || kind == AxisType::Loop || kind
        == AxisType::Weak
}

/// Where the axes that are asked for stand, among the first `n`.
pub open spec fn picked(axes: Seq<Axis>, choice: Choice, n: nat) -> Seq<usize>
    decreases n,
{
    if n == 0 {
        Seq::empty()
    } else {
        let rest = picked(axes, choice, (n - 1) as nat);
        if is_chosen(choice, axes[n - 1]) {
            rest.push((n - 1) as usize)
        } else {
            rest
        }
    }
}

/// One of some axes.
pub open spec fn nth(list: Seq<usize>, axis: usize) -> Result<Option<usize>, OptError> {
    if axis < list.len() {
        Ok(Some(list[axis as int]))
    } else {
        Err(OptError::AxisOutOfBounds { axis, len: list.len() as usize })
    }
}

/// The axis that an optimization names: among those that can be unrolled, among
/// those of reductions, or among all axes. Some optimizations name none.
pub open spec fn named_axis(axes: Seq<Axis>, op: OptOps, axis: Option<usize>) -> Result<
    Option<usize>,
    OptError,
> {
    if op == OptOps::TC || op == OptOps::NOLOCALS {
        Ok(None)
    } else if axis is None {
        Err(OptError::MissingAxisParameter)
    } else if op == OptOps::UNROLL {
        nth(picked(axes, Choice::Unrollable, axes.len()), axis->0)
    } else if op == OptOps::GROUP || op == OptOps::GROUPTOP {
        nth(picked(axes, Choice::Kind(AxisType::Reduce), axes.len()), axis->0)
    } else if axis->0 < axes.len() {
        Ok(axis)
    } else {
        Err(OptError::AxisOutOfBounds { axis: axis->0, len: axes.len() as usize })
    }
}

/// The axes that are picked are among the axes, and chosen.
pub proof fn lemma_picked(axes: Seq<Axis>, choice: Choice, n: nat)
    requires
        n <= axes.len() <= usize::MAX,
    ensures
        picked(axes, choice, n).len() <= n,
        forall|i: int|
            0 <= i < picked(axes, choice, n).len() ==> (#[trigger] picked(axes, choice, n)[i]) < n
                && is_chosen(choice, axes[picked(axes, choice, n)[i] as int]),
    decreases n,
{
    if n > 0 {
        lemma_picked(axes, choice, (n - 1) as nat);
    }
}

fn choose_axis(choice: Choice, axis: Axis) -> (r: bool)
    ensures
        r == is_chosen(choice, axis),
{
    let constant = matches!(axis.extent, Extent::Const(_));
    match choice {
        Choice::Upcastable => constant && spread(axis.kind),
        Choice::Unrollable => constant && (axis.kind == AxisType::Reduce || axis.kind
            == AxisType::GroupReduce),
        Choice::Kind(kind) => axis.kind == kind,
    }
}

fn spread(kind: AxisType) -> (r: bool)
    ensures
        r == is_spread(kind),
{
    kind == AxisType::Global || kind == AxisType::Local || kind == AxisType::Loop || kind
        == AxisType::Weak
}

fn pick(axes: &Vec<Axis>, choice: Choice) -> (list: Vec<usize>)
    ensures
        list@ == picked(axes@, choice, axes@.len()),
{
    let mut list: Vec<usize> = Vec::new();
    let mut n: usize = 0;
    while n < axes.len()
        invariant
            n <= axes@.len(),
            list@ == picked(axes@, choice, n as nat),
        decreases axes@.len() - n,
    {
        if choose_axis(choice, axes[n]) {
            list.push(n);
        }
        n += 1;
    }
    list
}

/// The greatest number of an axis.
pub open spec fn max_id(axes: Seq<Axis>, n: nat) -> usize
    decreases n,
{
    if n == 0 {
        0
    } else {
        let rest = max_id(axes, (n - 1) as nat);
        if axes[n - 1].id > rest {
            axes[n - 1].id
        } else {
            rest
        }
    }
}

/// The quotient of an extent, or why it cannot be divided.
pub open spec fn divided(extent: Extent, amount: usize) -> Result<Extent, OptError> {
    match extent {
        Extent::Const(size) => if amount > 0 && size % amount == 0 {
            Ok(Extent::Const((size / amount) as usize))
        } else {
            Err(OptError::DivisionError { size, amount })
        },
        Extent::Symbolic { factor, max } => if amount > 0 && factor % amount == 0 {
            Ok(
                Extent::Symbolic {
                    factor: (factor / amount) as usize,
                    max: (max / amount) as usize,
                },
            )
        } else {
            Err(OptError::SymbolicDivisionError { amount })
        },
    }
}

/// Axes with one of them split: it keeps its number and its kind at the
/// quotient, and an axis of the amount comes with the next number.
pub open spec fn split_axes(axes: Seq<Axis>, k: int, amount: usize, kind: AxisType) -> Result<
    Seq<Axis>,
    OptError,
> {
    match divided(axes[k].extent, amount) {
        Ok(extent) => {
            let old = Axis { id: axes[k].id, kind: axes[k].kind, extent };
            let new = Axis {
                id: (max_id(axes, axes.len()) + 1) as usize,
                kind,
                extent: Extent::Const(amount),
            };
            Ok(with_axis(with_axis(axes.remove(k), old), new))
        },
        Err(error) => Err(error),
    }
}

proof fn lemma_max_id(axes: Seq<Axis>, n: nat)
    requires
        n <= axes.len(),
    ensures
        forall|i: int| 0 <= i < n ==> (#[trigger] axes[i]).id <= max_id(axes, n),
    decreases n,
{
    if n > 0 {
        lemma_max_id(axes, (n - 1) as nat);
    }
}

/// What the optimizations of a kernel work on.
#[derive(Debug)]
pub struct Scheduler {
    pub axes: Vec<Axis>,
    pub applied_opts: Vec<Opt>,
    pub dont_use_locals: bool,
    pub renderer: Renderer,
    pub body: Body,
    pub private_axes: Vec<usize>,
}

/// A scheduler as a value: its axes, the optimizations that it has seen, what
/// the device and the kernel are, and the numbers of the axes that some store
/// of the kernel does without.
#[verifier::ext_equal]
pub struct Schedule {
    pub axes: Seq<Axis>,
    pub applied_opts: Seq<Opt>,
    pub dont_use_locals: bool,
    pub renderer: Renderer,
    pub body: Body,
    pub private_axes: Seq<usize>,
}

impl View for Scheduler {
    type V = Schedule;

    open spec fn view(&self) -> Schedule {
        Schedule {
            axes: self.axes@,
            applied_opts: self.applied_opts@,
            dont_use_locals: self.dont_use_locals,
            renderer: self.renderer,
            body: self.body,
            private_axes: self.private_axes@,
        }
    }
}

/// Serial axes that every store of the kernel has can run in parallel.
pub open spec fn is_globalizable(private_axes: Seq<usize>, axis: Axis) -> bool {
    axis.kind == AxisType::Weak && !private_axes.contains(axis.id)
}

/// The most that a product can be reported as.
pub open spec fn capped(n: nat) -> usize {
    if n <= usize::MAX {
        n as usize
    } else {
        usize::MAX
    }
}

/// Axes that a group shares memory over.
pub open spec fn is_grouped(kind: AxisType) -> bool {
    kind == AxisType::Upcast || kind == AxisType::Local || kind == AxisType::GroupReduce
}

/// How many values the axes of a group hold together, the first `n` of them.
pub open spec fn group_size(axes: Seq<Axis>, n: nat) -> nat
    decreases n,
{
    if n == 0 {
        1
    } else {
        let rest = group_size(axes, (n - 1) as nat);
        if is_grouped(axes[n - 1].kind) {
            rest * (most(axes[n - 1].extent) as nat)
        } else {
            rest
        }
    }
}

/// The memory that a group of an amount shares.
pub open spec fn shared_size(axes: Seq<Axis>, amount: usize, item_size: usize) -> usize {
    capped(group_size(axes, axes.len()) * (amount as nat) * (item_size as nat))
}

/// The kind of axis that an optimization splits off.
pub open spec fn split_kind(op: OptOps) -> AxisType {
    match op {
        OptOps::UPCAST => AxisType::Upcast,
        OptOps::UNROLL => AxisType::Unroll,
        OptOps::LOCAL => AxisType::Local,
        OptOps::THREAD => AxisType::Thread,
        _ => AxisType::GroupReduce,
    }
}

/// Whether an optimization of an operation was applied.
pub open spec fn has_applied(opts: Seq<Opt>, op: OptOps) -> bool {
    exists|i: int| 0 <= i < opts.len() && (#[trigger] opts[i]).op == op
}

/// Whether an axis of a kind is scheduled.
pub open spec fn has_kind(axes: Seq<Axis>, kind: AxisType) -> bool {
    exists|i: int| 0 <= i < axes.len() && (#[trigger] axes[i]).kind == kind
}

/// Why an axis is not split, other than by its extent.
pub open spec fn split_refusal(s: Schedule, op: OptOps, axis: Axis, amount: usize) -> Option<
    OptError,
> {
    match op {
        OptOps::UPCAST => if !is_spread(axis.kind) {
            Some(OptError::ValidationFailed { op, reason: Refusal::UpcastKind })
        } else if amount > s.renderer.upcast_max {
            Some(
                OptError::DeviceLimitExceeded {
                    limit: Limit::Upcast,
                    value: amount,
                    max: s.renderer.upcast_max,
                },
            )
        } else {
            None
        },
        OptOps::UNROLL => if amount > s.renderer.unroll_max {
            Some(
                OptError::DeviceLimitExceeded {
                    limit: Limit::Unroll,
                    value: amount,
                    max: s.renderer.unroll_max,
                },
            )
        } else {
            None
        },
        OptOps::LOCAL => if !s.renderer.has_local {
            Some(OptError::UnsupportedFeature { feature: Feature::LocalMemory })
        } else if s.dont_use_locals {
            Some(OptError::ValidationFailed { op, reason: Refusal::LocalsOff })
        } else if axis.kind != AxisType::Global {
            Some(OptError::ValidationFailed { op, reason: Refusal::LocalKind })
        } else {
            None
        },
        OptOps::THREAD => match s.renderer.threads {
            None => Some(OptError::UnsupportedFeature { feature: Feature::Threads }),
            Some(max) => if amount > max {
                Some(OptError::DeviceLimitExceeded { limit: Limit::Threads, value: amount, max })
            } else if has_kind(s.axes, AxisType::Thread) {
                Some(OptError::ValidationFailed { op, reason: Refusal::AlreadyThreaded })
            } else if !is_globalizable(s.private_axes, axis) {
                Some(OptError::ValidationFailed { op, reason: Refusal::NotGlobalizable })
            } else {
                None
            },
        },
        _ => if !s.renderer.has_local {
            Some(OptError::UnsupportedFeature { feature: Feature::LocalMemory })
        } else if !s.renderer.has_shared {
            Some(OptError::UnsupportedFeature { feature: Feature::SharedMemory })
        } else if has_applied(s.applied_opts, OptOps::TC) {
            Some(OptError::ValidationFailed { op, reason: Refusal::TensorCores })
        } else if s.body.reduction is Nested {
            Some(OptError::ValidationFailed { op, reason: Refusal::InnerReduction })
        } else if shared_size(s.axes, amount, s.body.item_size) > s.renderer.shared_max {
            Some(
                OptError::DeviceLimitExceeded {
                    limit: Limit::SharedMemory,
                    value: shared_size(s.axes, amount, s.body.item_size),
                    max: s.renderer.shared_max,
                },
            )
        } else {
            None
        },
    }
}

/// A size rounded up to a multiple of an alignment.
pub open spec fn aligned(size: usize, alignment: usize) -> int {
    ((size + alignment - 1) / (alignment as int)) * alignment
}

/// Axes with one of them padded: a constant extent that is neither a vector, an
/// unrolled nor a thread axis is rounded up, at less than four times the work.
pub open spec fn padded_axes(s: Schedule, k: int, alignment: usize) -> Result<Seq<Axis>, OptError> {
    let axis = s.axes[k];
    let refuse = |reason: Refusal|
        Err(OptError::ValidationFailed { op: OptOps::PADTO, reason });
    match axis.extent {
        Extent::Symbolic { .. } => refuse(Refusal::PadSymbolic),
        Extent::Const(size) => if axis.kind == AxisType::Upcast || axis.kind == AxisType::Unroll
            || axis.kind == AxisType::Thread {
            refuse(Refusal::PadKind)
        } else if alignment == 0 {
            refuse(Refusal::PadAlignment)
        } else if size <= aligned(size, alignment) / 4 {
            refuse(Refusal::PadWork)
        } else if s.body.multi_index {
            refuse(Refusal::PadMultiIndex)
        } else {
            Ok(
                s.axes.update(
                    k,
                    Axis { extent: Extent::Const(aligned(size, alignment) as usize), ..axis },
                ),
            )
        },
    }
}

/// Axes with the extents of two parallel ones exchanged; each keeps its number.
pub open spec fn swapped_axes(axes: Seq<Axis>, k: int, with: usize) -> Result<Seq<Axis>, OptError> {
    if with >= axes.len() {
        Err(OptError::AxisOutOfBounds { axis: with, len: axes.len() as usize })
    } else if axes[k].kind != AxisType::Global || axes[with as int].kind != AxisType::Global {
        Err(OptError::ValidationFailed { op: OptOps::SWAP, reason: Refusal::SwapKind })
    } else {
        let j = with as int;
        Ok(
            axes.update(k, Axis { extent: axes[j].extent, ..axes[k] }).update(
                j,
                Axis { extent: axes[k].extent, ..axes[j] },
            ),
        )
    }
}

/// The axes after an optimization of one of them. An amount of zero is the whole
/// axis.
pub open spec fn changed_axes(s: Schedule, op: OptOps, k: int, arg: usize) -> Result<
    Seq<Axis>,
    OptError,
> {
    match op {
        OptOps::SWAP => swapped_axes(s.axes, k, arg),
        OptOps::PADTO => padded_axes(s, k, arg),
        _ => {
            let amount = if arg == 0 {
                most(s.axes[k].extent)
            } else {
                arg
            };
            match split_refusal(s, op, s.axes[k], amount) {
                Some(error) => Err(error),
                None => split_axes(s.axes, k, amount, split_kind(op)),
            }
        },
    }
}

/// What an optimization makes of a schedule. Every optimization but the one that
/// turns local memory off takes an amount.
pub open spec fn optimized(s: Schedule, opt: Opt) -> Result<Schedule, OptError> {
    match named_axis(s.axes, opt.op, opt.axis) {
        Err(error) => Err(error),
        Ok(None) => if opt.op == OptOps::TC {
            Err(OptError::InvalidArgType)
        } else if has_kind(s.axes, AxisType::Local) || has_kind(s.axes, AxisType::GroupReduce) {
            Err(OptError::ValidationFailed { op: opt.op, reason: Refusal::LocalsInUse })
        } else {
            Ok(Schedule { dont_use_locals: true, ..s })
        },
        Ok(Some(k)) => match opt.arg {
            None => Err(OptError::InvalidArgType),
            Some(arg) => match changed_axes(s, opt.op, k as int, arg) {
                Err(error) => Err(error),
                Ok(axes) => Ok(Schedule { axes, ..s }),
            },
        },
    }
}

/// A schedule that records an optimization.
pub open spec fn recorded(s: Schedule, opt: Opt) -> Schedule {
    Schedule { applied_opts: s.applied_opts.push(opt), ..s }
}

/// Whether the numbers that an optimization brings fit a machine integer.
pub open spec fn has_room(axes: Seq<Axis>, opt: Opt) -> bool {
    &&& max_id(axes, axes.len()) < usize::MAX
    &&& opt.op == OptOps::PADTO && opt.arg is Some ==> forall|i: int|
        0 <= i < axes.len() ==> #[trigger] most(axes[i].extent) + opt.arg->0 <= i64::MAX
            && most(axes[i].extent) + opt.arg->0 <= usize::MAX
}

/// Axes in their order, out of a list; those of a single step are left out.
pub open spec fn arranged(list: Seq<Axis>, n: nat) -> Seq<Axis>
    decreases n,
{
    if n == 0 {
        Seq::empty()
    } else {
        with_axis(arranged(list, (n - 1) as nat), list[n - 1])
    }
}

/// Whether each axis of a list has a number of its own and a sound extent.
pub open spec fn is_axis_list(list: Seq<Axis>) -> bool {
    &&& forall|i: int, j: int|
        0 <= i < list.len() && 0 <= j < list.len() && i != j ==> (#[trigger] list[i]).id != (
        #[trigger] list[j]).id
    &&& forall|i: int| 0 <= i < list.len() ==> is_sound((#[trigger] list[i]).extent)
}

proof fn lemma_arranged(list: Seq<Axis>, n: nat)
    requires
        is_axis_list(list),
        n <= list.len(),
    ensures
        in_order(arranged(list, n)),
        forall|i: int| n <= i < list.len() ==> is_fresh(arranged(list, n), (#[trigger] list[i]).id),
    decreases n,
{
    if n > 0 {
        let before = arranged(list, (n - 1) as nat);
        lemma_arranged(list, (n - 1) as nat);
        let axis = list[n - 1];
        assert(is_fresh(before, axis.id));
        lemma_with_axis_in_order(before, axis);
        assert forall|i: int| n <= i < list.len() implies is_fresh(
            arranged(list, n),
            (#[trigger] list[i]).id,
        ) by {
            assert(axis.id != list[i].id);
            lemma_with_axis_fresh(before, axis, list[i].id);
        }
    }
}

pub(crate) fn arrange(list: &Vec<Axis>) -> (axes: Vec<Axis>)
    requires
        is_axis_list(list@),
    ensures
        axes@ == arranged(list@, list@.len()),
        in_order(axes@),
{
    let mut axes: Vec<Axis> = Vec::new();
    let mut n: usize = 0;
    while n < list.len()
        invariant
            n <= list@.len(),
            is_axis_list(list@),
            axes@ == arranged(list@, n as nat),
            in_order(axes@),
        decreases list@.len() - n,
    {
        proof {
            lemma_arranged(list@, n as nat);
            assert(is_fresh(axes@, list@[n as int].id));
        }
        insert_axis(&mut axes, list[n]);
        n += 1;
    }
    axes
}

pub(crate) fn greatest(extent: Extent) -> (n: usize)
    ensures
        n == most(extent),
{
    match extent {
        Extent::Const(n) => n,
        Extent::Symbolic { max, .. } => max,
    }
}

pub(crate) fn contains_kind(axes: &Vec<Axis>, kind: AxisType) -> (r: bool)
    ensures
        r == has_kind(axes@, kind),
{
    let mut n: usize = 0;
    while n < axes.len()
        invariant
            n <= axes@.len(),
            forall|i: int| 0 <= i < n ==> (#[trigger] axes@[i]).kind != kind,
        decreases axes@.len() - n,
    {
        if axes[n].kind == kind {
            return true;
        }
        n += 1;
    }
    false
}

fn contains_op(opts: &Vec<Opt>, op: OptOps) -> (r: bool)
    ensures
        r == has_applied(opts@, op),
{
    let mut n: usize = 0;
    while n < opts.len()
        invariant
            n <= opts@.len(),
            forall|i: int| 0 <= i < n ==> (#[trigger] opts@[i]).op != op,
        decreases opts@.len() - n,
    {
        if opts[n].op == op {
            return true;
        }
        n += 1;
    }
    false
}

fn contains_id(list: &Vec<usize>, id: usize) -> (r: bool)
    ensures
        r == list@.contains(id),
{
    let mut n: usize = 0;
    while n < list.len()
        invariant
            n <= list@.len(),
            forall|i: int| 0 <= i < n ==> list@[i] != id,
        decreases list@.len() - n,
    {
        if list[n] == id {
            return true;
        }
        n += 1;
    }
    false
}

fn greatest_id(axes: &Vec<Axis>) -> (id: usize)
    ensures
        id == max_id(axes@, axes@.len()),
{
    let mut id: usize = 0;
    let mut n: usize = 0;
    while n < axes.len()
        invariant
            n <= axes@.len(),
            id == max_id(axes@, n as nat),
        decreases axes@.len() - n,
    {
        if axes[n].id > id {
            id = axes[n].id;
        }
        n += 1;
    }
    id
}

/// Capping a factor does not change the capped product.
pub proof fn lemma_capped_product(a: nat, b: nat)
    ensures
        capped((capped(a) as nat) * b) == capped(a * b),
{
    if a > usize::MAX && b > 0 {
        assert(a * b >= a) by (nonlinear_arith)
            requires
                b > 0,
        ;
        let top = usize::MAX as nat;
        assert(top * b >= top) by (nonlinear_arith)
            requires
                b > 0,
        ;
        if b == 1 {
            assert(top * b == top);
        }
    } else if b == 0 {
        assert(a * b == 0 && (capped(a) as nat) * b == 0) by (nonlinear_arith)
            requires
                b == 0,
        ;
    }
}

pub(crate) fn capped_product(a: usize, b: usize) -> (n: usize)
    ensures
        n == capped((a as nat) * (b as nat)),
{
    match a.checked_mul(b) {
        Some(n) => n,
        None => usize::MAX,
    }
}

fn find_group_size(axes: &Vec<Axis>) -> (size: usize)
    ensures
        size == capped(group_size(axes@, axes@.len())),
{
    let mut size: usize = 1;
    let mut n: usize = 0;
    while n < axes.len()
        invariant
            n <= axes@.len(),
            size == capped(group_size(axes@, n as nat)),
        decreases axes@.len() - n,
    {
        let kind = axes[n].kind;
        if kind == AxisType::Upcast || kind == AxisType::Local || kind == AxisType::GroupReduce {
            proof {
                lemma_capped_product(
                    group_size(axes@, n as nat),
                    most(axes@[n as int].extent) as nat,
                );
            }
            size = capped_product(size, greatest(axes[n].extent));
        }
        n += 1;
    }
    size
}

fn find_shared_size(axes: &Vec<Axis>, amount: usize, item_size: usize) -> (size: usize)
    ensures
        size == shared_size(axes@, amount, item_size),
{
    let group: usize = find_group_size(axes);
    proof {
        let g = group_size(axes@, axes@.len());
        lemma_capped_product(g, amount as nat);
        lemma_capped_product(g * (amount as nat), item_size as nat);
    }
    capped_product(capped_product(group, amount), item_size)
}

pub(crate) fn divide(extent: Extent, amount: usize) -> (r: Result<Extent, OptError>)
    ensures
        r == divided(extent, amount),
{
    match extent {
        Extent::Const(size) => if amount > 0 && size % amount == 0 {
            Ok(Extent::Const(size / amount))
        } else {
            Err(OptError::DivisionError { size, amount })
        },
        Extent::Symbolic { factor, max } => if amount > 0 && factor % amount == 0 {
            Ok(Extent::Symbolic { factor: factor / amount, max: max / amount })
        } else {
            Err(OptError::SymbolicDivisionError { amount })
        },
    }
}

proof fn lemma_divided(extent: Extent, amount: usize)
    requires
        is_sound(extent),
        is_scheduled(extent),
        divided(extent, amount) is Ok,
    ensures
        is_sound(divided(extent, amount)->Ok_0),
        most(divided(extent, amount)->Ok_0) * amount == most(extent),
        0 < amount <= i64::MAX,
{
    match extent {
        Extent::Const(size) => {
            let q = (size / amount) as int;
            assert(q * amount == size && q <= size) by (nonlinear_arith)
                requires
                    amount > 0,
                    size % amount == 0,
                    q == size as int / amount as int,
            ;
            assert(amount <= size) by (nonlinear_arith)
                requires
                    q * amount == size,
                    size > 0,
                    amount > 0,
            ;
        },
        Extent::Symbolic { factor, max } => {
            let f = factor as int / amount as int;
            let v = max as int / factor as int;
            let m = max as int / amount as int;
            assert(f * amount == factor && v * factor == max) by (nonlinear_arith)
                requires
                    amount > 0,
                    factor > 0,
                    factor as int % amount as int == 0,
                    max as int % factor as int == 0,
                    f == factor as int / amount as int,
                    v == max as int / factor as int,
            ;
            assert(max == (v * f) * amount) by (nonlinear_arith)
                requires
                    f * amount == factor,
                    v * factor == max,
            ;
            assert(m == v * f) by (nonlinear_arith)
                requires
                    max == (v * f) * amount,
                    amount > 0,
                    m == max as int / amount as int,
            ;
            assert(f > 0 && f <= factor && amount <= factor) by (nonlinear_arith)
                requires
                    f * amount == factor,
                    factor > 0,
                    amount > 0,
            ;
            assert((v * f) % f == 0) by (nonlinear_arith)
                requires
                    f > 0,
            ;
            assert(m <= max) by (nonlinear_arith)
                requires
                    m * amount == max,
                    amount > 0,
                    max >= 0,
            ;
        },
    }
}

impl Scheduler {
    /// Axes in order, each with a number of its own.
    pub open spec fn wf(&self) -> bool {
        in_order(self.axes@)
    }

    /// A scheduler over axes.
    pub fn new(
        list: &Vec<Axis>,
        body: Body,
        private_axes: Vec<usize>,
        renderer: Renderer,
    ) -> (scheduler: Scheduler)
        requires
            is_axis_list(list@),
        ensures
            scheduler.wf(),
            scheduler@.axes == arranged(list@, list@.len()),
            scheduler@.applied_opts == Seq::<Opt>::empty(),
            !scheduler@.dont_use_locals,
            scheduler@.renderer == renderer,
            scheduler@.body == body,
            scheduler@.private_axes == private_axes@,
    {
        Scheduler {
            axes: arrange(list),
            applied_opts: Vec::new(),
            dont_use_locals: false,
            renderer,
            body,
            private_axes,
        }
    }

    /// The axes in order.
    pub fn rngs(&self) -> (axes: &Vec<Axis>)
        ensures
            axes@ == self@.axes,
    {
        &self.axes
    }

    /// How many axes there are.
    pub fn shape_len(&self) -> (n: usize)
        ensures
            n == self@.axes.len(),
    {
        self.axes.len()
    }

    /// The greatest number of an axis.
    pub fn maxarg(&self) -> (id: usize)
        ensures
            id == max_id(self@.axes, self@.axes.len()),
    {
        greatest_id(&self.axes)
    }

    /// Where the axes stand that a vector axis can be split off.
    pub fn upcastable_dims(&self) -> (list: Vec<usize>)
        ensures
            list@ == picked(self@.axes, Choice::Upcastable, self@.axes.len()),
    {
        pick(&self.axes, Choice::Upcastable)
    }

    /// Where the axes stand that can be unrolled.
    pub fn unrollable_dims(&self) -> (list: Vec<usize>)
        ensures
            list@ == picked(self@.axes, Choice::Unrollable, self@.axes.len()),
    {
        pick(&self.axes, Choice::Unrollable)
    }

    /// How many axes reduce in groups.
    pub fn group_for_reduces(&self) -> (n: usize)
        ensures
            n == picked(
                self@.axes,
                Choice::Kind(AxisType::GroupReduce),
                self@.axes.len(),
            ).len(),
    {
        pick(&self.axes, Choice::Kind(AxisType::GroupReduce)).len()
    }

    /// Where the axis stands that an optimization names.
    pub fn real_axis(&self, op: OptOps, axis: Option<usize>) -> (r: Result<Option<usize>, OptError>)
        ensures
            r == named_axis(self@.axes, op, axis),
    {
        if op == OptOps::TC || op == OptOps::NOLOCALS {
            return Ok(None);
        }
        let at: usize = match axis {
            None => {
                return Err(OptError::MissingAxisParameter);
            },
            Some(at) => at,
        };
        if op == OptOps::UNROLL || op == OptOps::GROUP || op == OptOps::GROUPTOP {
            let list = if op == OptOps::UNROLL {
                pick(&self.axes, Choice::Unrollable)
            } else {
                pick(&self.axes, Choice::Kind(AxisType::Reduce))
            };
            if at < list.len() {
                Ok(Some(list[at]))
            } else {
                Err(OptError::AxisOutOfBounds { axis: at, len: list.len() })
            }
        } else if at < self.axes.len() {
            Ok(Some(at))
        } else {
            Err(OptError::AxisOutOfBounds { axis: at, len: self.axes.len() })
        }
    }

    /// Splits an axis: it keeps its number at the quotient of its extent, and an
    /// axis of the amount comes with the next number. A failure changes nothing.
    pub fn shift_to(&mut self, k: usize, amount: usize, kind: AxisType) -> (r: Result<
        (Axis, Axis),
        OptError,
    >)
        requires
            old(self).wf(),
            k < old(self)@.axes.len(),
            max_id(old(self)@.axes, old(self)@.axes.len()) < usize::MAX,
        ensures
            final(self).wf(),
            match split_axes(old(self)@.axes, k as int, amount, kind) {
                Ok(axes) => {
                    &&& final(self)@ == (Schedule { axes, ..old(self)@ })
                    &&& r == Ok::<(Axis, Axis), OptError>(
                        (
                            Axis {
                                extent: divided(old(self)@.axes[k as int].extent, amount)->Ok_0,
                                ..old(self)@.axes[k as int]
                            },
                            Axis {
                                id: (max_id(old(self)@.axes, old(self)@.axes.len()) + 1) as usize,
                                kind,
                                extent: Extent::Const(amount),
                            },
                        ),
                    )
                },
                Err(error) => final(self)@ == old(self)@ && r == Err::<(Axis, Axis), OptError>(
                    error,
                ),
            },
    {
        let axis = self.axes[k];
        let extent = match divide(axis.extent, amount) {
            Ok(extent) => extent,
            Err(error) => {
                return Err(error);
            },
        };
        let id: usize = self.maxarg() + 1;
        let replaced = Axis { id: axis.id, kind: axis.kind, extent };
        let new = Axis { id, kind, extent: Extent::Const(amount) };
        proof {
            let axes = self.axes@;
            lemma_divided(axis.extent, amount);
            lemma_remove_in_order(axes, k as int);
            lemma_max_id(axes, axes.len());
            let rest = axes.remove(k as int);
            assert(is_fresh(rest, id)) by {
                assert forall|i: int| 0 <= i < rest.len() implies (#[trigger] rest[i]).id != id by {
                    let j = if i < k {
                        i
                    } else {
                        i + 1
                    };
                    assert(rest[i] == axes[j]);
                }
            }
            lemma_with_axis_fresh(rest, replaced, id);
        }
        let _old = self.axes.remove(k);
        insert_axis(&mut self.axes, replaced);
        insert_axis(&mut self.axes, new);
        Ok((replaced, new))
    }

    fn split_problem(&self, op: OptOps, axis: Axis, amount: usize) -> (problem: Option<OptError>)
        ensures
            problem == split_refusal(self@, op, axis, amount),
    {
        let renderer = self.renderer;
        match op {
            OptOps::UPCAST => if !spread(axis.kind) {
                Some(OptError::ValidationFailed { op, reason: Refusal::UpcastKind })
            } else if amount > renderer.upcast_max {
                Some(
                    OptError::DeviceLimitExceeded {
                        limit: Limit::Upcast,
                        value: amount,
                        max: renderer.upcast_max,
                    },
                )
            } else {
                None
            },
            OptOps::UNROLL => if amount > renderer.unroll_max {
                Some(
                    OptError::DeviceLimitExceeded {
                        limit: Limit::Unroll,
                        value: amount,
                        max: renderer.unroll_max,
                    },
                )
            } else {
                None
            },
            OptOps::LOCAL => if !renderer.has_local {
                Some(OptError::UnsupportedFeature { feature: Feature::LocalMemory })
            } else if self.dont_use_locals {
                Some(OptError::ValidationFailed { op, reason: Refusal::LocalsOff })
            } else if axis.kind != AxisType::Global {
                Some(OptError::ValidationFailed { op, reason: Refusal::LocalKind })
            } else {
                None
            },
            OptOps::THREAD => match renderer.threads {
                None => Some(OptError::UnsupportedFeature { feature: Feature::Threads }),
                Some(max) => if amount > max {
                    Some(
                        OptError::DeviceLimitExceeded { limit: Limit::Threads, value: amount, max },
                    )
                } else if contains_kind(&self.axes, AxisType::Thread) {
                    Some(OptError::ValidationFailed { op, reason: Refusal::AlreadyThreaded })
                } else if !self.globalizable(axis) {
                    Some(OptError::ValidationFailed { op, reason: Refusal::NotGlobalizable })
                } else {
                    None
                },
            },
            _ => if !renderer.has_local {
                Some(OptError::UnsupportedFeature { feature: Feature::LocalMemory })
            } else if !renderer.has_shared {
                Some(OptError::UnsupportedFeature { feature: Feature::SharedMemory })
            } else if contains_op(&self.applied_opts, OptOps::TC) {
                Some(OptError::ValidationFailed { op, reason: Refusal::TensorCores })
            } else if self.body.reduction == Reduction::Nested {
                Some(OptError::ValidationFailed { op, reason: Refusal::InnerReduction })
            } else {
                let size: usize = find_shared_size(&self.axes, amount, self.body.item_size);
                if size > renderer.shared_max {
                    Some(
                        OptError::DeviceLimitExceeded {
                            limit: Limit::SharedMemory,
                            value: size,
                            max: renderer.shared_max,
                        },
                    )
                } else {
                    None
                }
            },
        }
    }

    pub(crate) fn globalizable(&self, axis: Axis) -> (r: bool)
        ensures
            r == is_globalizable(self@.private_axes, axis),
    {
        axis.kind == AxisType::Weak && !contains_id(&self.private_axes, axis.id)
    }

    fn pad(&mut self, k: usize, alignment: usize) -> (r: Result<(), OptError>)
        requires
            old(self).wf(),
            k < old(self)@.axes.len(),
            most(old(self)@.axes[k as int].extent) + alignment <= i64::MAX,
            most(old(self)@.axes[k as int].extent) + alignment <= usize::MAX,
        ensures
            final(self).wf(),
            match padded_axes(old(self)@, k as int, alignment) {
                Ok(axes) => final(self)@ == (Schedule { axes, ..old(self)@ }) && r is Ok,
                Err(error) => final(self)@ == old(self)@ && r == Err::<(), OptError>(error),
            },
    {
        let axis = self.axes[k];
        let op = OptOps::PADTO;
        let size: usize = match axis.extent {
            Extent::Symbolic { .. } => {
                return Err(OptError::ValidationFailed { op, reason: Refusal::PadSymbolic });
            },
            Extent::Const(size) => size,
        };
        if axis.kind == AxisType::Upcast || axis.kind == AxisType::Unroll || axis.kind
            == AxisType::Thread {
            return Err(OptError::ValidationFailed { op, reason: Refusal::PadKind });
        }
        if alignment == 0 {
            return Err(OptError::ValidationFailed { op, reason: Refusal::PadAlignment });
        }
        let steps: usize = (size + (alignment - 1)) / alignment;
        proof {
            lemma_aligned(size, alignment);
        }
        let new: usize = steps * alignment;
        if size <= new / 4 {
            return Err(OptError::ValidationFailed { op, reason: Refusal::PadWork });
        }
        if self.body.multi_index {
            return Err(OptError::ValidationFailed { op, reason: Refusal::PadMultiIndex });
        }
        self.axes.set(k, Axis { id: axis.id, kind: axis.kind, extent: Extent::Const(new) });
        Ok(())
    }

    fn swap(&mut self, k: usize, with: usize) -> (r: Result<(), OptError>)
        requires
            old(self).wf(),
            k < old(self)@.axes.len(),
        ensures
            final(self).wf(),
            match swapped_axes(old(self)@.axes, k as int, with) {
                Ok(axes) => final(self)@ == (Schedule { axes, ..old(self)@ }) && r is Ok,
                Err(error) => final(self)@ == old(self)@ && r == Err::<(), OptError>(error),
            },
    {
        if with >= self.axes.len() {
            return Err(OptError::AxisOutOfBounds { axis: with, len: self.axes.len() });
        }
        let a = self.axes[k];
        let b = self.axes[with];
        if a.kind != AxisType::Global || b.kind != AxisType::Global {
            return Err(OptError::ValidationFailed { op: OptOps::SWAP, reason: Refusal::SwapKind });
        }
        self.axes.set(k, Axis { id: a.id, kind: a.kind, extent: b.extent });
        self.axes.set(with, Axis { id: b.id, kind: b.kind, extent: a.extent });
        Ok(())
    }

    fn step(&mut self, opt: &Opt) -> (r: Result<(), OptError>)
        requires
            old(self).wf(),
            has_room(old(self)@.axes, *opt),
        ensures
            final(self).wf(),
            match optimized(old(self)@, *opt) {
                Ok(next) => final(self)@ == next && r is Ok,
                Err(error) => final(self)@ == old(self)@ && r == Err::<(), OptError>(error),
            },
    {
        let op = opt.op;
        let k: usize = match self.real_axis(op, opt.axis) {
            Err(error) => {
                return Err(error);
            },
            Ok(None) => {
                if op == OptOps::TC {
                    return Err(OptError::InvalidArgType);
                }
                if contains_kind(&self.axes, AxisType::Local) || contains_kind(
                    &self.axes,
                    AxisType::GroupReduce,
                ) {
                    return Err(OptError::ValidationFailed { op, reason: Refusal::LocalsInUse });
                }
                self.dont_use_locals = true;
                return Ok(());
            },
            Ok(Some(k)) => k,
        };
        let count: usize = self.axes.len();
        proof {
            assert(count == self.axes@.len());
            lemma_picked(self.axes@, Choice::Unrollable, self.axes@.len());
            lemma_picked(self.axes@, Choice::Kind(AxisType::Reduce), self.axes@.len());
        }
        let arg: usize = match opt.arg {
            None => {
                return Err(OptError::InvalidArgType);
            },
            Some(arg) => arg,
        };
        match op {
            OptOps::SWAP => self.swap(k, arg),
            OptOps::PADTO => self.pad(k, arg),
            _ => {
                let axis = self.axes[k];
                let amount: usize = if arg == 0 {
                    greatest(axis.extent)
                } else {
                    arg
                };
                match self.split_problem(op, axis, amount) {
                    Some(error) => Err(error),
                    None => {
                        let kind = kind_split_off(op);
                        match self.shift_to(k, amount, kind) {
                            Ok(_axes) => Ok(()),
                            Err(error) => Err(error),
                        }
                    },
                }
            },
        }
    }
}

fn kind_split_off(op: OptOps) -> (kind: AxisType)
    ensures
        kind == split_kind(op),
{
    match op {
        OptOps::UPCAST => AxisType::Upcast,
        OptOps::UNROLL => AxisType::Unroll,
        OptOps::LOCAL => AxisType::Local,
        OptOps::THREAD => AxisType::Thread,
        _ => AxisType::GroupReduce,
    }
}

/// Rounding up adds less than one alignment, and what comes out is a multiple
/// of it.
pub proof fn lemma_aligned(size: usize, alignment: usize)
    requires
        alignment > 0,
    ensures
        size <= aligned(size, alignment) < size + alignment,
        aligned(size, alignment) % (alignment as int) == 0,
{
    let q = (size + alignment - 1) / (alignment as int);
    let r = (size + alignment - 1) % (alignment as int);
    assert(q * alignment + r == size + alignment - 1 && 0 <= r < alignment) by (nonlinear_arith)
        requires
            alignment > 0,
            q == (size + alignment - 1) / (alignment as int),
            r == (size + alignment - 1) % (alignment as int),
    ;
    assert((q * alignment) % (alignment as int) == 0) by (nonlinear_arith)
        requires
            alignment > 0,
    ;
}

/// Applies an optimization and, where it is asked for, records it. One that
/// fails changes nothing.
pub fn apply_opt(scheduler: &mut Scheduler, opt: &Opt, append: bool) -> (r: Result<(), OptError>)
    requires
        old(scheduler).wf(),
        has_room(old(scheduler)@.axes, *opt),
    ensures
        final(scheduler).wf(),
        match optimized(old(scheduler)@, *opt) {
            Ok(next) => {
                &&& r is Ok
                &&& final(scheduler)@ == (if append {
                    recorded(next, *opt)
                } else {
                    next
                })
            },
            Err(error) => r == Err::<(), OptError>(error) && final(scheduler)@ == old(scheduler)@,
        },
{
    match scheduler.step(opt) {
        Ok(()) => {
            if append {
                scheduler.applied_opts.push(*opt);
            }
            Ok(())
        },
        Err(error) => Err(error),
    }
}

/// How many steps all axes take together, the first `n` of them.
pub open spec fn work(axes: Seq<Axis>, n: nat) -> nat
    decreases n,
{
    if n == 0 {
        1
    } else {
        work(axes, (n - 1) as nat) * (most(axes[n - 1].extent) as nat)
    }
}

proof fn lemma_work_prefix(a: Seq<Axis>, b: Seq<Axis>, n: nat)
    requires
        n <= a.len(),
        n <= b.len(),
        forall|i: int| 0 <= i < n ==> a[i] == b[i],
    ensures
        work(a, n) == work(b, n),
    decreases n,
{
    if n > 0 {
        lemma_work_prefix(a, b, (n - 1) as nat);
    }
}

proof fn lemma_work_insert(axes: Seq<Axis>, at: int, axis: Axis, n: nat)
    requires
        0 <= at <= n <= axes.len(),
    ensures
        work(axes.insert(at, axis), n + 1) == work(axes, n) * (most(axis.extent) as nat),
    decreases n,
{
    let new = axes.insert(at, axis);
    if at == n {
        lemma_work_prefix(new, axes, n);
    } else {
        lemma_work_insert(axes, at, axis, (n - 1) as nat);
        let w = work(axes, (n - 1) as nat);
        let m = most(axis.extent) as nat;
        let e = most(axes[n - 1].extent) as nat;
        assert(new[n as int] == axes[n - 1]);
        assert((w * m) * e == (w * e) * m) by (nonlinear_arith);
    }
}

proof fn lemma_work_with_axis(axes: Seq<Axis>, axis: Axis)
    requires
        in_order(axes),
        is_fresh(axes, axis.id),
        most(axis.extent) > 0,
    ensures
        work(with_axis(axes, axis), with_axis(axes, axis).len()) == work(axes, axes.len()) * (most(
            axis.extent,
        ) as nat),
{
    if is_scheduled(axis.extent) {
        lemma_before_count(axes, axis, axes.len());
        lemma_work_insert(
            axes,
            before_count(axes, axis, axes.len()) as int,
            axis,
            axes.len(),
        );
    } else {
        let w = work(axes, axes.len());
        assert(w * 1 == w) by (nonlinear_arith);
    }
}

/// Splitting an axis leaves the work as it is: what the old axis loses in steps,
/// the new one has.
pub proof fn lemma_split_keeps_work(axes: Seq<Axis>, k: int, amount: usize, kind: AxisType)
    requires
        in_order(axes),
        0 <= k < axes.len(),
        most(axes[k].extent) > 0,
        max_id(axes, axes.len()) < usize::MAX,
        split_axes(axes, k, amount, kind) is Ok,
    ensures
        ({
            let after = split_axes(axes, k, amount, kind)->Ok_0;
            work(after, after.len()) == work(axes, axes.len())
        }),
        in_order(split_axes(axes, k, amount, kind)->Ok_0),
{
    let extent = divided(axes[k].extent, amount)->Ok_0;
    let old = Axis { id: axes[k].id, kind: axes[k].kind, extent };
    let new = Axis {
        id: (max_id(axes, axes.len()) + 1) as usize,
        kind,
        extent: Extent::Const(amount),
    };
    let rest = axes.remove(k);
    lemma_divided(axes[k].extent, amount);
    lemma_remove_in_order(axes, k);
    lemma_max_id(axes, axes.len());
    assert forall|i: int| 0 <= i < rest.len() implies (#[trigger] rest[i]).id != new.id by {
        let j = if i < k {
            i
        } else {
            i + 1
        };
        assert(rest[i] == axes[j]);
    }
    lemma_with_axis_fresh(rest, old, new.id);
    lemma_with_axis_in_order(rest, old);
    let middle = with_axis(rest, old);
    lemma_with_axis_in_order(middle, new);
    let q = most(extent) as nat;
    let a = amount as nat;
    let e = most(axes[k].extent) as nat;
    assert(q > 0) by (nonlinear_arith)
        requires
            q * a == e,
            e > 0,
    ;
    lemma_work_with_axis(rest, old);
    lemma_work_with_axis(middle, new);
    assert(rest.insert(k, axes[k]) =~= axes);
    lemma_work_insert(rest, k, axes[k], rest.len());
    let w = work(rest, rest.len());
    assert((w * q) * a == w * e) by (nonlinear_arith)
        requires
            q * a == e,
    ;
}

/// The index that a split axis and the axis split off it stand for: the new axis
/// varies fastest, unless it was put on top.
pub open spec fn joined(top: bool, quotient: int, amount: int, replaced: int, new: int) -> int {
    if top {
        new * quotient + replaced
    } else {
        replaced * amount + new
    }
}

/// Each step of an axis is taken by exactly one pair of steps after a split.
pub proof fn lemma_split_covers(top: bool, quotient: int, amount: int, step: int)
    requires
        0 < quotient,
        0 < amount,
        0 <= step < quotient * amount,
    ensures
        exists|replaced: int, new: int|
            0 <= replaced < quotient && 0 <= new < amount && #[trigger] joined(
                top,
                quotient,
                amount,
                replaced,
                new,
            ) == step,
        forall|a: int, b: int, c: int, d: int|
            0 <= a < quotient && 0 <= b < amount && 0 <= c < quotient && 0 <= d < amount
                && #[trigger] joined(top, quotient, amount, a, b) == #[trigger] joined(
                top,
                quotient,
                amount,
                c,
                d,
            ) ==> a == c && b == d,
{
    let m = if top {
        quotient
    } else {
        amount
    };
    let high = step / m;
    let low = step % m;
    assert(high * m + low == step && 0 <= low < m && 0 <= high) by (nonlinear_arith)
        requires
            m > 0,
            step >= 0,
            high == step / m,
            low == step % m,
    ;
    if top {
        assert(high < amount) by (nonlinear_arith)
            requires
                high * quotient + low == step,
                0 <= low,
                step < quotient * amount,
                quotient > 0,
        ;
        assert(joined(top, quotient, amount, low, high) == step);
    } else {
        assert(high < quotient) by (nonlinear_arith)
            requires
                high * amount + low == step,
                0 <= low,
                step < quotient * amount,
                amount > 0,
        ;
        assert(joined(top, quotient, amount, high, low) == step);
    }
    assert forall|a: int, b: int, c: int, d: int|
        0 <= a < quotient && 0 <= b < amount && 0 <= c < quotient && 0 <= d < amount
            && #[trigger] joined(top, quotient, amount, a, b) == #[trigger] joined(
            top,
            quotient,
            amount,
            c,
            d,
        ) implies a == c && b == d by {
        if top {
            lemma_digits(b, a, d, c, quotient);
        } else {
            lemma_digits(a, b, c, d, amount);
        }
    }
}

proof fn lemma_digits(a: int, b: int, c: int, d: int, m: int)
    requires
        0 <= b < m,
        0 <= d < m,
        a * m + b == c * m + d,
    ensures
        a == c,
        b == d,
{
    assert((a - c) * m == d - b) by (nonlinear_arith)
        requires
            a * m + b == c * m + d,
    ;
    assert(a == c) by (nonlinear_arith)
        requires
            (a - c) * m == d - b,
            -m < d - b < m,
            m > 0,
    ;
}

} // verus!
