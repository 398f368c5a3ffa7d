//! What an optimization does to the axes of a schedule.

use vstd::prelude::*;

use crate::graph::AxisType;
use crate::opts::{Opt, OptOps};
use crate::scheduler::{
    before_count, divided, in_order, is_chosen, is_scheduled, lemma_aligned,
    lemma_split_keeps_work, max_id, most, named_axis, optimized, picked, split_axes, split_kind,
    with_axis, work, Axis, Choice, Extent, OptError, Schedule,
};

verus! {

/// The axes that an optimization counts among to find the one that it names.
pub open spec fn counted_among(op: OptOps, axis: Axis) -> bool {
    match op {
        OptOps::UNROLL => axis.extent is Const && (axis.kind == AxisType::Reduce || axis.kind
            == AxisType::GroupReduce),
        OptOps::GROUP | OptOps::GROUPTOP => axis.kind == AxisType::Reduce,
        _ => true,
    }
}

/// How many of the first `n` axes an optimization counts among.
pub open spec fn counted_before(axes: Seq<Axis>, op: OptOps, n: nat) -> nat
    decreases n,
{
    if n == 0 {
        0
    } else {
        counted_before(axes, op, (n - 1) as nat) + if counted_among(op, axes[n - 1]) {
            1nat
        } else {
            0nat
        }
    }
}

proof fn lemma_picked_counts(axes: Seq<Axis>, choice: Choice, op: OptOps, n: nat)
    requires
        n <= axes.len() <= usize::MAX,
        forall|i: int|
            0 <= i < axes.len() ==> is_chosen(choice, #[trigger] axes[i]) == counted_among(
                op,
                axes[i],
            ),
    ensures
        picked(axes, choice, n).len() == counted_before(axes, op, n),
        forall|j: int|
            0 <= j < picked(axes, choice, n).len() ==> {
                let k = #[trigger] picked(axes, choice, n)[j];
                &&& k < n
                &&& counted_among(op, axes[k as int])
                &&& counted_before(axes, op, k as nat) == j
            },
    decreases n,
{
    if n > 0 {
        lemma_picked_counts(axes, choice, op, (n - 1) as nat);
        assert(is_chosen(choice, axes[n - 1]) == counted_among(op, axes[n - 1]));
    }
}

proof fn lemma_all_counted(axes: Seq<Axis>, op: OptOps, n: nat)
    requires
        n <= axes.len(),
        op != OptOps::UNROLL,
        op != OptOps::GROUP,
        op != OptOps::GROUPTOP,
    ensures
        counted_before(axes, op, n) == n,
    decreases n,
{
    if n > 0 {
        lemma_all_counted(axes, op, (n - 1) as nat);
    }
}

/// An optimization that names an axis by a number means the one behind as many
/// others of those that it counts among; it is refused where there are fewer.
pub proof fn lemma_axis_is_counted_among_its_kind(axes: Seq<Axis>, op: OptOps, axis: usize)
    requires
        axes.len() <= usize::MAX,
        op != OptOps::TC,
        op != OptOps::NOLOCALS,
    ensures
        named_axis(axes, op, Some(axis)) is Ok <==> axis < counted_before(axes, op, axes.len()),
        named_axis(axes, op, Some(axis)) matches Ok(found) ==> found matches Some(k) && k
            < axes.len() && counted_among(op, axes[k as int]) && counted_before(axes, op, k as nat)
            == axis,
{
    if op == OptOps::UNROLL {
        lemma_picked_counts(axes, Choice::Unrollable, op, axes.len());
    } else if op == OptOps::GROUP || op == OptOps::GROUPTOP {
        lemma_picked_counts(axes, Choice::Kind(AxisType::Reduce), op, axes.len());
    } else {
        lemma_all_counted(axes, op, axes.len());
        if axis < axes.len() {
            lemma_all_counted(axes, op, axis as nat);
        }
    }
}

proof fn lemma_count_is_below(axes: Seq<Axis>, axis: Axis, n: nat)
    ensures
        before_count(axes, axis, n) <= n,
    decreases n,
{
    if n > 0 {
        lemma_count_is_below(axes, axis, (n - 1) as nat);
    }
}

/// Axes with one more hold the others and, where it takes more than a step, the
/// one.
proof fn lemma_with_axis(axes: Seq<Axis>, axis: Axis, x: Axis)
    ensures
        with_axis(axes, axis).contains(x) <==> axes.contains(x) || is_scheduled(axis.extent) && x
            == axis,
{
    lemma_count_is_below(axes, axis, axes.len());
    let at = before_count(axes, axis, axes.len()) as int;
    if is_scheduled(axis.extent) {
        let more = axes.insert(at, axis);
        assert(more[at] == axis);
        if axes.contains(x) {
            let i = axes.index_of(x);
            if i < at {
                assert(more[i] == x);
            } else {
                assert(more[i + 1] == x);
            }
        }
        if more.contains(x) && x != axis {
            let i = more.index_of(x);
            if i < at {
                assert(axes[i] == x);
            } else {
                assert(axes[i - 1] == x);
            }
        }
    }
}

/// Whether two extents make up one: where it is constant, the one is as often in
/// it as the other says.
pub open spec fn make_up(rest: Extent, amount: usize, whole: Extent) -> bool {
    match (rest, whole) {
        (Extent::Const(a), Extent::Const(b)) => a * amount == b,
        (Extent::Symbolic { factor: a, .. }, Extent::Symbolic { factor: b, .. }) => a * amount == b,
        _ => false,
    }
}

/// Splitting an axis leaves every other axis as it is. The axis keeps its number
/// and its kind, with what is left of its extent, and a new axis has the amount,
/// the kind that is asked for and a number that no axis has; the two make up
/// the axis that was split. An axis of a single step is left out.
pub proof fn lemma_split_makes_two_of_one(axes: Seq<Axis>, k: int, amount: usize, kind: AxisType)
    requires
        in_order(axes),
        0 <= k < axes.len(),
        max_id(axes, axes.len()) < usize::MAX,
        split_axes(axes, k, amount, kind) is Ok,
    ensures
        exists|rest: Extent, id: usize|
            {
                let after = split_axes(axes, k, amount, kind)->Ok_0;
                &&& #[trigger] make_up(rest, amount, axes[k].extent)
                &&& #[trigger] is_new(axes, id)
                &&& forall|x: Axis| #[trigger]
                    after.contains(x) <==> axes.remove(k).contains(x) || is_scheduled(rest) && x == (
                    Axis { extent: rest, ..axes[k] }) || is_scheduled(Extent::Const(amount)) && x
                        == (Axis { id, kind, extent: Extent::Const(amount) })
            },
{
    let after = split_axes(axes, k, amount, kind)->Ok_0;
    let rest = divided(axes[k].extent, amount)->Ok_0;
    let id = (max_id(axes, axes.len()) + 1) as usize;
    let old = Axis { extent: rest, ..axes[k] };
    let new = Axis { id, kind, extent: Extent::Const(amount) };
    assert(make_up(rest, amount, axes[k].extent)) by {
        match axes[k].extent {
            Extent::Const(size) => {
                assert((size as int / amount as int) * amount == size) by (nonlinear_arith)
                    requires
                        amount > 0,
                        size as int % amount as int == 0,
                ;
            },
            Extent::Symbolic { factor, .. } => {
                assert((factor as int / amount as int) * amount == factor) by (nonlinear_arith)
                    requires
                        amount > 0,
                        factor as int % amount as int == 0,
                ;
            },
        }
    }
    lemma_above_all(axes, axes.len());
    assert(is_new(axes, id));
    let base = axes.remove(k);
    assert forall|x: Axis| #[trigger] after.contains(x) <==> base.contains(x) || is_scheduled(rest)
        && x == old || is_scheduled(Extent::Const(amount)) && x == new by {
        lemma_with_axis(base, old, x);
        lemma_with_axis(with_axis(base, old), new, x);
    }
}

/// Whether no axis has a number.
pub open spec fn is_new(axes: Seq<Axis>, id: usize) -> bool {
    forall|i: int| 0 <= i < axes.len() ==> (#[trigger] axes[i]).id != id
}

proof fn lemma_above_all(axes: Seq<Axis>, n: nat)
    requires
        n <= axes.len(),
    ensures
        forall|i: int| 0 <= i < n ==> (#[trigger] axes[i]).id <= max_id(axes, n),
    decreases n,
{
    if n > 0 {
        lemma_above_all(axes, (n - 1) as nat);
    }
}

/// Exchanging two axes exchanges their extents and nothing else, and doing so
/// twice changes nothing.
pub proof fn lemma_swap_exchanges_extents(s: Schedule, opt: Opt, k: usize, with: usize)
    requires
        opt.op == OptOps::SWAP,
        opt.axis == Some(k),
        opt.arg == Some(with),
    ensures
        optimized(s, opt) is Ok <==> k < s.axes.len() && with < s.axes.len()
            && s.axes[k as int].kind == AxisType::Global && s.axes[with as int].kind
            == AxisType::Global,
        optimized(s, opt) matches Ok(next) ==> {
            &&& next.axes.len() == s.axes.len()
            &&& next.axes[k as int].extent == s.axes[with as int].extent
            &&& next.axes[with as int].extent == s.axes[k as int].extent
            &&& forall|i: int|
                0 <= i < s.axes.len() ==> (#[trigger] next.axes[i]).id == s.axes[i].id
                    && next.axes[i].kind == s.axes[i].kind
            &&& forall|i: int|
                0 <= i < s.axes.len() && i != k && i != with ==> #[trigger] next.axes[i]
                    == s.axes[i]
            &&& next == (Schedule { axes: next.axes, ..s })
            &&& optimized(next, opt) == Ok::<Schedule, OptError>(s)
        },
{
    if let Ok(next) = optimized(s, opt) {
        let again = optimized(next, opt);
        assert(again is Ok);
        assert(again->Ok_0.axes =~= s.axes);
    }
}

/// Padding an axis rounds its extent up to the next multiple of the alignment,
/// and changes nothing else.
pub proof fn lemma_pad_rounds_one_axis_up(s: Schedule, opt: Opt, k: usize, alignment: usize)
    requires
        opt.op == OptOps::PADTO,
        opt.axis == Some(k),
        opt.arg == Some(alignment),
        k < s.axes.len(),
        most(s.axes[k as int].extent) + alignment <= usize::MAX,
        optimized(s, opt) is Ok,
    ensures
        ({
            let next = optimized(s, opt)->Ok_0;
            &&& s.axes[k as int].extent matches Extent::Const(size)
            &&& next.axes[k as int].extent matches Extent::Const(padded)
            &&& size <= padded < size + alignment
            &&& padded as int % alignment as int == 0
            &&& padded / 4 < size
            &&& next.axes == s.axes.update(
                k as int,
                Axis { extent: next.axes[k as int].extent, ..s.axes[k as int] },
            )
            &&& next == (Schedule { axes: next.axes, ..s })
        }),
{
    match s.axes[k as int].extent {
        Extent::Const(size) => {
            lemma_aligned(size, alignment);
        },
        _ => {},
    }
}

/// An optimization that splits an axis splits off an axis of its own kind, of the
/// amount that it is given or of the whole extent where that is zero, and leaves
/// the work and all else of a schedule as they are.
pub proof fn lemma_split_optimization_keeps_work(s: Schedule, opt: Opt, k: usize, arg: usize)
    requires
        in_order(s.axes),
        s.axes.len() <= usize::MAX,
        max_id(s.axes, s.axes.len()) < usize::MAX,
        opt.op != OptOps::SWAP,
        opt.op != OptOps::PADTO,
        opt.op != OptOps::TC,
        opt.op != OptOps::NOLOCALS,
        opt.arg == Some(arg),
        named_axis(s.axes, opt.op, opt.axis) == Ok::<Option<usize>, OptError>(Some(k)),
        k < s.axes.len(),
        most(s.axes[k as int].extent) > 0,
        optimized(s, opt) is Ok,
    ensures
        ({
            let next = optimized(s, opt)->Ok_0;
            let amount = if arg == 0 {
                most(s.axes[k as int].extent)
            } else {
                arg
            };
            &&& work(next.axes, next.axes.len()) == work(s.axes, s.axes.len())
            &&& in_order(next.axes)
            &&& next == (Schedule { axes: next.axes, ..s })
            &&& split_axes(s.axes, k as int, amount, own_kind(opt.op)) is Ok
            &&& next.axes == split_axes(s.axes, k as int, amount, own_kind(opt.op))->Ok_0
        }),
{
    let amount = if arg == 0 {
        most(s.axes[k as int].extent)
    } else {
        arg
    };
    lemma_split_keeps_work(s.axes, k as int, amount, split_kind(opt.op));
}

/// The kind of axis that an optimization is named for.
pub open spec fn own_kind(op: OptOps) -> AxisType {
    if op == OptOps::UPCAST {
        AxisType::Upcast
    } else if op == OptOps::UNROLL {
        AxisType::Unroll
    } else if op == OptOps::LOCAL {
        AxisType::Local
    } else if op == OptOps::THREAD {
        AxisType::Thread
    } else {
        AxisType::GroupReduce
    }
}

} // verus!
