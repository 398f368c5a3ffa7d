//! Lists of optimizations: those that a kernel's author gives, and those that
//! are found for a kernel without any.

use vstd::prelude::*;

use crate::graph::AxisType;
use crate::kernel_shape::lane_size;
use crate::opts::{opt, Opt, OptOps};
use crate::scheduler::{
    apply_opt, capped, capped_product, contains_kind, divide, divided, greatest, has_kind, has_room,
    is_globalizable, lemma_capped_product, most, optimized, picked, recorded, work, Axis, Choice,
    Extent, OptError, Schedule, Scheduler,
};

verus! {

/// What the first `n` optimizations of a list make of a schedule; the first one
/// that fails ends it.
pub open spec fn all_applied(s: Schedule, opts: Seq<Opt>, n: nat) -> (Schedule, Option<OptError>)
    decreases n,
{
    if n == 0 {
        (s, None)
    } else {
        let (before, error) = all_applied(s, opts, (n - 1) as nat);
        if error is Some {
            (before, error)
        } else {
            match optimized(before, opts[n - 1]) {
                Ok(next) => (recorded(next, opts[n - 1]), None),
                Err(error) => (before, Some(error)),
            }
        }
    }
}

/// Whether the numbers that a list of optimizations brings fit a machine
/// integer.
pub open spec fn all_room(s: Schedule, opts: Seq<Opt>) -> bool {
    forall|n: nat|
        n < opts.len() ==> has_room(#[trigger] all_applied(s, opts, n).0.axes, opts[n as int])
}

proof fn lemma_error_stays(s: Schedule, opts: Seq<Opt>, n: nat, m: nat)
    requires
        n <= m,
        all_applied(s, opts, n).1 is Some,
    ensures
        all_applied(s, opts, m) == all_applied(s, opts, n),
    decreases m,
{
    if n < m {
        lemma_error_stays(s, opts, n, (m - 1) as nat);
    }
}

/// Applies optimizations in order and records them. The first that fails is
/// reported, with those before it applied.
pub fn apply_opts(scheduler: &mut Scheduler, opts: &Vec<Opt>) -> (r: Result<(), OptError>)
    requires
        old(scheduler).wf(),
        all_room(old(scheduler)@, opts@),
    ensures
        final(scheduler).wf(),
        final(scheduler)@ == all_applied(old(scheduler)@, opts@, opts@.len()).0,
        match all_applied(old(scheduler)@, opts@, opts@.len()).1 {
            None => r is Ok,
            Some(error) => r == Err::<(), OptError>(error),
        },
{
    let ghost start = scheduler@;
    let mut n: usize = 0;
    while n < opts.len()
        invariant
            n <= opts@.len(),
            scheduler.wf(),
            all_room(start, opts@),
            start == old(scheduler)@,
            all_applied(start, opts@, n as nat) == (scheduler@, None::<OptError>),
        decreases opts@.len() - n,
    {
        assert(has_room(all_applied(start, opts@, n as nat).0.axes, opts@[n as int]));
        match apply_opt(scheduler, &opts[n], true) {
            Ok(()) => {},
            Err(error) => {
                proof {
                    lemma_error_stays(start, opts@, (n + 1) as nat, opts@.len());
                }
                return Err(error);
            },
        }
        n += 1;
    }
    Ok(())
}

/// The list that a kernel's author gave comes before the one of the
/// configuration, an empty one too.
pub fn chosen_opts(marker: Option<Vec<Opt>>, config: Option<Vec<Opt>>) -> (opts: Option<Vec<Opt>>)
    ensures
        opts == (if marker is Some {
            marker
        } else {
            config
        }),
{
    match marker {
        Some(opts) => Some(opts),
        None => config,
    }
}

/// The axis that a vector of four is split off where nothing else is: the
/// innermost that can be, if four divides it and no lane holds more than one
/// value yet.
pub open spec fn default_upcast(s: Schedule) -> Option<Opt> {
    let list = picked(s.axes, Choice::Upcastable, s.axes.len());
    if list.len() == 0 || lane_size(s.axes, s.axes.len()) > 1 || most(
        s.axes[list.last() as int].extent,
    ) % 4 != 0 {
        None
    } else {
        Some(Opt { op: OptOps::UPCAST, axis: Some(list.last()), arg: Some(4) })
    }
}

/// Splits a vector of four off, where nothing else was. Says whether it did.
pub fn apply_default_upcast(scheduler: &mut Scheduler) -> (r: bool)
    requires
        old(scheduler).wf(),
        crate::scheduler::max_id(old(scheduler)@.axes, old(scheduler)@.axes.len()) < usize::MAX,
    ensures
        final(scheduler).wf(),
        match default_upcast(old(scheduler)@) {
            None => !r && final(scheduler)@ == old(scheduler)@,
            Some(opt) => match optimized(old(scheduler)@, opt) {
                Ok(next) => r && final(scheduler)@ == recorded(next, opt),
                Err(_) => !r && final(scheduler)@ == old(scheduler)@,
            },
        },
{
    let list = scheduler.upcastable_dims();
    if list.len() == 0 || scheduler.upcasted() {
        return false;
    }
    let k: usize = list[list.len() - 1];
    let count: usize = scheduler.axes.len();
    proof {
        assert(count == scheduler.axes@.len());
        crate::scheduler::lemma_picked(
            scheduler.axes@,
            Choice::Upcastable,
            scheduler.axes@.len(),
        );
    }
    if greatest(scheduler.axes[k].extent) % 4 != 0 {
        return false;
    }
    apply_opt(scheduler, &opt(OptOps::UPCAST, k, 4), true).is_ok()
}

/// The numbers of threads that are tried, the largest first.
pub open spec fn thread_counts() -> Seq<usize> {
    seq![32, 16, 12, 8, 6, 5, 4, 3, 2]
}

/// How many steps a thread has to have.
pub const STEPS_PER_THREAD: usize = 131072;

/// Whether a number of threads is allowed and worth its while.
pub open spec fn is_worthwhile(s: Schedule, threads: usize, count: usize) -> bool {
    &&& count <= threads
    &&& s.renderer.threads is Some
    &&& count <= s.renderer.threads->0
    &&& work(s.axes, s.axes.len()) >= STEPS_PER_THREAD * count
}

/// The first axis from `k` on that can run in parallel and that a number of
/// threads divides.
pub open spec fn divisible_axis(s: Schedule, count: usize, k: nat) -> Option<usize>
    decreases s.axes.len() - k,
{
    if k >= s.axes.len() {
        None
    } else if is_globalizable(s.private_axes, s.axes[k as int]) && divided(
        s.axes[k as int].extent,
        count,
    ) is Ok {
        Some(k as usize)
    } else {
        divisible_axis(s, count, k + 1)
    }
}

/// The first axis from `k` on that can run in parallel and whose extent is
/// constant.
pub open spec fn paddable_axis(s: Schedule, k: nat) -> Option<usize>
    decreases s.axes.len() - k,
{
    if k >= s.axes.len() {
        None
    } else if is_globalizable(s.private_axes, s.axes[k as int]) && s.axes[k as int].extent is Const {
        Some(k as usize)
    } else {
        paddable_axis(s, k + 1)
    }
}

/// The first number of threads from `i` on that divides an axis.
pub open spec fn dividing_plan(s: Schedule, threads: usize, i: nat) -> Option<(usize, usize)>
    decreases thread_counts().len() - i,
{
    if i >= thread_counts().len() {
        None
    } else {
        let count = thread_counts()[i as int];
        match divisible_axis(s, count, 0) {
            Some(k) if is_worthwhile(s, threads, count) => Some((k, count)),
            _ => dividing_plan(s, threads, i + 1),
        }
    }
}

/// The first number of threads from `i` on that is worth its while, and the axis
/// to pad for it.
pub open spec fn padding_plan(s: Schedule, threads: usize, i: nat) -> Option<(usize, usize)>
    decreases thread_counts().len() - i,
{
    if i >= thread_counts().len() {
        None
    } else {
        let count = thread_counts()[i as int];
        match paddable_axis(s, 0) {
            Some(k) if is_worthwhile(s, threads, count) => Some((k, count)),
            _ => padding_plan(s, threads, i + 1),
        }
    }
}

/// The optimizations that spread a kernel over threads: the largest number of
/// them that divides an axis, or else an axis padded to the largest number. A
/// kernel with threads gets none.
pub open spec fn thread_plan(s: Schedule, threads: usize) -> Seq<Opt> {
    if has_kind(s.axes, AxisType::Thread) {
        Seq::empty()
    } else {
        match dividing_plan(s, threads, 0) {
            Some((k, count)) => seq![Opt { op: OptOps::THREAD, axis: Some(k), arg: Some(count) }],
            None => match padding_plan(s, threads, 0) {
                Some((k, count)) => seq![
                    Opt { op: OptOps::PADTO, axis: Some(k), arg: Some(count) },
                    Opt { op: OptOps::THREAD, axis: Some(k), arg: Some(count) },
                ],
                None => Seq::empty(),
            },
        }
    }
}

fn find_work(axes: &Vec<Axis>) -> (steps: usize)
    ensures
        steps == capped(work(axes@, axes@.len())),
{
    let mut steps: usize = 1;
    let mut n: usize = 0;
    while n < axes.len()
        invariant
            n <= axes@.len(),
            steps == capped(work(axes@, n as nat)),
        decreases axes@.len() - n,
    {
        proof {
            lemma_capped_product(work(axes@, n as nat), most(axes@[n as int].extent) as nat);
        }
        steps = capped_product(steps, greatest(axes[n].extent));
        n += 1;
    }
    steps
}

impl Scheduler {
    fn find_divisible_axis(&self, count: usize) -> (k: Option<usize>)
        ensures
            k == divisible_axis(self@, count, 0),
    {
        let mut k: usize = 0;
        while k < self.axes.len()
            invariant
                k <= self.axes@.len(),
                divisible_axis(self@, count, 0) == divisible_axis(self@, count, k as nat),
            decreases self.axes@.len() - k,
        {
            if self.globalizable(self.axes[k]) && divide(self.axes[k].extent, count).is_ok() {
                return Some(k);
            }
            k += 1;
        }
        None
    }

    fn find_paddable_axis(&self) -> (k: Option<usize>)
        ensures
            k == paddable_axis(self@, 0),
    {
        let mut k: usize = 0;
        while k < self.axes.len()
            invariant
                k <= self.axes@.len(),
                paddable_axis(self@, 0) == paddable_axis(self@, k as nat),
            decreases self.axes@.len() - k,
        {
            if self.globalizable(self.axes[k]) && matches!(self.axes[k].extent, Extent::Const(_)) {
                return Some(k);
            }
            k += 1;
        }
        None
    }

    fn worthwhile(&self, threads: usize, count: usize) -> (r: bool)
        requires
            count <= 32,
        ensures
            r == is_worthwhile(self@, threads, count),
    {
        match self.renderer.threads {
            None => false,
            Some(max) => count <= threads && count <= max && find_work(&self.axes)
                >= STEPS_PER_THREAD * count,
        }
    }

    fn find_thread_plan(&self, threads: usize) -> (plan: Vec<Opt>)
        ensures
            plan@ == thread_plan(self@, threads),
    {
        let mut plan: Vec<Opt> = Vec::new();
        if contains_kind(&self.axes, AxisType::Thread) {
            return plan;
        }
        let counts: Vec<usize> = vec![32, 16, 12, 8, 6, 5, 4, 3, 2];
        assert(counts@ =~= thread_counts());
        let mut i: usize = 0;
        while i < counts.len()
            invariant
                i <= counts@.len(),
                counts@ == thread_counts(),
                dividing_plan(self@, threads, 0) == dividing_plan(self@, threads, i as nat),
                !has_kind(self@.axes, AxisType::Thread),
                plan@ == Seq::<Opt>::empty(),
            decreases counts@.len() - i,
        {
            let count: usize = counts[i];
            let found = self.find_divisible_axis(count);
            match found {
                Some(k) => {
                    if self.worthwhile(threads, count) {
                        plan.push(opt(OptOps::THREAD, k, count));
                        assert(plan@ =~= thread_plan(self@, threads));
                        return plan;
                    }
                },
                None => {},
            }
            i += 1;
        }
        i = 0;
        while i < counts.len()
            invariant
                i <= counts@.len(),
                counts@ == thread_counts(),
                dividing_plan(self@, threads, 0) is None,
                padding_plan(self@, threads, 0) == padding_plan(self@, threads, i as nat),
                !has_kind(self@.axes, AxisType::Thread),
                plan@ == Seq::<Opt>::empty(),
            decreases counts@.len() - i,
        {
            let count: usize = counts[i];
            let found = self.find_paddable_axis();
            match found {
                Some(k) => {
                    if self.worthwhile(threads, count) {
                        plan.push(opt(OptOps::PADTO, k, count));
                        plan.push(opt(OptOps::THREAD, k, count));
                        assert(plan@ =~= thread_plan(self@, threads));
                        return plan;
                    }
                },
                None => {},
            }
            i += 1;
        }
        plan
    }
}

/// Spreads a kernel over threads. Says whether it did.
pub fn apply_threading(scheduler: &mut Scheduler, threads: usize) -> (r: bool)
    requires
        old(scheduler).wf(),
        all_room(old(scheduler)@, thread_plan(old(scheduler)@, threads)),
    ensures
        final(scheduler).wf(),
        ({
            let plan = thread_plan(old(scheduler)@, threads);
            let (next, error) = all_applied(old(scheduler)@, plan, plan.len());
            &&& final(scheduler)@ == next
            &&& r == (plan.len() > 0 && error is None)
        }),
{
    let plan = scheduler.find_thread_plan(threads);
    let applied = apply_opts(scheduler, &plan);
    plan.len() > 0 && applied.is_ok()
}

} // verus!
