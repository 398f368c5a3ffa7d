//! What the axes of a kernel say of it: its shapes, and the names that list
//! them.

use vstd::prelude::*;

use crate::env::NameMap;
use crate::graph::AxisType;
use crate::scheduler::{
    arranged, capped, is_globalizable, most, Axis, Extent, Reduction, Schedule, Scheduler,
};
use crate::text::{decimal, lemma_decimal_spells, push_decimal, push_text};

verus! {

/// The constant value of an extent, or minus one.
pub open spec fn size_of(extent: Extent) -> i64 {
    match extent {
        Extent::Const(n) => n as i64,
        Extent::Symbolic { .. } => -1i64,
    }
}

/// The sizes of all axes; one that is not constant is minus one.
pub open spec fn full_sizes(axes: Seq<Axis>) -> Seq<i64> {
    Seq::new(axes.len(), |i: int| size_of(axes[i].extent))
}

/// Axes that a kernel reduces over.
pub open spec fn is_reduced(kind: AxisType) -> bool {
    kind == AxisType::Reduce || kind == AxisType::GroupReduce || kind == AxisType::Unroll
}

/// The sizes of what a kernel stores, along the first `n` axes.
pub open spec fn output_sizes(axes: Seq<Axis>, n: nat) -> Seq<i64>
    decreases n,
{
    if n == 0 {
        Seq::empty()
    } else {
        let rest = output_sizes(axes, (n - 1) as nat);
        let axis = axes[n - 1];
        if axis.extent is Const && !is_reduced(axis.kind) {
            rest.push(size_of(axis.extent))
        } else {
            rest
        }
    }
}

/// How many values a lane holds: the vector and the unrolled axes together, of
/// the first `n`.
pub open spec fn lane_size(axes: Seq<Axis>, n: nat) -> nat
    decreases n,
{
    if n == 0 {
        1
    } else {
        let rest = lane_size(axes, (n - 1) as nat);
        if axes[n - 1].kind == AxisType::Upcast || axes[n - 1].kind == AxisType::Unroll {
            rest * (most(axes[n - 1].extent) as nat)
        } else {
            rest
        }
    }
}

/// Where the axes of some kinds stand, among the first `n`.
pub open spec fn places_of(axes: Seq<Axis>, kinds: Seq<AxisType>, n: nat) -> Seq<usize>
    decreases n,
{
    if n == 0 {
        Seq::empty()
    } else {
        let rest = places_of(axes, kinds, (n - 1) as nat);
        if kinds.contains(axes[n - 1].kind) {
            rest.push((n - 1) as usize)
        } else {
            rest
        }
    }
}

/// The letter of a kind of axis.
pub open spec fn letter(kind: AxisType) -> char {
    match kind {
        AxisType::Loop | AxisType::Weak => 'L',
        AxisType::Global => 'g',
        AxisType::Thread => 't',
        AxisType::Device => 'd',
        AxisType::Local => 'l',
        AxisType::Upcast => 'u',
        AxisType::GroupReduce => 'G',
        AxisType::Reduce => 'R',
        AxisType::Unroll => 'r',
    }
}

/// An extent as text; one that is not constant is a question mark.
pub open spec fn extent_text(extent: Extent) -> Seq<char> {
    match extent {
        Extent::Const(n) => decimal(n as nat),
        Extent::Symbolic { .. } => seq!['?'],
    }
}

/// An axis as text: its letter and its extent.
pub open spec fn axis_text(axis: Axis) -> Seq<char> {
    seq![letter(axis.kind)] + extent_text(axis.extent)
}

/// The first `n` axes as one text.
pub open spec fn shape_text(axes: Seq<Axis>, n: nat) -> Seq<char>
    decreases n,
{
    if n == 0 {
        Seq::empty()
    } else {
        shape_text(axes, (n - 1) as nat) + axis_text(axes[n - 1])
    }
}

/// Kernels that reduce are told from those that work element by element.
pub open spec fn type_letter(reduction: Reduction) -> char {
    match reduction {
        Reduction::Elementwise => 'E',
        _ => 'r',
    }
}

/// The extents of the first `n` axes, each after an underscore.
pub open spec fn extents_text(extents: Seq<Extent>, n: nat) -> Seq<char>
    decreases n,
{
    if n == 0 {
        Seq::empty()
    } else {
        extents_text(extents, (n - 1) as nat) + (seq!['_'] + extent_text(extents[n - 1]))
    }
}

/// The extents of axes.
pub open spec fn extents_of(axes: Seq<Axis>) -> Seq<Extent> {
    Seq::new(axes.len(), |i: int| axes[i].extent)
}

/// The name of a kernel: what type it is, the extents of the indices that the
/// device gives, and the extents of its axes.
pub open spec fn name_text(s: Schedule, specials: Seq<Extent>) -> Seq<char> {
    seq![type_letter(s.body.reduction)] + extents_text(specials, specials.len()) + extents_text(
        extents_of(s.axes),
        s.axes.len(),
    )
}

fn axis_letter(kind: AxisType) -> (c: char)
    ensures
        c == letter(kind),
{
    match kind {
        AxisType::Loop | AxisType::Weak => 'L',
        AxisType::Global => 'g',
        AxisType::Thread => 't',
        AxisType::Device => 'd',
        AxisType::Local => 'l',
        AxisType::Upcast => 'u',
        AxisType::GroupReduce => 'G',
        AxisType::Reduce => 'R',
        AxisType::Unroll => 'r',
    }
}

fn push_extent(text: &mut String, extent: Extent)
    ensures
        final(text)@ == old(text)@ + extent_text(extent),
{
    match extent {
        Extent::Const(n) => push_decimal(text, n as u64),
        Extent::Symbolic { .. } => {
            text.push('?');
            assert(text@ =~= old(text)@ + extent_text(extent));
        },
    }
}

fn push_axis(text: &mut String, axis: Axis)
    ensures
        final(text)@ == old(text)@ + axis_text(axis),
{
    text.push(axis_letter(axis.kind));
    push_extent(text, axis.extent);
    assert(text@ =~= old(text)@ + axis_text(axis));
}

fn push_extents(text: &mut String, extents: &Vec<Extent>)
    ensures
        final(text)@ == old(text)@ + extents_text(extents@, extents@.len()),
{
    let mut n: usize = 0;
    assert(text@ =~= old(text)@ + extents_text(extents@, 0));
    while n < extents.len()
        invariant
            n <= extents@.len(),
            text@ == old(text)@ + extents_text(extents@, n as nat),
        decreases extents@.len() - n,
    {
        text.push('_');
        push_extent(text, extents[n]);
        n += 1;
        assert(text@ =~= old(text)@ + extents_text(extents@, n as nat));
    }
}

fn contains_axis_type(kinds: &Vec<AxisType>, kind: AxisType) -> (r: bool)
    ensures
        r == kinds@.contains(kind),
{
    let mut n: usize = 0;
    while n < kinds.len()
        invariant
            n <= kinds@.len(),
            forall|i: int| 0 <= i < n ==> kinds@[i] != kind,
        decreases kinds@.len() - n,
    {
        if kinds[n] == kind {
            return true;
        }
        n += 1;
    }
    false
}

/// An axis that can run in parallel, made to.
pub open spec fn made_global(private_axes: Seq<usize>, axis: Axis) -> Axis {
    if is_globalizable(private_axes, axis) {
        Axis { kind: AxisType::Global, ..axis }
    } else {
        axis
    }
}

/// Axes with those that can run in parallel made to.
pub open spec fn globals(axes: Seq<Axis>, private_axes: Seq<usize>) -> Seq<Axis> {
    Seq::new(axes.len(), |i: int| made_global(private_axes, axes[i]))
}

impl Scheduler {
    /// The sizes of all axes; one that is not constant is minus one.
    pub fn full_shape(&self) -> (sizes: Vec<i64>)
        requires
            self.wf(),
        ensures
            sizes@ == full_sizes(self@.axes),
    {
        let mut sizes: Vec<i64> = Vec::new();
        let mut n: usize = 0;
        while n < self.axes.len()
            invariant
                n <= self.axes@.len(),
                self.wf(),
                sizes@.len() == n,
                forall|i: int| 0 <= i < n ==> sizes@[i] == size_of(self.axes@[i].extent),
            decreases self.axes@.len() - n,
        {
            sizes.push(constant_size(self.axes[n].extent));
            n += 1;
        }
        assert(sizes@ =~= full_sizes(self@.axes));
        sizes
    }

    /// The constant sizes of the axes that are not reduced over.
    pub fn output_shape(&self) -> (sizes: Vec<i64>)
        requires
            self.wf(),
        ensures
            sizes@ == output_sizes(self@.axes, self@.axes.len()),
    {
        let mut sizes: Vec<i64> = Vec::new();
        let mut n: usize = 0;
        while n < self.axes.len()
            invariant
                n <= self.axes@.len(),
                self.wf(),
                sizes@ == output_sizes(self.axes@, n as nat),
            decreases self.axes@.len() - n,
        {
            let axis = self.axes[n];
            let reduced = axis.kind == AxisType::Reduce || axis.kind == AxisType::GroupReduce
                || axis.kind == AxisType::Unroll;
            if matches!(axis.extent, Extent::Const(_)) && !reduced {
                sizes.push(constant_size(axis.extent));
            }
            n += 1;
        }
        sizes
    }

    /// How many values a lane holds.
    pub fn upcast_size(&self) -> (size: usize)
        ensures
            size == capped(lane_size(self@.axes, self@.axes.len())),
    {
        let mut size: usize = 1;
        let mut n: usize = 0;
        while n < self.axes.len()
            invariant
                n <= self.axes@.len(),
                size == capped(lane_size(self.axes@, n as nat)),
            decreases self.axes@.len() - n,
        {
            let axis = self.axes[n];
            if axis.kind == AxisType::Upcast || axis.kind == AxisType::Unroll {
                proof {
                    crate::scheduler::lemma_capped_product(
                        lane_size(self.axes@, n as nat),
                        most(axis.extent) as nat,
                    );
                }
                size = crate::scheduler::capped_product(
                    size,
                    crate::scheduler::greatest(axis.extent),
                );
            }
            n += 1;
        }
        size
    }

    /// Whether a lane holds more than one value.
    pub fn upcasted(&self) -> (r: bool)
        requires
            self.wf(),
        ensures
            r == (lane_size(self@.axes, self@.axes.len()) > 1),
    {
        self.upcast_size() > 1
    }

    /// Where the axes of some kinds stand.
    pub fn axes_of(&self, kinds: &Vec<AxisType>) -> (list: Vec<usize>)
        ensures
            list@ == places_of(self@.axes, kinds@, self@.axes.len()),
    {
        let mut list: Vec<usize> = Vec::new();
        let mut n: usize = 0;
        while n < self.axes.len()
            invariant
                n <= self.axes@.len(),
                list@ == places_of(self.axes@, kinds@, n as nat),
            decreases self.axes@.len() - n,
        {
            if contains_axis_type(kinds, self.axes[n].kind) {
                list.push(n);
            }
            n += 1;
        }
        list
    }

    /// The axes as texts.
    pub fn shape_str(&self) -> (texts: Vec<String>)
        ensures
            texts@.len() == self@.axes.len(),
            forall|i: int|
                0 <= i < texts@.len() ==> (#[trigger] texts@[i])@ == axis_text(self@.axes[i]),
    {
        let mut texts: Vec<String> = Vec::new();
        let mut n: usize = 0;
        while n < self.axes.len()
            invariant
                n <= self.axes@.len(),
                texts@.len() == n,
                forall|i: int|
                    0 <= i < n ==> (#[trigger] texts@[i])@ == axis_text(self.axes@[i]),
            decreases self.axes@.len() - n,
        {
            let mut text = String::new();
            push_axis(&mut text, self.axes[n]);
            assert(text@ =~= axis_text(self.axes@[n as int]));
            texts.push(text);
            n += 1;
        }
        texts
    }

    /// The axes as one text.
    pub fn colored_shape(&self) -> (text: String)
        ensures
            text@ == shape_text(self@.axes, self@.axes.len()),
    {
        let mut text = String::new();
        self.push_shape(&mut text);
        assert(text@ =~= shape_text(self@.axes, self@.axes.len()));
        text
    }

    fn push_shape(&self, text: &mut String)
        ensures
            final(text)@ == old(text)@ + shape_text(self@.axes, self@.axes.len()),
    {
        let mut n: usize = 0;
        assert(text@ =~= old(text)@ + shape_text(self.axes@, 0));
        while n < self.axes.len()
            invariant
                n <= self.axes@.len(),
                text@ == old(text)@ + shape_text(self.axes@, n as nat),
            decreases self.axes@.len() - n,
        {
            push_axis(text, self.axes[n]);
            n += 1;
            assert(text@ =~= old(text)@ + shape_text(self.axes@, n as nat));
        }
    }

    /// The letter of the type of kernel.
    pub fn kernel_type(&self) -> (c: char)
        ensures
            c == type_letter(self@.body.reduction),
    {
        if self.body.reduction == Reduction::Elementwise {
            'E'
        } else {
            'r'
        }
    }

    /// The scheduler as text: the type of kernel, an underscore and the axes.
    pub fn to_text(&self) -> (text: String)
        ensures
            text@ == seq![type_letter(self@.body.reduction), '_'] + shape_text(
                self@.axes,
                self@.axes.len(),
            ),
    {
        let mut text = String::new();
        text.push(self.kernel_type());
        text.push('_');
        self.push_shape(&mut text);
        assert(text@ =~= seq![type_letter(self@.body.reduction), '_'] + shape_text(
            self@.axes,
            self@.axes.len(),
        ));
        text
    }

    /// The name of the kernel, before it is told from other kernels of that name.
    pub fn kernel_name(&self, specials: &Vec<Extent>) -> (name: String)
        ensures
            name@ == name_text(self@, specials@),
    {
        let mut name = String::new();
        name.push(self.kernel_type());
        push_extents(&mut name, specials);
        let mut extents: Vec<Extent> = Vec::new();
        let mut n: usize = 0;
        while n < self.axes.len()
            invariant
                n <= self.axes@.len(),
                extents@.len() == n,
                forall|i: int| 0 <= i < n ==> extents@[i] == self.axes@[i].extent,
            decreases self.axes@.len() - n,
        {
            extents.push(self.axes[n].extent);
            n += 1;
        }
        assert(extents@ =~= extents_of(self@.axes));
        push_extents(&mut name, &extents);
        assert(name@ =~= name_text(self@, specials@));
        name
    }

    /// The axes that can run in parallel, by their numbers.
    pub fn globalizable_rngs(&self) -> (ids: Vec<usize>)
        ensures
            ids@ == globalizable_ids(self@.axes, self@.private_axes, self@.axes.len()),
    {
        let mut ids: Vec<usize> = Vec::new();
        let mut n: usize = 0;
        while n < self.axes.len()
            invariant
                n <= self.axes@.len(),
                ids@ == globalizable_ids(self.axes@, self.private_axes@, n as nat),
            decreases self.axes@.len() - n,
        {
            if self.globalizable(self.axes[n]) {
                ids.push(self.axes[n].id);
            }
            n += 1;
        }
        ids
    }

    /// Makes the axes that can run in parallel do so, where the device has local
    /// memory.
    pub fn convert_loop_to_global(&mut self)
        requires
            old(self).wf(),
        ensures
            final(self).wf(),
            final(self)@ == (if old(self)@.renderer.has_local {
                let list = globals(old(self)@.axes, old(self)@.private_axes);
                Schedule { axes: arranged(list, list.len()), ..old(self)@ }
            } else {
                old(self)@
            }),
    {
        if !self.renderer.has_local {
            return ;
        }
        let mut list: Vec<Axis> = Vec::new();
        let mut n: usize = 0;
        while n < self.axes.len()
            invariant
                n <= self.axes@.len(),
                list@.len() == n,
                forall|i: int|
                    0 <= i < n ==> list@[i] == made_global(self.private_axes@, self.axes@[i]),
            decreases self.axes@.len() - n,
        {
            let axis = self.axes[n];
            if self.globalizable(axis) {
                list.push(Axis { id: axis.id, kind: AxisType::Global, extent: axis.extent });
            } else {
                list.push(axis);
            }
            n += 1;
        }
        assert(list@ =~= globals(self@.axes, self@.private_axes));
        self.axes = crate::scheduler::arrange(&list);
    }
}

fn constant_size(extent: Extent) -> (size: i64)
    requires
        crate::scheduler::is_sound(extent),
    ensures
        size == size_of(extent),
{
    match extent {
        Extent::Const(n) => n as i64,
        Extent::Symbolic { .. } => -1,
    }
}

/// The numbers of the axes that can run in parallel, among the first `n`.
pub open spec fn globalizable_ids(axes: Seq<Axis>, private_axes: Seq<usize>, n: nat) -> Seq<usize>
    decreases n,
{
    if n == 0 {
        Seq::empty()
    } else {
        let rest = globalizable_ids(axes, private_axes, (n - 1) as nat);
        if is_globalizable(private_axes, axes[n - 1]) {
            rest.push(axes[n - 1].id)
        } else {
            rest
        }
    }
}

/// Names that were drawn, each with how often.
pub struct KernelNames {
    pub drawn: NameMap<u64>,
}

/// A name as it is drawn the first time and after: the first keeps it, and the
/// others carry a number.
pub open spec fn drawn_name(name: Seq<char>, count: nat) -> Seq<char> {
    if count == 0 {
        name
    } else {
        name + seq!['n'] + decimal(count)
    }
}

/// How often a name was drawn.
pub open spec fn draws(drawn: Map<Seq<char>, u64>, name: Seq<char>) -> u64 {
    if drawn.dom().contains(name) {
        drawn[name]
    } else {
        0
    }
}

impl KernelNames {
    /// No name was drawn yet.
    pub fn new() -> (names: KernelNames)
        ensures
            names.drawn.wf(),
            names.drawn@ == Map::<Seq<char>, u64>::empty(),
    {
        KernelNames { drawn: NameMap::new() }
    }

    /// Draws a name.
    pub fn draw(&mut self, name: &str) -> (text: String)
        requires
            old(self).drawn.wf(),
            draws(old(self).drawn@, name@) < u64::MAX,
        ensures
            final(self).drawn.wf(),
            text@ == drawn_name(name@, draws(old(self).drawn@, name@) as nat),
            final(self).drawn@ == old(self).drawn@.insert(
                name@,
                (draws(old(self).drawn@, name@) + 1) as u64,
            ),
    {
        let count: u64 = match self.drawn.get(name) {
            Some(count) => *count,
            None => 0,
        };
        let mut text = String::new();
        push_text(&mut text, name);
        let mut key = String::new();
        push_text(&mut key, name);
        assert(key@ =~= name@);
        self.drawn.set(key, count + 1);
        if count > 0 {
            text.push('n');
            push_decimal(&mut text, count);
        }
        assert(text@ =~= drawn_name(name@, count as nat));
        text
    }
}

/// One name is never drawn twice under the same text.
pub proof fn lemma_draws_differ(name: Seq<char>, i: nat, j: nat)
    requires
        i != j,
    ensures
        drawn_name(name, i) != drawn_name(name, j),
{
    lemma_decimal_spells(i);
    lemma_decimal_spells(j);
    let a = drawn_name(name, i);
    let b = drawn_name(name, j);
    if a == b {
        if i == 0 {
            assert(b.len() > name.len());
        } else if j == 0 {
            assert(a.len() > name.len());
        } else {
            let k = name.len() as int + 1;
            assert(a.subrange(k, a.len() as int) =~= decimal(i));
            assert(b.subrange(k, b.len() as int) =~= decimal(j));
        }
    }
}

} // verus!
