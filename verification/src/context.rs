//! What is remembered while a graph is cut into kernels: the next free slots,
//! the storage that stands for a node, and the variables that have values.

use std::collections::HashMap;

use vstd::prelude::*;

use crate::env::NameMap;
use crate::text::same_text;

verus! {

/// The state of cutting a graph into kernels.
pub struct RangeifyBufferContext {
    /// The next free slot of global storage.
    pub global_counter: usize,
    /// The next free slot of local storage.
    pub local_counter: usize,
    /// The next free number of a range.
    pub range_counter: usize,
    /// The next free number of storage that is local to the schedule.
    pub lunique_counter: usize,
    /// The variables by name, each with its node and its value.
    pub vars: NameMap<(usize, Option<i64>)>,
    /// What stands for each node that has been mapped.
    pub buffer_map: HashMap<usize, usize>,
}

impl RangeifyBufferContext {
    /// What stands for each node that has been mapped.
    pub open spec fn buffers(&self) -> Map<usize, usize> {
        self.buffer_map@
    }

    /// The context's invariant.
    pub open spec fn wf(&self) -> bool {
        self.vars.wf()
    }

    /// Whether nothing but the slot counters may differ.
    pub open spec fn same_tables(&self, other: &RangeifyBufferContext) -> bool {
        &&& self.vars@ == other.vars@
        &&& self.buffers() == other.buffers()
    }

    /// An empty context; schedule-local storage is numbered from `start` on.
    pub fn with_lunique_start(start: usize) -> (ctx: RangeifyBufferContext)
        ensures
            ctx.wf(),
            ctx.global_counter == 0,
            ctx.local_counter == 0,
            ctx.range_counter == 0,
            ctx.lunique_counter == start,
            ctx.vars@ == Map::<Seq<char>, (usize, Option<i64>)>::empty(),
            ctx.buffers() == Map::<usize, usize>::empty(),
    {
        RangeifyBufferContext {
            global_counter: 0,
            local_counter: 0,
            range_counter: 0,
            lunique_counter: start,
            vars: NameMap::new(),
            buffer_map: HashMap::new(),
        }
    }

    /// An empty context.
    pub fn new() -> (ctx: RangeifyBufferContext)
        ensures
            ctx.wf(),
            ctx.global_counter == 0,
            ctx.local_counter == 0,
            ctx.range_counter == 0,
            ctx.lunique_counter == 0,
            ctx.vars@ == Map::<Seq<char>, (usize, Option<i64>)>::empty(),
            ctx.buffers() == Map::<usize, usize>::empty(),
    {
        RangeifyBufferContext::with_lunique_start(0)
    }

    /// Takes a slot of global storage.
    pub fn next_global(&mut self) -> (slot: usize)
        requires
            old(self).wf(),
            old(self).global_counter < usize::MAX,
        ensures
            final(self).wf(),
            slot == old(self).global_counter,
            final(self).global_counter == old(self).global_counter + 1,
            final(self).local_counter == old(self).local_counter,
            final(self).range_counter == old(self).range_counter,
            final(self).lunique_counter == old(self).lunique_counter,
            final(self).same_tables(old(self)),
    {
        let slot: usize = self.global_counter;
        self.global_counter = slot + 1;
        slot
    }

    /// Takes a slot of local storage.
    pub fn next_local(&mut self) -> (slot: usize)
        requires
            old(self).wf(),
            old(self).local_counter < usize::MAX,
        ensures
            final(self).wf(),
            slot == old(self).local_counter,
            final(self).local_counter == old(self).local_counter + 1,
            final(self).global_counter == old(self).global_counter,
            final(self).range_counter == old(self).range_counter,
            final(self).lunique_counter == old(self).lunique_counter,
            final(self).same_tables(old(self)),
    {
        let slot: usize = self.local_counter;
        self.local_counter = slot + 1;
        slot
    }

    /// Takes a number for a range.
    pub fn next_range(&mut self) -> (number: usize)
        requires
            old(self).wf(),
            old(self).range_counter < usize::MAX,
        ensures
            final(self).wf(),
            number == old(self).range_counter,
            final(self).range_counter == old(self).range_counter + 1,
            final(self).global_counter == old(self).global_counter,
            final(self).local_counter == old(self).local_counter,
            final(self).lunique_counter == old(self).lunique_counter,
            final(self).same_tables(old(self)),
    {
        let number: usize = self.range_counter;
        self.range_counter = number + 1;
        number
    }

    /// Takes a number for schedule-local storage.
    pub fn next_lunique(&mut self) -> (number: usize)
        requires
            old(self).wf(),
            old(self).lunique_counter < usize::MAX,
        ensures
            final(self).wf(),
            number == old(self).lunique_counter,
            final(self).lunique_counter == old(self).lunique_counter + 1,
            final(self).global_counter == old(self).global_counter,
            final(self).local_counter == old(self).local_counter,
            final(self).range_counter == old(self).range_counter,
            final(self).same_tables(old(self)),
    {
        let number: usize = self.lunique_counter;
        self.lunique_counter = number + 1;
        number
    }

    /// Whether all counters are the same.
    pub open spec fn same_counters(&self, other: &RangeifyBufferContext) -> bool {
        &&& self.global_counter == other.global_counter
        &&& self.local_counter == other.local_counter
        &&& self.range_counter == other.range_counter
        &&& self.lunique_counter == other.lunique_counter
    }

    /// Lets one node stand for another; the last one counts.
    pub fn map_buffer(&mut self, original: usize, replacement: usize)
        requires
            old(self).wf(),
        ensures
            final(self).wf(),
            final(self).buffers() == old(self).buffers().insert(original, replacement),
            final(self).vars@ == old(self).vars@,
            final(self).same_counters(old(self)),
    {
        self.buffer_map.insert(original, replacement);
    }

    /// Whether something stands for a node.
    pub fn has_buffer(&self, original: usize) -> (found: bool)
        ensures
            found == self.buffers().contains_key(original),
    {
        self.buffer_map.contains_key(&original)
    }

    /// What stands for a node.
    pub fn get_buffer(&self, original: usize) -> (found: Option<usize>)
        ensures
            found == if self.buffers().contains_key(original) {
                Some(self.buffers()[original])
            } else {
                None
            },
    {
        match self.buffer_map.get(&original) {
            Some(replacement) => Some(*replacement),
            None => None,
        }
    }

    /// Tracks a variable under its name; the last value counts. A variable
    /// without a name is not tracked.
    pub fn add_var(&mut self, var: usize, name: Option<String>, value: Option<i64>)
        requires
            old(self).wf(),
        ensures
            final(self).wf(),
            final(self).vars@ == match name {
                Some(text) => old(self).vars@.insert(text@, (var, value)),
                None => old(self).vars@,
            },
            final(self).buffers() == old(self).buffers(),
            final(self).same_counters(old(self)),
    {
        if let Some(text) = name {
            self.vars.set(text, (var, value));
        }
    }
}

/// A variable that is passed to a kernel: what binds it, and its value.
#[derive(Debug)]
pub struct BoundVar {
    pub binding: usize,
    pub name: String,
    pub var: usize,
    pub value: Option<i64>,
}

/// A bound variable as the contracts see it.
pub struct BoundView {
    pub binding: usize,
    pub name: Seq<char>,
    pub var: usize,
    pub value: Option<i64>,
}

impl View for BoundVar {
    type V = BoundView;

    open spec fn view(&self) -> BoundView {
        BoundView { binding: self.binding, name: self.name@, var: self.var, value: self.value }
    }
}

/// The bound variables of one kernel, in the order in which they are passed.
#[derive(Debug)]
pub struct LocalAddBufferContext {
    pub vars: Vec<BoundVar>,
}

/// Of the first `n` bound variables, those of another name.
pub open spec fn without_name(vars: Seq<BoundView>, name: Seq<char>, n: nat) -> Seq<BoundView>
    decreases n,
{
    if n == 0 {
        Seq::empty()
    } else if vars[n - 1].name == name {
        without_name(vars, name, (n - 1) as nat)
    } else {
        without_name(vars, name, (n - 1) as nat).push(vars[n - 1])
    }
}

/// Each name occurs once.
pub open spec fn names_once(vars: Seq<BoundView>) -> bool {
    forall|i: int, j: int|
        0 <= i < j < vars.len() ==> (#[trigger] vars[i]).name != (#[trigger] vars[j]).name
}

proof fn lemma_without_name(vars: Seq<BoundView>, name: Seq<char>, n: nat)
    requires
        names_once(vars),
        n <= vars.len(),
    ensures
        names_once(without_name(vars, name, n)),
        forall|i: int|
            0 <= i < without_name(vars, name, n).len() ==> (#[trigger] without_name(
                vars,
                name,
                n,
            )[i]).name != name && vars.take(n as int).contains(without_name(vars, name, n)[i]),
    decreases n,
{
    if n > 0 {
        let m = (n - 1) as nat;
        lemma_without_name(vars, name, m);
        let had = without_name(vars, name, m);
        let now = without_name(vars, name, n);
        assert forall|i: int| 0 <= i < now.len() implies (#[trigger] now[i]).name != name
            && vars.take(n as int).contains(now[i]) by {
            if i < had.len() {
                assert(now[i] == had[i]);
                let j = choose|j: int| 0 <= j < vars.take(m as int).len() && vars.take(m as int)[j]
                    == had[i];
                assert(vars.take(n as int)[j] == had[i]);
            } else {
                assert(vars.take(n as int)[n - 1] == vars[n - 1]);
            }
        }
        assert forall|i: int, j: int| 0 <= i < j < now.len() implies (#[trigger] now[i]).name != (
        #[trigger] now[j]).name by {
            if j < had.len() {
                assert(had[i].name != had[j].name);
            } else {
                let p = choose|p: int| 0 <= p < vars.take(m as int).len() && vars.take(m as int)[p]
                    == had[i];
                assert(vars[p].name != vars[n - 1].name);
            }
        }
    }
}

/// Each name occupies one entry, the latest: rebinding takes the old entry out
/// and puts the new one behind all others.
pub proof fn lemma_rebinding_keeps_one_entry(
    vars: Seq<BoundView>,
    entry: BoundView,
)
    requires
        names_once(vars),
    ensures
        ({
            let now = without_name(vars, entry.name, vars.len()).push(entry);
            &&& names_once(now)
            &&& now.last() == entry
            &&& forall|i: int| 0 <= i < now.len() && (#[trigger] now[i]).name == entry.name ==> i
                == now.len() - 1
        }),
{
    lemma_without_name(vars, entry.name, vars.len());
    let rest = without_name(vars, entry.name, vars.len());
    let now = rest.push(entry);
    assert forall|i: int, j: int| 0 <= i < j < now.len() implies (#[trigger] now[i]).name != (
    #[trigger] now[j]).name by {
        if j < rest.len() {
            assert(rest[i].name != rest[j].name);
        } else {
            assert(rest[i].name != entry.name);
        }
    }
    assert forall|i: int| 0 <= i < now.len() && (#[trigger] now[i]).name == entry.name implies i
        == now.len() - 1 by {
        if i < rest.len() {
            assert(rest[i].name != entry.name);
        }
    }
}

impl LocalAddBufferContext {
    /// The bound variables in order.
    pub open spec fn bound(&self) -> Seq<BoundView> {
        Seq::new(self.vars@.len(), |i: int| self.vars@[i]@)
    }

    /// No variables.
    pub fn new() -> (ctx: LocalAddBufferContext)
        ensures
            ctx.bound() == Seq::<BoundView>::empty(),
    {
        let ctx = LocalAddBufferContext { vars: Vec::new() };
        assert(ctx.bound() =~= Seq::<BoundView>::empty());
        ctx
    }

    /// Binds a variable. An earlier binding of the name is taken out, and the
    /// new one goes behind the others. A variable without a name is not passed.
    pub fn add_var(
        &mut self,
        binding: usize,
        var: usize,
        name: Option<String>,
        value: Option<i64>,
    )
        ensures
            final(self).bound() == match name {
                Some(text) => without_name(
                    old(self).bound(),
                    text@,
                    old(self).bound().len(),
                ).push(BoundView { binding, name: text@, var, value }),
                None => old(self).bound(),
            },
    {
        let text = match name {
            Some(text) => text,
            None => {
                return;
            },
        };
        let ghost start = self.bound();
        let ghost key = text@;
        let mut kept: Vec<BoundVar> = Vec::new();
        let mut left: usize = self.vars.len();
        while left > 0
            invariant
                left == self.vars@.len(),
                left <= start.len(),
                key == text@,
                self.bound() == start.take(left as int),
                without_name(start, key, start.len()) =~= without_name(start, key, left as nat)
                    + Seq::new(kept@.len(), |i: int| kept@[kept@.len() - 1 - i]@),
            decreases left,
        {
            left -= 1;
            let ghost had = kept@;
            let ghost shown = self.bound();
            let entry = match self.vars.pop() {
                Some(entry) => entry,
                None => {
                    return;
                },
            };
            proof {
                assert(self.bound() =~= start.take(left as int));
                assert(shown[left as int] == entry@);
                assert(start[left as int] == entry@);
            }
            if !same_text(entry.name.as_str(), text.as_str()) {
                kept.push(entry);
                proof {
                    let old_tail = Seq::new(had.len(), |i: int| had[had.len() - 1 - i]@);
                    let new_tail = Seq::new(kept@.len(), |i: int| kept@[kept@.len() - 1 - i]@);
                    assert(new_tail =~= seq![start[left as int]] + old_tail);
                    assert(without_name(start, key, (left + 1) as nat) == without_name(
                        start,
                        key,
                        left as nat,
                    ).push(start[left as int]));
                }
            }
        }
        let ghost tail = Seq::new(kept@.len(), |i: int| kept@[kept@.len() - 1 - i]@);
        assert(without_name(start, key, start.len()) =~= tail);
        let ghost total = kept@.len();
        while kept.len() > 0
            invariant
                tail.len() == total,
                kept@.len() <= total,
                self.bound() == tail.take(total - kept@.len()),
                forall|i: int|
                    0 <= i < kept@.len() ==> (#[trigger] kept@[i])@ == tail[total - 1 - i],
            decreases kept@.len(),
        {
            let ghost shown = self.bound();
            let ghost had = kept@;
            if let Some(entry) = kept.pop() {
                self.vars.push(entry);
                proof {
                    assert(had[had.len() - 1]@ == entry@);
                    assert(self.bound() =~= shown.push(entry@));
                    assert(self.bound() =~= tail.take(total - kept@.len()));
                }
            }
        }
        assert(tail.take(total as int) =~= tail);
        let ghost shown = self.bound();
        self.vars.push(BoundVar { binding, name: text, var, value });
        assert(self.bound() =~= shown.push(BoundView { binding, name: key, var, value }));
    }
}

} // verus!
