//! How kernels get their names.

use vstd::prelude::*;

use crate::kernel_info::KernelInfo;
use crate::kernel_shape::{drawn_name, draws, name_text, KernelNames};
use crate::opts::Opt;
use crate::scheduler::{Extent, Scheduler};

verus! {

/// Where the name of a kernel comes from: it is drawn at once, left to be drawn
/// later, or given and taken as it is.
#[derive(Debug)]
pub enum KernelNaming {
    Unique,
    Deferred,
    Custom(String),
}

/// Names that were drawn, each with how often.
pub type Drawn = Map<Seq<char>, u64>;

/// The name that a kernel gets, given the name that lists its axes.
pub open spec fn given_name(naming: KernelNaming, base: Seq<char>, drawn: Drawn) -> Seq<char> {
    match naming {
        KernelNaming::Unique => drawn_name(base, draws(drawn, base) as nat),
        KernelNaming::Deferred => base,
        KernelNaming::Custom(name) => name@,
    }
}

/// The names that were drawn once a name has been drawn.
pub open spec fn after_draw(drawn: Drawn, name: Seq<char>) -> Drawn {
    drawn.insert(name, (draws(drawn, name) + 1) as u64)
}

/// The names that were drawn once a kernel has its name.
pub open spec fn after_naming(naming: KernelNaming, base: Seq<char>, drawn: Drawn) -> Drawn {
    if naming is Unique {
        after_draw(drawn, base)
    } else {
        drawn
    }
}

fn copy_opts(opts: &Vec<Opt>) -> (list: Vec<Opt>)
    ensures
        list@ == opts@,
{
    let mut list: Vec<Opt> = Vec::new();
    let mut n: usize = 0;
    while n < opts.len()
        invariant
            n <= opts@.len(),
            list@ == opts@.take(n as int),
        decreases opts@.len() - n,
    {
        list.push(opts[n]);
        n += 1;
        assert(list@ =~= opts@.take(n as int));
    }
    assert(opts@.take(opts@.len() as int) =~= opts@);
    list
}

impl Scheduler {
    /// What is known of the kernel once it has its name.
    pub fn get_kernel_info(
        &self,
        specials: &Vec<Extent>,
        naming: KernelNaming,
        names: &mut KernelNames,
    ) -> (info: KernelInfo)
        requires
            old(names).drawn.wf(),
            naming is Unique ==> draws(old(names).drawn@, name_text(self@, specials@)) < u64::MAX,
        ensures
            final(names).drawn.wf(),
            final(names).drawn@ == after_naming(
                naming,
                name_text(self@, specials@),
                old(names).drawn@,
            ),
            info.name@ == given_name(naming, name_text(self@, specials@), old(names).drawn@),
            info.applied_opts@ == self@.applied_opts,
            info.dont_use_locals == self@.dont_use_locals,
    {
        let name = match naming {
            KernelNaming::Unique => {
                let base = self.kernel_name(specials);
                names.draw(base.as_str())
            },
            KernelNaming::Deferred => self.kernel_name(specials),
            KernelNaming::Custom(name) => name,
        };
        KernelInfo::new(name, copy_opts(&self.applied_opts), self.dont_use_locals)
    }
}

/// Draws the name of a kernel that was left to be drawn; all else that is known
/// of it stays.
pub fn finalize_kernel_name(info: &KernelInfo, names: &mut KernelNames) -> (done: KernelInfo)
    requires
        old(names).drawn.wf(),
        draws(old(names).drawn@, info.name@) < u64::MAX,
    ensures
        final(names).drawn.wf(),
        final(names).drawn@ == after_draw(old(names).drawn@, info.name@),
        done.name@ == drawn_name(info.name@, draws(old(names).drawn@, info.name@) as nat),
        done.applied_opts@ == info.applied_opts@,
        done.dont_use_locals == info.dont_use_locals,
{
    let name = names.draw(info.name.as_str());
    KernelInfo::new(name, copy_opts(&info.applied_opts), info.dont_use_locals)
}

/// A name that is left to be drawn and then drawn is the name that is drawn at
/// once, and counts as such; a given name is never counted.
pub proof fn lemma_deferred_is_unique(base: Seq<char>, drawn: Drawn, given: String)
    ensures
        ({
            let later = given_name(KernelNaming::Deferred, base, drawn);
            let still = after_naming(KernelNaming::Deferred, base, drawn);
            &&& drawn_name(later, draws(still, later) as nat) == given_name(
                KernelNaming::Unique,
                base,
                drawn,
            )
            &&& after_draw(still, later) == after_naming(KernelNaming::Unique, base, drawn)
        }),
        after_naming(KernelNaming::Custom(given), base, drawn) == drawn,
        given_name(KernelNaming::Custom(given), base, drawn) == given@,
{
}

} // verus!
