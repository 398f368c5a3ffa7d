//! The optimizations that a schedule consists of.

use vstd::prelude::*;

verus! {

/// What is done to an axis.
#[derive(Clone, Copy, Debug, PartialEq, Eq, Structural)]
pub enum OptOps {
    TC,
    UPCAST,
    UNROLL,
    LOCAL,
    THREAD,
    GROUP,
    GROUPTOP,
    NOLOCALS,
    PADTO,
    SWAP,
}

/// One optimization: what is done, to which axis, by how much.
#[derive(Clone, Copy, Debug, PartialEq, Eq, Structural)]
pub struct Opt {
    pub op: OptOps,
    pub axis: Option<usize>,
    pub arg: Option<usize>,
}

impl Opt {
    /// Splits a vector axis off.
    pub fn upcast(axis: usize, amount: usize) -> (opt: Opt)
        ensures
            opt == (Opt { op: OptOps::UPCAST, axis: Some(axis), arg: Some(amount) }),
    {
        opt(OptOps::UPCAST, axis, amount)
    }

    /// Unrolls a reduction.
    pub fn unroll(axis: usize, amount: usize) -> (opt: Opt)
        ensures
            opt == (Opt { op: OptOps::UNROLL, axis: Some(axis), arg: Some(amount) }),
    {
        opt(OptOps::UNROLL, axis, amount)
    }

    /// Splits an axis off that shares local memory.
    pub fn local(axis: usize, amount: usize) -> (opt: Opt)
        ensures
            opt == (Opt { op: OptOps::LOCAL, axis: Some(axis), arg: Some(amount) }),
    {
        opt(OptOps::LOCAL, axis, amount)
    }

    /// Spreads an axis over threads.
    pub fn thread(axis: usize, amount: usize) -> (opt: Opt)
        ensures
            opt == (Opt { op: OptOps::THREAD, axis: Some(axis), arg: Some(amount) }),
    {
        opt(OptOps::THREAD, axis, amount)
    }

    /// Reduces in groups of neighbours.
    pub fn group(axis: usize, amount: usize) -> (opt: Opt)
        ensures
            opt == (Opt { op: OptOps::GROUP, axis: Some(axis), arg: Some(amount) }),
    {
        opt(OptOps::GROUP, axis, amount)
    }

    /// Reduces in groups that are far apart.
    pub fn grouptop(axis: usize, amount: usize) -> (opt: Opt)
        ensures
            opt == (Opt { op: OptOps::GROUPTOP, axis: Some(axis), arg: Some(amount) }),
    {
        opt(OptOps::GROUPTOP, axis, amount)
    }

    /// Rounds an axis up.
    pub fn padto(axis: usize, alignment: usize) -> (opt: Opt)
        ensures
            opt == (Opt { op: OptOps::PADTO, axis: Some(axis), arg: Some(alignment) }),
    {
        opt(OptOps::PADTO, axis, alignment)
    }

    /// Exchanges two axes.
    pub fn swap(axis: usize, with: usize) -> (opt: Opt)
        ensures
            opt == (Opt { op: OptOps::SWAP, axis: Some(axis), arg: Some(with) }),
    {
        opt(OptOps::SWAP, axis, with)
    }

    /// Turns local memory off.
    pub fn nolocals() -> (opt: Opt)
        ensures
            opt == (Opt { op: OptOps::NOLOCALS, axis: None, arg: None }),
    {
        Opt { op: OptOps::NOLOCALS, axis: None, arg: None }
    }
}

/// An optimization of one axis by an amount.
pub fn opt(op: OptOps, axis: usize, arg: usize) -> (opt: Opt)
    ensures
        opt == (Opt { op, axis: Some(axis), arg: Some(arg) }),
{
    Opt { op, axis: Some(axis), arg: Some(arg) }
}

} // verus!
