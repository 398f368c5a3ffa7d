//! The list of node ids that a node keeps as its sources.

use smallvec::SmallVec;
use vstd::prelude::*;

verus! {

/// An append-only list of node ids.
///
/// A node has few sources, so the ids live in a `SmallVec` with room for four
/// of them inside the node itself.
#[verifier::external_body]
#[derive(Debug)]
pub struct IdList {
    ids: SmallVec<[usize; 4]>,
}

/// The ids that a list holds, in the order in which they were pushed.
pub uninterp spec fn ids_of(list: IdList) -> Seq<usize>;

impl View for IdList {
    type V = Seq<usize>;

    open spec fn view(&self) -> Seq<usize> {
        ids_of(*self)
    }
}

/// `SmallVec::new`: a list that holds nothing.
#[verifier::external_body]
fn small_new() -> (list: IdList)
    ensures
        ids_of(list) == Seq::<usize>::empty(),
{
    IdList { ids: SmallVec::new() }
}

/// `SmallVec::push`: the value goes behind everything that the list held.
#[verifier::external_body]
fn small_push(list: &mut IdList, id: usize)
    ensures
        ids_of(*final(list)) == ids_of(*old(list)).push(id),
{
    list.ids.push(id);
}

/// `SmallVec::len`: the number of values in the list.
#[verifier::external_body]
fn small_len(list: &IdList) -> (len: usize)
    ensures
        len == ids_of(*list).len(),
{
    list.ids.len()
}

/// `SmallVec::index` with one position: the value at that position. It panics
/// behind the end, which the precondition rules out.
#[verifier::external_body]
fn small_get(list: &IdList, at: usize) -> (id: usize)
    requires
        at < ids_of(*list).len(),
    ensures
        id == ids_of(*list)[at as int],
{
    list.ids[at]
}

impl IdList {
    /// The empty list.
    pub fn new() -> (list: IdList)
        ensures
            list@ == Seq::<usize>::empty(),
    {
        small_new()
    }

    /// Appends one id.
    pub fn push(&mut self, id: usize)
        ensures
            final(self)@ == old(self)@.push(id),
    {
        small_push(self, id);
    }

    /// The number of ids.
    pub fn len(&self) -> (len: usize)
        ensures
            len == self@.len(),
    {
        small_len(self)
    }

    /// The id at a position.
    pub fn get(&self, at: usize) -> (id: usize)
        requires
            at < self@.len(),
        ensures
            id == self@[at as int],
    {
        small_get(self, at)
    }

    /// The list that holds the ids of a slice, in order.
    pub fn from_slice(ids: &[usize]) -> (list: IdList)
        ensures
            list@ == ids@,
    {
        let mut list = IdList::new();
        for at in 0..ids.len()
            invariant
                list@ == ids@.subrange(0, at as int),
        {
            list.push(ids[at]);
            assert(ids@.subrange(0, at + 1) == ids@.subrange(0, at as int).push(ids@[at as int]));
        }
        assert(ids@.subrange(0, ids@.len() as int) == ids@);
        list
    }

    /// Whether two lists hold the same ids in the same order.
    pub fn same(&self, other: &IdList) -> (same: bool)
        ensures
            same == (self@ == other@),
    {
        if self.len() != other.len() {
            return false;
        }
        let len: usize = self.len();
        for at in 0..len
            invariant
                len == self@.len(),
                self@.len() == other@.len(),
                forall|i: int| 0 <= i < at ==> self@[i] == other@[i],
        {
            if self.get(at) != other.get(at) {
                return false;
            }
        }
        assert(self@ =~= other@);
        true
    }

    /// Whether the list holds an id.
    pub fn contains(&self, id: usize) -> (found: bool)
        ensures
            found == self@.contains(id),
    {
        let len: usize = self.len();
        for at in 0..len
            invariant
                len == self@.len(),
                forall|i: int| 0 <= i < at ==> self@[i] != id,
        {
            if self.get(at) == id {
                return true;
            }
        }
        false
    }
}

} // verus!
