use vstd::prelude::*;
use crate::list::SkipList;
use crate::node::Data;

verus! {

/// Walks the items of a list in order, from a starting position.
pub struct Iter<'a> {
    list: &'a SkipList,
    pos: usize,
}

impl<'a> Iter<'a> {
    /// The items of the list walked.
    pub closed spec fn items(&self) -> Seq<Data> {
        self.list@
    }

    /// The position of the next item to yield.
    pub closed spec fn pos(&self) -> nat {
        self.pos as nat
    }

    /// The iterator walks a well-formed list and stands within it.
    pub closed spec fn wf(&self) -> bool {
        &&& self.list.wf()
        &&& self.pos <= self.list@.len()
    }

    /// An iterator over `list` that yields the item at `pos` first.
    pub fn new(list: &'a SkipList, pos: usize) -> (r: Iter<'a>)
        requires
            list.wf(),
            pos <= list@.len(),
        ensures
            r.wf(),
            r.items() == list@,
            r.pos() == pos,
    {
        Iter { list, pos }
    }

    /// Yields the next item, if any, and moves past it.
    pub fn next(&mut self) -> (r: Option<Data>)
        requires
            old(self).wf(),
        ensures
            final(self).wf(),
            final(self).items() == old(self).items(),
            old(self).pos() < old(self).items().len() ==> {
                &&& r == Some(old(self).items()[old(self).pos() as int])
                &&& final(self).pos() == old(self).pos() + 1
            },
            old(self).pos() >= old(self).items().len() ==> {
                &&& r.is_none()
                &&& final(self).pos() == old(self).pos()
            },
    {
        if self.pos < self.list.len() {
            let d = self.list.item(self.pos);
            self.pos = self.pos + 1;
            Some(d)
        } else {
            None
        }
    }
}

} // verus!
