//! A list of physical page numbers with constant-order access to its
//! head. It is the library's model of an intrusive free list: the chain
//! order is observable, the head is where pages enter and leave.

use vstd::prelude::*;

verus! {

pub struct PageList {
    items: Vec<u64>,
}

impl View for PageList {
    type V = Seq<u64>;

    closed spec fn view(&self) -> Seq<u64> {
        self.items@
    }
}

impl PageList {
    pub fn new() -> (r: Self)
        ensures
            r@ == Seq::<u64>::empty(),
    {
        PageList { items: Vec::new() }
    }

    /// Link a page in front of the current head.
    pub fn prepend(&mut self, ppn: u64)
        ensures
            final(self)@ == seq![ppn] + old(self)@,
    {
        self.items.insert(0, ppn);
        proof {
            assert(self.items@ =~= seq![ppn] + old(self).items@);
        }
    }

    /// Unlink and return the head page, if any.
    pub fn pop(&mut self) -> (r: Option<u64>)
        ensures
            old(self)@.len() == 0 ==> r is None && final(self)@ == old(self)@,
            old(self)@.len() > 0 ==> r == Some(old(self)@[0]) && final(self)@ == old(
                self,
            )@.drop_first(),
    {
        if self.items.len() == 0 {
            None
        } else {
            let head = self.items.remove(0);
            proof {
                assert(self.items@ =~= old(self).items@.drop_first());
            }
            Some(head)
        }
    }

    /// The number of linked pages.
    pub fn len(&self) -> (r: usize)
        ensures
            r == self@.len(),
    {
        self.items.len()
    }
}

} // verus!
