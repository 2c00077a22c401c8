//! Stack of freed slots that can be handed out again, last freed first.
use vstd::prelude::*;

verus! {

/// Stack of slot addresses that were freed and can be reused.
///
/// The slot pushed last is handed out first, so reuse order is LIFO.
#[derive(Debug)]
pub struct FreeList {
    /// Slot addresses, bottom of the stack first.
    slots: Vec<usize>,
}

impl View for FreeList {
    type V = Seq<usize>;

    /// The stacked slot addresses, bottom first: the top is the last element.
    closed spec fn view(&self) -> Seq<usize> {
        self.slots@
    }
}

impl FreeList {
    /// Creates a freelist whose only slot is `head`; a `head` of 0 (null)
    /// gives the empty freelist.
    pub fn new(head: usize) -> (r: Self)
        ensures
            head == 0 ==> r@ == Seq::<usize>::empty(),
            head != 0 ==> r@ == seq![head],
    {
        let mut slots: Vec<usize> = Vec::new();
        if head != 0 {
            slots.push(head);
        }
        proof {
            if head != 0 {
                assert(slots@ =~= seq![head]);
            } else {
                assert(slots@ =~= Seq::<usize>::empty());
            }
        }
        FreeList { slots }
    }

    /// Creates an empty freelist.
    pub fn dangling() -> (r: Self)
        ensures
            r@ == Seq::<usize>::empty(),
    {
        FreeList { slots: Vec::new() }
    }

    /// Whether the freelist has no reusable slots.
    pub fn is_null(&self) -> (r: bool)
        ensures
            r == (self@.len() == 0),
    {
        self.slots.len() == 0
    }

    /// Pops the most recently freed slot, or returns `None` when the
    /// freelist is empty.
    pub fn get_slot(&mut self) -> (r: Option<usize>)
        ensures
            old(self)@.len() == 0 ==> r == None::<usize> && final(self)@ == old(self)@,
            old(self)@.len() > 0 ==> r == Some(old(self)@.last()) && final(self)@
                == old(self)@.drop_last(),
    {
        if !self.is_null() {
            let current = self.slots.pop();
            return current;
        }
        None
    }

    /// Pops the most recently freed slot of a freelist known to be non-empty.
    pub fn get_slot_unchecked(&mut self) -> (r: usize)
        requires
            old(self)@.len() > 0,
        ensures
            r == old(self)@.last(),
            final(self)@ == old(self)@.drop_last(),
    {
        match self.slots.pop() {
            Some(current) => current,
            None => 0,
        }
    }

    /// Pushes a freed slot onto the top of the freelist.
    pub fn add_slot(&mut self, ptr: usize)
        ensures
            final(self)@ == old(self)@.push(ptr),
    {
        self.slots.push(ptr);
    }
}

} // verus!
