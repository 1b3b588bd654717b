//! Which positions of a page hold a value, and which a null.

use vstd::prelude::*;

verus! {

/// The validity of a page's positions, read once from front to back.
pub struct PageValidity {
    bits: Vec<bool>,
    consumed: usize,
}

impl View for PageValidity {
    type V = Seq<bool>;

    /// The positions not yet read: `true` where the position holds a value.
    closed spec fn view(&self) -> Seq<bool> {
        self.bits@.skip(self.consumed as int)
    }
}

impl PageValidity {
    /// Whether the cursor lies within its bits.
    pub closed spec fn wf(&self) -> bool {
        self.consumed <= self.bits.len()
    }

    /// A cursor at the first of `bits`.
    pub fn new(bits: Vec<bool>) -> (validity: PageValidity)
        ensures
            validity.wf(),
            validity@ == bits@,
    {
        PageValidity { bits, consumed: 0 }
    }

    /// The number of positions not yet read.
    pub fn len(&self) -> (len: usize)
        requires
            self.wf(),
        ensures
            len == self@.len(),
    {
        self.bits.len() - self.consumed
    }

    /// The length of the run of `value` at the front, counted up to `limit`.
    pub fn run_length(&self, value: bool, limit: usize) -> (run: usize)
        requires
            self.wf(),
        ensures
            run <= limit,
            run <= self@.len(),
            forall|i: int| 0 <= i < run ==> self@[i] == value,
            run == limit || run == self@.len() || self@[run as int] != value,
    {
        let mut run: usize = 0;
        let left: usize = self.bits.len() - self.consumed;
        while run < limit && run < left && self.bits[self.consumed + run] == value
            invariant
                self.wf(),
                left == self.bits.len() - self.consumed,
                run <= limit,
                run <= left,
                forall|i: int| 0 <= i < run ==> self@[i] == value,
            decreases left - run,
        {
            run += 1;
        }
        run
    }

    /// Passes over the next `n` positions.
    pub fn advance(&mut self, n: usize)
        requires
            old(self).wf(),
            n <= old(self)@.len(),
        ensures
            final(self).wf(),
            final(self)@ == old(self)@.skip(n as int),
    {
        self.consumed += n;
        assert(self.bits@.skip(self.consumed as int) =~= old(self).bits@.skip(
            old(self).consumed as int,
        ).skip(n as int));
    }
}

} // verus!
