//! The slot-indexed arena of typed buffers that one batch execution
//! writes and reads. Operator `k` of a plan writes slot `k`, so the
//! arena grows by one buffer per executed operator.

use vstd::prelude::*;

use crate::typed_vec::{TypedVec, TVM};

verus! {

/// A slot id into the scratchpad, handed out by the planner.
#[derive(Clone, Copy, PartialEq, Eq, Structural, Debug)]
pub struct BufferRef {
    pub idx: usize,
}

/// The arena itself.
pub struct Scratchpad {
    pub slots: Vec<TypedVec>,
}

impl View for Scratchpad {
    type V = Seq<TVM>;

    open spec fn view(&self) -> Seq<TVM> {
        Seq::new(self.slots@.len(), |i: int| self.slots@[i]@)
    }
}

impl Scratchpad {
    /// Every buffer decodes within `i64`.
    pub open spec fn wf(self) -> bool {
        forall|i: int| 0 <= i < self.slots@.len() ==> (#[trigger] self.slots@[i]).wf()
    }

    pub fn new() -> (r: Scratchpad)
        ensures
            r@.len() == 0,
            r.wf(),
    {
        Scratchpad { slots: Vec::new() }
    }

    /// A shared view of the buffer in a slot.
    pub fn get(&self, r: BufferRef) -> (t: &TypedVec)
        requires
            r.idx < self@.len(),
        ensures
            t == self.slots@[r.idx as int],
            t@ == self@[r.idx as int],
    {
        &self.slots[r.idx]
    }

    /// Installs the next buffer; its slot id is the previous length.
    pub fn set(&mut self, t: TypedVec)
        ensures
            final(self)@ == old(self)@.push(t@),
            old(self).wf() && t.wf() ==> final(self).wf(),
    {
        let ghost pre = *self;
        self.slots.push(t);
        proof {
            assert(self@ =~= old(self)@.push(t@));
            if pre.wf() && t.wf() {
                assert forall|i: int| 0 <= i < self.slots@.len() implies (
                #[trigger] self.slots@[i]).wf() by {
                    if i < pre.slots@.len() {
                        assert(pre.slots@[i].wf());
                    }
                }
            }
        }
    }

    /// Removes and returns the last buffer, the result of a finished plan.
    pub fn take_last(&mut self) -> (t: TypedVec)
        requires
            old(self)@.len() > 0,
        ensures
            t@ == old(self)@.last(),
            final(self)@ == old(self)@.drop_last(),
            old(self).wf() ==> t.wf() && final(self).wf(),
    {
        let t = self.slots.pop().unwrap();
        proof {
            assert(self@ =~= old(self)@.drop_last());
            if old(self).wf() {
                assert(old(self).slots@[old(self).slots@.len() - 1].wf());
                assert forall|i: int| 0 <= i < self.slots@.len() implies (
                #[trigger] self.slots@[i]).wf() by {
                    assert(old(self).slots@[i].wf());
                }
            }
        }
        t
    }
}

} // verus!
