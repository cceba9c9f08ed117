use vstd::prelude::*;
use crate::error::HarnessError;
use crate::event::Event;

verus! {

/// Number of hardware counter slots.
pub const NUM_SLOTS: usize = 4;

/// An assignment of events to counter slots; an unset slot counts nothing.
#[derive(Clone, Copy, Debug)]
pub struct PerfCtlDescriptor {
    pub slots: [Option<Event>; NUM_SLOTS],
}

impl PerfCtlDescriptor {
    /// A descriptor with every slot unbound.
    pub fn new() -> (r: PerfCtlDescriptor)
        ensures
            forall|i: int| 0 <= i < NUM_SLOTS ==> r.slots[i].is_none(),
    {
        PerfCtlDescriptor { slots: [None, None, None, None] }
    }

    /// Binds `event` to `slot`, replacing what the slot held; fails when the
    /// slot is out of range.
    pub fn set(self, slot: usize, event: Event) -> (r: Result<PerfCtlDescriptor, HarnessError>)
        ensures
            slot >= NUM_SLOTS <==> r == Err::<PerfCtlDescriptor, HarnessError>(
                HarnessError::Programming,
            ),
            slot < NUM_SLOTS ==> r is Ok && r->Ok_0.slots@ == self.slots@.update(
                slot as int,
                Some(event),
            ),
    {
        if slot >= NUM_SLOTS {
            return Err(HarnessError::Programming);
        }
        let mut slots = self.slots;
        slots[slot] = Some(event);
        Ok(PerfCtlDescriptor { slots })
    }

    /// The event bound to `slot`, if any.
    pub fn get(&self, slot: usize) -> (r: Option<Event>)
        requires
            slot < NUM_SLOTS,
        ensures
            r == self.slots[slot as int],
    {
        self.slots[slot]
    }
}

} // verus!
