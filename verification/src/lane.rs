//! A lane: a slot for one item and the senders that share it.

use vstd::prelude::*;

verus! {

/// What the slot of a lane holds.
pub enum Entry<T> {
    /// Nothing: the slot is free.
    Empty,
    /// Nothing yet: the slot is kept for the holder of a permit.
    Reserved,
    /// An item that was not delivered yet.
    Ready(T),
}

/// A slot for one item, shared by any number of senders.
///
/// `W` is what it takes to wake a waiting task.
pub struct Lane<T, W> {
    /// What the slot holds.
    pub entry: Entry<T>,
    /// How many senders the lane has.
    pub num_senders: usize,
    /// The wakers of the senders that found the slot taken, the oldest first.
    pub parked_senders: Vec<W>,
}

/// The state of a [`Lane`].
pub struct LaneState<T, W> {
    pub entry: Entry<T>,
    pub num_senders: usize,
    pub parked: Seq<W>,
}

impl<T, W> View for Lane<T, W> {
    type V = LaneState<T, W>;

    open spec fn view(&self) -> LaneState<T, W> {
        LaneState {
            entry: self.entry,
            num_senders: self.num_senders,
            parked: self.parked_senders@,
        }
    }
}

impl<T, W> LaneState<T, W> {
    /// The state of a lane that was just made.
    pub open spec fn fresh() -> LaneState<T, W> {
        LaneState { entry: Entry::Empty, num_senders: 0, parked: Seq::empty() }
    }

    /// Nobody waits for a free slot, and a lane without senders is only kept
    /// for what is in its slot.
    pub open spec fn wf(self) -> bool {
        &&& self.entry is Empty ==> self.parked.len() == 0
        &&& self.entry is Empty ==> self.num_senders > 0
    }
}

impl<T, W> Lane<T, W> {
    /// The state of a lane shows its fields as they are.
    pub proof fn law_state_shows_fields(self)
        ensures
            self@.entry == self.entry,
            self@.num_senders == self.num_senders,
            self@.parked == self.parked_senders@,
    {
    }

    /// A lane with a free slot and no sender.
    pub fn new() -> (lane: Self)
        ensures
            lane@ == LaneState::<T, W>::fresh(),
            lane.entry is Empty,
            lane.num_senders == 0,
            lane.parked_senders@.len() == 0,
    {
        Lane { entry: Entry::Empty, num_senders: 0, parked_senders: Vec::new() }
    }
}

} // verus!
