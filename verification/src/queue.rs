//! A queue with one slot per lane, served in the order that a scheduler picks.
//!
//! Nothing here blocks or wakes a task. An operation that cannot go on yet keeps
//! the waker that it was given, and an operation after which others can go on
//! hands their wakers out; whoever calls it wakes them.

use std::collections::hash_map::HashMap;
use std::hash::Hash;

use vstd::pervasive::unreached;
use vstd::prelude::*;
use vstd::std_specs::hash::obeys_key_model;

use crate::lane::{Entry, Lane, LaneState};
use crate::lane_table::{next_key, LaneTable};
use crate::queue_state::{ids_without, lane_served, QueueState};
use crate::scheduler::LaneScheduler;

verus! {

/// The state that the receiver and the senders of a queue share.
///
/// `T` is the type of the items, `Id` that of the names of lanes, `S` that of
/// the scheduler, and `W` is what it takes to wake a task.
#[verifier::reject_recursive_types(Id)]
pub struct Inner<T, Id, S, W> {
    lanes: LaneTable<T, W>,
    scheduler: S,
    id_map: HashMap<Id, usize>,
    waker: Option<W>,
}

/// A sender of a lane.
pub struct LaneSender {
    id: usize,
}

/// An item on its way into the slot of a lane.
pub struct SendFut<'a, T> {
    sender: &'a LaneSender,
    item: Option<T>,
}

/// A request for the slot of a lane.
pub struct ReserveFut<'a> {
    sender: &'a LaneSender,
}

/// The right to put one item into a slot that was reserved for it.
pub struct Permit<'a> {
    sender: &'a LaneSender,
}

/// How far a [`SendFut`] got.
pub enum SendPoll<W> {
    /// The slot is taken; the sender is woken when it may be free.
    Pending,
    /// The item is in its slot. `wake` is to be woken.
    Ready { wake: Option<W> },
}

/// How far a [`ReserveFut`] got.
pub enum ReservePoll<'a, W> {
    /// The slot is taken; the sender is woken when it may be free.
    Pending,
    /// The slot is reserved. `wake` is to be woken.
    Ready { permit: Permit<'a>, wake: Option<W> },
}

/// What the receiver of a queue got.
pub enum NextPoll<T, W> {
    /// Nothing; the receiver is woken when there may be an item.
    Pending,
    /// An item. All of `wake` are to be woken, in this order.
    Ready { item: T, wake: Vec<W> },
}

/// Whether `lane` is another lane than `other`.
fn is_other_lane(lane: usize, other: usize) -> (other_lane: bool)
    ensures
        other_lane == (lane != other),
{
    lane != other
}

/// `HashMap::retain`, called to keep the names that stand for another lane than
/// `lane`: it drops every pair for which the predicate does not hold and keeps
/// the others as they are.
#[verifier::external_body]
fn forget_lane<Id>(id_map: &mut HashMap<Id, usize>, lane: usize)
    ensures
        obeys_key_model::<Id>() ==> final(id_map)@ == ids_without(old(id_map)@, lane),
{
    id_map.retain(|_, v| is_other_lane(*v, lane))
}

impl<T, Id, S, W> View for Inner<T, Id, S, W> {
    type V = QueueState<T, Id, S, W>;

    closed spec fn view(&self) -> QueueState<T, Id, S, W> {
        QueueState {
            lanes: self.lanes@.lanes,
            vacant: self.lanes@.vacant,
            ids: self.id_map@,
            scheduler: self.scheduler,
            waker: self.waker,
        }
    }
}

impl<T, Id, S: LaneScheduler, W> Inner<T, Id, S, W> {
    /// What holds between any two operations. The names of lanes can be told
    /// apart by `==`.
    pub closed spec fn wf(&self) -> bool {
        &&& self.lanes.wf()
        &&& obeys_key_model::<Id>()
        &&& self@.wf()
    }

    /// The state satisfies its invariant.
    pub proof fn lemma_state_wf(&self)
        requires
            self.wf(),
        ensures
            self@.wf(),
    {
    }

    /// A queue without lanes, whatever lanes the scheduler may have been told
    /// about. The invariant holds where none of them is ready.
    pub fn new(scheduler: S) -> (inner: Self)
        ensures
            inner@.lanes == Map::<usize, LaneState<T, W>>::empty(),
            inner@.vacant == Seq::<usize>::empty(),
            inner@.ids == Map::<Id, usize>::empty(),
            inner@.scheduler == scheduler,
            inner@.waker == None::<W>,
            inner.wf() <==> {
                &&& obeys_key_model::<Id>()
                &&& scheduler.wf()
                &&& scheduler.ready() == Set::<usize>::empty()
            },
            inner@.foreign() == scheduler.registered(),
    {
        let inner = Inner {
            lanes: LaneTable::new(),
            scheduler,
            id_map: HashMap::new(),
            waker: None,
        };
        proof {
            inner.lanes.lemma_keys();
            assert(inner@.lanes.dom() =~= Set::<usize>::empty());
            if inner@.wf() {
                assert forall|lane: usize| !scheduler.ready().contains(lane) by {
                    assert(scheduler.ready().contains(lane) <==> inner@.holds_item(lane));
                }
                assert(scheduler.ready() =~= Set::<usize>::empty());
            }
        }
        inner
    }

    /// The lane with id `id`, where it is open.
    pub fn lane(&self, id: usize) -> (lane: Option<&Lane<T, W>>)
        requires
            self.wf(),
        ensures
            match lane {
                Some(lane) => self@.lanes.contains_key(id) && lane@ == self@.lanes[id],
                None => !self@.lanes.contains_key(id),
            },
    {
        self.lanes.get(id)
    }

    /// The lane that the name `id` stands for, if any.
    pub fn lane_of(&self, id: &Id) -> (lane: Option<usize>) where Id: Eq + Hash
        requires
            self.wf(),
        ensures
            lane == self@.ids.get(*id),
    {
        match self.id_map.get(id) {
            Some(lane) => Some(*lane),
            None => None,
        }
    }

    /// A sender for the lane named `id`. The lane is opened where it is not open,
    /// under an id that the scheduler must not know yet.
    pub fn open_lane(&mut self, id: Id) -> (sender: LaneSender) where Id: Eq + Hash
        requires
            old(self).wf(),
            old(self)@.ids.contains_key(id) ==> old(self)@.lanes[old(
                self,
            )@.ids[id]].num_senders < usize::MAX,
            !old(self)@.ids.contains_key(id) ==> !old(self)@.foreign().contains(
                next_key(old(self)@.lanes.dom(), old(self)@.vacant),
            ),
        ensures
            final(self).wf(),
            final(self)@.foreign() == old(self)@.foreign(),
            QueueState::opens(old(self)@, final(self)@, id, sender.lane()),
    {
        let found: Option<usize> = self.lane_of(&id);
        match found {
            Some(lane) => {
                let entry = self.lanes.get_mut(lane);
                entry.num_senders += 1;
                proof {
                    QueueState::lemma_opens_wf(old(self)@, self@, id, lane);
                }
                LaneSender { id: lane }
            },
            None => {
                let mut fresh = Lane::new();
                fresh.num_senders += 1;
                let lane = self.lanes.insert(fresh);
                self.scheduler.register(lane);
                self.id_map.insert(id, lane);
                proof {
                    QueueState::lemma_opens_wf(old(self)@, self@, id, lane);
                }
                LaneSender { id: lane }
            },
        }
    }
}

impl<T, Id, S: LaneScheduler, W> Inner<T, Id, S, W> {
    /// Closes lane `id`, which no longer has senders.
    fn reclaim(&mut self, id: usize)
        requires
            old(self).lanes.wf(),
            obeys_key_model::<Id>(),
            old(self)@.lanes.contains_key(id),
            old(self)@.scheduler.wf(),
            old(self)@.scheduler.registered().contains(id),
            !old(self)@.scheduler.ready().contains(id),
        ensures
            final(self).lanes.wf(),
            QueueState::reclaims(old(self)@, final(self)@, old(self)@.scheduler, id),
            final(self)@.waker == old(self)@.waker,
    {
        self.lanes.remove(id);
        self.scheduler.unregister(id);
        forget_lane(&mut self.id_map, id);
    }

    /// Gives the receiver the item of the lane that the scheduler picks.
    pub fn poll_next(&mut self, waker: W) -> (next: NextPoll<T, W>)
        requires
            old(self).wf(),
        ensures
            final(self).wf(),
            final(self)@.foreign() == old(self)@.foreign(),
            next is Pending ==> QueueState::idles(old(self)@, final(self)@, waker),
            next matches NextPoll::Ready { item, wake } ==> exists|lane: usize| #[trigger]
                QueueState::delivers(old(self)@, final(self)@, waker, lane, item, wake@),
    {
        self.waker = Some(waker);
        let served: Option<usize> = self.scheduler.next();
        match served {
            Some(id) => {
                let ghost told = self.scheduler;
                assert(old(self)@.scheduler.ready().contains(id));
                let lane = self.lanes.get_mut(id);
                let mut entry = Entry::Empty;
                std::mem::swap(&mut entry, &mut lane.entry);
                let mut wake: Vec<W> = Vec::new();
                std::mem::swap(&mut wake, &mut lane.parked_senders);
                let unused = lane.num_senders == 0;
                assert(old(self)@.holds_item(id));
                let item = match entry {
                    Entry::Ready(item) => item,
                    // The scheduler only picks lanes that hold an item.
                    _ => unreached(),
                };
                if unused {
                    assert(self@.lanes.remove(id) =~= old(self)@.lanes.remove(id));
                    self.reclaim(id);
                }
                proof {
                    assert(lane_served(old(self)@.scheduler, told, Some(id)));
                    QueueState::lemma_delivers_wf(old(self)@, self@, waker, id, item, wake@);
                }
                let next = NextPoll::Ready { item, wake };
                assert(QueueState::delivers(old(self)@, self@, waker, id, next->item, next->wake@));
                next
            },
            None => {
                proof {
                    QueueState::lemma_idles_wf(old(self)@, self@, waker);
                }
                NextPoll::Pending
            },
        }
    }
}

impl LaneSender {
    /// The id of the lane.
    pub closed spec fn lane(&self) -> usize {
        self.id
    }

    /// The id of the lane.
    pub fn id(&self) -> (id: usize)
        ensures
            id == self.lane(),
    {
        self.id
    }

    /// Starts to send an item.
    pub fn send<T>(&self, item: T) -> (send: SendFut<'_, T>)
        ensures
            send.lane() == self.lane(),
            send.item() == Some(item),
    {
        SendFut { sender: self, item: Some(item) }
    }

    /// Starts to reserve the slot of the lane.
    pub fn reserve(&self) -> (reserve: ReserveFut<'_>)
        ensures
            reserve.lane() == self.lane(),
    {
        ReserveFut { sender: self }
    }

    /// Makes one more sender of the same lane.
    pub fn share<T, Id, S: LaneScheduler, W>(&self, inner: &mut Inner<T, Id, S, W>) -> (sender:
        LaneSender)
        requires
            old(inner).wf(),
            old(inner)@.lanes.contains_key(self.lane()),
            old(inner)@.lanes[self.lane()].num_senders < usize::MAX,
        ensures
            final(inner).wf(),
            final(inner)@.foreign() == old(inner)@.foreign(),
            sender.lane() == self.lane(),
            QueueState::shares(old(inner)@, final(inner)@, self.lane()),
    {
        let lane = inner.lanes.get_mut(self.id);
        lane.num_senders += 1;
        proof {
            QueueState::lemma_with_lane_wf(old(inner)@, inner@, self.id);
        }
        LaneSender { id: self.id }
    }

    /// Takes the sender off its lane. The lane goes with its last sender, unless
    /// there is something in its slot.
    pub fn close<T, Id, S: LaneScheduler, W>(self, inner: &mut Inner<T, Id, S, W>)
        requires
            old(inner).wf(),
            old(inner)@.lanes.contains_key(self.lane()),
            old(inner)@.lanes[self.lane()].num_senders > 0,
        ensures
            final(inner).wf(),
            final(inner)@.foreign() == old(inner)@.foreign(),
            QueueState::closes(old(inner)@, final(inner)@, self.lane()),
    {
        let lane = inner.lanes.get_mut(self.id);
        lane.num_senders -= 1;
        let unused = lane.num_senders == 0 && matches!(lane.entry, Entry::Empty);
        if unused {
            assert(inner@.lanes.remove(self.id) =~= old(inner)@.lanes.remove(self.id));
            inner.reclaim(self.id);
        }
        proof {
            QueueState::lemma_closes_wf(old(inner)@, inner@, self.id);
        }
    }
}

impl<'a, T> SendFut<'a, T> {
    /// The id of the lane.
    pub closed spec fn lane(&self) -> usize {
        self.sender.id
    }

    /// The item, until it is in the slot.
    pub closed spec fn item(&self) -> Option<T> {
        self.item
    }

    /// Whether the item is in the slot.
    pub fn is_done(&self) -> (done: bool)
        ensures
            done == (self.item() is None),
    {
        self.item.is_none()
    }

    /// Puts the item into the slot, after showing it to the scheduler, or waits
    /// for the slot.
    pub fn poll<Id, S: LaneScheduler, W>(
        &mut self,
        inner: &mut Inner<T, Id, S, W>,
        waker: W,
    ) -> (poll: SendPoll<W>)
        requires
            old(inner).wf(),
            old(inner)@.lanes.contains_key(old(self).lane()),
            old(inner)@.lanes[old(self).lane()].entry is Empty ==> old(self).item() is Some,
        ensures
            final(inner).wf(),
            final(inner)@.foreign() == old(inner)@.foreign(),
            final(self).lane() == old(self).lane(),
            poll is Pending <==> !(old(inner)@.lanes[old(self).lane()].entry is Empty),
            poll is Pending ==> final(inner)@.lanes[old(self).lane()].parked == old(
                inner,
            )@.lanes[old(self).lane()].parked.push(waker),
            match poll {
                SendPoll::Pending => {
                    &&& QueueState::parks(
                        old(inner)@,
                        final(inner)@,
                        old(self).lane(),
                        waker,
                    )
                    &&& final(self).item() == old(self).item()
                },
                SendPoll::Ready { wake } => {
                    &&& QueueState::sends(
                        old(inner)@,
                        final(inner)@,
                        old(self).lane(),
                        old(self).item()->0,
                    )
                    &&& exists|scheduler: &mut S|
                        *scheduler == old(inner)@.scheduler
                            && *final(scheduler) == final(inner)@.scheduler
                            && #[trigger] call_ensures(
                            S::on_item_ready::<T>,
                            (scheduler, old(self).lane(), &old(self).item()->0),
                            (),
                        )
                    &&& wake == old(inner)@.waker
                    &&& final(self).item() is None
                },
            },
    {
        let id = self.sender.id;
        let lane = inner.lanes.get_mut(id);
        match lane.entry {
            Entry::Ready(_) | Entry::Reserved => {
                lane.parked_senders.push(waker);
                proof {
                    QueueState::lemma_with_lane_wf(old(inner)@, inner@, id);
                }
                SendPoll::Pending
            },
            Entry::Empty => {
                let item = self.item.take().unwrap();
                inner.scheduler.on_item_ready(id, &item);
                lane.entry = Entry::Ready(item);
                let wake = inner.waker.take();
                proof {
                    QueueState::lemma_puts_wf(old(inner)@, inner@, id, item);
                }
                SendPoll::Ready { wake }
            },
        }
    }
}

impl<'a> ReserveFut<'a> {
    /// The id of the lane.
    pub closed spec fn lane(&self) -> usize {
        self.sender.id
    }

    /// Reserves the slot, or waits for the slot.
    pub fn poll<T, Id, S: LaneScheduler, W>(
        &mut self,
        inner: &mut Inner<T, Id, S, W>,
        waker: W,
    ) -> (poll: ReservePoll<'a, W>)
        requires
            old(inner).wf(),
            old(inner)@.lanes.contains_key(old(self).lane()),
        ensures
            final(inner).wf(),
            final(inner)@.foreign() == old(inner)@.foreign(),
            final(self).lane() == old(self).lane(),
            poll is Pending <==> !(old(inner)@.lanes[old(self).lane()].entry is Empty),
            poll is Pending ==> final(inner)@.lanes[old(self).lane()].parked == old(
                inner,
            )@.lanes[old(self).lane()].parked.push(waker),
            match poll {
                ReservePoll::Pending => QueueState::parks(
                    old(inner)@,
                    final(inner)@,
                    old(self).lane(),
                    waker,
                ),
                ReservePoll::Ready { permit, wake } => {
                    &&& QueueState::reserves(old(inner)@, final(inner)@, old(self).lane())
                    &&& permit.lane() == old(self).lane()
                    &&& wake == old(inner)@.waker
                },
            },
    {
        let id = self.sender.id;
        let lane = inner.lanes.get_mut(id);
        match lane.entry {
            Entry::Ready(_) | Entry::Reserved => {
                lane.parked_senders.push(waker);
                proof {
                    QueueState::lemma_with_lane_wf(old(inner)@, inner@, id);
                }
                ReservePoll::Pending
            },
            Entry::Empty => {
                lane.entry = Entry::Reserved;
                let wake = inner.waker.take();
                proof {
                    QueueState::lemma_with_lane_wf(old(inner)@, inner@, id);
                }
                ReservePoll::Ready { permit: Permit { sender: self.sender }, wake }
            },
        }
    }
}

impl<'a> Permit<'a> {
    /// The id of the lane.
    pub closed spec fn lane(&self) -> usize {
        self.sender.id
    }

    /// Puts an item into the reserved slot, after showing it to the scheduler.
    /// What is returned is to be woken.
    pub fn send<T, Id, S: LaneScheduler, W>(
        self,
        inner: &mut Inner<T, Id, S, W>,
        item: T,
    ) -> (wake: Option<W>)
        requires
            old(inner).wf(),
            old(inner)@.lanes.contains_key(self.lane()),
            old(inner)@.lanes[self.lane()].entry is Reserved,
        ensures
            final(inner).wf(),
            final(inner)@.foreign() == old(inner)@.foreign(),
            QueueState::fills(old(inner)@, final(inner)@, self.lane(), item),
            exists|scheduler: &mut S|
                *scheduler == old(inner)@.scheduler
                    && *final(scheduler) == final(inner)@.scheduler
                    && #[trigger] call_ensures(
                    S::on_item_ready::<T>,
                    (scheduler, self.lane(), &item),
                    (),
                ),
            wake == old(inner)@.waker,
    {
        let id = self.sender.id;
        inner.scheduler.on_item_ready(id, &item);
        let lane = inner.lanes.get_mut(id);
        lane.entry = Entry::Ready(item);
        let wake = inner.waker.take();
        proof {
            QueueState::lemma_puts_wf(old(inner)@, inner@, id, item);
        }
        wake
    }

    /// Gives the reservation up. All that is returned are to be woken, in this
    /// order. Where nothing is reserved any more, nothing happens.
    ///
    /// A permit borrows its sender, so its lane has one.
    pub fn release<T, Id, S: LaneScheduler, W>(self, inner: &mut Inner<T, Id, S, W>) -> (wake: Vec<
        W,
    >)
        requires
            old(inner).wf(),
            old(inner)@.is_reserved(self.lane()) ==> old(inner)@.lanes[self.lane()].num_senders > 0,
        ensures
            final(inner).wf(),
            final(inner)@.foreign() == old(inner)@.foreign(),
            old(inner)@.lanes.contains_key(self.lane()) && old(
                inner,
            )@.lanes[self.lane()].entry is Reserved ==> wake@ == old(
                inner,
            )@.lanes[self.lane()].parked && final(inner)@.lanes[self.lane()].entry is Empty,
            if old(inner)@.is_reserved(self.lane()) {
                &&& QueueState::releases(old(inner)@, final(inner)@, self.lane())
                &&& wake@ == old(inner)@.lanes[self.lane()].parked
            } else {
                &&& final(inner)@ == old(inner)@
                &&& wake@ == Seq::<W>::empty()
            },
    {
        let id = self.sender.id;
        let mut wake: Vec<W> = Vec::new();
        let reserved = match inner.lanes.get(id) {
            Some(lane) => matches!(lane.entry, Entry::Reserved),
            None => false,
        };
        if reserved {
            let lane = inner.lanes.get_mut(id);
            lane.entry = Entry::Empty;
            std::mem::swap(&mut wake, &mut lane.parked_senders);
            proof {
                QueueState::lemma_with_lane_wf(old(inner)@, inner@, id);
            }
        }
        wake
    }
}

} // verus!
