//! The state of a fair lane queue, and what each operation does to it.

use vstd::prelude::*;

use crate::lane::{Entry, LaneState};
use crate::lane_table::{
    keys_wf, lemma_insert_keys, lemma_remove_keys, next_key, vacant_after_insert,
};
use crate::scheduler::LaneScheduler;

verus! {

/// The state of a queue.
#[verifier::reject_recursive_types(Id)]
pub struct QueueState<T, Id, S, W> {
    /// The open lanes, by lane id.
    pub lanes: Map<usize, LaneState<T, W>>,
    /// The ids of closed lanes that were not used again yet, as a stack.
    pub vacant: Seq<usize>,
    /// The lane that each name stands for.
    pub ids: Map<Id, usize>,
    /// The scheduler.
    pub scheduler: S,
    /// What wakes the receiver, where it waits.
    pub waker: Option<W>,
}

/// The scheduler was told about a new lane.
pub open spec fn lane_added<S: LaneScheduler>(pre: S, post: S, lane: usize) -> bool {
    &&& post.wf()
    &&& post.registered() == pre.registered().insert(lane)
    &&& post.ready() == pre.ready()
    &&& S::registers(pre, post, lane)
}

/// The scheduler was told that a lane is gone.
pub open spec fn lane_dropped<S: LaneScheduler>(pre: S, post: S, lane: usize) -> bool {
    &&& post.wf()
    &&& post.registered() == pre.registered().remove(lane)
    &&& post.ready() == pre.ready()
    &&& S::unregisters(pre, post, lane)
}

/// The scheduler was told that a lane got an item.
pub open spec fn lane_readied<S: LaneScheduler>(pre: S, post: S, lane: usize) -> bool {
    &&& post.wf()
    &&& post.registered() == pre.registered().insert(lane)
    &&& post.ready() == pre.ready().insert(lane)
    &&& S::marks_ready(pre, post, lane)
}

/// The scheduler was asked for the next lane.
pub open spec fn lane_served<S: LaneScheduler>(pre: S, post: S, served: Option<usize>) -> bool {
    &&& post.wf()
    &&& post.registered() == pre.registered()
    &&& match served {
        Some(lane) => pre.ready().contains(lane) && post.ready() == pre.ready().remove(lane),
        None => post.ready() == pre.ready(),
    }
    &&& S::serves(pre, post, served)
}

/// The names without those that stand for `lane`.
pub open spec fn ids_without<Id>(ids: Map<Id, usize>, lane: usize) -> Map<Id, usize> {
    Map::new(|id: Id| ids.contains_key(id) && ids[id] != lane, |id: Id| ids[id])
}

impl<T, W> LaneState<T, W> {
    /// The lane with one more sender.
    pub open spec fn joined(self) -> LaneState<T, W> {
        LaneState { num_senders: (self.num_senders + 1) as usize, ..self }
    }

    /// The lane with one sender less.
    pub open spec fn left(self) -> LaneState<T, W> {
        LaneState { num_senders: (self.num_senders - 1) as usize, ..self }
    }

    /// The lane with one more sender waiting.
    pub open spec fn parked(self, waker: W) -> LaneState<T, W> {
        LaneState { parked: self.parked.push(waker), ..self }
    }

    /// The lane with something in its slot.
    pub open spec fn filled(self, entry: Entry<T>) -> LaneState<T, W> {
        LaneState { entry, ..self }
    }

    /// The lane with a free slot, which nobody waits for.
    pub open spec fn freed(self) -> LaneState<T, W> {
        LaneState { entry: Entry::Empty, parked: Seq::empty(), ..self }
    }
}

impl<T, Id, S: LaneScheduler, W> QueueState<T, Id, S, W> {
    /// What holds between any two operations.
    ///
    /// The scheduler knows of the open lanes, and which lanes hold an item. Each
    /// open lane has one name. Where the slot of a lane is free, nobody waits for
    /// it, and somebody can still send on it.
    pub open spec fn wf(self) -> bool {
        &&& keys_wf(self.lanes.dom(), self.vacant)
        &&& self.scheduler.wf()
        &&& self.lanes.dom().subset_of(self.scheduler.registered())
        &&& forall|lane: usize| #[trigger]
            self.scheduler.ready().contains(lane) <==> self.holds_item(lane)
        &&& forall|lane: usize| #[trigger]
            self.lanes.contains_key(lane) ==> self.lanes[lane].wf() && self.has_name(lane)
        &&& forall|id: Id| #[trigger]
            self.ids.contains_key(id) ==> self.lanes.contains_key(self.ids[id])
        &&& forall|id: Id, other: Id| #[trigger]
            self.ids.contains_key(id) && #[trigger] self.ids.contains_key(other) && self.ids[id]
                == self.ids[other] ==> id == other
    }

    /// The lanes that the scheduler knows of, though the queue has no such lane.
    pub open spec fn foreign(self) -> Set<usize> {
        self.scheduler.registered().difference(self.lanes.dom())
    }

    /// An undelivered item is in `lane`.
    pub open spec fn holds_item(self, lane: usize) -> bool {
        self.lanes.contains_key(lane) && self.lanes[lane].entry is Ready
    }

    /// The slot of `lane` is kept for the holder of a permit.
    pub open spec fn is_reserved(self, lane: usize) -> bool {
        self.lanes.contains_key(lane) && self.lanes[lane].entry is Reserved
    }

    /// Some name stands for `lane`.
    pub open spec fn has_name(self, lane: usize) -> bool {
        exists|id: Id| #[trigger] self.ids.contains_key(id) && self.ids[id] == lane
    }

    /// The state with one lane changed.
    pub open spec fn with_lane(self, lane: usize, state: LaneState<T, W>) -> Self {
        QueueState { lanes: self.lanes.insert(lane, state), ..self }
    }

    /// A sender for the lane named `id` was made, which is `lane`. A name that
    /// stands for no lane gets a new one.
    pub open spec fn opens(pre: Self, post: Self, id: Id, lane: usize) -> bool {
        if pre.ids.contains_key(id) {
            &&& lane == pre.ids[id]
            &&& pre.lanes[lane].num_senders < usize::MAX
            &&& post == pre.with_lane(lane, pre.lanes[lane].joined())
        } else {
            &&& lane == next_key(pre.lanes.dom(), pre.vacant)
            &&& pre.lanes.dom().len() < usize::MAX
            &&& !pre.foreign().contains(lane)
            &&& post.lanes == pre.lanes.insert(lane, LaneState::fresh().joined())
            &&& post.vacant == vacant_after_insert(pre.vacant)
            &&& post.ids == pre.ids.insert(id, lane)
            &&& lane_added(pre.scheduler, post.scheduler, lane)
            &&& post.waker == pre.waker
        }
    }

    /// One more sender for `lane` was made from one that it has.
    pub open spec fn shares(pre: Self, post: Self, lane: usize) -> bool {
        &&& pre.lanes.contains_key(lane)
        &&& pre.lanes[lane].num_senders < usize::MAX
        &&& post == pre.with_lane(lane, pre.lanes[lane].joined())
    }

    /// `lane` is gone: its id is vacant, its name is free again, and the
    /// scheduler, in state `told` before, was told.
    pub open spec fn reclaims(pre: Self, post: Self, told: S, lane: usize) -> bool {
        &&& post.lanes == pre.lanes.remove(lane)
        &&& post.vacant == pre.vacant.push(lane)
        &&& post.ids == ids_without(pre.ids, lane)
        &&& lane_dropped(told, post.scheduler, lane)
    }

    /// A sender of `lane` is gone. With the last one goes the lane, where its
    /// slot is free.
    pub open spec fn closes(pre: Self, post: Self, lane: usize) -> bool {
        &&& pre.lanes.contains_key(lane)
        &&& pre.lanes[lane].num_senders > 0
        &&& if pre.lanes[lane].num_senders == 1 && pre.lanes[lane].entry is Empty {
            &&& Self::reclaims(pre, post, pre.scheduler, lane)
            &&& post.waker == pre.waker
        } else {
            post == pre.with_lane(lane, pre.lanes[lane].left())
        }
    }

    /// A sender found the slot of `lane` taken and waits for it.
    pub open spec fn parks(pre: Self, post: Self, lane: usize, waker: W) -> bool {
        &&& pre.lanes.contains_key(lane)
        &&& !(pre.lanes[lane].entry is Empty)
        &&& post == pre.with_lane(lane, pre.lanes[lane].parked(waker))
    }

    /// `item` went into `lane`, the scheduler was told, and the receiver no
    /// longer waits.
    pub open spec fn puts(pre: Self, post: Self, lane: usize, item: T) -> bool {
        &&& post.lanes == pre.lanes.insert(lane, pre.lanes[lane].filled(Entry::Ready(item)))
        &&& post.vacant == pre.vacant
        &&& post.ids == pre.ids
        &&& lane_readied(pre.scheduler, post.scheduler, lane)
        &&& post.waker == None::<W>
    }

    /// `item` was sent into the free slot of `lane`.
    pub open spec fn sends(pre: Self, post: Self, lane: usize, item: T) -> bool {
        &&& pre.lanes.contains_key(lane)
        &&& pre.lanes[lane].entry is Empty
        &&& Self::puts(pre, post, lane, item)
    }

    /// The free slot of `lane` was reserved, and the receiver no longer waits.
    pub open spec fn reserves(pre: Self, post: Self, lane: usize) -> bool {
        &&& pre.lanes.contains_key(lane)
        &&& pre.lanes[lane].entry is Empty
        &&& post == (QueueState {
            waker: None::<W>,
            ..pre.with_lane(lane, pre.lanes[lane].filled(Entry::Reserved))
        })
    }

    /// `item` was sent into the reserved slot of `lane`.
    pub open spec fn fills(pre: Self, post: Self, lane: usize, item: T) -> bool {
        &&& pre.lanes.contains_key(lane)
        &&& pre.lanes[lane].entry is Reserved
        &&& Self::puts(pre, post, lane, item)
    }

    /// The reservation of `lane` was given up.
    pub open spec fn releases(pre: Self, post: Self, lane: usize) -> bool {
        &&& pre.lanes.contains_key(lane)
        &&& pre.lanes[lane].entry is Reserved
        &&& pre.lanes[lane].num_senders > 0
        &&& post == pre.with_lane(lane, pre.lanes[lane].freed())
    }

    /// The receiver came for an item, the scheduler had no lane to serve, and
    /// the receiver waits.
    pub open spec fn idles(pre: Self, post: Self, waker: W) -> bool {
        &&& post.lanes == pre.lanes
        &&& post.vacant == pre.vacant
        &&& post.ids == pre.ids
        &&& lane_served(pre.scheduler, post.scheduler, None)
        &&& post.waker == Some(waker)
    }

    /// The receiver came for an item and got `item` from `lane`, which the
    /// scheduler picked. `woken` waited for the slot. A lane without senders is
    /// gone with its item.
    pub open spec fn delivers(
        pre: Self,
        post: Self,
        waker: W,
        lane: usize,
        item: T,
        woken: Seq<W>,
    ) -> bool {
        &&& pre.lanes.contains_key(lane)
        &&& pre.lanes[lane].entry == Entry::Ready(item)
        &&& woken == pre.lanes[lane].parked
        &&& if pre.lanes[lane].num_senders == 0 {
            exists|told: S| #[trigger]
                lane_served(pre.scheduler, told, Some(lane)) && Self::reclaims(
                    pre,
                    post,
                    told,
                    lane,
                )
        } else {
            &&& lane_served(pre.scheduler, post.scheduler, Some(lane))
            &&& post.lanes == pre.lanes.insert(lane, pre.lanes[lane].freed())
            &&& post.vacant == pre.vacant
            &&& post.ids == pre.ids
        }
        &&& post.waker == Some(waker)
    }
}

impl<T, Id, S: LaneScheduler, W> QueueState<T, Id, S, W> {
    /// Opening a lane keeps the invariant, and a new lane is no open one.
    pub proof fn lemma_opens_wf(pre: Self, post: Self, id: Id, lane: usize)
        requires
            pre.wf(),
            Self::opens(pre, post, id, lane),
        ensures
            post.wf(),
            post.foreign() == pre.foreign(),
            post.ids.contains_key(id) && post.ids[id] == lane,
            post.lanes.contains_key(lane),
            !pre.ids.contains_key(id) ==> !pre.lanes.contains_key(lane),
    {
        if pre.ids.contains_key(id) {
            Self::lemma_with_lane_wf(pre, post, lane);
        } else {
            lemma_insert_keys(pre.lanes.dom(), pre.vacant);
            assert(post.lanes.dom() =~= pre.lanes.dom().insert(lane));
            assert(!pre.scheduler.ready().contains(lane));
            assert forall|other: usize| #[trigger]
                post.scheduler.ready().contains(other) <==> post.holds_item(other) by {
                assert(pre.scheduler.ready().contains(other) <==> pre.holds_item(other));
            }
            assert forall|other: usize| #[trigger]
                post.lanes.contains_key(other) implies post.lanes[other].wf() && post.has_name(
                other,
            ) by {
                if other == lane {
                    assert(post.ids.contains_key(id));
                } else {
                    assert(pre.lanes.contains_key(other));
                    let name = choose|name: Id| #[trigger]
                        pre.ids.contains_key(name) && pre.ids[name] == other;
                    assert(post.ids.contains_key(name) && post.ids[name] == other);
                }
            }
        }
    }

    /// Changing a lane keeps the invariant, as long as the lane keeps its own
    /// and holds an item afterwards where it did before.
    pub proof fn lemma_with_lane_wf(pre: Self, post: Self, lane: usize)
        requires
            pre.wf(),
            pre.lanes.contains_key(lane),
            post.lanes == pre.lanes.insert(lane, post.lanes[lane]),
            post.lanes[lane].wf(),
            post.lanes[lane].entry is Ready <==> pre.lanes[lane].entry is Ready,
            post.vacant == pre.vacant,
            post.ids == pre.ids,
            post.scheduler == pre.scheduler,
        ensures
            post.wf(),
            post.foreign() == pre.foreign(),
    {
        assert(post.lanes.dom() =~= pre.lanes.dom());
        assert forall|other: usize| #[trigger]
            post.scheduler.ready().contains(other) <==> post.holds_item(other) by {
            assert(pre.scheduler.ready().contains(other) <==> pre.holds_item(other));
        }
        assert forall|other: usize| #[trigger] post.lanes.contains_key(other) implies post.has_name(
            other,
        ) by {
            assert(pre.lanes.contains_key(other));
            assert(pre.has_name(other));
        }
    }

    /// Reclaiming a lane keeps the invariant. `told` is what the scheduler was
    /// before: it knows of the same lanes and, but for the item that was just
    /// taken, which of them hold an item.
    proof fn lemma_reclaims_wf(pre: Self, post: Self, told: S, lane: usize)
        requires
            pre.wf(),
            pre.lanes.contains_key(lane),
            told.registered() == pre.scheduler.registered(),
            forall|other: usize| #[trigger]
                told.ready().contains(other) <==> other != lane && pre.holds_item(other),
            Self::reclaims(pre, post, told, lane),
        ensures
            post.wf(),
            post.foreign() == pre.foreign(),
    {
        lemma_remove_keys(pre.lanes.dom(), pre.vacant, lane);
        assert(post.lanes.dom() =~= pre.lanes.dom().remove(lane));
        assert forall|other: usize| #[trigger]
            post.scheduler.ready().contains(other) <==> post.holds_item(other) by {
            assert(told.ready().contains(other) <==> other != lane && pre.holds_item(other));
        }
        assert forall|other: usize| #[trigger]
            post.lanes.contains_key(other) implies post.lanes[other].wf() && post.has_name(
            other,
        ) by {
            assert(pre.lanes.contains_key(other));
            let name = choose|name: Id| #[trigger]
                pre.ids.contains_key(name) && pre.ids[name] == other;
            assert(post.ids.contains_key(name));
        }
    }

    /// A sender leaving keeps the invariant.
    pub proof fn lemma_closes_wf(pre: Self, post: Self, lane: usize)
        requires
            pre.wf(),
            Self::closes(pre, post, lane),
        ensures
            post.wf(),
            post.foreign() == pre.foreign(),
    {
        if pre.lanes[lane].num_senders == 1 && pre.lanes[lane].entry is Empty {
            Self::lemma_reclaims_wf(pre, post, pre.scheduler, lane);
        } else {
            Self::lemma_with_lane_wf(pre, post, lane);
        }
    }

    /// Putting an item into a lane that holds none keeps the invariant.
    pub proof fn lemma_puts_wf(pre: Self, post: Self, lane: usize, item: T)
        requires
            pre.wf(),
            pre.lanes.contains_key(lane),
            Self::puts(pre, post, lane, item),
        ensures
            post.wf(),
            post.foreign() == pre.foreign(),
    {
        assert(post.lanes.dom() =~= pre.lanes.dom());
        assert(post.scheduler.registered() =~= pre.scheduler.registered());
        assert forall|other: usize| #[trigger]
            post.scheduler.ready().contains(other) <==> post.holds_item(other) by {
            assert(pre.scheduler.ready().contains(other) <==> pre.holds_item(other));
        }
        assert forall|other: usize| #[trigger]
            post.lanes.contains_key(other) implies post.lanes[other].wf() && post.has_name(
            other,
        ) by {
            assert(pre.lanes.contains_key(other));
            assert(pre.has_name(other));
        }
    }

    /// A receiver that got nothing keeps the invariant.
    pub proof fn lemma_idles_wf(pre: Self, post: Self, waker: W)
        requires
            pre.wf(),
            Self::idles(pre, post, waker),
        ensures
            post.wf(),
            post.foreign() == pre.foreign(),
    {
        assert forall|other: usize| #[trigger]
            post.scheduler.ready().contains(other) <==> post.holds_item(other) by {
            assert(pre.scheduler.ready().contains(other) <==> pre.holds_item(other));
        }
        assert forall|other: usize| #[trigger]
            post.lanes.contains_key(other) implies post.lanes[other].wf() && post.has_name(
            other,
        ) by {
            assert(pre.lanes.contains_key(other));
            assert(pre.has_name(other));
        }
    }

    /// Delivering an item keeps the invariant.
    pub proof fn lemma_delivers_wf(
        pre: Self,
        post: Self,
        waker: W,
        lane: usize,
        item: T,
        woken: Seq<W>,
    )
        requires
            pre.wf(),
            Self::delivers(pre, post, waker, lane, item, woken),
        ensures
            post.wf(),
            post.foreign() == pre.foreign(),
    {
        if pre.lanes[lane].num_senders == 0 {
            let told = choose|told: S| #[trigger]
                lane_served(pre.scheduler, told, Some(lane)) && Self::reclaims(
                    pre,
                    post,
                    told,
                    lane,
                );
            assert forall|other: usize| #[trigger]
                told.ready().contains(other) <==> other != lane && pre.holds_item(other) by {
                assert(pre.scheduler.ready().contains(other) <==> pre.holds_item(other));
            }
            Self::lemma_reclaims_wf(pre, post, told, lane);
        } else {
            assert(post.lanes.dom() =~= pre.lanes.dom());
            assert forall|other: usize| #[trigger]
                post.scheduler.ready().contains(other) <==> post.holds_item(other) by {
                assert(pre.scheduler.ready().contains(other) <==> pre.holds_item(other));
            }
            assert forall|other: usize| #[trigger]
                post.lanes.contains_key(other) implies post.lanes[other].wf() && post.has_name(
                other,
            ) by {
                assert(pre.lanes.contains_key(other));
                assert(pre.has_name(other));
            }
        }
    }
}

} // verus!
