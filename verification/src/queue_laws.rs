//! What holds of a fair lane queue over any number of operations.

use vstd::prelude::*;

use crate::lane::Entry;
use crate::queue_state::{lane_served, QueueState};
use crate::scheduler::{LaneScheduler, RoundRobinScheduler};

verus! {

/// One operation on a queue, with what it was given and what it returned.
pub enum Step<T, Id, W> {
    /// A sender for the lane named `id` was made, and the lane is `lane`.
    Open { id: Id, lane: usize },
    /// A sender of `lane` was shared.
    Share { lane: usize },
    /// A sender of `lane` was closed.
    Close { lane: usize },
    /// A sender waits for the slot of `lane`.
    Park { lane: usize, waker: W },
    /// `item` was sent on `lane`, and `woken` was woken.
    Send { lane: usize, item: T, woken: Option<W> },
    /// The slot of `lane` was reserved, and `woken` was woken.
    Reserve { lane: usize, woken: Option<W> },
    /// `item` was sent with a permit for `lane`, and `woken` was woken.
    Fill { lane: usize, item: T, woken: Option<W> },
    /// A permit for `lane` was released, and `senders` were woken.
    Release { lane: usize, senders: Seq<W> },
    /// The receiver got nothing and waits.
    Idle { waker: W },
    /// The receiver got `item` from `lane`, and `senders` were woken.
    Deliver { waker: W, lane: usize, item: T, senders: Seq<W> },
}

impl<T, Id, W> Step<T, Id, W> {
    /// The step takes an item out of `lane`.
    pub open spec fn delivers_from(self, lane: usize) -> bool {
        self is Deliver && self->Deliver_lane == lane
    }

    /// The step makes a sender of `lane`.
    pub open spec fn makes_sender(self, lane: usize) -> bool {
        ||| self is Open && self->Open_lane == lane
        ||| self is Share && self->Share_lane == lane
    }

    /// The step closes a sender of `lane`.
    pub open spec fn closes_sender(self, lane: usize) -> bool {
        self is Close && self->Close_lane == lane
    }

    /// The step makes a permit for `lane`.
    pub open spec fn makes_permit(self, lane: usize) -> bool {
        self is Reserve && self->Reserve_lane == lane
    }

    /// The step uses a permit for `lane`, or gives it up.
    pub open spec fn spends_permit(self, lane: usize) -> bool {
        ||| self is Fill && self->Fill_lane == lane
        ||| self is Release && self->Release_lane == lane
    }

    /// The step puts `item` into `lane`.
    pub open spec fn puts_into(self, lane: usize, item: T) -> bool {
        ||| self is Send && self->Send_lane == lane && self->Send_item == item
        ||| self is Fill && self->Fill_lane == lane && self->Fill_item == item
    }

    /// The item that the step puts into `lane`, if any.
    pub open spec fn item_put(self, lane: usize) -> Seq<T> {
        if self is Send && self->Send_lane == lane {
            seq![self->Send_item]
        } else if self is Fill && self->Fill_lane == lane {
            seq![self->Fill_item]
        } else {
            Seq::empty()
        }
    }

    /// The item that the step takes out of `lane`, if any.
    pub open spec fn item_delivered(self, lane: usize) -> Seq<T> {
        if self.delivers_from(lane) {
            seq![self->Deliver_item]
        } else {
            Seq::empty()
        }
    }

    /// The item that the step puts into a lane, if any, with the lane.
    pub open spec fn accepted(self) -> Seq<(usize, T)> {
        match self {
            Step::Send { lane, item, .. } => seq![(lane, item)],
            Step::Fill { lane, item, .. } => seq![(lane, item)],
            _ => Seq::empty(),
        }
    }

    /// The item that the step takes out of a lane, if any, with the lane.
    pub open spec fn delivered(self) -> Seq<(usize, T)> {
        match self {
            Step::Deliver { lane, item, .. } => seq![(lane, item)],
            _ => Seq::empty(),
        }
    }

    /// The step is one of the receiver.
    pub open spec fn receives(self) -> bool {
        self is Idle || self is Deliver
    }

    /// The step takes or fills a free slot, which the receiver is told about.
    pub open spec fn takes_slot(self) -> bool {
        self is Send || self is Reserve || self is Fill
    }

    /// The step wakes `waker`.
    pub open spec fn wakes(self, waker: W) -> bool {
        match self {
            Step::Send { woken, .. } => woken == Some(waker),
            Step::Reserve { woken, .. } => woken == Some(waker),
            Step::Fill { woken, .. } => woken == Some(waker),
            Step::Release { senders, .. } => senders.contains(waker),
            Step::Deliver { senders, .. } => senders.contains(waker),
            _ => false,
        }
    }
}

/// The items that `steps` put into `lane`, in order.
pub open spec fn items_put<T, Id, W>(steps: Seq<Step<T, Id, W>>, lane: usize) -> Seq<T>
    decreases steps.len(),
{
    if steps.len() == 0 {
        Seq::empty()
    } else {
        items_put(steps.drop_last(), lane) + steps.last().item_put(lane)
    }
}

/// The items that `steps` take out of `lane`, in order.
pub open spec fn items_delivered<T, Id, W>(steps: Seq<Step<T, Id, W>>, lane: usize) -> Seq<T>
    decreases steps.len(),
{
    if steps.len() == 0 {
        Seq::empty()
    } else {
        items_delivered(steps.drop_last(), lane) + steps.last().item_delivered(lane)
    }
}

/// The items that `steps` put into lanes, in order, each with its lane.
pub open spec fn all_accepted<T, Id, W>(steps: Seq<Step<T, Id, W>>) -> Seq<(usize, T)>
    decreases steps.len(),
{
    if steps.len() == 0 {
        Seq::empty()
    } else {
        all_accepted(steps.drop_last()) + steps.last().accepted()
    }
}

/// The items that `steps` take out of lanes, in order, each with its lane.
pub open spec fn all_delivered<T, Id, W>(steps: Seq<Step<T, Id, W>>) -> Seq<(usize, T)>
    decreases steps.len(),
{
    if steps.len() == 0 {
        Seq::empty()
    } else {
        all_delivered(steps.drop_last()) + steps.last().delivered()
    }
}

/// How many of `steps` satisfy `holds`.
pub open spec fn count<T, Id, W>(
    steps: Seq<Step<T, Id, W>>,
    holds: spec_fn(Step<T, Id, W>) -> bool,
) -> nat
    decreases steps.len(),
{
    if steps.len() == 0 {
        0
    } else {
        count(steps.drop_last(), holds) + if holds(steps.last()) {
            1nat
        } else {
            0nat
        }
    }
}

impl<T, Id, S: LaneScheduler, W> QueueState<T, Id, S, W> {
    /// `step` takes the queue from `pre` to `post`.
    pub open spec fn takes(pre: Self, post: Self, step: Step<T, Id, W>) -> bool {
        match step {
            Step::Open { id, lane } => Self::opens(pre, post, id, lane),
            Step::Share { lane } => Self::shares(pre, post, lane),
            Step::Close { lane } => Self::closes(pre, post, lane),
            Step::Park { lane, waker } => Self::parks(pre, post, lane, waker),
            Step::Send { lane, item, woken } => Self::sends(pre, post, lane, item) && woken
                == pre.waker,
            Step::Reserve { lane, woken } => Self::reserves(pre, post, lane) && woken == pre.waker,
            Step::Fill { lane, item, woken } => Self::fills(pre, post, lane, item) && woken
                == pre.waker,
            Step::Release { lane, senders } => Self::releases(pre, post, lane) && senders
                == pre.lanes[lane].parked,
            Step::Idle { waker } => Self::idles(pre, post, waker),
            Step::Deliver { waker, lane, item, senders } => Self::delivers(
                pre,
                post,
                waker,
                lane,
                item,
                senders,
            ),
        }
    }

    /// `steps` take the queue through `states`, one after the other.
    pub open spec fn runs(states: Seq<Self>, steps: Seq<Step<T, Id, W>>) -> bool {
        &&& states.len() == steps.len() + 1
        &&& states[0].wf()
        &&& forall|i: int|
            0 <= i < steps.len() ==> Self::takes(states[i], states[i + 1], #[trigger] steps[i])
    }

    /// Every step keeps the invariant, and leaves lanes of the scheduler alone
    /// that are not the queue's.
    pub proof fn law_step_keeps_invariant(pre: Self, post: Self, step: Step<T, Id, W>)
        requires
            pre.wf(),
            Self::takes(pre, post, step),
        ensures
            post.wf(),
            post.foreign() == pre.foreign(),
    {
        match step {
            Step::Open { id, lane } => Self::lemma_opens_wf(pre, post, id, lane),
            Step::Share { lane } => Self::lemma_with_lane_wf(pre, post, lane),
            Step::Close { lane } => Self::lemma_closes_wf(pre, post, lane),
            Step::Park { lane, .. } => Self::lemma_with_lane_wf(pre, post, lane),
            Step::Send { lane, item, .. } => Self::lemma_puts_wf(pre, post, lane, item),
            Step::Reserve { lane, .. } => Self::lemma_with_lane_wf(pre, post, lane),
            Step::Fill { lane, item, .. } => Self::lemma_puts_wf(pre, post, lane, item),
            Step::Release { lane, .. } => Self::lemma_with_lane_wf(pre, post, lane),
            Step::Idle { waker } => Self::lemma_idles_wf(pre, post, waker),
            Step::Deliver { waker, lane, item, senders } => Self::lemma_delivers_wf(
                pre,
                post,
                waker,
                lane,
                item,
                senders,
            ),
        }
    }

    /// Every state that a queue comes to satisfies the invariant, and the
    /// scheduler knows of the same lanes beside the queue's as at first.
    pub proof fn law_invariant(states: Seq<Self>, steps: Seq<Step<T, Id, W>>, i: int)
        requires
            Self::runs(states, steps),
            0 <= i < states.len(),
        ensures
            states[i].wf(),
            states[i].foreign() == states[0].foreign(),
        decreases i,
    {
        if i > 0 {
            Self::law_invariant(states, steps, i - 1);
            assert(Self::takes(states[i - 1], states[i], steps[i - 1]));
            Self::law_step_keeps_invariant(states[i - 1], states[i], steps[i - 1]);
        }
    }

    /// The run without its last step is a run.
    proof fn lemma_shorter_run(states: Seq<Self>, steps: Seq<Step<T, Id, W>>)
        requires
            Self::runs(states, steps),
            steps.len() > 0,
        ensures
            Self::runs(states.drop_last(), steps.drop_last()),
            states[states.len() - 2] == states.drop_last().last(),
            states[states.len() - 2].wf(),
            Self::takes(states[states.len() - 2], states.last(), steps.last()),
    {
        Self::law_invariant(states, steps, states.len() - 2);
        assert(Self::takes(states[states.len() - 2], states.last(), steps[steps.len() - 1]));
        assert forall|i: int| 0 <= i < steps.drop_last().len() implies Self::takes(
            states.drop_last()[i],
            states.drop_last()[i + 1],
            #[trigger] steps.drop_last()[i],
        ) by {
            assert(Self::takes(states[i], states[i + 1], steps[i]));
        }
    }

    /// What is in a slot stays there, unless the step delivers it, or it is a
    /// reservation and the step uses it up.
    pub proof fn law_step_keeps_slot(pre: Self, post: Self, step: Step<T, Id, W>, lane: usize)
        requires
            pre.wf(),
            Self::takes(pre, post, step),
            pre.lanes.contains_key(lane),
            !(pre.lanes[lane].entry is Empty),
            !step.delivers_from(lane),
            !step.spends_permit(lane),
        ensures
            post.lanes.contains_key(lane),
            post.lanes[lane].entry == pre.lanes[lane].entry,
    {
        if let Step::Open { id, lane: opened } = step {
            Self::lemma_opens_wf(pre, post, id, opened);
        }
    }

    /// An item that was sent stays in its lane until it is delivered.
    pub proof fn law_item_stays(
        states: Seq<Self>,
        steps: Seq<Step<T, Id, W>>,
        lane: usize,
        item: T,
    )
        requires
            Self::runs(states, steps),
            states[0].lanes.contains_key(lane),
            states[0].lanes[lane].entry == Entry::Ready(item),
            forall|i: int| 0 <= i < steps.len() ==> !(#[trigger] steps[i]).delivers_from(lane),
        ensures
            states.last().lanes.contains_key(lane),
            states.last().lanes[lane].entry == Entry::Ready(item),
        decreases steps.len(),
    {
        if steps.len() > 0 {
            Self::lemma_shorter_run(states, steps);
            Self::law_item_stays(states.drop_last(), steps.drop_last(), lane, item);
            Self::law_step_keeps_slot(
                states[states.len() - 2],
                states.last(),
                steps.last(),
                lane,
            );
        }
    }

    /// The next item that comes out of a lane is the one that was sent on it.
    pub proof fn law_delivered_is_sent(
        states: Seq<Self>,
        steps: Seq<Step<T, Id, W>>,
        lane: usize,
        item: T,
    )
        requires
            Self::runs(states, steps),
            steps.len() >= 2,
            steps[0].puts_into(lane, item),
            steps.last().delivers_from(lane),
            forall|i: int|
                0 <= i < steps.len() - 1 ==> !(#[trigger] steps[i]).delivers_from(lane),
        ensures
            steps.last()->Deliver_item == item,
    {
        let between_states = states.subrange(1, states.len() - 1);
        let between = steps.subrange(1, steps.len() - 1);
        assert(Self::takes(states[0], states[1], steps[0]));
        Self::law_step_keeps_invariant(states[0], states[1], steps[0]);
        assert forall|i: int| 0 <= i < between.len() implies Self::takes(
            between_states[i],
            between_states[i + 1],
            #[trigger] between[i],
        ) by {
            assert(Self::takes(states[i + 1], states[i + 2], steps[i + 1]));
        }
        assert forall|i: int| 0 <= i < between.len() implies !(
        #[trigger] between[i]).delivers_from(lane) by {
            assert(!steps[i + 1].delivers_from(lane));
        }
        Self::law_item_stays(between_states, between, lane, item);
        assert(between_states.last() == states[states.len() - 2]);
        assert(Self::takes(
            states[states.len() - 2],
            states[states.len() - 1],
            steps[steps.len() - 1],
        ));
    }

    /// A run is what any operations lead to: it begins with any state that
    /// satisfies the invariant, and goes on with any operation.
    pub proof fn law_operations_make_runs(
        states: Seq<Self>,
        steps: Seq<Step<T, Id, W>>,
        post: Self,
        step: Step<T, Id, W>,
    )
        ensures
            post.wf() ==> Self::runs(seq![post], Seq::<Step<T, Id, W>>::empty()),
            Self::runs(states, steps) && Self::takes(states.last(), post, step) ==> Self::runs(
                states.push(post),
                steps.push(step),
            ),
    {
        if Self::runs(states, steps) && Self::takes(states.last(), post, step) {
            let more_states = states.push(post);
            let more = steps.push(step);
            assert forall|i: int| 0 <= i < more.len() implies Self::takes(
                more_states[i],
                more_states[i + 1],
                #[trigger] more[i],
            ) by {
                if i < steps.len() {
                    assert(Self::takes(states[i], states[i + 1], steps[i]));
                }
            }
        }
    }

    /// Every operation is a step, whatever lane it is about.
    pub proof fn law_operations_are_steps(
        pre: Self,
        post: Self,
        id: Id,
        lane: usize,
        item: T,
        waker: W,
        senders: Seq<W>,
    )
        ensures
            Self::opens(pre, post, id, lane) ==> Self::takes(pre, post, (Step::Open { id, lane })),
            Self::shares(pre, post, lane) ==> Self::takes(pre, post, (Step::Share { lane })),
            Self::closes(pre, post, lane) ==> Self::takes(pre, post, (Step::Close { lane })),
            Self::parks(pre, post, lane, waker) ==> Self::takes(
                pre,
                post,
                (Step::Park { lane, waker }),
            ),
            Self::sends(pre, post, lane, item) ==> Self::takes(
                pre,
                post,
                (Step::Send { lane, item, woken: pre.waker }),
            ),
            Self::reserves(pre, post, lane) ==> Self::takes(
                pre,
                post,
                (Step::Reserve { lane, woken: pre.waker }),
            ),
            Self::fills(pre, post, lane, item) ==> Self::takes(
                pre,
                post,
                (Step::Fill { lane, item, woken: pre.waker }),
            ),
            Self::releases(pre, post, lane) ==> Self::takes(
                pre,
                post,
                (Step::Release { lane, senders: pre.lanes[lane].parked }),
            ),
            Self::idles(pre, post, waker) ==> Self::takes(pre, post, (Step::Idle { waker })),
            Self::delivers(pre, post, waker, lane, item, senders) ==> Self::takes(
                pre,
                post,
                (Step::Deliver { waker, lane, item, senders }),
            ),
    {
    }

    /// A sender for a name that stands for a lane is one more sender of that
    /// lane. Nothing else changes.
    pub proof fn law_known_name_leads_to_its_lane(pre: Self, post: Self, id: Id, lane: usize)
        requires
            Self::opens(pre, post, id, lane),
            pre.ids.contains_key(id),
        ensures
            lane == pre.ids[id],
            post.lanes.contains_key(lane),
            post.lanes[lane].num_senders == pre.lanes[lane].num_senders + 1,
            post.lanes[lane].entry == pre.lanes[lane].entry,
            post.lanes[lane].parked == pre.lanes[lane].parked,
            post.lanes.remove(lane) == pre.lanes.remove(lane),
            post.vacant == pre.vacant,
            post.ids == pre.ids,
            post.scheduler == pre.scheduler,
            post.waker == pre.waker,
    {
    }

    /// A new name gets a lane of its own, with one sender and a free slot. The
    /// lane takes the id that was given back last or, where there is none, the
    /// first that was never used. The scheduler is told; nothing else changes.
    pub proof fn law_new_name_gets_its_own_lane(pre: Self, post: Self, id: Id, lane: usize)
        requires
            Self::opens(pre, post, id, lane),
            !pre.ids.contains_key(id),
        ensures
            pre.wf() ==> !pre.lanes.contains_key(lane),
            pre.vacant.len() > 0 ==> pre.vacant == post.vacant.push(lane),
            pre.vacant.len() == 0 ==> lane == pre.lanes.dom().len() && post.vacant.len() == 0,
            post.lanes.contains_key(lane),
            post.lanes[lane].entry is Empty,
            post.lanes[lane].num_senders == 1,
            post.lanes[lane].parked.len() == 0,
            post.lanes.remove(lane) == pre.lanes.remove(lane),
            post.ids.contains_key(id) && post.ids[id] == lane,
            post.ids.remove(id) == pre.ids,
            S::registers(pre.scheduler, post.scheduler, lane),
            post.scheduler.registered() == pre.scheduler.registered().insert(lane),
            post.scheduler.ready() == pre.scheduler.ready(),
            post.waker == pre.waker,
    {
        if pre.wf() {
            Self::lemma_opens_wf(pre, post, id, lane);
        }
        if pre.vacant.len() > 0 {
            assert(post.vacant.push(lane) =~= pre.vacant);
        }
        assert(post.lanes.remove(lane) =~= pre.lanes.remove(lane));
        assert(post.ids.remove(id) =~= pre.ids);
    }

    /// Sharing a sender adds one sender to its lane and changes nothing else.
    pub proof fn law_sharing_adds_a_sender(pre: Self, post: Self, lane: usize)
        requires
            Self::shares(pre, post, lane),
        ensures
            pre.lanes.contains_key(lane) && post.lanes.contains_key(lane),
            post.lanes[lane].num_senders == pre.lanes[lane].num_senders + 1,
            post.lanes[lane].entry == pre.lanes[lane].entry,
            post.lanes[lane].parked == pre.lanes[lane].parked,
            post.lanes.remove(lane) == pre.lanes.remove(lane),
            post.vacant == pre.vacant,
            post.ids == pre.ids,
            post.scheduler == pre.scheduler,
            post.waker == pre.waker,
    {
        assert(post.lanes.remove(lane) =~= pre.lanes.remove(lane));
    }

    /// Closing a sender leaves its lane open where it has others, or where there
    /// is something in its slot. The lane has one sender less; nothing else
    /// changes.
    pub proof fn law_lane_stays_open(pre: Self, post: Self, lane: usize)
        requires
            Self::closes(pre, post, lane),
            pre.lanes[lane].num_senders != 1 || !(pre.lanes[lane].entry is Empty),
        ensures
            pre.lanes.contains_key(lane) && post.lanes.contains_key(lane),
            post.lanes[lane].num_senders == pre.lanes[lane].num_senders - 1,
            post.lanes[lane].entry == pre.lanes[lane].entry,
            post.lanes[lane].parked == pre.lanes[lane].parked,
            post.lanes.remove(lane) == pre.lanes.remove(lane),
            post.vacant == pre.vacant,
            post.ids == pre.ids,
            post.scheduler == pre.scheduler,
            post.waker == pre.waker,
    {
        assert(post.lanes.remove(lane) =~= pre.lanes.remove(lane));
    }

    /// The last sender of a lane with a free slot takes the lane along. Its names
    /// are free, its id is the next to be used, and the scheduler is told.
    pub proof fn law_last_sender_takes_lane_along(pre: Self, post: Self, lane: usize)
        requires
            Self::closes(pre, post, lane),
            pre.lanes[lane].num_senders == 1,
            pre.lanes[lane].entry is Empty,
        ensures
            pre.lanes.contains_key(lane),
            post.lanes == pre.lanes.remove(lane),
            post.vacant == pre.vacant.push(lane),
            forall|id: Id| #[trigger]
                post.ids.contains_key(id) <==> pre.ids.contains_key(id) && pre.ids[id] != lane,
            forall|id: Id| #[trigger] post.ids.contains_key(id) ==> post.ids[id] == pre.ids[id],
            S::unregisters(pre.scheduler, post.scheduler, lane),
            post.scheduler.registered() == pre.scheduler.registered().remove(lane),
            post.scheduler.ready() == pre.scheduler.ready(),
            post.waker == pre.waker,
    {
    }

    /// A sender waits only for a slot that is taken, and its waker is kept behind
    /// those of the senders that wait already. Nothing else changes.
    pub proof fn law_waiting_sender_is_parked(pre: Self, post: Self, lane: usize, waker: W)
        requires
            Self::parks(pre, post, lane, waker),
        ensures
            pre.lanes.contains_key(lane) && post.lanes.contains_key(lane),
            !(pre.lanes[lane].entry is Empty),
            post.lanes[lane].parked.contains(waker),
            post.lanes[lane].parked == pre.lanes[lane].parked.push(waker),
            post.lanes[lane].entry == pre.lanes[lane].entry,
            post.lanes[lane].num_senders == pre.lanes[lane].num_senders,
            post.lanes.remove(lane) == pre.lanes.remove(lane),
            post.vacant == pre.vacant,
            post.ids == pre.ids,
            post.scheduler == pre.scheduler,
            post.waker == pre.waker,
    {
        assert(post.lanes[lane].parked.last() == waker);
        assert(post.lanes.remove(lane) =~= pre.lanes.remove(lane));
    }

    /// A free slot is never waited for: neither a send nor a reservation ends in
    /// waiting where the slot is free, and neither succeeds where it is taken.
    pub proof fn law_free_slot_is_not_waited_for(
        pre: Self,
        post: Self,
        lane: usize,
        item: T,
        waker: W,
    )
        ensures
            pre.lanes[lane].entry is Empty ==> !Self::parks(pre, post, lane, waker),
            pre.lanes[lane].entry is Empty ==> !Self::takes(
                pre,
                post,
                (Step::Park { lane, waker }),
            ),
            !(pre.lanes[lane].entry is Empty) ==> !Self::sends(pre, post, lane, item),
            !(pre.lanes[lane].entry is Empty) ==> !Self::reserves(pre, post, lane),
    {
    }

    /// A sender that found its slot taken is woken before the slot is free.
    pub proof fn law_parked_sender_is_woken(
        states: Seq<Self>,
        steps: Seq<Step<T, Id, W>>,
        lane: usize,
        waker: W,
    )
        requires
            Self::runs(states, steps),
            steps.len() > 0,
            Self::parks(states[0], states[1], lane, waker),
        ensures
            (exists|i: int| 1 <= i < steps.len() && (#[trigger] steps[i]).wakes(waker)) || (
            states.last().lanes.contains_key(lane) && states.last().lanes[lane].parked.contains(
                waker,
            ) && !(states.last().lanes[lane].entry is Empty)),
    {
        let later_states = states.skip(1);
        let later = steps.skip(1);
        Self::law_waiting_sender_is_parked(states[0], states[1], lane, waker);
        Self::law_invariant(states, steps, 1);
        assert forall|i: int| 0 <= i < later.len() implies Self::takes(
            later_states[i],
            later_states[i + 1],
            #[trigger] later[i],
        ) by {
            assert(Self::takes(states[i + 1], states[i + 2], steps[i + 1]));
        }
        Self::law_sender_is_woken(later_states, later, lane, waker);
        if exists|i: int| 0 <= i < later.len() && (#[trigger] later[i]).wakes(waker) {
            let i = choose|i: int| 0 <= i < later.len() && (#[trigger] later[i]).wakes(waker);
            assert(steps[i + 1].wakes(waker));
        }
        assert(later_states.last() == states.last());
    }

    /// A send fills a slot that was free with the item, tells the scheduler, and
    /// leaves no waker of the receiver behind. Nothing else changes.
    pub proof fn law_sent_item_is_in_its_slot(pre: Self, post: Self, lane: usize, item: T)
        requires
            Self::sends(pre, post, lane, item),
        ensures
            pre.lanes.contains_key(lane) && post.lanes.contains_key(lane),
            pre.lanes[lane].entry is Empty,
            post.lanes[lane].entry == Entry::Ready(item),
            post.lanes[lane].num_senders == pre.lanes[lane].num_senders,
            post.lanes[lane].parked == pre.lanes[lane].parked,
            post.lanes.remove(lane) == pre.lanes.remove(lane),
            post.vacant == pre.vacant,
            post.ids == pre.ids,
            S::marks_ready(pre.scheduler, post.scheduler, lane),
            post.scheduler.registered() == pre.scheduler.registered().insert(lane),
            post.scheduler.ready() == pre.scheduler.ready().insert(lane),
            post.waker is None,
    {
        assert(post.lanes.remove(lane) =~= pre.lanes.remove(lane));
    }

    /// A permit puts its item into the slot that was kept for it, tells the
    /// scheduler, and leaves no waker of the receiver behind. Nothing else
    /// changes; in particular, who waits for the slot goes on waiting.
    pub proof fn law_permit_fills_its_slot(pre: Self, post: Self, lane: usize, item: T)
        requires
            Self::fills(pre, post, lane, item),
        ensures
            pre.lanes.contains_key(lane) && post.lanes.contains_key(lane),
            pre.lanes[lane].entry is Reserved,
            post.lanes[lane].entry == Entry::Ready(item),
            post.lanes[lane].num_senders == pre.lanes[lane].num_senders,
            post.lanes[lane].parked == pre.lanes[lane].parked,
            post.lanes.remove(lane) == pre.lanes.remove(lane),
            post.vacant == pre.vacant,
            post.ids == pre.ids,
            S::marks_ready(pre.scheduler, post.scheduler, lane),
            post.scheduler.registered() == pre.scheduler.registered().insert(lane),
            post.scheduler.ready() == pre.scheduler.ready().insert(lane),
            post.waker is None,
    {
        assert(post.lanes.remove(lane) =~= pre.lanes.remove(lane));
    }

    /// A reservation takes a slot that was free and leaves no waker of the
    /// receiver behind. Nothing else changes.
    pub proof fn law_reservation_takes_free_slot(pre: Self, post: Self, lane: usize)
        requires
            Self::reserves(pre, post, lane),
        ensures
            pre.lanes.contains_key(lane) && post.lanes.contains_key(lane),
            pre.lanes[lane].entry is Empty,
            post.lanes[lane].entry is Reserved,
            post.lanes[lane].num_senders == pre.lanes[lane].num_senders,
            post.lanes[lane].parked == pre.lanes[lane].parked,
            post.lanes.remove(lane) == pre.lanes.remove(lane),
            post.vacant == pre.vacant,
            post.ids == pre.ids,
            post.scheduler == pre.scheduler,
            post.waker is None,
    {
        assert(post.lanes.remove(lane) =~= pre.lanes.remove(lane));
    }

    /// A permit that is given up frees its slot, and nobody waits for the slot
    /// any more. Nothing else changes.
    pub proof fn law_released_slot_is_free(pre: Self, post: Self, lane: usize)
        requires
            Self::releases(pre, post, lane),
        ensures
            pre.lanes.contains_key(lane) && post.lanes.contains_key(lane),
            pre.lanes[lane].entry is Reserved,
            post.lanes[lane].entry is Empty,
            post.lanes[lane].parked.len() == 0,
            post.lanes[lane].num_senders == pre.lanes[lane].num_senders,
            post.lanes.remove(lane) == pre.lanes.remove(lane),
            post.vacant == pre.vacant,
            post.ids == pre.ids,
            post.scheduler == pre.scheduler,
            post.waker == pre.waker,
    {
        assert(post.lanes.remove(lane) =~= pre.lanes.remove(lane));
    }

    /// A receiver gets nothing only where the scheduler has no lane to serve.
    /// Its waker is kept; nothing else changes.
    pub proof fn law_receiver_waits_where_no_lane_is_served(pre: Self, post: Self, waker: W)
        requires
            Self::idles(pre, post, waker),
        ensures
            post.lanes == pre.lanes,
            post.vacant == pre.vacant,
            post.ids == pre.ids,
            S::serves(pre.scheduler, post.scheduler, None),
            post.scheduler.registered() == pre.scheduler.registered(),
            post.scheduler.ready() == pre.scheduler.ready(),
            post.waker == Some(waker),
    {
    }

    /// A receiver gets the item of the lane that the scheduler serves, and all
    /// that wait for the slot of that lane are woken, in order. The slot is free
    /// and nobody waits for it any more; nothing else changes.
    pub proof fn law_served_lane_gives_its_item(
        pre: Self,
        post: Self,
        waker: W,
        lane: usize,
        item: T,
        woken: Seq<W>,
    )
        requires
            Self::delivers(pre, post, waker, lane, item, woken),
            pre.lanes[lane].num_senders > 0,
        ensures
            pre.lanes.contains_key(lane) && post.lanes.contains_key(lane),
            pre.lanes[lane].entry == Entry::Ready(item),
            woken == pre.lanes[lane].parked,
            post.lanes[lane].entry is Empty,
            post.lanes[lane].parked.len() == 0,
            post.lanes[lane].num_senders == pre.lanes[lane].num_senders,
            post.lanes.remove(lane) == pre.lanes.remove(lane),
            post.vacant == pre.vacant,
            post.ids == pre.ids,
            pre.scheduler.ready().contains(lane),
            S::serves(pre.scheduler, post.scheduler, Some(lane)),
            post.scheduler.registered() == pre.scheduler.registered(),
            post.scheduler.ready() == pre.scheduler.ready().remove(lane),
            post.waker == Some(waker),
    {
        assert(post.lanes.remove(lane) =~= pre.lanes.remove(lane));
    }

    /// A lane without senders that is served gives its item and is gone. Its
    /// names are free, its id is the next to be used, and the scheduler is told
    /// after it was asked.
    pub proof fn law_served_lane_goes_without_senders(
        pre: Self,
        post: Self,
        waker: W,
        lane: usize,
        item: T,
        woken: Seq<W>,
    )
        requires
            Self::delivers(pre, post, waker, lane, item, woken),
            pre.lanes[lane].num_senders == 0,
        ensures
            pre.lanes.contains_key(lane),
            pre.lanes[lane].entry == Entry::Ready(item),
            woken == pre.lanes[lane].parked,
            post.lanes == pre.lanes.remove(lane),
            post.vacant == pre.vacant.push(lane),
            forall|id: Id| #[trigger]
                post.ids.contains_key(id) <==> pre.ids.contains_key(id) && pre.ids[id] != lane,
            forall|id: Id| #[trigger] post.ids.contains_key(id) ==> post.ids[id] == pre.ids[id],
            pre.scheduler.ready().contains(lane),
            exists|told: S| #[trigger]
                S::serves(pre.scheduler, told, Some(lane)) && S::unregisters(
                    told,
                    post.scheduler,
                    lane,
                ) && told.registered() == pre.scheduler.registered() && told.ready()
                    == pre.scheduler.ready().remove(lane),
            post.scheduler.registered() == pre.scheduler.registered().remove(lane),
            post.scheduler.ready() == pre.scheduler.ready().remove(lane),
            post.waker == Some(waker),
    {
        let told = choose|told: S| #[trigger]
            lane_served(pre.scheduler, told, Some(lane)) && Self::reclaims(pre, post, told, lane);
        assert(S::serves(pre.scheduler, told, Some(lane)));
    }

    /// An item is in a lane where the lane is open and its slot is filled. A slot
    /// is reserved where the lane is open and the slot is kept. A lane that the
    /// scheduler knows of is foreign where it is not open.
    pub proof fn law_lanes_are_told_apart(self, lane: usize)
        ensures
            self.holds_item(lane) <==> self.lanes.contains_key(lane)
                && self.lanes[lane].entry is Ready,
            self.is_reserved(lane) <==> self.lanes.contains_key(lane)
                && self.lanes[lane].entry is Reserved,
            self.foreign().contains(lane) <==> self.scheduler.registered().contains(lane)
                && !self.lanes.contains_key(lane),
    {
    }

    /// Where the invariant holds, the scheduler knows of the open lanes, exactly
    /// the lanes with an item are ready, each name stands for an open lane and
    /// each open lane for one name, and a free slot is not waited for.
    pub proof fn law_invariant_holds_together(self, lane: usize, id: Id, other: Id)
        requires
            self.wf(),
        ensures
            self.lanes.contains_key(lane) ==> self.scheduler.registered().contains(lane),
            self.scheduler.ready().contains(lane) <==> self.lanes.contains_key(lane)
                && self.lanes[lane].entry is Ready,
            self.lanes.contains_key(lane) && self.lanes[lane].entry is Empty
                ==> self.lanes[lane].parked.len() == 0 && self.lanes[lane].num_senders > 0,
            self.lanes.contains_key(lane) ==> exists|name: Id| #[trigger]
                self.ids.contains_key(name) && self.ids[name] == lane,
            self.ids.contains_key(id) ==> self.lanes.contains_key(self.ids[id]),
            self.ids.contains_key(id) && self.ids.contains_key(other) && self.ids[id]
                == self.ids[other] ==> id == other,
    {
        assert(self.scheduler.ready().contains(lane) <==> self.holds_item(lane));
        if self.lanes.contains_key(lane) {
            assert(self.has_name(lane));
        }
    }

    /// The item that is in `lane`, if there is one.
    pub open spec fn pending(self, lane: usize) -> Seq<T> {
        if self.holds_item(lane) {
            seq![self.lanes[lane].entry->Ready_0]
        } else {
            Seq::empty()
        }
    }

    /// Every item that goes into a lane comes out of it once, and in order. Only
    /// the last one may still be in the lane.
    pub proof fn law_items_come_out_once_and_in_order(
        states: Seq<Self>,
        steps: Seq<Step<T, Id, W>>,
        lane: usize,
    )
        requires
            Self::runs(states, steps),
        ensures
            states[0].pending(lane) + items_put(steps, lane) == items_delivered(steps, lane)
                + states.last().pending(lane),
        decreases steps.len(),
    {
        let first = states[0].pending(lane);
        let last = states.last().pending(lane);
        if steps.len() > 0 {
            let pre = states[states.len() - 2];
            let step = steps.last();
            let put = items_put(steps.drop_last(), lane);
            let delivered = items_delivered(steps.drop_last(), lane);
            Self::lemma_shorter_run(states, steps);
            Self::law_items_come_out_once_and_in_order(states.drop_last(), steps.drop_last(), lane);
            if let Step::Open { id, lane: opened } = step {
                Self::lemma_opens_wf(pre, states.last(), id, opened);
            }
            assert(pre.pending(lane) + step.item_put(lane) =~= step.item_delivered(lane) + last);
            assert(first + (put + step.item_put(lane)) =~= (first + put) + step.item_put(lane));
            assert((delivered + pre.pending(lane)) + step.item_put(lane) =~= delivered + (
            pre.pending(lane) + step.item_put(lane)));
            assert(delivered + (step.item_delivered(lane) + last) =~= (delivered
                + step.item_delivered(lane)) + last);
        } else {
            assert(first + items_put(steps, lane) =~= items_delivered(steps, lane) + last);
        }
    }

    /// How many senders `lane` has.
    pub open spec fn senders(self, lane: usize) -> nat {
        if self.lanes.contains_key(lane) {
            self.lanes[lane].num_senders as nat
        } else {
            0
        }
    }

    /// The senders of a lane are those that were made and not closed yet.
    pub proof fn law_senders_are_counted(
        states: Seq<Self>,
        steps: Seq<Step<T, Id, W>>,
        lane: usize,
    )
        requires
            Self::runs(states, steps),
        ensures
            states[0].senders(lane) + count(steps, |step: Step<T, Id, W>| step.makes_sender(lane))
                == states.last().senders(lane) + count(
                steps,
                |step: Step<T, Id, W>| step.closes_sender(lane),
            ),
        decreases steps.len(),
    {
        if steps.len() > 0 {
            Self::lemma_shorter_run(states, steps);
            Self::law_senders_are_counted(states.drop_last(), steps.drop_last(), lane);
            if let Step::Open { id, lane: opened } = steps.last() {
                Self::lemma_opens_wf(states[states.len() - 2], states.last(), id, opened);
            }
        }
    }

    /// How many permits for `lane` there are to be used.
    pub open spec fn permits(self, lane: usize) -> nat {
        if self.is_reserved(lane) {
            1
        } else {
            0
        }
    }

    /// A lane is reserved exactly while there is a permit for it that was made
    /// and neither used nor given up yet, and there is never more than one.
    pub proof fn law_permits_are_counted(
        states: Seq<Self>,
        steps: Seq<Step<T, Id, W>>,
        lane: usize,
    )
        requires
            Self::runs(states, steps),
        ensures
            states[0].permits(lane) + count(steps, |step: Step<T, Id, W>| step.makes_permit(lane))
                == states.last().permits(lane) + count(
                steps,
                |step: Step<T, Id, W>| step.spends_permit(lane),
            ),
        decreases steps.len(),
    {
        if steps.len() > 0 {
            Self::lemma_shorter_run(states, steps);
            Self::law_permits_are_counted(states.drop_last(), steps.drop_last(), lane);
            if let Step::Open { id, lane: opened } = steps.last() {
                Self::lemma_opens_wf(states[states.len() - 2], states.last(), id, opened);
            }
        }
    }

    /// A reserved slot stays reserved until its permit is used or given up.
    pub proof fn law_reservation_stays(
        states: Seq<Self>,
        steps: Seq<Step<T, Id, W>>,
        lane: usize,
    )
        requires
            Self::runs(states, steps),
            states[0].is_reserved(lane),
            forall|i: int| 0 <= i < steps.len() ==> !(#[trigger] steps[i]).spends_permit(lane),
        ensures
            states.last().is_reserved(lane),
        decreases steps.len(),
    {
        if steps.len() > 0 {
            Self::lemma_shorter_run(states, steps);
            Self::law_reservation_stays(states.drop_last(), steps.drop_last(), lane);
            Self::law_step_keeps_slot(
                states[states.len() - 2],
                states.last(),
                steps.last(),
                lane,
            );
        }
    }

    /// A sender that waits is still waiting for a taken slot after the step, or
    /// the step wakes it.
    pub proof fn law_step_wakes_sender(
        pre: Self,
        post: Self,
        step: Step<T, Id, W>,
        lane: usize,
        waker: W,
    )
        requires
            pre.wf(),
            Self::takes(pre, post, step),
            pre.lanes.contains_key(lane),
            pre.lanes[lane].parked.contains(waker),
        ensures
            step.wakes(waker) || (post.lanes.contains_key(lane)
                && post.lanes[lane].parked.contains(waker) && !(post.lanes[lane].entry is Empty)),
    {
        Self::law_step_keeps_invariant(pre, post, step);
        assert(pre.lanes[lane].wf());
        if let Step::Open { id, lane: opened } = step {
            Self::lemma_opens_wf(pre, post, id, opened);
        }
        if let Step::Park { lane: parked_on, waker: other } = step {
            if parked_on == lane {
                let i = pre.lanes[lane].parked.index_of(waker);
                assert(post.lanes[lane].parked[i] == waker);
            }
        }
    }

    /// A sender that waits is woken before its slot is free.
    pub proof fn law_sender_is_woken(
        states: Seq<Self>,
        steps: Seq<Step<T, Id, W>>,
        lane: usize,
        waker: W,
    )
        requires
            Self::runs(states, steps),
            states[0].lanes.contains_key(lane),
            states[0].lanes[lane].parked.contains(waker),
        ensures
            (exists|i: int| 0 <= i < steps.len() && (#[trigger] steps[i]).wakes(waker)) || (
            states.last().lanes.contains_key(lane) && states.last().lanes[lane].parked.contains(
                waker,
            ) && !(states.last().lanes[lane].entry is Empty)),
        decreases steps.len(),
    {
        if steps.len() > 0 {
            Self::lemma_shorter_run(states, steps);
            let shorter = steps.drop_last();
            Self::law_sender_is_woken(states.drop_last(), shorter, lane, waker);
            if exists|i: int| 0 <= i < shorter.len() && (#[trigger] shorter[i]).wakes(waker) {
                let i = choose|i: int|
                    0 <= i < shorter.len() && (#[trigger] shorter[i]).wakes(waker);
                assert(steps[i].wakes(waker));
            } else {
                Self::law_step_wakes_sender(
                    states[states.len() - 2],
                    states.last(),
                    steps.last(),
                    lane,
                    waker,
                );
                assert(steps.last() == steps[steps.len() - 1]);
            }
        } else {
            assert(states[0].lanes[lane].wf());
        }
    }

    /// A receiver that waits is woken by the first sender that takes a slot.
    pub proof fn law_receiver_is_woken(
        states: Seq<Self>,
        steps: Seq<Step<T, Id, W>>,
        waker: W,
    )
        requires
            Self::runs(states, steps),
            states[0].waker == Some(waker),
            forall|i: int| 0 <= i < steps.len() ==> !(#[trigger] steps[i]).receives(),
        ensures
            (exists|i: int| 0 <= i < steps.len() && (#[trigger] steps[i]).wakes(waker)) || (
            states.last().waker == Some(waker) && forall|i: int|
                0 <= i < steps.len() ==> !(#[trigger] steps[i]).takes_slot()),
        decreases steps.len(),
    {
        if steps.len() > 0 {
            Self::lemma_shorter_run(states, steps);
            let shorter = steps.drop_last();
            Self::law_receiver_is_woken(states.drop_last(), shorter, waker);
            if exists|i: int| 0 <= i < shorter.len() && (#[trigger] shorter[i]).wakes(waker) {
                let i = choose|i: int|
                    0 <= i < shorter.len() && (#[trigger] shorter[i]).wakes(waker);
                assert(steps[i].wakes(waker));
            } else {
                let last = steps[steps.len() - 1];
                assert(last == steps.last());
                if last.takes_slot() {
                    assert(last.wakes(waker));
                } else {
                    assert forall|i: int| 0 <= i < steps.len() implies !(
                    #[trigger] steps[i]).takes_slot() by {
                        if i < shorter.len() {
                            assert(!shorter[i].takes_slot());
                        }
                    }
                }
            }
        }
    }

    /// Two names stand for the same lane only if they are the same name.
    pub proof fn law_one_lane_per_name(
        first: Self,
        second: Self,
        third: Self,
        id: Id,
        lane: usize,
        other_id: Id,
        other_lane: usize,
    )
        requires
            first.wf(),
            Self::opens(first, second, id, lane),
            Self::opens(second, third, other_id, other_lane),
        ensures
            lane == other_lane <==> id == other_id,
    {
        Self::lemma_opens_wf(first, second, id, lane);
        Self::lemma_opens_wf(second, third, other_id, other_lane);
        assert(third.ids.contains_key(id) && third.ids.contains_key(other_id));
    }

    /// Closing a sender that was just made undoes what opening did to the lanes,
    /// to their names and to what the scheduler knows of.
    pub proof fn law_close_undoes_open(
        first: Self,
        second: Self,
        third: Self,
        id: Id,
        lane: usize,
    )
        requires
            first.wf(),
            Self::opens(first, second, id, lane),
            Self::closes(second, third, lane),
        ensures
            third.lanes == first.lanes,
            third.ids == first.ids,
            third.waker == first.waker,
            third.scheduler.registered() == first.scheduler.registered(),
            third.scheduler.ready() == first.scheduler.ready(),
    {
        Self::lemma_opens_wf(first, second, id, lane);
        if first.ids.contains_key(id) {
            assert(first.lanes.contains_key(lane));
            assert(first.lanes[lane].wf());
            assert(third.lanes =~= first.lanes);
        } else {
            assert(third.lanes =~= first.lanes);
            assert(third.ids =~= first.ids);
        }
    }

    /// The id of a lane that is gone with its last sender is the id of the next
    /// lane that is opened.
    pub proof fn law_id_is_used_again(
        first: Self,
        second: Self,
        third: Self,
        closed: usize,
        id: Id,
        opened: usize,
    )
        requires
            first.wf(),
            Self::closes(first, second, closed),
            !second.lanes.contains_key(closed),
            Self::opens(second, third, id, opened),
            !second.ids.contains_key(id),
        ensures
            opened == closed,
    {
    }

    /// Closing a shared sender undoes the sharing.
    pub proof fn law_close_undoes_share(first: Self, second: Self, third: Self, lane: usize)
        requires
            first.wf(),
            Self::shares(first, second, lane),
            Self::closes(second, third, lane),
        ensures
            third == first,
    {
        assert(first.lanes[lane].wf());
        assert(third.lanes =~= first.lanes);
    }

    /// Releasing a permit undoes what reserving did to the lanes.
    pub proof fn law_release_undoes_reserve(first: Self, second: Self, third: Self, lane: usize)
        requires
            first.wf(),
            Self::reserves(first, second, lane),
            Self::releases(second, third, lane),
        ensures
            third == (QueueState { waker: None::<W>, ..first }),
    {
        assert(first.lanes[lane].wf());
        assert(third.lanes[lane].parked =~= first.lanes[lane].parked);
        assert(third.lanes =~= first.lanes);
    }

    /// A lane whose permit was released goes with its last sender.
    pub proof fn law_released_lane_can_close(first: Self, second: Self, third: Self, lane: usize)
        requires
            first.wf(),
            first.lanes[lane].num_senders == 1,
            Self::releases(first, second, lane),
            Self::closes(second, third, lane),
        ensures
            !third.lanes.contains_key(lane),
            !third.has_name(lane),
    {
    }

    /// To reserve a slot and to send with the permit is to send, and the receiver
    /// is woken once either way.
    pub proof fn law_reserve_and_fill_is_send(
        first: Self,
        second: Self,
        third: Self,
        lane: usize,
        item: T,
        woken: Option<W>,
        woken_again: Option<W>,
    )
        requires
            first.wf(),
            Self::takes(first, second, (Step::Reserve { lane, woken })),
            Self::takes(second, third, (Step::Fill { lane, item, woken: woken_again })),
        ensures
            Self::takes(first, third, (Step::Send { lane, item, woken })),
            woken_again is None,
    {
        assert(third.lanes =~= first.lanes.insert(
            lane,
            first.lanes[lane].filled(Entry::Ready(item)),
        ));
    }

    /// A lane without senders is only kept for what is in its slot, and is gone
    /// with its item: no name stands for it any more.
    pub proof fn law_no_lane_is_left_behind(
        pre: Self,
        post: Self,
        waker: W,
        lane: usize,
        item: T,
        woken: Seq<W>,
    )
        requires
            pre.wf(),
            Self::delivers(pre, post, waker, lane, item, woken),
        ensures
            post.lanes.contains_key(lane) <==> pre.lanes[lane].num_senders > 0,
            post.has_name(lane) <==> post.lanes.contains_key(lane),
            forall|other: usize| #[trigger]
                post.lanes.contains_key(other) && post.lanes[other].num_senders == 0
                    ==> !(post.lanes[other].entry is Empty),
    {
        Self::lemma_delivers_wf(pre, post, waker, lane, item, woken);
    }
}

/// How many of `steps` deliver an item.
pub open spec fn deliveries<T, Id, W>(steps: Seq<Step<T, Id, W>>) -> nat
    decreases steps.len(),
{
    if steps.len() == 0 {
        0
    } else {
        deliveries(steps.drop_last()) + if steps.last() is Deliver {
            1nat
        } else {
            0nat
        }
    }
}

/// Where the first step delivers, there is a delivery.
proof fn lemma_first_delivery_counts<T, Id, W>(steps: Seq<Step<T, Id, W>>)
    requires
        steps.len() > 0,
        steps[0] is Deliver,
    ensures
        deliveries(steps) > 0,
    decreases steps.len(),
{
    if steps.len() > 1 {
        lemma_first_delivery_counts(steps.drop_last());
    }
}

impl<T, Id, W> QueueState<T, Id, RoundRobinScheduler, W> {
    /// The lanes that hold an item, in the order in which they are served.
    pub open spec fn line(self) -> Seq<usize> {
        self.scheduler@.queue
    }

    /// A lane stands in line exactly while it holds an item, and it stands there
    /// once.
    pub proof fn law_ready_lanes_are_in_line(self)
        requires
            self.wf(),
        ensures
            self.line().no_duplicates(),
            forall|lane: usize| #[trigger] self.line().contains(lane) <==> self.holds_item(lane),
    {
        assert forall|lane: usize| #[trigger]
            self.line().contains(lane) <==> self.holds_item(lane) by {
            assert(self.scheduler.ready().contains(lane) <==> self.holds_item(lane));
        }
    }

    /// The line is not longer than there are open lanes.
    pub proof fn law_line_is_short(self)
        requires
            self.wf(),
        ensures
            self.line().len() <= self.lanes.dom().len(),
    {
        self.law_ready_lanes_are_in_line();
        self.line().unique_seq_to_set();
        assert forall|lane: usize| #[trigger] self.line().to_set().contains(lane) implies
            self.lanes.dom().contains(lane) by {
            assert(self.line().contains(lane));
        }
        vstd::set_lib::lemma_len_subset(self.line().to_set(), self.lanes.dom());
    }

    /// The undelivered items, in the order in which their lanes are served, each
    /// with its lane.
    pub open spec fn items_in_line(self) -> Seq<(usize, T)> {
        self.line().map_values(|lane: usize| (lane, self.lanes[lane].entry->Ready_0))
    }

    /// A step puts an item at the end of the line or takes one from its head, or
    /// it leaves the items in line as they are.
    pub proof fn law_step_keeps_order(pre: Self, post: Self, step: Step<T, Id, W>)
        requires
            pre.wf(),
            Self::takes(pre, post, step),
        ensures
            pre.items_in_line() + step.accepted() == step.delivered() + post.items_in_line(),
    {
        pre.law_ready_lanes_are_in_line();
        if step.receives() {
            Self::law_head_is_served(pre, post, step);
        }
        assert(post.line() == match step {
            Step::Send { lane, .. } => pre.line().push(lane),
            Step::Fill { lane, .. } => pre.line().push(lane),
            Step::Deliver { .. } => pre.line().drop_first(),
            _ => pre.line(),
        }) by {
            if let Step::Send { lane, .. } = step {
                assert(!pre.scheduler.ready().contains(lane));
            }
            if let Step::Fill { lane, .. } = step {
                assert(!pre.scheduler.ready().contains(lane));
            }
        }
        assert forall|i: int| 0 <= i < pre.line().len() && (step is Deliver ==> i > 0) implies
            post.lanes[#[trigger] pre.line()[i]].entry == pre.lanes[pre.line()[i]].entry by {
            let lane = pre.line()[i];
            assert(pre.line().contains(lane));
            Self::law_step_keeps_slot(pre, post, step, lane);
        }
        assert(pre.items_in_line() + step.accepted() =~= step.delivered() + post.items_in_line());
    }

    /// The items of all lanes are delivered in the order in which they were put
    /// into their lanes, each of them once.
    pub proof fn law_items_are_delivered_in_order(states: Seq<Self>, steps: Seq<Step<T, Id, W>>)
        requires
            Self::runs(states, steps),
        ensures
            states[0].items_in_line() + all_accepted(steps) == all_delivered(steps)
                + states.last().items_in_line(),
        decreases steps.len(),
    {
        let first = states[0].items_in_line();
        let last = states.last().items_in_line();
        if steps.len() > 0 {
            let step = steps.last();
            let pre = states[states.len() - 2];
            let accepted = all_accepted(steps.drop_last());
            let delivered = all_delivered(steps.drop_last());
            Self::lemma_shorter_run(states, steps);
            Self::law_items_are_delivered_in_order(states.drop_last(), steps.drop_last());
            Self::law_step_keeps_order(pre, states.last(), step);
            assert(first + (accepted + step.accepted()) =~= (first + accepted) + step.accepted());
            assert((delivered + pre.items_in_line()) + step.accepted() =~= delivered + (
            pre.items_in_line() + step.accepted()));
            assert(delivered + (step.delivered() + last) =~= (delivered + step.delivered())
                + last);
        } else {
            assert(first + all_accepted(steps) =~= all_delivered(steps) + last);
        }
    }

    /// To reserve a slot and to send with the permit ends in the same state as
    /// to send, and the same receiver is woken once.
    pub proof fn law_both_ways_to_send_agree(
        first: Self,
        reserved: Self,
        filled: Self,
        sent: Self,
        lane: usize,
        item: T,
        reserve_wakes: Option<W>,
        fill_wakes: Option<W>,
        send_wakes: Option<W>,
    )
        requires
            first.wf(),
            Self::takes(first, reserved, (Step::Reserve { lane, woken: reserve_wakes })),
            Self::takes(reserved, filled, (Step::Fill { lane, item, woken: fill_wakes })),
            Self::takes(first, sent, (Step::Send { lane, item, woken: send_wakes })),
        ensures
            filled.lanes == sent.lanes,
            filled.vacant == sent.vacant,
            filled.ids == sent.ids,
            filled.scheduler@ == sent.scheduler@,
            filled.waker == sent.waker,
            reserve_wakes == send_wakes,
            fill_wakes is None,
    {
        Self::law_reserve_and_fill_is_send(
            first,
            reserved,
            filled,
            lane,
            item,
            reserve_wakes,
            fill_wakes,
        );
    }

    /// The receiver gets the item of the lane at the head of the line, and that
    /// lane leaves the line. It gets nothing only where no lane holds an item.
    pub proof fn law_head_is_served(pre: Self, post: Self, step: Step<T, Id, W>)
        requires
            pre.wf(),
            Self::takes(pre, post, step),
            step.receives(),
        ensures
            step is Deliver <==> pre.line().len() > 0,
            step is Deliver ==> step->Deliver_lane == pre.line()[0] && post.line()
                == pre.line().drop_first(),
            step is Idle ==> forall|lane: usize| !#[trigger] pre.holds_item(lane),
    {
        pre.law_ready_lanes_are_in_line();
        if let Step::Deliver { lane, .. } = step {
            if pre.lanes[lane].num_senders == 0 {
                let told = choose|told: RoundRobinScheduler| #[trigger]
                    lane_served(pre.scheduler, told, Some(lane)) && Self::reclaims(
                        pre,
                        post,
                        told,
                        lane,
                    );
                assert(told@.queue == pre.line().drop_first());
            }
        } else {
            assert forall|lane: usize| !#[trigger] pre.holds_item(lane) by {
                assert(pre.line().contains(lane) <==> pre.holds_item(lane));
            }
        }
    }

    /// A lane in line moves up by one with each item that is delivered and stays
    /// where it is otherwise.
    pub proof fn law_step_moves_line(pre: Self, post: Self, step: Step<T, Id, W>, place: int)
        requires
            pre.wf(),
            Self::takes(pre, post, step),
            0 <= place < pre.line().len(),
            step is Deliver ==> place > 0,
        ensures
            ({
                let moved = if step is Deliver {
                    place - 1
                } else {
                    place
                };
                moved < post.line().len() && post.line()[moved] == pre.line()[place]
            }),
    {
        if step.receives() {
            Self::law_head_is_served(pre, post, step);
        }
    }

    /// A lane that stands at `place` in line is served after exactly `place`
    /// other lanes, whatever else happens in between.
    pub proof fn law_lanes_are_served_in_turn(
        states: Seq<Self>,
        steps: Seq<Step<T, Id, W>>,
        place: int,
    )
        requires
            Self::runs(states, steps),
            0 <= place < states[0].line().len(),
            deliveries(steps) <= place,
        ensures
            place - deliveries(steps) < states.last().line().len(),
            states.last().line()[place - deliveries(steps)] == states[0].line()[place],
        decreases steps.len(),
    {
        if steps.len() > 0 {
            Self::lemma_shorter_run(states, steps);
            Self::law_lanes_are_served_in_turn(states.drop_last(), steps.drop_last(), place);
            Self::law_step_moves_line(
                states[states.len() - 2],
                states.last(),
                steps.last(),
                place - deliveries(steps.drop_last()),
            );
        }
    }

    /// A lane that holds an item is served before more items are delivered than
    /// there are open lanes.
    pub proof fn law_no_lane_starves(
        states: Seq<Self>,
        steps: Seq<Step<T, Id, W>>,
        lane: usize,
    )
        requires
            Self::runs(states, steps),
            states[0].holds_item(lane),
            deliveries(steps) >= states[0].lanes.dom().len(),
        ensures
            exists|i: int| 0 <= i < steps.len() && (#[trigger] steps[i]).delivers_from(lane),
    {
        states[0].law_ready_lanes_are_in_line();
        states[0].law_line_is_short();
        assert(states[0].line().contains(lane));
        let place = states[0].line().index_of(lane);
        let n = Self::lemma_nth_delivery(steps, place as nat);
        Self::lemma_turn_comes(states, steps, place, n);
        assert(steps[n].delivers_from(lane));
    }

    /// Between two items of one lane, every other lane is served that held an item
    /// when the first of them was delivered.
    pub proof fn law_other_lanes_come_in_between(
        states: Seq<Self>,
        steps: Seq<Step<T, Id, W>>,
        lane: usize,
        other: usize,
    )
        requires
            Self::runs(states, steps),
            steps.len() >= 2,
            steps[0].delivers_from(lane),
            steps.last().delivers_from(lane),
            states[0].holds_item(other),
            other != lane,
        ensures
            exists|i: int|
                0 < i < steps.len() - 1 && (#[trigger] steps[i]).delivers_from(other),
    {
        let line = states[0].line();
        let before_states = states.drop_last();
        let before = steps.drop_last();
        states[0].law_ready_lanes_are_in_line();
        assert(line.contains(other));
        let place = line.index_of(other);
        assert(Self::takes(states[0], states[1], steps[0]));
        Self::law_head_is_served(states[0], states[1], steps[0]);
        Self::lemma_shorter_run(states, steps);
        Self::law_head_is_served(before_states.last(), states.last(), steps.last());
        lemma_first_delivery_counts(before);
        if deliveries(before) <= place {
            // Then the second item would come from a lane that stood behind `lane`.
            Self::law_lanes_are_served_in_turn(before_states, before, deliveries(before) as int);
            assert(line[deliveries(before) as int] != line[0]);
        }
        let n = Self::lemma_nth_delivery(before, place as nat);
        Self::lemma_turn_comes(before_states, before, place, n);
        assert(steps[n].delivers_from(other));
    }

    /// The delivery that comes after as many others as a lane has before it in
    /// line is that lane's.
    proof fn lemma_turn_comes(
        states: Seq<Self>,
        steps: Seq<Step<T, Id, W>>,
        place: int,
        n: int,
    )
        requires
            Self::runs(states, steps),
            0 <= place < states[0].line().len(),
            0 <= n < steps.len(),
            steps[n] is Deliver,
            deliveries(steps.take(n)) == place,
        ensures
            steps[n].delivers_from(states[0].line()[place]),
    {
        let until_states = states.take(n + 1);
        let until = steps.take(n);
        assert forall|i: int| 0 <= i < until.len() implies Self::takes(
            until_states[i],
            until_states[i + 1],
            #[trigger] until[i],
        ) by {
            assert(Self::takes(states[i], states[i + 1], steps[i]));
        }
        Self::law_lanes_are_served_in_turn(until_states, until, place);
        assert(until_states.last() == states[n]);
        assert(Self::takes(states[n], states[n + 1], steps[n]));
        Self::law_invariant(states, steps, n);
        Self::law_head_is_served(states[n], states[n + 1], steps[n]);
    }

    /// The step that delivers after exactly `count` deliveries.
    proof fn lemma_nth_delivery(steps: Seq<Step<T, Id, W>>, count: nat) -> (n: int)
        requires
            deliveries(steps) > count,
        ensures
            0 <= n < steps.len(),
            steps[n] is Deliver,
            deliveries(steps.take(n)) == count,
        decreases steps.len(),
    {
        let shorter = steps.drop_last();
        if deliveries(shorter) > count {
            let n = Self::lemma_nth_delivery(shorter, count);
            assert(shorter.take(n) =~= steps.take(n));
            n
        } else {
            assert(steps.take(steps.len() - 1) =~= shorter);
            steps.len() - 1
        }
    }

    /// A receiver that waits misses nothing: until it is woken, no lane holds an
    /// item.
    pub proof fn law_waiting_receiver_misses_nothing(
        states: Seq<Self>,
        steps: Seq<Step<T, Id, W>>,
        waker: W,
    )
        requires
            Self::runs(states, steps),
            steps.len() > 0,
            steps[0] is Idle && steps[0]->Idle_waker == waker,
            forall|i: int| 1 <= i < steps.len() ==> !(#[trigger] steps[i]).receives(),
            forall|i: int| 1 <= i < steps.len() ==> !(#[trigger] steps[i]).wakes(waker),
        ensures
            states.last().waker == Some(waker),
            forall|lane: usize| !#[trigger] states.last().holds_item(lane),
        decreases steps.len(),
    {
        Self::lemma_shorter_run(states, steps);
        if steps.len() == 1 {
            Self::law_head_is_served(states[0], states[1], steps[0]);
            assert forall|lane: usize| !#[trigger] states[1].holds_item(lane) by {
                assert(!states[0].holds_item(lane));
            }
        } else {
            let pre = states[states.len() - 2];
            let last = steps[steps.len() - 1];
            Self::law_waiting_receiver_misses_nothing(
                states.drop_last(),
                steps.drop_last(),
                waker,
            );
            assert(!last.wakes(waker) && !last.receives());
            assert forall|lane: usize| !#[trigger] states.last().holds_item(lane) by {
                assert(!pre.holds_item(lane));
            }
        }
    }
}

} // verus!
