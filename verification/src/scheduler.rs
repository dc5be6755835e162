//! How a queue decides which lane to serve next.

use std::collections::VecDeque;

use vstd::prelude::*;

verus! {

/// Decides in which order the ready lanes of a queue are served.
///
/// A scheduler keeps two sets of lane ids: the lanes it was told about
/// (`registered`) and those of them that hold an undelivered item (`ready`).
/// Which of the ready lanes comes next is the scheduler's own affair. The
/// relations `registers`, `unregisters`, `marks_ready` and `serves` are where a
/// scheduler says more about itself than the two sets do; by default they say
/// nothing more.
pub trait LaneScheduler: Sized {
    /// The scheduler's own invariant.
    open spec fn wf(&self) -> bool {
        true
    }

    /// The lanes that the scheduler was told about.
    open spec fn registered(&self) -> Set<usize> {
        arbitrary()
    }

    /// The lanes that hold an item that was not served yet.
    open spec fn ready(&self) -> Set<usize> {
        arbitrary()
    }

    /// Whether `on_item_ready` can be called for lane `id`, though the scheduler
    /// was not told about it.
    open spec fn knows(&self, id: usize) -> bool {
        false
    }

    /// How `register(id)` takes the scheduler from `pre` to `post`.
    open spec fn registers(pre: Self, post: Self, id: usize) -> bool {
        true
    }

    /// How `unregister(id)` takes the scheduler from `pre` to `post`.
    open spec fn unregisters(pre: Self, post: Self, id: usize) -> bool {
        true
    }

    /// How `on_item_ready(id, _)` takes the scheduler from `pre` to `post`.
    open spec fn marks_ready(pre: Self, post: Self, id: usize) -> bool {
        true
    }

    /// How `next()` takes the scheduler from `pre` to `post` and what it returns.
    open spec fn serves(pre: Self, post: Self, served: Option<usize>) -> bool {
        true
    }

    /// Tells the scheduler about a new lane.
    fn register(&mut self, id: usize)
        requires
            old(self).wf(),
            !old(self).registered().contains(id),
            id < usize::MAX,
        ensures
            final(self).wf(),
            final(self).registered() == old(self).registered().insert(id),
            final(self).ready() == old(self).ready(),
            Self::registers(*old(self), *final(self), id),
    ;

    /// Tells the scheduler that a lane is gone. The lane has no undelivered item.
    fn unregister(&mut self, id: usize)
        requires
            old(self).wf(),
            old(self).registered().contains(id),
            !old(self).ready().contains(id),
        ensures
            final(self).wf(),
            final(self).registered() == old(self).registered().remove(id),
            final(self).ready() == old(self).ready(),
            Self::unregisters(*old(self), *final(self), id),
    ;

    /// Tells the scheduler that `item` is about to be put into lane `id`.
    fn on_item_ready<T>(&mut self, id: usize, item: &T)
        requires
            old(self).wf(),
            old(self).registered().contains(id) || old(self).knows(id),
        ensures
            final(self).wf(),
            final(self).registered() == old(self).registered().insert(id),
            final(self).ready() == old(self).ready().insert(id),
            Self::marks_ready(*old(self), *final(self), id),
    ;

    /// Picks the lane to serve next, if there is one to serve now. The lane is
    /// no longer ready afterwards.
    fn next(&mut self) -> (served: Option<usize>)
        requires
            old(self).wf(),
        ensures
            final(self).wf(),
            final(self).registered() == old(self).registered(),
            match served {
                Some(id) => {
                    &&& old(self).ready().contains(id)
                    &&& final(self).ready() == old(self).ready().remove(id)
                },
                None => final(self).ready() == old(self).ready(),
            },
            Self::serves(*old(self), *final(self), served),
    ;
}

/// What a [`RoundRobinScheduler`] knows about a lane id.
#[derive(Debug, PartialEq, Eq, Structural, Clone, Copy)]
pub enum RoundRobinSchedulerStatus {
    /// The id belongs to no lane.
    Empty,
    /// The lane is registered and holds no item.
    Staging,
    /// The lane holds an item and waits in the queue.
    Ready,
}

impl Default for RoundRobinSchedulerStatus {
    fn default() -> (status: Self)
        ensures
            status == RoundRobinSchedulerStatus::Empty,
    {
        RoundRobinSchedulerStatus::Empty
    }
}

/// Serves the lanes in the order in which they became ready.
pub struct RoundRobinScheduler {
    items: Vec<RoundRobinSchedulerStatus>,
    queue: VecDeque<usize>,
}

/// The state of a [`RoundRobinScheduler`]: the status of each lane id that it
/// has room for, and the ready lanes, the next one to serve first.
pub struct RoundRobinState {
    pub items: Seq<RoundRobinSchedulerStatus>,
    pub queue: Seq<usize>,
}

impl View for RoundRobinScheduler {
    type V = RoundRobinState;

    closed spec fn view(&self) -> RoundRobinState {
        RoundRobinState { items: self.items@, queue: self.queue@ }
    }
}

impl RoundRobinState {
    /// The status of lane id `id`.
    pub open spec fn status(self, id: usize) -> RoundRobinSchedulerStatus {
        if id < self.items.len() {
            self.items[id as int]
        } else {
            RoundRobinSchedulerStatus::Empty
        }
    }

    /// The queue holds exactly the ready lanes, each once.
    pub open spec fn wf(self) -> bool {
        &&& self.queue.no_duplicates()
        &&& forall|id: usize| #[trigger]
            self.queue.contains(id) <==> self.status(id) == RoundRobinSchedulerStatus::Ready
    }

    /// The state with room for lane id `id`.
    pub open spec fn with_room(self, id: usize) -> RoundRobinState {
        if id < self.items.len() {
            self
        } else {
            RoundRobinState {
                items: Seq::new(
                    (id + 1) as nat,
                    |i: int|
                        if i < self.items.len() {
                            self.items[i]
                        } else {
                            RoundRobinSchedulerStatus::Empty
                        },
                ),
                queue: self.queue,
            }
        }
    }

    /// The state with the status of lane id `id` changed.
    pub open spec fn with_status(
        self,
        id: usize,
        status: RoundRobinSchedulerStatus,
    ) -> RoundRobinState {
        RoundRobinState { items: self.items.update(id as int, status), queue: self.queue }
    }

    /// The state after a lane was registered.
    pub open spec fn register(self, id: usize) -> RoundRobinState {
        self.with_room(id).with_status(id, RoundRobinSchedulerStatus::Staging)
    }

    /// The state after a lane was unregistered.
    pub open spec fn unregister(self, id: usize) -> RoundRobinState {
        self.with_status(id, RoundRobinSchedulerStatus::Empty)
    }

    /// The state after an item was announced: a lane that is not ready yet goes
    /// to the end of the queue, a ready one keeps its place.
    pub open spec fn on_item_ready(self, id: usize) -> RoundRobinState {
        if self.status(id) == RoundRobinSchedulerStatus::Ready {
            self
        } else {
            RoundRobinState {
                items: self.items.update(id as int, RoundRobinSchedulerStatus::Ready),
                queue: self.queue.push(id),
            }
        }
    }

    /// The lane at the head of the queue.
    pub open spec fn head(self) -> Option<usize> {
        if self.queue.len() > 0 {
            Some(self.queue[0])
        } else {
            None
        }
    }

    /// The state after the head of the queue was served.
    pub open spec fn next(self) -> RoundRobinState {
        match self.head() {
            Some(id) => RoundRobinState {
                items: self.items.update(id as int, RoundRobinSchedulerStatus::Staging),
                queue: self.queue.drop_first(),
            },
            None => self,
        }
    }
}

impl RoundRobinState {
    /// Announcing an item keeps the invariant.
    proof fn lemma_on_item_ready_wf(self, id: usize)
        requires
            self.wf(),
            id < self.items.len(),
        ensures
            self.on_item_ready(id).wf(),
    {
        let post = self.on_item_ready(id);
        if self.status(id) != RoundRobinSchedulerStatus::Ready {
            assert(!self.queue.contains(id));
            assert forall|other: usize| #[trigger] post.queue.contains(other) implies post.status(
                other,
            ) == RoundRobinSchedulerStatus::Ready by {
                if other != id {
                    assert(self.queue.contains(other));
                }
            }
            assert forall|other: usize|
                post.status(other) == RoundRobinSchedulerStatus::Ready implies
                #[trigger] post.queue.contains(other) by {
                if other == id {
                    assert(post.queue.last() == id);
                } else {
                    assert(self.queue.contains(other));
                    let i = self.queue.index_of(other);
                    assert(post.queue[i] == other);
                }
            }
        }
    }

    /// The head of the queue is a lane that is ready, and serving it keeps the
    /// invariant.
    proof fn lemma_next_wf(self)
        requires
            self.wf(),
        ensures
            self.next().wf(),
            self.head() matches Some(id) ==> self.status(id) == RoundRobinSchedulerStatus::Ready,
    {
        if self.queue.len() > 0 {
            let id = self.queue[0];
            let post = self.next();
            assert(self.queue.contains(id));
            assert forall|other: usize| #[trigger] post.queue.contains(other) implies post.status(
                other,
            ) == RoundRobinSchedulerStatus::Ready by {
                let i = post.queue.index_of(other);
                assert(self.queue[i + 1] == other);
                assert(self.queue.contains(other));
            }
            assert forall|other: usize|
                post.status(other) == RoundRobinSchedulerStatus::Ready implies
                #[trigger] post.queue.contains(other) by {
                assert(self.queue.contains(other));
                let i = self.queue.index_of(other);
                assert(post.queue[i - 1] == other);
            }
        }
    }
}

impl RoundRobinScheduler {
    /// A scheduler without lanes.
    pub fn new() -> (scheduler: Self)
        ensures
            scheduler.wf(),
            scheduler@.items == Seq::<RoundRobinSchedulerStatus>::empty(),
            scheduler@.queue == Seq::<usize>::empty(),
            scheduler.registered() == Set::<usize>::empty(),
            scheduler.ready() == Set::<usize>::empty(),
    {
        RoundRobinScheduler { items: Vec::with_capacity(1024), queue: VecDeque::new() }
    }
}

impl Default for RoundRobinScheduler {
    fn default() -> (scheduler: Self)
        ensures
            scheduler.wf(),
            scheduler@.items == Seq::<RoundRobinSchedulerStatus>::empty(),
            scheduler@.queue == Seq::<usize>::empty(),
            scheduler.registered() == Set::<usize>::empty(),
            scheduler.ready() == Set::<usize>::empty(),
    {
        RoundRobinScheduler::new()
    }
}

impl RoundRobinScheduler {
    /// The registered lanes are those with a status other than `Empty`, and the
    /// ready ones those with the status `Ready`. An item can be announced for
    /// every id that there is room for.
    pub proof fn law_status_tells_lanes_apart(self, id: usize)
        ensures
            self.registered().contains(id) <==> id < self@.items.len() && self@.items[id as int]
                != RoundRobinSchedulerStatus::Empty,
            self.ready().contains(id) <==> id < self@.items.len() && self@.items[id as int]
                == RoundRobinSchedulerStatus::Ready,
            self.knows(id) <==> id < self@.items.len(),
    {
    }

    /// A lane that is registered waits for its first item. There is room for its
    /// id afterwards; other lanes, and the queue, stay as they are.
    pub proof fn law_registered_lane_is_staging(pre: Self, post: Self, id: usize)
        requires
            Self::registers(pre, post, id),
        ensures
            post@.queue == pre@.queue,
            post@.items.len() == if id < pre@.items.len() {
                pre@.items.len()
            } else {
                (id + 1) as nat
            },
            post@.items[id as int] == RoundRobinSchedulerStatus::Staging,
            forall|other: int|
                0 <= other < post@.items.len() && other != id ==> #[trigger] post@.items[other]
                    == if other < pre@.items.len() {
                    pre@.items[other]
                } else {
                    RoundRobinSchedulerStatus::Empty
                },
    {
    }

    /// The id of a lane that is unregistered belongs to no lane. Nothing else
    /// changes.
    pub proof fn law_unregistered_lane_is_empty(pre: Self, post: Self, id: usize)
        requires
            Self::unregisters(pre, post, id),
            id < pre@.items.len(),
        ensures
            post@.queue == pre@.queue,
            post@.items == pre@.items.update(id as int, RoundRobinSchedulerStatus::Empty),
    {
    }

    /// A lane that gets an item goes to the end of the queue, behind all that are
    /// in it. Where it is ready already, nothing changes.
    pub proof fn law_ready_lane_queues_up(pre: Self, post: Self, id: usize)
        requires
            Self::marks_ready(pre, post, id),
            id < pre@.items.len(),
        ensures
            pre@.items[id as int] == RoundRobinSchedulerStatus::Ready ==> post@.queue
                == pre@.queue && post@.items == pre@.items,
            pre@.items[id as int] != RoundRobinSchedulerStatus::Ready ==> post@.queue
                == pre@.queue.push(id) && post@.items == pre@.items.update(
                id as int,
                RoundRobinSchedulerStatus::Ready,
            ),
    {
    }

    /// The lane at the head of the queue is served and waits for its next item.
    /// None is served exactly where the queue is empty, and then nothing changes.
    pub proof fn law_head_of_queue_is_served(pre: Self, post: Self, served: Option<usize>)
        requires
            Self::serves(pre, post, served),
        ensures
            served is None <==> pre@.queue.len() == 0,
            served is None ==> post@.queue == pre@.queue && post@.items == pre@.items,
            served is Some ==> served->0 == pre@.queue[0] && post@.queue == pre@.queue.skip(1)
                && post@.items == pre@.items.update(
                pre@.queue[0] as int,
                RoundRobinSchedulerStatus::Staging,
            ),
    {
        if pre@.queue.len() > 0 {
            assert(pre@.queue.skip(1) =~= pre@.queue.drop_first());
        }
    }
}

impl LaneScheduler for RoundRobinScheduler {
    open spec fn wf(&self) -> bool {
        self@.wf()
    }

    open spec fn registered(&self) -> Set<usize> {
        Set::new(|id: usize| self@.status(id) != RoundRobinSchedulerStatus::Empty)
    }

    open spec fn ready(&self) -> Set<usize> {
        Set::new(|id: usize| self@.status(id) == RoundRobinSchedulerStatus::Ready)
    }

    open spec fn knows(&self, id: usize) -> bool {
        id < self@.items.len()
    }

    open spec fn registers(pre: Self, post: Self, id: usize) -> bool {
        post@ == pre@.register(id)
    }

    open spec fn unregisters(pre: Self, post: Self, id: usize) -> bool {
        post@ == pre@.unregister(id)
    }

    open spec fn marks_ready(pre: Self, post: Self, id: usize) -> bool {
        post@ == pre@.on_item_ready(id)
    }

    open spec fn serves(pre: Self, post: Self, served: Option<usize>) -> bool {
        served == pre@.head() && post@ == pre@.next()
    }

    fn register(&mut self, id: usize) {
        if id >= self.items.len() {
            self.items.resize(id + 1, RoundRobinSchedulerStatus::Empty);
            assert forall|i: int| 0 <= i < old(self).items@.len() implies self.items@[i] == old(
                self,
            ).items@[i] by {
                assert(self.items@.subrange(0, old(self).items@.len() as int)[i] == old(
                    self,
                ).items@[i]);
            }
        }
        assert(self.items@ == old(self)@.with_room(id).items);
        self.items[id] = RoundRobinSchedulerStatus::Staging;
    }

    fn unregister(&mut self, id: usize) {
        self.items[id] = RoundRobinSchedulerStatus::Empty;
    }

    fn on_item_ready<T>(&mut self, id: usize, _item: &T) {
        if self.items[id] == RoundRobinSchedulerStatus::Ready {
            // The lane waits in the queue already.
            return;
        }
        proof {
            old(self)@.lemma_on_item_ready_wf(id);
        }
        self.items[id] = RoundRobinSchedulerStatus::Ready;
        self.queue.push_back(id);
    }

    fn next(&mut self) -> (served: Option<usize>) {
        proof {
            old(self)@.lemma_next_wf();
        }
        let served = self.queue.pop_front();
        if let Some(id) = served {
            self.items[id] = RoundRobinSchedulerStatus::Staging;
        }
        served
    }
}

} // verus!
