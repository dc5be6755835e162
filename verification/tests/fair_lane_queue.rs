use restate_util::{
    Entry, Inner, Lane, LaneScheduler, LaneSender, NextPoll, ReservePoll, RoundRobinScheduler,
    SendFut, SendPoll,
};

/// Tasks are known by a number, which is also what wakes them.
type Task = usize;

const RECEIVER: Task = 0;

type Queue = Inner<i32, u32, RoundRobinScheduler, Task>;

fn queue() -> Queue {
    Inner::new(RoundRobinScheduler::new())
}

/// A task that sends its items one after the other.
struct Sending<'a> {
    task: Task,
    sender: &'a LaneSender,
    items: Vec<i32>,
    current: Option<SendFut<'a, i32>>,
}

impl<'a> Sending<'a> {
    fn new(task: Task, sender: &'a LaneSender, items: &[i32]) -> Self {
        Sending {
            task,
            sender,
            items: items.to_vec(),
            current: None,
        }
    }

    /// Runs until the task waits or is done, and returns whom it wakes.
    fn run(&mut self, queue: &mut Queue) -> Vec<Task> {
        let mut woken = Vec::new();
        loop {
            if self.current.is_none() {
                if self.items.is_empty() {
                    return woken;
                }
                self.current = Some(self.sender.send(self.items.remove(0)));
            }
            match self.current.as_mut().unwrap().poll(queue, self.task) {
                SendPoll::Pending => return woken,
                SendPoll::Ready { wake } => {
                    woken.extend(wake);
                    self.current = None;
                }
            }
        }
    }
}

fn send(queue: &mut Queue, sender: &LaneSender, item: i32) -> Option<Task> {
    match sender.send(item).poll(queue, 99) {
        SendPoll::Ready { wake } => wake,
        SendPoll::Pending => panic!("the slot is taken"),
    }
}

fn next(queue: &mut Queue) -> (i32, Vec<Task>) {
    match queue.poll_next(RECEIVER) {
        NextPoll::Ready { item, wake } => (item, wake),
        NextPoll::Pending => panic!("nothing to deliver"),
    }
}

fn is_idle(queue: &mut Queue) -> bool {
    matches!(queue.poll_next(RECEIVER), NextPoll::Pending)
}

#[test]
fn round_robin_queue() {
    let mut queue = queue();

    let tx1 = queue.open_lane(1u32);
    let tx2 = queue.open_lane(2u32);
    let mut tasks = vec![
        Sending::new(1, &tx1, &[1, 2, 3]),
        Sending::new(2, &tx2, &[1, 2, 3]),
    ];

    // The receiver waits until one of the tasks has run.
    assert!(is_idle(&mut queue));
    assert_eq!(tasks[0].run(&mut queue), vec![RECEIVER]);
    assert_eq!(tasks[1].run(&mut queue), Vec::<Task>::new());

    let mut received = Vec::new();
    for _ in 0..6 {
        let (item, woken) = next(&mut queue);
        received.push(item);
        for task in woken {
            tasks[task - 1].run(&mut queue);
        }
    }
    assert_eq!(received, vec![1, 1, 2, 2, 3, 3]);
    assert!(is_idle(&mut queue));
}

#[test]
fn reseve() {
    let mut queue = queue();

    let tx1_1 = queue.open_lane(1u32);
    let tx1_2 = queue.open_lane(1u32);

    let p1 = match tx1_1.reserve().poll(&mut queue, 1) {
        ReservePoll::Ready { permit, .. } => permit,
        ReservePoll::Pending => panic!("the slot is free"),
    };
    let mut second = tx1_2.reserve();
    assert!(matches!(second.poll(&mut queue, 2), ReservePoll::Pending));

    p1.send(&mut queue, 1);

    let (item, woken) = next(&mut queue);
    assert_eq!(item, 1);
    assert_eq!(woken, vec![2]);
    match second.poll(&mut queue, 2) {
        ReservePoll::Ready { permit, wake } => {
            assert_eq!(wake, Some(RECEIVER));
            permit.send(&mut queue, 2);
        }
        ReservePoll::Pending => panic!("the slot is free"),
    }
    assert_eq!(next(&mut queue).0, 2);
}

#[test]
fn lane_starts_empty() {
    let lane: Lane<i32, Task> = Lane::new();
    assert!(matches!(lane.entry, Entry::Empty));
    assert_eq!(lane.num_senders, 0);
    assert_eq!(lane.parked_senders, Vec::<Task>::new());
}

#[test]
fn a_new_queue_leaves_its_scheduler_alone() {
    let mut scheduler = RoundRobinScheduler::new();
    scheduler.register(5);
    let mut queue: Queue = Inner::new(scheduler);

    assert!(is_idle(&mut queue));
    let senders: Vec<LaneSender> = (0..5).map(|id| queue.open_lane(id)).collect();
    send(&mut queue, &senders[4], 40);
    send(&mut queue, &senders[0], 10);
    assert_eq!(next(&mut queue).0, 40);
    assert_eq!(next(&mut queue).0, 10);
    assert!(is_idle(&mut queue));
}

#[test]
fn items_come_out_once_and_in_order() {
    let mut queue = queue();
    let tx1 = queue.open_lane(1u32);
    let tx2 = queue.open_lane(2u32);

    let mut received = Vec::new();
    for item in 1..=3 {
        send(&mut queue, &tx1, item);
        send(&mut queue, &tx2, 10 * item);
        received.push(next(&mut queue).0);
        received.push(next(&mut queue).0);
    }
    send(&mut queue, &tx1, 4);
    received.push(next(&mut queue).0);
    assert_eq!(received, vec![1, 10, 2, 20, 3, 30, 4]);
    assert!(is_idle(&mut queue));
}

#[test]
fn one_lane_per_name() {
    let mut queue = queue();
    let a = queue.open_lane(7);
    let b = queue.open_lane(8);
    let again = queue.open_lane(7);
    assert_eq!(a.id(), again.id());
    assert_ne!(a.id(), b.id());
    assert_eq!(queue.lane_of(&7), Some(a.id()));
    assert_eq!(queue.lane_of(&8), Some(b.id()));
    assert_eq!(queue.lane_of(&9), None);
    assert_eq!(queue.lane(a.id()).unwrap().num_senders, 2);
    assert_eq!(queue.lane(b.id()).unwrap().num_senders, 1);
    assert!(queue.lane(2).is_none());
}

#[test]
fn ids_of_closed_lanes_are_used_again() {
    let mut queue = queue();
    let senders: Vec<LaneSender> = (0..4).map(|name| queue.open_lane(name)).collect();
    assert_eq!(
        senders.iter().map(|s| s.id()).collect::<Vec<_>>(),
        vec![0, 1, 2, 3]
    );

    for (name, sender) in senders.into_iter().enumerate() {
        if name % 2 == 0 {
            sender.close(&mut queue);
        }
    }
    assert!(queue.lane(0).is_none());
    assert!(queue.lane(2).is_none());
    assert_eq!(queue.lane_of(&0), None);
    assert_eq!(queue.lane_of(&1), Some(1));
    assert_eq!(queue.lane_of(&3), Some(3));

    // The id that was given back last is given out first.
    assert_eq!(queue.open_lane(10).id(), 2);
    assert_eq!(queue.open_lane(11).id(), 0);
    assert_eq!(queue.open_lane(12).id(), 4);
}

#[test]
fn lanes_are_found_after_another_one_closed() {
    let mut queue = queue();
    let a = queue.open_lane(1);
    let b = queue.open_lane(2);
    let c = queue.open_lane(3);
    send(&mut queue, &b, 20);
    send(&mut queue, &c, 30);
    a.close(&mut queue);
    assert!(matches!(queue.lane(b.id()).unwrap().entry, Entry::Ready(20)));
    assert!(matches!(queue.lane(c.id()).unwrap().entry, Entry::Ready(30)));
    assert_eq!(next(&mut queue).0, 20);
    assert_eq!(next(&mut queue).0, 30);
}

#[test]
fn lanes_are_served_in_the_order_they_became_ready() {
    let mut queue = queue();
    let a = queue.open_lane(1);
    let b = queue.open_lane(2);
    let c = queue.open_lane(3);
    send(&mut queue, &c, 3);
    send(&mut queue, &a, 1);
    assert_eq!(next(&mut queue).0, 3);
    // The lane that was just served goes behind those that wait.
    send(&mut queue, &b, 2);
    send(&mut queue, &c, 33);
    assert_eq!(next(&mut queue).0, 1);
    assert_eq!(next(&mut queue).0, 2);
    assert_eq!(next(&mut queue).0, 33);
    assert!(is_idle(&mut queue));
}

#[test]
fn a_lane_that_fills_up_again_does_not_starve_the_others() {
    let mut queue = queue();
    let busy = queue.open_lane(1);
    let quiet = queue.open_lane(2);
    send(&mut queue, &busy, 1);
    send(&mut queue, &quiet, 100);
    let mut received = Vec::new();
    for item in 2..5 {
        received.push(next(&mut queue).0);
        if matches!(queue.lane(busy.id()).unwrap().entry, Entry::Empty) {
            send(&mut queue, &busy, item);
        }
    }
    assert_eq!(received, vec![1, 100, 2]);
}

#[test]
fn an_item_stays_until_it_is_delivered() {
    let mut queue = queue();
    let a = queue.open_lane(1);
    let b = queue.open_lane(2);
    send(&mut queue, &a, 5);
    assert!(matches!(a.send(6).poll(&mut queue, 1), SendPoll::Pending));
    assert!(matches!(a.reserve().poll(&mut queue, 2), ReservePoll::Pending));
    let shared = a.share(&mut queue);
    shared.close(&mut queue);
    b.close(&mut queue);
    assert_eq!(next(&mut queue), (5, vec![1, 2]));
}

#[test]
fn send_keeps_its_item_until_it_is_sent() {
    let mut queue = queue();
    let a = queue.open_lane(1);
    send(&mut queue, &a, 1);
    let mut second = a.send(2);
    assert!(!second.is_done());
    assert!(matches!(second.poll(&mut queue, 7), SendPoll::Pending));
    assert!(!second.is_done());
    assert_eq!(next(&mut queue), (1, vec![7]));
    assert!(matches!(second.poll(&mut queue, 7), SendPoll::Ready { .. }));
    assert!(second.is_done());
    // The slot is taken, so one that is done parks like any other.
    assert!(matches!(second.poll(&mut queue, 8), SendPoll::Pending));
    assert_eq!(next(&mut queue), (2, vec![8]));
}

#[test]
fn parked_senders_are_woken_in_order() {
    let mut queue = queue();
    let a = queue.open_lane(1);
    send(&mut queue, &a, 1);
    for task in [5, 6, 5] {
        assert!(matches!(a.send(2).poll(&mut queue, task), SendPoll::Pending));
    }
    assert_eq!(queue.lane(a.id()).unwrap().parked_senders, vec![5, 6, 5]);
    assert_eq!(next(&mut queue), (1, vec![5, 6, 5]));
    assert_eq!(queue.lane(a.id()).unwrap().parked_senders, Vec::<Task>::new());
}

#[test]
fn the_receiver_is_woken_once() {
    let mut queue = queue();
    let a = queue.open_lane(1);
    let b = queue.open_lane(2);
    let c = queue.open_lane(3);
    assert_eq!(send(&mut queue, &a, 1), None);
    assert_eq!(next(&mut queue).0, 1);
    assert!(is_idle(&mut queue));
    assert_eq!(send(&mut queue, &a, 1), Some(RECEIVER));
    assert_eq!(send(&mut queue, &b, 2), None);
    assert_eq!(next(&mut queue).0, 1);
    // A reservation wakes the receiver as well.
    match c.reserve().poll(&mut queue, 1) {
        ReservePoll::Ready { permit, wake } => {
            assert_eq!(wake, Some(RECEIVER));
            assert_eq!(permit.send(&mut queue, 3), None);
        }
        ReservePoll::Pending => panic!("the slot is free"),
    }
    assert_eq!(next(&mut queue).0, 2);
    assert_eq!(next(&mut queue).0, 3);
}

#[test]
fn a_released_permit_frees_the_slot() {
    let mut queue = queue();
    let a = queue.open_lane(1);
    let permit = match a.reserve().poll(&mut queue, 1) {
        ReservePoll::Ready { permit, .. } => permit,
        ReservePoll::Pending => panic!("the slot is free"),
    };
    assert!(matches!(queue.lane(a.id()).unwrap().entry, Entry::Reserved));
    assert!(is_idle(&mut queue));
    assert!(matches!(a.send(1).poll(&mut queue, 4), SendPoll::Pending));
    assert!(matches!(a.reserve().poll(&mut queue, 5), ReservePoll::Pending));
    assert_eq!(permit.release(&mut queue), vec![4, 5]);
    assert!(matches!(queue.lane(a.id()).unwrap().entry, Entry::Empty));
    assert_eq!(send(&mut queue, &a, 9), Some(RECEIVER));
    assert_eq!(next(&mut queue).0, 9);
}

#[test]
fn a_released_lane_goes_with_its_sender() {
    let mut queue = queue();
    let a = queue.open_lane(1);
    let id = a.id();
    match a.reserve().poll(&mut queue, 1) {
        ReservePoll::Ready { permit, .. } => {
            assert_eq!(permit.release(&mut queue), Vec::<Task>::new());
        }
        ReservePoll::Pending => panic!("the slot is free"),
    }
    a.close(&mut queue);
    assert!(queue.lane(id).is_none());
}

#[test]
fn a_reserved_lane_outlives_its_senders() {
    let mut queue = queue();
    let a = queue.open_lane(1);
    let id = a.id();
    assert!(matches!(a.reserve().poll(&mut queue, 1), ReservePoll::Ready { .. }));
    a.close(&mut queue);
    assert!(matches!(queue.lane(id).unwrap().entry, Entry::Reserved));
    assert_eq!(queue.lane(id).unwrap().num_senders, 0);
}

#[test]
fn a_lane_outlives_its_senders_until_it_is_delivered() {
    let mut queue = queue();
    let a = queue.open_lane(1);
    let id = a.id();
    send(&mut queue, &a, 4);
    a.close(&mut queue);
    assert_eq!(queue.lane(id).unwrap().num_senders, 0);
    assert_eq!(queue.lane_of(&1), Some(id));

    // It can be joined again under its name.
    let again = queue.open_lane(1);
    assert_eq!(again.id(), id);
    again.close(&mut queue);

    assert_eq!(next(&mut queue).0, 4);
    assert!(queue.lane(id).is_none());
    assert_eq!(queue.lane_of(&1), None);
}

#[test]
fn the_last_sender_takes_an_empty_lane_along() {
    let mut queue = queue();
    let a = queue.open_lane(1);
    let shared = a.share(&mut queue);
    assert_eq!(queue.lane(a.id()).unwrap().num_senders, 2);
    a.close(&mut queue);
    let id = shared.id();
    assert_eq!(queue.lane(id).unwrap().num_senders, 1);
    shared.close(&mut queue);
    assert!(queue.lane(id).is_none());
    assert_eq!(queue.lane_of(&1), None);
}

#[test]
fn round_robin_scheduler_keeps_ready_lanes_in_line() {
    let mut scheduler = RoundRobinScheduler::default();
    scheduler.register(5);
    scheduler.register(2);
    assert_eq!(scheduler.next(), None);
    scheduler.on_item_ready(5, &"a");
    scheduler.on_item_ready(2, &"b");
    // A lane that is ready already keeps its place.
    scheduler.on_item_ready(5, &"c");
    assert_eq!(scheduler.next(), Some(5));
    scheduler.unregister(5);
    scheduler.register(5);
    scheduler.on_item_ready(5, &"d");
    assert_eq!(scheduler.next(), Some(2));
    assert_eq!(scheduler.next(), Some(5));
    assert_eq!(scheduler.next(), None);
}

/// Serves the lane that became ready last.
struct LastFirst {
    ready: Vec<usize>,
}

impl LaneScheduler for LastFirst {
    fn register(&mut self, _id: usize) {}

    fn unregister(&mut self, _id: usize) {}

    fn on_item_ready<T>(&mut self, id: usize, _item: &T) {
        self.ready.push(id);
    }

    fn next(&mut self) -> Option<usize> {
        self.ready.pop()
    }
}

#[test]
fn the_scheduler_picks_the_lane() {
    let mut queue: Inner<&str, String, LastFirst, Task> = Inner::new(LastFirst { ready: vec![] });
    let a = queue.open_lane("a".to_string());
    let b = queue.open_lane("b".to_string());
    for (sender, item) in [(&a, "first"), (&b, "second")] {
        assert!(matches!(
            sender.send(item).poll(&mut queue, 1),
            SendPoll::Ready { wake: None }
        ));
    }
    let mut received = Vec::new();
    while let NextPoll::Ready { item, .. } = queue.poll_next(RECEIVER) {
        received.push(item);
    }
    assert_eq!(received, vec!["second", "first"]);
}

/// Serves no lane, and keeps how many bytes the items have that it is shown.
struct Witness {
    shown: Vec<(usize, usize)>,
}

impl LaneScheduler for Witness {
    fn register(&mut self, _id: usize) {}

    fn unregister(&mut self, _id: usize) {}

    fn on_item_ready<T>(&mut self, id: usize, item: &T) {
        self.shown.push((id, std::mem::size_of_val(item)));
        assert!(self.shown.len() <= 2, "told more than once about an item");
    }

    fn next(&mut self) -> Option<usize> {
        let last = self.shown.last().copied();
        assert_eq!(last, Some((1, 12)));
        None
    }
}

#[test]
fn the_scheduler_is_shown_the_item() {
    let mut queue: Inner<[i32; 3], u32, Witness, Task> = Inner::new(Witness { shown: vec![] });
    let _a = queue.open_lane(1);
    let b = queue.open_lane(2);
    let c = queue.open_lane(3);
    let permit = match c.reserve().poll(&mut queue, 1) {
        ReservePoll::Ready { permit, .. } => permit,
        ReservePoll::Pending => panic!("the slot is free"),
    };
    assert!(matches!(
        b.send([7, 8, 9]).poll(&mut queue, 1),
        SendPoll::Ready { wake: None }
    ));
    assert!(matches!(queue.poll_next(RECEIVER), NextPoll::Pending));
    assert_eq!(permit.send(&mut queue, [1, 2, 3]), Some(RECEIVER));
}

#[test]
fn both_ways_to_send_end_alike() {
    let mut plain = queue();
    let mut with_permit = queue();
    let mut woken = Vec::new();
    for (queue, reserves) in [(&mut plain, false), (&mut with_permit, true)] {
        let a = queue.open_lane(1);
        let b = queue.open_lane(2);
        assert!(is_idle(queue));
        if reserves {
            match a.reserve().poll(queue, 1) {
                ReservePoll::Ready { permit, wake } => {
                    woken.push(wake);
                    assert_eq!(permit.send(queue, 5), None);
                }
                ReservePoll::Pending => panic!("the slot is free"),
            }
        } else {
            woken.push(send(queue, &a, 5));
        }
        send(queue, &b, 6);
        let lane = queue.lane(a.id()).unwrap();
        assert!(matches!(lane.entry, Entry::Ready(5)));
        assert_eq!(lane.num_senders, 1);
        assert_eq!(lane.parked_senders, Vec::<Task>::new());
        assert_eq!(next(queue).0, 5);
        assert_eq!(next(queue).0, 6);
        assert!(is_idle(queue));
    }
    assert_eq!(woken, vec![Some(RECEIVER), Some(RECEIVER)]);
}

#[test]
fn items_of_all_lanes_come_in_the_order_they_were_sent() {
    let mut queue = queue();
    let senders: Vec<LaneSender> = (0..3).map(|id| queue.open_lane(id)).collect();
    send(&mut queue, &senders[2], 1);
    send(&mut queue, &senders[0], 2);
    assert_eq!(next(&mut queue).0, 1);
    send(&mut queue, &senders[2], 3);
    send(&mut queue, &senders[1], 4);
    assert_eq!(next(&mut queue).0, 2);
    send(&mut queue, &senders[0], 5);
    let rest: Vec<i32> = (0..3).map(|_| next(&mut queue).0).collect();
    assert_eq!(rest, vec![3, 4, 5]);
    assert!(is_idle(&mut queue));
}

#[test]
fn senders_are_counted() {
    let mut queue = queue();
    let a = queue.open_lane(1);
    let b = queue.open_lane(1);
    let c = b.share(&mut queue);
    let id = a.id();
    assert_eq!(queue.lane(id).unwrap().num_senders, 3);
    b.close(&mut queue);
    assert_eq!(queue.lane(id).unwrap().num_senders, 2);
    a.close(&mut queue);
    assert_eq!(queue.lane(id).unwrap().num_senders, 1);
    c.close(&mut queue);
    assert!(queue.lane(id).is_none());
}

#[test]
fn there_is_one_permit_at_a_time() {
    let mut queue = queue();
    let a = queue.open_lane(1);
    let id = a.id();
    for uses in [true, false] {
        let permit = match a.reserve().poll(&mut queue, 1) {
            ReservePoll::Ready { permit, .. } => permit,
            ReservePoll::Pending => panic!("the slot is free"),
        };
        assert!(matches!(queue.lane(id).unwrap().entry, Entry::Reserved));
        assert!(matches!(a.reserve().poll(&mut queue, 2), ReservePoll::Pending));
        if uses {
            permit.send(&mut queue, 1);
            assert_eq!(next(&mut queue).0, 1);
        } else {
            assert_eq!(permit.release(&mut queue), vec![2]);
        }
        assert!(matches!(queue.lane(id).unwrap().entry, Entry::Empty));
    }
}
