use vstd::prelude::*;
use crate::message::ChatMessage;
use tokio::sync::mpsc::{Receiver, Sender};

verus! {

#[verifier::external_type_specification]
#[verifier::external_body]
#[verifier::reject_recursive_types(T)]
pub struct ExSender<T>(tokio::sync::mpsc::Sender<T>);

#[verifier::external_type_specification]
#[verifier::external_body]
#[verifier::reject_recursive_types(T)]
pub struct ExReceiver<T>(tokio::sync::mpsc::Receiver<T>);

/// How many messages a subscriber's queue holds before it turns new ones away.
pub const QUEUE_CAPACITY: usize = 1000;

/// The largest bound that a tokio queue takes on every target: tokio's permit
/// limit is `usize::MAX >> 3`, and this is its value on 32-bit targets.
pub const MAX_QUEUE_BOUND: usize = 0x1FFF_FFFF;

/// The bound that the queue behind `queue` was made with.
pub uninterp spec fn queue_bound(queue: Sender<ChatMessage>) -> nat;

/// Every message that the queue behind `queue` has accepted from it, oldest
/// first.
pub uninterp spec fn accepted_log(queue: Sender<ChatMessage>) -> Seq<
    (Seq<char>, Seq<char>, Seq<char>),
>;

/// The queue that a sending side writes into.
pub uninterp spec fn channel_of(queue: Sender<ChatMessage>) -> nat;

/// The queue that a receiving side reads from.
pub uninterp spec fn receiver_channel(receiver: Receiver<ChatMessage>) -> nat;

/// Relies on tokio::sync::mpsc::channel: a fresh, empty queue whose two
/// sides belong to it, and whose sending side keeps the bound it was made
/// with. It panics on a bound of 0 or above tokio's permit limit.
#[verifier::external_body]
fn bounded_queue(capacity: usize) -> (r: (Sender<ChatMessage>, Receiver<ChatMessage>))
    requires
        0 < capacity <= MAX_QUEUE_BOUND,
    ensures
        queue_bound(r.0) == capacity,
        accepted_log(r.0) == Seq::<(Seq<char>, Seq<char>, Seq<char>)>::empty(),
        channel_of(r.0) == receiver_channel(r.1),
{
    tokio::sync::mpsc::channel(capacity)
}

/// Relies on tokio::sync::mpsc::Sender::try_send: without waiting, it either
/// enqueues `message` and answers Ok, or, when the queue is full or its
/// receiver is gone, hands the message back in an error and enqueues nothing.
/// Which of the two happens depends on the receiving side.
#[verifier::external_body]
fn try_enqueue(queue: &mut Sender<ChatMessage>, message: ChatMessage) -> (accepted: bool)
    ensures
        accepted ==> accepted_log(*final(queue)) == accepted_log(*old(queue)).push(message@),
        !accepted ==> accepted_log(*final(queue)) == accepted_log(*old(queue)),
        queue_bound(*final(queue)) == queue_bound(*old(queue)),
        channel_of(*final(queue)) == channel_of(*old(queue)),
{
    queue.try_send(message).is_ok()
}

/// The outcome of one delivery attempt during a publish.
#[derive(Clone, Copy, Debug, PartialEq, Eq)]
pub struct Delivery {
    pub subscriber: u64,
    pub delivered: bool,
}

/// The subscribers named in `report`, in order.
pub open spec fn attempted(report: Seq<Delivery>) -> Seq<u64> {
    report.map_values(|d: Delivery| d.subscriber)
}

/// The subscribers of `report` whose delivery succeeded, in order: those that
/// stay registered after the publish that made it.
pub open spec fn survivors(report: Seq<Delivery>) -> Seq<u64>
    decreases report.len(),
{
    if report.len() == 0 {
        Seq::empty()
    } else if report.last().delivered {
        survivors(report.drop_last()).push(report.last().subscriber)
    } else {
        survivors(report.drop_last())
    }
}

/// The positions in `report` whose delivery succeeded, in order.
pub open spec fn kept_indices(report: Seq<Delivery>) -> Seq<int>
    decreases report.len(),
{
    if report.len() == 0 {
        Seq::empty()
    } else if report.last().delivered {
        kept_indices(report.drop_last()).push(report.len() - 1)
    } else {
        kept_indices(report.drop_last())
    }
}

/// `after` holds, in order, exactly the queues of `before` whose entry in
/// `report` was delivered.
pub open spec fn queues_kept(
    before: Seq<Sender<ChatMessage>>,
    after: Seq<Sender<ChatMessage>>,
    report: Seq<Delivery>,
) -> bool {
    &&& after.len() == kept_indices(report).len()
    &&& forall|k: int| 0 <= k < after.len() ==> #[trigger] queue_kept(before, after, report, k)
}

/// Entry `k` of `after` is the queue of `before` at the `k`-th delivered
/// position of `report`.
pub open spec fn queue_kept(
    before: Seq<Sender<ChatMessage>>,
    after: Seq<Sender<ChatMessage>>,
    report: Seq<Delivery>,
    k: int,
) -> bool {
    &&& 0 <= kept_indices(report)[k]
    &&& kept_indices(report)[k] < before.len()
    &&& report[kept_indices(report)[k]].delivered
    &&& after[k] == before[kept_indices(report)[k]]
}

/// `after` holds, in order, the queues of `before` whose entry in `report`
/// was delivered, each having accepted `message` once more and nothing else.
pub open spec fn queues_delivered(
    before: Seq<Sender<ChatMessage>>,
    after: Seq<Sender<ChatMessage>>,
    report: Seq<Delivery>,
    message: (Seq<char>, Seq<char>, Seq<char>),
) -> bool {
    &&& after.len() == kept_indices(report).len()
    &&& forall|k: int|
        0 <= k < after.len() ==> #[trigger] queue_delivered(before, after, report, message, k)
}

/// Entry `k` of `after` is the queue of `before` at the `k`-th delivered
/// position of `report`, having accepted `message` once more.
pub open spec fn queue_delivered(
    before: Seq<Sender<ChatMessage>>,
    after: Seq<Sender<ChatMessage>>,
    report: Seq<Delivery>,
    message: (Seq<char>, Seq<char>, Seq<char>),
    k: int,
) -> bool {
    &&& 0 <= kept_indices(report)[k]
    &&& kept_indices(report)[k] < before.len()
    &&& report[kept_indices(report)[k]].delivered
    &&& accepted_log(after[k]) == accepted_log(before[kept_indices(report)[k]]).push(message)
    &&& queue_bound(after[k]) == queue_bound(before[kept_indices(report)[k]])
    &&& channel_of(after[k]) == channel_of(before[kept_indices(report)[k]])
}

/// A position of `report` is kept exactly when its delivery succeeded.
pub proof fn lemma_kept_iff_delivered(report: Seq<Delivery>, i: int)
    requires
        0 <= i < report.len(),
    ensures
        kept_indices(report).contains(i) <==> report[i].delivered,
    decreases report.len(),
{
    let rest = report.drop_last();
    lemma_kept_indices_below(rest);
    if i == report.len() - 1 {
        if report[i].delivered {
            assert(kept_indices(report).last() == i);
        }
    } else {
        lemma_kept_iff_delivered(rest, i);
        assert(rest[i] == report[i]);
        if report.last().delivered {
            let after = kept_indices(rest).push(report.len() - 1);
            if after.contains(i) {
                let k = choose|k: int| 0 <= k < after.len() && after[k] == i;
                assert(k < kept_indices(rest).len());
            }
            if kept_indices(rest).contains(i) {
                let k = choose|k: int| 0 <= k < kept_indices(rest).len() && kept_indices(rest)[k] == i;
                assert(after[k] == i);
            }
        }
    }
}

/// Every kept position lies inside `report`.
pub proof fn lemma_kept_indices_below(report: Seq<Delivery>)
    ensures
        forall|k: int|
            0 <= k < kept_indices(report).len() ==> 0 <= #[trigger] kept_indices(report)[k]
                < report.len(),
    decreases report.len(),
{
    if report.len() > 0 {
        let rest = report.drop_last();
        lemma_kept_indices_below(rest);
        assert forall|k: int| 0 <= k < kept_indices(report).len() implies 0
            <= #[trigger] kept_indices(report)[k] < report.len() by {
            if k < kept_indices(rest).len() {
                assert(kept_indices(report)[k] == kept_indices(rest)[k]);
            }
        }
    }
}

/// A subscriber kept by two publishes in a row has accepted their messages
/// in the order they were published.
pub proof fn lemma_publish_order(
    log: Seq<(Seq<char>, Seq<char>, Seq<char>)>,
    after_first: Seq<(Seq<char>, Seq<char>, Seq<char>)>,
    after_second: Seq<(Seq<char>, Seq<char>, Seq<char>)>,
    first: (Seq<char>, Seq<char>, Seq<char>),
    second: (Seq<char>, Seq<char>, Seq<char>),
)
    requires
        after_first == log.push(first),
        after_second == after_first.push(second),
    ensures
        after_second == log + seq![first, second],
        after_second[log.len() as int] == first,
        after_second[log.len() + 1int] == second,
{
    assert(after_second =~= log + seq![first, second]);
}

/// Every survivor of `report` was attempted in it.
pub proof fn lemma_survivors_attempted(report: Seq<Delivery>, x: u64)
    requires
        survivors(report).contains(x),
    ensures
        attempted(report).contains(x),
    decreases report.len(),
{
    let rest = report.drop_last();
    assert(attempted(report) =~= attempted(rest).push(report.last().subscriber));
    if survivors(rest).contains(x) {
        lemma_survivors_attempted(rest, x);
        let k = choose|k: int| 0 <= k < attempted(rest).len() && attempted(rest)[k] == x;
        assert(attempted(report)[k] == x);
    } else {
        assert(attempted(report).last() == x);
    }
}

/// Survivors of a report that names each subscriber once are distinct.
pub proof fn lemma_survivors_distinct(report: Seq<Delivery>)
    requires
        attempted(report).no_duplicates(),
    ensures
        survivors(report).no_duplicates(),
    decreases report.len(),
{
    if report.len() > 0 {
        let rest = report.drop_last();
        assert(attempted(report) =~= attempted(rest).push(report.last().subscriber));
        assert(attempted(rest).no_duplicates()) by {
            assert forall|i: int, j: int|
                0 <= i < attempted(rest).len() && 0 <= j < attempted(rest).len() && i != j
                implies attempted(rest)[i] != attempted(rest)[j] by {
                assert(attempted(rest)[i] == attempted(report)[i]);
                assert(attempted(rest)[j] == attempted(report)[j]);
            }
        }
        lemma_survivors_distinct(rest);
        if report.last().delivered {
            let x = report.last().subscriber;
            if survivors(rest).contains(x) {
                lemma_survivors_attempted(rest, x);
                let k = choose|k: int| 0 <= k < attempted(rest).len() && attempted(rest)[k] == x;
                assert(attempted(report)[k] == attempted(report)[report.len() - 1]);
            }
        }
    }
}

/// A subscriber named once in a report stays registered after it exactly
/// when its own entry says delivered.
pub proof fn lemma_survives_iff_delivered(report: Seq<Delivery>, i: int)
    requires
        attempted(report).no_duplicates(),
        0 <= i < report.len(),
    ensures
        survivors(report).contains(report[i].subscriber) <==> report[i].delivered,
    decreases report.len(),
{
    let rest = report.drop_last();
    let last = report.len() - 1;
    let x = report[i].subscriber;
    assert(attempted(report) =~= attempted(rest).push(report.last().subscriber));
    if survivors(rest).contains(x) {
        lemma_survivors_attempted(rest, x);
        let k = choose|k: int| 0 <= k < attempted(rest).len() && attempted(rest)[k] == x;
        assert(attempted(report)[k] == attempted(report)[i]);
    }
    if i == last {
        if report[i].delivered {
            assert(survivors(report).last() == x);
        }
    } else {
        assert(attempted(rest).no_duplicates()) by {
            assert forall|a: int, b: int|
                0 <= a < attempted(rest).len() && 0 <= b < attempted(rest).len() && a != b
                implies attempted(rest)[a] != attempted(rest)[b] by {
                assert(attempted(rest)[a] == attempted(report)[a]);
                assert(attempted(rest)[b] == attempted(report)[b]);
            }
        }
        lemma_survives_iff_delivered(rest, i);
        assert(rest[i] == report[i]);
        assert(attempted(report)[i] != attempted(report)[last]);
        if report.last().delivered {
            let after = survivors(rest).push(report.last().subscriber);
            if after.contains(x) {
                let k = choose|k: int| 0 <= k < after.len() && after[k] == x;
                assert(k < survivors(rest).len());
                assert(survivors(rest)[k] == x);
            }
            if survivors(rest).contains(x) {
                let k = choose|k: int| 0 <= k < survivors(rest).len() && survivors(rest)[k] == x;
                assert(after[k] == x);
            }
        }
    }
}

/// A report that attempts every registered subscriber names each of them
/// exactly once: none is skipped or visited twice.
pub proof fn lemma_fan_out_complete(registered: Seq<u64>, report: Seq<Delivery>, id: u64)
    requires
        registered.no_duplicates(),
        attempted(report) == registered,
        registered.contains(id),
    ensures
        exists|i: int|
            0 <= i < report.len() && #[trigger] report[i].subscriber == id && forall|j: int|
                0 <= j < report.len() && #[trigger] report[j].subscriber == id ==> j == i,
{
    let i = choose|i: int| 0 <= i < registered.len() && registered[i] == id;
    assert(report[i].subscriber == attempted(report)[i]);
    assert forall|j: int| 0 <= j < report.len() && #[trigger] report[j].subscriber == id implies j
        == i by {
        assert(attempted(report)[j] == report[j].subscriber);
    }
}

/// A subscriber whose report entry says not delivered (its queue refused the
/// message: full, or its receiver gone) is not among the survivors.
pub proof fn lemma_refused_evicted(report: Seq<Delivery>, i: int)
    requires
        attempted(report).no_duplicates(),
        0 <= i < report.len(),
        !report[i].delivered,
    ensures
        !survivors(report).contains(report[i].subscriber),
{
    lemma_survives_iff_delivered(report, i);
}

/// Subscribers are isolated from one another: whether a subscriber is among
/// the survivors depends on its own report entry alone, whatever the entries
/// of the others say.
pub proof fn lemma_delivery_isolated(one: Seq<Delivery>, other: Seq<Delivery>, i: int)
    requires
        attempted(one).no_duplicates(),
        attempted(one) == attempted(other),
        0 <= i < one.len(),
        one[i] == other[i],
    ensures
        survivors(one).contains(one[i].subscriber) <==> survivors(other).contains(
            other[i].subscriber,
        ),
        one[i].delivered ==> survivors(one).contains(one[i].subscriber),
{
    assert(one.len() == attempted(one).len());
    assert(other.len() == attempted(other).len());
    lemma_survives_iff_delivered(one, i);
    lemma_survives_iff_delivered(other, i);
}

/// An evicted subscriber never comes back: a later publish keeps only
/// subscribers it attempted, and a later subscribe adds only an id that was
/// never handed out before.
pub proof fn lemma_evicted_never_returns(
    registered: Seq<u64>,
    next_id: u64,
    evicted: u64,
    report: Seq<Delivery>,
)
    requires
        !registered.contains(evicted),
        evicted < next_id,
        attempted(report) == registered,
    ensures
        !registered.push(next_id).contains(evicted),
        !survivors(report).contains(evicted),
{
    if survivors(report).contains(evicted) {
        lemma_survivors_attempted(report, evicted);
    }
    if registered.push(next_id).contains(evicted) {
        let k = choose|k: int| 0 <= k < registered.len() + 1 && registered.push(next_id)[k] == evicted;
        assert(registered[k] == evicted);
    }
}

/// One open subscription: its id and the sending side of its queue.
struct Subscriber {
    id: u64,
    queue: Sender<ChatMessage>,
}

/// What `subscribe` hands out: the new subscriber's id and the receiving side
/// of its queue.
pub struct Subscription {
    pub id: u64,
    pub receiver: Receiver<ChatMessage>,
}

/// The live subscribers, each with its own bounded queue, in order of
/// subscribing. Ids are never reused.
pub struct Registry {
    subscribers: Vec<Subscriber>,
    next_id: u64,
}

/// `kept` holds, in order, the subscribers of `subs` whose entry in
/// `report` was delivered.
spec fn kept_from(kept: Seq<Subscriber>, subs: Seq<Subscriber>, report: Seq<Delivery>) -> bool {
    &&& kept.len() == kept_indices(report).len()
    &&& forall|k: int| 0 <= k < kept.len() ==> #[trigger] kept_entry(kept, subs, report, k)
}

/// Entry `k` of `kept` is the subscriber at the `k`-th delivered position.
spec fn kept_entry(kept: Seq<Subscriber>, subs: Seq<Subscriber>, report: Seq<Delivery>, k: int) -> bool {
    &&& 0 <= kept_indices(report)[k] < report.len()
    &&& report[kept_indices(report)[k]].delivered
    &&& kept[k] == subs[kept_indices(report)[k]]
}

/// One step of `prune`: the answer for the next subscriber keeps `kept_from`.
proof fn lemma_kept_step(
    kept: Seq<Subscriber>,
    after: Seq<Subscriber>,
    subs: Seq<Subscriber>,
    report: Seq<Delivery>,
    next: Seq<Delivery>,
    s: Subscriber,
    d: bool,
)
    requires
        kept_from(kept, subs, report),
        report.len() < subs.len(),
        s == subs[report.len() as int],
        next == report.push(Delivery { subscriber: s.id, delivered: d }),
        d ==> after == kept.push(s),
        !d ==> after == kept,
    ensures
        kept_from(after, subs, next),
{
    let j = report.len() as int;
    assert(next.drop_last() =~= report);
    assert(next.last().delivered == d);
    if d {
        assert(kept_indices(next) == kept_indices(report).push(j));
    } else {
        assert(kept_indices(next) == kept_indices(report));
    }
    assert forall|k: int| 0 <= k < after.len() implies #[trigger] kept_entry(after, subs, next, k) by {
        if k < kept.len() {
            let i = kept_indices(report)[k];
            assert(kept_entry(kept, subs, report, k));
            assert(kept_indices(next)[k] == i);
            assert(next[i] == report[i]);
        } else {
            assert(kept_indices(next)[k] == j);
        }
    }
}

/// `items` in reverse order, so that popping yields them first to last.
fn reversed(items: Vec<Subscriber>) -> (r: Vec<Subscriber>)
    ensures
        r@.len() == items@.len(),
        forall|k: int| 0 <= k < r@.len() ==> #[trigger] r@[k] == items@[items@.len() - 1 - k],
{
    let ghost all = items@;
    let n = items.len();
    let mut pending = items;
    let mut stack: Vec<Subscriber> = Vec::new();
    while pending.len() > 0
        invariant
            n == all.len(),
            pending@ =~= all.take(pending@.len() as int),
            stack@.len() + pending@.len() == n,
            forall|k: int| 0 <= k < stack@.len() ==> #[trigger] stack@[k] == all[n - 1 - k],
        decreases pending@.len(),
    {
        match pending.pop() {
            Some(s) => stack.push(s),
            None => {},
        }
    }
    stack
}

impl View for Registry {
    /// The ids of the registered subscribers, in order.
    type V = Seq<u64>;

    closed spec fn view(&self) -> Seq<u64> {
        self.subscribers@.map_values(|s: Subscriber| s.id)
    }
}

impl Registry {
    /// The id that the next subscriber gets.
    pub closed spec fn next_id(&self) -> u64 {
        self.next_id
    }

    /// The sending sides of the registered queues, in the order of `self@`.
    pub closed spec fn queues(&self) -> Seq<Sender<ChatMessage>> {
        self.subscribers@.map_values(|s: Subscriber| s.queue)
    }

    /// Ids are distinct and all below the next one to hand out, and each has
    /// one queue, of the standard bound.
    pub open spec fn well_formed(&self) -> bool {
        &&& self@.no_duplicates()
        &&& forall|i: int| 0 <= i < self@.len() ==> #[trigger] self@[i] < self.next_id()
        &&& self.queues().len() == self@.len()
        &&& forall|i: int|
            0 <= i < self.queues().len() ==> queue_bound(#[trigger] self.queues()[i])
                == QUEUE_CAPACITY
    }

    pub fn new() -> (r: Registry)
        ensures
            r.well_formed(),
            r@ == Seq::<u64>::empty(),
            r.next_id() == 0,
    {
        let r = Registry { subscribers: Vec::new(), next_id: 0 };
        assert(r@ =~= Seq::<u64>::empty());
        r
    }

    /// Opens a new subscription: a fresh, empty queue of `QUEUE_CAPACITY`
    /// messages, registered under the next id after the queues already there,
    /// whose receiving side is handed back. Refuses, changing nothing, only
    /// once every id has been handed out.
    pub fn subscribe(&mut self) -> (r: Option<Subscription>)
        requires
            old(self).well_formed(),
        ensures
            final(self).well_formed(),
            old(self).next_id() == u64::MAX ==> r.is_none() && final(self)@ == old(self)@
                && final(self).queues() == old(self).queues() && final(self).next_id() == old(
                self,
            ).next_id(),
            old(self).next_id() < u64::MAX ==> {
                &&& r.is_some()
                &&& r.unwrap().id == old(self).next_id()
                &&& final(self)@ == old(self)@.push(old(self).next_id())
                &&& final(self).next_id() == old(self).next_id() + 1
                &&& final(self).queues() == old(self).queues().push(final(self).queues().last())
                &&& accepted_log(final(self).queues().last()) == Seq::<
                    (Seq<char>, Seq<char>, Seq<char>),
                >::empty()
                &&& queue_bound(final(self).queues().last()) == QUEUE_CAPACITY
                &&& channel_of(final(self).queues().last()) == receiver_channel(
                    r.unwrap().receiver,
                )
            },
    {
        if self.next_id == u64::MAX {
            return None;
        }
        let id = self.next_id;
        let (queue, receiver) = bounded_queue(QUEUE_CAPACITY);
        let ghost before = self@;
        let ghost before_queues = self.queues();
        let ghost q = queue;
        self.subscribers.push(Subscriber { id, queue });
        self.next_id = id + 1;
        assert(self@ =~= before.push(id));
        assert(self.queues() =~= before_queues.push(q));
        assert(self@.no_duplicates()) by {
            assert forall|i: int, j: int| 0 <= i < self@.len() && 0 <= j < self@.len() && i != j
                implies self@[i] != self@[j] by {
                if i < before.len() && j < before.len() {
                    assert(before[i] != before[j]);
                } else if i < before.len() {
                    assert(before[i] < id);
                } else {
                    assert(before[j] < id);
                }
            }
        }
        assert forall|i: int| 0 <= i < self@.len() implies #[trigger] self@[i] < self.next_id() by {
            if i < before.len() {
                assert(before[i] < id);
            }
        }
        Some(Subscription { id, receiver })
    }

    /// Removes every subscriber whose queue refused the last message, given
    /// the queues' answers in order of registration, and reports each answer.
    pub fn prune(&mut self, accepted: &Vec<bool>) -> (report: Vec<Delivery>)
        requires
            old(self).well_formed(),
            accepted@.len() == old(self)@.len(),
        ensures
            final(self).well_formed(),
            final(self).next_id() == old(self).next_id(),
            report@.len() == old(self)@.len(),
            forall|i: int|
                0 <= i < report@.len() ==> #[trigger] report@[i] == (Delivery {
                    subscriber: old(self)@[i],
                    delivered: accepted@[i],
                }),
            attempted(report@) == old(self)@,
            final(self)@ == survivors(report@),
            queues_kept(old(self).queues(), final(self).queues(), report@),
    {
        let mut pending: Vec<Subscriber> = Vec::new();
        std::mem::swap(&mut pending, &mut self.subscribers);
        let ghost subs = pending@;
        let ghost ids = old(self)@;
        let n = pending.len();
        let mut stack = reversed(pending);
        let mut report: Vec<Delivery> = Vec::new();
        let mut kept: Vec<Subscriber> = Vec::new();
        while stack.len() > 0
            invariant
                n == subs.len(),
                accepted@.len() == n,
                ids == subs.map_values(|s: Subscriber| s.id),
                report@.len() + stack@.len() == n,
                forall|k: int| 0 <= k < stack@.len() ==> #[trigger] stack@[k] == subs[n - 1 - k],
                forall|i: int|
                    0 <= i < report@.len() ==> #[trigger] report@[i] == (Delivery {
                        subscriber: ids[i],
                        delivered: accepted@[i],
                    }),
                kept@.map_values(|s: Subscriber| s.id) =~= survivors(report@),
                kept_from(kept@, subs, report@),
            decreases stack@.len(),
        {
            let ghost j = report@.len() as int;
            let ghost before = report@;
            let s = stack.pop().unwrap();
            assert(s == subs[j]);
            let d = accepted[report.len()];
            report.push(Delivery { subscriber: s.id, delivered: d });
            assert(report@.drop_last() =~= before);
            let ghost kept_before = kept@;
            if d {
                kept.push(s);
            }
            proof {
                lemma_kept_step(kept_before, kept@, subs, before, report@, s, d);
            }
        }
        proof {
            assert(attempted(report@) =~= ids);
            lemma_survivors_distinct(report@);
            assert forall|i: int| 0 <= i < survivors(report@).len() implies #[trigger] survivors(
                report@,
            )[i] < self.next_id by {
                let x = survivors(report@)[i];
                assert(survivors(report@).contains(x));
                lemma_survivors_attempted(report@, x);
            }
        }
        self.subscribers = kept;
        proof {
            let after = self.queues();
            assert(after.len() == kept@.len());
            assert forall|k: int| 0 <= k < after.len() implies queue_bound(#[trigger] after[k])
                == QUEUE_CAPACITY by {
                assert(kept_entry(kept@, subs, report@, k));
                assert(after[k] == kept@[k].queue);
                let i = kept_indices(report@)[k];
                assert(old(self).queues()[i] == subs[i].queue);
            }
            assert forall|k: int| 0 <= k < after.len() implies #[trigger] queue_kept(
                old(self).queues(),
                after,
                report@,
                k,
            ) by {
                assert(kept_entry(kept@, subs, report@, k));
                assert(after[k] == kept@[k].queue);
            }
        }
        report
    }

    /// Offers a copy of `message` once to every registered subscriber, without
    /// waiting on any of them, then removes those whose queue refused it (full,
    /// or its receiver gone). Reports each answer in order of registration.
    pub fn publish(&mut self, message: &ChatMessage) -> (report: Vec<Delivery>)
        requires
            old(self).well_formed(),
        ensures
            final(self).well_formed(),
            final(self).next_id() == old(self).next_id(),
            attempted(report@) == old(self)@,
            final(self)@ == survivors(report@),
            queues_delivered(old(self).queues(), final(self).queues(), report@, message@),
    {
        let mut pending: Vec<Subscriber> = Vec::new();
        std::mem::swap(&mut pending, &mut self.subscribers);
        let ghost subs = pending@;
        let n = pending.len();
        let mut stack = reversed(pending);
        let mut offered: Vec<Subscriber> = Vec::new();
        let mut answers: Vec<bool> = Vec::new();
        while stack.len() > 0
            invariant
                n == subs.len(),
                offered@.len() == answers@.len(),
                offered@.len() + stack@.len() == n,
                forall|k: int| 0 <= k < stack@.len() ==> #[trigger] stack@[k] == subs[n - 1 - k],
                forall|k: int|
                    0 <= k < offered@.len() ==> {
                        &&& (#[trigger] offered@[k]).id == subs[k].id
                        &&& queue_bound(offered@[k].queue) == queue_bound(subs[k].queue)
                        &&& channel_of(offered@[k].queue) == channel_of(subs[k].queue)
                        &&& accepted_log(offered@[k].queue) == if answers@[k] {
                            accepted_log(subs[k].queue).push(message@)
                        } else {
                            accepted_log(subs[k].queue)
                        }
                    },
            decreases stack@.len(),
        {
            let ghost j = offered@.len() as int;
            match stack.pop() {
                Some(s) => {
                    assert(s == subs[j]);
                    let mut s = s;
                    let accepted = try_enqueue(&mut s.queue, message.duplicate());
                    offered.push(s);
                    answers.push(accepted);
                },
                None => {},
            }
        }
        let ghost offered_subs = offered@;
        self.subscribers = offered;
        proof {
            assert(self@ =~= old(self)@);
            assert forall|i: int| 0 <= i < self.queues().len() implies queue_bound(
                #[trigger] self.queues()[i],
            ) == QUEUE_CAPACITY by {
                assert(self.queues()[i] == offered_subs[i].queue);
                assert(old(self).queues()[i] == subs[i].queue);
            }
        }
        let ghost middle = self.queues();
        let report = self.prune(&answers);
        proof {
            let after = self.queues();
            assert forall|k: int| 0 <= k < after.len() implies #[trigger] queue_delivered(
                old(self).queues(),
                after,
                report@,
                message@,
                k,
            ) by {
                assert(queue_kept(middle, after, report@, k));
                let i = kept_indices(report@)[k];
                assert(middle[i] == offered_subs[i].queue);
                assert(old(self).queues()[i] == subs[i].queue);
                assert(report@[i] == (Delivery { subscriber: old(self)@[i], delivered: answers@[i] }));
            }
        }
        report
    }

    /// The ids of the registered subscribers, in order of subscribing.
    pub fn subscriber_ids(&self) -> (r: Vec<u64>)
        ensures
            r@ == self@,
    {
        let n = self.subscribers.len();
        let mut out: Vec<u64> = Vec::new();
        let mut i: usize = 0;
        while i < n
            invariant
                n == self.subscribers@.len(),
                0 <= i <= n,
                out@ =~= self@.take(i as int),
            decreases n - i,
        {
            out.push(self.subscribers[i].id);
            i = i + 1;
        }
        assert(self@.take(n as int) =~= self@);
        out
    }

    /// The number of registered subscribers.
    pub fn len(&self) -> (r: usize)
        ensures
            r == self@.len(),
    {
        self.subscribers.len()
    }
}

} // verus!
