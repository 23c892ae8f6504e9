use vstd::prelude::*;
use rand::rngs::SmallRng;
use crate::message::{Message, MessageView};
use crate::rng::{draw_range, toss, Coin};
use crate::types::NodeId;

verus! {

/// A message in flight and the tick at which it is delivered.
#[derive(Debug)]
pub struct ScheduledMessage {
    pub delivery_tick: u64,
    pub msg: Message,
}

impl View for ScheduledMessage {
    type V = (u64, MessageView);

    open spec fn view(&self) -> (u64, MessageView) {
        (self.delivery_tick, self.msg@)
    }
}

/// Delivery ticks never decrease along the queue.
pub open spec fn sorted_by_tick(q: Seq<(u64, MessageView)>) -> bool {
    forall|i: int, j: int| 0 <= i <= j < q.len() ==> q[i].0 <= q[j].0
}

/// Where a message due at tick `t` joins the queue: after every message due no later.
pub open spec fn slot(q: Seq<(u64, MessageView)>, t: u64) -> int
    decreases q.len(),
{
    if q.len() == 0 {
        0
    } else if q.last().0 <= t {
        q.len() as int
    } else {
        slot(q.drop_last(), t)
    }
}

/// The queue with `m` scheduled for tick `t`.
pub open spec fn schedule(q: Seq<(u64, MessageView)>, t: u64, m: MessageView) -> Seq<(u64, MessageView)> {
    q.insert(slot(q, t), (t, m))
}

/// The number of leading messages due by tick `now`.
pub open spec fn due_count(q: Seq<(u64, MessageView)>, now: u64) -> int
    decreases q.len(),
{
    if q.len() == 0 || q[0].0 > now {
        0
    } else {
        1 + due_count(q.drop_first(), now)
    }
}

pub open spec fn queue_view(q: Seq<ScheduledMessage>) -> Seq<(u64, MessageView)> {
    q.map_values(|s: ScheduledMessage| s@)
}

pub proof fn lemma_slot_bounds(q: Seq<(u64, MessageView)>, t: u64)
    ensures
        0 <= slot(q, t) <= q.len(),
        forall|i: int| slot(q, t) <= i < q.len() ==> q[i].0 > t,
        sorted_by_tick(q) ==> forall|i: int| 0 <= i < slot(q, t) ==> q[i].0 <= t,
    decreases q.len(),
{
    if q.len() > 0 && q.last().0 > t {
        lemma_slot_bounds(q.drop_last(), t);
        assert forall|i: int| slot(q, t) <= i < q.len() implies q[i].0 > t by {
            if i < q.len() - 1 {
                assert(q[i] == q.drop_last()[i]);
            }
        }
        if sorted_by_tick(q) {
            assert(sorted_by_tick(q.drop_last()));
            assert forall|i: int| 0 <= i < slot(q, t) implies q[i].0 <= t by {
                assert(q[i] == q.drop_last()[i]);
            }
        }
    } else if q.len() > 0 {
        if sorted_by_tick(q) {
            assert forall|i: int| 0 <= i < slot(q, t) implies q[i].0 <= t by {
                assert(q[i].0 <= q[q.len() - 1].0);
            }
        }
    }
}

/// Scheduling keeps the queue ordered by delivery tick.
pub proof fn lemma_schedule_sorted(q: Seq<(u64, MessageView)>, t: u64, m: MessageView)
    requires
        sorted_by_tick(q),
    ensures
        sorted_by_tick(schedule(q, t, m)),
        schedule(q, t, m).len() == q.len() + 1,
{
    lemma_slot_bounds(q, t);
    let p = slot(q, t);
    let r = schedule(q, t, m);
    assert forall|i: int, j: int| 0 <= i <= j < r.len() implies r[i].0 <= r[j].0 by {
        if i < p && j < p {
            assert(r[i] == q[i] && r[j] == q[j]);
        } else if i < p && j == p {
            assert(r[i] == q[i]);
        } else if i < p {
            assert(r[i] == q[i] && r[j] == q[j - 1]);
        } else if i == p && j > p {
            assert(r[j] == q[j - 1]);
        } else if i > p {
            assert(r[i] == q[i - 1] && r[j] == q[j - 1]);
        }
    }
}

/// The leading messages due by `now` are all of the queue's messages due by
/// then, when the queue is ordered.
pub proof fn lemma_due_count(q: Seq<(u64, MessageView)>, now: u64)
    ensures
        0 <= due_count(q, now) <= q.len(),
        forall|i: int| 0 <= i < due_count(q, now) ==> q[i].0 <= now,
        due_count(q, now) < q.len() ==> q[due_count(q, now)].0 > now,
        sorted_by_tick(q) ==> forall|i: int| due_count(q, now) <= i < q.len() ==> q[i].0 > now,
    decreases q.len(),
{
    if q.len() > 0 && q[0].0 <= now {
        let d = q.drop_first();
        lemma_due_count(d, now);
        assert forall|i: int| 0 <= i < due_count(q, now) implies q[i].0 <= now by {
            if i > 0 {
                assert(q[i] == d[i - 1]);
            }
        }
        if due_count(q, now) < q.len() {
            assert(q[due_count(q, now)] == d[due_count(d, now)]);
        }
        if sorted_by_tick(q) {
            assert(sorted_by_tick(d));
            assert forall|i: int| due_count(q, now) <= i < q.len() implies q[i].0 > now by {
                assert(q[i] == d[i - 1]);
            }
        }
    } else if q.len() > 0 && sorted_by_tick(q) {
        assert forall|i: int| 0 <= i < q.len() implies q[i].0 > now by {
            assert(q[0].0 <= q[i].0);
        }
    }
}

/// The messages in flight, ordered by delivery tick (ties in the order sent).
pub struct InFlight {
    items: Vec<ScheduledMessage>,
}

impl InFlight {
    #[verifier::type_invariant]
    spec fn ordered(&self) -> bool {
        sorted_by_tick(queue_view(self.items@))
    }

    pub closed spec fn queue(&self) -> Seq<(u64, MessageView)> {
        queue_view(self.items@)
    }

    pub fn new() -> (r: InFlight)
        ensures
            r.queue() == Seq::<(u64, MessageView)>::empty(),
    {
        let r = InFlight { items: Vec::new() };
        assert(r.queue() =~= Seq::<(u64, MessageView)>::empty());
        r
    }

    /// Schedules `msg` for delivery at `tick`, after everything due no later.
    pub fn enqueue(&mut self, tick: u64, msg: Message)
        ensures
            final(self).queue() == schedule(old(self).queue(), tick, msg@),
            sorted_by_tick(final(self).queue()),
    {
        proof {
            use_type_invariant(&*self);
        }
        let ghost q = self.queue();
        let mut i: usize = self.items.len();
        assert(q.take(q.len() as int) =~= q);
        while i > 0 && self.items[i - 1].delivery_tick > tick
            invariant
                q == queue_view(self.items@),
                i <= q.len(),
                slot(q, tick) == slot(q.take(i as int), tick),
            decreases i,
        {
            proof {
                assert(q.take(i as int).drop_last() =~= q.take(i - 1));
                assert(q.take(i as int).last() == q[i - 1]);
            }
            i = i - 1;
        }
        proof {
            if i > 0 {
                assert(q.take(i as int).last() == q[i - 1]);
            }
            assert(slot(q, tick) == i);
            lemma_schedule_sorted(q, tick, msg@);
        }
        let ghost mv = msg@;
        let mut items: Vec<ScheduledMessage> = Vec::new();
        std::mem::swap(&mut items, &mut self.items);
        items.insert(i, ScheduledMessage { delivery_tick: tick, msg });
        assert(queue_view(items@) =~= q.insert(i as int, (tick, mv)));
        self.items = items;
    }

    /// Takes out every message due by `now`, in delivery order.
    pub fn drain_due(&mut self, now: u64) -> (due: Vec<Message>)
        ensures
            msgs_view(due@) == old(self).queue().take(due_count(old(self).queue(), now)).map_values(
                |s: (u64, MessageView)| s.1,
            ),
            final(self).queue() == old(self).queue().skip(due_count(old(self).queue(), now)),
            forall|i: int| 0 <= i < final(self).queue().len() ==> final(self).queue()[i].0 > now,
            sorted_by_tick(old(self).queue()),
            forall|i: int| 0 <= i < due_count(old(self).queue(), now) ==> old(self).queue()[i].0 <= now,
    {
        proof {
            use_type_invariant(&*self);
            lemma_due_count(self.queue(), now);
        }
        let ghost q = self.queue();
        proof {
            lemma_due_count(q, now);
        }
        let mut k: usize = 0;
        assert(q.skip(0) =~= q);
        while k < self.items.len() && self.items[k].delivery_tick <= now
            invariant
                q == queue_view(self.items@),
                k <= q.len(),
                due_count(q, now) == k + due_count(q.skip(k as int), now),
            decreases q.len() - k,
        {
            proof {
                assert(q.skip(k as int)[0] == q[k as int]);
                assert(q.skip(k as int).drop_first() =~= q.skip(k + 1));
            }
            k = k + 1;
        }
        proof {
            if k < q.len() {
                assert(q.skip(k as int)[0] == q[k as int]);
            }
            assert(due_count(q, now) == k);
        }
        let mut front: Vec<ScheduledMessage> = Vec::new();
        std::mem::swap(&mut front, &mut self.items);
        let rest = front.split_off(k);
        proof {
            assert(queue_view(rest@) =~= q.skip(k as int));
            assert forall|i: int, j: int| 0 <= i <= j < queue_view(rest@).len() implies queue_view(
                rest@,
            )[i].0 <= queue_view(rest@)[j].0 by {
                assert(queue_view(rest@)[i] == q[i + k] && queue_view(rest@)[j] == q[j + k]);
            }
        }
        self.items = rest;
        let mut due: Vec<Message> = Vec::new();
        let mut i: usize = 0;
        let ghost fq = queue_view(front@);
        assert(fq =~= q.take(k as int));
        while i < front.len()
            invariant
                i <= front@.len(),
                fq == queue_view(front@),
                msgs_view(due@) == fq.take(i as int).map_values(|s: (u64, MessageView)| s.1),
            decreases front@.len() - i,
        {
            let m = front[i].msg.clone();
            assert(fq[i as int] == front@[i as int]@);
            let ghost before = due@;
            due.push(m);
            proof {
                assert(due@ == before.push(m));
                assert(msgs_view(due@) =~= msgs_view(before).push(m@));
                assert(fq.take(i + 1).map_values(|s: (u64, MessageView)| s.1) =~= fq.take(
                    i as int,
                ).map_values(|s: (u64, MessageView)| s.1).push(fq[i as int].1));
            }
            i = i + 1;
        }
        proof {
            assert(fq.take(front@.len() as int) =~= fq);
        }
        due
    }
}

/// A simulated network: messages wait in flight until their delivery tick,
/// directed links can be cut, and each send may be dropped, delayed or duplicated.
pub struct SimNetwork {
    in_flight: InFlight,
    partitions: Vec<(u64, u64)>,
    pub drop_rate: Coin,
    pub duplicate_rate: Coin,
    pub max_delay_ticks: u64,
}

impl SimNetwork {
    /// The messages in flight, in delivery order.
    pub closed spec fn queue(&self) -> Seq<(u64, MessageView)> {
        self.in_flight.queue()
    }

    /// The cut directed links.
    pub closed spec fn cut_links(&self) -> Set<(u64, u64)> {
        self.partitions@.to_set()
    }

    /// The coin that decides whether a send is lost.
    pub closed spec fn loss_coin(&self) -> Coin {
        self.drop_rate
    }

    /// The coin that decides whether a send is duplicated.
    pub closed spec fn duplication_coin(&self) -> Coin {
        self.duplicate_rate
    }

    /// The largest delay a send may draw.
    pub closed spec fn max_delay(&self) -> u64 {
        self.max_delay_ticks
    }

    /// The largest delay a send may draw.
    pub fn max_delay_ticks(&self) -> (r: u64)
        ensures
            r == self.max_delay(),
    {
        self.max_delay_ticks
    }

    /// A network with nothing in flight, no cut links, no loss or duplication,
    /// and delays of up to 3 ticks.
    pub fn new() -> (r: SimNetwork)
        ensures
            r.queue() == Seq::<(u64, MessageView)>::empty(),
            r.cut_links() == Set::<(u64, u64)>::empty(),
            r.max_delay() == 3,
            r.loss_coin().is_never(),
            r.duplication_coin().is_never(),
    {
        let r = SimNetwork {
            in_flight: InFlight::new(),
            partitions: Vec::new(),
            drop_rate: Coin::never(),
            duplicate_rate: Coin::never(),
            max_delay_ticks: 3,
        };
        assert(r.cut_links() =~= Set::<(u64, u64)>::empty());
        r
    }

    fn is_cut(&self, from: u64, to: u64) -> (r: bool)
        ensures
            r == self.cut_links().contains((from, to)),
    {
        let mut i: usize = 0;
        while i < self.partitions.len()
            invariant
                i <= self.partitions@.len(),
                forall|j: int| 0 <= j < i ==> self.partitions@[j] != (from, to),
            decreases self.partitions@.len() - i,
        {
            let (a, b) = self.partitions[i];
            if a == from && b == to {
                assert(self.partitions@.to_set().contains(self.partitions@[i as int]));
                return true;
            }
            i = i + 1;
        }
        assert(!self.partitions@.contains((from, to)));
        false
    }

    /// Cuts the link from `from` to `to`: messages sent along it are lost.
    pub fn partition(&mut self, from: NodeId, to: NodeId)
        ensures
            final(self).cut_links() == old(self).cut_links().insert((from.0, to.0)),
            final(self).queue() == old(self).queue(),
            final(self).max_delay() == old(self).max_delay(),
            final(self).loss_coin() == old(self).loss_coin(),
            final(self).duplication_coin() == old(self).duplication_coin(),
    {
        if !self.is_cut(from.0, to.0) {
            self.partitions.push((from.0, to.0));
            assert(self.partitions@.to_set() =~= old(self).partitions@.to_set().insert((from.0, to.0)))
                by {
                assert forall|x: (u64, u64)| #[trigger] self.partitions@.contains(x) <==> (old(
                    self,
                ).partitions@.contains(x) || x == (from.0, to.0)) by {
                    if self.partitions@.contains(x) {
                        let j = choose|j: int|
                            0 <= j < self.partitions@.len() && self.partitions@[j] == x;
                        if j < old(self).partitions@.len() {
                            assert(old(self).partitions@[j] == x);
                        }
                    }
                    if old(self).partitions@.contains(x) {
                        let j = choose|j: int|
                            0 <= j < old(self).partitions@.len() && old(self).partitions@[j] == x;
                        assert(self.partitions@[j] == x);
                    }
                    if x == (from.0, to.0) {
                        assert(self.partitions@[self.partitions@.len() - 1] == x);
                    }
                }
            }
        } else {
            assert(old(self).cut_links().insert((from.0, to.0)) =~= old(self).cut_links());
        }
    }

    /// Restores every cut link.
    pub fn heal_all(&mut self)
        ensures
            final(self).cut_links() == Set::<(u64, u64)>::empty(),
            final(self).queue() == old(self).queue(),
            final(self).max_delay() == old(self).max_delay(),
            final(self).loss_coin() == old(self).loss_coin(),
            final(self).duplication_coin() == old(self).duplication_coin(),
    {
        self.partitions.clear();
        assert(self.partitions@.to_set() =~= Set::<(u64, u64)>::empty());
    }

    /// Schedules a sent message given what was drawn for it: nothing happens on
    /// a cut link or when it was `lost`; otherwise it is delivered at
    /// `tick + delay`, and, when duplicated `dup` ticks later, once more then.
    pub fn schedule_send(&mut self, msg: Message, tick: u64, lost: bool, delay: u64, dup: Option<u64>)
        requires
            tick + delay + 3 <= u64::MAX,
            dup matches Some(e) ==> e <= 3,
        ensures
            final(self).queue() == sent_queue(
                old(self).queue(),
                old(self).cut_links().contains((msg@.from, msg@.to)),
                msg@,
                tick,
                lost,
                delay,
                dup,
            ),
            final(self).cut_links() == old(self).cut_links(),
            final(self).max_delay() == old(self).max_delay(),
            final(self).loss_coin() == old(self).loss_coin(),
            final(self).duplication_coin() == old(self).duplication_coin(),
    {
        if self.is_cut(msg.from.0, msg.to.0) || lost {
            return;
        }
        let copy = msg.clone();
        self.in_flight.enqueue(tick + delay, copy);
        match dup {
            Some(e) => {
                self.in_flight.enqueue(tick + delay + e, msg);
            },
            None => {},
        }
    }

    /// Sends a message: lost on a cut link or by a toss of the loss coin;
    /// otherwise delivered after a random delay of at most `max_delay_ticks`,
    /// and, on a toss of the duplication coin, once more 1 to 3 ticks later.
    pub fn send(&mut self, msg: Message, current_tick: u64, rng: &mut SmallRng)
        requires
            current_tick + old(self).max_delay() + 3 <= u64::MAX,
        ensures
            final(self).cut_links() == old(self).cut_links(),
            final(self).max_delay() == old(self).max_delay(),
            final(self).loss_coin() == old(self).loss_coin(),
            final(self).duplication_coin() == old(self).duplication_coin(),
            exists|lost: bool, delay: u64, dup: Option<u64>|
                draws_ok(*old(self), lost, delay, dup) && final(self).queue() == #[trigger] sent_queue(
                    old(self).queue(),
                    old(self).cut_links().contains((msg@.from, msg@.to)),
                    msg@,
                    current_tick,
                    lost,
                    delay,
                    dup,
                ),
    {
        if self.is_cut(msg.from.0, msg.to.0) {
            proof {
                assert(self.queue() == sent_queue(
                    old(self).queue(),
                    old(self).cut_links().contains((msg@.from, msg@.to)),
                    msg@,
                    current_tick,
                    false,
                    0,
                    None,
                ));
            }
            return;
        }
        let lost = toss(rng, &self.drop_rate);
        let mut delay: u64 = 0;
        let mut dup: Option<u64> = None;
        if !lost {
            if self.max_delay_ticks != 0 {
                delay = draw_range(rng, 0, self.max_delay_ticks);
            }
            if toss(rng, &self.duplicate_rate) {
                dup = Some(draw_range(rng, 1, 3));
            }
        }
        self.schedule_send(msg, current_tick, lost, delay, dup);
    }

    /// Takes out every message due by `current_tick`, in delivery order.
    pub fn drain_due(&mut self, current_tick: u64) -> (due: Vec<Message>)
        ensures
            msgs_view(due@) == old(self).queue().take(due_count(old(self).queue(), current_tick)).map_values(
                |s: (u64, MessageView)| s.1,
            ),
            final(self).queue() == old(self).queue().skip(due_count(old(self).queue(), current_tick)),
            forall|i: int| 0 <= i < final(self).queue().len() ==> final(self).queue()[i].0 > current_tick,
            sorted_by_tick(old(self).queue()),
            forall|i: int|
                0 <= i < due_count(old(self).queue(), current_tick) ==> old(self).queue()[i].0 <= current_tick,
            final(self).cut_links() == old(self).cut_links(),
            final(self).max_delay() == old(self).max_delay(),
            final(self).loss_coin() == old(self).loss_coin(),
            final(self).duplication_coin() == old(self).duplication_coin(),
    {
        self.in_flight.drain_due(current_tick)
    }
}

/// What a send on `net` may draw: a delay of at most the network's largest,
/// a duplicate 1 to 3 ticks later, and neither a loss nor a duplicate from a
/// coin that never comes up true.
pub open spec fn draws_ok(net: SimNetwork, lost: bool, delay: u64, dup: Option<u64>) -> bool {
    &&& delay <= net.max_delay()
    &&& (dup matches Some(e) ==> 1 <= e <= 3)
    &&& (net.loss_coin().is_never() ==> !lost)
    &&& (net.duplication_coin().is_never() ==> dup is None)
}

/// Sending `msgs` in turn at `tick` on `net`, each with draws the network
/// admits, can take the in-flight queue from `q0` to `q1`.
pub open spec fn sends_run(
    net: SimNetwork,
    tick: u64,
    q0: Seq<(u64, MessageView)>,
    msgs: Seq<MessageView>,
    q1: Seq<(u64, MessageView)>,
) -> bool
    decreases msgs.len(),
{
    if msgs.len() == 0 {
        q1 == q0
    } else {
        let m = msgs.last();
        exists|q: Seq<(u64, MessageView)>, lost: bool, delay: u64, dup: Option<u64>|
            sends_run(net, tick, q0, msgs.drop_last(), q) && draws_ok(net, lost, delay, dup) && q1
                == #[trigger] sent_queue(
                q,
                net.cut_links().contains((m.from, m.to)),
                m,
                tick,
                lost,
                delay,
                dup,
            )
    }
}

/// The queue once a message is sent, given what was drawn for it: unchanged
/// on a cut link or when lost; otherwise the message is scheduled at
/// `tick + delay`, and, when duplicated `dup` ticks later, once more then.
pub open spec fn sent_queue(
    q: Seq<(u64, MessageView)>,
    cut: bool,
    msg: MessageView,
    tick: u64,
    lost: bool,
    delay: u64,
    dup: Option<u64>,
) -> Seq<(u64, MessageView)> {
    if cut || lost {
        q
    } else {
        let q1 = schedule(q, (tick + delay) as u64, msg);
        match dup {
            Some(e) => schedule(q1, (tick + delay + e) as u64, msg),
            None => q1,
        }
    }
}

/// The views of a sequence of messages.
pub open spec fn msgs_view(s: Seq<Message>) -> Seq<MessageView> {
    s.map_values(|m: Message| m@)
}

} // verus!
