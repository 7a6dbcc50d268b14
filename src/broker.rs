//! Bounded broadcast of committed events to live subscribers.
use vstd::prelude::*;

use crate::event::{EventView, RecordedEvent};

verus! {

/// What a subscriber receives from the broker.
#[derive(Debug)]
pub enum Delivery {
    /// The next committed event.
    Event(RecordedEvent),
    /// Events were dropped because the subscriber fell behind.
    Lagged,
}

struct Subscriber {
    id: u64,
    queue: Vec<RecordedEvent>,
    lagged: bool,
}

/// The state of one subscriber's buffer.
pub struct SubscriberView {
    pub id: u64,
    pub queue: Seq<EventView>,
    pub lagged: bool,
}

/// The state of a broker.
pub struct BrokerView {
    pub capacity: nat,
    pub next_id: u64,
    pub subscribers: Seq<SubscriberView>,
}

/// The buffer of one subscriber after `e` is published: the oldest event
/// leaves a full buffer, and the subscriber is then marked lagged.
pub open spec fn enqueue(s: SubscriberView, e: EventView, capacity: nat) -> SubscriberView {
    let q = s.queue.push(e);
    if q.len() > capacity {
        SubscriberView { id: s.id, queue: q.subrange(1, q.len() as int), lagged: true }
    } else {
        SubscriberView { id: s.id, queue: q, lagged: s.lagged }
    }
}

/// The broker after `e` is published to every subscriber.
pub open spec fn publish_spec(b: BrokerView, e: EventView) -> BrokerView {
    BrokerView {
        capacity: b.capacity,
        next_id: b.next_id,
        subscribers: b.subscribers.map_values(|s: SubscriberView| enqueue(s, e, b.capacity)),
    }
}

/// The broker after each of `es` is published, in order.
pub open spec fn publish_all(b: BrokerView, es: Seq<EventView>) -> BrokerView
    decreases es.len(),
{
    if es.len() == 0 {
        b
    } else {
        publish_spec(publish_all(b, es.drop_last()), es[es.len() - 1])
    }
}

/// Fans committed events out to subscribers, each with a buffer of
/// `capacity` events.
pub struct Broker {
    capacity: usize,
    next_id: u64,
    subscribers: Vec<Subscriber>,
}

impl Subscriber {
    spec fn view(&self) -> SubscriberView {
        SubscriberView {
            id: self.id,
            queue: self.queue@.map_values(|e: RecordedEvent| e@),
            lagged: self.lagged,
        }
    }
}

impl View for Broker {
    type V = BrokerView;

    closed spec fn view(&self) -> BrokerView {
        BrokerView {
            capacity: self.capacity as nat,
            next_id: self.next_id,
            subscribers: self.subscribers@.map_values(|s: Subscriber| s.view()),
        }
    }
}

impl Broker {
    /// A broker without subscribers whose buffers hold `capacity` events.
    pub fn new(capacity: usize) -> (r: Broker)
        ensures
            r@.capacity == capacity,
            r@.next_id == 0,
            r@.subscribers == Seq::<SubscriberView>::empty(),
            r@.wf(),
    {
        let r = Broker { capacity, next_id: 0, subscribers: Vec::new() };
        assert(r@.subscribers =~= Seq::<SubscriberView>::empty());
        r
    }

    /// Register a subscriber that receives the events published from now on;
    /// `None` once every identifier has been handed out.
    pub fn subscribe(&mut self) -> (r: Option<u64>)
        requires
            old(self)@.wf(),
        ensures
            final(self)@.wf(),
            old(self)@.next_id == u64::MAX ==> r is None && final(self)@ == old(self)@,
            old(self)@.next_id < u64::MAX ==> r == Some(old(self)@.next_id) && final(self)@
                == (BrokerView {
                capacity: old(self)@.capacity,
                next_id: (old(self)@.next_id + 1) as u64,
                subscribers: old(self)@.subscribers.push(
                    SubscriberView { id: old(self)@.next_id, queue: Seq::empty(), lagged: false },
                ),
            }),
    {
        if self.next_id == u64::MAX {
            return None;
        }
        let id = self.next_id;
        self.subscribers.push(Subscriber { id, queue: Vec::new(), lagged: false });
        self.next_id = id + 1;
        let ghost s = SubscriberView { id, queue: Seq::empty(), lagged: false };
        assert(self@.subscribers[self@.subscribers.len() - 1].queue =~= s.queue);
        assert(self@.subscribers =~= old(self)@.subscribers.push(s));
        Some(id)
    }

    /// Publish `e` to every subscriber.
    pub fn publish(&mut self, e: &RecordedEvent)
        requires
            old(self)@.wf(),
        ensures
            final(self)@.wf(),
            final(self)@ == publish_spec(old(self)@, e@),
    {
        let ghost b = self@;
        let n = self.subscribers.len();
        let mut i: usize = 0;
        while i < n
            invariant
                i <= n,
                n == self.subscribers@.len(),
                self.capacity == b.capacity,
                self.next_id == b.next_id,
                n == b.subscribers.len(),
                forall|j: int|
                    0 <= j < n ==> #[trigger] self.subscribers@[j].view() == if j < i {
                        enqueue(b.subscribers[j], e@, b.capacity)
                    } else {
                        b.subscribers[j]
                    },
            decreases n - i,
        {
            let ghost before = self.subscribers@;
            let mut s = self.subscribers.remove(i);
            let ghost sv = s.view();
            s.queue.push(e.copy());
            if s.queue.len() > self.capacity {
                s.queue.remove(0);
                s.lagged = true;
            }
            assert(s.view().queue =~= enqueue(sv, e@, b.capacity).queue);
            self.subscribers.insert(i, s);
            assert forall|j: int| 0 <= j < n implies #[trigger] self.subscribers@[j].view() == if j
                < i + 1 {
                enqueue(b.subscribers[j], e@, b.capacity)
            } else {
                b.subscribers[j]
            } by {
                if j != i {
                    assert(self.subscribers@[j] == before[j]);
                }
            }
            i = i + 1;
        }
        assert(self@.subscribers =~= publish_spec(b, e@).subscribers);
    }

    fn find(&self, id: u64) -> (r: Option<usize>)
        ensures
            r matches Some(k) ==> k < self@.subscribers.len() && self@.subscribers[k as int].id
                == id,
            r is None ==> forall|k: int|
                0 <= k < self@.subscribers.len() ==> self@.subscribers[k].id != id,
    {
        let mut k: usize = 0;
        while k < self.subscribers.len()
            invariant
                k <= self.subscribers@.len(),
                forall|j: int| 0 <= j < k ==> self@.subscribers[j].id != id,
            decreases self.subscribers@.len() - k,
        {
            if self.subscribers[k].id == id {
                return Some(k);
            }
            k = k + 1;
        }
        None
    }

    /// Take the next delivery for subscriber `id`: first a pending lag
    /// marker, then the oldest buffered event; `None` when nothing is pending
    /// or `id` is not subscribed.
    pub fn receive(&mut self, id: u64) -> (r: Option<Delivery>)
        requires
            old(self)@.wf(),
        ensures
            final(self)@.wf(),
            final(self)@.capacity == old(self)@.capacity,
            final(self)@.next_id == old(self)@.next_id,
            final(self)@.subscribers.len() == old(self)@.subscribers.len(),
            forall|k: int|
                0 <= k < old(self)@.subscribers.len() && old(self)@.subscribers[k].id != id
                    ==> final(self)@.subscribers[k] == old(self)@.subscribers[k],
            !old(self)@.has(id) ==> r is None,
            forall|k: int|
                0 <= k < old(self)@.subscribers.len() && old(self)@.subscribers[k].id == id ==> {
                    let s = old(self)@.subscribers[k];
                    let t = final(self)@.subscribers[k];
                    if s.lagged {
                        r matches Some(Delivery::Lagged) && t == (SubscriberView {
                            lagged: false,
                            ..s
                        })
                    } else if s.queue.len() == 0 {
                        r is None && t == s
                    } else {
                        r matches Some(Delivery::Event(ev)) && ev@ == s.queue[0] && t == (
                        SubscriberView { queue: s.queue.subrange(1, s.queue.len() as int), ..s })
                    }
                },
    {
        let k = match self.find(id) {
            Some(k) => k,
            None => {
                return None;
            },
        };
        let ghost before = self.subscribers@;
        let mut sub = self.subscribers.remove(k);
        let ghost sv = sub.view();
        let r = if sub.lagged {
            sub.lagged = false;
            Some(Delivery::Lagged)
        } else if sub.queue.len() == 0 {
            None
        } else {
            let ev = sub.queue.remove(0);
            assert(sub.view().queue =~= sv.queue.subrange(1, sv.queue.len() as int));
            Some(Delivery::Event(ev))
        };
        self.subscribers.insert(k, sub);
        assert forall|j: int| 0 <= j < before.len() && j != k implies self.subscribers@[j]
            == before[j] by {}
        assert(self@.subscribers[k as int].id == id);
        assert forall|j: int| 0 <= j < before.len() implies #[trigger] self@.subscribers[j].id
            == old(self)@.subscribers[j].id by {
            if j != k {
                assert(self.subscribers@[j] == before[j]);
            }
        }
        r
    }

    /// Remove subscriber `id`, if it is subscribed.
    pub fn unsubscribe(&mut self, id: u64)
        requires
            old(self)@.wf(),
        ensures
            final(self)@.wf(),
            final(self)@.capacity == old(self)@.capacity,
            final(self)@.next_id == old(self)@.next_id,
            !old(self)@.has(id) ==> final(self)@ == old(self)@,
            forall|k: int|
                0 <= k < old(self)@.subscribers.len() && old(self)@.subscribers[k].id == id
                    ==> final(self)@.subscribers == old(self)@.subscribers.remove(k),
    {
        match self.find(id) {
            Some(k) => {
                self.subscribers.remove(k);
                assert(self@.subscribers =~= old(self)@.subscribers.remove(k as int));
            },
            None => {},
        }
    }
}

impl BrokerView {
    /// Subscriber identifiers are handed out in increasing order.
    pub open spec fn wf(self) -> bool {
        &&& self.ids_below_next()
        &&& forall|j: int, k: int|
            0 <= j < k < self.subscribers.len() ==> #[trigger] self.subscribers[j].id
                < #[trigger] self.subscribers[k].id
    }

    pub open spec fn ids_below_next(self) -> bool {
        forall|k: int| 0 <= k < self.subscribers.len() ==> #[trigger] self.subscribers[k].id < self.next_id
    }

    pub open spec fn has(self, id: u64) -> bool {
        exists|k: int| 0 <= k < self.subscribers.len() && self.subscribers[k].id == id
    }
}

} // verus!
