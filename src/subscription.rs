//! Subscriptions: catch up from the log up to a snapshot of its tail, then
//! follow the broker's live events past that snapshot, without gap or
//! duplicate.
use vstd::prelude::*;

use crate::broker::{Broker, Delivery};
use crate::error::Error;
use crate::event::{same_id, EventView, RecordedEvent};
use crate::index::positions_in;
use crate::writer::{views, Writer};

verus! {

/// What a subscriber is sent.
#[derive(Debug)]
pub enum SubscriptionMessage {
    /// A recorded event.
    Event(RecordedEvent),
    /// The catch-up phase is over; live events follow.
    CaughtUp,
}

/// A subscription to all events from a global position, or to one stream's
/// events from a stream version.
#[derive(Debug, Clone, Copy, PartialEq, Eq)]
pub struct Subscription {
    /// The first global position (all events) or stream version (one stream).
    pub from: u64,
    /// The stream followed, if only one.
    pub stream: Option<[u8; 16]>,
    /// The log's tail when the subscription started: the catch-up covers
    /// the positions below it, the live phase those from it on.
    pub tail: u64,
    /// The subscriber's identifier at the broker.
    pub receiver: u64,
}

/// Whether a live event is forwarded to subscription `s`.
pub open spec fn admits_spec(s: Subscription, e: EventView) -> bool {
    &&& e.global_position >= s.tail
    &&& match s.stream {
        None => e.global_position >= s.from,
        Some(sid) => e.stream_id == sid@ && e.stream_version >= s.from,
    }
}

/// The catch-up of a subscription to all events: the log from `from` up to
/// the snapshot `tail`.
pub open spec fn backfill_all(log: Seq<EventView>, from: u64, tail: u64) -> Seq<EventView> {
    let lo = if from < tail {
        from as int
    } else {
        tail as int
    };
    log.subrange(lo, tail as int)
}

/// `r` is the events of `evs`, then the catch-up marker.
pub open spec fn events_then_caught_up(r: Seq<SubscriptionMessage>, evs: Seq<EventView>) -> bool {
    &&& r.len() == evs.len() + 1
    &&& r[evs.len() as int] is CaughtUp
    &&& forall|j: int|
        0 <= j < evs.len() ==> (#[trigger] r[j] matches SubscriptionMessage::Event(e) && e@
            == evs[j])
}

impl Subscription {
    /// Register with the broker first, then take the log's tail as the
    /// snapshot, so that no event falls between catch-up and live phase.
    /// `None` when the broker has no identifier left.
    pub fn start(writer: &Writer, broker: &mut Broker, from: u64, stream: Option<[u8; 16]>) -> (r:
        Option<Subscription>)
        requires
            writer.wf(),
            old(broker)@.wf(),
        ensures
            final(broker)@.wf(),
            old(broker)@.next_id == u64::MAX ==> r is None && final(broker)@ == old(broker)@,
            old(broker)@.next_id < u64::MAX ==> (r matches Some(s) && s == (Subscription {
                from,
                stream,
                tail: writer@.log.len() as u64,
                receiver: old(broker)@.next_id,
            }) && final(broker)@.capacity == old(broker)@.capacity && final(broker)@.next_id
                == old(broker)@.next_id + 1 && final(broker)@.subscribers
                == old(broker)@.subscribers.push(
                crate::broker::SubscriberView {
                    id: old(broker)@.next_id,
                    queue: Seq::empty(),
                    lagged: false,
                },
            )),
    {
        let receiver = match broker.subscribe() {
            Some(id) => id,
            None => {
                return None;
            },
        };
        let tail = writer.head();
        Some(Subscription { from, stream, tail, receiver })
    }

    fn catch_up_all(writer: &Writer, from: u64, tail: u64) -> (r: Vec<SubscriptionMessage>)
        requires
            writer.wf(),
            tail <= writer@.log.len(),
        ensures
            events_then_caught_up(r@, backfill_all(writer@.log, from, tail)),
    {
        let mut out: Vec<SubscriptionMessage> = Vec::new();
        let lo = if from < tail {
            from
        } else {
            tail
        };
        let evs = writer.read_all(lo, tail - lo);
        let ghost want = backfill_all(writer@.log, from, tail);
        assert(views(evs@) =~= want);
        let n = evs.len();
        let mut j: usize = 0;
        while j < n
            invariant
                j <= n,
                n == evs@.len(),
                views(evs@) == want,
                out@.len() == j,
                forall|k: int|
                    0 <= k < j ==> (#[trigger] out@[k] matches SubscriptionMessage::Event(e) && e@
                        == want[k]),
            decreases n - j,
        {
            let e = evs[j].copy();
            assert(e@ == want[j as int]);
            out.push(SubscriptionMessage::Event(e));
            j = j + 1;
        }
        out.push(SubscriptionMessage::CaughtUp);
        out
    }

    #[verifier::rlimit(50)]
    fn catch_up_stream(writer: &Writer, sid: &[u8; 16], from: u64, tail: u64) -> (r: Vec<
        SubscriptionMessage,
    >)
        requires
            writer.wf(),
            tail <= writer@.log.len(),
        ensures
            ({
                let ps = positions_in(writer@.log, sid@);
                let lo = if from < ps.len() {
                    from as int
                } else {
                    ps.len() as int
                };
                let hi = lo + r@.len() - 1;
                &&& hi <= ps.len()
                &&& events_then_caught_up(
                    r@,
                    ps.subrange(lo, hi).map_values(|p: u64| writer@.log[p as int]),
                )
                &&& forall|v: int| lo <= v < hi ==> #[trigger] ps[v] < tail
                &&& hi < ps.len() ==> ps[hi] >= tail
            }),
    {
        let mut out: Vec<SubscriptionMessage> = Vec::new();
        let ps = writer.stream_positions(sid);
        let ghost log = writer@.log;
        let ghost lo_g = if from < ps@.len() {
            from as int
        } else {
            ps@.len() as int
        };
        let mut v: usize = if (from as u128) < (ps.len() as u128) {
            from as usize
        } else {
            ps.len()
        };
        while v < ps.len() && ps[v] < tail
            invariant
                lo_g <= v <= ps@.len(),
                ps@ == positions_in(log, sid@),
                log == writer@.log,
                writer.wf(),
                out@.len() == v - lo_g,
                forall|k: int| lo_g <= k < v ==> #[trigger] ps@[k] < tail,
                forall|k: int| 0 <= k < ps@.len() ==> (#[trigger] ps@[k] as int) < log.len(),
                forall|k: int|
                    0 <= k < v - lo_g ==> (#[trigger] out@[k] matches SubscriptionMessage::Event(e)
                        && e@ == log[ps@[lo_g + k] as int]),
            decreases ps@.len() - v,
        {
            let e = writer.event_at(ps[v]).copy();
            out.push(SubscriptionMessage::Event(e));
            v = v + 1;
        }
        let ghost hi = v as int;
        out.push(SubscriptionMessage::CaughtUp);
        let ghost m = ps@.subrange(lo_g, hi).map_values(|p: u64| log[p as int]);
        assert forall|k: int| 0 <= k < hi - lo_g implies #[trigger] m[k] == log[ps@[lo_g + k] as int] by {}
        out
    }

    /// The catch-up phase: the recorded events the subscription covers below
    /// its snapshot, in order, then the catch-up marker.
    pub fn catch_up(&self, writer: &Writer) -> (r: Vec<SubscriptionMessage>)
        requires
            writer.wf(),
            self.tail <= writer@.log.len(),
        ensures
            self.stream is None ==> events_then_caught_up(
                r@,
                backfill_all(writer@.log, self.from, self.tail),
            ),
            self.stream matches Some(sid) ==> {
                let ps = positions_in(writer@.log, sid@);
                let lo = if self.from < ps.len() {
                    self.from as int
                } else {
                    ps.len() as int
                };
                let hi = lo + r@.len() - 1;
                &&& hi <= ps.len()
                &&& events_then_caught_up(
                    r@,
                    ps.subrange(lo, hi).map_values(|p: u64| writer@.log[p as int]),
                )
                &&& forall|v: int| lo <= v < hi ==> #[trigger] ps[v] < self.tail
                &&& hi < ps.len() ==> ps[hi] >= self.tail
            },
            self.tail == 0 ==> r@.len() == 1 && r@[0] is CaughtUp,
    {
        match &self.stream {
            None => Self::catch_up_all(writer, self.from, self.tail),
            Some(sid) => {
                let r = Self::catch_up_stream(writer, sid, self.from, self.tail);
                proof {
                    if self.tail == 0 {
                        let ps = positions_in(writer@.log, sid@);
                        let lo = if self.from < ps.len() {
                            self.from as int
                        } else {
                            ps.len() as int
                        };
                        if r@.len() > 1 {
                            assert(ps[lo] < self.tail);
                        }
                    }
                }
                r
            },
        }
    }

    /// Whether a live event is forwarded: it lies past the snapshot, and at
    /// or after the subscription's start, in its stream if it follows one.
    pub fn admits(&self, e: &RecordedEvent) -> (r: bool)
        ensures
            r == admits_spec(*self, e@),
    {
        if e.global_position < self.tail {
            return false;
        }
        match &self.stream {
            None => e.global_position >= self.from,
            Some(sid) => {
                let same = same_id(&e.stream_id, sid);
                proof {
                    if e.stream_id@ == sid@ {
                        assert(e.stream_id =~= *sid);
                    }
                }
                same && e.stream_version >= self.from
            },
        }
    }

    /// Handle one delivery from the broker: forward an admitted event, skip
    /// another, and end the subscription with `DataLoss` when it lagged.
    pub fn on_delivery(&self, d: Delivery) -> (r: Result<Option<RecordedEvent>, Error>)
        ensures
            d is Lagged ==> r matches Err(Error::DataLoss(_)),
            d matches Delivery::Event(e) ==> if admits_spec(*self, e@) {
                r matches Ok(Some(f)) && f@ == e@
            } else {
                r matches Ok(None)
            },
    {
        match d {
            Delivery::Lagged => Err(Error::DataLoss("subscriber lagged behind the broker".to_string())),
            Delivery::Event(e) => {
                if self.admits(&e) {
                    Ok(Some(e))
                } else {
                    Ok(None)
                }
            },
        }
    }
}

/// Catch-up handoff: for a subscription to all events from `from` whose
/// snapshot is `tail`, an event below the snapshot is in the catch-up
/// exactly when it is at or after `from`, and a live event is forwarded
/// exactly when it is at or after both. Events published after the start
/// lie at or past the snapshot, so each position from `from` on reaches the
/// subscriber once, and none before `from`.
pub proof fn lemma_handoff(log: Seq<EventView>, from: u64, tail: u64, receiver: u64, g: int)
    requires
        crate::writer::log_ok(log),
        tail <= log.len(),
        0 <= g < log.len(),
    ensures
        g < tail ==> (backfill_all(log, from, tail).contains(log[g]) <==> from <= g),
        g >= tail ==> !backfill_all(log, from, tail).contains(log[g]),
        admits_spec(Subscription { from, stream: None, tail, receiver }, log[g]) <==> (g >= tail
            && g >= from),
{
    let b = backfill_all(log, from, tail);
    let lo = if from < tail {
        from as int
    } else {
        tail as int
    };
    assert(log[g].wf());
    if b.contains(log[g]) {
        let j = choose|j: int| 0 <= j < b.len() && b[j] == log[g];
        assert(b[j] == log[lo + j]);
        assert(log[lo + j].wf());
    }
    if g < tail && from <= g {
        assert(b[g - lo] == log[g]);
    }
}

} // verus!
