//! The single writer: every mutation of the log, the stream index and the
//! deduplication cache passes through it, one batch at a time.
use vstd::prelude::*;
use vstd::slice::slice_to_vec;
use vstd::utf8::encode_utf8;

use crate::broker::{publish_all, Broker};
use crate::codec::{fits_frame, lemma_body_len};
use crate::dedup::{
    cached, lemma_fresh_evicts, lemma_insert, lemma_pos, lemma_recent_survives, lemma_touch,
    lookup, pos, replay, touch, unique_ids, DedupCache, EntryView, Placement, PlacementView,
};
use crate::error::Error;
use crate::event::{same_id, EventView, ExpectedVersion, RecordedEvent};
use crate::index::{lemma_positions_push, positions_in, StreamIndex};

verus! {

/// An event offered for appending, before it has a placement.
#[derive(Debug, Clone)]
pub struct ProposedEvent {
    pub event_id: [u8; 16],
    pub event_type: String,
    pub metadata: Vec<u8>,
    pub payload: Vec<u8>,
}

/// Where an appended batch landed.
#[derive(Debug, Clone, Copy, PartialEq, Eq)]
pub struct AppendResult {
    pub first_global_position: u64,
    pub last_global_position: u64,
    pub first_stream_version: u64,
    pub last_stream_version: u64,
}

/// A batch that passed the writer's checks.
#[derive(Debug)]
pub enum Staged {
    /// Every identifier was already committed: nothing is written, and this
    /// is the original placement.
    Duplicate(AppendResult),
    /// New records to persist, then to commit.
    New(Vec<RecordedEvent>),
}

/// The state of a writer.
pub struct WriterView {
    /// The committed events, in log order.
    pub log: Seq<EventView>,
    /// The deduplication cache, least recently used first.
    pub dedup: Seq<EntryView>,
    /// The cache's capacity.
    pub capacity: nat,
}

pub open spec fn views(v: Seq<RecordedEvent>) -> Seq<EventView> {
    v.map_values(|e: RecordedEvent| e@)
}

/// Global positions are `0, 1, 2, …` in log order, and each event's stream
/// version counts the earlier events of its stream.
pub open spec fn log_ok(log: Seq<EventView>) -> bool {
    forall|i: int|
        0 <= i < log.len() ==> {
            &&& (#[trigger] log[i]).wf()
            &&& log[i].global_position == i
            &&& log[i].stream_version == positions_in(log.subrange(0, i), log[i].stream_id).len()
        }
}

/// `p` is the placement of a record of `id` in `log`.
pub open spec fn points_to(log: Seq<EventView>, id: Seq<u8>, p: PlacementView) -> bool {
    &&& p.global_position < log.len()
    &&& log[p.global_position as int].event_id == id
    &&& log[p.global_position as int].stream_id == p.stream_id
    &&& log[p.global_position as int].stream_version == p.stream_version
}

/// Every cached placement is that of a committed record of its identifier.
pub open spec fn dedup_ok(log: Seq<EventView>, d: Seq<EntryView>) -> bool {
    forall|k: int| 0 <= k < d.len() ==> points_to(log, #[trigger] d[k].event_id, d[k].placement)
}

impl WriterView {
    pub open spec fn wf(self) -> bool {
        &&& log_ok(self.log)
        &&& self.capacity > 0
        &&& self.dedup.len() <= self.capacity
        &&& unique_ids(self.dedup)
        &&& dedup_ok(self.log, self.dedup)
    }

    /// The number of events of stream `sid`: the version of its next event.
    pub open spec fn next_version(self, sid: Seq<u8>) -> nat {
        positions_in(self.log, sid).len()
    }
}

/// The cache entries that committing `evs` records, in order.
pub open spec fn entries_of(evs: Seq<EventView>) -> Seq<EntryView> {
    evs.map_values(
        |e: EventView|
            EntryView {
                event_id: e.event_id,
                placement: PlacementView {
                    global_position: e.global_position,
                    stream_version: e.stream_version,
                    stream_id: e.stream_id,
                },
            },
    )
}

/// `evs` is a batch of one stream that extends `log` at its head.
pub open spec fn continues(log: Seq<EventView>, evs: Seq<EventView>) -> bool {
    &&& evs.len() > 0
    &&& forall|i: int|
        0 <= i < evs.len() ==> {
            &&& (#[trigger] evs[i]).wf()
            &&& evs[i].stream_id == evs[0].stream_id
            &&& evs[i].global_position == log.len() + i
            &&& evs[i].stream_version == positions_in(log, evs[0].stream_id).len() + i
        }
}

/// The writer after committing `evs`.
pub open spec fn commit_state(w: WriterView, evs: Seq<EventView>) -> WriterView {
    WriterView {
        log: w.log + evs,
        dedup: replay(w.dedup, entries_of(evs), w.capacity),
        capacity: w.capacity,
    }
}

/// The placement of a committed batch.
pub open spec fn result_of(evs: Seq<EventView>) -> AppendResult {
    AppendResult {
        first_global_position: evs[0].global_position,
        last_global_position: evs[evs.len() - 1].global_position,
        first_stream_version: evs[0].stream_version,
        last_stream_version: evs[evs.len() - 1].stream_version,
    }
}

/// The identifiers of a batch, in order.
pub open spec fn ids_of(events: Seq<ProposedEvent>) -> Seq<Seq<u8>> {
    events.map_values(|e: ProposedEvent| e.event_id@)
}

/// The cache after probing `ids` in order.
pub open spec fn touch_all(s: Seq<EntryView>, ids: Seq<Seq<u8>>) -> Seq<EntryView>
    decreases ids.len(),
{
    if ids.len() == 0 {
        s
    } else {
        touch(touch_all(s, ids.drop_last()), ids[ids.len() - 1])
    }
}

/// Every identifier is cached.
pub open spec fn all_cached(s: Seq<EntryView>, ids: Seq<Seq<u8>>) -> bool {
    forall|i: int| 0 <= i < ids.len() ==> cached(s, #[trigger] ids[i])
}

/// The cached placement of `id`.
pub open spec fn placement_of(s: Seq<EntryView>, id: Seq<u8>) -> PlacementView {
    s[pos(s, id)].placement
}

/// The reply to a batch whose identifiers are all cached: the placements of
/// its first and last events.
pub open spec fn hit_result(s: Seq<EntryView>, ids: Seq<Seq<u8>>) -> AppendResult {
    let f = placement_of(s, ids[0]);
    let l = placement_of(s, ids[ids.len() - 1]);
    AppendResult {
        first_global_position: f.global_position,
        last_global_position: l.global_position,
        first_stream_version: f.stream_version,
        last_stream_version: l.stream_version,
    }
}

/// The event type is 1 to 65 535 bytes long, and the event fits a record
/// frame once placed.
pub open spec fn proposed_fits(e: ProposedEvent) -> bool {
    &&& 1 <= encode_utf8(e.event_type@).len() <= 0xffff
    &&& 62 + encode_utf8(e.event_type@).len() + e.metadata@.len() + e.payload@.len()
        <= 0xffff_ffff
}

pub open spec fn batch_fits(events: Seq<ProposedEvent>) -> bool {
    forall|i: int| 0 <= i < events.len() ==> proposed_fits(#[trigger] events[i])
}

/// Whether a stream with `next` events meets the precondition.
pub open spec fn version_ok(expected: ExpectedVersion, next: nat) -> bool {
    match expected {
        ExpectedVersion::Any => true,
        ExpectedVersion::NoStream => next == 0,
        ExpectedVersion::StreamExists => next > 0,
        ExpectedVersion::Exact(v) => next == v,
    }
}

/// The current version of a stream with `next` events.
pub open spec fn current_version(next: nat) -> Option<u64> {
    if next == 0 {
        None
    } else {
        Some((next - 1) as u64)
    }
}

/// The record of proposed event `e` placed at `gp` as version `sv` of `sid`.
pub open spec fn placed(e: ProposedEvent, sid: Seq<u8>, sv: int, gp: int) -> EventView {
    EventView {
        event_id: e.event_id@,
        stream_id: sid,
        stream_version: sv as u64,
        global_position: gp as u64,
        event_type: e.event_type@,
        metadata: e.metadata@,
        payload: e.payload@,
    }
}

/// The records of a new batch: positions from the head, versions from the
/// stream's next version.
pub open spec fn new_events(w: WriterView, sid: Seq<u8>, events: Seq<ProposedEvent>) -> Seq<
    EventView,
> {
    Seq::new(
        events.len(),
        |i: int| placed(events[i], sid, w.next_version(sid) + i, w.log.len() + i),
    )
}

/// What staging a batch decides.
pub enum StageView {
    Invalid,
    WrongVersion,
    Duplicate(AppendResult),
    New(Seq<EventView>),
}

/// The decision on a batch: an empty or oversized batch is invalid; a batch
/// whose identifiers are all cached is a duplicate; otherwise the
/// precondition is checked and the batch placed at the head.
pub open spec fn stage_spec(
    w: WriterView,
    sid: Seq<u8>,
    expected: ExpectedVersion,
    events: Seq<ProposedEvent>,
) -> StageView {
    if events.len() == 0 || !batch_fits(events) {
        StageView::Invalid
    } else if all_cached(w.dedup, ids_of(events)) {
        StageView::Duplicate(hit_result(w.dedup, ids_of(events)))
    } else if !version_ok(expected, w.next_version(sid)) {
        StageView::WrongVersion
    } else if w.log.len() + events.len() > u64::MAX {
        StageView::Invalid
    } else {
        StageView::New(new_events(w, sid, events))
    }
}

/// The writer after staging: the probes reorder the cache.
pub open spec fn staged_state(w: WriterView, events: Seq<ProposedEvent>) -> WriterView {
    if events.len() == 0 || !batch_fits(events) {
        w
    } else {
        WriterView { dedup: touch_all(w.dedup, ids_of(events)), ..w }
    }
}

/// `r` is the executable form of decision `d`.
pub open spec fn staged_is(
    r: Result<Staged, Error>,
    d: StageView,
    expected: ExpectedVersion,
    next: nat,
) -> bool {
    match d {
        StageView::Invalid => r matches Err(Error::InvalidArgument(_)),
        StageView::WrongVersion => r == Err::<Staged, Error>(
            Error::WrongExpectedVersion { expected, actual: current_version(next) },
        ),
        StageView::Duplicate(res) => r == Ok::<Staged, Error>(Staged::Duplicate(res)),
        StageView::New(evs) => r matches Ok(Staged::New(v)) && views(v@) == evs,
    }
}

proof fn lemma_touch_all(s: Seq<EntryView>, ids: Seq<Seq<u8>>, y: Seq<u8>)
    requires
        unique_ids(s),
    ensures
        unique_ids(touch_all(s, ids)),
        touch_all(s, ids).len() == s.len(),
        cached(touch_all(s, ids), y) == cached(s, y),
        lookup(touch_all(s, ids), y) == lookup(s, y),
    decreases ids.len(),
{
    if ids.len() > 0 {
        lemma_touch_all(s, ids.drop_last(), y);
        lemma_touch(touch_all(s, ids.drop_last()), ids[ids.len() - 1], y);
    }
}

proof fn lemma_touch_all_ok(log: Seq<EventView>, s: Seq<EntryView>, ids: Seq<Seq<u8>>)
    requires
        unique_ids(s),
        dedup_ok(log, s),
    ensures
        dedup_ok(log, touch_all(s, ids)),
{
    let t = touch_all(s, ids);
    assert forall|k: int| 0 <= k < t.len() implies points_to(log, #[trigger] t[k].event_id, t[k].placement) by {
        let y = t[k].event_id;
        lemma_touch_all(s, ids, y);
        lemma_pos(t, y, k);
        let j = pos(s, y);
        assert(s[j].event_id == y);
    }
}

proof fn lemma_positions_bound(log: Seq<EventView>, sid: Seq<u8>)
    ensures
        positions_in(log, sid).len() <= log.len(),
    decreases log.len(),
{
    if log.len() > 0 {
        lemma_positions_bound(log.drop_last(), sid);
    }
}

proof fn lemma_commit_one(w: WriterView, evs: Seq<EventView>, e: EventView)
    ensures
        commit_state(commit_state(w, evs), seq![e]) == commit_state(w, evs.push(e)),
{
    let a = entries_of(evs);
    let b = entries_of(evs.push(e));
    let mid = commit_state(w, evs).dedup;
    assert(b.drop_last() =~= a);
    assert(entries_of(seq![e]).drop_last() =~= Seq::<EntryView>::empty());
    assert(replay(mid, entries_of(seq![e]).drop_last(), w.capacity) == mid);
    assert(b[b.len() - 1] == entries_of(seq![e])[0]);
    assert(commit_state(w, evs).log + seq![e] =~= w.log + evs.push(e));
}

/// The committed events and the index and cache derived from them.
pub struct Writer {
    log: Vec<RecordedEvent>,
    index: StreamIndex,
    dedup: DedupCache,
}

impl View for Writer {
    type V = WriterView;

    closed spec fn view(&self) -> WriterView {
        WriterView { log: views(self.log@), dedup: self.dedup@, capacity: self.dedup.cap() }
    }
}

impl Writer {
    pub closed spec fn inv(&self) -> bool {
        &&& self.index.tracks(self@.log)
        &&& self.dedup.wf()
    }

    pub open spec fn wf(&self) -> bool {
        &&& self.inv()
        &&& self@.wf()
    }

    /// A writer over an empty log whose cache holds `capacity` identifiers.
    pub fn new(capacity: usize) -> (r: Writer)
        requires
            capacity > 0,
        ensures
            r.wf(),
            r@.log == Seq::<EventView>::empty(),
            r@.dedup == Seq::<EntryView>::empty(),
            r@.capacity == capacity,
    {
        let r = Writer { log: Vec::new(), index: StreamIndex::new(), dedup: DedupCache::new(capacity) };
        assert(r@.log =~= Seq::<EventView>::empty());
        r
    }

    /// The position the next committed event gets.
    pub fn head(&self) -> (r: u64)
        requires
            self.wf(),
        ensures
            r == self@.log.len(),
    {
        self.log.len() as u64
    }

    /// The cache's capacity.
    pub fn capacity(&self) -> (r: usize)
        requires
            self.wf(),
        ensures
            r == self@.capacity,
    {
        self.dedup.capacity()
    }

    /// Append one event that continues the log.
    fn append_one(&mut self, e: RecordedEvent)
        requires
            old(self).wf(),
            continues(old(self)@.log, seq![e@]),
        ensures
            final(self).wf(),
            final(self)@ == commit_state(old(self)@, seq![e@]),
    {
        let ghost w = self@;
        let ghost log = w.log;
        assert(seq![e@][0] == e@);
        self.index.add(e.stream_id, e.global_position, Ghost(log), Ghost(e@));
        let p = Placement {
            global_position: e.global_position,
            stream_version: e.stream_version,
            stream_id: e.stream_id,
        };
        proof {
            lemma_insert(w.dedup, e.event_id@, p@, w.capacity, e.event_id@);
        }
        self.dedup.record(e.event_id, p);
        self.log.push(e);
        let ghost nl = log.push(e@);
        assert(self@.log =~= nl);
        assert(log_ok(nl)) by {
            assert forall|i: int| 0 <= i < nl.len() implies {
                &&& (#[trigger] nl[i]).wf()
                &&& nl[i].global_position == i
                &&& nl[i].stream_version == positions_in(nl.subrange(0, i), nl[i].stream_id).len()
            } by {
                assert(nl.subrange(0, i) =~= if i < log.len() {
                    log.subrange(0, i)
                } else {
                    log
                });
            }
        }
        let ghost d = self.dedup@;
        assert(dedup_ok(nl, d)) by {
            assert forall|k: int| 0 <= k < d.len() implies points_to(
                nl,
                #[trigger] d[k].event_id,
                d[k].placement,
            ) by {
                let y = d[k].event_id;
                lemma_pos(d, y, k);
                lemma_insert(w.dedup, e.event_id@, p@, w.capacity, y);
                if y != e.event_id@ {
                    let j = pos(w.dedup, y);
                    assert(w.dedup[j].event_id == y);
                }
            }
        }
        assert(entries_of(seq![e@]).drop_last() =~= Seq::<EntryView>::empty());
        assert(replay(w.dedup, entries_of(seq![e@]).drop_last(), w.capacity) == w.dedup);
        assert(log + seq![e@] =~= nl);
    }

    /// Whether `evs` is a batch of one stream that extends the log at its head.
    fn continues_log(&self, evs: &Vec<RecordedEvent>) -> (r: bool)
        requires
            self.wf(),
        ensures
            r == continues(self@.log, views(evs@)),
    {
        let ghost log = self@.log;
        let ghost v = views(evs@);
        let n = evs.len();
        if n == 0 {
            return false;
        }
        let head = self.log.len() as u64;
        let sid = evs[0].stream_id;
        let next = self.index.next_version(&sid, Ghost(log)) as u64;
        proof {
            lemma_positions_bound(log, sid@);
        }
        let mut i: usize = 0;
        while i < n
            invariant
                n == evs@.len(),
                n > 0,
                log == self@.log,
                v == views(evs@),
                head == log.len(),
                next == positions_in(log, v[0].stream_id).len(),
                sid == evs@[0].stream_id,
                i <= n,
                forall|j: int|
                    0 <= j < i ==> {
                        &&& (#[trigger] v[j]).wf()
                        &&& v[j].stream_id == v[0].stream_id
                        &&& v[j].global_position == log.len() + j
                        &&& v[j].stream_version == positions_in(log, v[0].stream_id).len() + j
                    },
            decreases n - i,
        {
            let e = &evs[i];
            let ok = same_id(&e.stream_id, &sid) && e.global_position >= head
                && e.global_position - head == i as u64 && e.stream_version >= next
                && e.stream_version - next == i as u64;
            if !ok {
                proof {
                    if v[i as int].stream_id == v[0].stream_id {
                        assert(e.stream_id =~= sid);
                    }
                    assert(v[i as int].wf());
                    assert(!(v[i as int].stream_id == v[0].stream_id && v[i as int].global_position
                        == log.len() + i && v[i as int].stream_version == positions_in(
                        log,
                        v[0].stream_id,
                    ).len() + i));
                }
                return false;
            }
            i = i + 1;
        }
        true
    }

    fn batch_fits_exec(events: &Vec<ProposedEvent>) -> (r: bool)
        ensures
            r == batch_fits(events@),
    {
        let n = events.len();
        let mut i: usize = 0;
        while i < n
            invariant
                i <= n,
                n == events@.len(),
                forall|j: int| 0 <= j < i ==> proposed_fits(#[trigger] events@[j]),
            decreases n - i,
        {
            let e = &events[i];
            let etl = e.event_type.as_str().as_bytes().len();
            if etl == 0 || etl > 0xffff || e.metadata.len() > 0xffff_ffff || e.payload.len() > 0xffff_ffff || 62
                + etl as u64 + e.metadata.len() as u64 + e.payload.len() as u64 > 0xffff_ffff {
                assert(!proposed_fits(events@[i as int]));
                return false;
            }
            i = i + 1;
        }
        true
    }

    /// Probe every identifier of the batch, in order; the reply to a
    /// duplicate when all of them are cached.
    fn probe_batch(&mut self, events: &Vec<ProposedEvent>) -> (r: Option<AppendResult>)
        requires
            old(self).wf(),
            events@.len() > 0,
        ensures
            final(self).wf(),
            final(self)@ == (WriterView {
                dedup: touch_all(old(self)@.dedup, ids_of(events@)),
                ..old(self)@
            }),
            r is Some <==> all_cached(old(self)@.dedup, ids_of(events@)),
            r matches Some(res) ==> res == hit_result(old(self)@.dedup, ids_of(events@)),
    {
        let ghost w = self@;
        let ghost ids = ids_of(events@);
        let n = events.len();
        let mut all_hit = true;
        let mut first: Option<Placement> = None;
        let mut last: Option<Placement> = None;
        let mut i: usize = 0;
        while i < n
            invariant
                i <= n,
                n == events@.len(),
                ids == ids_of(events@),
                w.wf(),
                self.dedup.wf(),
                self.dedup.cap() == w.capacity,
                self.index.tracks(w.log),
                views(self.log@) == w.log,
                self.dedup@ == touch_all(w.dedup, ids.take(i as int)),
                all_hit == (forall|j: int| 0 <= j < i ==> cached(w.dedup, #[trigger] ids[j])),
                i > 0 && all_hit ==> (first matches Some(p) && p@ == placement_of(w.dedup, ids[0])),
                i > 0 && all_hit ==> (last matches Some(q) && q@ == placement_of(
                    w.dedup,
                    ids[i - 1],
                )),
            decreases n - i,
        {
            proof {
                lemma_touch_all(w.dedup, ids.take(i as int), ids[i as int]);
            }
            let hit = self.dedup.probe(&events[i].event_id);
            match hit {
                Some(p) => {
                    if i == 0 {
                        first = Some(p);
                    }
                    last = Some(p);
                },
                None => {
                    all_hit = false;
                },
            }
            assert(ids.take(i + 1).drop_last() =~= ids.take(i as int));
            i = i + 1;
        }
        assert(ids.take(n as int) =~= ids);
        proof {
            lemma_touch_all_ok(w.log, w.dedup, ids);
            lemma_touch_all(w.dedup, ids, ids[0]);
        }
        if !all_hit {
            return None;
        }
        match (first, last) {
            (Some(f), Some(l)) => Some(
                AppendResult {
                    first_global_position: f.global_position,
                    last_global_position: l.global_position,
                    first_stream_version: f.stream_version,
                    last_stream_version: l.stream_version,
                },
            ),
            _ => None,
        }
    }

    /// The records of a new batch, placed at `head` as versions from `next`.
    fn place(
        events: &Vec<ProposedEvent>,
        stream_id: [u8; 16],
        next: usize,
        head: usize,
        Ghost(w): Ghost<WriterView>,
    ) -> (out: Vec<RecordedEvent>)
        requires
            next == w.next_version(stream_id@),
            head == w.log.len(),
            next <= head,
            head + events@.len() <= u64::MAX,
            batch_fits(events@),
        ensures
            views(out@) == new_events(w, stream_id@, events@),
    {
        let n = events.len();
        let ghost placed_events = new_events(w, stream_id@, events@);
        let mut out: Vec<RecordedEvent> = Vec::new();
        let mut j: usize = 0;
        while j < n
            invariant
                j <= n,
                n == events@.len(),
                head == w.log.len(),
                next == w.next_version(stream_id@),
                next <= head,
                head + n <= u64::MAX,
                placed_events == new_events(w, stream_id@, events@),
                out@.len() == j,
                forall|k: int| 0 <= k < j ==> #[trigger] out@[k]@ == placed_events[k],
            decreases n - j,
        {
            let e = &events[j];
            let rec = RecordedEvent {
                event_id: e.event_id,
                stream_id,
                stream_version: next as u64 + j as u64,
                global_position: head as u64 + j as u64,
                event_type: e.event_type.clone(),
                metadata: slice_to_vec(e.metadata.as_slice()),
                payload: slice_to_vec(e.payload.as_slice()),
            };
            assert(rec@ == placed_events[j as int]);
            out.push(rec);
            j = j + 1;
        }
        assert(views(out@) =~= placed_events);
        out
    }

    /// Check a batch and decide how it is appended (see [`stage_spec`]):
    /// an empty or oversized batch is refused; a batch whose identifiers were
    /// all committed is a duplicate with the original placement; otherwise
    /// the precondition is checked and the new records are placed at the
    /// head. Nothing is committed here.
    pub fn stage(
        &mut self,
        stream_id: [u8; 16],
        expected: ExpectedVersion,
        events: &Vec<ProposedEvent>,
    ) -> (r: Result<Staged, Error>)
        requires
            old(self).wf(),
        ensures
            final(self).wf(),
            final(self)@ == staged_state(old(self)@, events@),
            staged_is(
                r,
                stage_spec(old(self)@, stream_id@, expected, events@),
                expected,
                old(self)@.next_version(stream_id@),
            ),
            r matches Ok(Staged::New(v)) ==> continues(final(self)@.log, views(v@)) && forall|
                i: int,
            | 0 <= i < v@.len() ==> fits_frame(#[trigger] views(v@)[i]),
    {
        let ghost w = self@;
        if events.len() == 0 {
            return Err(Error::InvalidArgument("empty batch".to_string()));
        }
        if !Self::batch_fits_exec(events) {
            return Err(Error::InvalidArgument("event type or content out of bounds".to_string()));
        }
        if let Some(res) = self.probe_batch(events) {
            return Ok(Staged::Duplicate(res));
        }
        let n = events.len();
        let next = self.index.next_version(&stream_id, Ghost(w.log));
        proof {
            lemma_positions_bound(w.log, stream_id@);
        }
        let ok = match expected {
            ExpectedVersion::Any => true,
            ExpectedVersion::NoStream => next == 0,
            ExpectedVersion::StreamExists => next > 0,
            ExpectedVersion::Exact(v) => next as u64 == v,
        };
        if !ok {
            let actual = if next == 0 {
                None
            } else {
                Some((next - 1) as u64)
            };
            return Err(Error::WrongExpectedVersion { expected, actual });
        }
        let head = self.log.len();
        if head as u64 > u64::MAX - n as u64 {
            return Err(Error::InvalidArgument("log position space exhausted".to_string()));
        }
        let out = Self::place(events, stream_id, next, head, Ghost(w));
        assert forall|k: int| 0 <= k < out@.len() implies fits_frame(#[trigger] views(out@)[k]) by {
            assert(views(out@).len() == out@.len());
            assert(views(out@).len() == events@.len());
            assert(proposed_fits(events@[k]));
            lemma_body_len(views(out@)[k]);
        }
        Ok(Staged::New(out))
    }

    /// Commit a staged batch and publish its records, in order. A duplicate
    /// changes nothing and publishes nothing; a batch that does not extend the
    /// log at its head is refused. The records are to be durable before this
    /// is called.
    pub fn commit(&mut self, staged: Staged, broker: &mut Broker) -> (r: Result<
        AppendResult,
        Error,
    >)
        requires
            old(self).wf(),
            old(broker)@.wf(),
        ensures
            final(self).wf(),
            final(broker)@.wf(),
            staged matches Staged::Duplicate(res) ==> r == Ok::<AppendResult, Error>(res)
                && final(self)@ == old(self)@ && final(broker)@ == old(broker)@,
            staged matches Staged::New(v) ==> if continues(old(self)@.log, views(v@)) {
                &&& r == Ok::<AppendResult, Error>(result_of(views(v@)))
                &&& final(self)@ == commit_state(old(self)@, views(v@))
                &&& final(broker)@ == publish_all(old(broker)@, views(v@))
            } else {
                &&& r matches Err(Error::InvalidArgument(_))
                &&& final(self)@ == old(self)@
                &&& final(broker)@ == old(broker)@
            },
    {
        let evs = match staged {
            Staged::Duplicate(res) => {
                return Ok(res);
            },
            Staged::New(v) => v,
        };
        if !self.continues_log(&evs) {
            return Err(Error::InvalidArgument("batch does not continue the log".to_string()));
        }
        let ghost w = self@;
        let ghost b = broker@;
        let ghost v = views(evs@);
        let ghost sid = v[0].stream_id;
        let n = evs.len();
        let result = AppendResult {
            first_global_position: evs[0].global_position,
            last_global_position: evs[n - 1].global_position,
            first_stream_version: evs[0].stream_version,
            last_stream_version: evs[n - 1].stream_version,
        };
        assert(v.take(0) =~= Seq::<EventView>::empty());
        assert(w.log + v.take(0) =~= w.log);
        assert(entries_of(v.take(0)) =~= Seq::<EntryView>::empty());
        assert(replay(w.dedup, entries_of(v.take(0)), w.capacity) == w.dedup);
        let mut i: usize = 0;
        while i < n
            invariant
                i <= n,
                n == evs@.len(),
                v == views(evs@),
                continues(w.log, v),
                sid == v[0].stream_id,
                w.wf(),
                self.wf(),
                broker@.wf(),
                self@ == commit_state(w, v.take(i as int)),
                broker@ == publish_all(b, v.take(i as int)),
                positions_in(self@.log, sid).len() == positions_in(w.log, sid).len() + i,
                self@.log.len() == w.log.len() + i,
            decreases n - i,
        {
            let e = evs[i].copy();
            let ghost before = self@.log;
            assert(e@ == v[i as int]);
            assert(v[i as int].wf());
            assert(seq![e@][0] == e@);
            assert(continues(self@.log, seq![e@]));
            broker.publish(&e);
            self.append_one(e);
            proof {
                lemma_commit_one(w, v.take(i as int), v[i as int]);
                assert(v.take(i as int).push(v[i as int]) =~= v.take(i + 1));
                lemma_positions_push(before, v[i as int], sid);
                assert(v.take(i + 1).drop_last() =~= v.take(i as int));
                assert(before + seq![v[i as int]] =~= before.push(v[i as int]));
            }
            i = i + 1;
        }
        assert(v.take(n as int) =~= v);
        Ok(result)
    }

    /// The bounds of a read of up to `max` items from `from` in a sequence of
    /// `len` items.
    pub open spec fn window(len: nat, from: u64, max: u64) -> (int, int) {
        let lo = if from < len {
            from as int
        } else {
            len as int
        };
        let hi = if lo + max < len {
            lo + max
        } else {
            len as int
        };
        (lo, hi)
    }

    /// Up to `max` events of the log, from global position `from`.
    pub fn read_all(&self, from: u64, max: u64) -> (r: Vec<RecordedEvent>)
        requires
            self.wf(),
        ensures
            views(r@) == self@.log.subrange(
                Self::window(self@.log.len(), from, max).0,
                Self::window(self@.log.len(), from, max).1,
            ),
    {
        let ghost log = self@.log;
        let len = self.log.len() as u64;
        let lo = if from < len {
            from
        } else {
            len
        };
        let hi = if max < len - lo {
            lo + max
        } else {
            len
        };
        let mut out: Vec<RecordedEvent> = Vec::new();
        let mut k = lo;
        while k < hi
            invariant
                lo <= k <= hi <= len,
                len == self.log@.len(),
                len <= usize::MAX,
                log == views(self.log@),
                out@.len() == k - lo,
                forall|j: int| 0 <= j < k - lo ==> #[trigger] out@[j]@ == log[lo + j],
            decreases hi - k,
        {
            let ghost prev = out@;
            let c = self.log[k as usize].copy();
            assert(c@ == log[k as int]);
            out.push(c);
            assert forall|j: int| 0 <= j < k + 1 - lo implies #[trigger] out@[j]@ == log[lo + j] by {
                if j < k - lo {
                    assert(out@[j] == prev[j]);
                }
            }
            k = k + 1;
        }
        assert(views(out@) =~= log.subrange(lo as int, hi as int));
        out
    }

    /// Up to `max` events of stream `sid`, from stream version `from_version`.
    pub fn read_stream(&self, sid: &[u8; 16], from_version: u64, max: u64) -> (r: Vec<
        RecordedEvent,
    >)
        requires
            self.wf(),
        ensures
            ({
                let ps = positions_in(self@.log, sid@);
                let (lo, hi) = Self::window(ps.len(), from_version, max);
                views(r@) == ps.subrange(lo, hi).map_values(|p: u64| self@.log[p as int])
            }),
    {
        let ghost log = self@.log;
        let ps = self.index.positions(sid, Ghost(log));
        let log_len = self.log.len();
        proof {
            lemma_stream_versions(log, sid@);
        }
        let len = ps.len() as u64;
        let lo = if from_version < len {
            from_version
        } else {
            len
        };
        let hi = if max < len - lo {
            lo + max
        } else {
            len
        };
        let mut out: Vec<RecordedEvent> = Vec::new();
        let mut k = lo;
        while k < hi
            invariant
                lo <= k <= hi <= len,
                len == ps@.len(),
                len <= usize::MAX,
                log_len == self.log@.len(),
                ps@ == positions_in(log, sid@),
                log == views(self.log@),
                log.len() == self.log@.len(),
                forall|j: int| 0 <= j < ps@.len() ==> #[trigger] ps@[j] < log.len(),
                out@.len() == k - lo,
                forall|j: int| 0 <= j < k - lo ==> #[trigger] out@[j]@ == log[ps@[lo + j] as int],
            decreases hi - k,
        {
            let p = ps[k as usize];
            let ghost prev = out@;
            let c = self.log[p as usize].copy();
            assert(c@ == log[p as int]);
            out.push(c);
            assert forall|j: int| 0 <= j < k + 1 - lo implies #[trigger] out@[j]@ == log[ps@[lo
                + j] as int] by {
                if j < k - lo {
                    assert(out@[j] == prev[j]);
                }
            }
            k = k + 1;
        }
        assert(views(out@) =~= ps@.subrange(lo as int, hi as int).map_values(
            |p: u64| log[p as int],
        ));
        out
    }

    /// The global positions of stream `sid`, in order.
    pub fn stream_positions(&self, sid: &[u8; 16]) -> (r: &[u64])
        requires
            self.wf(),
        ensures
            r@ == positions_in(self@.log, sid@),
            forall|k: int|
                0 <= k < r@.len() ==> {
                    let p = #[trigger] r@[k] as int;
                    &&& p < self@.log.len()
                    &&& self@.log[p].stream_id == sid@
                    &&& self@.log[p].stream_version == k
                },
    {
        proof {
            lemma_stream_versions(self@.log, sid@);
        }
        self.index.positions(sid, Ghost(self@.log))
    }

    /// The event at global position `p`.
    pub fn event_at(&self, p: u64) -> (r: &RecordedEvent)
        requires
            self.wf(),
            p < self@.log.len(),
        ensures
            r@ == self@.log[p as int],
    {
        let n = self.log.len();
        assert(p < n);
        &self.log[p as usize]
    }

    /// The current version of stream `sid`: that of its last event, `None`
    /// while it has none.
    pub fn stream_version(&self, sid: &[u8; 16]) -> (r: Option<u64>)
        requires
            self.wf(),
        ensures
            r == current_version(self@.next_version(sid@)),
    {
        let next = self.index.next_version(sid, Ghost(self@.log));
        proof {
            lemma_positions_bound(self@.log, sid@);
        }
        if next == 0 {
            None
        } else {
            Some((next - 1) as u64)
        }
    }

    /// Replay a record read back from the log at start-up. A record that does
    /// not extend the log at its head is corrupt.
    pub fn restore(&mut self, e: RecordedEvent) -> (r: Result<(), Error>)
        requires
            old(self).wf(),
        ensures
            final(self).wf(),
            continues(old(self)@.log, seq![e@]) ==> r is Ok && final(self)@ == commit_state(
                old(self)@,
                seq![e@],
            ),
            !continues(old(self)@.log, seq![e@]) ==> (r matches Err(Error::CorruptRecord { .. })
                && final(self)@ == old(self)@),
    {
        let position = e.global_position;
        let mut batch: Vec<RecordedEvent> = Vec::new();
        batch.push(e);
        assert(views(batch@) =~= seq![batch@[0]@]);
        if !self.continues_log(&batch) {
            return Err(
                Error::CorruptRecord {
                    position,
                    detail: "record does not continue the log".to_string(),
                },
            );
        }
        let e = batch.pop().unwrap();
        self.append_one(e);
        Ok(())
    }
}

/// Position density: the committed global positions are exactly
/// `0, 1, …, N − 1`, in log order.
pub proof fn lemma_positions_dense(w: WriterView)
    requires
        w.wf(),
    ensures
        forall|i: int| 0 <= i < w.log.len() ==> (#[trigger] w.log[i]).global_position == i,
{
    assert forall|i: int| 0 <= i < w.log.len() implies (#[trigger] w.log[i]).global_position == i by {
        assert(w.log[i].wf());
    }
}

/// Stream density: the `k`-th event of a stream, in log order, has stream
/// version `k`, so a stream's versions are exactly `0, 1, …, K − 1`.
pub proof fn lemma_stream_versions(log: Seq<EventView>, sid: Seq<u8>)
    requires
        log_ok(log),
    ensures
        forall|k: int|
            0 <= k < positions_in(log, sid).len() ==> {
                let p = #[trigger] positions_in(log, sid)[k] as int;
                &&& p < log.len()
                &&& log[p].stream_id == sid
                &&& log[p].stream_version == k
            },
    decreases log.len(),
{
    if log.len() > 0 {
        let n = log.len() - 1;
        let prev = log.drop_last();
        assert(log_ok(prev)) by {
            assert forall|i: int| 0 <= i < prev.len() implies {
                &&& (#[trigger] prev[i]).wf()
                &&& prev[i].global_position == i
                &&& prev[i].stream_version == positions_in(prev.subrange(0, i), prev[i].stream_id).len()
            } by {
                assert(log[i].wf());
                assert(prev.subrange(0, i) =~= log.subrange(0, i));
            }
        }
        lemma_stream_versions(prev, sid);
        assert(log[n].wf());
        assert(log.subrange(0, n) =~= prev);
        let ps = positions_in(log, sid);
        let qs = positions_in(prev, sid);
        assert forall|k: int| 0 <= k < ps.len() implies {
            let p = #[trigger] ps[k] as int;
            &&& p < log.len()
            &&& log[p].stream_id == sid
            &&& log[p].stream_version == k
        } by {
            if k < qs.len() {
                assert(ps[k] == qs[k]);
                assert(prev[qs[k] as int] == log[qs[k] as int]);
            } else {
                assert(log[n].stream_id == sid);
                assert(ps[k] == log[n].global_position);
            }
        }
    }
}

proof fn lemma_lookup_placement(s: Seq<EntryView>, id: Seq<u8>, p: PlacementView)
    requires
        lookup(s, id) == Some(p),
    ensures
        cached(s, id),
        placement_of(s, id) == p,
{
}

/// Idempotence within capacity: right after a batch of distinct
/// identifiers, no more than the cache holds, is committed, the same batch
/// is a duplicate whose reply is the first reply, and staging it writes
/// nothing.
pub proof fn lemma_resubmit_is_duplicate(
    w: WriterView,
    sid: Seq<u8>,
    expected: ExpectedVersion,
    again: ExpectedVersion,
    events: Seq<ProposedEvent>,
)
    requires
        w.wf(),
        stage_spec(w, sid, expected, events) is New,
        events.len() <= w.capacity,
        forall|a: int, b: int|
            0 <= a < b < events.len() ==> events[a].event_id != events[b].event_id,
    ensures
        ({
            let evs = new_events(w, sid, events);
            let w2 = commit_state(staged_state(w, events), evs);
            &&& stage_spec(w2, sid, again, events) == StageView::Duplicate(result_of(evs))
            &&& staged_state(w2, events).log == w2.log
        }),
{
    let ids = ids_of(events);
    let w1 = staged_state(w, events);
    let evs = new_events(w, sid, events);
    let es = entries_of(evs);
    let w2 = commit_state(w1, evs);
    lemma_touch_all(w.dedup, ids, ids[0]);
    assert forall|i: int| 0 <= i < events.len() implies lookup(w2.dedup, #[trigger] ids[i]) == Some(
        es[i].placement,
    ) by {
        assert forall|j: int| i < j < es.len() implies es[j].event_id != es[i].event_id by {
            if events[j].event_id@ == events[i].event_id@ {
                assert(events[j].event_id =~= events[i].event_id);
            }
        }
        lemma_recent_survives(w1.dedup, es, w.capacity, i);
    }
    assert(all_cached(w2.dedup, ids));
    lemma_lookup_placement(w2.dedup, ids[0], es[0].placement);
    lemma_lookup_placement(w2.dedup, ids[events.len() - 1], es[events.len() - 1].placement);
}

/// The writer rebuilt at start-up: the log's records replayed, in order,
/// into an empty writer.
pub open spec fn rebuilt(log: Seq<EventView>, capacity: nat) -> WriterView {
    commit_state(
        WriterView { log: Seq::empty(), dedup: Seq::empty(), capacity },
        log,
    )
}

/// Restart survival: in a writer rebuilt from its log, a single-event batch
/// whose identifier's latest record is among the last `capacity` records is
/// a duplicate with that record's original placement.
pub proof fn lemma_restart_duplicate(
    log: Seq<EventView>,
    capacity: nat,
    i: int,
    sid: Seq<u8>,
    expected: ExpectedVersion,
    events: Seq<ProposedEvent>,
)
    requires
        capacity > 0,
        0 <= i < log.len(),
        log.len() - capacity <= i,
        forall|j: int| i < j < log.len() ==> log[j].event_id != log[i].event_id,
        events.len() == 1,
        events[0].event_id@ == log[i].event_id,
        proposed_fits(events[0]),
    ensures
        stage_spec(rebuilt(log, capacity), sid, expected, events) == StageView::Duplicate(
            AppendResult {
                first_global_position: log[i].global_position,
                last_global_position: log[i].global_position,
                first_stream_version: log[i].stream_version,
                last_stream_version: log[i].stream_version,
            },
        ),
{
    let w = rebuilt(log, capacity);
    let es = entries_of(log);
    let ids = ids_of(events);
    assert(Seq::<EventView>::empty() + log =~= log);
    lemma_recent_survives(Seq::empty(), es, capacity, i);
    assert(ids[0] == es[i].event_id);
    lemma_lookup_placement(w.dedup, ids[0], es[i].placement);
    assert(batch_fits(events));
    assert(all_cached(w.dedup, ids));
}

/// Eviction: once records of `capacity` distinct identifiers, none of them
/// cached nor equal to `x`, have been committed, a single-event batch for
/// `x` is no duplicate: it is written anew at the head, after every earlier
/// record.
pub proof fn lemma_evicted_rewritten(
    w: WriterView,
    added: Seq<EventView>,
    sid: Seq<u8>,
    expected: ExpectedVersion,
    events: Seq<ProposedEvent>,
)
    requires
        w.wf(),
        added.len() >= w.capacity,
        forall|a: int, b: int| 0 <= a < b < added.len() ==> added[a].event_id != added[b].event_id,
        forall|a: int| 0 <= a < added.len() ==> !cached(w.dedup, #[trigger] added[a].event_id),
        forall|a: int| 0 <= a < added.len() ==> #[trigger] added[a].event_id != events[0].event_id@,
        events.len() == 1,
        proposed_fits(events[0]),
        version_ok(expected, commit_state(w, added).next_version(sid)),
        w.log.len() + added.len() < u64::MAX,
    ensures
        ({
            let w2 = commit_state(w, added);
            &&& stage_spec(w2, sid, expected, events) == StageView::New(new_events(w2, sid, events))
            &&& new_events(w2, sid, events)[0].global_position == w2.log.len()
            &&& w2.log.len() >= w.log.len() + w.capacity
        }),
{
    let es = entries_of(added);
    let x = events[0].event_id@;
    let ids = ids_of(events);
    assert forall|a: int, b: int| 0 <= a < b < es.len() implies es[a].event_id != es[b].event_id by {
        assert(added[a].event_id != added[b].event_id);
    }
    assert forall|a: int| 0 <= a < es.len() implies !cached(w.dedup, #[trigger] es[a].event_id) by {
        assert(!cached(w.dedup, added[a].event_id));
    }
    assert forall|a: int| 0 <= a < es.len() implies #[trigger] es[a].event_id != x by {
        assert(added[a].event_id != x);
    }
    lemma_fresh_evicts(w.dedup, es, w.capacity, x);
    assert(ids[0] == x);
    assert(!all_cached(commit_state(w, added).dedup, ids));
    assert(batch_fits(events));
}

} // verus!
