//! The bounded cache of recently committed event identifiers, evicting the
//! least recently used entry when it is full.
use vstd::prelude::*;

use crate::event::same_id;

verus! {

/// Where a committed event was placed.
#[derive(Debug, Clone, Copy, PartialEq, Eq)]
pub struct Placement {
    pub global_position: u64,
    pub stream_version: u64,
    pub stream_id: [u8; 16],
}

/// The value of a [`Placement`].
pub struct PlacementView {
    pub global_position: u64,
    pub stream_version: u64,
    pub stream_id: Seq<u8>,
}

impl View for Placement {
    type V = PlacementView;

    open spec fn view(&self) -> PlacementView {
        PlacementView {
            global_position: self.global_position,
            stream_version: self.stream_version,
            stream_id: self.stream_id@,
        }
    }
}

/// One cached identifier with its placement.
#[derive(Clone, Copy)]
struct DedupEntry {
    event_id: [u8; 16],
    placement: Placement,
}

/// The value of a cache entry.
pub struct EntryView {
    pub event_id: Seq<u8>,
    pub placement: PlacementView,
}

impl DedupEntry {
    spec fn view(&self) -> EntryView {
        EntryView { event_id: self.event_id@, placement: self.placement@ }
    }
}

/// Whether `id` is cached in `s`.
pub open spec fn cached(s: Seq<EntryView>, id: Seq<u8>) -> bool {
    exists|i: int| 0 <= i < s.len() && s[i].event_id == id
}

/// The index of `id` in `s`.
pub open spec fn pos(s: Seq<EntryView>, id: Seq<u8>) -> int {
    choose|i: int| 0 <= i < s.len() && s[i].event_id == id
}

/// How many entries were used more recently than `id`.
pub open spec fn dist(s: Seq<EntryView>, id: Seq<u8>) -> int {
    s.len() - 1 - pos(s, id)
}

/// The placement cached for `id`, if any.
pub open spec fn lookup(s: Seq<EntryView>, id: Seq<u8>) -> Option<PlacementView> {
    if cached(s, id) {
        Some(s[pos(s, id)].placement)
    } else {
        None
    }
}

/// No identifier is cached twice.
pub open spec fn unique_ids(s: Seq<EntryView>) -> bool {
    forall|i: int, j: int|
        0 <= i < s.len() && 0 <= j < s.len() && i != j ==> s[i].event_id != s[j].event_id
}

/// A probe of `id`: a cached entry becomes the most recently used.
pub open spec fn touch(s: Seq<EntryView>, id: Seq<u8>) -> Seq<EntryView> {
    if cached(s, id) {
        s.remove(pos(s, id)).push(s[pos(s, id)])
    } else {
        s
    }
}

/// Recording `id` at `p`: it becomes the most recently used entry, and the
/// least recently used one leaves when the capacity is exceeded.
pub open spec fn insert(s: Seq<EntryView>, id: Seq<u8>, p: PlacementView, cap: nat) -> Seq<
    EntryView,
> {
    let t = if cached(s, id) {
        s.remove(pos(s, id))
    } else {
        s
    }.push(EntryView { event_id: id, placement: p });
    if t.len() > cap {
        t.subrange(1, t.len() as int)
    } else {
        t
    }
}

/// The cache reached by recording `entries` in order, starting from `s`.
pub open spec fn replay(s: Seq<EntryView>, entries: Seq<EntryView>, cap: nat) -> Seq<
    EntryView,
>
    decreases entries.len(),
{
    if entries.len() == 0 {
        s
    } else {
        let last = entries[entries.len() - 1];
        insert(replay(s, entries.drop_last(), cap), last.event_id, last.placement, cap)
    }
}

/// A bounded map from event identifier to placement, ordered from least to
/// most recently used.
pub struct DedupCache {
    entries: Vec<DedupEntry>,
    capacity: usize,
}

impl View for DedupCache {
    type V = Seq<EntryView>;

    closed spec fn view(&self) -> Seq<EntryView> {
        self.entries@.map_values(|e: DedupEntry| e.view())
    }
}

impl DedupCache {
    /// The configured capacity.
    pub closed spec fn cap(&self) -> nat {
        self.capacity as nat
    }

    pub open spec fn wf(&self) -> bool {
        &&& self.cap() > 0
        &&& self@.len() <= self.cap()
        &&& unique_ids(self@)
    }

    /// An empty cache holding at most `capacity` identifiers.
    pub fn new(capacity: usize) -> (r: DedupCache)
        requires
            capacity > 0,
        ensures
            r.wf(),
            r@ == Seq::<EntryView>::empty(),
            r.cap() == capacity,
    {
        let r = DedupCache { entries: Vec::new(), capacity };
        assert(r@ =~= Seq::<EntryView>::empty());
        r
    }

    /// The configured capacity.
    pub fn capacity(&self) -> (r: usize)
        ensures
            r == self.cap(),
    {
        self.capacity
    }

    /// The number of cached identifiers.
    pub fn len(&self) -> (r: usize)
        ensures
            r == self@.len(),
    {
        self.entries.len()
    }

    fn find(&self, id: &[u8; 16]) -> (r: Option<usize>)
        requires
            unique_ids(self@),
        ensures
            r matches Some(i) ==> cached(self@, id@) && i == pos(self@, id@),
            r is None ==> !cached(self@, id@),
    {
        let mut i: usize = 0;
        while i < self.entries.len()
            invariant
                i <= self@.len(),
                unique_ids(self@),
                forall|j: int| 0 <= j < i ==> self@[j].event_id != id@,
            decreases self@.len() - i,
        {
            if same_id(&self.entries[i].event_id, id) {
                assert(self@[i as int].event_id == id@);
                assert(cached(self@, id@));
                let ghost k = pos(self@, id@);
                assert(self@[k].event_id == id@);
                assert(k == i);
                return Some(i);
            }
            proof {
                if self@[i as int].event_id == id@ {
                    assert(self.entries@[i as int].event_id =~= *id);
                }
            }
            i = i + 1;
        }
        None
    }

    /// Look `id` up; a cached entry becomes the most recently used.
    pub fn probe(&mut self, id: &[u8; 16]) -> (r: Option<Placement>)
        requires
            old(self).wf(),
        ensures
            final(self).wf(),
            final(self).cap() == old(self).cap(),
            r is None <==> lookup(old(self)@, id@) is None,
            r matches Some(p) ==> lookup(old(self)@, id@) == Some(p@),
            final(self)@ == touch(old(self)@, id@),
    {
        match self.find(id) {
            Some(i) => {
                let ghost s = self@;
                let e = self.entries.remove(i);
                self.entries.push(e);
                assert(self@ =~= s.remove(i as int).push(s[i as int]));
                assert(unique_ids(self@)) by {
                    assert forall|a: int, b: int|
                        0 <= a < self@.len() && 0 <= b < self@.len() && a != b implies self@[a].event_id
                        != self@[b].event_id by {
                        let oa = if a == self@.len() - 1 { i as int } else if a < i { a } else { a + 1 };
                        let ob = if b == self@.len() - 1 { i as int } else if b < i { b } else { b + 1 };
                        assert(self@[a] == s[oa]);
                        assert(self@[b] == s[ob]);
                    }
                }
                Some(e.placement)
            },
            None => None,
        }
    }

    /// Record that `id` was committed at `p`.
    pub fn record(&mut self, id: [u8; 16], p: Placement)
        requires
            old(self).wf(),
        ensures
            final(self).wf(),
            final(self).cap() == old(self).cap(),
            final(self)@ == insert(old(self)@, id@, p@, old(self).cap()),
    {
        let ghost s = self@;
        let found = self.find(&id);
        match found {
            Some(i) => {
                self.entries.remove(i);
                assert(self@ =~= s.remove(i as int));
            },
            None => {},
        }
        let ghost u = self@;
        assert(!cached(u, id@)) by {
            if cached(u, id@) {
                let k = pos(u, id@);
                let i = pos(s, id@);
                let ok = if k < i { k } else { k + 1 };
                assert(u[k] == s[ok]);
            }
        }
        assert(unique_ids(u)) by {
            if let Some(i) = found {
                assert forall|a: int, b: int|
                    0 <= a < u.len() && 0 <= b < u.len() && a != b implies u[a].event_id
                    != u[b].event_id by {
                    let oa = if a < i { a } else { a + 1 };
                    let ob = if b < i { b } else { b + 1 };
                    assert(u[a] == s[oa]);
                    assert(u[b] == s[ob]);
                }
            }
        }
        self.entries.push(DedupEntry { event_id: id, placement: p });
        assert(self@ =~= u.push(EntryView { event_id: id@, placement: p@ }));
        if self.entries.len() > self.capacity {
            let ghost v = self@;
            self.entries.remove(0);
            assert(self@ =~= v.subrange(1, v.len() as int));
        }
        assert(self@ =~= insert(s, id@, p@, self.capacity as nat));
    }
}

pub proof fn lemma_pos(s: Seq<EntryView>, y: Seq<u8>, k: int)
    requires
        unique_ids(s),
        0 <= k < s.len(),
        s[k].event_id == y,
    ensures
        cached(s, y),
        pos(s, y) == k,
{
    assert(cached(s, y));
    let c = pos(s, y);
    assert(s[c].event_id == y);
}

pub proof fn lemma_insert(s: Seq<EntryView>, id: Seq<u8>, p: PlacementView, cap: nat, y: Seq<u8>)
    requires
        unique_ids(s),
        s.len() <= cap,
        cap > 0,
    ensures
        ({
            let t = insert(s, id, p, cap);
            &&& unique_ids(t)
            &&& t.len() <= cap
            &&& lookup(t, id) == Some(p)
            &&& dist(t, id) == 0
            &&& y != id && cached(t, y) ==> cached(s, y) && lookup(t, y) == lookup(s, y)
            &&& y != id && cached(s, y) && dist(s, y) + 1 < cap ==> cached(t, y) && dist(t, y)
                <= dist(s, y) + 1
            &&& y != id && !cached(s, id) && cached(s, y) && cached(t, y) ==> dist(t, y) == dist(
                s,
                y,
            ) + 1
        }),
{
    let t = insert(s, id, p, cap);
    let had = cached(s, id);
    let j = pos(s, id);
    let base = if had {
        s.remove(j)
    } else {
        s
    };
    let t0 = base.push(EntryView { event_id: id, placement: p });
    let dropped = t0.len() > cap;
    // index in `t` of the entry at index `k` of `s`, other than `id`
    let map_idx = |k: int|
        {
            let b = if had && k > j {
                k - 1
            } else {
                k
            };
            if dropped {
                b - 1
            } else {
                b
            }
        };
    // index in `s` of the entry at index `a` of `t`, other than the last one
    let back_idx = |a: int|
        {
            let b = if dropped {
                a + 1
            } else {
                a
            };
            if had && b >= j {
                b + 1
            } else {
                b
            }
        };
    if had {
        assert(s[j].event_id == id);
    }
    assert(!dropped ==> t == t0);
    assert(dropped ==> !had && s.len() == cap);
    assert forall|a: int| 0 <= a < t.len() - 1 implies #[trigger] t[a] == s[back_idx(a)] && 0
        <= back_idx(a) < s.len() && s[back_idx(a)].event_id != id by {
        if had {
            assert(back_idx(a) != j);
        }
    }
    assert(t[t.len() - 1] == EntryView { event_id: id, placement: p });
    assert(unique_ids(t)) by {
        assert forall|a: int, b: int|
            0 <= a < t.len() && 0 <= b < t.len() && a != b implies t[a].event_id
            != t[b].event_id by {
            if a < t.len() - 1 && b < t.len() - 1 {
                assert(back_idx(a) != back_idx(b));
            }
        }
    }
    lemma_pos(t, id, t.len() - 1);
    if y != id && cached(t, y) {
        let a = pos(t, y);
        assert(t[a].event_id == y);
        assert(a < t.len() - 1);
        lemma_pos(s, y, back_idx(a));
    }
    if y != id && cached(s, y) && (dist(s, y) + 1 < cap || (!had && cached(t, y))) {
        let k = pos(s, y);
        assert(s[k].event_id == y);
        if had {
            assert(k != j);
        }
        let a = map_idx(k);
        if dropped && dist(s, y) + 1 < cap {
            assert(k > 0);
        }
        if dropped && cached(t, y) {
            let a2 = pos(t, y);
            assert(t[a2].event_id == y);
            lemma_pos(s, y, back_idx(a2));
        }
        assert(0 <= a < t.len() - 1);
        assert(t[a] == s[k]) by {
            assert(back_idx(a) == k);
        }
        lemma_pos(t, y, a);
    }
}

/// A probe keeps what is cached, and where.
pub proof fn lemma_touch(s: Seq<EntryView>, id: Seq<u8>, y: Seq<u8>)
    requires
        unique_ids(s),
    ensures
        unique_ids(touch(s, id)),
        touch(s, id).len() == s.len(),
        cached(touch(s, id), y) == cached(s, y),
        lookup(touch(s, id), y) == lookup(s, y),
{
    let t = touch(s, id);
    if cached(s, id) {
        let i = pos(s, id);
        assert(s[i].event_id == id);
        let back = |a: int|
            if a == s.len() - 1 {
                i
            } else if a < i {
                a
            } else {
                a + 1
            };
        assert forall|a: int| 0 <= a < t.len() implies #[trigger] t[a] == s[back(a)] && 0 <= back(a)
            < s.len() by {}
        assert(unique_ids(t)) by {
            assert forall|a: int, b: int|
                0 <= a < t.len() && 0 <= b < t.len() && a != b implies t[a].event_id
                != t[b].event_id by {
                assert(t[a] == s[back(a)]);
                assert(t[b] == s[back(b)]);
            }
        }
        if cached(s, y) {
            let k = pos(s, y);
            assert(s[k].event_id == y);
            let a = if k == i {
                s.len() - 1
            } else if k < i {
                k
            } else {
                k - 1
            };
            assert(t[a] == s[back(a)]);
            lemma_pos(t, y, a);
        }
        if cached(t, y) {
            let a = pos(t, y);
            assert(t[a].event_id == y);
            assert(t[a] == s[back(a)]);
            lemma_pos(s, y, back(a));
        }
    }
}

proof fn lemma_replay_wf(s: Seq<EntryView>, es: Seq<EntryView>, cap: nat)
    requires
        unique_ids(s),
        s.len() <= cap,
        cap > 0,
    ensures
        unique_ids(replay(s, es, cap)),
        replay(s, es, cap).len() <= cap,
    decreases es.len(),
{
    if es.len() > 0 {
        let last = es[es.len() - 1];
        lemma_replay_wf(s, es.drop_last(), cap);
        lemma_insert(replay(s, es.drop_last(), cap), last.event_id, last.placement, cap, last.event_id);
    }
}

proof fn lemma_recent_survives_dist(s: Seq<EntryView>, es: Seq<EntryView>, cap: nat, i: int)
    requires
        unique_ids(s),
        s.len() <= cap,
        cap > 0,
        es.len() - cap <= i < es.len(),
        0 <= i,
        forall|j: int| i < j < es.len() ==> es[j].event_id != es[i].event_id,
    ensures
        cached(replay(s, es, cap), es[i].event_id),
        lookup(replay(s, es, cap), es[i].event_id) == Some(es[i].placement),
        dist(replay(s, es, cap), es[i].event_id) <= es.len() - 1 - i,
    decreases es.len(),
{
    let last = es[es.len() - 1];
    let prev = es.drop_last();
    lemma_replay_wf(s, prev, cap);
    let x = es[i].event_id;
    lemma_insert(replay(s, prev, cap), last.event_id, last.placement, cap, x);
    if i < es.len() - 1 {
        lemma_recent_survives_dist(s, prev, cap, i);
    }
}

/// Restart reconstruction keeps recent identifiers: after recording `es` in
/// order, an identifier among the last `cap` entries is cached with the
/// placement of its latest entry.
pub proof fn lemma_recent_survives(s: Seq<EntryView>, es: Seq<EntryView>, cap: nat, i: int)
    requires
        unique_ids(s),
        s.len() <= cap,
        cap > 0,
        0 <= i < es.len(),
        es.len() - cap <= i,
        forall|j: int| i < j < es.len() ==> es[j].event_id != es[i].event_id,
    ensures
        lookup(replay(s, es, cap), es[i].event_id) == Some(es[i].placement),
{
    lemma_recent_survives_dist(s, es, cap, i);
}

proof fn lemma_fresh_ages(s: Seq<EntryView>, es: Seq<EntryView>, cap: nat, x: Seq<u8>)
    requires
        unique_ids(s),
        s.len() <= cap,
        cap > 0,
        forall|a: int, b: int| 0 <= a < b < es.len() ==> es[a].event_id != es[b].event_id,
        forall|a: int| 0 <= a < es.len() ==> !cached(s, #[trigger] es[a].event_id),
        forall|a: int| 0 <= a < es.len() ==> #[trigger] es[a].event_id != x,
    ensures
        cached(replay(s, es, cap), x) ==> dist(replay(s, es, cap), x) >= es.len(),
        forall|y: Seq<u8>|
            #[trigger] cached(replay(s, es, cap), y) ==> cached(s, y) || exists|a: int|
                0 <= a < es.len() && es[a].event_id == y,
    decreases es.len(),
{
    if es.len() > 0 {
        let last = es[es.len() - 1];
        let prev = es.drop_last();
        let r = replay(s, prev, cap);
        lemma_fresh_ages(s, prev, cap, x);
        lemma_replay_wf(s, prev, cap);
        assert(!cached(r, last.event_id)) by {
            if cached(r, last.event_id) {
                assert(!cached(s, es[es.len() - 1].event_id));
                let a = choose|a: int| 0 <= a < prev.len() && prev[a].event_id == last.event_id;
                assert(es[a].event_id == es[es.len() - 1].event_id);
            }
        }
        lemma_insert(r, last.event_id, last.placement, cap, x);
        let t = replay(s, es, cap);
        assert forall|y: Seq<u8>| #[trigger] cached(t, y) implies cached(s, y) || exists|a: int|
            0 <= a < es.len() && es[a].event_id == y by {
            lemma_insert(r, last.event_id, last.placement, cap, y);
            if y != last.event_id {
                if !cached(s, y) {
                    let a = choose|a: int| 0 <= a < prev.len() && prev[a].event_id == y;
                    assert(es[a].event_id == y);
                }
            } else {
                assert(es[es.len() - 1].event_id == y);
            }
        }
        if cached(t, x) {
            if !cached(r, x) {
                assert(cached(s, x) || exists|a: int| 0 <= a < es.len() && es[a].event_id == x);
            }
        }
    }
}

/// Eviction: once `cap` identifiers that were not cached have been recorded,
/// none of them `x`, the cache no longer holds `x`.
pub proof fn lemma_fresh_evicts(s: Seq<EntryView>, es: Seq<EntryView>, cap: nat, x: Seq<u8>)
    requires
        unique_ids(s),
        s.len() <= cap,
        cap > 0,
        es.len() >= cap,
        forall|a: int, b: int| 0 <= a < b < es.len() ==> es[a].event_id != es[b].event_id,
        forall|a: int| 0 <= a < es.len() ==> !cached(s, #[trigger] es[a].event_id),
        forall|a: int| 0 <= a < es.len() ==> #[trigger] es[a].event_id != x,
    ensures
        lookup(replay(s, es, cap), x) is None,
{
    lemma_fresh_ages(s, es, cap, x);
    lemma_replay_wf(s, es, cap);
    let r = replay(s, es, cap);
    if cached(r, x) {
        let k = pos(r, x);
        assert(r[k].event_id == x);
    }
}

} // verus!
