//! The in-memory index from stream identifier to the ordered global
//! positions of that stream's events.
use vstd::prelude::*;

use crate::event::{same_id, EventView};

verus! {

/// The global positions of the events of stream `sid` in `log`, in log order.
pub open spec fn positions_in(log: Seq<EventView>, sid: Seq<u8>) -> Seq<u64>
    decreases log.len(),
{
    if log.len() == 0 {
        Seq::empty()
    } else {
        let rest = positions_in(log.drop_last(), sid);
        let last = log[log.len() - 1];
        if last.stream_id == sid {
            rest.push(last.global_position)
        } else {
            rest
        }
    }
}

/// Appending an event adds its position to its own stream only.
pub proof fn lemma_positions_push(log: Seq<EventView>, e: EventView, sid: Seq<u8>)
    ensures
        positions_in(log.push(e), sid) == if e.stream_id == sid {
            positions_in(log, sid).push(e.global_position)
        } else {
            positions_in(log, sid)
        },
{
    assert(log.push(e).drop_last() =~= log);
}

/// One stream's entry: its identifier and its positions.
pub struct StreamEntry {
    stream_id: [u8; 16],
    positions: Vec<u64>,
}

/// Maps each stream that has events to the global positions of its events.
pub struct StreamIndex {
    entries: Vec<StreamEntry>,
}

impl StreamIndex {
    /// The index describes exactly the streams of `log`.
    pub closed spec fn tracks(&self, log: Seq<EventView>) -> bool {
        &&& forall|k: int, l: int|
            0 <= k < self.entries@.len() && 0 <= l < self.entries@.len() && k != l
                ==> self.entries@[k].stream_id != self.entries@[l].stream_id
        &&& forall|k: int|
            0 <= k < self.entries@.len() ==> #[trigger] self.entries@[k].positions@
                == positions_in(log, self.entries@[k].stream_id@)
        &&& forall|sid: Seq<u8>|
            positions_in(log, sid).len() > 0 ==> exists|k: int|
                0 <= k < self.entries@.len() && #[trigger] self.entries@[k].stream_id@ == sid
    }

    /// The index of an empty log.
    pub fn new() -> (r: StreamIndex)
        ensures
            r.tracks(Seq::empty()),
    {
        StreamIndex { entries: Vec::new() }
    }

    fn find(&self, sid: &[u8; 16]) -> (r: Option<usize>)
        ensures
            r matches Some(k) ==> k < self.entries@.len() && self.entries@[k as int].stream_id
                == *sid,
            r is None ==> forall|k: int|
                0 <= k < self.entries@.len() ==> self.entries@[k].stream_id != *sid,
    {
        let mut k: usize = 0;
        while k < self.entries.len()
            invariant
                k <= self.entries@.len(),
                forall|j: int| 0 <= j < k ==> self.entries@[j].stream_id != *sid,
            decreases self.entries@.len() - k,
        {
            if same_id(&self.entries[k].stream_id, sid) {
                return Some(k);
            }
            k = k + 1;
        }
        None
    }

    /// The global positions of stream `sid`, in order.
    pub fn positions(&self, sid: &[u8; 16], Ghost(log): Ghost<Seq<EventView>>) -> (r: &[u64])
        requires
            self.tracks(log),
        ensures
            r@ == positions_in(log, sid@),
    {
        match self.find(sid) {
            Some(k) => self.entries[k].positions.as_slice(),
            None => {
                proof {
                    if positions_in(log, sid@).len() > 0 {
                        let k = choose|k: int|
                            0 <= k < self.entries@.len() && #[trigger] self.entries@[k].stream_id@
                                == sid@;
                        assert(self.entries@[k].stream_id =~= *sid);
                    }
                }
                let empty: &[u64] = &[];
                assert(empty@ =~= positions_in(log, sid@));
                empty
            },
        }
    }

    /// The number of events of stream `sid`: the version its next event gets.
    pub fn next_version(&self, sid: &[u8; 16], Ghost(log): Ghost<Seq<EventView>>) -> (r: usize)
        requires
            self.tracks(log),
        ensures
            r == positions_in(log, sid@).len(),
    {
        self.positions(sid, Ghost(log)).len()
    }

    /// Account for `e`, appended to `log`.
    pub fn add(
        &mut self,
        sid: [u8; 16],
        position: u64,
        Ghost(log): Ghost<Seq<EventView>>,
        Ghost(e): Ghost<EventView>,
    )
        requires
            old(self).tracks(log),
            e.stream_id == sid@,
            e.global_position == position,
        ensures
            final(self).tracks(log.push(e)),
    {
        let ghost new_log = log.push(e);
        let ghost old_entries = self.entries@;
        match self.find(&sid) {
            Some(k) => {
                let mut entry = self.entries.remove(k);
                entry.positions.push(position);
                self.entries.insert(k, entry);
                assert(forall|j: int|
                    0 <= j < self.entries@.len() && j != k ==> self.entries@[j] == old_entries[j]);
                assert(self.entries@[k as int].positions@ == positions_in(log, sid@).push(
                    e.global_position,
                ));
                assert(self.entries@[k as int].stream_id == sid);
            },
            None => {
                let mut positions: Vec<u64> = Vec::new();
                positions.push(position);
                proof {
                    if positions_in(log, sid@).len() > 0 {
                        let k = choose|k: int|
                            0 <= k < old_entries.len() && #[trigger] old_entries[k].stream_id@
                                == sid@;
                        assert(old_entries[k].stream_id =~= sid);
                    }
                }
                assert(positions@ =~= positions_in(log, sid@).push(position));
                self.entries.push(StreamEntry { stream_id: sid, positions });
                assert(forall|j: int| 0 <= j < old_entries.len() ==> self.entries@[j] == old_entries[j]);
                assert(self.entries@[old_entries.len() as int].stream_id == sid);
            },
        }
        assert(forall|j: int|
            0 <= j < old_entries.len() ==> self.entries@[j].stream_id == old_entries[j].stream_id);
        assert(exists|j: int| 0 <= j < self.entries@.len() && self.entries@[j].stream_id == sid);
        assert forall|j: int| 0 <= j < self.entries@.len() implies #[trigger] self.entries@[j].positions@
            == positions_in(new_log, self.entries@[j].stream_id@) by {
            lemma_positions_push(log, e, self.entries@[j].stream_id@);
            if self.entries@[j].stream_id@ == sid@ {
                assert(self.entries@[j].stream_id =~= sid);
            }
        }
        assert forall|sid2: Seq<u8>| positions_in(new_log, sid2).len() > 0 implies exists|j: int|
            0 <= j < self.entries@.len() && #[trigger] self.entries@[j].stream_id@ == sid2 by {
            lemma_positions_push(log, e, sid2);
            if sid2 != sid@ {
                let j = choose|j: int|
                    0 <= j < old_entries.len() && #[trigger] old_entries[j].stream_id@ == sid2;
                assert(self.entries@[j].stream_id@ == sid2);
            } else {
                let j = choose|j: int| 0 <= j < self.entries@.len() && self.entries@[j].stream_id == sid;
                assert(self.entries@[j].stream_id@ == sid2);
            }
        }
    }
}

} // verus!
