//! The recorded event, the unit of storage.
use vstd::prelude::*;
use vstd::slice::slice_to_vec;

verus! {

/// A committed event, with its identity, its placement and its content.
///
/// Identifiers are 128 bits wide and held as their sixteen raw bytes.
#[derive(Debug, Clone, PartialEq, Eq)]
pub struct RecordedEvent {
    pub event_id: [u8; 16],
    pub stream_id: [u8; 16],
    pub stream_version: u64,
    pub global_position: u64,
    pub event_type: String,
    pub metadata: Vec<u8>,
    pub payload: Vec<u8>,
}

/// The optimistic-concurrency precondition of an append.
#[derive(Debug, Clone, Copy, PartialEq, Eq)]
pub enum ExpectedVersion {
    /// No condition.
    Any,
    /// The stream has no events yet.
    NoStream,
    /// The stream has at least one event.
    StreamExists,
    /// The batch's first event gets exactly this stream version.
    Exact(u64),
}

/// The mathematical value of a [`RecordedEvent`].
pub struct EventView {
    pub event_id: Seq<u8>,
    pub stream_id: Seq<u8>,
    pub stream_version: u64,
    pub global_position: u64,
    pub event_type: Seq<char>,
    pub metadata: Seq<u8>,
    pub payload: Seq<u8>,
}

impl View for RecordedEvent {
    type V = EventView;

    open spec fn view(&self) -> EventView {
        EventView {
            event_id: self.event_id@,
            stream_id: self.stream_id@,
            stream_version: self.stream_version,
            global_position: self.global_position,
            event_type: self.event_type@,
            metadata: self.metadata@,
            payload: self.payload@,
        }
    }
}

impl EventView {
    /// Both identifiers are sixteen bytes long.
    pub open spec fn wf(self) -> bool {
        self.event_id.len() == 16 && self.stream_id.len() == 16
    }
}

impl RecordedEvent {
    /// A copy of the event with the same value.
    pub fn copy(&self) -> (r: RecordedEvent)
        ensures
            r@ == self@,
    {
        RecordedEvent {
            event_id: self.event_id,
            stream_id: self.stream_id,
            stream_version: self.stream_version,
            global_position: self.global_position,
            event_type: self.event_type.clone(),
            metadata: slice_to_vec(self.metadata.as_slice()),
            payload: slice_to_vec(self.payload.as_slice()),
        }
    }
}

/// Whether two identifiers are equal, byte by byte.
pub fn same_id(a: &[u8; 16], b: &[u8; 16]) -> (r: bool)
    ensures
        r == (*a == *b),
{
    let mut i: usize = 0;
    while i < 16
        invariant
            i <= 16,
            forall|j: int| 0 <= j < i ==> a@[j] == b@[j],
        decreases 16 - i,
    {
        if a[i] != b[i] {
            assert(a@[i as int] != b@[i as int]);
            return false;
        }
        i = i + 1;
    }
    assert(*a =~= *b);
    true
}

} // verus!
