//! Binary codec of the log file: the file header and the record frames.
use vstd::prelude::*;

use vstd::slice::{slice_subrange, slice_to_vec};
use vstd::utf8::{decode_utf8, encode_utf8, valid_utf8};

use crate::error::Error;
use crate::event::{EventView, RecordedEvent};
use crate::le::{lemma_u16_round_trip, lemma_u32_bytes_round_trip, lemma_u32_round_trip, lemma_u64_round_trip, push_bytes, push_u16_le, push_u32_le, push_u64_le, read_u16_le, read_u32_le, read_u64_le, u16_le, u16_le_bytes, u32_le, u32_le_bytes, u64_le, u64_le_bytes};

verus! {

/// The eight bytes of the file header: the magic `EFDB`, then format version 1.
pub open spec fn header_bytes() -> Seq<u8> {
    seq![0x45u8, 0x46u8, 0x44u8, 0x42u8, 1u8, 0u8, 0u8, 0u8]
}

pub open spec fn magic_bytes() -> Seq<u8> {
    seq![0x45u8, 0x46u8, 0x44u8, 0x42u8]
}

/// The only on-disk format version that this codec reads and writes.
pub const FORMAT_VERSION: u32 = 1;

/// Encode the file header.
pub fn encode_header() -> (r: [u8; 8])
    ensures
        r@ == header_bytes(),
{
    let r: [u8; 8] = [0x45, 0x46, 0x44, 0x42, 1, 0, 0, 0];
    assert(r@ =~= header_bytes());
    r
}


/// The decimal digits of `n`, most significant first.
pub open spec fn decimal(n: nat) -> Seq<char>
    decreases n,
{
    let digit = seq!['0', '1', '2', '3', '4', '5', '6', '7', '8', '9'][(n % 10) as int];
    if n < 10 {
        seq![digit]
    } else {
        decimal(n / 10) + seq![digit]
    }
}

/// The message of a header whose version is not supported.
pub open spec fn version_message_text(v: u32) -> Seq<char> {
    "unsupported format version: "@ + decimal(v as nat)
}

/// Relies on `format!`: the fixed text followed by the decimal digits of `v`.
#[verifier::external_body]
fn version_message(v: u32) -> (r: String)
    ensures
        r@ == version_message_text(v),
{
    format!("unsupported format version: {v}")
}

/// Decode and validate the file header, returning its format version.
pub fn decode_header(buf: &[u8; 8]) -> (r: Result<u32, Error>)
    ensures
        buf@.subrange(0, 4) != magic_bytes() ==> (r matches Err(Error::InvalidHeader(m))
            && m@ == "wrong magic bytes: expected EFDB"@),
        buf@.subrange(0, 4) == magic_bytes() && u32_le(buf@.subrange(4, 8)) != FORMAT_VERSION
            ==> (r matches Err(Error::InvalidHeader(m)) && m@ == version_message_text(
            u32_le(buf@.subrange(4, 8)),
        )),
        buf@.subrange(0, 4) == magic_bytes() && u32_le(buf@.subrange(4, 8)) == FORMAT_VERSION
            ==> r == Ok::<u32, Error>(FORMAT_VERSION),
{
    let b = buf.as_slice();
    if !(b[0] == 0x45 && b[1] == 0x46 && b[2] == 0x44 && b[3] == 0x42) {
        assert(buf@.subrange(0, 4) != magic_bytes()) by {
            if buf@.subrange(0, 4) == magic_bytes() {
                assert(buf@.subrange(0, 4)[0] == buf@[0]);
                assert(buf@.subrange(0, 4)[1] == buf@[1]);
                assert(buf@.subrange(0, 4)[2] == buf@[2]);
                assert(buf@.subrange(0, 4)[3] == buf@[3]);
            }
        }
        return Err(Error::InvalidHeader("wrong magic bytes: expected EFDB".to_string()));
    }
    assert(buf@.subrange(0, 4) =~= magic_bytes());
    let version = read_u32_le(b, 4);
    if version != FORMAT_VERSION {
        return Err(Error::InvalidHeader(version_message(version)));
    }
    Ok(version)
}

/// Result of attempting to decode a single record from the start of a buffer.
#[derive(Debug)]
pub enum DecodeOutcome {
    /// A full record was decoded; `consumed` counts its bytes, length prefix included.
    Complete { event: RecordedEvent, consumed: usize },
    /// The buffer does not yet hold a whole record.
    Incomplete,
}

/// The bytes that a record's checksum covers: every field from the global
/// position through the payload.
pub open spec fn body_bytes(e: EventView) -> Seq<u8> {
    u64_le_bytes(e.global_position) + e.stream_id + u64_le_bytes(e.stream_version) + e.event_id
        + u16_le_bytes(encode_utf8(e.event_type).len() as u16) + encode_utf8(e.event_type)
        + u32_le_bytes(e.metadata.len() as u32) + e.metadata + u32_le_bytes(
        e.payload.len() as u32,
    ) + e.payload
}

/// The frame of a record: the body length (checksum included), the body, and
/// the CRC-32 of the body.
pub open spec fn frame_bytes(e: EventView) -> Seq<u8> {
    u32_le_bytes((body_bytes(e).len() + 4) as u32) + body_bytes(e) + u32_le_bytes(
        crc32_of(body_bytes(e)),
    )
}

/// The event fits the frame's length fields: a 16-bit type length and a
/// 32-bit record length.
pub open spec fn fits_frame(e: EventView) -> bool {
    &&& e.wf()
    &&& encode_utf8(e.event_type).len() <= 0xffff
    &&& body_bytes(e).len() + 4 <= 0xffff_ffff
}

/// The CRC-32 (IEEE) checksum of a byte sequence.
pub uninterp spec fn crc32_of(b: Seq<u8>) -> u32;

/// Relies on `crc32fast::hash`: the CRC-32 (IEEE) of the bytes, which depends
/// on the bytes alone.
#[verifier::external_body]
fn crc32(b: &[u8]) -> (r: u32)
    ensures
        r == crc32_of(b@),
{
    crc32fast::hash(b)
}

/// Relies on `std::str::from_utf8`: text exactly when the bytes are valid
/// UTF-8, and then the text whose UTF-8 encoding they are.
#[verifier::external_body]
fn utf8_text(b: &[u8]) -> (r: Option<&str>)
    ensures
        r is Some <==> valid_utf8(b@),
        r matches Some(s) ==> encode_utf8(s@) == b@,
{
    std::str::from_utf8(b).ok()
}

/// Encode an event into its on-disk frame.
pub fn encode_record(event: &RecordedEvent) -> (r: Vec<u8>)
    requires
        fits_frame(event@),
    ensures
        r@ == frame_bytes(event@),
{
    let et = event.event_type.as_str().as_bytes();
    let body_len: u64 = 62 + et.len() as u64 + event.metadata.len() as u64
        + event.payload.len() as u64;
    let mut buf: Vec<u8> = Vec::new();
    push_u32_le(&mut buf, body_len as u32);
    push_u64_le(&mut buf, event.global_position);
    push_bytes(&mut buf, event.stream_id.as_slice());
    push_u64_le(&mut buf, event.stream_version);
    push_bytes(&mut buf, event.event_id.as_slice());
    push_u16_le(&mut buf, et.len() as u16);
    push_bytes(&mut buf, et);
    push_u32_le(&mut buf, event.metadata.len() as u32);
    push_bytes(&mut buf, event.metadata.as_slice());
    push_u32_le(&mut buf, event.payload.len() as u32);
    push_bytes(&mut buf, event.payload.as_slice());
    let ghost body = body_bytes(event@);
    assert(buf@ =~= u32_le_bytes((body.len() + 4) as u32) + body);
    let crc = crc32(slice_subrange(buf.as_slice(), 4, buf.len()));
    assert(buf@.subrange(4, buf@.len() as int) =~= body);
    push_u32_le(&mut buf, crc);
    buf
}

/// What decoding a buffer yields, as a value.
pub enum Decoded {
    Complete { event: EventView, consumed: nat },
    Incomplete,
    Corrupt,
}

/// The fields of a record held in the checksummed part of its body, if the
/// length fields stay inside it and the event type is valid UTF-8.
/// Bytes after the payload are not read.
pub open spec fn fields_of(p: Seq<u8>) -> Option<EventView> {
    if p.len() < 54 {
        None
    } else {
        let etl = u16_le(p.subrange(48, 50)) as int;
        if p.len() < 54 + etl {
            None
        } else {
            let et = p.subrange(50, 50 + etl);
            let ml = u32_le(p.subrange(50 + etl, 54 + etl)) as int;
            if p.len() < 58 + etl + ml {
                None
            } else {
                let pl = u32_le(p.subrange(54 + etl + ml, 58 + etl + ml)) as int;
                if p.len() < 58 + etl + ml + pl || !valid_utf8(et) {
                    None
                } else {
                    Some(
                        EventView {
                            global_position: u64_le(p.subrange(0, 8)),
                            stream_id: p.subrange(8, 24),
                            stream_version: u64_le(p.subrange(24, 32)),
                            event_id: p.subrange(32, 48),
                            event_type: decode_utf8(et),
                            metadata: p.subrange(54 + etl, 54 + etl + ml),
                            payload: p.subrange(58 + etl + ml, 58 + etl + ml + pl),
                        },
                    )
                }
            }
        }
    }
}

/// What a buffer positioned at the start of a record decodes to.
pub open spec fn decode_spec(buf: Seq<u8>) -> Decoded {
    if buf.len() < 4 {
        Decoded::Incomplete
    } else {
        let len = u32_le(buf.subrange(0, 4)) as int;
        if buf.len() < 4 + len {
            Decoded::Incomplete
        } else if len < 4 {
            Decoded::Corrupt
        } else if u32_le(buf.subrange(len, len + 4)) != crc32_of(buf.subrange(4, len)) {
            Decoded::Corrupt
        } else {
            match fields_of(buf.subrange(4, len)) {
                Some(e) => Decoded::Complete { event: e, consumed: (4 + len) as nat },
                None => Decoded::Corrupt,
            }
        }
    }
}

/// `r` is the executable form of `d`.
pub open spec fn outcome_is(r: Result<DecodeOutcome, Error>, d: Decoded) -> bool {
    match d {
        Decoded::Incomplete => r matches Ok(DecodeOutcome::Incomplete),
        Decoded::Corrupt => r matches Err(Error::CorruptRecord { .. }),
        Decoded::Complete { event, consumed } => match r {
            Ok(DecodeOutcome::Complete { event: e, consumed: c }) => e@ == event && c
                == consumed,
            _ => false,
        },
    }
}

/// The sixteen bytes at `at` in `b`.
fn id_at(b: &[u8], at: usize) -> (r: [u8; 16])
    requires
        at + 16 <= b@.len(),
    ensures
        r@ == b@.subrange(at as int, at + 16),
{
    let mut r: [u8; 16] = [0u8; 16];
    let mut i: usize = 0;
    while i < 16
        invariant
            i <= 16,
            at + 16 <= b.len(),
            forall|j: int| 0 <= j < i ==> r@[j] == b@[at + j],
        decreases 16 - i,
    {
        r[i] = b[at + i];
        i = i + 1;
    }
    assert(r@ =~= b@.subrange(at as int, at + 16));
    r
}

fn corrupt(detail: &str) -> (r: Error)
    ensures
        r matches Error::CorruptRecord { .. },
{
    Error::CorruptRecord { position: 0, detail: detail.to_string() }
}

/// Decode the fields held in the checksummed part of a record body.
fn decode_fields(p: &[u8]) -> (r: Option<RecordedEvent>)
    ensures
        match fields_of(p@) {
            Some(e) => r matches Some(x) && x@ == e,
            None => r is None,
        },
{
    let n = p.len();
    if n < 54 {
        return None;
    }
    let etl = read_u16_le(p, 48) as usize;
    if n - 54 < etl {
        return None;
    }
    let et = slice_subrange(p, 50, 50 + etl);
    let ml = read_u32_le(p, 50 + etl) as usize;
    if n - 54 - etl < 4 || n - 58 - etl < ml {
        return None;
    }
    let pl = read_u32_le(p, 54 + etl + ml) as usize;
    if n - 58 - etl - ml < pl {
        return None;
    }
    let text = match utf8_text(et) {
        Some(t) => t,
        None => {
            return None;
        },
    };
    proof {
        vstd::utf8::decode_utf8_encode_utf8(et@);
        vstd::utf8::encode_utf8_decode_utf8(text@);
    }
    let event = RecordedEvent {
        global_position: read_u64_le(p, 0),
        stream_id: id_at(p, 8),
        stream_version: read_u64_le(p, 24),
        event_id: id_at(p, 32),
        event_type: text.to_owned(),
        metadata: slice_to_vec(slice_subrange(p, 54 + etl, 54 + etl + ml)),
        payload: slice_to_vec(slice_subrange(p, 58 + etl + ml, 58 + etl + ml + pl)),
    };
    Some(event)
}

/// Decode a single record from the start of a byte buffer.
///
/// A buffer too short for the length prefix, or for the record it announces,
/// is `Incomplete`; a checksum mismatch or a malformed field is a
/// `CorruptRecord` error. Bytes after the record are not inspected.
pub fn decode_record(buf: &[u8]) -> (r: Result<DecodeOutcome, Error>)
    ensures
        outcome_is(r, decode_spec(buf@)),
{
    if buf.len() < 4 {
        return Ok(DecodeOutcome::Incomplete);
    }
    let record_length = read_u32_le(buf, 0) as usize;
    if buf.len() - 4 < record_length {
        return Ok(DecodeOutcome::Incomplete);
    }
    let total = 4 + record_length;
    if record_length < 4 {
        return Err(corrupt("record body too short for checksum"));
    }
    let stored_crc = read_u32_le(buf, record_length);
    let protected = slice_subrange(buf, 4, record_length);
    let computed_crc = crc32(protected);
    if stored_crc != computed_crc {
        return Err(corrupt("CRC32 mismatch between stored and computed checksum"));
    }
    match decode_fields(protected) {
        Some(event) => Ok(DecodeOutcome::Complete { event, consumed: total }),
        None => Err(corrupt("malformed record body")),
    }
}

/// The length of a record body.
pub proof fn lemma_body_len(e: EventView)
    requires
        e.wf(),
    ensures
        body_bytes(e).len() == 58 + encode_utf8(e.event_type).len() + e.metadata.len()
            + e.payload.len(),
{
}

proof fn lemma_frame_layout(e: EventView)
    requires
        fits_frame(e),
    ensures
        ({
            let body = body_bytes(e);
            let et = encode_utf8(e.event_type);
            let f = frame_bytes(e);
            &&& body.len() == 58 + et.len() + e.metadata.len() + e.payload.len()
            &&& f.len() == body.len() as int + 8
            &&& f.subrange(0, 4) == u32_le_bytes((body.len() + 4) as u32)
            &&& u32_le(f.subrange(0, 4)) == body.len() as int + 4
            &&& f.subrange(4, body.len() as int + 4) == body
            &&& u32_le(f.subrange(body.len() as int + 4, body.len() as int + 8)) == crc32_of(body)
        }),
{
    let body = body_bytes(e);
    let f = frame_bytes(e);
    lemma_u32_round_trip((body.len() + 4) as u32);
    lemma_u32_round_trip(crc32_of(body));
    assert(f.subrange(0, 4) =~= u32_le_bytes((body.len() + 4) as u32));
    assert(f.subrange(4, body.len() as int + 4) =~= body);
    assert(f.subrange(body.len() as int + 4, body.len() as int + 8) =~= u32_le_bytes(crc32_of(body)));
}

proof fn lemma_fields_of_body(e: EventView)
    requires
        fits_frame(e),
    ensures
        fields_of(body_bytes(e)) == Some(e),
{
    let p = body_bytes(e);
    let et = encode_utf8(e.event_type);
    let etl = et.len() as int;
    let ml = e.metadata.len() as int;
    let pl = e.payload.len() as int;
    lemma_u64_round_trip(e.global_position);
    lemma_u64_round_trip(e.stream_version);
    lemma_u16_round_trip(et.len() as u16);
    lemma_u32_round_trip(e.metadata.len() as u32);
    lemma_u32_round_trip(e.payload.len() as u32);
    vstd::utf8::encode_utf8_valid_utf8(e.event_type);
    vstd::utf8::encode_utf8_decode_utf8(e.event_type);
    assert(p.subrange(0, 8) =~= u64_le_bytes(e.global_position));
    assert(p.subrange(8, 24) =~= e.stream_id);
    assert(p.subrange(24, 32) =~= u64_le_bytes(e.stream_version));
    assert(p.subrange(32, 48) =~= e.event_id);
    assert(p.subrange(48, 50) =~= u16_le_bytes(et.len() as u16));
    assert(p.subrange(50, 50 + etl) =~= et);
    assert(p.subrange(50 + etl, 54 + etl) =~= u32_le_bytes(e.metadata.len() as u32));
    assert(p.subrange(54 + etl, 54 + etl + ml) =~= e.metadata);
    assert(p.subrange(54 + etl + ml, 58 + etl + ml) =~= u32_le_bytes(e.payload.len() as u32));
    assert(p.subrange(58 + etl + ml, 58 + etl + ml + pl) =~= e.payload);
}

/// Round trip: a frame decodes to the event that was encoded, and consumes
/// exactly the frame, whatever bytes follow it.
#[verifier::rlimit(40)]
pub proof fn lemma_decode_encoded(e: EventView, rest: Seq<u8>)
    requires
        fits_frame(e),
    ensures
        decode_spec(frame_bytes(e) + rest) == (Decoded::Complete {
            event: e,
            consumed: frame_bytes(e).len(),
        }),
{
    let f = frame_bytes(e);
    let buf = f + rest;
    let body = body_bytes(e);
    let len: int = body.len() as int + 4;
    lemma_frame_layout(e);
    lemma_fields_of_body(e);
    assert(buf.subrange(0, 4) =~= f.subrange(0, 4));
    assert(buf.subrange(4, len) =~= f.subrange(4, len));
    assert(buf.subrange(len, len + 4) =~= f.subrange(len, len + 4));    assert(u32_le(buf.subrange(0, 4)) as int == len);
    assert(fields_of(buf.subrange(4, len)) == Some(e));
    assert(u32_le(buf.subrange(len, len + 4)) == crc32_of(buf.subrange(4, len)));
}

/// Encoding is deterministic: equal events have byte-identical frames.
pub proof fn lemma_encode_deterministic(a: EventView, b: EventView)
    requires
        a == b,
    ensures
        frame_bytes(a) == frame_bytes(b),
{
}

/// A proper prefix of a frame is incomplete, never corrupt.
pub proof fn lemma_prefix_incomplete(e: EventView, k: int)
    requires
        fits_frame(e),
        0 <= k < frame_bytes(e).len(),
    ensures
        decode_spec(frame_bytes(e).subrange(0, k)) == Decoded::Incomplete,
{
    let f = frame_bytes(e);
    lemma_frame_layout(e);
    if k >= 4 {
        assert(f.subrange(0, k).subrange(0, 4) =~= f.subrange(0, 4));
    }
}

/// A frame with one bit of `byte` flipped at index `i`.
pub open spec fn flip_bit(f: Seq<u8>, i: int, bit: u8) -> Seq<u8> {
    f.update(i, f[i] ^ (1u8 << bit))
}

/// Flipping any single bit of a frame's stored checksum makes it corrupt.
pub proof fn lemma_checksum_flip_corrupt(e: EventView, i: int, bit: u8)
    requires
        fits_frame(e),
        frame_bytes(e).len() - 4 <= i < frame_bytes(e).len(),
        bit < 8,
    ensures
        decode_spec(flip_bit(frame_bytes(e), i, bit)) == Decoded::Corrupt,
{
    let f = frame_bytes(e);
    let g = flip_bit(f, i, bit);
    let body = body_bytes(e);
    let len: int = body.len() as int + 4;
    lemma_frame_layout(e);
    let x = f[i];
    assert(x ^ (1u8 << bit) != x) by (bit_vector)
        requires
            bit < 8,
    ;
    assert(g.subrange(0, 4) =~= f.subrange(0, 4));
    assert(g.subrange(4, len) =~= f.subrange(4, len));
    let stored = g.subrange(len, len + 4);
    lemma_u32_bytes_round_trip(stored);
    lemma_u32_round_trip(crc32_of(body));
    assert(f.subrange(len, len + 4) =~= u32_le_bytes(crc32_of(body)));
    assert(stored[i - len] != f.subrange(len, len + 4)[i - len]);
    assert(u32_le(stored) != crc32_of(body));
}

/// Flipping any single bit of a frame's body makes it corrupt, unless the
/// altered body happens to have the same CRC-32 as the original one.
pub proof fn lemma_body_flip_corrupt(e: EventView, i: int, bit: u8)
    requires
        fits_frame(e),
        4 <= i < frame_bytes(e).len() - 4,
        bit < 8,
    ensures
        ({
            let g = flip_bit(frame_bytes(e), i, bit);
            let n = frame_bytes(e).len() - 4;
            crc32_of(g.subrange(4, n)) != crc32_of(body_bytes(e)) ==> decode_spec(g)
                == Decoded::Corrupt
        }),
{
    let f = frame_bytes(e);
    let g = flip_bit(f, i, bit);
    let body = body_bytes(e);
    let len: int = body.len() as int + 4;
    lemma_frame_layout(e);
    assert(g.subrange(0, 4) =~= f.subrange(0, 4));
    assert(g.subrange(len, len + 4) =~= f.subrange(len, len + 4));
}

} // verus!
