use eventfold_db::codec::{decode_header, decode_record, encode_header, encode_record, DecodeOutcome};
use eventfold_db::error::Error;
use eventfold_db::event::RecordedEvent;

fn make_event(
    global_position: u64,
    stream_version: u64,
    event_type: &str,
    metadata: &[u8],
    payload: &[u8],
) -> RecordedEvent {
    RecordedEvent {
        event_id: *uuid::Uuid::new_v4().as_bytes(),
        stream_id: *uuid::Uuid::new_v4().as_bytes(),
        stream_version,
        global_position,
        event_type: event_type.to_string(),
        metadata: metadata.to_vec(),
        payload: payload.to_vec(),
    }
}

fn assert_round_trip(event: &RecordedEvent) {
    let buf = encode_record(event);
    let result = decode_record(&buf).expect("decode should succeed");
    match result {
        DecodeOutcome::Complete {
            event: decoded,
            consumed,
        } => {
            assert_eq!(&decoded, event);
            assert_eq!(consumed, buf.len());
        }
        DecodeOutcome::Incomplete => panic!("expected Complete, got Incomplete"),
    }
}

#[test]
fn decode_outcome_complete_is_constructible() {
    let event = RecordedEvent {
        event_id: *uuid::Uuid::new_v4().as_bytes(),
        stream_id: *uuid::Uuid::new_v4().as_bytes(),
        stream_version: 0,
        global_position: 0,
        event_type: "TestEvent".to_string(),
        metadata: Vec::new(),
        payload: b"{}".to_vec(),
    };
    let outcome = DecodeOutcome::Complete {
        event,
        consumed: 100,
    };
    assert!(matches!(
        outcome,
        DecodeOutcome::Complete { consumed: 100, .. }
    ));
}

#[test]
fn decode_outcome_incomplete_is_constructible() {
    let outcome = DecodeOutcome::Incomplete;
    assert!(matches!(outcome, DecodeOutcome::Incomplete));
}

#[test]
fn decode_outcome_debug_is_non_empty() {
    let outcome = DecodeOutcome::Incomplete;
    let debug_str = format!("{outcome:?}");
    assert!(!debug_str.is_empty());
}

#[test]
fn ac3a_round_trip_non_empty_metadata_and_payload() {
    let event = make_event(0, 0, "OrderPlaced", b"meta-data", b"{\"qty\":1}");
    assert_round_trip(&event);
}

#[test]
fn ac3b_round_trip_empty_metadata_and_payload() {
    let event = make_event(5, 2, "ItemRemoved", b"", b"");
    assert_round_trip(&event);
}

#[test]
fn ac3c_round_trip_max_length_event_type() {
    let event_type: String = "A".repeat(256);
    let event = make_event(10, 0, &event_type, b"m", b"p");
    assert_round_trip(&event);
}

#[test]
fn ac3d_round_trip_binary_data_with_null_bytes() {
    let binary_data = b"\x00\xff\x00\xff";
    let event = make_event(7, 3, "BinaryEvent", binary_data, binary_data);
    assert_round_trip(&event);
}

#[test]
fn ac4_encode_determinism() {
    let event = make_event(0, 0, "Deterministic", b"meta", b"payload");
    let buf1 = encode_record(&event);
    let buf2 = encode_record(&event);
    assert_eq!(buf1, buf2);
}

#[test]
fn ac5a_crc_mismatch_flipped_payload_bit() {
    let event = make_event(0, 0, "TestEvent", b"meta", b"payload-data");
    let mut buf = encode_record(&event);
    let idx = buf.len() - 5;
    buf[idx] ^= 0x01;
    let result = decode_record(&buf);
    assert!(
        matches!(result, Err(Error::CorruptRecord { .. })),
        "expected CorruptRecord, got: {result:?}"
    );
}

#[test]
fn ac5b_crc_mismatch_flipped_stream_id_bit() {
    let event = make_event(0, 0, "TestEvent", b"meta", b"payload");
    let mut buf = encode_record(&event);
    buf[8] ^= 0x01;
    let result = decode_record(&buf);
    assert!(
        matches!(result, Err(Error::CorruptRecord { .. })),
        "expected CorruptRecord, got: {result:?}"
    );
}

#[test]
fn ac5c_crc_mismatch_flipped_checksum_bit() {
    let event = make_event(0, 0, "TestEvent", b"meta", b"payload");
    let mut buf = encode_record(&event);
    let last = buf.len() - 1;
    buf[last] ^= 0x01;
    let result = decode_record(&buf);
    assert!(
        matches!(result, Err(Error::CorruptRecord { .. })),
        "expected CorruptRecord, got: {result:?}"
    );
}

#[test]
fn ac6a_incomplete_2_byte_buffer() {
    let result = decode_record(&[0x00, 0x01]).expect("should not error");
    assert!(
        matches!(result, DecodeOutcome::Incomplete),
        "expected Incomplete, got: {result:?}"
    );
}

#[test]
fn ac6b_incomplete_large_length_small_buffer() {
    let mut buf = [0u8; 10];
    buf[0..4].copy_from_slice(&1000u32.to_le_bytes());
    let result = decode_record(&buf).expect("should not error");
    assert!(
        matches!(result, DecodeOutcome::Incomplete),
        "expected Incomplete, got: {result:?}"
    );
}

#[test]
fn ac6c_extra_trailing_bytes_consumed_correctly() {
    let event = make_event(0, 0, "TestEvent", b"meta", b"payload");
    let mut buf = encode_record(&event);
    let expected_consumed = buf.len();
    buf.extend_from_slice(&[0xAA, 0xBB, 0xCC]);
    let result = decode_record(&buf).expect("decode should succeed");
    match result {
        DecodeOutcome::Complete { consumed, .. } => {
            assert_eq!(
                consumed, expected_consumed,
                "consumed should equal encoded record length, not total buffer"
            );
        }
        DecodeOutcome::Incomplete => panic!("expected Complete, got Incomplete"),
    }
}

#[test]
fn ac7_three_records_sequential_decode() {
    let events: Vec<RecordedEvent> = (0..3)
        .map(|i| {
            make_event(
                i,
                i,
                &format!("Event{i}"),
                format!("meta{i}").as_bytes(),
                format!("payload{i}").as_bytes(),
            )
        })
        .collect();

    let mut combined = Vec::new();
    for event in &events {
        combined.extend_from_slice(&encode_record(event));
    }

    let mut offset = 0;
    let mut total_consumed = 0;
    for (i, expected) in events.iter().enumerate() {
        let result = decode_record(&combined[offset..])
            .unwrap_or_else(|e| panic!("decode {i} should succeed: {e:?}"));
        match result {
            DecodeOutcome::Complete {
                event: decoded,
                consumed,
            } => {
                assert_eq!(&decoded, expected, "event {i} fields mismatch");
                offset += consumed;
                total_consumed += consumed;
            }
            DecodeOutcome::Incomplete => panic!("expected Complete for event {i}"),
        }
    }
    assert_eq!(total_consumed, combined.len());
}

#[test]
fn ac8_field_boundary_correctness() {
    let known_pos: u64 = 0xABCD_EF01_2345_6789;
    let event = make_event(known_pos, 0, "BoundaryTest", b"m", b"p");
    let buf = encode_record(&event);

    assert_eq!(
        &buf[4..12],
        &known_pos.to_le_bytes(),
        "global_position at bytes 4..12"
    );

    let record_length = u32::from_le_bytes([buf[0], buf[1], buf[2], buf[3]]);
    assert_eq!(
        record_length,
        (buf.len() - 4) as u32,
        "record_length should be total len minus 4"
    );

    let stored_crc = u32::from_le_bytes([
        buf[buf.len() - 4],
        buf[buf.len() - 3],
        buf[buf.len() - 2],
        buf[buf.len() - 1],
    ]);
    let expected_crc = crc32fast::hash(&buf[4..buf.len() - 4]);
    assert_eq!(
        stored_crc, expected_crc,
        "CRC32 checksum at end should match body hash"
    );
}

#[test]
fn ac9_invalid_utf8_event_type() {
    let event = make_event(0, 0, "AB", b"", b"");
    let mut buf = encode_record(&event);
    let et_offset = 4 + 8 + 16 + 8 + 16 + 2;
    buf[et_offset] = 0xFF;
    buf[et_offset + 1] = 0xFE;
    let body = &buf[4..buf.len() - 4];
    let new_crc = crc32fast::hash(body);
    let crc_offset = buf.len() - 4;
    buf[crc_offset..].copy_from_slice(&new_crc.to_le_bytes());

    let result = decode_record(&buf);
    assert!(
        matches!(result, Err(Error::CorruptRecord { .. })),
        "expected CorruptRecord for invalid UTF-8, got: {result:?}"
    );
}

#[test]
fn encode_header_returns_8_bytes() {
    assert_eq!(encode_header().len(), 8);
}

#[test]
fn encode_header_first_4_bytes_are_magic() {
    let header = encode_header();
    assert_eq!(&header[0..4], &[0x45, 0x46, 0x44, 0x42]);
}

#[test]
fn encode_header_bytes_4_to_8_are_version_1_le() {
    let header = encode_header();
    assert_eq!(&header[4..8], &1u32.to_le_bytes());
}

#[test]
fn decode_header_round_trip_returns_version_1() {
    let header = encode_header();
    let version = decode_header(&header).expect("valid header should decode");
    assert_eq!(version, 1);
}

#[test]
fn decode_header_wrong_magic_returns_error_mentioning_magic() {
    let buf: [u8; 8] = [0x00, 0x00, 0x00, 0x00, 0x01, 0x00, 0x00, 0x00];
    let err = decode_header(&buf).expect_err("wrong magic should fail");
    match err {
        Error::InvalidHeader(msg) => {
            assert!(
                msg.contains("magic"),
                "error message should mention 'magic', got: {msg}"
            );
        }
        other => panic!("expected InvalidHeader, got: {other:?}"),
    }
}

#[test]
fn decode_header_unsupported_version_returns_error_mentioning_version() {
    let mut buf = [0u8; 8];
    buf[0..4].copy_from_slice(&[0x45, 0x46, 0x44, 0x42]);
    buf[4..8].copy_from_slice(&99u32.to_le_bytes());
    let err = decode_header(&buf).expect_err("unsupported version should fail");
    match err {
        Error::InvalidHeader(msg) => {
            assert!(
                msg.contains("version"),
                "error message should mention 'version', got: {msg}"
            );
        }
        other => panic!("expected InvalidHeader, got: {other:?}"),
    }
}

#[test]
fn header_bytes_are_exact() {
    assert_eq!(encode_header(), [0x45, 0x46, 0x44, 0x42, 0x01, 0x00, 0x00, 0x00]);
}

#[test]
fn header_version_99_message_is_exact() {
    let buf: [u8; 8] = [0x45, 0x46, 0x44, 0x42, 0x63, 0x00, 0x00, 0x00];
    assert_eq!(
        decode_header(&buf),
        Err(Error::InvalidHeader("unsupported format version: 99".to_string()))
    );
}

#[test]
fn header_wrong_magic_message_is_exact() {
    let buf: [u8; 8] = [0x45, 0x46, 0x44, 0x43, 0x01, 0x00, 0x00, 0x00];
    assert_eq!(
        decode_header(&buf),
        Err(Error::InvalidHeader("wrong magic bytes: expected EFDB".to_string()))
    );
}

#[test]
fn frame_layout_of_known_event() {
    let event = RecordedEvent {
        event_id: [2u8; 16],
        stream_id: [1u8; 16],
        stream_version: 3,
        global_position: 0xABCD_EF01_2345_6789,
        event_type: "OrderPlaced".to_string(),
        metadata: b"meta-data".to_vec(),
        payload: b"{\"qty\":1}".to_vec(),
    };
    let buf = encode_record(&event);
    let body_len = 8 + 16 + 8 + 16 + 2 + 11 + 4 + 9 + 4 + 9;
    assert_eq!(buf.len(), 4 + body_len + 4);
    assert_eq!(&buf[0..4], &((body_len + 4) as u32).to_le_bytes());
    assert_eq!(&buf[4..12], &0xABCD_EF01_2345_6789u64.to_le_bytes());
    assert_eq!(&buf[12..28], &[1u8; 16]);
    assert_eq!(&buf[28..36], &3u64.to_le_bytes());
    assert_eq!(&buf[36..52], &[2u8; 16]);
    assert_eq!(&buf[52..54], &11u16.to_le_bytes());
    assert_eq!(&buf[54..65], b"OrderPlaced");
    assert_eq!(&buf[65..69], &9u32.to_le_bytes());
    assert_eq!(&buf[69..78], b"meta-data");
    assert_eq!(&buf[78..82], &9u32.to_le_bytes());
    assert_eq!(&buf[82..91], b"{\"qty\":1}");
    let crc = crc32fast::hash(&buf[4..91]);
    assert_eq!(&buf[91..95], &crc.to_le_bytes());
}

#[test]
fn every_proper_prefix_is_incomplete() {
    let event = make_event(3, 1, "Prefix", b"mm", b"ppp");
    let buf = encode_record(&event);
    for k in 0..buf.len() {
        let result = decode_record(&buf[..k]).expect("a prefix is never corrupt");
        assert!(matches!(result, DecodeOutcome::Incomplete), "prefix {k}");
    }
}

#[test]
fn every_body_and_checksum_bit_flip_is_corrupt() {
    let event = make_event(1, 0, "Flip", b"m", b"p");
    let buf = encode_record(&event);
    for i in 4..buf.len() {
        for bit in 0..8 {
            let mut flipped = buf.clone();
            flipped[i] ^= 1u8 << bit;
            let result = decode_record(&flipped);
            assert!(
                matches!(result, Err(Error::CorruptRecord { .. })),
                "byte {i} bit {bit}: {result:?}"
            );
        }
    }
}

#[test]
fn body_shorter_than_checksum_is_corrupt() {
    let buf = [3u8, 0, 0, 0, 9, 9, 9];
    assert!(matches!(decode_record(&buf), Err(Error::CorruptRecord { .. })));
}

#[test]
fn length_field_past_body_is_corrupt() {
    let event = make_event(0, 0, "AB", b"", b"");
    let mut buf = encode_record(&event);
    let etl_offset = 4 + 8 + 16 + 8 + 16;
    buf[etl_offset] = 0xF0;
    let body = &buf[4..buf.len() - 4];
    let new_crc = crc32fast::hash(body);
    let crc_offset = buf.len() - 4;
    buf[crc_offset..].copy_from_slice(&new_crc.to_le_bytes());
    assert!(matches!(decode_record(&buf), Err(Error::CorruptRecord { .. })));
}

#[test]
fn round_trip_multibyte_event_type() {
    let event = make_event(9, 4, "Événement→✓", b"x", b"y");
    assert_round_trip(&event);
}
