use eventfold_db::broker::{Broker, Delivery};
use eventfold_db::codec::{decode_header, decode_record, encode_header, encode_record, DecodeOutcome};
use eventfold_db::error::Error;
use eventfold_db::event::{ExpectedVersion, RecordedEvent};
use eventfold_db::subscription::{Subscription, SubscriptionMessage};
use eventfold_db::writer::{AppendResult, ProposedEvent, Staged, Writer};

fn new_id() -> [u8; 16] {
    *uuid::Uuid::new_v4().as_bytes()
}

fn make_proposed_with_id(event_id: [u8; 16], event_type: &str) -> ProposedEvent {
    ProposedEvent {
        event_id,
        event_type: event_type.to_string(),
        metadata: vec![],
        payload: b"{}".to_vec(),
    }
}

/// Stage and commit a batch the way the server does, appending the frames of
/// new records to `file` before committing them.
fn append(
    writer: &mut Writer,
    broker: &mut Broker,
    file: &mut Vec<u8>,
    stream_id: [u8; 16],
    expected: ExpectedVersion,
    events: &Vec<ProposedEvent>,
) -> Result<AppendResult, Error> {
    let staged = writer.stage(stream_id, expected, events)?;
    if let Staged::New(records) = &staged {
        for r in records {
            file.extend_from_slice(&encode_record(r));
        }
    }
    writer.commit(staged, broker)
}

fn new_file() -> Vec<u8> {
    encode_header().to_vec()
}

/// Re-open a log file: check the header, then replay every complete record.
fn reopen(file: &[u8], capacity: usize) -> Writer {
    let mut header = [0u8; 8];
    header.copy_from_slice(&file[0..8]);
    decode_header(&header).expect("header should decode");
    let mut writer = Writer::new(capacity);
    let mut offset = 8;
    loop {
        match decode_record(&file[offset..]).expect("log should not be corrupt") {
            DecodeOutcome::Complete { event, consumed } => {
                writer.restore(event).expect("record should continue the log");
                offset += consumed;
            }
            DecodeOutcome::Incomplete => break,
        }
    }
    writer
}

#[test]
fn dedup_duplicate_batch_returns_identical_positions() {
    let mut writer = Writer::new(128);
    let mut broker = Broker::new(1024);
    let mut file = new_file();
    let stream_id = new_id();
    let events = vec![
        make_proposed_with_id(new_id(), "Evt1"),
        make_proposed_with_id(new_id(), "Evt2"),
    ];
    let first = append(&mut writer, &mut broker, &mut file, stream_id, ExpectedVersion::Any, &events)
        .expect("first append should succeed");
    let second = append(&mut writer, &mut broker, &mut file, stream_id, ExpectedVersion::Any, &events)
        .expect("dedup hit should return Ok");
    assert_eq!(first.first_global_position, second.first_global_position);
    assert_eq!(first.last_global_position, second.last_global_position);
    assert_eq!(first.first_stream_version, second.first_stream_version);
    assert_eq!(first.last_stream_version, second.last_stream_version);
    assert_eq!(
        first,
        AppendResult {
            first_global_position: 0,
            last_global_position: 1,
            first_stream_version: 0,
            last_stream_version: 1,
        }
    );
}

#[test]
fn dedup_no_duplicate_records_in_log() {
    let mut writer = Writer::new(128);
    let mut broker = Broker::new(1024);
    let mut file = new_file();
    let stream_id = new_id();
    let events = vec![
        make_proposed_with_id(new_id(), "Evt1"),
        make_proposed_with_id(new_id(), "Evt2"),
    ];
    append(&mut writer, &mut broker, &mut file, stream_id, ExpectedVersion::Any, &events)
        .expect("first append should succeed");
    append(&mut writer, &mut broker, &mut file, stream_id, ExpectedVersion::Any, &events)
        .expect("dedup hit should return Ok");
    let events = writer.read_all(0, 1000);
    assert_eq!(events.len(), 2, "expected 2 events in log, got {}", events.len());
}

#[test]
fn dedup_different_batches_succeed_independently() {
    let mut writer = Writer::new(128);
    let mut broker = Broker::new(1024);
    let mut file = new_file();
    let stream_id = new_id();
    let resp_a = append(
        &mut writer,
        &mut broker,
        &mut file,
        stream_id,
        ExpectedVersion::Any,
        &vec![make_proposed_with_id(new_id(), "A1"), make_proposed_with_id(new_id(), "A2")],
    )
    .expect("batch A should succeed");
    // `Exact` names the version that the batch's first event gets.
    let resp_b = append(
        &mut writer,
        &mut broker,
        &mut file,
        stream_id,
        ExpectedVersion::Exact(2),
        &vec![make_proposed_with_id(new_id(), "B1"), make_proposed_with_id(new_id(), "B2")],
    )
    .expect("batch B should succeed");
    assert_eq!(resp_a.first_global_position, 0);
    assert_eq!(resp_a.last_global_position, 1);
    assert_eq!(resp_b.first_global_position, 2);
    assert_eq!(resp_b.last_global_position, 3);
    let events = writer.read_stream(&stream_id, 0, 100);
    assert_eq!(events.len(), 4, "expected 4 events in stream, got {}", events.len());
}

#[test]
fn dedup_survives_restart() {
    let stream_id = new_id();
    let events = vec![make_proposed_with_id(new_id(), "Evt1")];
    let mut file = new_file();
    let first = {
        let mut writer = Writer::new(128);
        let mut broker = Broker::new(1024);
        append(&mut writer, &mut broker, &mut file, stream_id, ExpectedVersion::Any, &events)
            .expect("first append should succeed")
    };
    let mut writer = reopen(&file, 128);
    let mut broker = Broker::new(1024);
    let second = append(&mut writer, &mut broker, &mut file, stream_id, ExpectedVersion::Any, &events)
        .expect("dedup hit after restart should return Ok");
    assert_eq!(first.first_global_position, second.first_global_position);
    assert_eq!(first.last_global_position, second.last_global_position);
    assert_eq!(first.first_global_position, 0);
    let all = writer.read_all(0, 1000);
    assert_eq!(all.len(), 1, "expected 1 event after restart dedup, got {}", all.len());
    assert_eq!(reopen(&file, 128).head(), 1);
}

#[test]
fn dedup_eviction_allows_reappend() {
    let mut writer = Writer::new(2);
    let mut broker = Broker::new(1024);
    let mut file = new_file();
    let stream_id = new_id();
    let id1 = new_id();
    let id2 = new_id();
    let id3 = new_id();
    let resp1 = append(
        &mut writer,
        &mut broker,
        &mut file,
        stream_id,
        ExpectedVersion::Any,
        &vec![make_proposed_with_id(id1, "Evt1")],
    )
    .expect("append id1 should succeed");
    append(
        &mut writer,
        &mut broker,
        &mut file,
        stream_id,
        ExpectedVersion::Exact(1),
        &vec![make_proposed_with_id(id2, "Evt2")],
    )
    .expect("append id2 should succeed");
    let resp3 = append(
        &mut writer,
        &mut broker,
        &mut file,
        stream_id,
        ExpectedVersion::Exact(2),
        &vec![make_proposed_with_id(id3, "Evt3")],
    )
    .expect("append id3 should succeed");
    let resp1_retry = append(
        &mut writer,
        &mut broker,
        &mut file,
        stream_id,
        ExpectedVersion::Any,
        &vec![make_proposed_with_id(id1, "Evt1")],
    )
    .expect("re-append of evicted id1 should succeed");
    assert!(
        resp1_retry.first_global_position > resp1.first_global_position,
        "evicted id1 should get a new (higher) global_position: retry={} original={}",
        resp1_retry.first_global_position,
        resp1.first_global_position
    );
    assert_eq!(resp1_retry.first_global_position, 3);
    let resp3_retry = append(
        &mut writer,
        &mut broker,
        &mut file,
        stream_id,
        ExpectedVersion::Any,
        &vec![make_proposed_with_id(id3, "Evt3")],
    )
    .expect("dedup hit on id3 should return Ok");
    assert_eq!(
        resp3.first_global_position, resp3_retry.first_global_position,
        "id3 should be a dedup hit with original position"
    );
    assert_eq!(resp3_retry.first_global_position, 2);
}

#[test]
fn dedup_hit_does_not_publish_to_subscription() {
    let mut writer = Writer::new(128);
    let mut broker = Broker::new(1024);
    let mut file = new_file();
    let stream_id = new_id();
    let events = vec![make_proposed_with_id(new_id(), "Evt1")];
    let sub = Subscription::start(&writer, &mut broker, 0, None).expect("subscribe_all should succeed");
    let caught_up = sub.catch_up(&writer);
    assert_eq!(caught_up.len(), 1);
    assert!(matches!(caught_up[0], SubscriptionMessage::CaughtUp), "expected CaughtUp on empty store");
    append(&mut writer, &mut broker, &mut file, stream_id, ExpectedVersion::Any, &events)
        .expect("first append should succeed");
    match broker.receive(sub.receiver) {
        Some(d) => match sub.on_delivery(d).expect("no data loss") {
            Some(e) => assert_eq!(e.global_position, 0),
            None => panic!("expected Event"),
        },
        None => panic!("expected a delivery"),
    }
    append(&mut writer, &mut broker, &mut file, stream_id, ExpectedVersion::Any, &events)
        .expect("dedup hit should return Ok");
    assert!(
        broker.receive(sub.receiver).is_none(),
        "expected no message from dedup hit, but got a message"
    );
}

#[test]
fn empty_batch_is_invalid() {
    let mut writer = Writer::new(4);
    let r = writer.stage(new_id(), ExpectedVersion::Any, &vec![]);
    assert!(matches!(r, Err(Error::InvalidArgument(_))));
}

#[test]
fn oversized_event_type_is_invalid() {
    let mut writer = Writer::new(4);
    let big = "x".repeat(70_000);
    let r = writer.stage(new_id(), ExpectedVersion::Any, &vec![make_proposed_with_id(new_id(), &big)]);
    assert!(matches!(r, Err(Error::InvalidArgument(_))));
    assert_eq!(writer.head(), 0);
}

#[test]
fn expected_version_checks() {
    let mut writer = Writer::new(16);
    let mut broker = Broker::new(16);
    let mut file = new_file();
    let s = new_id();
    let one = |name: &str| vec![make_proposed_with_id(new_id(), name)];
    let r = append(&mut writer, &mut broker, &mut file, s, ExpectedVersion::StreamExists, &one("E"));
    assert_eq!(r, Err(Error::WrongExpectedVersion { expected: ExpectedVersion::StreamExists, actual: None }));
    let r = append(&mut writer, &mut broker, &mut file, s, ExpectedVersion::Exact(1), &one("E"));
    assert_eq!(r, Err(Error::WrongExpectedVersion { expected: ExpectedVersion::Exact(1), actual: None }));
    let r = append(&mut writer, &mut broker, &mut file, s, ExpectedVersion::NoStream, &one("E"));
    assert_eq!(r.unwrap().first_stream_version, 0);
    let r = append(&mut writer, &mut broker, &mut file, s, ExpectedVersion::NoStream, &one("E"));
    assert_eq!(r, Err(Error::WrongExpectedVersion { expected: ExpectedVersion::NoStream, actual: Some(0) }));
    let r = append(&mut writer, &mut broker, &mut file, s, ExpectedVersion::Exact(0), &one("E"));
    assert_eq!(r, Err(Error::WrongExpectedVersion { expected: ExpectedVersion::Exact(0), actual: Some(0) }));
    let r = append(&mut writer, &mut broker, &mut file, s, ExpectedVersion::Exact(1), &one("E"));
    assert_eq!(r.unwrap().first_stream_version, 1);
    let r = append(&mut writer, &mut broker, &mut file, s, ExpectedVersion::StreamExists, &one("E"));
    assert_eq!(r.unwrap().first_stream_version, 2);
    assert_eq!(writer.stream_version(&s), Some(2));
    assert_eq!(writer.stream_version(&new_id()), None);
}

#[test]
fn positions_and_versions_are_dense_across_streams() {
    let mut writer = Writer::new(64);
    let mut broker = Broker::new(64);
    let mut file = new_file();
    let a = new_id();
    let b = new_id();
    for i in 0..5 {
        let s = if i % 2 == 0 { a } else { b };
        append(&mut writer, &mut broker, &mut file, s, ExpectedVersion::Any, &vec![make_proposed_with_id(new_id(), "E")])
            .expect("append should succeed");
    }
    let all = writer.read_all(0, 100);
    let positions: Vec<u64> = all.iter().map(|e| e.global_position).collect();
    assert_eq!(positions, vec![0, 1, 2, 3, 4]);
    let va: Vec<u64> = writer.read_stream(&a, 0, 100).iter().map(|e| e.stream_version).collect();
    let vb: Vec<u64> = writer.read_stream(&b, 0, 100).iter().map(|e| e.stream_version).collect();
    assert_eq!(va, vec![0, 1, 2]);
    assert_eq!(vb, vec![0, 1]);
    let ga: Vec<u64> = writer.read_stream(&a, 1, 1).iter().map(|e| e.global_position).collect();
    assert_eq!(ga, vec![2]);
    assert_eq!(writer.read_all(3, 10).len(), 2);
    assert_eq!(writer.read_all(9, 10).len(), 0);
}

#[test]
fn partial_overlap_is_written_as_new() {
    let mut writer = Writer::new(8);
    let mut broker = Broker::new(8);
    let mut file = new_file();
    let s = new_id();
    let id1 = new_id();
    append(&mut writer, &mut broker, &mut file, s, ExpectedVersion::Any, &vec![make_proposed_with_id(id1, "E")]).unwrap();
    let r = append(
        &mut writer,
        &mut broker,
        &mut file,
        s,
        ExpectedVersion::Any,
        &vec![make_proposed_with_id(id1, "E"), make_proposed_with_id(new_id(), "F")],
    )
    .unwrap();
    assert_eq!(r.first_global_position, 1);
    assert_eq!(r.last_global_position, 2);
    let again = append(&mut writer, &mut broker, &mut file, s, ExpectedVersion::Any, &vec![make_proposed_with_id(id1, "E")]).unwrap();
    assert_eq!(again.first_global_position, 1);
    assert_eq!(writer.head(), 3);
}

#[test]
fn commit_refuses_a_batch_that_does_not_continue_the_log() {
    let mut writer = Writer::new(8);
    let mut broker = Broker::new(8);
    let stray = RecordedEvent {
        event_id: new_id(),
        stream_id: new_id(),
        stream_version: 0,
        global_position: 5,
        event_type: "E".to_string(),
        metadata: vec![],
        payload: vec![],
    };
    let r = writer.commit(Staged::New(vec![stray.clone()]), &mut broker);
    assert!(matches!(r, Err(Error::InvalidArgument(_))));
    assert!(matches!(writer.restore(stray), Err(Error::CorruptRecord { position: 5, .. })));
    assert_eq!(writer.head(), 0);
}

#[test]
fn truncated_trailing_frame_is_dropped_on_reopen() {
    let mut writer = Writer::new(8);
    let mut broker = Broker::new(8);
    let mut file = new_file();
    let s = new_id();
    append(&mut writer, &mut broker, &mut file, s, ExpectedVersion::Any, &vec![make_proposed_with_id(new_id(), "E")]).unwrap();
    append(&mut writer, &mut broker, &mut file, s, ExpectedVersion::Any, &vec![make_proposed_with_id(new_id(), "F")]).unwrap();
    file.truncate(file.len() - 3);
    let reopened = reopen(&file, 8);
    assert_eq!(reopened.head(), 1);
}

#[test]
fn lagging_subscriber_gets_data_loss() {
    let mut writer = Writer::new(8);
    let mut broker = Broker::new(1);
    let mut file = new_file();
    let s = new_id();
    let sub = Subscription::start(&writer, &mut broker, 0, None).unwrap();
    append(&mut writer, &mut broker, &mut file, s, ExpectedVersion::Any, &vec![make_proposed_with_id(new_id(), "E")]).unwrap();
    append(&mut writer, &mut broker, &mut file, s, ExpectedVersion::Any, &vec![make_proposed_with_id(new_id(), "F")]).unwrap();
    let d = broker.receive(sub.receiver).expect("a delivery");
    assert!(matches!(d, Delivery::Lagged));
    assert!(matches!(sub.on_delivery(d), Err(Error::DataLoss(_))));
    match broker.receive(sub.receiver) {
        Some(Delivery::Event(e)) => assert_eq!(e.global_position, 1),
        other => panic!("expected the newest event, got {other:?}"),
    }
    broker.unsubscribe(sub.receiver);
    assert!(broker.receive(sub.receiver).is_none());
}

#[test]
fn catch_up_then_live_without_gap_or_duplicate() {
    let mut writer = Writer::new(8);
    let mut broker = Broker::new(8);
    let mut file = new_file();
    let s = new_id();
    for name in ["A", "B", "C"] {
        append(&mut writer, &mut broker, &mut file, s, ExpectedVersion::Any, &vec![make_proposed_with_id(new_id(), name)]).unwrap();
    }
    let sub = Subscription::start(&writer, &mut broker, 1, None).unwrap();
    assert_eq!(sub.tail, 3);
    let msgs = sub.catch_up(&writer);
    let mut seen: Vec<u64> = Vec::new();
    for m in &msgs {
        if let SubscriptionMessage::Event(e) = m {
            seen.push(e.global_position);
        }
    }
    assert!(matches!(msgs.last(), Some(SubscriptionMessage::CaughtUp)));
    for name in ["D", "E"] {
        append(&mut writer, &mut broker, &mut file, s, ExpectedVersion::Any, &vec![make_proposed_with_id(new_id(), name)]).unwrap();
    }
    while let Some(d) = broker.receive(sub.receiver) {
        if let Some(e) = sub.on_delivery(d).unwrap() {
            seen.push(e.global_position);
        }
    }
    assert_eq!(seen, vec![1, 2, 3, 4]);
}

#[test]
fn stream_subscription_filters_by_stream_and_version() {
    let mut writer = Writer::new(8);
    let mut broker = Broker::new(8);
    let mut file = new_file();
    let a = new_id();
    let b = new_id();
    append(&mut writer, &mut broker, &mut file, a, ExpectedVersion::Any, &vec![make_proposed_with_id(new_id(), "A0")]).unwrap();
    append(&mut writer, &mut broker, &mut file, b, ExpectedVersion::Any, &vec![make_proposed_with_id(new_id(), "B0")]).unwrap();
    append(&mut writer, &mut broker, &mut file, a, ExpectedVersion::Any, &vec![make_proposed_with_id(new_id(), "A1")]).unwrap();
    let sub = Subscription::start(&writer, &mut broker, 1, Some(a)).unwrap();
    let msgs = sub.catch_up(&writer);
    assert_eq!(msgs.len(), 2);
    match &msgs[0] {
        SubscriptionMessage::Event(e) => assert_eq!((e.global_position, e.stream_version), (2, 1)),
        _ => panic!("expected an event"),
    }
    append(&mut writer, &mut broker, &mut file, b, ExpectedVersion::Any, &vec![make_proposed_with_id(new_id(), "B1")]).unwrap();
    append(&mut writer, &mut broker, &mut file, a, ExpectedVersion::Any, &vec![make_proposed_with_id(new_id(), "A2")]).unwrap();
    let mut live = Vec::new();
    while let Some(d) = broker.receive(sub.receiver) {
        if let Some(e) = sub.on_delivery(d).unwrap() {
            live.push((e.global_position, e.stream_version));
        }
    }
    assert_eq!(live, vec![(4, 2)]);
}

#[test]
fn empty_event_type_is_invalid() {
    let mut writer = Writer::new(4);
    let r = writer.stage(new_id(), ExpectedVersion::Any, &vec![make_proposed_with_id(new_id(), "")]);
    assert!(matches!(r, Err(Error::InvalidArgument(_))));
}
