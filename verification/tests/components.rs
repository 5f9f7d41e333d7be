use tracemsgextractor::chunks_for_len;
use tracemsgextractor::classify::classify_event;
use tracemsgextractor::classify::classify_line;
use tracemsgextractor::classify::match_connect;
use tracemsgextractor::classify::match_continuation;
use tracemsgextractor::classify::match_disconnect;
use tracemsgextractor::classify::match_pubstart;
use tracemsgextractor::classify::EventClass;
use tracemsgextractor::classify::LineClass;
use tracemsgextractor::errors::ErrorKind;
use tracemsgextractor::payload::parse_close_code;
use tracemsgextractor::payload::PayloadFields;
use tracemsgextractor::reassemble::PublishData;
use tracemsgextractor::reassemble::Reassembler;
use tracemsgextractor::slots::DisconnectOutcome;
use tracemsgextractor::slots::SlotTracker;
use tracemsgextractor::store::get_sub_from_clientid;
use tracemsgextractor::store::DeviceStore;

fn v(s: &str) -> Vec<u8> {
    s.as_bytes().to_vec()
}

#[test]
fn sub_from_clientid_ok() {
    let sub = get_sub_from_clientid(b"A:msy76z:appconnectsrv:recv1").unwrap();
    assert_eq!(sub, v("msy76z:appconnectsrv"));
    // no fourth segment: the group runs to the end
    let sub = get_sub_from_clientid(b"A:msy76z:qaconnectsrv").unwrap();
    assert_eq!(sub, v("msy76z:qaconnectsrv"));
}

#[test]
fn sub_from_clientid_rejects_bad_shapes() {
    assert_eq!(get_sub_from_clientid(b"B:x:y"), Err(ErrorKind::BadClientId));
    assert_eq!(get_sub_from_clientid(b"A"), Err(ErrorKind::BadClientId));
    assert_eq!(get_sub_from_clientid(b"A:only"), Err(ErrorKind::BadClientId));
    assert_eq!(get_sub_from_clientid(b""), Err(ErrorKind::BadClientId));
    assert_eq!(get_sub_from_clientid(b"AB:x:y"), Err(ErrorKind::BadClientId));
}

#[test]
fn chunk_count_is_ceiling_of_length() {
    assert_eq!(chunks_for_len(0), 0);
    assert_eq!(chunks_for_len(1), 1);
    assert_eq!(chunks_for_len(31), 1);
    assert_eq!(chunks_for_len(32), 1);
    assert_eq!(chunks_for_len(33), 2);
    assert_eq!(chunks_for_len(40), 2);
    assert_eq!(chunks_for_len(64), 2);
    assert_eq!(chunks_for_len(65), 3);
}

#[test]
fn close_code_parses_exactly() {
    assert_eq!(parse_close_code(b"288"), Some(288));
    assert_eq!(parse_close_code(b"0"), Some(0));
    assert_eq!(parse_close_code(b"-17"), Some(-17));
    assert_eq!(parse_close_code(b""), None);
    assert_eq!(parse_close_code(b"12a"), None);
    assert_eq!(parse_close_code(b"null"), None);
    assert_eq!(parse_close_code(b"99999999999"), None);
}

const CONNECT_LINE: &[u8] =
    b"2021-04-03T10:00:00.123Z trace: User is authenticated and authorized ok connect=1234 client=A:msy76z:appconnectsrv:recv1 more";
const DISCONNECT_LINE: &[u8] =
    b"2021-04-03T10:05:00.000Z x Closing virtual connection (CWLNA1111): connect=1234 foo name=A:msy76z:appconnectsrv:recv1 bar RC=288 baz";
const PUBSTART_LINE: &[u8] =
    b"2021-04-03T10:06:00.000Z thread-1 blah MQTT send stuff PUBLISH connect=1234: len=40 rest";

#[test]
fn classify_connect_extracts_fields() {
    let f = match_connect(CONNECT_LINE).unwrap();
    assert_eq!(f.date, v("2021-04-03"));
    assert_eq!(f.time, v("10:00:00.123"));
    assert_eq!(f.slot, v("1234"));
    assert_eq!(f.client_id, v("A:msy76z:appconnectsrv:recv1"));
}

#[test]
fn classify_disconnect_extracts_fields() {
    let f = match_disconnect(DISCONNECT_LINE).unwrap();
    assert_eq!(f.date, v("2021-04-03"));
    assert_eq!(f.time, v("10:05:00.000"));
    assert_eq!(f.slot, v("1234"));
    assert_eq!(f.client_id, v("A:msy76z:appconnectsrv:recv1"));
    assert_eq!(f.close_code, v("288"));
}

#[test]
fn classify_pubstart_extracts_fields() {
    let f = match_pubstart(PUBSTART_LINE).unwrap();
    assert_eq!(f.date, v("2021-04-03"));
    assert_eq!(f.time, v("10:06:00.000"));
    assert_eq!(f.slot, v("1234"));
    assert_eq!(f.len_digits, v("40"));
}

#[test]
fn classify_continuation_takes_bracketed_fragment() {
    let frag = match_continuation(b"noise [payload piece] ").unwrap();
    assert_eq!(frag, v("payload piece"));
    // first opening bracket to the last closing one
    let frag = match_continuation(b"a [x[y]z] b").unwrap();
    assert_eq!(frag, v("x[y]z"));
    assert!(match_continuation(b"no brackets here").is_none());
    assert!(match_continuation(b"] reversed [").is_none());
}

#[test]
fn classify_line_priority_is_continuation_first() {
    // a connect record whose free text carries brackets reads as a
    // continuation under the classifier's fixed priority order
    let line =
        b"2021-04-03T10:00:00Z [q] User is authenticated and authorized connect=9 client=A:a:b ";
    match classify_line(line) {
        LineClass::Continuation(frag) => assert_eq!(frag, v("q")),
        _ => panic!("expected a continuation match"),
    }
    // outside an assembly the same line is a connect record
    match classify_event(line) {
        EventClass::Connect(f) => assert_eq!(f.slot, v("9")),
        _ => panic!("expected a connect match"),
    }
}

#[test]
fn classify_skips_unknown_lines() {
    assert!(matches!(classify_event(b"nothing to see"), EventClass::Irrelevant));
    assert!(matches!(
        classify_event(b"2021-04-03T10:00:00Z random trace text"),
        EventClass::Irrelevant
    ));
}

#[test]
fn slot_mismatched_disconnect_is_fatal() {
    let mut slots = SlotTracker::new();
    slots.record_connect(b"s1", v("A:g:h:c1"), v("f"), 2);
    let r = slots.record_disconnect(b"s1", v("A:g:h:c2"), 0, v("f"), 3);
    assert_eq!(r, Err(ErrorKind::ClientMismatch));
    // the slot still holds the connect record
    let rec = slots.resolve(b"s1").unwrap();
    assert!(rec.connected);
    assert_eq!(rec.client_id, v("A:g:h:c1"));
}

#[test]
fn slot_matching_disconnect_marks_disconnected() {
    let mut slots = SlotTracker::new();
    slots.record_connect(b"s1", v("A:g:h:c1"), v("f"), 2);
    let r = slots.record_disconnect(b"s1", v("A:g:h:c1"), 0, v("f"), 3);
    assert_eq!(r, Ok(DisconnectOutcome::Recorded));
    let rec = slots.resolve(b"s1").unwrap();
    assert!(!rec.connected);
    assert_eq!(rec.line, 3);
}

#[test]
fn slot_takeover_disconnect_stays_connected() {
    let mut slots = SlotTracker::new();
    slots.record_connect(b"s1", v("A:g:h:c1"), v("f"), 2);
    let r = slots.record_disconnect(b"s1", v("A:g:h:c1"), 288, v("f"), 3);
    assert_eq!(r, Ok(DisconnectOutcome::Recorded));
    assert!(slots.resolve(b"s1").unwrap().connected);
}

#[test]
fn slot_unknown_disconnect_is_ignored() {
    let mut slots = SlotTracker::new();
    let r = slots.record_disconnect(b"never-seen", v("A:g:h:c1"), 0, v("f"), 2);
    assert_eq!(r, Ok(DisconnectOutcome::UntrackedSlot));
    assert!(slots.resolve(b"never-seen").is_none());
}

fn context() -> PublishData {
    PublishData { receiving_clientid: v("A:g:h:recv"), date: v("2021-04-03"), time: v("10:06:00") }
}

#[test]
fn reassembler_consumes_declared_chunk_count() {
    let mut m = Reassembler::new();
    m.arm(40, context()).unwrap();
    assert_eq!(m.remaining, 2);
    let r = m.feed(b"x [first half ] y").unwrap();
    assert!(r.is_none());
    assert_eq!(m.remaining, 1);
    let (buf, ctx) = m.feed(b"x [and second] y").unwrap().unwrap();
    assert_eq!(buf, v("first half and second"));
    assert_eq!(ctx.receiving_clientid, v("A:g:h:recv"));
    assert_eq!(m.remaining, 0);
    assert!(m.buffer.is_empty());
}

#[test]
fn reassembler_rejects_interleaved_lines() {
    let mut m = Reassembler::new();
    m.arm(64, context()).unwrap();
    let r = m.feed(b"no brackets: unrelated trace line");
    assert_eq!(r.unwrap_err(), ErrorKind::InterleavedMessage);
}

#[test]
fn reassembler_rejects_publish_while_assembling() {
    let mut m = Reassembler::new();
    m.arm(64, context()).unwrap();
    let r = m.arm(32, context());
    assert_eq!(r.unwrap_err(), ErrorKind::PublishWhileAssembling);
}

fn payload(action: &str, code: &str, time: &str, device: &str) -> PayloadFields {
    PayloadFields {
        action: v(action),
        close_code: v(code),
        time: v(time),
        client_id: v(device),
    }
}

const T1: &str = "2021-04-03T10:06:00+00:00";
const T2: &str = "2021-04-03T10:07:30+00:00";

#[test]
fn store_rejects_group_without_connect() {
    let mut store = DeviceStore::new();
    let r = store.update_devicestate_hash(
        b"A:g:h:recv",
        &payload("Connect", "0", T1, "D1"),
        b"f",
        2,
    );
    assert_eq!(r, Err(ErrorKind::GroupNotTracked));
}

#[test]
fn store_payload_error_kinds() {
    let mut store = DeviceStore::new();
    store.ensure_devicestate_hash(b"A:g:h:recv").unwrap();
    let r = store.update_devicestate_hash(b"A:g:h:recv", &payload("Connect", "null", T1, "D1"), b"f", 2);
    assert_eq!(r, Err(ErrorKind::MalformedNumber));
    let r = store.update_devicestate_hash(b"A:g:h:recv", &payload("Connect", "0", "null", "D1"), b"f", 2);
    assert_eq!(r, Err(ErrorKind::BadTimestamp));
    let r = store.update_devicestate_hash(b"bad-client", &payload("Connect", "0", T1, "D1"), b"f", 2);
    assert_eq!(r, Err(ErrorKind::BadClientId));
    let r = store.update_devicestate_hash(b"A:g:h:recv", &payload("Reboot", "0", T1, "D1"), b"f", 2);
    assert_eq!(r, Err(ErrorKind::UnknownAction));
}

#[test]
fn store_out_of_order_payload_is_discarded() {
    let mut store = DeviceStore::new();
    store.ensure_devicestate_hash(b"A:g:h:recv").unwrap();
    let out = store
        .update_devicestate_hash(b"A:g:h:recv", &payload("Connect", "0", T2, "D1"), b"f2", 9)
        .unwrap();
    assert!(out.stored && !out.out_of_order);
    // an older disconnect arrives late: retained entry is unchanged
    let out = store
        .update_devicestate_hash(b"A:g:h:recv", &payload("Disconnect", "0", T1, "D1"), b"f1", 4)
        .unwrap();
    assert!(out.out_of_order && !out.stored);
    let rec = store.get_device(b"g:h", b"D1").unwrap();
    assert!(rec.connected);
    assert_eq!(rec.file, v("f2"));
    assert_eq!(rec.line, 9);
}

#[test]
fn store_ordering_is_arrival_order_independent() {
    let early = payload("Connect", "0", T1, "D1");
    let late = payload("Disconnect", "0", T2, "D1");

    let mut a = DeviceStore::new();
    a.ensure_devicestate_hash(b"A:g:h:recv").unwrap();
    a.update_devicestate_hash(b"A:g:h:recv", &early, b"f1", 2).unwrap();
    a.update_devicestate_hash(b"A:g:h:recv", &late, b"f2", 3).unwrap();

    let mut b = DeviceStore::new();
    b.ensure_devicestate_hash(b"A:g:h:recv").unwrap();
    b.update_devicestate_hash(b"A:g:h:recv", &late, b"f2", 3).unwrap();
    b.update_devicestate_hash(b"A:g:h:recv", &early, b"f1", 2).unwrap();

    let ra = a.get_device(b"g:h", b"D1").unwrap();
    let rb = b.get_device(b"g:h", b"D1").unwrap();
    assert_eq!(ra.connected, rb.connected);
    assert_eq!(ra.file, rb.file);
    assert_eq!(ra.line, rb.line);
    assert_eq!(ra.time, rb.time);
    assert!(!ra.connected);
    assert_eq!(ra.file, v("f2"));
}

#[test]
fn store_takeover_payload_keeps_connectivity() {
    let mut store = DeviceStore::new();
    store.ensure_devicestate_hash(b"A:g:h:recv").unwrap();
    store
        .update_devicestate_hash(b"A:g:h:recv", &payload("Disconnect", "288", T1, "D1"), b"f", 2)
        .unwrap();
    assert!(store.get_device(b"g:h", b"D1").unwrap().connected);
    store
        .update_devicestate_hash(b"A:g:h:recv", &payload("Disconnect", "42", T2, "D1"), b"f", 3)
        .unwrap();
    assert!(!store.get_device(b"g:h", b"D1").unwrap().connected);
}

#[test]
fn store_failed_connect_changes_nothing() {
    let mut store = DeviceStore::new();
    store.ensure_devicestate_hash(b"A:g:h:recv").unwrap();
    let out = store
        .update_devicestate_hash(b"A:g:h:recv", &payload("FailedConnect", "0", T1, "D1"), b"f", 2)
        .unwrap();
    assert!(out.skipped_action && !out.stored);
    assert!(store.get_device(b"g:h", b"D1").is_none());
}

#[test]
fn compare_reports_counts_and_reference() {
    let mut store = DeviceStore::new();
    store.ensure_devicestate_hash(b"A:m:app:r1").unwrap();
    store.ensure_devicestate_hash(b"A:m:qa:r2").unwrap();
    // app tracks D1 (on), D2 (off), D3 (on); qa tracks D1 (on), D2 (on)
    store.update_devicestate_hash(b"A:m:app:r1", &payload("Connect", "0", T1, "D1"), b"f", 2).unwrap();
    store.update_devicestate_hash(b"A:m:app:r1", &payload("Disconnect", "0", T1, "D2"), b"f", 3).unwrap();
    store.update_devicestate_hash(b"A:m:app:r1", &payload("Connect", "0", T1, "D3"), b"f", 4).unwrap();
    store.update_devicestate_hash(b"A:m:qa:r2", &payload("Connect", "0", T1, "D1"), b"g", 5).unwrap();
    store.update_devicestate_hash(b"A:m:qa:r2", &payload("Connect", "0", T1, "D2"), b"g", 6).unwrap();

    let rep = store.compare_devicestates(b"m:app", b"m:qa").unwrap();
    assert_eq!(rep.reference, v("m:app"));
    assert_eq!(rep.other, v("m:qa"));
    assert_eq!(rep.num_same, 1);
    assert_eq!(rep.num_different, 1);
    assert_eq!(rep.num_notpresent, 1);
    assert_eq!(rep.mismatches.len(), 1);
    assert_eq!(rep.mismatches[0].device, v("D2"));
    assert_eq!(rep.mismatches[0].ref_file, v("f"));
    assert_eq!(rep.mismatches[0].ref_line, 3);
    assert_eq!(rep.mismatches[0].other_file, v("g"));
    assert_eq!(rep.mismatches[0].other_line, 6);

    // same partition of shared devices whichever group is the reference
    let swapped = store.compare_devicestates(b"m:qa", b"m:app").unwrap();
    assert_eq!(swapped.reference, v("m:app"));
    assert_eq!(swapped.num_same, rep.num_same);
    assert_eq!(swapped.num_different, rep.num_different);
}

#[test]
fn compare_missing_group_is_reported() {
    let mut store = DeviceStore::new();
    store.ensure_devicestate_hash(b"A:m:app:r1").unwrap();
    match store.compare_devicestates(b"m:none", b"m:app") {
        Err(missing) => assert_eq!(missing, v("m:none")),
        Ok(_) => panic!("expected a missing group"),
    }
    match store.compare_devicestates(b"m:app", b"m:none") {
        Err(missing) => assert_eq!(missing, v("m:none")),
        Ok(_) => panic!("expected a missing group"),
    }
}

#[test]
fn analyse_lists_each_group_with_its_tally() {
    let mut store = DeviceStore::new();
    store.ensure_devicestate_hash(b"A:m:app:r1").unwrap();
    store.ensure_devicestate_hash(b"A:m:qa:r2").unwrap();
    store.update_devicestate_hash(b"A:m:app:r1", &payload("Connect", "0", T1, "D1"), b"f", 2).unwrap();
    store.update_devicestate_hash(b"A:m:app:r1", &payload("Connect", "0", T1, "D2"), b"f", 3).unwrap();
    let tallies = store.analyse_devicestate_hash();
    assert_eq!(tallies.len(), 2);
    assert_eq!(tallies[0], (v("m:app"), 2));
    assert_eq!(tallies[1], (v("m:qa"), 0));
}

#[test]
fn slot_reconnect_rebinds_without_error() {
    // slots are reused: a fresh connect overwrites the occupant unconditionally
    let mut slots = SlotTracker::new();
    slots.record_connect(b"s1", v("A:g:h:c1"), v("f"), 2);
    slots.record_connect(b"s1", v("A:g:h:c2"), v("f"), 7);
    let rec = slots.resolve(b"s1").unwrap();
    assert_eq!(rec.client_id, v("A:g:h:c2"));
    assert_eq!(rec.line, 7);
    assert!(rec.connected);
}

#[test]
fn store_equal_timestamp_overwrites() {
    // only a strictly older payload is discarded; an equal timestamp wins
    let mut store = DeviceStore::new();
    store.ensure_devicestate_hash(b"A:g:h:recv").unwrap();
    store.update_devicestate_hash(b"A:g:h:recv", &payload("Connect", "0", T1, "D1"), b"f1", 2).unwrap();
    let out = store
        .update_devicestate_hash(b"A:g:h:recv", &payload("Disconnect", "0", T1, "D1"), b"f2", 3)
        .unwrap();
    assert!(out.stored && !out.out_of_order);
    let rec = store.get_device(b"g:h", b"D1").unwrap();
    assert!(!rec.connected);
    assert_eq!(rec.file, v("f2"));
}
