use tracemsgextractor::engine::parse_trace_file;
use tracemsgextractor::errors::ErrorKind;
use tracemsgextractor::slots::SlotTracker;
use tracemsgextractor::store::DeviceStore;

fn v(s: &str) -> Vec<u8> {
    s.as_bytes().to_vec()
}

fn lines(ls: &[&str]) -> Vec<Vec<u8>> {
    ls.iter().map(|l| l.as_bytes().to_vec()).collect()
}

const CONNECT: &str =
    "2021-04-03T10:00:00.123Z trace: User is authenticated and authorized ok connect=1234 client=A:msy76z:appconnectsrv:recv1 more";
const PUBSTART: &str =
    "2021-04-03T10:06:00.000Z thread-1 blah MQTT send stuff PUBLISH connect=1234: len=40 rest";
const FRAG1: &str =
    "cont [{\"Action\":\"Connect\",\"ClientID\":\"D1\",]";
const FRAG2: &str =
    "cont [\"CloseCode\":\"0\",\"Time\":\"2021-04-03T10:06:00+00:00\"}]";

#[test]
fn pipeline_connect_publish_marks_device_connected() {
    let mut slots = SlotTracker::new();
    let mut store = DeviceStore::new();
    let mut errs: u64 = 0;
    let input = lines(&[CONNECT, "irrelevant line", PUBSTART, FRAG1, FRAG2]);
    parse_trace_file(&mut slots, &mut store, &input, b"trace.log", &mut errs).unwrap();
    assert_eq!(errs, 0);
    let rec = store.get_device(b"msy76z:appconnectsrv", b"D1").unwrap();
    assert!(rec.connected);
    assert_eq!(rec.file, v("trace.log"));
    // provenance line numbers start above the first line of the file
    assert_eq!(rec.line, 6);
}

#[test]
fn pipeline_unresolved_publish_counts_one_error_and_continues() {
    let mut slots = SlotTracker::new();
    let mut store = DeviceStore::new();
    let mut errs: u64 = 0;
    let input = lines(&[PUBSTART, CONNECT]);
    parse_trace_file(&mut slots, &mut store, &input, b"trace.log", &mut errs).unwrap();
    assert_eq!(errs, 1);
    // the later connect still went through
    assert!(slots.resolve(b"1234").is_some());
}

#[test]
fn pipeline_unknown_slot_disconnect_continues() {
    let mut slots = SlotTracker::new();
    let mut store = DeviceStore::new();
    let mut errs: u64 = 0;
    let input = lines(&[
        "2021-04-03T10:05:00.000Z x Closing virtual connection (CWLNA1111): connect=777 a name=A:m:q:c b RC=0 c",
        CONNECT,
    ]);
    parse_trace_file(&mut slots, &mut store, &input, b"trace.log", &mut errs).unwrap();
    assert_eq!(errs, 0);
    assert!(slots.resolve(b"777").is_none());
    assert!(slots.resolve(b"1234").is_some());
}

#[test]
fn pipeline_mismatched_disconnect_aborts() {
    let mut slots = SlotTracker::new();
    let mut store = DeviceStore::new();
    let mut errs: u64 = 0;
    let input = lines(&[
        CONNECT,
        "2021-04-03T10:05:00.000Z x Closing virtual connection (CWLNA1111): connect=1234 a name=A:other:id:here b RC=0 c",
    ]);
    let e = parse_trace_file(&mut slots, &mut store, &input, b"trace.log", &mut errs).unwrap_err();
    assert_eq!(e.kind, ErrorKind::ClientMismatch);
    assert_eq!(e.file, v("trace.log"));
    assert_eq!(e.line, 3);
}

#[test]
fn pipeline_bad_clientid_aborts() {
    let mut slots = SlotTracker::new();
    let mut store = DeviceStore::new();
    let mut errs: u64 = 0;
    let input = lines(&[
        "2021-04-03T10:00:00Z User is authenticated and authorized connect=9 client=unshaped more",
    ]);
    let e = parse_trace_file(&mut slots, &mut store, &input, b"trace.log", &mut errs).unwrap_err();
    assert_eq!(e.kind, ErrorKind::BadClientId);
}

#[test]
fn pipeline_interleaved_message_aborts() {
    let mut slots = SlotTracker::new();
    let mut store = DeviceStore::new();
    let mut errs: u64 = 0;
    let input = lines(&[CONNECT, PUBSTART, "unrelated trace line with no fragment"]);
    let e = parse_trace_file(&mut slots, &mut store, &input, b"trace.log", &mut errs).unwrap_err();
    assert_eq!(e.kind, ErrorKind::InterleavedMessage);
    assert_eq!(e.line, 4);
}

#[test]
fn pipeline_payload_without_structured_data_aborts() {
    let mut slots = SlotTracker::new();
    let mut store = DeviceStore::new();
    let mut errs: u64 = 0;
    let input = lines(&[CONNECT, PUBSTART, "cont [no brace at all]", "cont [second piece]"]);
    let e = parse_trace_file(&mut slots, &mut store, &input, b"trace.log", &mut errs).unwrap_err();
    assert_eq!(e.kind, ErrorKind::BadPayload);
}

#[test]
fn pipeline_unknown_action_aborts() {
    let mut slots = SlotTracker::new();
    let mut store = DeviceStore::new();
    let mut errs: u64 = 0;
    let input = lines(&[
        CONNECT,
        PUBSTART,
        "cont [{\"Action\":\"Reboot\",\"ClientID\":\"D1\",]",
        "cont [\"CloseCode\":\"0\",\"Time\":\"2021-04-03T10:06:00+00:00\"}]",
    ]);
    let e = parse_trace_file(&mut slots, &mut store, &input, b"trace.log", &mut errs).unwrap_err();
    assert_eq!(e.kind, ErrorKind::UnknownAction);
}

#[test]
fn pipeline_out_of_order_payload_is_kept_out() {
    let mut slots = SlotTracker::new();
    let mut store = DeviceStore::new();
    let mut errs: u64 = 0;
    // the same slot publishes a newer disconnect first, then an older connect
    let input = lines(&[
        CONNECT,
        PUBSTART,
        "cont [{\"Action\":\"Disconnect\",\"ClientID\":\"D1\",]",
        "cont [\"CloseCode\":\"0\",\"Time\":\"2021-04-03T11:00:00+00:00\"}]",
        PUBSTART,
        "cont [{\"Action\":\"Connect\",\"ClientID\":\"D1\",]",
        "cont [\"CloseCode\":\"0\",\"Time\":\"2021-04-03T10:00:00+00:00\"}]",
    ]);
    let notices = parse_trace_file(&mut slots, &mut store, &input, b"trace.log", &mut errs).unwrap();
    let rec = store.get_device(b"msy76z:appconnectsrv", b"D1").unwrap();
    assert!(!rec.connected);
    assert_eq!(rec.line, 5);
    // the first delivery stored, the late one was noticed as out of order
    assert_eq!(notices.len(), 2);
    assert!(notices[0].1.stored && !notices[0].1.out_of_order);
    assert_eq!(notices[1].0, 8);
    assert!(notices[1].1.out_of_order && !notices[1].1.stored);
}

#[test]
fn pipeline_slot_bindings_persist_across_files() {
    let mut slots = SlotTracker::new();
    let mut store = DeviceStore::new();
    let mut errs: u64 = 0;
    parse_trace_file(&mut slots, &mut store, &lines(&[CONNECT]), b"a.log", &mut errs).unwrap();
    // the second file publishes on the slot the first file bound
    parse_trace_file(
        &mut slots,
        &mut store,
        &lines(&[PUBSTART, FRAG1, FRAG2]),
        b"b.log",
        &mut errs,
    )
    .unwrap();
    assert_eq!(errs, 0);
    let rec = store.get_device(b"msy76z:appconnectsrv", b"D1").unwrap();
    assert!(rec.connected);
    assert_eq!(rec.file, v("b.log"));
}

#[test]
fn pipeline_assembly_does_not_span_files() {
    let mut slots = SlotTracker::new();
    let mut store = DeviceStore::new();
    let mut errs: u64 = 0;
    // the file ends mid-assembly: the pending message is dropped with it
    parse_trace_file(&mut slots, &mut store, &lines(&[CONNECT, PUBSTART, FRAG1]), b"a.log", &mut errs)
        .unwrap();
    parse_trace_file(&mut slots, &mut store, &lines(&[FRAG2]), b"b.log", &mut errs).unwrap();
    assert!(store.get_device(b"msy76z:appconnectsrv", b"D1").is_none());
}

#[test]
fn pipeline_zero_length_publish_consumes_no_lines() {
    let mut slots = SlotTracker::new();
    let mut store = DeviceStore::new();
    let mut errs: u64 = 0;
    let zero =
        "2021-04-03T10:06:00.000Z thread-1 blah MQTT send stuff PUBLISH connect=1234: len=0 rest";
    // nothing is assembled, and the following record is handled normally
    let input = lines(&[CONNECT, zero, CONNECT]);
    parse_trace_file(&mut slots, &mut store, &input, b"trace.log", &mut errs).unwrap();
    assert_eq!(errs, 0);
    let rec = slots.resolve(b"1234").unwrap();
    assert_eq!(rec.line, 4);
}
