use vstd::prelude::*;
use vstd::slice::slice_subrange;
use vstd::slice::slice_to_vec;
use crate::bytes::digits_val;
use crate::bytes::find_byte;
use crate::bytes::find_byte_from;
use crate::bytes::parse_u64_digits;
use crate::classify::EventClass;
use crate::classify::EventClassV;
use crate::classify::classify_event;
use crate::classify::classify_event_spec;
use crate::classify::continuation_fragment;
use crate::classify::lemma_pubstart_len_digits;
use crate::errors::ErrorKind;
use crate::errors::FatalError;
use crate::payload::close_code_val;
use crate::payload::extract_payload_fields;
use crate::payload::json_payload_fields;
use crate::payload::parse_close_code;
use crate::reassemble::PublishData;
use crate::reassemble::PublishDataV;
use crate::reassemble::feed_step;
use crate::reassemble::Reassembler;
use crate::reassemble::ReassemblerV;
use crate::reassemble::chunks_for;
use crate::slots::SlotRecordV;
use crate::slots::SlotTracker;
use crate::store::DeviceRecordV;
use crate::store::DeviceStore;
use crate::store::UpdateOutcome;
use crate::store::sub_of_client_id;
use crate::store::update_effect;
use crate::store::apply_write;
use crate::store::device_map;
use crate::store::groups_view;
use crate::TAKEOVER_CLOSE_CODE;

verus! {

/// The payload fields carried by a reassembled buffer: the structured data
/// starts at the buffer's first `{` and is read as in `json_payload_fields`.
pub open spec fn payload_fields_of(buf: Seq<u8>) -> Option<(Seq<u8>, Seq<u8>, Seq<u8>, Seq<u8>)> {
    match find_byte_from(buf, 0, 123u8) {
        None => None,
        Some(j) => json_payload_fields(buf.subrange(j, buf.len() as int)),
    }
}

/// Hands one reassembled message buffer to the Device State Store: the
/// structured data starting at the buffer's first `{` is read, and the store
/// is updated exactly as `update_effect` states; a buffer with no `{` or
/// with unreadable data is fatal.
pub fn deliver_payload(
    devicestate_hash: &mut DeviceStore,
    context: &PublishData,
    buf: &[u8],
    filepath: &[u8],
    line_num: u64,
) -> (r: Result<UpdateOutcome, ErrorKind>)
    requires
        old(devicestate_hash).wf(),
    ensures
        final(devicestate_hash).wf(),
        final(devicestate_hash).groups@ == old(devicestate_hash).groups@,
        match payload_fields_of(buf@) {
            None => r == Err::<UpdateOutcome, ErrorKind>(ErrorKind::BadPayload) && final(devicestate_hash).entries@ == old(devicestate_hash).entries@,
            Some(fields) => ({
                let eff = update_effect(
                    groups_view(old(devicestate_hash).groups@),
                    device_map(old(devicestate_hash).entries@),
                    context.receiving_clientid@,
                    fields.0,
                    fields.1,
                    fields.2,
                    fields.3,
                    filepath@,
                    line_num,
                );
                &&& r == eff.result
                &&& device_map(final(devicestate_hash).entries@) == apply_write(
                    device_map(old(devicestate_hash).entries@),
                    eff.write,
                )
                &&& eff.write is None ==> final(devicestate_hash).entries@ == old(devicestate_hash).entries@
            }),
        },
{
    let n = buf.len();
    proof {
        assert(buf@.len() == n);
    }
    let j = match find_byte(buf, 0, 123u8) {
        Some(j) => j,
        None => {
            return Err(ErrorKind::BadPayload);
        },
    };
    let fields = match extract_payload_fields(slice_subrange(buf, j, n)) {
        Some(pf) => pf,
        None => {
            return Err(ErrorKind::BadPayload);
        },
    };
    devicestate_hash.update_devicestate_hash(
        context.receiving_clientid.as_slice(),
        &fields,
        filepath,
        line_num,
    )
}


/// The whole pipeline state a file-level run threads through, at the
/// specification level: the slot bindings, the tracked groups in first-seen
/// order, the store's meaning as a map, the assembly machine, and the
/// recoverable-error tally.
pub ghost struct RunStateV {
    pub slots: Map<Seq<u8>, SlotRecordV>,
    pub groups: Seq<Seq<u8>>,
    pub devices: Map<(Seq<u8>, Seq<u8>), DeviceRecordV>,
    pub reassembler: ReassemblerV,
    pub parse_errors: int,
    pub notices: Seq<(int, UpdateOutcome)>,
}

/// Delivering one completed buffer: read the payload fields from the first
/// `{` on, apply `update_effect`, and abort on an unreadable buffer or a
/// fatal update.
pub open spec fn deliver_step(
    st: RunStateV,
    receiving: Seq<u8>,
    buf: Seq<u8>,
    file: Seq<u8>,
    num: u64,
) -> (RunStateV, Option<ErrorKind>) {
    match payload_fields_of(buf) {
        None => (st, Some(ErrorKind::BadPayload)),
        Some(fields) => {
            let eff = update_effect(
                st.groups,
                st.devices,
                receiving,
                fields.0,
                fields.1,
                fields.2,
                fields.3,
                file,
                num,
            );
            match eff.result {
                Ok(out) => (
                    RunStateV {
                        slots: st.slots,
                        groups: st.groups,
                        devices: apply_write(st.devices, eff.write),
                        reassembler: st.reassembler,
                        parse_errors: st.parse_errors,
                        notices: st.notices.push((num as int, out)),
                    },
                    None,
                ),
                Err(k) => (
                    RunStateV {
                        slots: st.slots,
                        groups: st.groups,
                        devices: apply_write(st.devices, eff.write),
                        reassembler: st.reassembler,
                        parse_errors: st.parse_errors,
                        notices: st.notices,
                    },
                    Some(k),
                ),
            }
        },
    }
}

/// What one raw line, numbered `num`, does to the pipeline state: while
/// assembling the line must continue the pending message (delivering it on
/// the last fragment); otherwise it is classified and routed exactly as the
/// per-line contracts state.  The second component is the fatal error, if
/// the line raised one; the state holds whatever had been applied by then.
pub open spec fn line_step(st: RunStateV, line: Seq<u8>, file: Seq<u8>, num: u64) -> (
    RunStateV,
    Option<ErrorKind>,
) {
    if st.reassembler.remaining > 0 {
        match continuation_fragment(line) {
            None => (st, Some(ErrorKind::InterleavedMessage)),
            Some(frag) => {
                let st1 = RunStateV {
                    slots: st.slots,
                    groups: st.groups,
                    devices: st.devices,
                    reassembler: feed_step(st.reassembler, frag),
                    parse_errors: st.parse_errors,
                    notices: st.notices,
                };
                if st.reassembler.remaining > 1 {
                    (st1, None)
                } else {
                    deliver_step(
                        st1,
                        st.reassembler.pending.unwrap().receiving_clientid,
                        st.reassembler.buffer + frag,
                        file,
                        num,
                    )
                }
            },
        }
    } else {
        match classify_event_spec(line) {
            EventClassV::Connect(f) => {
                let slots1 = st.slots.insert(
                    f.slot,
                    SlotRecordV { client_id: f.client_id, connected: true, file, line: num },
                );
                match sub_of_client_id(f.client_id) {
                    None => (
                        RunStateV {
                            slots: slots1,
                            groups: st.groups,
                            devices: st.devices,
                            reassembler: st.reassembler,
                            parse_errors: st.parse_errors,
                            notices: st.notices,
                        },
                        Some(ErrorKind::BadClientId),
                    ),
                    Some(sub) => (
                        RunStateV {
                            slots: slots1,
                            groups: if st.groups.contains(sub) {
                                st.groups
                            } else {
                                st.groups.push(sub)
                            },
                            devices: st.devices,
                            reassembler: st.reassembler,
                            parse_errors: st.parse_errors,
                            notices: st.notices,
                        },
                        None,
                    ),
                }
            },
            EventClassV::Disconnect(f) => match close_code_val(f.close_code) {
                None => (st, Some(ErrorKind::MalformedNumber)),
                Some(code) => if !st.slots.contains_key(f.slot) {
                    (st, None)
                } else if st.slots[f.slot].client_id != f.client_id {
                    (st, Some(ErrorKind::ClientMismatch))
                } else {
                    (
                        RunStateV {
                            slots: st.slots.insert(
                                f.slot,
                                SlotRecordV {
                                    client_id: f.client_id,
                                    connected: code == TAKEOVER_CLOSE_CODE,
                                    file,
                                    line: num,
                                },
                            ),
                            groups: st.groups,
                            devices: st.devices,
                            reassembler: st.reassembler,
                            parse_errors: st.parse_errors,
                            notices: st.notices,
                        },
                        None,
                    )
                },
            },
            EventClassV::PublishStart(f) => if !st.slots.contains_key(f.slot) {
                (
                    RunStateV {
                        slots: st.slots,
                        groups: st.groups,
                        devices: st.devices,
                        reassembler: st.reassembler,
                        parse_errors: st.parse_errors + 1,
                        notices: st.notices,
                    },
                    None,
                )
            } else if f.len_digits.len() == 0 || digits_val(f.len_digits) > u64::MAX {
                (st, Some(ErrorKind::MalformedNumber))
            } else {
                (
                    RunStateV {
                        slots: st.slots,
                        groups: st.groups,
                        devices: st.devices,
                        reassembler: ReassemblerV {
                            remaining: chunks_for(digits_val(f.len_digits) as u64) as u64,
                            buffer: st.reassembler.buffer,
                            pending: Some(
                                PublishDataV {
                                    receiving_clientid: st.slots[f.slot].client_id,
                                    date: f.date,
                                    time: f.time,
                                },
                            ),
                        },
                        parse_errors: st.parse_errors,
                        notices: st.notices,
                    },
                    None,
                )
            },
            EventClassV::Irrelevant => (st, None),
        }
    }
}

/// A finished or aborted run: the state reached, and the first fatal error
/// with its line number, if one arose.
pub ghost struct RunOutcome {
    pub state: RunStateV,
    pub fatal: Option<(ErrorKind, int)>,
}

/// Folds `line_step` over the lines of a file, numbering the first one
/// `num`, and stops at the first fatal line.
pub open spec fn run_lines(st: RunStateV, lines: Seq<Seq<u8>>, file: Seq<u8>, num: int) -> RunOutcome
    decreases lines.len(),
{
    if lines.len() == 0 {
        RunOutcome { state: st, fatal: None }
    } else {
        let stepped = line_step(st, lines.first(), file, num as u64);
        match stepped.1 {
            Some(k) => RunOutcome { state: stepped.0, fatal: Some((k, num)) },
            None => run_lines(stepped.0, lines.drop_first(), file, num + 1),
        }
    }
}

/// The lines of a file as plain byte sequences.
pub open spec fn lines_view(ls: Seq<Vec<u8>>) -> Seq<Seq<u8>> {
    Seq::new(ls.len(), |i: int| ls[i]@)
}

/// The collected delivery outcomes, with plain line numbers.
pub open spec fn notices_view(ns: Seq<(u64, UpdateOutcome)>) -> Seq<(int, UpdateOutcome)> {
    Seq::new(ns.len(), |i: int| (ns[i].0 as int, ns[i].1))
}

/// Extending a clean run by one line runs that line from the reached state.
proof fn lemma_run_lines_snoc(st: RunStateV, s: Seq<Seq<u8>>, x: Seq<u8>, file: Seq<u8>, num: int)
    requires
        run_lines(st, s, file, num).fatal is None,
    ensures
        run_lines(st, s.push(x), file, num) == ({
            let mid = run_lines(st, s, file, num).state;
            let stepped = line_step(mid, x, file, (num + s.len()) as u64);
            match stepped.1 {
                None => RunOutcome { state: stepped.0, fatal: None },
                Some(k) => RunOutcome { state: stepped.0, fatal: Some((k, num + s.len())) },
            }
        }),
    decreases s.len(),
{
    if s.len() == 0 {
        assert(s.push(x).first() == x);
        assert(s.push(x).drop_first() =~= Seq::<Seq<u8>>::empty());
        let stepped = line_step(st, x, file, num as u64);
        if stepped.1 is None {
            assert(run_lines(stepped.0, s.push(x).drop_first(), file, num + 1) == RunOutcome {
                state: stepped.0,
                fatal: None,
            });
        }
    } else {
        assert(s.push(x).first() == s.first());
        assert(s.push(x).drop_first() =~= s.drop_first().push(x));
        let stepped = line_step(st, s.first(), file, num as u64);
        lemma_run_lines_snoc(stepped.0, s.drop_first(), x, file, num + 1);
    }
}

/// A run that has already gone fatal ignores whatever lines follow.
proof fn lemma_run_lines_extend_fatal(
    st: RunStateV,
    s: Seq<Seq<u8>>,
    t: Seq<Seq<u8>>,
    file: Seq<u8>,
    num: int,
)
    requires
        run_lines(st, s, file, num).fatal is Some,
    ensures
        run_lines(st, s + t, file, num) == run_lines(st, s, file, num),
    decreases s.len(),
{
    assert(s.len() > 0);
    assert((s + t).first() == s.first());
    assert((s + t).drop_first() =~= s.drop_first() + t);
    let stepped = line_step(st, s.first(), file, num as u64);
    if stepped.1 is None {
        lemma_run_lines_extend_fatal(stepped.0, s.drop_first(), t, file, num + 1);
    }
}

/// Feeds one raw line through the pipeline: while a message assembly is
/// pending the line must continue it; otherwise the line is classified and
/// routed to the Connection Slot Tracker (connect, disconnect), arms the
/// Message Reassembler (publish-start), or is skipped.  A completed message
/// buffer is handed back for delivery.  A publish-start on an unresolved
/// slot counts one recoverable error; fatal conditions are returned as
/// errors with nothing further processed.
pub fn process_line(
    subclients_hash: &mut SlotTracker,
    devicestate_hash: &mut DeviceStore,
    reassembler: &mut Reassembler,
    line: &[u8],
    filepath: &[u8],
    line_num: u64,
    parse_errors: &mut u64,
) -> (r: Result<Option<(Vec<u8>, PublishData)>, ErrorKind>)
    requires
        old(devicestate_hash).wf(),
        old(reassembler).wf(),
        *old(parse_errors) < u64::MAX,
    ensures
        final(devicestate_hash).wf(),
        final(reassembler).wf(),
        final(devicestate_hash).entries@ == old(devicestate_hash).entries@,
        *old(parse_errors) <= *final(parse_errors) <= *old(parse_errors) + 1,
        if old(reassembler).assembling() {
            &&& final(subclients_hash)@ == old(subclients_hash)@
            &&& final(devicestate_hash).groups@ == old(devicestate_hash).groups@
            &&& *final(parse_errors) == *old(parse_errors)
            &&& match continuation_fragment(line@) {
                None => r == Err::<Option<(Vec<u8>, PublishData)>, ErrorKind>(
                    ErrorKind::InterleavedMessage,
                ) && final(reassembler)@ == old(reassembler)@,
                Some(frag) => ({
                    &&& final(reassembler)@ == feed_step(old(reassembler)@, frag)
                    &&& if old(reassembler).remaining > 1 {
                        r matches Ok(None)
                    } else {
                        r matches Ok(Some((buf, ctx))) && buf@ == old(reassembler)@.buffer + frag
                            && Some(ctx@) == old(reassembler)@.pending
                    }
                }),
            }
        } else {
            match classify_event_spec(line@) {
                EventClassV::Connect(f) => {
                    &&& final(subclients_hash)@ == old(subclients_hash)@.insert(
                        f.slot,
                        SlotRecordV {
                            client_id: f.client_id,
                            connected: true,
                            file: filepath@,
                            line: line_num,
                        },
                    )
                    &&& final(reassembler)@ == old(reassembler)@
                    &&& *final(parse_errors) == *old(parse_errors)
                    &&& match sub_of_client_id(f.client_id) {
                        Some(sub) => r matches Ok(None) && (if groups_view(
                            old(devicestate_hash).groups@,
                        ).contains(sub) {
                            final(devicestate_hash).groups@ == old(devicestate_hash).groups@
                        } else {
                            groups_view(final(devicestate_hash).groups@) == groups_view(
                                old(devicestate_hash).groups@,
                            ).push(sub)
                        }),
                        None => r == Err::<Option<(Vec<u8>, PublishData)>, ErrorKind>(
                            ErrorKind::BadClientId,
                        ) && final(devicestate_hash).groups@ == old(devicestate_hash).groups@,
                    }
                },
                EventClassV::Disconnect(f) => {
                    &&& final(reassembler)@ == old(reassembler)@
                    &&& final(devicestate_hash).groups@ == old(devicestate_hash).groups@
                    &&& *final(parse_errors) == *old(parse_errors)
                    &&& match close_code_val(f.close_code) {
                        None => r == Err::<Option<(Vec<u8>, PublishData)>, ErrorKind>(
                            ErrorKind::MalformedNumber,
                        ) && final(subclients_hash)@ == old(subclients_hash)@,
                        Some(code) => if !old(subclients_hash)@.contains_key(f.slot) {
                            r matches Ok(None) && final(subclients_hash)@ == old(subclients_hash)@
                        } else if old(subclients_hash)@[f.slot].client_id != f.client_id {
                            r == Err::<Option<(Vec<u8>, PublishData)>, ErrorKind>(
                                ErrorKind::ClientMismatch,
                            ) && final(subclients_hash)@ == old(subclients_hash)@
                        } else {
                            r matches Ok(None) && final(subclients_hash)@ == old(subclients_hash)@.insert(
                                f.slot,
                                SlotRecordV {
                                    client_id: f.client_id,
                                    connected: code == TAKEOVER_CLOSE_CODE,
                                    file: filepath@,
                                    line: line_num,
                                },
                            )
                        },
                    }
                },
                EventClassV::PublishStart(f) => {
                    &&& final(subclients_hash)@ == old(subclients_hash)@
                    &&& final(devicestate_hash).groups@ == old(devicestate_hash).groups@
                    &&& if !old(subclients_hash)@.contains_key(f.slot) {
                        r matches Ok(None) && *final(parse_errors) == *old(parse_errors) + 1
                            && final(reassembler)@ == old(reassembler)@
                    } else {
                        &&& *final(parse_errors) == *old(parse_errors)
                        &&& if f.len_digits.len() == 0 || digits_val(f.len_digits) > u64::MAX {
                            r == Err::<Option<(Vec<u8>, PublishData)>, ErrorKind>(
                                ErrorKind::MalformedNumber,
                            ) && final(reassembler)@ == old(reassembler)@
                        } else {
                            r matches Ok(None) && final(reassembler)@ == (ReassemblerV {
                                remaining: chunks_for(digits_val(f.len_digits) as u64) as u64,
                                buffer: old(reassembler)@.buffer,
                                pending: Some(
                                    crate::reassemble::PublishDataV {
                                        receiving_clientid: old(subclients_hash)@[f.slot].client_id,
                                        date: f.date,
                                        time: f.time,
                                    },
                                ),
                            })
                        }
                    }
                },
                EventClassV::Irrelevant => {
                    &&& final(subclients_hash)@ == old(subclients_hash)@
                    &&& final(devicestate_hash).groups@ == old(devicestate_hash).groups@
                    &&& final(reassembler)@ == old(reassembler)@
                    &&& *final(parse_errors) == *old(parse_errors)
                    &&& r matches Ok(None)
                },
            }
        },
{
    if reassembler.remaining > 0 {
        return reassembler.feed(line);
    }
    match classify_event(line) {
        EventClass::Connect(f) => {
            let clientid_copy = slice_to_vec(f.client_id.as_slice());
            subclients_hash.record_connect(
                f.slot.as_slice(),
                f.client_id,
                slice_to_vec(filepath),
                line_num,
            );
            match devicestate_hash.ensure_devicestate_hash(clientid_copy.as_slice()) {
                Ok(()) => Ok(None),
                Err(e) => Err(e),
            }
        },
        EventClass::Disconnect(f) => {
            let code = match parse_close_code(f.close_code.as_slice()) {
                Some(code) => code,
                None => {
                    return Err(ErrorKind::MalformedNumber);
                },
            };
            match subclients_hash.record_disconnect(
                f.slot.as_slice(),
                f.client_id,
                code,
                slice_to_vec(filepath),
                line_num,
            ) {
                Ok(_) => Ok(None),
                Err(e) => Err(e),
            }
        },
        EventClass::PublishStart(f) => {
            let receiving = match subclients_hash.resolve(f.slot.as_slice()) {
                Some(rec) => slice_to_vec(rec.client_id.as_slice()),
                None => {
                    *parse_errors = *parse_errors + 1;
                    return Ok(None);
                },
            };
            proof {
                lemma_pubstart_len_digits(line@);
            }
            if f.len_digits.len() == 0 {
                return Err(ErrorKind::MalformedNumber);
            }
            let byte_len = match parse_u64_digits(f.len_digits.as_slice()) {
                Some(v) => v,
                None => {
                    return Err(ErrorKind::MalformedNumber);
                },
            };
            let context = PublishData { receiving_clientid: receiving, date: f.date, time: f.time };
            match reassembler.arm(byte_len, context) {
                Ok(()) => Ok(None),
                Err(e) => Err(e),
            }
        },
        EventClass::Irrelevant => Ok(None),
    }
}

/// Parses one trace file, given as its lines in order: each line is fed
/// through the pipeline, completed messages are delivered to the Device
/// State Store, and the first fatal condition aborts with the offending
/// file and line.  On success the outcome of every delivered payload is
/// handed back with its line, so the caller can log the out-of-order and
/// skipped-action notices.  The result, the final slot bindings, tracked
/// groups, device map and error tally, and the notices are exactly those of
/// folding `line_step` over the file's lines, starting from the state handed
/// in with a fresh idle assembly machine: a pending assembly does not
/// survive its file, while slot bindings persist across files.
pub fn parse_trace_file(
    subclients_hash: &mut SlotTracker,
    devicestate_hash: &mut DeviceStore,
    lines: &Vec<Vec<u8>>,
    filepath: &[u8],
    parse_errors: &mut u64,
) -> (r: Result<Vec<(u64, UpdateOutcome)>, FatalError>)
    requires
        old(devicestate_hash).wf(),
        *old(parse_errors) + lines@.len() < u64::MAX,
        lines@.len() + 1 < u64::MAX,
    ensures
        final(devicestate_hash).wf(),
        *old(parse_errors) <= *final(parse_errors) <= *old(parse_errors) + lines@.len(),
        ({
            let init = RunStateV {
                slots: old(subclients_hash)@,
                groups: groups_view(old(devicestate_hash).groups@),
                devices: device_map(old(devicestate_hash).entries@),
                reassembler: ReassemblerV {
                    remaining: 0,
                    buffer: Seq::<u8>::empty(),
                    pending: None,
                },
                parse_errors: *old(parse_errors) as int,
                notices: Seq::<(int, UpdateOutcome)>::empty(),
            };
            let run = run_lines(init, lines_view(lines@), filepath@, 2);
            &&& final(subclients_hash)@ == run.state.slots
            &&& groups_view(final(devicestate_hash).groups@) == run.state.groups
            &&& device_map(final(devicestate_hash).entries@) == run.state.devices
            &&& *final(parse_errors) == run.state.parse_errors
            &&& match r {
                Ok(ns) => run.fatal is None && notices_view(ns@) == run.state.notices,
                Err(e) => run.fatal == Some((e.kind, e.line as int)) && e.file@ == filepath@,
            }
        }),
{
    let mut reassembler = Reassembler::new();
    let mut notices: Vec<(u64, UpdateOutcome)> = Vec::new();
    let ghost init = RunStateV {
        slots: subclients_hash@,
        groups: groups_view(devicestate_hash.groups@),
        devices: device_map(devicestate_hash.entries@),
        reassembler: reassembler@,
        parse_errors: *parse_errors as int,
        notices: Seq::<(int, UpdateOutcome)>::empty(),
    };
    proof {
        assert(notices_view(notices@) =~= Seq::<(int, UpdateOutcome)>::empty());
        assert(reassembler@ == (ReassemblerV {
            remaining: 0,
            buffer: Seq::<u8>::empty(),
            pending: None,
        }));
        assert(lines_view(lines@).take(0) =~= Seq::<Seq<u8>>::empty());
    }
    let mut count: u64 = 1;
    let mut idx: usize = 0;
    let n = lines.len();
    while idx < n
        invariant
            devicestate_hash.wf(),
            reassembler.wf(),
            n == lines@.len(),
            0 <= idx <= n,
            count == idx + 1,
            *old(parse_errors) <= *parse_errors <= *old(parse_errors) + idx,
            *old(parse_errors) + lines@.len() < u64::MAX,
            lines@.len() + 1 < u64::MAX,
            init == (RunStateV {
                slots: old(subclients_hash)@,
                groups: groups_view(old(devicestate_hash).groups@),
                devices: device_map(old(devicestate_hash).entries@),
                reassembler: ReassemblerV {
                    remaining: 0,
                    buffer: Seq::<u8>::empty(),
                    pending: None,
                },
                parse_errors: *old(parse_errors) as int,
                notices: Seq::<(int, UpdateOutcome)>::empty(),
            }),
            ({
                let run = run_lines(init, lines_view(lines@).take(idx as int), filepath@, 2);
                &&& run.fatal is None
                &&& subclients_hash@ == run.state.slots
                &&& groups_view(devicestate_hash.groups@) == run.state.groups
                &&& device_map(devicestate_hash.entries@) == run.state.devices
                &&& reassembler@ == run.state.reassembler
                &&& *parse_errors == run.state.parse_errors
                &&& notices_view(notices@) == run.state.notices
            }),
        decreases n - idx,
    {
        count += 1;
        let ghost lv = lines_view(lines@);
        let ghost mid = run_lines(init, lv.take(idx as int), filepath@, 2).state;
        proof {
            assert(lv.take(idx + 1) =~= lv.take(idx as int).push(lv[idx as int]));
            lemma_run_lines_snoc(init, lv.take(idx as int), lv[idx as int], filepath@, 2);
            assert(lv[idx as int] == lines@[idx as int]@);
        }
        let completed = match process_line(
            subclients_hash,
            devicestate_hash,
            &mut reassembler,
            lines[idx].as_slice(),
            filepath,
            count,
            parse_errors,
        ) {
            Ok(c) => c,
            Err(kind) => {
                proof {
                    assert(run_lines(init, lv.take(idx + 1), filepath@, 2).fatal == Some(
                        (kind, idx + 2),
                    ));
                    assert(lv =~= lv.take(idx + 1) + lv.skip(idx + 1));
                    lemma_run_lines_extend_fatal(
                        init,
                        lv.take(idx + 1),
                        lv.skip(idx + 1),
                        filepath@,
                        2,
                    );
                }
                return Err(FatalError { kind, file: slice_to_vec(filepath), line: count });
            },
        };
        if let Some((buf, context)) = completed {
            match deliver_payload(devicestate_hash, &context, buf.as_slice(), filepath, count) {
                Ok(out) => {
                    notices.push((count, out));
                    proof {
                        assert(notices_view(notices@) =~= notices_view(
                            notices@.drop_last(),
                        ).push((count as int, out)));
                    }
                },
                Err(kind) => {
                    proof {
                        assert(run_lines(init, lv.take(idx + 1), filepath@, 2).fatal == Some(
                            (kind, idx + 2),
                        ));
                        assert(lv =~= lv.take(idx + 1) + lv.skip(idx + 1));
                        lemma_run_lines_extend_fatal(
                            init,
                            lv.take(idx + 1),
                            lv.skip(idx + 1),
                            filepath@,
                            2,
                        );
                    }
                    return Err(FatalError { kind, file: slice_to_vec(filepath), line: count });
                },
            }
        }
        idx += 1;
    }
    proof {
        assert(lines_view(lines@).take(n as int) =~= lines_view(lines@));
    }
    Ok(notices)
}

} // verus!
