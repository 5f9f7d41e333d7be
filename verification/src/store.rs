use vstd::prelude::*;
use vstd::slice::slice_subrange;
use vstd::slice::slice_to_vec;
use crate::bytes::bytes_eq;
use crate::bytes::find_byte;
use crate::bytes::find_byte_from;
use crate::errors::ErrorKind;
use crate::payload::PayloadFields;
use crate::payload::close_code_val;
use crate::payload::parse_close_code;
use crate::payload::rfc3339_instant;
use crate::payload::parse_rfc3339;
use crate::payload::action_connect;
use crate::payload::action_disconnect;
use crate::payload::action_failed_connect;
use crate::payload::action_connect_bytes;
use crate::payload::action_disconnect_bytes;
use crate::payload::action_failed_connect_bytes;
use crate::time::Timestamp;
use crate::time::ts_lt;
use crate::time::timestamp_lt;
use crate::TAKEOVER_CLOSE_CODE;

verus! {

/// The subscription group a logical client identifier belongs to: the
/// identifier is colon-separated, its first segment must be the fixed marker
/// `A`, and the group is the second and third segments joined by a colon.
/// An identifier of any other shape has no group.
pub open spec fn sub_of_client_id(s: Seq<u8>) -> Option<Seq<u8>> {
    if s.len() >= 2 && s[0] == 65 && s[1] == 58 {
        match find_byte_from(s, 2, 58) {
            None => None,
            Some(c2) => {
                let end = match find_byte_from(s, c2 + 1, 58) {
                    None => s.len() as int,
                    Some(c3) => c3,
                };
                Some(s.subrange(2, end))
            },
        }
    } else {
        None
    }
}

/// Derives the subscription group of a logical client identifier, or reports
/// that the identifier cannot have one, which is fatal wherever a group is
/// needed.
pub fn get_sub_from_clientid(clientid: &[u8]) -> (r: Result<Vec<u8>, ErrorKind>)
    ensures
        match r {
            Ok(sub) => sub_of_client_id(clientid@) == Some(sub@),
            Err(e) => e == ErrorKind::BadClientId && sub_of_client_id(clientid@) is None,
        },
{
    let n = clientid.len();
    proof {
        assert(clientid@.len() == n);
    }
    if !(n >= 2 && clientid[0] == 65 && clientid[1] == 58) {
        return Err(ErrorKind::BadClientId);
    }
    let c2 = match find_byte(clientid, 2, 58) {
        None => {
            return Err(ErrorKind::BadClientId);
        },
        Some(c2) => c2,
    };
    let end = match find_byte(clientid, c2 + 1, 58) {
        None => n,
        Some(c3) => c3,
    };
    Ok(slice_to_vec(slice_subrange(clientid, 2, end)))
}

/// One device's most recently known connection state as reported by one
/// subscription group, with the provenance of that report.
pub struct DeviceRecord {
    pub connected: bool,
    pub file: Vec<u8>,
    pub line: u64,
    pub time: Timestamp,
}

pub ghost struct DeviceRecordV {
    pub connected: bool,
    pub file: Seq<u8>,
    pub line: u64,
    pub time: Timestamp,
}

impl View for DeviceRecord {
    type V = DeviceRecordV;

    open spec fn view(&self) -> DeviceRecordV {
        DeviceRecordV {
            connected: self.connected,
            file: self.file@,
            line: self.line,
            time: self.time,
        }
    }
}

pub struct DeviceEntry {
    pub group: Vec<u8>,
    pub device: Vec<u8>,
    pub record: DeviceRecord,
}

/// Each (group, device) pair appears in at most one entry.
pub open spec fn unique_keys(es: Seq<DeviceEntry>) -> bool {
    forall|a: int, b: int|
        0 <= a < b < es.len() ==> !((#[trigger] es[a].group@) == (#[trigger] es[b].group@)
            && es[a].device@ == es[b].device@)
}

/// `g` is one of the tracked subscription groups.
pub open spec fn group_known(gs: Seq<Vec<u8>>, g: Seq<u8>) -> bool {
    exists|i: int| 0 <= i < gs.len() && #[trigger] gs[i]@ == g
}

/// Index of the entry for device `d` under group `g`, scanning from `from`.
pub open spec fn find_entry(es: Seq<DeviceEntry>, g: Seq<u8>, d: Seq<u8>, from: int) -> Option<int>
    decreases es.len() - from,
{
    if from < 0 || from >= es.len() {
        None
    } else if es[from].group@ == g && es[from].device@ == d {
        Some(from)
    } else {
        find_entry(es, g, d, from + 1)
    }
}

/// The stored state for device `d` as reported by group `g`.
pub open spec fn dev_lookup(es: Seq<DeviceEntry>, g: Seq<u8>, d: Seq<u8>) -> Option<DeviceRecordV> {
    match find_entry(es, g, d, 0) {
        None => None,
        Some(i) => Some(es[i].record@),
    }
}

/// The tracked group keys, in first-seen order, as plain byte sequences.
pub open spec fn groups_view(gs: Seq<Vec<u8>>) -> Seq<Seq<u8>> {
    Seq::new(gs.len(), |i: int| gs[i]@)
}

/// What the store means as a map: each tracked (group, device) pair to its
/// stored record.
pub open spec fn device_map(es: Seq<DeviceEntry>) -> Map<(Seq<u8>, Seq<u8>), DeviceRecordV> {
    Map::new(
        |k: (Seq<u8>, Seq<u8>)| dev_lookup(es, k.0, k.1) is Some,
        |k: (Seq<u8>, Seq<u8>)| dev_lookup(es, k.0, k.1).unwrap(),
    )
}

/// Membership in the raw group list and in its view agree.
pub proof fn lemma_groups_view_known(gs: Seq<Vec<u8>>, g: Seq<u8>)
    ensures
        group_known(gs, g) == groups_view(gs).contains(g),
{
    if group_known(gs, g) {
        let i = choose|i: int| 0 <= i < gs.len() && #[trigger] gs[i]@ == g;
        assert(groups_view(gs)[i] == g);
    }
    if groups_view(gs).contains(g) {
        let i = choose|i: int| 0 <= i < groups_view(gs).len() && groups_view(gs)[i] == g;
        assert(gs[i]@ == g);
    }
}

/// What storing a report does to a device's entry: a report older than the
/// stored one is discarded, anything else overwrites.
pub open spec fn upsert_result(prev: Option<DeviceRecordV>, rec: DeviceRecordV) -> Option<
    DeviceRecordV,
> {
    match prev {
        Some(p) => if ts_lt(rec.time, p.time) {
            Some(p)
        } else {
            Some(rec)
        },
        None => Some(rec),
    }
}

/// What `update_devicestate_hash` reported about a payload it accepted.
#[derive(Clone, Copy, PartialEq, Eq, Structural, Debug)]
pub struct UpdateOutcome {
    /// The payload was older than the stored state and was discarded.
    pub out_of_order: bool,
    /// The payload's action produces no state change (a failed connect).
    pub skipped_action: bool,
    /// The device's entry was written.
    pub stored: bool,
}

/// The payload action is one the tool understands.
pub open spec fn valid_action(a: Seq<u8>) -> bool {
    a == action_connect() || a == action_disconnect() || a == action_failed_connect()
}

/// Everything one payload does to the store: the returned outcome or fatal
/// error, and the single device entry written, if any.
pub ghost struct UpdateEffect {
    pub result: Result<UpdateOutcome, ErrorKind>,
    pub write: Option<(Seq<u8>, Seq<u8>, DeviceRecordV)>,
}

/// The case analysis of `update_devicestate_hash`, checked in the same order
/// as the implementation: malformed close code, unparseable timestamp,
/// shapeless receiving client and unknown action are fatal; a group with no
/// prior connect record is fatal; an out-of-order payload or a failed
/// connect changes nothing; anything else overwrites the device's entry,
/// connected unless the action is a disconnect with a non-takeover code.
pub open spec fn update_effect(
    groups: Seq<Seq<u8>>,
    devices: Map<(Seq<u8>, Seq<u8>), DeviceRecordV>,
    receiving: Seq<u8>,
    action: Seq<u8>,
    close_code: Seq<u8>,
    time: Seq<u8>,
    device: Seq<u8>,
    file: Seq<u8>,
    line: u64,
) -> UpdateEffect {
    if close_code_val(close_code) is None {
        UpdateEffect { result: Err(ErrorKind::MalformedNumber), write: None }
    } else if rfc3339_instant(time) is None {
        UpdateEffect { result: Err(ErrorKind::BadTimestamp), write: None }
    } else if sub_of_client_id(receiving) is None {
        UpdateEffect { result: Err(ErrorKind::BadClientId), write: None }
    } else if !valid_action(action) {
        UpdateEffect { result: Err(ErrorKind::UnknownAction), write: None }
    } else {
        let code = close_code_val(close_code).unwrap();
        let inst = rfc3339_instant(time).unwrap();
        let sub = sub_of_client_id(receiving).unwrap();
        if !groups.contains(sub) {
            UpdateEffect { result: Err(ErrorKind::GroupNotTracked), write: None }
        } else {
            let ts = Timestamp { secs: inst.0 as i64, nanos: inst.1 as u32 };
            let prev = if devices.contains_key((sub, device)) {
                Some(devices[(sub, device)])
            } else {
                None
            };
            let out_of_order = prev matches Some(p) && ts_lt(ts, p.time);
            let skipped_action = action == action_failed_connect();
            if out_of_order || skipped_action {
                UpdateEffect {
                    result: Ok(UpdateOutcome { out_of_order, skipped_action, stored: false }),
                    write: None,
                }
            } else {
                let rec = DeviceRecordV {
                    connected: !(action == action_disconnect() && code != TAKEOVER_CLOSE_CODE),
                    file,
                    line,
                    time: ts,
                };
                UpdateEffect {
                    result: Ok(
                        UpdateOutcome { out_of_order: false, skipped_action: false, stored: true },
                    ),
                    write: Some((sub, device, upsert_result(prev, rec).unwrap())),
                }
            }
        }
    }
}

/// The device map after an update wrote, or did not write, one entry.
pub open spec fn apply_write(
    devices: Map<(Seq<u8>, Seq<u8>), DeviceRecordV>,
    write: Option<(Seq<u8>, Seq<u8>, DeviceRecordV)>,
) -> Map<(Seq<u8>, Seq<u8>), DeviceRecordV> {
    match write {
        None => devices,
        Some((g, d, rec)) => devices.insert((g, d), rec),
    }
}

/// Two-level mapping: subscription group, then device client, to last-known
/// connection state.  Groups are created lazily by the first connect record
/// for a client of the group; device entries only by reassembled payloads.
pub struct DeviceStore {
    pub groups: Vec<Vec<u8>>,
    pub entries: Vec<DeviceEntry>,
}

impl DeviceStore {
    /// Tracked groups are listed once, every entry's group is tracked, and
    /// each (group, device) pair has at most one entry.
    pub open spec fn wf(self) -> bool {
        &&& forall|i: int, j: int|
            0 <= i < j < self.groups@.len() ==> (#[trigger] self.groups@[i]@) != (
            #[trigger] self.groups@[j]@)
        &&& unique_keys(self.entries@)
        &&& forall|i: int|
            0 <= i < self.entries@.len() ==> group_known(
                self.groups@,
                (#[trigger] self.entries@[i]).group@,
            )
    }

    pub fn new() -> (r: DeviceStore)
        ensures
            r.wf(),
            r.groups@.len() == 0,
            r.entries@.len() == 0,
    {
        DeviceStore { groups: Vec::new(), entries: Vec::new() }
    }

    /// True when `g` is a tracked subscription group.
    pub fn knows_group(&self, g: &[u8]) -> (r: bool)
        ensures
            r == group_known(self.groups@, g@),
    {
        let mut i: usize = 0;
        let n = self.groups.len();
        while i < n
            invariant
                0 <= i <= n,
                n == self.groups@.len(),
                forall|k: int| 0 <= k < i ==> (#[trigger] self.groups@[k]@) != g@,
            decreases n - i,
        {
            if bytes_eq(self.groups[i].as_slice(), g) {
                return true;
            }
            i += 1;
        }
        false
    }

    /// Index of the entry for `(g, d)`, if there is one.
    fn find_entry_index(&self, g: &[u8], d: &[u8]) -> (r: Option<usize>)
        ensures
            (match r {
                Some(i) => Some(i as int),
                None => None,
            }) == find_entry(self.entries@, g@, d@, 0),
            r matches Some(i) ==> i < self.entries@.len(),
    {
        let mut i: usize = 0;
        let n = self.entries.len();
        proof {
            assert(self.entries@.len() == n);
        }
        while i < n
            invariant
                0 <= i <= n,
                n == self.entries@.len(),
                find_entry(self.entries@, g@, d@, 0) == find_entry(self.entries@, g@, d@, i as int),
            decreases n - i,
        {
            if bytes_eq(self.entries[i].group.as_slice(), g) && bytes_eq(
                self.entries[i].device.as_slice(),
                d,
            ) {
                return Some(i);
            }
            i += 1;
        }
        None
    }

    /// Makes sure the subscription group derived from `clientid` is tracked,
    /// creating it empty if this is the first connect for the group.
    pub fn ensure_devicestate_hash(&mut self, clientid: &[u8]) -> (r: Result<(), ErrorKind>)
        requires
            old(self).wf(),
        ensures
            final(self).wf(),
            final(self).entries@ == old(self).entries@,
            match r {
                Ok(()) => {
                    &&& sub_of_client_id(clientid@) matches Some(sub)
                    &&& group_known(final(self).groups@, sub)
                    &&& if groups_view(old(self).groups@).contains(
                        sub_of_client_id(clientid@).unwrap(),
                    ) {
                        final(self).groups@ == old(self).groups@
                    } else {
                        groups_view(final(self).groups@) == groups_view(old(self).groups@).push(
                            sub_of_client_id(clientid@).unwrap(),
                        )
                    }
                },
                Err(e) => e == ErrorKind::BadClientId && sub_of_client_id(clientid@) is None
                    && final(self).groups@ == old(self).groups@,
            },
    {
        let sub = match get_sub_from_clientid(clientid) {
            Ok(sub) => sub,
            Err(e) => {
                return Err(e);
            },
        };
        proof {
            lemma_groups_view_known(self.groups@, sub@);
        }
        if self.knows_group(sub.as_slice()) {
            return Ok(());
        }
        let ghost old_groups = self.groups@;
        self.groups.push(sub);
        proof {
            assert(groups_view(self.groups@) =~= groups_view(old_groups).push(
                sub_of_client_id(clientid@).unwrap(),
            ));
        }
        proof {
            assert forall|g: Seq<u8>|
                group_known(self.groups@, g) <==> (group_known(old_groups, g)
                    || sub_of_client_id(clientid@) == Some(g)) by {
                if group_known(old_groups, g) {
                    let i = choose|i: int| 0 <= i < old_groups.len() && #[trigger] old_groups[i]@ == g;
                    assert(self.groups@[i]@ == g);
                }
                if sub_of_client_id(clientid@) == Some(g) {
                    assert(self.groups@[old_groups.len() as int]@ == g);
                }
                if group_known(self.groups@, g) {
                    let i = choose|i: int|
                        0 <= i < self.groups@.len() && #[trigger] self.groups@[i]@ == g;
                    if i < old_groups.len() {
                        assert(old_groups[i]@ == g);
                    }
                }
            }
        }
        Ok(())
    }

    /// Applies one reassembled payload, received by `receiving_clientid`, to
    /// the store, as the contract's case analysis states: malformed close
    /// code, unparseable timestamp, shapeless receiving client, unknown
    /// action and untracked group are fatal, in that order of checks; an
    /// out-of-order payload and a failed connect change nothing; anything
    /// else overwrites the device's entry with connectivity derived from the
    /// action and close code.
    pub fn update_devicestate_hash(
        &mut self,
        receiving_clientid: &[u8],
        payload: &PayloadFields,
        file: &[u8],
        line: u64,
    ) -> (r: Result<UpdateOutcome, ErrorKind>)
        requires
            old(self).wf(),
        ensures
            final(self).wf(),
            final(self).groups@ == old(self).groups@,
            ({
                let eff = update_effect(
                    groups_view(old(self).groups@),
                    device_map(old(self).entries@),
                    receiving_clientid@,
                    payload.action@,
                    payload.close_code@,
                    payload.time@,
                    payload.client_id@,
                    file@,
                    line,
                );
                &&& r == eff.result
                &&& device_map(final(self).entries@) == apply_write(
                    device_map(old(self).entries@),
                    eff.write,
                )
                &&& eff.write is None ==> final(self).entries@ == old(self).entries@
            }),
    {
        let code = match parse_close_code(payload.close_code.as_slice()) {
            Some(code) => code,
            None => {
                return Err(ErrorKind::MalformedNumber);
            },
        };
        let time = match parse_rfc3339(payload.time.as_slice()) {
            Some(time) => time,
            None => {
                return Err(ErrorKind::BadTimestamp);
            },
        };
        let sub = match get_sub_from_clientid(receiving_clientid) {
            Ok(sub) => sub,
            Err(_) => {
                return Err(ErrorKind::BadClientId);
            },
        };
        let conn_bytes = action_connect_bytes();
        let disc_bytes = action_disconnect_bytes();
        let failed_bytes = action_failed_connect_bytes();
        let is_connect = bytes_eq(payload.action.as_slice(), conn_bytes.as_slice());
        let is_disconnect = bytes_eq(payload.action.as_slice(), disc_bytes.as_slice());
        let is_failed = bytes_eq(payload.action.as_slice(), failed_bytes.as_slice());
        if !(is_connect || is_disconnect || is_failed) {
            return Err(ErrorKind::UnknownAction);
        }
        proof {
            lemma_groups_view_known(self.groups@, sub@);
        }
        if !self.knows_group(sub.as_slice()) {
            return Err(ErrorKind::GroupNotTracked);
        }
        let prev_index = self.find_entry_index(sub.as_slice(), payload.client_id.as_slice());
        proof {
            let k = (sub@, payload.client_id@);
            assert(device_map(self.entries@).contains_key(k) == (dev_lookup(
                self.entries@,
                sub@,
                payload.client_id@,
            ) is Some));
            if prev_index is Some {
                lemma_find_entry_found(self.entries@, sub@, payload.client_id@, 0);
                assert(device_map(self.entries@)[k] == dev_lookup(
                    self.entries@,
                    sub@,
                    payload.client_id@,
                ).unwrap());
            }
        }
        let out_of_order = match prev_index {
            Some(i) => timestamp_lt(&time, &self.entries[i].record.time),
            None => false,
        };
        let skipped_action = is_failed;
        if out_of_order || skipped_action {
            return Ok(UpdateOutcome { out_of_order, skipped_action, stored: false });
        }
        let connected = !(is_disconnect && code != TAKEOVER_CLOSE_CODE);
        let record = DeviceRecord { connected, file: slice_to_vec(file), line, time };
        let ghost old_entries = self.entries@;
        match prev_index {
            Some(i) => {
                let entry = DeviceEntry {
                    group: sub,
                    device: slice_to_vec(payload.client_id.as_slice()),
                    record,
                };
                self.entries[i] = entry;
                proof {
                    lemma_find_entry_found(old_entries, sub@, payload.client_id@, 0);
                    lemma_find_entry_update(
                        old_entries,
                        i as int,
                        self.entries@,
                        sub@,
                        payload.client_id@,
                    );
                    assert forall|k: int| 0 <= k < self.entries@.len() implies (
                    #[trigger] self.entries@[k]).group@ == old_entries[k].group@
                        && self.entries@[k].device@ == old_entries[k].device@ by {}
                    assert(self.wf());
                    assert(device_map(self.entries@) =~= device_map(old_entries).insert(
                        (sub@, payload.client_id@),
                        self.entries@[i as int].record@,
                    ));
                }
            },
            None => {
                let entry = DeviceEntry {
                    group: sub,
                    device: slice_to_vec(payload.client_id.as_slice()),
                    record,
                };
                self.entries.push(entry);
                proof {
                    lemma_find_entry_none(old_entries, sub@, payload.client_id@, 0);
                    lemma_find_entry_push(old_entries, self.entries@, sub@, payload.client_id@);
                    assert(self.wf());
                    assert(device_map(self.entries@) =~= device_map(old_entries).insert(
                        (sub@, payload.client_id@),
                        self.entries@[old_entries.len() as int].record@,
                    ));
                }
            },
        }
        Ok(UpdateOutcome { out_of_order: false, skipped_action: false, stored: true })
    }
}

/// A successful `find_entry` points at an entry with the searched keys.
proof fn lemma_find_entry_found(es: Seq<DeviceEntry>, g: Seq<u8>, d: Seq<u8>, from: int)
    requires
        find_entry(es, g, d, from) matches Some(i),
    ensures
        find_entry(es, g, d, from) matches Some(i) ==> from <= i < es.len() && es[i].group@ == g
            && es[i].device@ == d,
    decreases es.len() - from,
{
    if !(from < 0 || from >= es.len()) && !(es[from].group@ == g && es[from].device@ == d) {
        lemma_find_entry_found(es, g, d, from + 1);
    }
}

/// A failed `find_entry` means no entry from `from` on has the keys.
proof fn lemma_find_entry_none(es: Seq<DeviceEntry>, g: Seq<u8>, d: Seq<u8>, from: int)
    requires
        0 <= from,
        find_entry(es, g, d, from) == None::<int>,
    ensures
        forall|k: int|
            from <= k < es.len() ==> !((#[trigger] es[k]).group@ == g && es[k].device@ == d),
    decreases es.len() - from,
{
    if from < es.len() {
        lemma_find_entry_none(es, g, d, from + 1);
    }
}

/// Replacing the entry at the index `find_entry` gave, with an entry for the
/// same keys, moves every lookup to the new entry and no other.
proof fn lemma_find_entry_update(
    old_es: Seq<DeviceEntry>,
    i: int,
    new_es: Seq<DeviceEntry>,
    g: Seq<u8>,
    d: Seq<u8>,
)
    requires
        find_entry(old_es, g, d, 0) == Some(i),
        0 <= i < old_es.len(),
        new_es.len() == old_es.len(),
        new_es[i].group@ == g,
        new_es[i].device@ == d,
        forall|k: int| 0 <= k < old_es.len() && k != i ==> new_es[k] == old_es[k],
    ensures
        find_entry(new_es, g, d, 0) == Some(i),
        forall|g2: Seq<u8>, d2: Seq<u8>|
            !(g2 == g && d2 == d) ==> #[trigger] dev_lookup(new_es, g2, d2) == dev_lookup(
                old_es,
                g2,
                d2,
            ),
{
    lemma_find_entry_found(old_es, g, d, 0);
    lemma_find_entry_same_prefix(old_es, new_es, g, d, 0, i);
    assert forall|g2: Seq<u8>, d2: Seq<u8>| !(g2 == g && d2 == d) implies #[trigger] dev_lookup(
        new_es,
        g2,
        d2,
    ) == dev_lookup(old_es, g2, d2) by {
        lemma_find_entry_agrees(old_es, new_es, g2, d2, 0, i, g, d);
    }
}

/// While scanning up to the replaced index, `find_entry` behaves the same on
/// both sequences because entries below the index match.
proof fn lemma_find_entry_same_prefix(
    old_es: Seq<DeviceEntry>,
    new_es: Seq<DeviceEntry>,
    g: Seq<u8>,
    d: Seq<u8>,
    from: int,
    i: int,
)
    requires
        find_entry(old_es, g, d, from) == Some(i),
        from <= i < old_es.len(),
        new_es.len() == old_es.len(),
        new_es[i].group@ == g,
        new_es[i].device@ == d,
        forall|k: int| 0 <= k < old_es.len() && k != i ==> new_es[k] == old_es[k],
        0 <= from,
    ensures
        find_entry(new_es, g, d, from) == Some(i),
    decreases i - from,
{
    if from < i {
        lemma_find_entry_same_prefix(old_es, new_es, g, d, from + 1, i);
    }
}

/// Lookups for any other key pair do not see the replaced entry.
proof fn lemma_find_entry_agrees(
    old_es: Seq<DeviceEntry>,
    new_es: Seq<DeviceEntry>,
    g2: Seq<u8>,
    d2: Seq<u8>,
    from: int,
    i: int,
    g: Seq<u8>,
    d: Seq<u8>,
)
    requires
        0 <= from,
        0 <= i < old_es.len(),
        old_es[i].group@ == g,
        old_es[i].device@ == d,
        new_es.len() == old_es.len(),
        new_es[i].group@ == g,
        new_es[i].device@ == d,
        forall|k: int| 0 <= k < old_es.len() && k != i ==> new_es[k] == old_es[k],
        !(g2 == g && d2 == d),
    ensures
        find_entry(new_es, g2, d2, from) == find_entry(old_es, g2, d2, from),
        (match find_entry(old_es, g2, d2, from) {
            Some(k) => Some(old_es[k].record@),
            None => None,
        }) == (match find_entry(new_es, g2, d2, from) {
            Some(k) => Some(new_es[k].record@),
            None => None,
        }),
    decreases old_es.len() - from,
{
    if from < old_es.len() {
        lemma_find_entry_agrees(old_es, new_es, g2, d2, from + 1, i, g, d);
    }
}

/// Appending an entry for keys with no existing entry adds that lookup and
/// changes no other.
proof fn lemma_find_entry_push(
    old_es: Seq<DeviceEntry>,
    new_es: Seq<DeviceEntry>,
    g: Seq<u8>,
    d: Seq<u8>,
)
    requires
        find_entry(old_es, g, d, 0) == None::<int>,
        new_es.len() == old_es.len() + 1,
        new_es[old_es.len() as int].group@ == g,
        new_es[old_es.len() as int].device@ == d,
        forall|k: int| 0 <= k < old_es.len() ==> new_es[k] == old_es[k],
    ensures
        find_entry(new_es, g, d, 0) == Some(old_es.len() as int),
        forall|g2: Seq<u8>, d2: Seq<u8>|
            !(g2 == g && d2 == d) ==> #[trigger] dev_lookup(new_es, g2, d2) == dev_lookup(
                old_es,
                g2,
                d2,
            ),
{
    lemma_find_entry_push_scan(old_es, new_es, g, d, 0);
    assert forall|g2: Seq<u8>, d2: Seq<u8>| !(g2 == g && d2 == d) implies #[trigger] dev_lookup(
        new_es,
        g2,
        d2,
    ) == dev_lookup(old_es, g2, d2) by {
        lemma_find_entry_push_other(old_es, new_es, g2, d2, 0, g, d);
    }
}

proof fn lemma_find_entry_push_scan(
    old_es: Seq<DeviceEntry>,
    new_es: Seq<DeviceEntry>,
    g: Seq<u8>,
    d: Seq<u8>,
    from: int,
)
    requires
        0 <= from <= old_es.len(),
        find_entry(old_es, g, d, from) == None::<int>,
        new_es.len() == old_es.len() + 1,
        new_es[old_es.len() as int].group@ == g,
        new_es[old_es.len() as int].device@ == d,
        forall|k: int| 0 <= k < old_es.len() ==> new_es[k] == old_es[k],
    ensures
        find_entry(new_es, g, d, from) == Some(old_es.len() as int),
    decreases old_es.len() - from,
{
    if from < old_es.len() {
        lemma_find_entry_push_scan(old_es, new_es, g, d, from + 1);
    }
}

proof fn lemma_find_entry_push_other(
    old_es: Seq<DeviceEntry>,
    new_es: Seq<DeviceEntry>,
    g2: Seq<u8>,
    d2: Seq<u8>,
    from: int,
    g: Seq<u8>,
    d: Seq<u8>,
)
    requires
        0 <= from,
        new_es.len() == old_es.len() + 1,
        new_es[old_es.len() as int].group@ == g,
        new_es[old_es.len() as int].device@ == d,
        forall|k: int| 0 <= k < old_es.len() ==> new_es[k] == old_es[k],
        !(g2 == g && d2 == d),
    ensures
        find_entry(new_es, g2, d2, from) == find_entry(old_es, g2, d2, from),
        (match find_entry(old_es, g2, d2, from) {
            Some(k) => Some(old_es[k].record@),
            None => None,
        }) == (match find_entry(new_es, g2, d2, from) {
            Some(k) => Some(new_es[k].record@),
            None => None,
        }),
    decreases new_es.len() - from,
{
    if from < new_es.len() {
        lemma_find_entry_push_other(old_es, new_es, g2, d2, from + 1, g, d);
    }
}


/// Number of device entries a group holds among the entries scanned.
pub open spec fn group_count(scan: Seq<DeviceEntry>, g: Seq<u8>) -> int
    decreases scan.len(),
{
    if scan.len() == 0 {
        0
    } else {
        group_count(scan.drop_last(), g) + if scan.last().group@ == g {
            1int
        } else {
            0int
        }
    }
}

/// Devices of the reference group, among the entries scanned, whose state in
/// the other group matches.
pub open spec fn count_same(
    scan: Seq<DeviceEntry>,
    full: Seq<DeviceEntry>,
    gref: Seq<u8>,
    goth: Seq<u8>,
) -> int
    decreases scan.len(),
{
    if scan.len() == 0 {
        0
    } else {
        count_same(scan.drop_last(), full, gref, goth) + if scan.last().group@ == gref
            && (dev_lookup(full, goth, scan.last().device@) matches Some(o) && o.connected
            == scan.last().record@.connected) {
            1int
        } else {
            0int
        }
    }
}

/// Devices of the reference group whose state in the other group differs.
pub open spec fn count_diff(
    scan: Seq<DeviceEntry>,
    full: Seq<DeviceEntry>,
    gref: Seq<u8>,
    goth: Seq<u8>,
) -> int
    decreases scan.len(),
{
    if scan.len() == 0 {
        0
    } else {
        count_diff(scan.drop_last(), full, gref, goth) + if scan.last().group@ == gref
            && (dev_lookup(full, goth, scan.last().device@) matches Some(o) && o.connected
            != scan.last().record@.connected) {
            1int
        } else {
            0int
        }
    }
}

/// Devices of the reference group absent from the other group.
pub open spec fn count_absent(
    scan: Seq<DeviceEntry>,
    full: Seq<DeviceEntry>,
    gref: Seq<u8>,
    goth: Seq<u8>,
) -> int
    decreases scan.len(),
{
    if scan.len() == 0 {
        0
    } else {
        count_absent(scan.drop_last(), full, gref, goth) + if scan.last().group@ == gref
            && dev_lookup(full, goth, scan.last().device@) is None {
            1int
        } else {
            0int
        }
    }
}

/// One device reported with different connectivity by the two groups, with
/// both sides' provenance.
pub struct Mismatch {
    pub device: Vec<u8>,
    pub ref_connected: bool,
    pub ref_file: Vec<u8>,
    pub ref_line: u64,
    pub other_file: Vec<u8>,
    pub other_line: u64,
}

/// The aggregate outcome of comparing two subscription groups over a frozen
/// snapshot of the store.
pub struct CompareReport {
    pub reference: Vec<u8>,
    pub other: Vec<u8>,
    pub num_same: u64,
    pub num_different: u64,
    pub num_notpresent: u64,
    pub mismatches: Vec<Mismatch>,
}

/// A listed mismatch is a true one: both groups hold the device, their
/// connectivity differs, and the provenances are the stored ones.
pub open spec fn mismatch_sound(
    es: Seq<DeviceEntry>,
    gref: Seq<u8>,
    goth: Seq<u8>,
    m: Mismatch,
) -> bool {
    &&& dev_lookup(es, gref, m.device@) matches Some(a) && a.connected == m.ref_connected
        && a.file == m.ref_file@ && a.line == m.ref_line
    &&& dev_lookup(es, goth, m.device@) matches Some(b) && b.connected != m.ref_connected
        && b.file == m.other_file@ && b.line == m.other_line
}

/// An entry's own keys are what `dev_lookup` finds, when keys are unique.
pub proof fn lemma_dev_lookup_at(es: Seq<DeviceEntry>, i: int)
    requires
        0 <= i < es.len(),
        forall|a: int, b: int|
            0 <= a < b < es.len() ==> !((#[trigger] es[a].group@) == (#[trigger] es[b].group@)
                && es[a].device@ == es[b].device@),
    ensures
        dev_lookup(es, es[i].group@, es[i].device@) == Some(es[i].record@),
{
    lemma_find_entry_before(es, es[i].group@, es[i].device@, 0, i);
}

/// `find_entry` scanning from at or before a matching entry, over a prefix
/// free of other matches, lands on that entry.
proof fn lemma_find_entry_before(es: Seq<DeviceEntry>, g: Seq<u8>, d: Seq<u8>, from: int, i: int)
    requires
        0 <= from <= i < es.len(),
        es[i].group@ == g,
        es[i].device@ == d,
        forall|a: int, b: int|
            0 <= a < b < es.len() ==> !((#[trigger] es[a].group@) == (#[trigger] es[b].group@)
                && es[a].device@ == es[b].device@),
    ensures
        find_entry(es, g, d, from) == Some(i),
    decreases i - from,
{
    if from < i {
        assert(!(es[from].group@ == g && es[from].device@ == d));
        lemma_find_entry_before(es, g, d, from + 1, i);
    }
}

/// The index of the entry a successful `dev_lookup` read.
pub proof fn lemma_dev_lookup_index(es: Seq<DeviceEntry>, g: Seq<u8>, d: Seq<u8>) -> (i: int)
    requires
        dev_lookup(es, g, d) is Some,
    ensures
        0 <= i < es.len(),
        es[i].group@ == g,
        es[i].device@ == d,
        Some(es[i].record@) == dev_lookup(es, g, d),
{
    lemma_find_entry_found(es, g, d, 0);
    find_entry(es, g, d, 0).unwrap()
}

impl DeviceStore {
    /// Compares the store's view of every device between two subscription
    /// groups: the group tracking more devices is the reference (the first
    /// on a tie); each of its devices is matching, mismatched (reported with
    /// both provenances) or absent in the other group.  A group the store
    /// never tracked is reported back as the error.  Read-only.
    pub fn compare_devicestates(&self, recsub1: &[u8], recsub2: &[u8]) -> (r: Result<
        CompareReport,
        Vec<u8>,
    >)
        requires
            self.wf(),
        ensures
            match r {
                Err(g) => (g@ == recsub1@ && !group_known(self.groups@, recsub1@)) || (g@
                    == recsub2@ && group_known(self.groups@, recsub1@) && !group_known(
                    self.groups@,
                    recsub2@,
                )),
                Ok(rep) => {
                    &&& group_known(self.groups@, recsub1@)
                    &&& group_known(self.groups@, recsub2@)
                    &&& if group_count(self.entries@, recsub1@) >= group_count(
                        self.entries@,
                        recsub2@,
                    ) {
                        rep.reference@ == recsub1@ && rep.other@ == recsub2@
                    } else {
                        rep.reference@ == recsub2@ && rep.other@ == recsub1@
                    }
                    &&& rep.num_same == count_same(
                        self.entries@,
                        self.entries@,
                        rep.reference@,
                        rep.other@,
                    )
                    &&& rep.num_different == count_diff(
                        self.entries@,
                        self.entries@,
                        rep.reference@,
                        rep.other@,
                    )
                    &&& rep.num_notpresent == count_absent(
                        self.entries@,
                        self.entries@,
                        rep.reference@,
                        rep.other@,
                    )
                    &&& rep.mismatches@.len() == rep.num_different
                    &&& forall|i: int|
                        0 <= i < rep.mismatches@.len() ==> mismatch_sound(
                            self.entries@,
                            rep.reference@,
                            rep.other@,
                            #[trigger] rep.mismatches@[i],
                        )
                },
            },
    {
        if !self.knows_group(recsub1) {
            return Err(slice_to_vec(recsub1));
        }
        if !self.knows_group(recsub2) {
            return Err(slice_to_vec(recsub2));
        }
        let n1 = self.count_group_devices(recsub1);
        let n2 = self.count_group_devices(recsub2);
        let (gref, goth) = if n1 >= n2 {
            (recsub1, recsub2)
        } else {
            (recsub2, recsub1)
        };
        let n = self.entries.len();
        proof {
            assert(self.entries@.len() == n);
            assert(self.entries@.subrange(0, 0) =~= Seq::<DeviceEntry>::empty());
        }
        let mut num_same: u64 = 0;
        let mut num_different: u64 = 0;
        let mut num_notpresent: u64 = 0;
        let mut mismatches: Vec<Mismatch> = Vec::new();
        let mut i: usize = 0;
        while i < n
            invariant
                self.wf(),
                n == self.entries@.len(),
                0 <= i <= n,
                num_same == count_same(
                    self.entries@.subrange(0, i as int),
                    self.entries@,
                    gref@,
                    goth@,
                ),
                num_different == count_diff(
                    self.entries@.subrange(0, i as int),
                    self.entries@,
                    gref@,
                    goth@,
                ),
                num_notpresent == count_absent(
                    self.entries@.subrange(0, i as int),
                    self.entries@,
                    gref@,
                    goth@,
                ),
                num_same <= i && num_different <= i && num_notpresent <= i,
                mismatches@.len() == num_different,
                forall|k: int|
                    0 <= k < mismatches@.len() ==> mismatch_sound(
                        self.entries@,
                        gref@,
                        goth@,
                        #[trigger] mismatches@[k],
                    ),
            decreases n - i,
        {
            proof {
                assert(self.entries@.subrange(0, i + 1).drop_last() =~= self.entries@.subrange(
                    0,
                    i as int,
                ));
                assert(self.entries@.subrange(0, i + 1).last() == self.entries@[i as int]);
            }
            if bytes_eq(self.entries[i].group.as_slice(), gref) {
                match self.find_entry_index(goth, self.entries[i].device.as_slice()) {
                    None => {
                        num_notpresent += 1;
                    },
                    Some(k) => {
                        if self.entries[k].record.connected == self.entries[i].record.connected {
                            num_same += 1;
                        } else {
                            num_different += 1;
                            proof {
                                lemma_dev_lookup_at(self.entries@, i as int);
                            }
                            let m = Mismatch {
                                device: slice_to_vec(self.entries[i].device.as_slice()),
                                ref_connected: self.entries[i].record.connected,
                                ref_file: slice_to_vec(self.entries[i].record.file.as_slice()),
                                ref_line: self.entries[i].record.line,
                                other_file: slice_to_vec(self.entries[k].record.file.as_slice()),
                                other_line: self.entries[k].record.line,
                            };
                            mismatches.push(m);
                        }
                    },
                }
            }
            i += 1;
        }
        proof {
            assert(self.entries@.subrange(0, n as int) =~= self.entries@);
        }
        Ok(
            CompareReport {
                reference: slice_to_vec(gref),
                other: slice_to_vec(goth),
                num_same,
                num_different,
                num_notpresent,
                mismatches,
            },
        )
    }

    /// The stored state for one device under one subscription group.
    pub fn get_device(&self, g: &[u8], d: &[u8]) -> (r: Option<&DeviceRecord>)
        ensures
            (match r {
                Some(rec) => Some(rec@),
                None => None,
            }) == dev_lookup(self.entries@, g@, d@),
    {
        match self.find_entry_index(g, d) {
            Some(i) => Some(&self.entries[i].record),
            None => None,
        }
    }

    /// How many devices a group tracks.
    pub fn count_group_devices(&self, g: &[u8]) -> (r: u64)
        ensures
            r == group_count(self.entries@, g@),
    {
        let n = self.entries.len();
        proof {
            assert(self.entries@.len() == n);
            assert(self.entries@.subrange(0, 0) =~= Seq::<DeviceEntry>::empty());
        }
        let mut count: u64 = 0;
        let mut i: usize = 0;
        while i < n
            invariant
                n == self.entries@.len(),
                0 <= i <= n,
                count <= i,
                count == group_count(self.entries@.subrange(0, i as int), g@),
            decreases n - i,
        {
            proof {
                assert(self.entries@.subrange(0, i + 1).drop_last() =~= self.entries@.subrange(
                    0,
                    i as int,
                ));
                assert(self.entries@.subrange(0, i + 1).last() == self.entries@[i as int]);
            }
            if bytes_eq(self.entries[i].group.as_slice(), g) {
                count += 1;
            }
            i += 1;
        }
        proof {
            assert(self.entries@.subrange(0, n as int) =~= self.entries@);
        }
        count
    }

    /// The per-group device tallies for the final report, one pair per
    /// tracked group, in the order the groups were first seen.
    pub fn analyse_devicestate_hash(&self) -> (r: Vec<(Vec<u8>, u64)>)
        ensures
            r@.len() == self.groups@.len(),
            forall|i: int|
                0 <= i < r@.len() ==> (#[trigger] r@[i]).0@ == self.groups@[i]@ && r@[i].1
                    == group_count(self.entries@, self.groups@[i]@),
    {
        let n = self.groups.len();
        let mut out: Vec<(Vec<u8>, u64)> = Vec::new();
        let mut i: usize = 0;
        while i < n
            invariant
                n == self.groups@.len(),
                0 <= i <= n,
                out@.len() == i,
                forall|k: int|
                    0 <= k < i ==> (#[trigger] out@[k]).0@ == self.groups@[k]@ && out@[k].1
                        == group_count(self.entries@, self.groups@[k]@),
            decreases n - i,
        {
            let cnt = self.count_group_devices(self.groups[i].as_slice());
            out.push((slice_to_vec(self.groups[i].as_slice()), cnt));
            i += 1;
        }
        out
    }
}

} // verus!
