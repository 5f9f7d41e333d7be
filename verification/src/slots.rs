use vstd::prelude::*;
use vstd::slice::slice_to_vec;
use crate::bytes::bytes_eq;
use crate::errors::ErrorKind;
use crate::TAKEOVER_CLOSE_CODE;

verus! {

/// The current occupant of one transport connection slot.
pub struct SlotRecord {
    pub client_id: Vec<u8>,
    pub connected: bool,
    pub file: Vec<u8>,
    pub line: u64,
}

pub ghost struct SlotRecordV {
    pub client_id: Seq<u8>,
    pub connected: bool,
    pub file: Seq<u8>,
    pub line: u64,
}

impl View for SlotRecord {
    type V = SlotRecordV;

    open spec fn view(&self) -> SlotRecordV {
        SlotRecordV {
            client_id: self.client_id@,
            connected: self.connected,
            file: self.file@,
            line: self.line,
        }
    }
}

pub struct SlotEntry {
    pub slot: Vec<u8>,
    pub record: SlotRecord,
}

/// The most recent record for a slot identifier, searching the write log
/// from the newest entry back: last write wins.
pub open spec fn slot_lookup(s: Seq<SlotEntry>, key: Seq<u8>) -> Option<SlotRecordV>
    decreases s.len(),
{
    if s.len() == 0 {
        None
    } else if s.last().slot@ == key {
        Some(s.last().record@)
    } else {
        slot_lookup(s.drop_last(), key)
    }
}

proof fn lemma_slot_lookup_push(s: Seq<SlotEntry>, e: SlotEntry, k: Seq<u8>)
    ensures
        slot_lookup(s.push(e), k) == if k == e.slot@ {
            Some(e.record@)
        } else {
            slot_lookup(s, k)
        },
{
    assert(s.push(e).last() == e);
    assert(s.push(e).drop_last() =~= s);
}

/// Maps each transport slot identifier to the logical client currently bound
/// to it; connect and disconnect records overwrite the binding, and nothing
/// is ever deleted.
pub struct SlotTracker {
    pub entries: Vec<SlotEntry>,
}

impl View for SlotTracker {
    type V = Map<Seq<u8>, SlotRecordV>;

    open spec fn view(&self) -> Map<Seq<u8>, SlotRecordV> {
        Map::new(
            |k: Seq<u8>| slot_lookup(self.entries@, k) is Some,
            |k: Seq<u8>| slot_lookup(self.entries@, k).unwrap(),
        )
    }
}

/// What a disconnect record did to the tracker.
#[derive(Clone, Copy, PartialEq, Eq, Structural, Debug)]
pub enum DisconnectOutcome {
    /// The slot's occupant record was overwritten.
    Recorded,
    /// The slot was never seen: the disconnect is ignored, not an error.
    UntrackedSlot,
}

impl SlotTracker {
    pub fn new() -> (r: SlotTracker)
        ensures
            r@ == Map::<Seq<u8>, SlotRecordV>::empty(),
    {
        let r = SlotTracker { entries: Vec::new() };
        proof {
            assert(r@ =~= Map::<Seq<u8>, SlotRecordV>::empty());
        }
        r
    }

    /// The client currently bound to `slot`, used to attribute a publish.
    pub fn resolve(&self, slot: &[u8]) -> (r: Option<&SlotRecord>)
        ensures
            match r {
                Some(rec) => self@.contains_key(slot@) && self@[slot@] == rec@,
                None => !self@.contains_key(slot@),
            },
    {
        let n = self.entries.len();
        proof {
            assert(self.entries@.subrange(0, n as int) =~= self.entries@);
        }
        let mut i = n;
        while i > 0
            invariant
                0 <= i <= self.entries@.len(),
                slot_lookup(self.entries@, slot@) == slot_lookup(
                    self.entries@.subrange(0, i as int),
                    slot@,
                ),
            decreases i,
        {
            i -= 1;
            proof {
                assert(self.entries@.subrange(0, i + 1).drop_last() =~= self.entries@.subrange(
                    0,
                    i as int,
                ));
                assert(self.entries@.subrange(0, i + 1).last() == self.entries@[i as int]);
            }
            if bytes_eq(self.entries[i].slot.as_slice(), slot) {
                return Some(&self.entries[i].record);
            }
        }
        None
    }

    /// A connect record: unconditionally binds `slot` to `client_id` as
    /// connected, with its provenance.
    pub fn record_connect(&mut self, slot: &[u8], client_id: Vec<u8>, file: Vec<u8>, line: u64)
        ensures
            final(self)@ == old(self)@.insert(
                slot@,
                SlotRecordV { client_id: client_id@, connected: true, file: file@, line },
            ),
    {
        let ghost old_entries = self.entries@;
        let entry = SlotEntry {
            slot: slice_to_vec(slot),
            record: SlotRecord { client_id, connected: true, file, line },
        };
        let ghost e = entry;
        self.entries.push(entry);
        proof {
            assert forall|k: Seq<u8>|
                slot_lookup(self.entries@, k) == if k == slot@ {
                    Some(e.record@)
                } else {
                    slot_lookup(old_entries, k)
                } by {
                lemma_slot_lookup_push(old_entries, e, k);
            }
            assert(self@ =~= old(self)@.insert(
                slot@,
                SlotRecordV { client_id: e.record.client_id@, connected: true, file: e.record.file@, line },
            ));
        }
    }

    /// A disconnect record.  An untracked slot is ignored; a client that
    /// differs from the recorded occupant is a fatal consistency error; a
    /// matching client overwrites the record, which stays connected exactly
    /// when the close code is the takeover code.
    pub fn record_disconnect(
        &mut self,
        slot: &[u8],
        client_id: Vec<u8>,
        close_code: i64,
        file: Vec<u8>,
        line: u64,
    ) -> (r: Result<DisconnectOutcome, ErrorKind>)
        ensures
            match r {
                Ok(DisconnectOutcome::UntrackedSlot) => !old(self)@.contains_key(slot@)
                    && final(self)@ == old(self)@,
                Ok(DisconnectOutcome::Recorded) => old(self)@.contains_key(slot@)
                    && old(self)@[slot@].client_id == client_id@
                    && final(self)@ == old(self)@.insert(
                    slot@,
                    SlotRecordV {
                        client_id: client_id@,
                        connected: close_code == TAKEOVER_CLOSE_CODE,
                        file: file@,
                        line,
                    },
                ),
                Err(e) => e == ErrorKind::ClientMismatch && old(self)@.contains_key(slot@)
                    && old(self)@[slot@].client_id != client_id@ && final(self)@ == old(self)@,
            },
    {
        let tracked_same = match self.resolve(slot) {
            None => {
                return Ok(DisconnectOutcome::UntrackedSlot);
            },
            Some(rec) => bytes_eq(rec.client_id.as_slice(), client_id.as_slice()),
        };
        if !tracked_same {
            return Err(ErrorKind::ClientMismatch);
        }
        let ghost old_entries = self.entries@;
        let connected = close_code == TAKEOVER_CLOSE_CODE;
        let entry = SlotEntry {
            slot: slice_to_vec(slot),
            record: SlotRecord { client_id, connected, file, line },
        };
        let ghost e = entry;
        self.entries.push(entry);
        proof {
            assert forall|k: Seq<u8>|
                slot_lookup(self.entries@, k) == if k == slot@ {
                    Some(e.record@)
                } else {
                    slot_lookup(old_entries, k)
                } by {
                lemma_slot_lookup_push(old_entries, e, k);
            }
            assert(self@ =~= old(self)@.insert(
                slot@,
                SlotRecordV {
                    client_id: e.record.client_id@,
                    connected,
                    file: e.record.file@,
                    line,
                },
            ));
        }
        Ok(DisconnectOutcome::Recorded)
    }
}

} // verus!
