use vstd::prelude::*;
use crate::classify::continuation_fragment;
use crate::classify::match_continuation;
use crate::errors::ErrorKind;
use crate::CHUNK_BYTES;

verus! {

/// The publish-start context that will attribute an eventual payload: the
/// client bound to the receiving slot, and the record's date and time.
#[derive(Debug)]
pub struct PublishData {
    pub receiving_clientid: Vec<u8>,
    pub date: Vec<u8>,
    pub time: Vec<u8>,
}

pub ghost struct PublishDataV {
    pub receiving_clientid: Seq<u8>,
    pub date: Seq<u8>,
    pub time: Seq<u8>,
}

impl View for PublishData {
    type V = PublishDataV;

    open spec fn view(&self) -> PublishDataV {
        PublishDataV {
            receiving_clientid: self.receiving_clientid@,
            date: self.date@,
            time: self.time@,
        }
    }
}

pub ghost struct ReassemblerV {
    pub remaining: u64,
    pub buffer: Seq<u8>,
    pub pending: Option<PublishDataV>,
}

/// Number of continuation lines that carry `len` payload bytes: the chunk
/// count comes from the declared byte length, never from scanning for a
/// terminator, since fragments may contain any byte.
pub open spec fn chunks_for(len: u64) -> int {
    (len + (CHUNK_BYTES - 1) as int) / (CHUNK_BYTES as int)
}

/// One feed of a continuation fragment, as `feed` leaves the machine: one
/// fewer line expected with the fragment appended, or back to idle when the
/// fragment was the last one expected.
pub open spec fn feed_step(st: ReassemblerV, frag: Seq<u8>) -> ReassemblerV {
    if st.remaining > 1 {
        ReassemblerV {
            remaining: (st.remaining - 1) as u64,
            buffer: st.buffer + frag,
            pending: st.pending,
        }
    } else {
        ReassemblerV { remaining: 0, buffer: Seq::<u8>::empty(), pending: None }
    }
}

/// The per-file message assembly state machine: idle while `remaining` is
/// zero, otherwise consuming exactly `remaining` more continuation lines
/// into `buffer` on behalf of the armed publish context.
pub struct Reassembler {
    pub remaining: u64,
    pub buffer: Vec<u8>,
    pub pending: Option<PublishData>,
}

impl View for Reassembler {
    type V = ReassemblerV;

    open spec fn view(&self) -> ReassemblerV {
        ReassemblerV {
            remaining: self.remaining,
            buffer: self.buffer@,
            pending: match self.pending {
                Some(p) => Some(p@),
                None => None,
            },
        }
    }
}

impl Reassembler {
    /// While assembling there is always an armed context, and the buffer is
    /// empty whenever the machine is idle.
    pub open spec fn wf(self) -> bool {
        &&& self.remaining > 0 ==> self.pending is Some
        &&& self.remaining == 0 ==> self.buffer@.len() == 0
    }

    pub open spec fn assembling(self) -> bool {
        self.remaining > 0
    }

    pub fn new() -> (r: Reassembler)
        ensures
            r.wf(),
            !r.assembling(),
            r@ == (ReassemblerV { remaining: 0, buffer: Seq::<u8>::empty(), pending: None }),
    {
        let r = Reassembler { remaining: 0, buffer: Vec::new(), pending: None };
        proof {
            assert(r@.buffer =~= Seq::<u8>::empty());
        }
        r
    }

    /// Arms the machine for a publish-start declaring `byte_len` payload
    /// bytes: a publish-start while an assembly is still pending is a fatal
    /// parse error; a length needing no continuation lines leaves the
    /// machine idle (the context is remembered but never used).
    pub fn arm(&mut self, byte_len: u64, context: PublishData) -> (r: Result<(), ErrorKind>)
        requires
            old(self).wf(),
        ensures
            final(self).wf(),
            if old(self).assembling() {
                r == Err::<(), ErrorKind>(ErrorKind::PublishWhileAssembling) && final(self)@ == old(
                    self,
                )@
            } else {
                r == Ok::<(), ErrorKind>(()) && final(self)@ == (ReassemblerV {
                    remaining: chunks_for(byte_len) as u64,
                    buffer: old(self)@.buffer,
                    pending: Some(context@),
                })
            },
    {
        if self.remaining > 0 {
            return Err(ErrorKind::PublishWhileAssembling);
        }
        let n: u64 = if byte_len == 0 {
            0
        } else {
            (byte_len - 1) / CHUNK_BYTES + 1
        };
        self.remaining = n;
        self.pending = Some(context);
        Ok(())
    }

    /// Consumes one line while assembling.  The line must match the
    /// continuation shape, or the message is interleaved with unrelated
    /// trace content, which is fatal.  When the last expected fragment
    /// arrives, the machine returns to idle and hands back the whole
    /// reassembled buffer with its publish context.
    pub fn feed(&mut self, line: &[u8]) -> (r: Result<Option<(Vec<u8>, PublishData)>, ErrorKind>)
        requires
            old(self).wf(),
            old(self).assembling(),
        ensures
            final(self).wf(),
            match continuation_fragment(line@) {
                None => true,
                Some(frag) => final(self)@ == feed_step(old(self)@, frag),
            },
            match continuation_fragment(line@) {
                None => r == Err::<Option<(Vec<u8>, PublishData)>, ErrorKind>(
                    ErrorKind::InterleavedMessage,
                ) && final(self)@ == old(self)@,
                Some(frag) => if old(self).remaining > 1 {
                    r matches Ok(None) && final(self)@ == (ReassemblerV {
                        remaining: (old(self).remaining - 1) as u64,
                        buffer: old(self)@.buffer + frag,
                        pending: old(self)@.pending,
                    })
                } else {
                    r matches Ok(Some((buf, ctx))) && buf@ == old(self)@.buffer + frag && Some(ctx@)
                        == old(self)@.pending && final(self)@ == (ReassemblerV {
                        remaining: 0,
                        buffer: Seq::<u8>::empty(),
                        pending: None,
                    })
                },
            },
    {
        let mut frag = match match_continuation(line) {
            Some(f) => f,
            None => {
                return Err(ErrorKind::InterleavedMessage);
            },
        };
        self.buffer.append(&mut frag);
        self.remaining = self.remaining - 1;
        if self.remaining > 0 {
            return Ok(None);
        }
        let mut buf: Vec<u8> = Vec::new();
        core::mem::swap(&mut self.buffer, &mut buf);
        let mut pend: Option<PublishData> = None;
        core::mem::swap(&mut self.pending, &mut pend);
        let ctx = pend.unwrap();
        proof {
            assert(self@.buffer =~= Seq::<u8>::empty());
        }
        Ok(Some((buf, ctx)))
    }
}

} // verus!
