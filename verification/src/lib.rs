//! Reconstructs connection and message-delivery history from the trace log
//! files of a messaging gateway, and cross-checks that history for
//! consistency: raw lines are classified into connect, disconnect,
//! publish-start and continuation records; messages split over a fixed
//! number of lines are reassembled; transport slots are tracked through
//! their changing occupants; reassembled payloads drive a per-group device
//! connection state kept in causal (timestamp) order; and at the end two
//! subscription groups' views of the same devices are compared.

use vstd::prelude::*;

pub mod bytes;
pub mod classify;
pub mod engine;
pub mod errors;
pub mod laws;
pub mod payload;
pub mod reassemble;
pub mod slots;
pub mod store;
pub mod time;

verus! {

/// Close code that a gateway sends when a live connection is handed over in
/// place to a replacement connection; connectivity continues across it.
pub const TAKEOVER_CLOSE_CODE: i64 = 288;

/// Number of payload bytes carried by one continuation line of the trace.
pub const CHUNK_BYTES: u64 = 32;

/// Number of continuation lines needed to carry `len` payload bytes.
pub fn chunks_for_len(len: u64) -> (n: u64)
    ensures
        n == (len + (CHUNK_BYTES - 1) as int) / (CHUNK_BYTES as int),
{
    if len == 0 {
        0
    } else {
        (len - 1) / CHUNK_BYTES + 1
    }
}

} // verus!
