use vstd::prelude::*;
use crate::bytes::all_digits;
use crate::bytes::digits_val;
use crate::bytes::digits_end;
use crate::bytes::digits_end_exec;
use crate::bytes::lemma_digits_end_all;
use crate::bytes::parse_u64_digits;
use crate::bytes::lemma_digits_val_nonneg;
use crate::time::Timestamp;

verus! {

/// The byte string `"Connect"`.
pub open spec fn action_connect() -> Seq<u8> {
    seq![67u8, 111u8, 110u8, 110u8, 101u8, 99u8, 116u8]
}

pub fn action_connect_bytes() -> (r: Vec<u8>)
    ensures
        r@ == action_connect(),
{
    let r: Vec<u8> = vec![67u8, 111u8, 110u8, 110u8, 101u8, 99u8, 116u8];
    proof {
        assert(r@ =~= action_connect());
    }
    r
}

/// The byte string `"Disconnect"`.
pub open spec fn action_disconnect() -> Seq<u8> {
    seq![68u8, 105u8, 115u8, 99u8, 111u8, 110u8, 110u8, 101u8, 99u8, 116u8]
}

pub fn action_disconnect_bytes() -> (r: Vec<u8>)
    ensures
        r@ == action_disconnect(),
{
    let r: Vec<u8> = vec![68u8, 105u8, 115u8, 99u8, 111u8, 110u8, 110u8, 101u8, 99u8, 116u8];
    proof {
        assert(r@ =~= action_disconnect());
    }
    r
}

/// The byte string `"FailedConnect"`.
pub open spec fn action_failed_connect() -> Seq<u8> {
    seq![70u8, 97u8, 105u8, 108u8, 101u8, 100u8, 67u8, 111u8, 110u8, 110u8, 101u8, 99u8, 116u8]
}

pub fn action_failed_connect_bytes() -> (r: Vec<u8>)
    ensures
        r@ == action_failed_connect(),
{
    let r: Vec<u8> = vec![70u8, 97u8, 105u8, 108u8, 101u8, 100u8, 67u8, 111u8, 110u8, 110u8, 101u8, 99u8, 116u8];
    proof {
        assert(r@ =~= action_failed_connect());
    }
    r
}

/// The four fields that the derived state reads out of one reassembled
/// message payload, as plain byte strings.
pub struct PayloadFields {
    pub action: Vec<u8>,
    pub close_code: Vec<u8>,
    pub time: Vec<u8>,
    pub client_id: Vec<u8>,
}

pub open spec fn payload_fields_view(f: PayloadFields) -> (Seq<u8>, Seq<u8>, Seq<u8>, Seq<u8>) {
    (f.action@, f.close_code@, f.time@, f.client_id@)
}

/// The `Action`, `CloseCode`, `Time` and `ClientID` members of the structured
/// payload text, rendered as strings; they are a function of the text alone.
pub uninterp spec fn json_payload_fields(s: Seq<u8>) -> Option<
    (Seq<u8>, Seq<u8>, Seq<u8>, Seq<u8>),
>;

/// Relies on json::parse and json::JsonValue: indexing a parsed value by a
/// member name and rendering it with to_string yields the member's text (or
/// `null` for an absent member), a function of the input text alone.
#[verifier::external_body]
pub(crate) fn extract_payload_fields(buf: &[u8]) -> (r: Option<PayloadFields>)
    ensures
        (match r {
            Some(f) => Some(payload_fields_view(f)),
            None => None,
        }) == json_payload_fields(buf@),
{
    let text = match core::str::from_utf8(buf) {
        Ok(t) => t,
        Err(_) => return None,
    };
    let parsed = match json::parse(text) {
        Ok(v) => v,
        Err(_) => return None,
    };
    Some(PayloadFields {
        action: parsed["Action"].to_string().into_bytes(),
        close_code: parsed["CloseCode"].to_string().into_bytes(),
        time: parsed["Time"].to_string().into_bytes(),
        client_id: parsed["ClientID"].to_string().into_bytes(),
    })
}

/// The instant an RFC 3339 timestamp string denotes, as whole seconds since
/// the epoch and nanoseconds past that second, or nothing when the string is
/// not such a timestamp; a function of the string alone.
pub uninterp spec fn rfc3339_instant(s: Seq<u8>) -> Option<(int, int)>;

/// Relies on chrono's DateTime::parse_from_rfc3339, DateTime::timestamp and
/// DateTime::timestamp_subsec_nanos: parsing an RFC 3339 string and reading
/// the instant back as plain integers depends on the string alone, and two
/// instants compare as their (seconds, nanoseconds) pairs do.
#[verifier::external_body]
pub(crate) fn parse_rfc3339(s: &[u8]) -> (r: Option<Timestamp>)
    ensures
        (match r {
            Some(t) => Some((t.secs as int, t.nanos as int)),
            None => None,
        }) == rfc3339_instant(s@),
{
    let text = match core::str::from_utf8(s) {
        Ok(t) => t,
        Err(_) => return None,
    };
    match chrono::DateTime::parse_from_rfc3339(text) {
        Ok(dt) => Some(Timestamp { secs: dt.timestamp(), nanos: dt.timestamp_subsec_nanos() }),
        Err(_) => None,
    }
}

/// Value of a close or return code capture: an optional sign, then decimal
/// digits, within the range of a 32-bit signed integer.
pub open spec fn close_code_val(s: Seq<u8>) -> Option<int> {
    if s.len() >= 2 && (s[0] == 45 || s[0] == 43) && all_digits(s.skip(1)) {
        let v = digits_val(s.skip(1));
        if s[0] == 45 {
            if -v >= i32::MIN {
                Some(-v)
            } else {
                None
            }
        } else {
            if v <= i32::MAX {
                Some(v)
            } else {
                None
            }
        }
    } else if s.len() >= 1 && all_digits(s) {
        if digits_val(s) <= i32::MAX {
            Some(digits_val(s))
        } else {
            None
        }
    } else {
        None
    }
}


/// Parses a close or return code capture, or reports that it is malformed.
pub fn parse_close_code(s: &[u8]) -> (r: Option<i64>)
    ensures
        (match r {
            Some(v) => Some(v as int),
            None => None,
        }) == close_code_val(s@),
{
    let n = s.len();
    proof {
        assert(s@.len() == n);
    }
    if n == 0 {
        return None;
    }
    let signed = s[0] == 45 || s[0] == 43;
    let start: usize = if signed {
        1
    } else {
        0
    };
    if n == start {
        return None;
    }
    let de = digits_end_exec(s, start);
    proof {
        lemma_digits_end_all(s@, start as int);
    }
    if de < n {
        proof {
            if signed {
                assert(s@.skip(1)[de - 1] == s@[de as int]);
            }
        }
        return None;
    }
    let digits = vstd::slice::slice_subrange(s, start, n);
    proof {
        assert(digits@ =~= s@.skip(start as int));
        assert(s@.skip(0) =~= s@);
    }
    let mag = match parse_u64_digits(digits) {
        Some(v) => v,
        None => {
            proof {
                lemma_digits_val_nonneg(digits@);
            }
            return None;
        },
    };
    if signed && s[0] == 45 {
        if mag > 0x8000_0000u64 {
            return None;
        }
        Some(-(mag as i64))
    } else {
        if mag > 0x7fff_ffffu64 {
            return None;
        }
        Some(mag as i64)
    }
}

} // verus!
