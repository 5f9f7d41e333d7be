use vstd::prelude::*;
use vstd::slice::slice_subrange;
use vstd::slice::slice_to_vec;
use crate::bytes::is_ws;
use crate::bytes::is_digit;
use crate::bytes::all_digits;
use crate::bytes::match_at;
use crate::bytes::find_byte_from;
use crate::bytes::rfind_byte;
use crate::bytes::find_sub_from;
use crate::bytes::token_end;
use crate::bytes::ws_end;
use crate::bytes::digits_end;
use crate::bytes::find_byte;
use crate::bytes::rfind_byte_exec;
use crate::bytes::find_sub;
use crate::bytes::token_end_exec;
use crate::bytes::ws_end_exec;
use crate::bytes::digits_end_exec;
use crate::bytes::starts_with_at;
use crate::bytes::lemma_digits_end_all;

verus! {

/// The byte string `"User is authenticated and authorized"`.
pub open spec fn auth_marker() -> Seq<u8> {
    seq![85u8, 115u8, 101u8, 114u8, 32u8, 105u8, 115u8, 32u8, 97u8, 117u8, 116u8, 104u8, 101u8, 110u8, 116u8, 105u8, 99u8, 97u8, 116u8, 101u8, 100u8, 32u8, 97u8, 110u8, 100u8, 32u8, 97u8, 117u8, 116u8, 104u8, 111u8, 114u8, 105u8, 122u8, 101u8, 100u8]
}

pub fn auth_marker_bytes() -> (r: Vec<u8>)
    ensures
        r@ == auth_marker(),
{
    let r: Vec<u8> = vec![85u8, 115u8, 101u8, 114u8, 32u8, 105u8, 115u8, 32u8, 97u8, 117u8, 116u8, 104u8, 101u8, 110u8, 116u8, 105u8, 99u8, 97u8, 116u8, 101u8, 100u8, 32u8, 97u8, 110u8, 100u8, 32u8, 97u8, 117u8, 116u8, 104u8, 111u8, 114u8, 105u8, 122u8, 101u8, 100u8];
    proof {
        assert(r@ =~= auth_marker());
    }
    r
}

/// The byte string `"connect="`.
pub open spec fn connect_key() -> Seq<u8> {
    seq![99u8, 111u8, 110u8, 110u8, 101u8, 99u8, 116u8, 61u8]
}

pub fn connect_key_bytes() -> (r: Vec<u8>)
    ensures
        r@ == connect_key(),
{
    let r: Vec<u8> = vec![99u8, 111u8, 110u8, 110u8, 101u8, 99u8, 116u8, 61u8];
    proof {
        assert(r@ =~= connect_key());
    }
    r
}

/// The byte string `"client="`.
pub open spec fn client_key() -> Seq<u8> {
    seq![99u8, 108u8, 105u8, 101u8, 110u8, 116u8, 61u8]
}

pub fn client_key_bytes() -> (r: Vec<u8>)
    ensures
        r@ == client_key(),
{
    let r: Vec<u8> = vec![99u8, 108u8, 105u8, 101u8, 110u8, 116u8, 61u8];
    proof {
        assert(r@ =~= client_key());
    }
    r
}

/// The byte string `"Closing virtual connection (CWLNA1111): connect="`.
pub open spec fn disconnect_marker() -> Seq<u8> {
    seq![67u8, 108u8, 111u8, 115u8, 105u8, 110u8, 103u8, 32u8, 118u8, 105u8, 114u8, 116u8, 117u8, 97u8, 108u8, 32u8, 99u8, 111u8, 110u8, 110u8, 101u8, 99u8, 116u8, 105u8, 111u8, 110u8, 32u8, 40u8, 67u8, 87u8, 76u8, 78u8, 65u8, 49u8, 49u8, 49u8, 49u8, 41u8, 58u8, 32u8, 99u8, 111u8, 110u8, 110u8, 101u8, 99u8, 116u8, 61u8]
}

pub fn disconnect_marker_bytes() -> (r: Vec<u8>)
    ensures
        r@ == disconnect_marker(),
{
    let r: Vec<u8> = vec![67u8, 108u8, 111u8, 115u8, 105u8, 110u8, 103u8, 32u8, 118u8, 105u8, 114u8, 116u8, 117u8, 97u8, 108u8, 32u8, 99u8, 111u8, 110u8, 110u8, 101u8, 99u8, 116u8, 105u8, 111u8, 110u8, 32u8, 40u8, 67u8, 87u8, 76u8, 78u8, 65u8, 49u8, 49u8, 49u8, 49u8, 41u8, 58u8, 32u8, 99u8, 111u8, 110u8, 110u8, 101u8, 99u8, 116u8, 61u8];
    proof {
        assert(r@ =~= disconnect_marker());
    }
    r
}

/// The byte string `"name="`.
pub open spec fn name_key() -> Seq<u8> {
    seq![110u8, 97u8, 109u8, 101u8, 61u8]
}

pub fn name_key_bytes() -> (r: Vec<u8>)
    ensures
        r@ == name_key(),
{
    let r: Vec<u8> = vec![110u8, 97u8, 109u8, 101u8, 61u8];
    proof {
        assert(r@ =~= name_key());
    }
    r
}

/// The byte string `"RC="`.
pub open spec fn rc_key() -> Seq<u8> {
    seq![82u8, 67u8, 61u8]
}

pub fn rc_key_bytes() -> (r: Vec<u8>)
    ensures
        r@ == rc_key(),
{
    let r: Vec<u8> = vec![82u8, 67u8, 61u8];
    proof {
        assert(r@ =~= rc_key());
    }
    r
}

/// The byte string `"MQTT send"`.
pub open spec fn mqtt_send_marker() -> Seq<u8> {
    seq![77u8, 81u8, 84u8, 84u8, 32u8, 115u8, 101u8, 110u8, 100u8]
}

pub fn mqtt_send_marker_bytes() -> (r: Vec<u8>)
    ensures
        r@ == mqtt_send_marker(),
{
    let r: Vec<u8> = vec![77u8, 81u8, 84u8, 84u8, 32u8, 115u8, 101u8, 110u8, 100u8];
    proof {
        assert(r@ =~= mqtt_send_marker());
    }
    r
}

/// The byte string `"PUBLISH connect="`.
pub open spec fn publish_key() -> Seq<u8> {
    seq![80u8, 85u8, 66u8, 76u8, 73u8, 83u8, 72u8, 32u8, 99u8, 111u8, 110u8, 110u8, 101u8, 99u8, 116u8, 61u8]
}

pub fn publish_key_bytes() -> (r: Vec<u8>)
    ensures
        r@ == publish_key(),
{
    let r: Vec<u8> = vec![80u8, 85u8, 66u8, 76u8, 73u8, 83u8, 72u8, 32u8, 99u8, 111u8, 110u8, 110u8, 101u8, 99u8, 116u8, 61u8];
    proof {
        assert(r@ =~= publish_key());
    }
    r
}

/// The byte string `": len="`.
pub open spec fn len_key() -> Seq<u8> {
    seq![58u8, 32u8, 108u8, 101u8, 110u8, 61u8]
}

pub fn len_key_bytes() -> (r: Vec<u8>)
    ensures
        r@ == len_key(),
{
    let r: Vec<u8> = vec![58u8, 32u8, 108u8, 101u8, 110u8, 61u8];
    proof {
        assert(r@ =~= len_key());
    }
    r
}




/// Positions of the line's leading timestamp: the first `T` and the first `Z`
/// after it.  The date runs up to the `T`, the time up to the `Z`.
pub open spec fn ts_prefix(s: Seq<u8>) -> Option<(int, int)> {
    match find_byte_from(s, 0, 84u8) {
        None => None,
        Some(t) => match find_byte_from(s, t + 1, 90u8) {
            None => None,
            Some(z) => Some((t, z)),
        },
    }
}

pub ghost struct ConnectFieldsV {
    pub date: Seq<u8>,
    pub time: Seq<u8>,
    pub slot: Seq<u8>,
    pub client_id: Seq<u8>,
}

pub ghost struct DisconnectFieldsV {
    pub date: Seq<u8>,
    pub time: Seq<u8>,
    pub slot: Seq<u8>,
    pub client_id: Seq<u8>,
    pub close_code: Seq<u8>,
}

pub ghost struct PubStartFieldsV {
    pub date: Seq<u8>,
    pub time: Seq<u8>,
    pub slot: Seq<u8>,
    pub len_digits: Seq<u8>,
}

/// Grammar of a connect record: timestamp, the authentication marker, then
/// whitespace-delimited `connect=` and `client=` fields, the last one
/// followed by at least one whitespace byte.  The grammar is deterministic:
/// each marker and key is taken at its first occurrence, each capture is a
/// maximal whitespace-delimited token, and the next key must stand right at
/// the token's end.  A line that repeats a key, or runs a key into the
/// previous token, is not a record of this grammar and is skipped.
pub open spec fn connect_fields(s: Seq<u8>) -> Option<ConnectFieldsV> {
    match ts_prefix(s) {
        None => None,
        Some((t, z)) => match find_sub_from(s, z + 1, auth_marker()) {
            None => None,
            Some(a) => match find_sub_from(s, a + auth_marker().len(), connect_key()) {
                None => None,
                Some(c) => {
                    let cs = c + connect_key().len();
                    let ce = token_end(s, cs);
                    let ws = ws_end(s, ce);
                    if match_at(s, ws, client_key()) {
                        let ks = ws + client_key().len();
                        let ke = token_end(s, ks);
                        if ke < s.len() {
                            Some(ConnectFieldsV {
                                date: s.subrange(0, t),
                                time: s.subrange(t + 1, z),
                                slot: s.subrange(cs, ce),
                                client_id: s.subrange(ks, ke),
                            })
                        } else {
                            None
                        }
                    } else {
                        None
                    }
                },
            },
        },
    }
}

/// Grammar of a disconnect record: timestamp, the close marker ending in
/// `connect=`, then `name=` and `RC=` fields, each capture followed by at
/// least one whitespace byte.  As with the connect grammar, every marker and
/// key is taken at its first occurrence and captures are whole
/// whitespace-delimited tokens; degenerate lines with repeated or glued keys
/// are skipped rather than re-read from a later occurrence.
pub open spec fn disconnect_fields(s: Seq<u8>) -> Option<DisconnectFieldsV> {
    match ts_prefix(s) {
        None => None,
        Some((t, z)) => match find_sub_from(s, z + 1, disconnect_marker()) {
            None => None,
            Some(d) => {
                let cs = d + disconnect_marker().len();
                let ce = token_end(s, cs);
                if ce < s.len() {
                    match find_sub_from(s, ce, name_key()) {
                        None => None,
                        Some(n) => {
                            let ns = n + name_key().len();
                            let ne = token_end(s, ns);
                            if ne < s.len() {
                                match find_sub_from(s, ne, rc_key()) {
                                    None => None,
                                    Some(r) => {
                                        let rs = r + rc_key().len();
                                        let re = token_end(s, rs);
                                        if re < s.len() {
                                            Some(DisconnectFieldsV {
                                                date: s.subrange(0, t),
                                                time: s.subrange(t + 1, z),
                                                slot: s.subrange(cs, ce),
                                                client_id: s.subrange(ns, ne),
                                                close_code: s.subrange(rs, re),
                                            })
                                        } else {
                                            None
                                        }
                                    },
                                }
                            } else {
                                None
                            }
                        },
                    }
                } else {
                    None
                }
            },
        },
    }
}

/// Grammar of a publish-start record: timestamp, a space, the thread token,
/// a space, the send marker, then `PUBLISH connect=<digits>: len=<digits>`
/// with a whitespace or `$` byte after the length digits.  Markers are taken
/// at their first occurrence, as in the other record grammars.
pub open spec fn pubstart_fields(s: Seq<u8>) -> Option<PubStartFieldsV> {
    match ts_prefix(s) {
        None => None,
        Some((t, z)) => {
            if z + 1 < s.len() && s[z + 1] == 32u8 {
                let th_end = token_end(s, z + 2);
                if th_end < s.len() && s[th_end] == 32u8 {
                    match find_sub_from(s, th_end + 1, mqtt_send_marker()) {
                        None => None,
                        Some(m) => match find_sub_from(s, m + mqtt_send_marker().len(), publish_key()) {
                            None => None,
                            Some(p) => {
                                let ds = p + publish_key().len();
                                let de = digits_end(s, ds);
                                if match_at(s, de, len_key()) {
                                    let ls = de + len_key().len();
                                    let le = digits_end(s, ls);
                                    if le < s.len() && (is_ws(s[le]) || s[le] == 36u8) {
                                        Some(PubStartFieldsV {
                                            date: s.subrange(0, t),
                                            time: s.subrange(t + 1, z),
                                            slot: s.subrange(ds, de),
                                            len_digits: s.subrange(ls, le),
                                        })
                                    } else {
                                        None
                                    }
                                } else {
                                    None
                                }
                            },
                        },
                    }
                } else {
                    None
                }
            } else {
                None
            }
        },
    }
}

/// Grammar of a message continuation line: the fragment between the first
/// `[` and the last `]` of the line.
pub open spec fn continuation_fragment(s: Seq<u8>) -> Option<Seq<u8>> {
    match find_byte_from(s, 0, 91u8) {
        None => None,
        Some(a) => match rfind_byte(s, 93u8) {
            None => None,
            Some(b) => if a < b {
                Some(s.subrange(a + 1, b))
            } else {
                None
            },
        },
    }
}

pub struct ConnectFields {
    pub date: Vec<u8>,
    pub time: Vec<u8>,
    pub slot: Vec<u8>,
    pub client_id: Vec<u8>,
}

impl View for ConnectFields {
    type V = ConnectFieldsV;

    open spec fn view(&self) -> ConnectFieldsV {
        ConnectFieldsV {
            date: self.date@,
            time: self.time@,
            slot: self.slot@,
            client_id: self.client_id@,
        }
    }
}

pub struct DisconnectFields {
    pub date: Vec<u8>,
    pub time: Vec<u8>,
    pub slot: Vec<u8>,
    pub client_id: Vec<u8>,
    pub close_code: Vec<u8>,
}

impl View for DisconnectFields {
    type V = DisconnectFieldsV;

    open spec fn view(&self) -> DisconnectFieldsV {
        DisconnectFieldsV {
            date: self.date@,
            time: self.time@,
            slot: self.slot@,
            client_id: self.client_id@,
            close_code: self.close_code@,
        }
    }
}

pub struct PubStartFields {
    pub date: Vec<u8>,
    pub time: Vec<u8>,
    pub slot: Vec<u8>,
    pub len_digits: Vec<u8>,
}

impl View for PubStartFields {
    type V = PubStartFieldsV;

    open spec fn view(&self) -> PubStartFieldsV {
        PubStartFieldsV {
            date: self.date@,
            time: self.time@,
            slot: self.slot@,
            len_digits: self.len_digits@,
        }
    }
}

pub fn match_connect(line: &[u8]) -> (r: Option<ConnectFields>)
    ensures
        (match r {
            Some(f) => Some(f@),
            None => None,
        }) == connect_fields(line@),
{
    let n = line.len();
    proof { assert(line@.len() == n); }
    let t = match find_byte(line, 0, 84u8) {
        Some(t) => t,
        None => return None,
    };
    let z = match find_byte(line, t + 1, 90u8) {
        Some(z) => z,
        None => return None,
    };
    let auth = auth_marker_bytes();
    let a = match find_sub(line, z + 1, auth.as_slice()) {
        Some(a) => a,
        None => return None,
    };
    let ckey = connect_key_bytes();
    let c = match find_sub(line, a + auth.len(), ckey.as_slice()) {
        Some(c) => c,
        None => return None,
    };
    let cs = c + ckey.len();
    let ce = token_end_exec(line, cs);
    let ws = ws_end_exec(line, ce);
    let kkey = client_key_bytes();
    if !starts_with_at(line, ws, kkey.as_slice()) {
        return None;
    }
    let ks = ws + kkey.len();
    let ke = token_end_exec(line, ks);
    if ke >= line.len() {
        return None;
    }
    Some(ConnectFields {
        date: slice_to_vec(slice_subrange(line, 0, t)),
        time: slice_to_vec(slice_subrange(line, t + 1, z)),
        slot: slice_to_vec(slice_subrange(line, cs, ce)),
        client_id: slice_to_vec(slice_subrange(line, ks, ke)),
    })
}

pub fn match_disconnect(line: &[u8]) -> (r: Option<DisconnectFields>)
    ensures
        (match r {
            Some(f) => Some(f@),
            None => None,
        }) == disconnect_fields(line@),
{
    let n = line.len();
    proof { assert(line@.len() == n); }
    let t = match find_byte(line, 0, 84u8) {
        Some(t) => t,
        None => return None,
    };
    let z = match find_byte(line, t + 1, 90u8) {
        Some(z) => z,
        None => return None,
    };
    let marker = disconnect_marker_bytes();
    let d = match find_sub(line, z + 1, marker.as_slice()) {
        Some(d) => d,
        None => return None,
    };
    let cs = d + marker.len();
    let ce = token_end_exec(line, cs);
    if ce >= line.len() {
        return None;
    }
    let nkey = name_key_bytes();
    let n = match find_sub(line, ce, nkey.as_slice()) {
        Some(n) => n,
        None => return None,
    };
    let ns = n + nkey.len();
    let ne = token_end_exec(line, ns);
    if ne >= line.len() {
        return None;
    }
    let rkey = rc_key_bytes();
    let rcp = match find_sub(line, ne, rkey.as_slice()) {
        Some(rcp) => rcp,
        None => return None,
    };
    let rs = rcp + rkey.len();
    let re = token_end_exec(line, rs);
    if re >= line.len() {
        return None;
    }
    Some(DisconnectFields {
        date: slice_to_vec(slice_subrange(line, 0, t)),
        time: slice_to_vec(slice_subrange(line, t + 1, z)),
        slot: slice_to_vec(slice_subrange(line, cs, ce)),
        client_id: slice_to_vec(slice_subrange(line, ns, ne)),
        close_code: slice_to_vec(slice_subrange(line, rs, re)),
    })
}

pub fn match_pubstart(line: &[u8]) -> (r: Option<PubStartFields>)
    ensures
        (match r {
            Some(f) => Some(f@),
            None => None,
        }) == pubstart_fields(line@),
{
    let n = line.len();
    proof { assert(line@.len() == n); }
    let t = match find_byte(line, 0, 84u8) {
        Some(t) => t,
        None => return None,
    };
    let z = match find_byte(line, t + 1, 90u8) {
        Some(z) => z,
        None => return None,
    };
    if !(z + 1 < line.len() && line[z + 1] == 32u8) {
        return None;
    }
    let th_end = token_end_exec(line, z + 2);
    if !(th_end < line.len() && line[th_end] == 32u8) {
        return None;
    }
    let mkey = mqtt_send_marker_bytes();
    let m = match find_sub(line, th_end + 1, mkey.as_slice()) {
        Some(m) => m,
        None => return None,
    };
    let pkey = publish_key_bytes();
    let p = match find_sub(line, m + mkey.len(), pkey.as_slice()) {
        Some(p) => p,
        None => return None,
    };
    let ds = p + pkey.len();
    let de = digits_end_exec(line, ds);
    let lkey = len_key_bytes();
    if !starts_with_at(line, de, lkey.as_slice()) {
        return None;
    }
    let ls = de + lkey.len();
    let le = digits_end_exec(line, ls);
    if !(le < line.len()) {
        return None;
    }
    let b = line[le];
    if !(b == 32 || b == 9 || b == 10 || b == 11 || b == 12 || b == 13 || b == 36u8) {
        return None;
    }
    Some(PubStartFields {
        date: slice_to_vec(slice_subrange(line, 0, t)),
        time: slice_to_vec(slice_subrange(line, t + 1, z)),
        slot: slice_to_vec(slice_subrange(line, ds, de)),
        len_digits: slice_to_vec(slice_subrange(line, ls, le)),
    })
}

pub fn match_continuation(line: &[u8]) -> (r: Option<Vec<u8>>)
    ensures
        (match r {
            Some(f) => Some(f@),
            None => None,
        }) == continuation_fragment(line@),
{
    let n = line.len();
    proof { assert(line@.len() == n); }
    let a = match find_byte(line, 0, 91u8) {
        Some(a) => a,
        None => return None,
    };
    let b = match rfind_byte_exec(line, 93u8) {
        Some(b) => b,
        None => return None,
    };
    if a < b {
        Some(slice_to_vec(slice_subrange(line, a + 1, b)))
    } else {
        None
    }
}

/// What the Line Classifier makes of one raw line, tried in the fixed
/// priority order: continuation, connect, disconnect, publish-start.
pub ghost enum LineClassV {
    Continuation(Seq<u8>),
    Connect(ConnectFieldsV),
    Disconnect(DisconnectFieldsV),
    PublishStart(PubStartFieldsV),
    Irrelevant,
}

pub open spec fn classify_spec(s: Seq<u8>) -> LineClassV {
    match continuation_fragment(s) {
        Some(f) => LineClassV::Continuation(f),
        None => match connect_fields(s) {
            Some(f) => LineClassV::Connect(f),
            None => match disconnect_fields(s) {
                Some(f) => LineClassV::Disconnect(f),
                None => match pubstart_fields(s) {
                    Some(f) => LineClassV::PublishStart(f),
                    None => LineClassV::Irrelevant,
                },
            },
        },
    }
}

pub enum LineClass {
    Continuation(Vec<u8>),
    Connect(ConnectFields),
    Disconnect(DisconnectFields),
    PublishStart(PubStartFields),
    Irrelevant,
}

impl View for LineClass {
    type V = LineClassV;

    open spec fn view(&self) -> LineClassV {
        match self {
            LineClass::Continuation(f) => LineClassV::Continuation(f@),
            LineClass::Connect(f) => LineClassV::Connect(f@),
            LineClass::Disconnect(f) => LineClassV::Disconnect(f@),
            LineClass::PublishStart(f) => LineClassV::PublishStart(f@),
            LineClass::Irrelevant => LineClassV::Irrelevant,
        }
    }
}

/// Matches one raw line against the four known record shapes, in the fixed
/// priority order, and returns the first match with its captured fields.
/// A line matching none of them is irrelevant, not an error.
pub fn classify_line(line: &[u8]) -> (r: LineClass)
    ensures
        r@ == classify_spec(line@),
{
    if let Some(f) = match_continuation(line) {
        return LineClass::Continuation(f);
    }
    if let Some(f) = match_connect(line) {
        return LineClass::Connect(f);
    }
    if let Some(f) = match_disconnect(line) {
        return LineClass::Disconnect(f);
    }
    if let Some(f) = match_pubstart(line) {
        return LineClass::PublishStart(f);
    }
    LineClass::Irrelevant
}


/// What an idle engine makes of one raw line: the three record shapes that
/// can arrive outside a pending message assembly, in priority order.
pub ghost enum EventClassV {
    Connect(ConnectFieldsV),
    Disconnect(DisconnectFieldsV),
    PublishStart(PubStartFieldsV),
    Irrelevant,
}

pub open spec fn classify_event_spec(s: Seq<u8>) -> EventClassV {
    match connect_fields(s) {
        Some(f) => EventClassV::Connect(f),
        None => match disconnect_fields(s) {
            Some(f) => EventClassV::Disconnect(f),
            None => match pubstart_fields(s) {
                Some(f) => EventClassV::PublishStart(f),
                None => EventClassV::Irrelevant,
            },
        },
    }
}

pub enum EventClass {
    Connect(ConnectFields),
    Disconnect(DisconnectFields),
    PublishStart(PubStartFields),
    Irrelevant,
}

impl View for EventClass {
    type V = EventClassV;

    open spec fn view(&self) -> EventClassV {
        match self {
            EventClass::Connect(f) => EventClassV::Connect(f@),
            EventClass::Disconnect(f) => EventClassV::Disconnect(f@),
            EventClass::PublishStart(f) => EventClassV::PublishStart(f@),
            EventClass::Irrelevant => EventClassV::Irrelevant,
        }
    }
}

/// Matches one raw line against the connect, disconnect and publish-start
/// shapes in priority order; continuation lines are only meaningful while a
/// message assembly is pending and are matched there instead.
pub fn classify_event(line: &[u8]) -> (r: EventClass)
    ensures
        r@ == classify_event_spec(line@),
{
    if let Some(f) = match_connect(line) {
        return EventClass::Connect(f);
    }
    if let Some(f) = match_disconnect(line) {
        return EventClass::Disconnect(f);
    }
    if let Some(f) = match_pubstart(line) {
        return EventClass::PublishStart(f);
    }
    EventClass::Irrelevant
}

/// The length capture of a publish-start record consists of decimal digits.
pub proof fn lemma_pubstart_len_digits(s: Seq<u8>)
    ensures
        pubstart_fields(s) matches Some(f) ==> all_digits(f.len_digits),
{
    if pubstart_fields(s) is Some {
        let f = pubstart_fields(s).unwrap();
        let (t, z) = ts_prefix(s).unwrap();
        let th_end = token_end(s, z + 2);
        let m = find_sub_from(s, th_end + 1, mqtt_send_marker()).unwrap();
        let p = find_sub_from(s, m + mqtt_send_marker().len(), publish_key()).unwrap();
        let ds = p + publish_key().len();
        let de = digits_end(s, ds);
        let ls = de + len_key().len();
        let le = digits_end(s, ls);
        lemma_digits_end_all(s, ls);
        assert(f.len_digits =~= s.subrange(ls, le));
        assert forall|i: int| 0 <= i < f.len_digits.len() implies is_digit(
            #[trigger] f.len_digits[i],
        ) by {
            assert(f.len_digits[i] == s[ls + i]);
        }
    }
}

} // verus!
