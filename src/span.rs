//! The span value used throughout the library, and its construction from the
//! wire representation (binary ids, nanosecond timestamps).
use vstd::prelude::*;

verus! {

/// The lowercase hexadecimal digit for a nibble.
pub open spec fn hex_digit(n: int) -> char {
    seq!['0', '1', '2', '3', '4', '5', '6', '7', '8', '9', 'a', 'b', 'c', 'd', 'e', 'f'][n]
}

/// Two lowercase hexadecimal digits per byte, high nibble first.
pub open spec fn hex_of(b: Seq<u8>) -> Seq<char>
    decreases b.len(),
{
    if b.len() == 0 {
        Seq::empty()
    } else {
        hex_of(b.drop_last()) + seq![hex_digit(b.last() as int / 16), hex_digit(b.last() as int % 16)]
    }
}

/// Relies on hex::encode: each byte becomes two lowercase hex digits, high
/// nibble first, in the order of the bytes.
#[verifier::external_body]
fn encode_hex(b: &Vec<u8>) -> (r: String)
    ensures
        r@ == hex_of(b@),
{
    hex::encode(b)
}

/// One timed operation of a trace. Timestamps are nanoseconds since the Unix epoch.
#[derive(Clone, Debug, PartialEq, Eq)]
pub struct AmaruSpan {
    pub trace_id: String,
    pub span_id: String,
    pub parent_id_opt: Option<String>,
    pub name: String,
    pub start: u64,
    pub end: u64,
}

/// A span as it comes off the wire: binary ids, an empty parent id for a root.
#[derive(Clone, Debug, PartialEq, Eq)]
pub struct WireSpan {
    pub trace_id: Vec<u8>,
    pub span_id: Vec<u8>,
    pub parent_span_id: Vec<u8>,
    pub name: String,
    pub start_time_unix_nano: u64,
    pub end_time_unix_nano: u64,
}

pub fn copy_string_opt(s: &Option<String>) -> (r: Option<String>)
    ensures
        r == *s,
{
    match s {
        Some(x) => Some(x.clone()),
        None => None,
    }
}

impl AmaruSpan {
    /// A field-for-field copy.
    pub fn copy(&self) -> (r: AmaruSpan)
        ensures
            r == *self,
    {
        AmaruSpan {
            trace_id: self.trace_id.clone(),
            span_id: self.span_id.clone(),
            parent_id_opt: copy_string_opt(&self.parent_id_opt),
            name: self.name.clone(),
            start: self.start,
            end: self.end,
        }
    }

    /// Whether the span has no parent, and so anchors a tree of its own.
    pub open spec fn is_root(&self) -> bool {
        self.parent_id_opt is None
    }

    /// Ids are hex-encoded; the parent is absent exactly when the wire parent id is empty.
    pub fn from_wire(w: WireSpan) -> (r: AmaruSpan)
        ensures
            r.trace_id@ == hex_of(w.trace_id@),
            r.span_id@ == hex_of(w.span_id@),
            w.parent_span_id@.len() == 0 ==> r.parent_id_opt is None,
            w.parent_span_id@.len() != 0 ==> (r.parent_id_opt matches Some(p) && p@ == hex_of(
                w.parent_span_id@,
            )),
            r.name == w.name,
            r.start == w.start_time_unix_nano,
            r.end == w.end_time_unix_nano,
    {
        let parent_id_opt = if w.parent_span_id.len() == 0 {
            None
        } else {
            Some(encode_hex(&w.parent_span_id))
        };
        AmaruSpan {
            trace_id: encode_hex(&w.trace_id),
            span_id: encode_hex(&w.span_id),
            parent_id_opt,
            name: w.name,
            start: w.start_time_unix_nano,
            end: w.end_time_unix_nano,
        }
    }
}

} // verus!
