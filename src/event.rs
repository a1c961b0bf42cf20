//! Records and the timestamp rule that decides where a record starts.

use chrono::TimeZone;
use vstd::prelude::*;

use crate::buffer::{byte_at, contents};
use crate::config::EventTimeConfig;

verus! {

/// What UTF-8 decoding makes of a byte sequence: `None` when it is not valid
/// UTF-8.
pub uninterp spec fn utf8_text(b: Seq<u8>) -> Option<Seq<char>>;

/// The epoch milliseconds that chrono reads from `text` in the layout `fmt`,
/// taken as UTC; `None` when the text does not match the layout.
pub uninterp spec fn parsed_millis(text: Seq<char>, fmt: Seq<char>) -> Option<i64>;

/// Relies on `String::from_utf8`: the bytes as text when they are valid UTF-8.
#[verifier::external_body]
fn decode_utf8(v: Vec<u8>) -> (r: Option<String>)
    ensures
        match r {
            Some(s) => utf8_text(v@) == Some(s@),
            None => utf8_text(v@) is None,
        },
{
    match String::from_utf8(v) {
        Ok(s) => Some(s),
        Err(_) => None,
    }
}

/// Relies on chrono's `TimeZone::datetime_from_str` on `Utc` and
/// `DateTime::timestamp_millis`: the instant that `text` names in the layout
/// `fmt`.
#[verifier::external_body]
#[allow(deprecated)]
fn parse_millis(text: &str, fmt: &str) -> (r: Option<i64>)
    ensures
        r == parsed_millis(text@, fmt@),
{
    match chrono::Utc.datetime_from_str(text, fmt) {
        Ok(dt) => Some(dt.timestamp_millis()),
        Err(_) => None,
    }
}

/// Relies on chrono's `Local::now` and `DateTime::timestamp_millis`: the wall
/// clock in epoch milliseconds. Nothing is known of its value.
#[verifier::external_body]
pub(crate) fn now_millis() -> (r: i64) {
    chrono::Local::now().timestamp_millis()
}

/// The timestamp that a line carries under the rule: the line must be strictly
/// longer than the end of the window, the window must be UTF-8, and its text
/// must match the layout.
pub open spec fn event_time_of(line: Seq<u8>, config: EventTimeConfig) -> Option<i64> {
    let start = config.start_pos as int;
    let end = config.start_pos + config.len;
    if line.len() > end {
        match utf8_text(line.subrange(start, end)) {
            Some(text) => parsed_millis(text, config.fmt@),
            None => None,
        }
    } else {
        None
    }
}

/// The timestamp of a line, or `None` when the line is a continuation line.
pub fn parse_event_time(buf: &bytes::BytesMut, config: &EventTimeConfig) -> (r: Option<i64>)
    ensures
        r == event_time_of(contents(*buf), *config),
{
    let n = buf.len();
    if config.start_pos as u128 + config.len as u128 >= n as u128 {
        return None;
    }
    let start = config.start_pos as usize;
    let end = (config.start_pos + config.len) as usize;
    let mut window: Vec<u8> = Vec::new();
    let mut i: usize = start;
    while i < end
        invariant
            start <= i <= end,
            end < n,
            n == contents(*buf).len(),
            window@ == contents(*buf).subrange(start as int, i as int),
        decreases end - i,
    {
        window.push(byte_at(buf, i));
        i = i + 1;
        assert(window@ =~= contents(*buf).subrange(start as int, i as int));
    }
    match decode_utf8(window) {
        Some(text) => parse_millis(text.as_str(), config.fmt.as_str()),
        None => None,
    }
}

/// One logical log record: its timestamp, the base name of its file, the
/// offset of its first byte in that file, and its bytes, line ends included.
#[derive(Debug)]
pub struct Event {
    pub event_time: i64,
    pub file_name: String,
    pub offset: u64,
    pub buf: bytes::BytesMut,
}

impl Event {
    /// The record's bytes.
    pub open spec fn payload(&self) -> Seq<u8> {
        contents(self.buf)
    }

    /// A record that starts with `buf`: its timestamp is the line's when the
    /// rule finds one, the wall clock otherwise.
    pub fn force_parse(buf: bytes::BytesMut, file_name: String, offset: u64, config: &EventTimeConfig) -> (r: Event)
        ensures
            r.payload() == contents(buf),
            r.file_name@ == file_name@,
            r.offset == offset,
            event_time_of(contents(buf), *config) matches Some(t) ==> r.event_time == t,
    {
        let event_time = match parse_event_time(&buf, config) {
            None => now_millis(),
            Some(v) => v,
        };
        Event { event_time, file_name, offset, buf }
    }

    /// A record that starts with `buf`, when the line carries a timestamp.
    pub fn parse(buf: bytes::BytesMut, file_name: String, offset: u64, config: &EventTimeConfig) -> (r: Option<Event>)
        ensures
            match event_time_of(contents(buf), *config) {
                Some(t) => r matches Some(e) && e.event_time == t && e.payload() == contents(buf)
                    && e.file_name@ == file_name@ && e.offset == offset,
                None => r is None,
            },
    {
        match parse_event_time(&buf, config) {
            None => None,
            Some(v) => Some(Event { event_time: v, file_name, offset, buf }),
        }
    }

    /// The number of bytes in the record.
    pub fn len(&self) -> (r: u64)
        ensures
            r == self.payload().len(),
    {
        self.buf.len() as u64
    }
}

} // verus!
