//! Events and their record lines: one compact JSON value per line.
use vstd::prelude::*;
use vstd::slice::slice_to_vec;
use crate::db::Error;
use crate::lines::NEWLINE;
use crate::json::{compact_json, compact_of, is_json, parse_json, parsed_of};

verus! {

/// A line of the record file that decodes to an event.
pub open spec fn is_event_line(b: Seq<u8>) -> bool {
    is_json(b) && !b.contains(NEWLINE)
}

/// One event, held as the JSON text that its record line stores.
pub struct Event {
    bytes: Vec<u8>,
}

impl View for Event {
    type V = Seq<u8>;

    closed spec fn view(&self) -> Seq<u8> {
        self.bytes@
    }
}

/// The record line of an event: its JSON text and a newline.
pub open spec fn record(e: Seq<u8>) -> Seq<u8> {
    e.push(NEWLINE)
}

/// The record lines of a batch of events, in order.
pub open spec fn encode_all(events: Seq<Event>) -> Seq<u8>
    decreases events.len(),
{
    if events.len() == 0 {
        Seq::empty()
    } else {
        encode_all(events.drop_last()) + record(events.last()@)
    }
}

/// The JSON texts of a batch of events.
pub open spec fn texts(events: Seq<Event>) -> Seq<Seq<u8>> {
    events.map_values(|e: Event| e@)
}

impl Event {
    #[verifier::type_invariant]
    spec fn inv(&self) -> bool {
        is_event_line(self.bytes@)
    }

    /// The event that a record line holds, kept byte for byte.
    pub fn from_line(line: &[u8]) -> (r: Result<Event, Error>)
        ensures
            r is Ok <==> is_event_line(line@),
            r matches Ok(e) ==> e@ == line@,
            r matches Err(x) ==> x == Error::DecodeFailed,
    {
        let mut i: usize = 0;
        while i < line.len()
            invariant
                i <= line@.len(),
                forall|k: int| 0 <= k < i ==> line@[k] != NEWLINE,
            decreases line@.len() - i,
        {
            if line[i] == NEWLINE {
                assert(line@[i as int] == NEWLINE);
                return Err(Error::DecodeFailed);
            }
            i += 1;
        }
        match parse_json(line) {
            Some(_) => Ok(Event { bytes: slice_to_vec(line) }),
            None => Err(Error::DecodeFailed),
        }
    }

    /// The event for a JSON value, in compact form; a value whose compact form does not
    /// read back as JSON is refused.
    pub fn from_value(value: &serde_json::Value) -> (r: Result<Event, Error>)
        ensures
            r is Ok <==> is_json(compact_of(*value)),
            r matches Ok(e) ==> e@ == compact_of(*value),
            r matches Err(x) ==> x == Error::EncodeFailed,
    {
        match compact_json(value) {
            Some(bytes) => {
                if parse_json(bytes.as_slice()).is_some() {
                    Ok(Event { bytes })
                } else {
                    Err(Error::EncodeFailed)
                }
            },
            None => Err(Error::EncodeFailed),
        }
    }

    /// The event for a JSON text, in compact form; text that is not JSON is refused.
    pub fn parse(text: &[u8]) -> (r: Result<Event, Error>)
        ensures
            r is Ok <==> is_json(text@) && is_json(compact_of(parsed_of(text@))),
            r matches Ok(e) ==> e@ == compact_of(parsed_of(text@)),
            !is_json(text@) ==> r == Err::<Event, Error>(Error::DecodeFailed),
            r matches Err(x) ==> x == Error::DecodeFailed || x == Error::EncodeFailed,
    {
        match parse_json(text) {
            Some(value) => Event::from_value(&value),
            None => Err(Error::DecodeFailed),
        }
    }

    /// The event's JSON text.
    pub fn as_bytes(&self) -> (r: &[u8])
        ensures
            r@ == self@,
            is_event_line(self@),
    {
        proof {
            use_type_invariant(self);
        }
        self.bytes.as_slice()
    }

    /// The event's record line: its JSON text and a newline.
    pub fn encode(&self) -> (r: Vec<u8>)
        ensures
            r@ == record(self@),
            is_event_line(self@),
    {
        let mut out = slice_to_vec(self.bytes.as_slice());
        proof {
            use_type_invariant(self);
        }
        out.push(NEWLINE);
        out
    }
}

} // verus!
