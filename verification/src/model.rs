//! What a parser is in, and where each operation takes it.
use crate::text;
use crate::utf8;
use vstd::prelude::*;

verus! {

/// The byte order mark, U+FEFF as UTF-8.
pub open spec fn byte_order_mark() -> Seq<u8> {
    seq![0xEFu8, 0xBBu8, 0xBFu8]
}

/// The text of an event.
#[verifier::ext_equal]
pub struct EventText {
    /// The event type.
    pub event: Seq<char>,
    /// The data payload.
    pub data: Seq<char>,
}

impl EventText {
    /// A completed event has a type, which fits on one line, and data without CR.
    pub open spec fn wf(self) -> bool {
        &&& self.event.len() > 0
        &&& text::is_one_line(self.event)
        &&& text::has_no_cr(self.data)
    }
}

/// The state of a parser between two operations.
#[verifier::ext_equal]
pub struct ParserState {
    /// Bytes that are not decoded yet.
    pub pending: Seq<u8>,
    /// It is settled whether the stream began with a byte order mark.
    pub bom_checked: bool,
    /// Decoded text that is not split into lines yet.
    pub line: Seq<char>,
    /// The last decoded character is a CR. It has ended its line already, and if the next character
    /// is LF, the two are one line end.
    pub after_cr: bool,
    /// The type of the event under assembly; empty if no field has set it.
    pub event_type: Seq<char>,
    /// The data of the event under assembly: the value of every data field, each with a newline
    /// behind it.
    pub data: Seq<char>,
    /// The completed events, the oldest first.
    pub events: Seq<EventText>,
}

impl ParserState {
    /// The state of a new parser.
    pub open spec fn initial() -> Self {
        ParserState {
            pending: Seq::empty(),
            bom_checked: false,
            line: Seq::empty(),
            after_cr: false,
            event_type: Seq::empty(),
            data: Seq::empty(),
            events: Seq::empty(),
        }
    }

    /// Completes the event under assembly and begins a new one. Without data there is no event.
    pub open spec fn dispatch(self) -> Self {
        ParserState {
            event_type: Seq::empty(),
            data: Seq::empty(),
            events: if self.data.len() == 0 {
                self.events
            } else {
                self.events.push(
                    EventText {
                        event: if self.event_type.len() == 0 {
                            "message"@
                        } else {
                            self.event_type
                        },
                        data: text::without_trailing_newline(self.data),
                    },
                )
            },
            ..self
        }
    }

    /// Takes in one line: a blank line dispatches, a comment and an unknown field do nothing, an
    /// event field sets the type and a data field adds to the data.
    pub open spec fn process_line(self, line: Seq<char>) -> Self {
        if line.len() == 0 {
            self.dispatch()
        } else if line[0] == ':' {
            self
        } else if text::field_name(line) == "event"@ {
            ParserState { event_type: text::field_value(line), ..self }
        } else if text::field_name(line) == "data"@ {
            ParserState { data: (self.data + text::field_value(line)).push('\n'), ..self }
        } else {
            self
        }
    }

    /// Takes in every complete line of the decoded text; what is left is the incomplete last line.
    pub open spec fn process_lines(self) -> Self
        decreases self.line.len(),
    {
        match text::first_line(self.line) {
            None => self,
            Some((line, rest)) => {
                proof {
                    text::lemma_first_line_shrinks(self.line);
                }
                ParserState { line: rest, ..self }.process_line(line).process_lines()
            },
        }
    }

    /// Looks for a byte order mark at the front of the stream and drops it. While the bytes so far
    /// are only the beginning of one, the question stays open.
    pub open spec fn strip_bom(self) -> Self {
        if self.bom_checked || self.pending.len() == 0 {
            self
        } else if self.pending.len() >= 3 {
            ParserState {
                pending: if byte_order_mark().is_prefix_of(self.pending) {
                    self.pending.skip(3)
                } else {
                    self.pending
                },
                bom_checked: true,
                ..self
            }
        } else {
            ParserState { bom_checked: !self.pending.is_prefix_of(byte_order_mark()), ..self }
        }
    }

    /// Decodes the pending bytes, except those that more input may complete.
    pub open spec fn decode(self) -> Self {
        ParserState {
            pending: utf8::held_back(self.pending),
            line: self.line + utf8::decode_ready(self.pending),
            ..self
        }
    }

    /// Joins a CRLF that arrived in two pieces: behind a CR, an LF at the front of the decoded text
    /// is dropped. Without decoded text there is nothing to do.
    pub open spec fn join_crlf(self) -> Self {
        if self.line.len() == 0 {
            self
        } else {
            ParserState {
                line: if self.after_cr && self.line[0] == '\n' {
                    self.line.skip(1)
                } else {
                    self.line
                },
                after_cr: self.line.last() == '\r',
                ..self
            }
        }
    }

    /// Takes in a chunk of the stream.
    pub open spec fn push(self, chunk: Seq<u8>) -> Self {
        ParserState {
            pending: self.pending + chunk,
            ..self
        }.strip_bom().decode().join_crlf().process_lines()
    }

    /// Ends the stream: the pending bytes are decoded, whatever they are, and the event under assembly
    /// is discarded.
    pub open spec fn finish(self) -> Self {
        let decoded = ParserState {
            pending: Seq::empty(),
            bom_checked: true,
            line: self.line + utf8::decode_lossy(self.pending),
            ..self
        };
        let ended = if self.pending.len() == 0 {
            decoded
        } else {
            decoded.join_crlf().process_lines()
        };
        ParserState { after_cr: false, event_type: Seq::empty(), data: Seq::empty(), ..ended }
    }

    /// Hands out the oldest completed event.
    pub open spec fn take_event(self) -> Self
        recommends
            self.events.len() > 0,
    {
        ParserState { events: self.events.skip(1), ..self }
    }

    /// No event is under assembly.
    pub open spec fn idle(self) -> bool {
        self.event_type.len() == 0 && self.data.len() == 0
    }

    /// The type under assembly fits on one line, the data under assembly is a run of values, each with
    /// a newline behind it, and every completed event is well-formed.
    pub open spec fn events_wf(self) -> bool {
        &&& text::is_one_line(self.event_type)
        &&& text::has_no_cr(self.data)
        &&& self.data.len() > 0 ==> self.data.last() == '\n'
        &&& forall|i: int| 0 <= i < self.events.len() ==> (#[trigger] self.events[i]).wf()
    }

    /// What holds of a parser between two operations.
    pub open spec fn wf(self) -> bool {
        // The pending bytes are at most one sequence that more input may complete.
        &&& self.pending.len() == 0 || utf8::is_undecided(self.pending)
        // The text that is left over holds no complete line.
        &&& text::line_len(self.line) == self.line.len()
        // A CR has ended its line, so nothing is left over behind it.
        &&& self.after_cr ==> self.line.len() == 0
        &&& self.events_wf()
        // Nothing is decoded before the byte order mark is settled.
        &&& !self.bom_checked ==> {
            &&& self.pending.len() < 3
            &&& self.pending.is_prefix_of(byte_order_mark())
            &&& self.line.len() == 0
            &&& !self.after_cr
            &&& self.idle()
            &&& self.events.len() == 0
        }
    }
}

} // verus!
