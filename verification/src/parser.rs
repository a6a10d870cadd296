//! The parser itself.
use crate::model::{EventText, ParserState};
use crate::text::{
    ends_with_ascii, same_text, skip_ascii, split_field, split_line, starts_with_ascii, trim_newline,
    COLON, CR, LF,
};
use crate::utf8::next_chunk;
use crate::{laws, model, text, utf8};
use vstd::prelude::*;
use vstd::string::*;

verus! {

/// A parsed event: an event type and a data payload.
///
/// The `event` field is `"message"` if no `event:` field came before the dispatching blank line. The
/// `data` field holds the values of all `data:` fields of the event, joined by newlines.
pub struct SseEvent {
    pub event: String,
    pub data: String,
}

impl View for SseEvent {
    type V = EventText;

    open spec fn view(&self) -> EventText {
        EventText { event: self.event@, data: self.data@ }
    }
}

/// Incremental, streaming parser for Server-Sent Events.
///
/// Bytes of the stream go in through [`push`](Self::push) as they arrive, in chunks of any size.
/// They are decoded as UTF-8, split into lines and assembled into events, which come out of
/// [`next_event`](Self::next_event). [`finish`](Self::finish) ends the stream.
pub struct SseParser {
    /// Bytes that are not decoded yet: between two calls, the beginning of a character that the
    /// next chunk may complete.
    utf8_buf: Vec<u8>,
    /// Decoded text that is not split into lines yet: between two calls, an incomplete line.
    buf: String,
    /// Whether the last decoded character is a CR, which may be the first half of a CRLF.
    after_cr: bool,
    /// The `event:` value of the event under assembly.
    event_type: String,
    /// The `data:` values of the event under assembly, each with a newline behind it.
    data: String,
    /// Completed events that wait to be retrieved.
    events: Vec<SseEvent>,
    /// Whether it is settled that the stream began with a byte order mark or without one.
    bom_checked: bool,
}

impl View for SseParser {
    type V = ParserState;

    closed spec fn view(&self) -> ParserState {
        ParserState {
            pending: self.utf8_buf@,
            bom_checked: self.bom_checked,
            line: self.buf@,
            after_cr: self.after_cr,
            event_type: self.event_type@,
            data: self.data@,
            events: self.events@.map_values(|e: SseEvent| e@),
        }
    }
}

impl Default for SseParser {
    fn default() -> (r: Self)
        ensures
            r@ == ParserState::initial(),
            r@.wf(),
            r@.events.len() == 0 && r@.pending.len() == 0 && r@.line.len() == 0,
            r@.event_type.len() == 0 && r@.data.len() == 0 && !r@.bom_checked && !r@.after_cr,
    {
        Self::new()
    }
}

impl SseParser {
    /// A parser at the front of a stream.
    pub fn new() -> (r: Self)
        ensures
            r@ == ParserState::initial(),
            r@.wf(),
            r@.events.len() == 0 && r@.pending.len() == 0 && r@.line.len() == 0,
            r@.event_type.len() == 0 && r@.data.len() == 0 && !r@.bom_checked && !r@.after_cr,
    {
        let r = Self {
            utf8_buf: Vec::new(),
            buf: String::new(),
            after_cr: false,
            event_type: String::new(),
            data: String::new(),
            events: Vec::new(),
            bom_checked: false,
        };
        assert(r@ =~= ParserState::initial());
        r
    }

    /// Push a chunk of the stream into the parser.
    ///
    /// A byte order mark at the front of the stream is dropped. The bytes are decoded as far as they
    /// form complete characters, with one U+FFFD for every ill-formed sequence; an ill-formed
    /// sequence at the end waits for the next chunk. Every complete line is then taken in, and
    /// events that a blank line completes become available.
    ///
    /// Where the stream is cut into chunks makes no difference. A CR at the end of a chunk ends its
    /// line at once; if the next chunk begins with LF, that LF belongs to the same line end.
    pub fn push(&mut self, chunk: &[u8])
        ensures
            final(self)@ == old(self)@.push(chunk@),
            old(self)@.wf() ==> final(self)@.wf(),
    {
        self.utf8_buf.extend_from_slice(chunk);
        assert(self.utf8_buf@ =~= old(self).utf8_buf@ + chunk@);
        self.strip_bom();
        self.decode_utf8();
        self.join_crlf();
        self.process_lines();
        proof {
            if old(self)@.wf() {
                laws::law_push_keeps_wf(old(self)@, chunk@);
            }
        }
    }

    /// Signal that the stream has ended.
    ///
    /// An incomplete character at the end becomes one U+FFFD. An event with no blank line behind it
    /// is discarded. A line with no line end is not taken in; it stays in front of what is pushed
    /// later.
    pub fn finish(&mut self)
        ensures
            final(self)@ == old(self)@.finish(),
            old(self)@.wf() ==> final(self)@.wf(),
            final(self)@.idle(),
            old(self)@.wf() ==> final(self)@.events == old(self)@.events,
            final(self)@.pending.len() == 0 && final(self)@.event_type.len() == 0
                && final(self)@.data.len() == 0,
            final(self)@.bom_checked && !final(self)@.after_cr,
            old(self)@.wf() ==> final(self)@.line == if old(self)@.pending.len() == 0 {
                old(self)@.line
            } else {
                old(self)@.line.push('\u{FFFD}')
            },
    {
        proof {
            if self@.wf() {
                laws::law_finish(self@);
                laws::law_finish_keeps_wf(self@);
            }
            let decoded = ParserState {
                pending: Seq::empty(),
                bom_checked: true,
                line: self@.line + utf8::decode_lossy(self@.pending),
                ..self@
            };
            laws::lemma_process_lines_frame(decoded.join_crlf(), Seq::empty(), true, false);
        }
        self.bom_checked = true;
        if self.utf8_buf.len() > 0 {
            self.decode_rest();
            self.join_crlf();
            self.process_lines();
        } else {
            assert(self@.line =~= old(self)@.line + utf8::decode_lossy(old(self)@.pending));
        }
        self.after_cr = false;
        self.event_type = String::new();
        self.data = String::new();
        assert(self@ =~= old(self)@.finish());
    }

    /// Retrieve the oldest completed event, if there is one.
    pub fn next_event(&mut self) -> (r: Option<SseEvent>)
        ensures
            match r {
                Some(event) => {
                    &&& old(self)@.events.len() > 0
                    &&& event@ == old(self)@.events[0]
                    &&& final(self)@ == old(self)@.take_event()
                },
                None => old(self)@.events.len() == 0 && final(self)@ == old(self)@,
            },
            r matches Some(event) ==> {
                &&& event.event@ == old(self)@.events[0].event
                &&& event.data@ == old(self)@.events[0].data
                &&& final(self)@.events.len() == old(self)@.events.len() - 1
                &&& forall|i: int|
                    0 <= i < final(self)@.events.len() ==> #[trigger] final(self)@.events[i]
                        == old(self)@.events[i + 1]
                &&& final(self)@ == (ParserState { events: final(self)@.events, ..old(self)@ })
            },
            old(self)@.wf() ==> final(self)@.wf(),
    {
        if self.events.len() == 0 {
            None
        } else {
            let event = self.events.remove(0);
            assert(self@.events =~= old(self)@.events.skip(1));
            proof {
                if old(self)@.wf() {
                    laws::law_take_event_keeps_wf(old(self)@);
                }
            }
            Some(event)
        }
    }

    /// Drop a byte order mark at the front of the stream, once there are bytes enough to tell.
    fn strip_bom(&mut self)
        ensures
            final(self)@ == old(self)@.strip_bom(),
    {
        if self.bom_checked || self.utf8_buf.len() == 0 {
            return;
        }
        let ghost bytes = self.utf8_buf@;
        let len: usize = self.utf8_buf.len();
        if len >= 3 {
            if self.utf8_buf[0] == 0xEF && self.utf8_buf[1] == 0xBB && self.utf8_buf[2] == 0xBF {
                assert(bytes.take(3) =~= model::byte_order_mark());
                self.utf8_buf = self.utf8_buf.split_off(3);
            }
            self.bom_checked = true;
        } else if self.utf8_buf[0] != 0xEF || (len == 2 && self.utf8_buf[1] != 0xBB) {
            self.bom_checked = true;
        } else {
            // These may still be the beginning of a byte order mark: wait for more.
            assert(bytes =~= model::byte_order_mark().take(bytes.len() as int));
        }
    }

    /// Decode the pending bytes, except an ill-formed sequence at their end: it may be the beginning
    /// of a character that the next chunk completes.
    fn decode_utf8(&mut self)
        ensures
            final(self)@ == old(self)@.decode(),
            final(self)@.line + utf8::decode_lossy(final(self)@.pending) == old(self)@.line
                + utf8::decode_lossy(old(self)@.pending),
            final(self)@.decode() == final(self)@,
    {
        proof {
            laws::law_decode_keeps_text(self@);
            laws::law_decode_twice(self@);
        }
        let ghost bytes = self.utf8_buf@;
        let mut consumed: usize = 0;
        assert(bytes.skip(0) =~= bytes);
        while consumed < self.utf8_buf.len()
            invariant_except_break
                consumed <= bytes.len(),
                self.buf@ + utf8::decode_ready(bytes.skip(consumed as int)) == old(self).buf@
                    + utf8::decode_ready(bytes),
                utf8::held_back(bytes.skip(consumed as int)) == utf8::held_back(bytes),
            invariant
                *self == (SseParser { buf: self.buf, ..*old(self) }),
                self.utf8_buf@ == bytes,
            ensures
                consumed <= bytes.len(),
                self.buf@ == old(self).buf@ + utf8::decode_ready(bytes),
                bytes.skip(consumed as int) == utf8::held_back(bytes),
            decreases bytes.len() - consumed,
        {
            let chunk = next_chunk(self.utf8_buf.as_slice(), consumed);
            proof {
                utf8::lemma_chunk(
                    bytes,
                    consumed as int,
                    chunk.valid@,
                    chunk.valid_end as int,
                    chunk.end as int,
                );
                reveal_strlit("\u{FFFD}");
            }
            let ghost before = self.buf@;
            let ghost rest = utf8::decode_ready(bytes.skip(chunk.end as int));
            self.buf.append(chunk.valid);
            consumed = chunk.valid_end;
            if chunk.end == self.utf8_buf.len() {
                // What is ill-formed here may be incomplete: leave it for the next chunk.
                break ;
            }
            self.buf.append("\u{FFFD}");
            consumed = chunk.end;
            assert(self.buf@ + rest =~= before + (chunk.valid@.push(utf8::REPLACEMENT) + rest));
        }
        self.utf8_buf = self.utf8_buf.split_off(consumed);
    }

    /// Decode all pending bytes: no more will come.
    fn decode_rest(&mut self)
        ensures
            final(self)@ == (ParserState {
                pending: Seq::empty(),
                line: old(self)@.line + utf8::decode_lossy(old(self)@.pending),
                ..old(self)@
            }),
    {
        let ghost bytes = self.utf8_buf@;
        let mut consumed: usize = 0;
        assert(bytes.skip(0) =~= bytes);
        while consumed < self.utf8_buf.len()
            invariant
                *self == (SseParser { buf: self.buf, ..*old(self) }),
                self.utf8_buf@ == bytes,
                consumed <= bytes.len(),
                self.buf@ + utf8::decode_lossy(bytes.skip(consumed as int)) == old(self).buf@
                    + utf8::decode_lossy(bytes),
            decreases bytes.len() - consumed,
        {
            let chunk = next_chunk(self.utf8_buf.as_slice(), consumed);
            proof {
                utf8::lemma_chunk(
                    bytes,
                    consumed as int,
                    chunk.valid@,
                    chunk.valid_end as int,
                    chunk.end as int,
                );
                reveal_strlit("\u{FFFD}");
            }
            let ghost before = self.buf@;
            let ghost rest = utf8::decode_lossy(bytes.skip(chunk.end as int));
            self.buf.append(chunk.valid);
            if chunk.valid_end < chunk.end {
                self.buf.append("\u{FFFD}");
                assert(self.buf@ + rest =~= before + (chunk.valid@.push(utf8::REPLACEMENT) + rest));
            } else {
                assert(self.buf@ + rest =~= self.buf@);
            }
            consumed = chunk.end;
        }
        assert(self.buf@ =~= old(self).buf@ + utf8::decode_lossy(bytes));
        self.utf8_buf.clear();
    }

    /// Join a CRLF whose two characters arrived one after the other: drop the LF, its CR has ended the
    /// line.
    fn join_crlf(&mut self)
        ensures
            final(self)@ == old(self)@.join_crlf(),
    {
        if self.buf.as_str().is_empty() {
            return;
        }
        let drop_lf: bool = self.after_cr && starts_with_ascii(self.buf.as_str(), LF);
        self.after_cr = ends_with_ascii(self.buf.as_str(), CR);
        if drop_lf {
            self.buf = skip_ascii(self.buf.as_str(), 1).to_owned();
        }
    }

    /// Take in the complete lines of the decoded text; what is behind the last line end stays.
    fn process_lines(&mut self)
        ensures
            final(self)@ == old(self)@.process_lines(),
            final(self)@ == (ParserState {
                line: text::leftover(old(self)@.line),
                ..laws::process_each(old(self)@, text::complete_lines(old(self)@.line))
            }),
    {
        proof {
            laws::law_process_lines(self@);
        }
        loop
            invariant_except_break
                self@.process_lines() == old(self)@.process_lines(),
            ensures
                self@ == old(self)@.process_lines(),
            decreases self.buf@.len(),
        {
            proof {
                text::lemma_first_line_shrinks(self.buf@);
            }
            let (line, rest) = match split_line(self.buf.as_str()) {
                Some((line, rest)) => (line.to_owned(), rest.to_owned()),
                None => {
                    break ;
                },
            };
            self.buf = rest;
            self.process_line(line.as_str());
        }
    }

    /// Take in one line.
    ///
    /// - A blank line dispatches the event.
    /// - A line that starts with a colon is a comment and is ignored.
    /// - In any other line, what stands before the first colon is the field name and what stands
    ///   behind it, without one leading space, is the value. A line with no colon is a field name
    ///   with an empty value.
    ///
    /// The field `event` sets the event type, and `data` adds its value and a newline to the data.
    /// All other fields, `id` and `retry` among them, are ignored.
    fn process_line(&mut self, line: &str)
        ensures
            final(self)@ == old(self)@.process_line(line@),
    {
        if line.is_empty() {
            self.dispatch();
            return;
        }
        if starts_with_ascii(line, COLON) {
            return;
        }
        let (field, value) = split_field(line);
        if same_text(field, "event") {
            self.event_type = value.to_owned();
        } else if same_text(field, "data") {
            self.data.append(value);
            self.data.append("\n");
            proof {
                reveal_strlit("\n");
            }
            assert(self@.data =~= old(self)@.process_line(line@).data);
        }
    }

    /// Complete the event under assembly.
    ///
    /// Without data there is no event. Otherwise the newline at the end of the data is dropped, and
    /// an empty event type becomes `message`. Either way the next event starts afresh.
    fn dispatch(&mut self)
        ensures
            final(self)@ == old(self)@.dispatch(),
    {
        if self.data.as_str().is_empty() {
            self.event_type = String::new();
            assert(self@ =~= old(self)@.dispatch());
            return;
        }
        let data = trim_newline(self.data.as_str()).to_owned();
        self.data = String::new();
        let mut event = String::new();
        core::mem::swap(&mut event, &mut self.event_type);
        if event.as_str().is_empty() {
            event = "message".to_owned();
        }
        self.events.push(SseEvent { event, data });
        assert(self@.events =~= old(self)@.dispatch().events);
    }
}

} // verus!
