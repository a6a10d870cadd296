//! What the parser makes of a stream, said in bytes, characters and events alone.
//!
//! One law for each thing that a stream can hold: a piece of a line, a data field, an event field,
//! any other line, a blank line, an ill-formed sequence, a byte order mark. Together with
//! [`law_push_append`](crate::laws::law_push_append), by which a stream may be taken piece by piece,
//! they say what becomes of every stream. What an event is written as is read back as that event.
use crate::laws;
use crate::model::{EventText, ParserState};
use crate::{text, utf8};
use vstd::prelude::*;
use vstd::utf8::*;

verus! {

/// A text that holds neither LF nor CR is one line.
proof fn lemma_one_line(line: Seq<char>)
    requires
        forall|i: int| 0 <= i < line.len() ==> #[trigger] line[i] != '\n' && line[i] != '\r',
    ensures
        text::is_one_line(line),
        text::line_len(line) == line.len(),
{
    text::lemma_line_len_unique(line, line.len() as int);
}

/// Well-formed text is decoded to itself and added to the text that is there.
proof fn lemma_push_chars(s: ParserState, chars: Seq<char>)
    requires
        s.bom_checked,
        s.pending.len() == 0,
    ensures
        s.push(encode_utf8(chars)) == (ParserState {
            line: s.line + chars,
            ..s
        }).join_crlf().process_lines(),
{
    let bytes = encode_utf8(chars);
    laws::law_well_formed_text_is_kept(chars);
    assert(s.pending + bytes =~= bytes);
    let received = ParserState { pending: bytes, ..s };
    assert(received.strip_bom() == received);
    assert(received.decode() =~= ParserState { line: s.line + chars, ..s });
}

/// A new parser has seen nothing and holds nothing.
pub proof fn law_initial()
    ensures
        ParserState::initial().pending.len() == 0,
        ParserState::initial().line.len() == 0,
        ParserState::initial().event_type.len() == 0,
        ParserState::initial().data.len() == 0,
        ParserState::initial().events.len() == 0,
        !ParserState::initial().bom_checked,
        !ParserState::initial().after_cr,
{
}

/// Text without a line end is added to the line that is there, and nothing else happens.
pub proof fn law_push_text(s: ParserState, more: Seq<char>)
    requires
        s.bom_checked,
        s.pending.len() == 0,
        s.after_cr ==> s.line.len() == 0,
        forall|i: int| 0 <= i < s.line.len() ==> #[trigger] s.line[i] != '\n' && s.line[i] != '\r',
        more.len() > 0,
        forall|i: int| 0 <= i < more.len() ==> #[trigger] more[i] != '\n' && more[i] != '\r',
    ensures
        s.push(encode_utf8(more)) == (ParserState { line: s.line + more, after_cr: false, ..s }),
{
    let line = s.line + more;
    lemma_push_chars(s, more);
    assert forall|i: int| 0 <= i < line.len() implies #[trigger] line[i] != '\n' && line[i]
        != '\r' by {
        assert(line[i] == if i < s.line.len() {
            s.line[i]
        } else {
            more[i - s.line.len()]
        });
    }
    lemma_one_line(line);
    let joined = ParserState { line, after_cr: false, ..s };
    assert(ParserState { line, ..s }.join_crlf() =~= joined);
    assert(joined.process_lines() == joined);
}

/// A line end takes in the line before it.
proof fn lemma_line(s: ParserState, more: Seq<char>, end: Seq<char>)
    requires
        s.bom_checked,
        s.pending.len() == 0,
        s.after_cr ==> s.line.len() == 0,
        forall|i: int| 0 <= i < s.line.len() ==> #[trigger] s.line[i] != '\n' && s.line[i] != '\r',
        forall|i: int| 0 <= i < more.len() ==> #[trigger] more[i] != '\n' && more[i] != '\r',
        end == seq!['\n'] || end == seq!['\r'] || end == seq!['\r', '\n'],
        !(s.after_cr && more.len() == 0 && end == seq!['\n']),
    ensures
        s.push(encode_utf8(more + end)) == (ParserState {
            line: Seq::empty(),
            after_cr: end == seq!['\r'],
            ..s
        }).process_line(s.line + more),
{
    let line = s.line + more;
    let none = Seq::<char>::empty();
    lemma_push_chars(s, more + end);
    assert forall|i: int| 0 <= i < line.len() implies #[trigger] line[i] != '\n' && line[i]
        != '\r' by {
        assert(line[i] == if i < s.line.len() {
            s.line[i]
        } else {
            more[i - s.line.len()]
        });
    }
    lemma_one_line(line);
    let whole = line + end + none;
    assert(s.line + (more + end) =~= whole);
    let after_cr = end == seq!['\r'];
    assert(end.last() == '\r' ==> end =~= seq!['\r']);
    assert(whole.last() == end.last());
    if line.len() > 0 {
        assert(whole[0] == line[0]);
    } else {
        assert(whole[0] == end[0]);
    }
    let ended = ParserState { after_cr, ..s };
    assert(ParserState { line: whole, ..s }.join_crlf() =~= ParserState { line: whole, ..ended });
    laws::law_line_ends(ended, line, end, none);
    let taken = ParserState { line: none, ..ended }.process_line(line);
    assert(taken.process_lines() == taken);
}

/// A data field adds its value and a newline to the data, and changes nothing else. The value is all
/// that stands behind the colon and one space, whatever it begins with and however long it is. The
/// space may be left out before a value that begins with none, and a field name alone stands for an
/// empty value.
pub proof fn law_data_line(s: ParserState, value: Seq<char>, end: Seq<char>)
    requires
        s.bom_checked,
        s.pending.len() == 0,
        s.line.len() == 0,
        forall|i: int| 0 <= i < value.len() ==> #[trigger] value[i] != '\n' && value[i] != '\r',
        end == seq!['\n'] || end == seq!['\r'] || end == seq!['\r', '\n'],
    ensures
        s.push(encode_utf8("data: "@ + value + end)) == (ParserState {
            after_cr: end == seq!['\r'],
            data: s.data + value + seq!['\n'],
            ..s
        }),
        !(value.len() > 0 && value[0] == ' ') ==> s.push(encode_utf8("data:"@ + value + end)) == (
        ParserState { after_cr: end == seq!['\r'], data: s.data + value + seq!['\n'], ..s }),
        s.push(encode_utf8("data"@ + end)) == (ParserState {
            after_cr: end == seq!['\r'],
            data: s.data + seq!['\n'],
            ..s
        }),
{
    reveal_strlit("data: ");
    reveal_strlit("data:");
    reveal_strlit("data");
    reveal_strlit("event");
    let name = "data"@;
    let spaced = "data: "@ + value;
    let plain = "data:"@ + value;
    assert("event"@.len() != name.len());
    text::law_field_is_read_back(name, value);
    assert(spaced =~= name + seq![':', ' '] + value);
    assert(plain =~= name + seq![':'] + value);
    lemma_line(s, spaced, end);
    lemma_line(s, plain, end);
    lemma_line(s, name, end);
    assert(s.line + spaced =~= spaced);
    assert(s.line + plain =~= plain);
    assert(s.line + name =~= name);
    assert((s.data + value).push('\n') =~= s.data + value + seq!['\n']);
    assert((s.data + Seq::<char>::empty()).push('\n') =~= s.data + seq!['\n']);
    assert(s.line =~= Seq::<char>::empty());
}

/// An event field sets the type to its value, read like that of a data field, and changes nothing
/// else.
pub proof fn law_event_line(s: ParserState, value: Seq<char>, end: Seq<char>)
    requires
        s.bom_checked,
        s.pending.len() == 0,
        s.line.len() == 0,
        forall|i: int| 0 <= i < value.len() ==> #[trigger] value[i] != '\n' && value[i] != '\r',
        end == seq!['\n'] || end == seq!['\r'] || end == seq!['\r', '\n'],
    ensures
        s.push(encode_utf8("event: "@ + value + end)) == (ParserState {
            after_cr: end == seq!['\r'],
            event_type: value,
            ..s
        }),
        !(value.len() > 0 && value[0] == ' ') ==> s.push(encode_utf8("event:"@ + value + end)) == (
        ParserState { after_cr: end == seq!['\r'], event_type: value, ..s }),
        s.push(encode_utf8("event"@ + end)) == (ParserState {
            after_cr: end == seq!['\r'],
            event_type: Seq::empty(),
            ..s
        }),
{
    reveal_strlit("event: ");
    reveal_strlit("event:");
    reveal_strlit("event");
    let name = "event"@;
    let spaced = "event: "@ + value;
    let plain = "event:"@ + value;
    text::law_field_is_read_back(name, value);
    assert(spaced =~= name + seq![':', ' '] + value);
    assert(plain =~= name + seq![':'] + value);
    lemma_line(s, spaced, end);
    lemma_line(s, plain, end);
    lemma_line(s, name, end);
    assert(s.line + spaced =~= spaced);
    assert(s.line + plain =~= plain);
    assert(s.line + name =~= name);
    assert(s.line =~= Seq::<char>::empty());
}

/// Any other line that is not blank changes nothing: it is neither `data` nor `event`, and begins
/// with neither of them and a colon. Comments and the fields `id` and `retry` are such lines.
pub proof fn law_ignored_line(s: ParserState, line: Seq<char>, end: Seq<char>)
    requires
        s.bom_checked,
        s.pending.len() == 0,
        s.line.len() == 0,
        line.len() > 0,
        forall|i: int| 0 <= i < line.len() ==> #[trigger] line[i] != '\n' && line[i] != '\r',
        line != "data"@ && !"data:"@.is_prefix_of(line),
        line != "event"@ && !"event:"@.is_prefix_of(line),
        end == seq!['\n'] || end == seq!['\r'] || end == seq!['\r', '\n'],
    ensures
        s.push(encode_utf8(line + end)) == (ParserState { after_cr: end == seq!['\r'], ..s }),
{
    reveal_strlit("data:");
    reveal_strlit("data");
    reveal_strlit("event:");
    reveal_strlit("event");
    lemma_line(s, line, end);
    assert(s.line + line =~= line);
    text::law_field(line);
    let name = text::field_name(line);
    if name == "data"@ && line.contains(':') {
        assert("data:"@ =~= line.take(5));
    }
    if name == "event"@ && line.contains(':') {
        assert("event:"@ =~= line.take(6));
    }
    assert(s.line =~= Seq::<char>::empty());
}

/// A blank line completes the event under assembly: its data is all that the data fields added,
/// without the last newline, and its type is the one that was set, or `message`. The next event
/// starts afresh.
pub proof fn law_blank_line(s: ParserState, data: Seq<char>, end: Seq<char>)
    requires
        s.bom_checked,
        s.pending.len() == 0,
        s.line.len() == 0,
        s.data == data + seq!['\n'],
        end == seq!['\n'] || end == seq!['\r'] || end == seq!['\r', '\n'],
        !(s.after_cr && end == seq!['\n']),
    ensures
        s.push(encode_utf8(end)) == (ParserState {
            after_cr: end == seq!['\r'],
            event_type: Seq::empty(),
            data: Seq::empty(),
            events: s.events + seq![
                EventText {
                    event: if s.event_type.len() == 0 {
                        "message"@
                    } else {
                        s.event_type
                    },
                    data,
                },
            ],
            ..s
        }),
{
    let none = Seq::<char>::empty();
    lemma_line(s, none, end);
    assert(none + end =~= end);
    assert(s.line + none =~= none);
    assert(s.data.drop_last() =~= data);
    assert(s.line =~= none);
    let events = s.push(encode_utf8(end)).events;
    assert(events =~= s.events + seq![events.last()]);
}

/// Without data, a blank line completes no event. The type that was set is forgotten.
pub proof fn law_blank_line_without_data(s: ParserState, end: Seq<char>)
    requires
        s.bom_checked,
        s.pending.len() == 0,
        s.line.len() == 0,
        s.data.len() == 0,
        end == seq!['\n'] || end == seq!['\r'] || end == seq!['\r', '\n'],
        !(s.after_cr && end == seq!['\n']),
    ensures
        s.push(encode_utf8(end)) == (ParserState {
            after_cr: end == seq!['\r'],
            event_type: Seq::empty(),
            ..s
        }),
{
    let none = Seq::<char>::empty();
    lemma_line(s, none, end);
    assert(none + end =~= end);
    assert(s.line + none =~= none);
    assert(s.line =~= none);
    assert(s.data =~= none);
}

/// An LF right behind a CR is the second half of one line end, and changes nothing else.
pub proof fn law_lf_behind_cr(s: ParserState)
    requires
        s.bom_checked,
        s.pending.len() == 0,
        s.line.len() == 0,
        s.after_cr,
    ensures
        s.push(encode_utf8(seq!['\n'])) == (ParserState { after_cr: false, ..s }),
{
    let lf = seq!['\n'];
    lemma_push_chars(s, lf);
    assert(s.line + lf =~= lf);
    let joined = ParserState { after_cr: false, ..s };
    assert(ParserState { line: lf, ..s }.join_crlf() =~= joined);
    assert(joined.process_lines() == joined);
}

/// An ill-formed sequence becomes one U+FFFD, and the bytes behind it are read as if they stood
/// alone. Such a sequence is no character; it is one byte or the beginning of a character, and the
/// byte behind it does not go on with that character.
pub proof fn law_ill_formed(s: ParserState, bad: Seq<u8>, rest: Seq<u8>)
    requires
        s.bom_checked,
        s.pending.len() == 0,
        s.after_cr ==> s.line.len() == 0,
        forall|i: int| 0 <= i < s.line.len() ==> #[trigger] s.line[i] != '\n' && s.line[i] != '\r',
        bad.len() > 0,
        bad.len() == 1 || exists|c: char| bad.is_prefix_of(#[trigger] encode_scalar(c as u32)),
        forall|c: char| bad != #[trigger] encode_scalar(c as u32),
        rest.len() > 0,
        forall|c: char| !bad.push(rest[0]).is_prefix_of(#[trigger] encode_scalar(c as u32)),
    ensures
        s.push(bad + rest) == (ParserState {
            line: s.line + seq!['\u{FFFD}'],
            after_cr: false,
            ..s
        }).push(rest),
{
    let all = bad + rest;
    utf8::lemma_ill_formed(bad, rest);
    utf8::lemma_ready_step(all);
    assert(all.skip(bad.len() as int) =~= rest);
    let ready = utf8::decode_ready(rest);
    let line = s.line + seq!['\u{FFFD}'] + ready;
    assert(s.line + (seq!['\u{FFFD}'] + ready) =~= line);
    assert(s.pending + all =~= all);
    assert(s.pending + rest =~= rest);
    let decoded = ParserState { pending: utf8::held_back(rest), line, ..s };
    if s.line.len() > 0 {
        assert(line[0] == s.line[0]);
    } else {
        assert(line[0] == '\u{FFFD}');
    }
    assert(decoded.join_crlf() =~= ParserState { after_cr: false, ..decoded }.join_crlf());
}

/// At the end of what has arrived, such a sequence waits for the bytes behind it.
pub proof fn law_incomplete(s: ParserState, bad: Seq<u8>)
    requires
        s.bom_checked,
        s.pending.len() == 0,
        s.after_cr ==> s.line.len() == 0,
        forall|i: int| 0 <= i < s.line.len() ==> #[trigger] s.line[i] != '\n' && s.line[i] != '\r',
        bad.len() > 0,
        bad.len() == 1 || exists|c: char| bad.is_prefix_of(#[trigger] encode_scalar(c as u32)),
        forall|c: char| bad != #[trigger] encode_scalar(c as u32),
    ensures
        s.push(bad) == (ParserState { pending: bad, ..s }),
{
    let none = Seq::<u8>::empty();
    utf8::lemma_ill_formed(bad, none);
    assert(bad + none =~= bad);
    utf8::lemma_ready_step(bad);
    assert(s.pending + bad =~= bad);
    let held = ParserState { pending: bad, ..s };
    assert(held.decode() =~= held);
    if s.line.len() > 0 {
        assert(s.line[s.line.len() - 1] != '\r');
    }
    assert(held.join_crlf() =~= held);
    lemma_one_line(s.line);
    assert(held.process_lines() == held);
}

/// The three bytes of a byte order mark at the front of the stream are dropped.
pub proof fn law_bom(rest: Seq<u8>)
    ensures
        ParserState::initial().push(seq![0xEFu8, 0xBBu8, 0xBFu8] + rest) == (ParserState {
            bom_checked: true,
            ..ParserState::initial()
        }).push(rest),
{
    laws::law_bom_is_dropped(rest);
}

/// Of a stream that begins otherwise, nothing is dropped.
pub proof fn law_no_bom(bytes: Seq<u8>)
    requires
        !seq![0xEFu8, 0xBBu8, 0xBFu8].is_prefix_of(bytes),
        !bytes.is_prefix_of(seq![0xEFu8, 0xBBu8, 0xBFu8]),
    ensures
        ParserState::initial().push(bytes) == (ParserState {
            bom_checked: true,
            ..ParserState::initial()
        }).push(bytes),
{
    let s = ParserState::initial();
    if bytes.len() == 0 {
        assert(bytes =~= seq![0xEFu8, 0xBBu8, 0xBFu8].take(0));
    }
    assert(s.pending + bytes =~= bytes);
}

/// Bytes that may become a byte order mark wait for those behind them.
pub proof fn law_bom_open(bytes: Seq<u8>)
    requires
        bytes.len() < 3,
        bytes.is_prefix_of(seq![0xEFu8, 0xBBu8, 0xBFu8]),
    ensures
        ParserState::initial().push(bytes) == (ParserState {
            pending: bytes,
            ..ParserState::initial()
        }),
{
    let s = ParserState::initial();
    let held = ParserState { pending: bytes, ..s };
    laws::lemma_bom_open(bytes);
    assert(s.pending + bytes =~= bytes);
    assert(held.strip_bom() =~= held);
    assert(held.decode() =~= held);
    assert(held.process_lines() == held);
}

/// The bytes of U+FEFF anywhere else are that character.
pub proof fn law_later_bom(s: ParserState)
    requires
        s.bom_checked,
        s.pending.len() == 0,
        s.after_cr ==> s.line.len() == 0,
        forall|i: int| 0 <= i < s.line.len() ==> #[trigger] s.line[i] != '\n' && s.line[i] != '\r',
    ensures
        s.push(seq![0xEFu8, 0xBBu8, 0xBFu8]) == (ParserState {
            line: s.line + seq!['\u{FEFF}'],
            after_cr: false,
            ..s
        }),
{
    utf8::lemma_bom_is_encoded();
    law_push_text(s, seq!['\u{FEFF}']);
}

/// The text that adds `data` to the data of an event: a data field for each of its lines. The last
/// field has no line end yet.
pub open spec fn written_data(data: Seq<char>) -> Seq<char>
    decreases data.len(),
{
    if data.len() == 0 {
        "data: "@
    } else if data.last() == '\n' {
        written_data(data.drop_last()) + "\ndata: "@
    } else {
        written_data(data.drop_last()) + seq![data.last()]
    }
}

/// The text of an event: a field for its type, fields for its data, and a blank line.
pub open spec fn written_event(event: EventText) -> Seq<char> {
    "event: "@ + event.event + "\n"@ + written_data(event.data) + "\n\n"@
}

/// The text of events, one behind the other.
pub open spec fn written_events(events: Seq<EventText>) -> Seq<char>
    decreases events.len(),
{
    if events.len() == 0 {
        Seq::empty()
    } else {
        written_events(events.drop_last()) + written_event(events.last())
    }
}

/// Two texts pushed one after the other.
proof fn lemma_push_two(s: ParserState, a: Seq<char>, b: Seq<char>)
    requires
        s.wf(),
    ensures
        s.push(encode_utf8(a + b)) == s.push(encode_utf8(a)).push(encode_utf8(b)),
        s.push(encode_utf8(a)).wf(),
{
    text::lemma_encode_append(a, b);
    laws::law_push_append(s, encode_utf8(a), encode_utf8(b));
    laws::law_push_keeps_wf(s, encode_utf8(a));
}

/// Behind the text of `data`, its complete lines are taken in, and its last line is the value of a
/// field with no line end.
proof fn lemma_written_data(s: ParserState, data: Seq<char>) -> (r: (Seq<char>, Seq<char>))
    requires
        s.wf(),
        s.bom_checked,
        s.pending.len() == 0,
        s.line.len() == 0,
        forall|i: int| 0 <= i < data.len() ==> #[trigger] data[i] != '\r',
    ensures
        s.push(encode_utf8(written_data(data))) == (ParserState {
            line: "data: "@ + r.1,
            after_cr: false,
            data: r.0,
            ..s
        }),
        r.0 + r.1 == s.data + data,
        forall|i: int| 0 <= i < r.1.len() ==> #[trigger] r.1[i] != '\n' && r.1[i] != '\r',
    decreases data.len(),
{
    reveal_strlit("data: ");
    reveal_strlit("\ndata: ");
    let none = Seq::<char>::empty();
    if data.len() == 0 {
        law_push_text(s, "data: "@);
        assert(s.line + "data: "@ =~= "data: "@ + none);
        assert(s.data + none =~= s.data + data);
        (s.data, none)
    } else {
        let init = data.drop_last();
        let c = data.last();
        assert(c == data[data.len() - 1]);
        assert forall|i: int| 0 <= i < init.len() implies #[trigger] init[i] != '\r' by {
            assert(init[i] == data[i]);
        }
        let (taken, open) = lemma_written_data(s, init);
        let before = s.push(encode_utf8(written_data(init)));
        let line = "data: "@ + open;
        assert forall|i: int| 0 <= i < before.line.len() implies #[trigger] before.line[i] != '\n'
            && before.line[i] != '\r' by {
            if i >= 6 {
                assert(before.line[i] == open[i - 6]);
            }
        }
        if c == '\n' {
            let all = (taken + open).push('\n');
            lemma_push_two(s, written_data(init), "\ndata: "@);
            lemma_next_data_line(before, open);
            assert("data: "@ + none =~= "data: "@);
            assert(all + none =~= all);
            assert(s.data + data =~= (s.data + init).push('\n'));
            (all, none)
        } else {
            let more = seq![c];
            lemma_push_two(s, written_data(init), more);
            law_push_text(before, more);
            assert(line + more =~= "data: "@ + (open + more));
            assert(taken + (open + more) =~= (taken + open) + more);
            assert(s.data + data =~= (s.data + init) + more);
            (taken, open + more)
        }
    }
}

/// A newline in the data ends one data field and begins the next.
proof fn lemma_next_data_line(s: ParserState, open: Seq<char>)
    requires
        s.wf(),
        s.bom_checked,
        s.pending.len() == 0,
        !s.after_cr,
        s.line == "data: "@ + open,
        forall|i: int| 0 <= i < s.line.len() ==> #[trigger] s.line[i] != '\n' && s.line[i] != '\r',
    ensures
        s.push(encode_utf8("\ndata: "@)) == (ParserState {
            line: "data: "@,
            data: (s.data + open).push('\n'),
            ..s
        }),
{
    reveal_strlit("data: ");
    reveal_strlit("\ndata: ");
    let none = Seq::<char>::empty();
    let lf = seq!['\n'];
    lemma_push_two(s, lf, "data: "@);
    assert(lf + "data: "@ =~= "\ndata: "@);
    lemma_line(s, none, lf);
    assert(none + lf =~= lf);
    assert(s.line + none =~= s.line);
    lemma_data_field(open);
    let next = ParserState { line: none, data: (s.data + open).push('\n'), ..s };
    assert(s.push(encode_utf8(lf)) =~= next);
    law_push_text(next, "data: "@);
    assert(none + "data: "@ =~= "data: "@);
}

/// The field of a data line.
proof fn lemma_data_field(value: Seq<char>)
    ensures
        text::field_name("data: "@ + value) == "data"@,
        text::field_value("data: "@ + value) == value,
        "data"@ != "event"@,
        ("data: "@ + value)[0] != ':',
{
    reveal_strlit("data: ");
    reveal_strlit("data");
    reveal_strlit("event");
    assert("event"@.len() != "data"@.len());
    text::law_field_is_read_back("data"@, value);
    assert("data: "@ + value =~= "data"@ + seq![':', ' '] + value);
}

/// Data of any number of lines is read back as it was written.
pub proof fn law_data_is_read_back(s: ParserState, data: Seq<char>)
    requires
        s.wf(),
        s.bom_checked,
        s.pending.len() == 0,
        s.line.len() == 0,
        forall|i: int| 0 <= i < data.len() ==> #[trigger] data[i] != '\r',
    ensures
        s.push(encode_utf8(written_data(data) + "\n"@)) == (ParserState {
            after_cr: false,
            data: s.data + data + seq!['\n'],
            ..s
        }),
{
    reveal_strlit("data: ");
    reveal_strlit("\n");
    let none = Seq::<char>::empty();
    let lf = seq!['\n'];
    let (taken, open) = lemma_written_data(s, data);
    let before = s.push(encode_utf8(written_data(data)));
    assert("\n"@ =~= lf);
    lemma_push_two(s, written_data(data), lf);
    assert forall|i: int| 0 <= i < before.line.len() implies #[trigger] before.line[i] != '\n'
        && before.line[i] != '\r' by {
        if i >= 6 {
            assert(before.line[i] == open[i - 6]);
        }
    }
    lemma_line(before, none, lf);
    assert(none + lf =~= lf);
    assert(before.line + none =~= "data: "@ + open);
    lemma_data_field(open);
    assert((taken + open).push('\n') =~= s.data + data + lf);
    assert(s.line =~= none);
}

/// An event is read back as it was written: pushed between two events, its text adds exactly that
/// event to the queue, and nothing else changes. The type is any text on one line, and the data is
/// any text without CR.
pub proof fn law_event_is_read_back(s: ParserState, event: EventText)
    requires
        s.wf(),
        s.bom_checked,
        s.pending.len() == 0,
        s.line.len() == 0,
        s.event_type.len() == 0,
        s.data.len() == 0,
        event.event.len() > 0,
        forall|i: int|
            0 <= i < event.event.len() ==> #[trigger] event.event[i] != '\n' && event.event[i]
                != '\r',
        forall|i: int| 0 <= i < event.data.len() ==> #[trigger] event.data[i] != '\r',
    ensures
        s.push(encode_utf8(written_event(event))) == (ParserState {
            after_cr: false,
            events: s.events + seq![event],
            ..s
        }),
{
    reveal_strlit("\n");
    reveal_strlit("\n\n");
    let lf = seq!['\n'];
    let first = "event: "@ + event.event + lf;
    let second = written_data(event.data) + "\n"@;
    assert(written_event(event) =~= first + (second + lf));
    lemma_push_two(s, first, second + lf);
    law_event_line(s, event.event, lf);
    let typed = s.push(encode_utf8(first));
    lemma_push_two(typed, second, lf);
    law_data_is_read_back(typed, event.data);
    let full = typed.push(encode_utf8(second));
    assert(full.data =~= event.data + lf);
    law_blank_line(full, event.data, lf);
    assert(s.event_type =~= Seq::<char>::empty());
    assert(s.data =~= Seq::<char>::empty());
}

/// Events are read back as they were written, all of them and in order, behind those that are
/// waiting.
pub proof fn law_events_are_read_back(s: ParserState, events: Seq<EventText>)
    requires
        s.wf(),
        s.bom_checked,
        s.pending.len() == 0,
        s.line.len() == 0,
        s.event_type.len() == 0,
        s.data.len() == 0,
        forall|i: int| 0 <= i < events.len() ==> (#[trigger] events[i]).event.len() > 0,
        forall|i: int, j: int|
            0 <= i < events.len() && 0 <= j < events[i].event.len() ==> #[trigger] events[i].event[j]
                != '\n' && events[i].event[j] != '\r',
        forall|i: int, j: int|
            0 <= i < events.len() && 0 <= j < events[i].data.len() ==> #[trigger] events[i].data[j]
                != '\r',
    ensures
        s.push(encode_utf8(written_events(events))) == (ParserState {
            after_cr: s.after_cr && events.len() == 0,
            events: s.events + events,
            ..s
        }),
    decreases events.len(),
{
    if events.len() == 0 {
        assert(encode_utf8(written_events(events)) =~= Seq::<u8>::empty());
        laws::law_push_nothing(s);
        assert(s.events + events =~= s.events);
    } else {
        let init = events.drop_last();
        let last = events.last();
        assert(last == events[events.len() - 1]);
        assert forall|i: int| 0 <= i < init.len() implies (#[trigger] init[i]).event.len() > 0 by {
            assert(init[i] == events[i]);
        }
        assert forall|i: int, j: int|
            0 <= i < init.len() && 0 <= j < init[i].event.len() implies #[trigger] init[i].event[j]
            != '\n' && init[i].event[j] != '\r' by {
            assert(init[i] == events[i]);
        }
        assert forall|i: int, j: int|
            0 <= i < init.len() && 0 <= j < init[i].data.len() implies #[trigger] init[i].data[j]
            != '\r' by {
            assert(init[i] == events[i]);
        }
        law_events_are_read_back(s, init);
        lemma_push_two(s, written_events(init), written_event(last));
        law_event_is_read_back(s.push(encode_utf8(written_events(init))), last);
        assert(s.events + init + seq![last] =~= s.events + events);
    }
}

/// The text of events begins with the name of a field.
proof fn lemma_written_events_first(events: Seq<EventText>)
    requires
        events.len() > 0,
    ensures
        written_events(events).len() > 0,
        written_events(events)[0] == 'e',
    decreases events.len(),
{
    reveal_strlit("event: ");
    if events.len() > 1 {
        lemma_written_events_first(events.drop_last());
    } else {
        assert(written_events(events.drop_last()).len() == 0);
    }
    assert(written_event(events.last())[0] == 'e');
}

/// A whole stream: the events that were written, and no others, wait to be handed out.
pub proof fn law_written_stream(events: Seq<EventText>)
    requires
        forall|i: int| 0 <= i < events.len() ==> (#[trigger] events[i]).event.len() > 0,
        forall|i: int, j: int|
            0 <= i < events.len() && 0 <= j < events[i].event.len() ==> #[trigger] events[i].event[j]
                != '\n' && events[i].event[j] != '\r',
        forall|i: int, j: int|
            0 <= i < events.len() && 0 <= j < events[i].data.len() ==> #[trigger] events[i].data[j]
                != '\r',
    ensures
        ParserState::initial().push(encode_utf8(written_events(events))).events == events,
{
    let s = ParserState::initial();
    let chars = written_events(events);
    let bytes = encode_utf8(chars);
    if events.len() == 0 {
        assert(bytes =~= Seq::<u8>::empty());
        laws::law_push_nothing(s);
        assert(s.events =~= events);
    } else {
        lemma_written_events_first(events);
        text::lemma_scalar_bytes(chars[0]);
        assert(bytes[0] == 'e' as u8);
        law_no_bom(bytes);
        let checked = ParserState { bom_checked: true, ..s };
        law_events_are_read_back(checked, events);
        assert(s.events + events =~= events);
    }
}

/// A message of one line: pushed between two events, `data: `, its text and two line ends add an
/// event with exactly that text, however long it is and whatever it begins with.
pub proof fn law_message(s: ParserState, value: Seq<char>)
    requires
        s.wf(),
        s.bom_checked,
        s.pending.len() == 0,
        s.line.len() == 0,
        s.event_type.len() == 0,
        s.data.len() == 0,
        forall|i: int| 0 <= i < value.len() ==> #[trigger] value[i] != '\n' && value[i] != '\r',
    ensures
        s.push(encode_utf8("data: "@ + value + "\n\n"@)) == (ParserState {
            after_cr: false,
            events: s.events + seq![EventText { event: "message"@, data: value }],
            ..s
        }),
{
    reveal_strlit("\n\n");
    let lf = seq!['\n'];
    let first = "data: "@ + value + lf;
    assert("data: "@ + value + "\n\n"@ =~= first + lf);
    lemma_push_two(s, first, lf);
    law_data_line(s, value, lf);
    let full = s.push(encode_utf8(first));
    assert(full.data =~= value + lf);
    law_blank_line(full, value, lf);
    assert(s.event_type =~= Seq::<char>::empty());
    assert(s.data =~= Seq::<char>::empty());
}

} // verus!
