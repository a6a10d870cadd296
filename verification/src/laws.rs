//! What holds of the parser as a whole.
use crate::model::{EventText, ParserState};
use crate::{model, text, utf8};
use vstd::prelude::*;
use vstd::utf8::*;

verus! {

/// The fields that line processing neither reads nor writes are carried along.
pub proof fn lemma_process_lines_frame(
    s: ParserState,
    pending: Seq<u8>,
    bom_checked: bool,
    after_cr: bool,
)
    ensures
        (ParserState { pending, bom_checked, after_cr, ..s }).process_lines() == (ParserState {
            pending,
            bom_checked,
            after_cr,
            ..s.process_lines()
        }),
        s.process_lines().pending == s.pending,
        s.process_lines().bom_checked == s.bom_checked,
        s.process_lines().after_cr == s.after_cr,
    decreases s.line.len(),
{
    if let Some((line, rest)) = text::first_line(s.line) {
        text::lemma_first_line_shrinks(s.line);
        let next = ParserState { line: rest, ..s }.process_line(line);
        lemma_process_lines_frame(next, pending, bom_checked, after_cr);
        assert(ParserState { pending, bom_checked, after_cr, line: rest, ..s }.process_line(line)
            =~= ParserState { pending, bom_checked, after_cr, ..next });
    }
}

/// Earlier events do not matter to line processing, which keeps them in front.
proof fn lemma_process_lines_queue(s: ParserState, earlier: Seq<EventText>)
    ensures
        (ParserState { events: earlier + s.events, ..s }).process_lines() == (ParserState {
            events: earlier + s.process_lines().events,
            ..s.process_lines()
        }),
    decreases s.line.len(),
{
    if let Some((line, rest)) = text::first_line(s.line) {
        text::lemma_first_line_shrinks(s.line);
        let next = ParserState { line: rest, ..s }.process_line(line);
        lemma_process_lines_queue(next, earlier);
        assert(ParserState { events: earlier + s.events, line: rest, ..s }.process_line(line)
            =~= ParserState { events: earlier + next.events, ..next });
    }
}

/// Line processing leaves no complete line behind, and a text that ends in a line end leaves
/// nothing.
proof fn lemma_process_lines_leaves_no_line(s: ParserState)
    ensures
        text::line_len(s.process_lines().line) == s.process_lines().line.len(),
        s.line.len() > 0 && text::is_line_end(s.line.last()) ==> s.process_lines().line.len() == 0,
    decreases s.line.len(),
{
    text::lemma_line_len(s.line);
    if let Some((line, rest)) = text::first_line(s.line) {
        text::lemma_first_line_shrinks(s.line);
        lemma_process_lines_leaves_no_line(ParserState { line: rest, ..s }.process_line(line));
        text::lemma_line_len(rest);
    } else if s.line.len() > 0 {
        assert(!text::is_line_end(s.line[s.line.len() - 1]));
    }
}

/// The first line of a text stays what it is when text is added behind it, unless the text ends
/// in the CR of a CRLF.
proof fn lemma_first_line_extend(head: Seq<char>, tail: Seq<char>)
    requires
        text::first_line(head) is Some,
    ensures
        ({
            let (line, rest) = text::first_line(head)->0;
            if rest.len() == 0 && head.last() == '\r' && tail.len() > 0 && tail[0] == '\n' {
                text::first_line(head + tail) == Some((line, tail.skip(1)))
            } else {
                text::first_line(head + tail) == Some((line, rest + tail))
            }
        }),
        ({
            let (line, rest) = text::first_line(head)->0;
            rest.len() > 0 ==> rest.last() == head.last()
        }),
{
    let n = text::line_len(head);
    text::lemma_line_len(head);
    let all = head + tail;
    assert forall|i: int| 0 <= i < n implies !text::is_line_end(#[trigger] all[i]) by {
        assert(!text::is_line_end(head[i]));
    }
    text::lemma_line_len_unique(all, n);
    assert(all.take(n) =~= head.take(n));
    assert(all.skip(n) =~= head.skip(n) + tail);
    let m = text::line_end_len(head.skip(n));
    if n + m == head.len() && head.last() == '\r' && tail.len() > 0 && tail[0] == '\n' {
        assert(all.skip(n).skip(2) =~= tail.skip(1));
    } else {
        assert(text::line_end_len(all.skip(n)) == m);
        assert(all.skip(n).skip(m) =~= head.skip(n).skip(m) + tail);
    }
}

/// Line processing can stop in the middle of a text and go on behind it, unless a CRLF is cut in
/// two there.
proof fn lemma_process_lines_append(s: ParserState, tail: Seq<char>)
    requires
        !(s.line.len() > 0 && s.line.last() == '\r' && tail.len() > 0 && tail[0] == '\n'),
    ensures
        (ParserState { line: s.line + tail, ..s }).process_lines() == (ParserState {
            line: s.process_lines().line + tail,
            ..s.process_lines()
        }).process_lines(),
    decreases s.line.len(),
{
    if let Some((line, rest)) = text::first_line(s.line) {
        text::lemma_first_line_shrinks(s.line);
        lemma_first_line_extend(s.line, tail);
        let next = ParserState { line: rest, ..s }.process_line(line);
        lemma_process_lines_append(next, tail);
        assert(ParserState { line: rest + tail, ..s }.process_line(line) =~= ParserState {
            line: rest + tail,
            ..next
        });
    }
}

/// Where a CRLF is cut in two, line processing goes on behind its LF.
proof fn lemma_process_lines_append_crlf(s: ParserState, tail: Seq<char>)
    requires
        s.line.len() > 0,
        s.line.last() == '\r',
        tail.len() > 0,
        tail[0] == '\n',
    ensures
        (ParserState { line: s.line + tail, ..s }).process_lines() == (ParserState {
            line: s.process_lines().line + tail.skip(1),
            ..s.process_lines()
        }).process_lines(),
    decreases s.line.len(),
{
    text::lemma_line_len(s.line);
    assert(text::is_line_end(s.line[s.line.len() - 1]));
    let (line, rest) = text::first_line(s.line)->0;
    text::lemma_first_line_shrinks(s.line);
    lemma_first_line_extend(s.line, tail);
    let next = ParserState { line: rest, ..s }.process_line(line);
    if rest.len() == 0 {
        assert(rest + tail.skip(1) =~= tail.skip(1));
        assert(ParserState { line: tail.skip(1), ..s }.process_line(line) =~= ParserState {
            line: tail.skip(1),
            ..next
        });
        assert(text::first_line(next.line) is None);
        assert(next.process_lines() == next);
        assert(s.process_lines() == next);
    } else {
        lemma_process_lines_append_crlf(next, tail);
        assert(ParserState { line: rest + tail, ..s }.process_line(line) =~= ParserState {
            line: rest + tail,
            ..next
        });
    }
}

/// What a decoded state is taken to: its CRLF joined and its lines taken in.
spec fn settled(s: ParserState) -> ParserState {
    s.join_crlf().process_lines()
}

/// Joining and line processing can stop behind the text of `s` and go on with `tail`.
proof fn lemma_settled_append(s: ParserState, tail: Seq<char>)
    ensures
        settled(ParserState { line: s.line + tail, ..s }) == settled(
            ParserState { line: settled(s).line + tail, ..settled(s) },
        ),
{
    let joined = s.join_crlf();
    let stopped = settled(s);
    let whole = ParserState { line: s.line + tail, ..s };
    let resumed = ParserState { line: stopped.line + tail, ..stopped };
    lemma_process_lines_frame(joined, joined.pending, joined.bom_checked, joined.after_cr);
    lemma_process_lines_leaves_no_line(joined);
    if s.line.len() == 0 {
        assert(stopped == s);
    } else if tail.len() == 0 {
        assert(s.line + tail =~= s.line);
        assert(stopped.line + tail =~= stopped.line);
        text::lemma_line_len(stopped.line);
        if stopped.line.len() > 0 {
            assert(!text::is_line_end(stopped.line[stopped.line.len() - 1]));
            if joined.after_cr {
                assert(joined.line.last() == '\r');
            }
            assert(resumed.join_crlf() =~= stopped);
        }
        assert(stopped.process_lines() == stopped);
    } else {
        let after_cr = tail.last() == '\r';
        let cut = joined.after_cr && tail[0] == '\n';
        assert(whole.join_crlf() =~= ParserState { line: joined.line + tail, after_cr, ..joined });
        let rest = ParserState { after_cr, ..joined };
        lemma_process_lines_frame(joined, joined.pending, joined.bom_checked, after_cr);
        assert(joined.line.len() > 0 ==> joined.line.last() == s.line.last());
        if cut {
            assert(joined.line.last() == '\r');
            lemma_process_lines_append_crlf(rest, tail);
            assert(stopped.line + tail =~= tail);
            assert(stopped.line + tail.skip(1) =~= tail.skip(1));
        } else {
            lemma_process_lines_append(rest, tail);
            if joined.after_cr {
                assert(stopped.line + tail =~= tail);
            }
        }
        assert((stopped.line + tail).last() == tail.last());
        assert(resumed.join_crlf() =~= ParserState {
            line: if cut {
                stopped.line + tail.skip(1)
            } else {
                stopped.line + tail
            },
            after_cr,
            ..stopped
        });
    }
}

/// Decoding, joining and line processing can stop behind the pending bytes of `s` and go on with
/// `b`.
proof fn lemma_decode_append(s: ParserState, b: Seq<u8>)
    ensures
        ({
            let stopped = settled(s.decode());
            settled((ParserState { pending: s.pending + b, ..s }).decode()) == settled(
                (ParserState { pending: stopped.pending + b, ..stopped }).decode(),
            )
        }),
{
    let both = s.pending + b;
    let held = utf8::held_back(s.pending);
    let tail = utf8::decode_ready(held + b);
    utf8::lemma_ready_append(s.pending, b);
    let decoded = s.decode();
    let joined = decoded.join_crlf();
    lemma_process_lines_frame(joined, held, joined.bom_checked, joined.after_cr);
    // The decoded state, with the bytes that are held back in the end.
    let ended = ParserState { pending: utf8::held_back(both), ..decoded };
    lemma_process_lines_frame(
        joined,
        utf8::held_back(both),
        joined.bom_checked,
        joined.after_cr,
    );
    assert(s.line + (utf8::decode_ready(s.pending) + tail) =~= decoded.line + tail);
    lemma_settled_append(ended, tail);
}

/// Decoding loses nothing: the decoded text and what is held back are the text that there was.
pub proof fn law_decode_keeps_text(s: ParserState)
    ensures
        s.decode().line + utf8::decode_lossy(s.decode().pending) == s.line + utf8::decode_lossy(
            s.pending,
        ),
{
    utf8::lemma_lossy_is_ready_and_held_back(s.pending);
    assert((s.line + utf8::decode_ready(s.pending)) + utf8::decode_lossy(
        utf8::held_back(s.pending),
    ) =~= s.line + utf8::decode_lossy(s.pending));
}

/// Decoding twice is decoding once: what is held back stays held back.
pub proof fn law_decode_twice(s: ParserState)
    ensures
        s.decode().decode() == s.decode(),
{
    let held = utf8::held_back(s.pending);
    utf8::lemma_held_back_is_undecided(s.pending);
    if held.len() > 0 {
        utf8::lemma_undecided(held);
    } else {
        utf8::lemma_held_back_is_suffix(held);
        assert(utf8::decode_ready(held) =~= Seq::<char>::empty());
    }
    assert(s.decode().decode() =~= s.decode());
}

/// While it is open whether the stream begins with a byte order mark, nothing is decoded.
pub proof fn lemma_bom_open(bytes: Seq<u8>)
    requires
        bytes.len() < 3,
        bytes.is_prefix_of(model::byte_order_mark()),
    ensures
        bytes.len() == 0 || utf8::is_undecided(bytes),
        utf8::decode_ready(bytes) == Seq::<char>::empty(),
        utf8::held_back(bytes) == bytes,
{
    utf8::lemma_bom_prefix();
    if bytes.len() == 1 {
        assert(bytes =~= seq![0xEFu8]);
    } else if bytes.len() == 2 {
        assert(bytes =~= seq![0xEFu8, 0xBBu8]);
    }
    if bytes.len() > 0 {
        utf8::lemma_undecided(bytes);
    } else {
        utf8::lemma_held_back_is_suffix(bytes);
    }
}

/// The state in which a chunk is decoded: the byte order mark is looked for.
spec fn received(s: ParserState, chunk: Seq<u8>) -> ParserState {
    (ParserState { pending: s.pending + chunk, ..s }).strip_bom()
}

/// Receiving a chunk either settles the byte order mark, and what comes later is only added to
/// the pending bytes, or leaves all open.
proof fn lemma_received(s: ParserState, a: Seq<u8>, b: Seq<u8>)
    requires
        s.wf(),
    ensures
        ({
            let r = received(s, a);
            if r.bom_checked {
                received(s, a + b) == (ParserState { pending: r.pending + b, ..r })
            } else {
                &&& s.push(a) == r
                &&& received(s.push(a), b) == received(s, a + b)
                &&& r.wf()
            }
        }),
{
    let x = s.pending + a;
    let r = received(s, a);
    assert(s.pending + (a + b) =~= x + b);
    let bom = model::byte_order_mark();
    if s.bom_checked {
        assert(received(s, a + b) =~= (ParserState { pending: r.pending + b, ..r }));
    } else if r.bom_checked {
        if x.len() >= 3 {
            assert((x + b).take(3) =~= x.take(3));
            assert(x.skip(3) + b =~= (x + b).skip(3));
            assert(received(s, a + b) =~= (ParserState { pending: r.pending + b, ..r }));
        } else {
            assert(!((x + b).is_prefix_of(bom) && (x + b).len() < 3)) by {
                if (x + b).is_prefix_of(bom) {
                    assert(x =~= bom.take(x.len() as int));
                }
            }
            assert(!bom.is_prefix_of(x + b)) by {
                if bom.is_prefix_of(x + b) {
                    assert(x =~= bom.take(x.len() as int));
                }
            }
        }
    } else {
        lemma_bom_open(x);
        assert(r.decode() =~= r);
        assert(text::line_len(r.line) == 0);
        assert(s.push(a) == r);
        assert(r =~= (ParserState { pending: x, ..s }));
    }
}

/// A line keeps what holds of the event under assembly and of the completed ones.
proof fn lemma_process_line_keeps_events(s: ParserState, line: Seq<char>)
    requires
        s.events_wf(),
        text::is_one_line(line),
    ensures
        s.process_line(line).events_wf(),
{
    let next = s.process_line(line);
    let value = text::field_value(line);
    text::lemma_name_len_bounds(line);
    assert forall|i: int| 0 <= i < value.len() implies !text::is_line_end(#[trigger] value[i]) by {
        let offset = line.len() - value.len();
        assert(value[i] == line[offset + i]);
    }
    if line.len() == 0 {
        reveal_strlit("message");
        if s.data.len() > 0 {
            let event = next.events.last();
            let data = event.data;
            assert forall|i: int| 0 <= i < data.len() implies #[trigger] data[i] != '\r' by {
                assert(data[i] == s.data[i]);
            }
            assert(event.wf());
        }
    }
}

/// Line processing keeps what holds of the event under assembly and of the completed ones.
proof fn lemma_process_lines_keeps_events(s: ParserState)
    requires
        s.events_wf(),
    ensures
        s.process_lines().events_wf(),
    decreases s.line.len(),
{
    if let Some((line, rest)) = text::first_line(s.line) {
        text::lemma_first_line_shrinks(s.line);
        text::lemma_line_len(s.line);
        assert forall|i: int| 0 <= i < line.len() implies !text::is_line_end(#[trigger] line[i]) by {
            assert(line[i] == s.line[i]);
        }
        let before = ParserState { line: rest, ..s };
        lemma_process_line_keeps_events(before, line);
        lemma_process_lines_keeps_events(before.process_line(line));
    }
}

/// A new parser is well-formed.
pub proof fn law_initial_is_wf()
    ensures
        ParserState::initial().wf(),
{
}

/// Pushing a chunk keeps a parser well-formed.
pub proof fn law_push_keeps_wf(s: ParserState, chunk: Seq<u8>)
    requires
        s.wf(),
    ensures
        s.push(chunk).wf(),
{
    lemma_received(s, chunk, Seq::empty());
    let r = received(s, chunk);
    if r.bom_checked {
        let joined = r.decode().join_crlf();
        lemma_process_lines_frame(joined, joined.pending, true, joined.after_cr);
        lemma_process_lines_leaves_no_line(joined);
        lemma_process_lines_keeps_events(joined);
        utf8::lemma_held_back_is_undecided(r.pending);
    }
}

/// Pushing nothing changes nothing.
pub proof fn law_push_nothing(s: ParserState)
    requires
        s.wf(),
    ensures
        s.push(Seq::empty()) == s,
{
    assert(s.pending + Seq::<u8>::empty() =~= s.pending);
    let r = received(s, Seq::empty());
    if s.pending.len() > 0 {
        utf8::lemma_undecided(s.pending);
    } else {
        utf8::lemma_held_back_is_suffix(s.pending);
    }
    assert(r =~= s);
    assert(s.decode() =~= s);
    text::lemma_line_len(s.line);
    if s.line.len() > 0 {
        assert(!text::is_line_end(s.line[s.line.len() - 1]));
    }
    assert(s.join_crlf() =~= s);
    assert(s.process_lines() == s);
}

/// Where the stream is cut into chunks does not matter: not in the middle of a character, of a byte
/// order mark, of a line or of a CRLF.
pub proof fn law_push_append(s: ParserState, a: Seq<u8>, b: Seq<u8>)
    requires
        s.wf(),
    ensures
        s.push(a).push(b) == s.push(a + b),
{
    lemma_received(s, a, b);
    let r = received(s, a);
    if r.bom_checked {
        let joined = r.decode().join_crlf();
        lemma_process_lines_frame(joined, joined.pending, true, joined.after_cr);
        lemma_decode_append(r, b);
    }
}

/// Pushing one chunk after another.
pub open spec fn push_all(s: ParserState, chunks: Seq<Seq<u8>>) -> ParserState
    decreases chunks.len(),
{
    if chunks.len() == 0 {
        s
    } else {
        push_all(s, chunks.drop_last()).push(chunks.last())
    }
}

/// The chunks one behind the other.
pub open spec fn concatenated(chunks: Seq<Seq<u8>>) -> Seq<u8>
    decreases chunks.len(),
{
    if chunks.len() == 0 {
        Seq::empty()
    } else {
        concatenated(chunks.drop_last()) + chunks.last()
    }
}

/// However the stream is cut into chunks, the parser ends up where the whole stream in one piece
/// takes it.
pub proof fn law_chunking(s: ParserState, chunks: Seq<Seq<u8>>)
    requires
        s.wf(),
    ensures
        push_all(s, chunks) == s.push(concatenated(chunks)),
    decreases chunks.len(),
{
    if chunks.len() == 0 {
        law_push_nothing(s);
    } else {
        law_chunking(s, chunks.drop_last());
        law_push_append(s, concatenated(chunks.drop_last()), chunks.last());
    }
}

/// Ending the stream keeps a parser well-formed.
pub proof fn law_finish_keeps_wf(s: ParserState)
    requires
        s.wf(),
    ensures
        s.finish().wf(),
{
    law_finish(s);
    utf8::lemma_lossy_is_ready_and_held_back(s.pending);
    text::lemma_line_len(s.line);
    text::lemma_line_len_unique(s.finish().line, s.finish().line.len() as int);
}

/// Ending the stream completes no event: an event with no blank line behind it is discarded. An
/// incomplete character becomes one U+FFFD, and a later byte order mark is not looked for.
pub proof fn law_finish(s: ParserState)
    requires
        s.wf(),
    ensures
        s.finish().events == s.events,
        s.finish().idle(),
        s.finish() == (ParserState {
            pending: Seq::empty(),
            bom_checked: true,
            after_cr: false,
            event_type: Seq::empty(),
            data: Seq::empty(),
            line: if s.pending.len() == 0 {
                s.line
            } else {
                s.line.push('\u{FFFD}')
            },
            ..s
        }),
{
    if s.pending.len() == 0 {
        assert(s.line + utf8::decode_lossy(s.pending) =~= s.line);
    } else {
        utf8::lemma_undecided(s.pending);
        utf8::lemma_lossy_is_ready_and_held_back(s.pending);
        let line = s.line + utf8::decode_lossy(s.pending);
        assert(line =~= s.line.push(utf8::REPLACEMENT));
        text::lemma_line_len(s.line);
        text::lemma_line_len_unique(line, line.len() as int);
    }
}

/// Ending the stream twice is ending it once.
pub proof fn law_finish_twice(s: ParserState)
    requires
        s.wf(),
    ensures
        s.finish().finish() == s.finish(),
{
    law_finish_keeps_wf(s);
    law_finish(s);
    law_finish(s.finish());
}

/// Handing out an event keeps a parser well-formed.
pub proof fn law_take_event_keeps_wf(s: ParserState)
    requires
        s.wf(),
        s.events.len() > 0,
    ensures
        s.take_event().wf(),
{
    assert forall|i: int| 0 <= i < s.take_event().events.len() implies (
    #[trigger] s.take_event().events[i]).wf() by {
        assert(s.take_event().events[i] == s.events[i + 1]);
    }
}

/// Handing out an event takes the oldest one off the queue: those behind it move up by one place, and
/// nothing else changes.
pub proof fn law_take_event(s: ParserState)
    requires
        s.events.len() > 0,
    ensures
        s.take_event().events.len() == s.events.len() - 1,
        forall|i: int|
            0 <= i < s.events.len() - 1 ==> #[trigger] s.take_event().events[i] == s.events[i + 1],
        s.take_event() == (ParserState { events: s.take_event().events, ..s }),
{
}

/// The state after `n` events have been handed out.
pub open spec fn after_taking(s: ParserState, n: nat) -> ParserState
    decreases n,
{
    if n == 0 {
        s
    } else {
        after_taking(s, (n - 1) as nat).take_event()
    }
}

/// The waiting events come out in order, each once, in as many calls as there are events.
pub proof fn law_drain(s: ParserState, n: nat)
    requires
        n <= s.events.len(),
    ensures
        after_taking(s, n).events.len() == s.events.len() - n,
        n < s.events.len() ==> after_taking(s, n).events[0] == s.events[n as int],
        after_taking(s, n) == (ParserState { events: s.events.skip(n as int), ..s }),
    decreases n,
{
    if n == 0 {
        assert(s.events.skip(0) =~= s.events);
    } else {
        let before = (n - 1) as nat;
        law_drain(s, before);
        assert(s.events.skip(before as int).skip(1) =~= s.events.skip(n as int));
    }
}

/// The parser holds at most three bytes back.
pub proof fn law_pending_is_short(s: ParserState)
    requires
        s.wf(),
    ensures
        s.pending.len() <= 3,
{
    if s.pending.len() > 0 {
        utf8::lemma_undecided(s.pending);
    }
}

/// New events come behind those that are waiting, and none is lost.
pub proof fn law_push_keeps_queue(s: ParserState, chunk: Seq<u8>)
    ensures
        s.events.is_prefix_of(s.push(chunk).events),
{
    let joined = received(s, chunk).decode().join_crlf();
    let fresh = ParserState { events: Seq::empty(), ..joined };
    lemma_process_lines_queue(fresh, s.events);
    assert(s.events + fresh.events =~= s.events);
}

/// It does not matter whether a waiting event is handed out before or after a push.
pub proof fn law_push_and_take_event_commute(s: ParserState, chunk: Seq<u8>)
    requires
        s.events.len() > 0,
    ensures
        s.take_event().push(chunk) == s.push(chunk).take_event(),
{
    let joined = received(s, chunk).decode().join_crlf();
    let rest = ParserState { events: s.events.skip(1), ..joined };
    let first = s.events.take(1);
    assert(first + rest.events =~= s.events);
    lemma_process_lines_queue(rest, first);
    assert((first + rest.process_lines().events).skip(1) =~= rest.process_lines().events);
    assert(received(s.take_event(), chunk).decode().join_crlf() =~= rest);
}

/// The stream without the byte order mark at its front.
pub open spec fn without_bom(bytes: Seq<u8>) -> Seq<u8> {
    if model::byte_order_mark().is_prefix_of(bytes) {
        bytes.skip(3)
    } else {
        bytes
    }
}

/// What is left of a text when all its lines are taken in, its events are completed and the event
/// under assembly is discarded.
pub open spec fn parsed(chars: Seq<char>) -> ParserState {
    ParserState {
        event_type: Seq::empty(),
        data: Seq::empty(),
        ..(ParserState {
            bom_checked: true,
            line: chars,
            ..ParserState::initial()
        }).process_lines()
    }
}

/// Pushing a whole stream and ending it is to drop the byte order mark, to decode the rest with one
/// U+FFFD for every ill-formed sequence, to take in the lines of the text, and to discard the event
/// that no blank line completes.
pub proof fn law_stream(bytes: Seq<u8>)
    ensures
        ParserState::initial().push(bytes).finish() == parsed(
            utf8::decode_lossy(without_bom(bytes)),
        ),
{
    let s = ParserState::initial();
    lemma_received(s, bytes, Seq::empty());
    law_push_keeps_wf(s, bytes);
    law_finish(s.push(bytes));
    law_finish_keeps_wf(s.push(bytes));
    assert(s.pending + bytes =~= bytes);
    let r = received(s, bytes);
    let rest = without_bom(bytes);
    let whole = ParserState { bom_checked: true, line: utf8::decode_lossy(rest), ..s };
    utf8::lemma_lossy_is_ready_and_held_back(rest);
    let held = utf8::decode_lossy(utf8::held_back(rest));
    if r.bom_checked {
        assert(r.pending == rest) by {
            if bytes.len() < 3 {
                assert(!model::byte_order_mark().is_prefix_of(bytes));
            }
        }
        let joined = r.decode().join_crlf();
        lemma_process_lines_frame(joined, Seq::empty(), true, false);
        let ended = ParserState { pending: Seq::empty(), after_cr: false, ..joined };
        assert(s.line + utf8::decode_ready(rest) =~= utf8::decode_ready(rest));
        assert(ParserState { line: joined.line + held, ..ended } =~= whole);
        lemma_process_lines_append(ended, held);
        let stopped = ended.process_lines();
        let left = ParserState { line: stopped.line + held, ..stopped };
        assert(left.line =~= s.push(bytes).finish().line);
        assert(left.process_lines() == left);
        assert(s.push(bytes).finish() =~= parsed(utf8::decode_lossy(rest)));
    } else {
        lemma_bom_open(bytes);
        assert(!model::byte_order_mark().is_prefix_of(bytes));
        assert(s.line + utf8::decode_lossy(bytes) =~= utf8::decode_lossy(bytes));
        assert(whole =~= s.push(bytes).finish());
        assert(whole.process_lines() == whole);
    }
}

/// The same holds however the stream is cut into chunks.
pub proof fn law_stream_in_chunks(chunks: Seq<Seq<u8>>)
    ensures
        push_all(ParserState::initial(), chunks).finish() == parsed(
            utf8::decode_lossy(without_bom(concatenated(chunks))),
        ),
{
    law_chunking(ParserState::initial(), chunks);
    law_stream(concatenated(chunks));
}

/// A byte order mark at the front of the stream is dropped, and only settles that there was one.
pub proof fn law_bom_is_dropped(rest: Seq<u8>)
    ensures
        ParserState::initial().push(model::byte_order_mark() + rest) == (ParserState {
            bom_checked: true,
            ..ParserState::initial()
        }).push(rest),
{
    let s = ParserState::initial();
    let bom = model::byte_order_mark();
    let bytes = bom + rest;
    assert(s.pending + bytes =~= bytes);
    assert(bytes.take(3) =~= bom);
    assert(bytes.skip(3) =~= rest);
    assert(s.pending + rest =~= rest);
    assert(received(s, bytes) =~= received(ParserState { bom_checked: true, ..s }, rest));
}

/// Once that is settled, the same bytes are the character U+FEFF.
pub proof fn law_later_bom_is_text(s: ParserState, rest: Seq<u8>)
    requires
        s.bom_checked,
        s.pending.len() == 0,
    ensures
        s.push(model::byte_order_mark() + rest) == (ParserState {
            line: s.line.push('\u{FEFF}'),
            ..s
        }).push(rest),
{
    let bom = model::byte_order_mark();
    let mark = seq!['\u{FEFF}'];
    utf8::lemma_bom_is_encoded();
    utf8::lemma_well_formed_run(mark, rest);
    assert(encode_utf8(mark) =~= bom);
    assert(s.pending + (bom + rest) =~= bom + rest);
    assert(s.pending + rest =~= rest);
    assert(s.line + (mark + utf8::decode_ready(rest)) =~= s.line.push('\u{FEFF}')
        + utf8::decode_ready(rest));
}

/// Well-formed text is decoded to itself, and none of it is held back.
pub proof fn law_well_formed_text_is_kept(chars: Seq<char>)
    ensures
        utf8::decode_lossy(encode_utf8(chars)) == chars,
        utf8::decode_ready(encode_utf8(chars)) == chars,
        utf8::held_back(encode_utf8(chars)).len() == 0,
{
    let none = Seq::<u8>::empty();
    utf8::lemma_well_formed_run(chars, none);
    utf8::lemma_held_back_is_suffix(none);
    assert(encode_utf8(chars) + none =~= encode_utf8(chars));
    utf8::lemma_lossy_is_ready_and_held_back(none);
    assert(chars + utf8::decode_lossy(none) =~= chars);
    assert(utf8::decode_ready(none) =~= Seq::<char>::empty());
    assert(chars + utf8::decode_ready(none) =~= chars);
}

/// ASCII bytes are decoded to themselves, and none of them is held back.
pub proof fn law_ascii_is_kept(bytes: Seq<u8>)
    requires
        forall|i: int| 0 <= i < bytes.len() ==> #[trigger] bytes[i] < 0x80,
    ensures
        utf8::decode_ready(bytes) == Seq::new(bytes.len(), |i: int| bytes[i] as char),
        utf8::held_back(bytes).len() == 0,
    decreases bytes.len(),
{
    if bytes.len() == 0 {
        utf8::lemma_held_back_is_suffix(bytes);
        assert(utf8::decode_ready(bytes) =~= Seq::new(bytes.len(), |i: int| bytes[i] as char));
    } else {
        let rest = bytes.skip(1);
        assert forall|i: int| 0 <= i < rest.len() implies #[trigger] rest[i] < 0x80 by {
            assert(bytes[i + 1] < 0x80);
        }
        utf8::lemma_ready_first_ascii(bytes);
        law_ascii_is_kept(rest);
        let ready = utf8::decode_ready(bytes);
        assert(ready.len() == ready.skip(1).len() + 1);
        assert forall|i: int| 0 <= i < bytes.len() implies ready[i] == bytes[i] as char by {
            if i > 0 {
                assert(ready[i] == ready.skip(1)[i - 1]);
            }
        }
        assert(ready =~= Seq::new(bytes.len(), |i: int| bytes[i] as char));
    }
}

/// The byte is an ASCII character.
pub open spec fn is_ascii_byte(b: u8) -> bool {
    b < 0x80
}

/// The character is ASCII.
pub open spec fn is_ascii_char(c: char) -> bool {
    (c as int) < 0x80
}

/// A filter that nothing passes leaves nothing.
proof fn lemma_filter_none<A>(s: Seq<A>, keep: spec_fn(A) -> bool)
    requires
        forall|i: int| 0 <= i < s.len() ==> !keep(#[trigger] s[i]),
    ensures
        s.filter(keep) == Seq::<A>::empty(),
    decreases s.len(),
{
    reveal(Seq::filter);
    if s.len() > 0 {
        lemma_filter_none(s.drop_last(), keep);
        assert(!keep(s[s.len() - 1]));
    } else {
        assert(s =~= Seq::<A>::empty());
    }
}

/// No ASCII byte is lost in an ill-formed sequence, and none is made up: the ASCII characters of the
/// text are the ASCII bytes, in order.
pub proof fn law_ascii_survives(bytes: Seq<u8>)
    ensures
        utf8::decode_lossy(bytes).filter(|c: char| is_ascii_char(c)) == bytes.filter(
            |b: u8| is_ascii_byte(b),
        ).map_values(|b: u8| b as char),
    decreases bytes.len(),
{
    let keep_char = |c: char| is_ascii_char(c);
    let keep_byte = |b: u8| is_ascii_byte(b);
    let as_char = |b: u8| b as char;
    reveal(Seq::filter);
    if bytes.len() > 0 {
        let n = utf8::unit_len(bytes);
        utf8::lemma_unit_len_bounds(bytes);
        utf8::lemma_unit_ascii(bytes);
        let unit = bytes.take(n);
        let rest = bytes.skip(n);
        law_ascii_survives(rest);
        let c = seq![utf8::unit_char(bytes)];
        assert(bytes =~= unit + rest);
        Seq::filter_distributes_over_add(unit, rest, keep_byte);
        Seq::filter_distributes_over_add(c, utf8::decode_lossy(rest), keep_char);
        if bytes[0] < 0x80 {
            assert(unit =~= seq![bytes[0]]);
            lemma_filter_none(unit.drop_last(), keep_byte);
            lemma_filter_none(c.drop_last(), keep_char);
            assert(c.filter(keep_char) =~= unit.filter(keep_byte).map_values(as_char));
        } else {
            assert forall|i: int| 0 <= i < unit.len() implies !keep_byte(#[trigger] unit[i]) by {
                assert(bytes[i] >= 0x80);
            }
            lemma_filter_none(unit, keep_byte);
            lemma_filter_none(c, keep_char);
        }
    }
    assert(utf8::decode_lossy(bytes).filter(keep_char) =~= bytes.filter(keep_byte).map_values(
        as_char,
    ));
}

/// Splitting a line off loses nothing: the text is the line, its line end and the rest. The line
/// holds no line end, and a bare CR is not followed by LF.
pub proof fn law_first_line(chars: Seq<char>)
    ensures
        text::first_line(chars) matches Some((line, rest)) ==> {
            &&& text::line_len(line) == line.len()
            &&& {
                ||| chars == line + seq!['\n'] + rest
                ||| chars == line + seq!['\r', '\n'] + rest
                ||| chars == line + seq!['\r'] + rest && !(rest.len() > 0 && rest[0] == '\n')
            }
        },
        text::first_line(chars) is None <==> (forall|i: int|
            0 <= i < chars.len() ==> !text::is_line_end(#[trigger] chars[i])),
{
    text::lemma_line_len(chars);
    let n = text::line_len(chars);
    if let Some((line, rest)) = text::first_line(chars) {
        assert forall|i: int| 0 <= i < line.len() implies !text::is_line_end(#[trigger] line[i]) by {
            assert(line[i] == chars[i]);
        }
        text::lemma_line_len_unique(line, line.len() as int);
        if text::line_end_len(chars.skip(n)) == 2 {
            assert(chars =~= line + seq!['\r', '\n'] + rest);
        } else if chars[n] == '\n' {
            assert(chars =~= line + seq!['\n'] + rest);
        } else {
            assert(chars =~= line + seq!['\r'] + rest);
        }
        assert(text::is_line_end(chars[n]));
    }
}

/// LF, CR and CRLF each end a line, which is taken in without them. The text behind a bare CR does
/// not begin with LF.
pub proof fn law_line_ends(s: ParserState, line: Seq<char>, end: Seq<char>, rest: Seq<char>)
    requires
        text::line_len(line) == line.len(),
        end == seq!['\n'] || end == seq!['\r', '\n'] || (end == seq!['\r'] && !(rest.len() > 0
            && rest[0] == '\n')),
    ensures
        (ParserState { line: line + end + rest, ..s }).process_lines() == (ParserState {
            line: rest,
            ..s
        }).process_line(line).process_lines(),
{
    text::lemma_line_len(line);
    lemma_first_line_of(line, end, rest);
}

/// A line and a line end at the front of a text are its first line.
proof fn lemma_first_line_of(line: Seq<char>, end: Seq<char>, rest: Seq<char>)
    requires
        text::is_one_line(line),
        end == seq!['\n'] || end == seq!['\r', '\n'] || (end == seq!['\r'] && !(rest.len() > 0
            && rest[0] == '\n')),
    ensures
        text::line_len(line + end + rest) == line.len(),
        (line + end + rest).skip(line.len() as int) == end + rest,
        text::line_end_len(end + rest) == end.len(),
        text::first_line(line + end + rest) == Some((line, rest)),
{
    let all = line + end + rest;
    let n = line.len() as int;
    assert forall|i: int| 0 <= i < n implies !text::is_line_end(#[trigger] all[i]) by {
        assert(!text::is_line_end(line[i]));
    }
    text::lemma_line_len_unique(all, n);
    assert(all.take(n) =~= line);
    assert(all.skip(n) =~= end + rest);
    assert((end + rest).skip(end.len() as int) =~= rest);
}

/// The first character of a text of lines, if it is LF, is the line end of a blank first line.
proof fn lemma_terminated_first(lines: Seq<Seq<char>>, ends: Seq<Seq<char>>, rest: Seq<char>)
    requires
        text::are_terminated(lines, ends),
        text::is_one_line(rest),
    ensures
        ({
            let all = text::terminated(lines, ends) + rest;
            all.len() > 0 && all[0] == '\n' ==> lines.len() > 0 && lines[0].len() == 0 && ends[0]
                == seq!['\n']
        }),
{
    let all = text::terminated(lines, ends) + rest;
    if all.len() > 0 && all[0] == '\n' {
        if lines.len() == 0 {
            assert(all[0] == rest[0]);
            assert(!text::is_line_end(rest[0]));
        } else if lines[0].len() > 0 {
            assert(all[0] == lines[0][0]);
            assert(!text::is_line_end(lines[0][0]));
        } else {
            assert(all[0] == ends[0][0]);
        }
    }
}

/// Every text is its complete lines, each with LF, CR or CRLF behind it, and what is left over behind
/// the last line end.
pub proof fn law_lines(chars: Seq<char>)
    ensures
        chars == text::terminated(text::complete_lines(chars), text::line_ends(chars))
            + text::leftover(chars),
        text::are_terminated(text::complete_lines(chars), text::line_ends(chars)),
        text::is_one_line(text::leftover(chars)),
    decreases chars.len(),
{
    law_first_line(chars);
    text::lemma_line_len(chars);
    let lines = text::complete_lines(chars);
    let ends = text::line_ends(chars);
    let left = text::leftover(chars);
    if let Some((line, rest)) = text::first_line(chars) {
        text::lemma_first_line_shrinks(chars);
        law_lines(rest);
        let n = text::line_len(chars);
        let tail = chars.skip(n);
        let end = tail.take(text::line_end_len(tail));
        let later = text::complete_lines(rest);
        let later_ends = text::line_ends(rest);
        assert(lines.skip(1) =~= later);
        assert(ends.skip(1) =~= later_ends);
        assert(text::terminated(lines, ends) + left =~= line + end + (text::terminated(
            later,
            later_ends,
        ) + left));
        assert(chars =~= line + end + rest);
        text::lemma_line_len(line);
        assert(text::is_line_end(tail[0]));
        if text::line_end_len(tail) == 2 {
            assert(end =~= seq!['\r', '\n']);
        } else if tail[0] == '\n' {
            assert(end =~= seq!['\n']);
        } else {
            assert(end =~= seq!['\r']);
            if text::lf_follows(lines, ends, 0) {
                assert(later[0] == lines[1]);
                assert(later_ends[0] == ends[1]);
                assert(rest[0] == '\n');
                assert(tail[1] == rest[0]);
            }
        }
        assert forall|i: int| 0 <= i < lines.len() implies text::is_one_line(
            #[trigger] lines[i],
        ) by {
            if i > 0 {
                assert(lines[i] == later[i - 1]);
            }
        }
        assert forall|i: int| 0 <= i < ends.len() implies {
            ||| #[trigger] ends[i] == seq!['\n']
            ||| ends[i] == seq!['\r', '\n']
            ||| ends[i] == seq!['\r'] && !text::lf_follows(lines, ends, i)
        } by {
            if i > 0 {
                assert(ends[i] == later_ends[i - 1]);
                assert(text::lf_follows(lines, ends, i) == text::lf_follows(
                    later,
                    later_ends,
                    i - 1,
                ));
            }
        }
    } else {
        assert(text::terminated(lines, ends) + left =~= chars);
    }
}

/// A text is cut into lines in one way only: whatever lines, line ends and rest it is put together
/// from are its complete lines, its line ends and what is left over.
pub proof fn law_lines_are_unique(lines: Seq<Seq<char>>, ends: Seq<Seq<char>>, rest: Seq<char>)
    requires
        text::are_terminated(lines, ends),
        text::is_one_line(rest),
    ensures
        ({
            let chars = text::terminated(lines, ends) + rest;
            &&& text::complete_lines(chars) == lines
            &&& text::line_ends(chars) == ends
            &&& text::leftover(chars) == rest
        }),
    decreases lines.len(),
{
    let chars = text::terminated(lines, ends) + rest;
    if lines.len() == 0 {
        assert(chars =~= rest);
        text::lemma_line_len_unique(rest, rest.len() as int);
        assert(text::complete_lines(chars) =~= lines);
        assert(text::line_ends(chars) =~= ends);
    } else {
        let later = lines.skip(1);
        let later_ends = ends.skip(1);
        assert forall|i: int| 0 <= i < later.len() implies text::is_one_line(
            #[trigger] later[i],
        ) by {
            assert(later[i] == lines[i + 1]);
        }
        assert forall|i: int| 0 <= i < later_ends.len() implies {
            ||| #[trigger] later_ends[i] == seq!['\n']
            ||| later_ends[i] == seq!['\r', '\n']
            ||| later_ends[i] == seq!['\r'] && !text::lf_follows(later, later_ends, i)
        } by {
            assert(later_ends[i] == ends[i + 1]);
            assert(text::lf_follows(lines, ends, i + 1) == text::lf_follows(later, later_ends, i));
        }
        law_lines_are_unique(later, later_ends, rest);
        let tail = text::terminated(later, later_ends) + rest;
        assert(chars =~= lines[0] + ends[0] + tail);
        lemma_terminated_first(later, later_ends, rest);
        if tail.len() > 0 && tail[0] == '\n' {
            assert(text::lf_follows(lines, ends, 0));
        }
        lemma_first_line_of(lines[0], ends[0], tail);
        text::lemma_first_line_shrinks(chars);
        assert((ends[0] + tail).take(ends[0].len() as int) =~= ends[0]);
        assert(text::complete_lines(chars) =~= lines);
        assert(text::line_ends(chars) =~= ends);
    }
}

/// A comment and a field with any name but `event` and `data` are ignored.
pub proof fn law_ignored_lines(s: ParserState, line: Seq<char>)
    requires
        line.len() > 0,
        line[0] == ':' || (text::field_name(line) != "event"@ && text::field_name(line)
            != "data"@),
    ensures
        s.process_line(line) == s,
{
}

/// Taking in one line after another.
pub open spec fn process_each(s: ParserState, lines: Seq<Seq<char>>) -> ParserState
    decreases lines.len(),
{
    if lines.len() == 0 {
        s
    } else {
        process_each(s, lines.drop_last()).process_line(lines.last())
    }
}

/// Taking in lines neither reads nor writes the text that is not split yet.
proof fn lemma_process_each_frame(s: ParserState, line: Seq<char>, lines: Seq<Seq<char>>)
    ensures
        process_each(ParserState { line, ..s }, lines) == (ParserState {
            line,
            ..process_each(s, lines)
        }),
    decreases lines.len(),
{
    if lines.len() > 0 {
        lemma_process_each_frame(s, line, lines.drop_last());
    }
}

/// The first line is taken in before the others.
proof fn lemma_process_each_first(s: ParserState, line: Seq<char>, lines: Seq<Seq<char>>)
    ensures
        process_each(s, seq![line] + lines) == process_each(s.process_line(line), lines),
    decreases lines.len(),
{
    let all = seq![line] + lines;
    if lines.len() == 0 {
        assert(all.drop_last() =~= Seq::<Seq<char>>::empty());
        assert(process_each(s, all.drop_last()) == s);
    } else {
        assert(all.drop_last() =~= seq![line] + lines.drop_last());
        lemma_process_each_first(s, line, lines.drop_last());
    }
}

/// Line processing takes in the complete lines of the text, one after the other, whichever line ends
/// they have, and leaves over what stands behind the last line end.
pub proof fn law_process_lines(s: ParserState)
    ensures
        s.process_lines() == (ParserState {
            line: text::leftover(s.line),
            ..process_each(s, text::complete_lines(s.line))
        }),
    decreases s.line.len(),
{
    if let Some((line, rest)) = text::first_line(s.line) {
        text::lemma_first_line_shrinks(s.line);
        let next = ParserState { line: rest, ..s }.process_line(line);
        law_process_lines(next);
        let later = text::complete_lines(rest);
        lemma_process_each_first(s, line, later);
        assert(next =~= ParserState { line: rest, ..s.process_line(line) });
        lemma_process_each_frame(s.process_line(line), rest, later);
    }
}

/// The values of the data fields among the lines, in order.
pub open spec fn data_values(lines: Seq<Seq<char>>) -> Seq<Seq<char>>
    decreases lines.len(),
{
    if lines.len() == 0 {
        Seq::empty()
    } else if text::field_name(lines.last()) == "data"@ {
        data_values(lines.drop_last()).push(text::field_value(lines.last()))
    } else {
        data_values(lines.drop_last())
    }
}

/// The value of the last event field among the lines, or nothing if there is none.
pub open spec fn last_type(lines: Seq<Seq<char>>) -> Seq<char>
    decreases lines.len(),
{
    if lines.len() == 0 {
        Seq::empty()
    } else if text::field_name(lines.last()) == "event"@ {
        text::field_value(lines.last())
    } else {
        last_type(lines.drop_last())
    }
}

/// The values with a newline between each and the next.
pub open spec fn joined(values: Seq<Seq<char>>) -> Seq<char>
    decreases values.len(),
{
    if values.len() == 0 {
        Seq::empty()
    } else if values.len() == 1 {
        values[0]
    } else {
        joined(values.drop_last()).push('\n') + values.last()
    }
}

/// The data buffer behind the lines: the values of their data fields, each with a newline behind it.
pub open spec fn data_buffer(lines: Seq<Seq<char>>) -> Seq<char> {
    if data_values(lines).len() == 0 {
        Seq::empty()
    } else {
        joined(data_values(lines)).push('\n')
    }
}

/// The event that the lines of a block make: its data is the values of the data fields, joined by
/// newlines, and its type is the value of the last event field, or `message` if that is empty or
/// missing.
pub open spec fn block_event(lines: Seq<Seq<char>>) -> EventText {
    EventText {
        event: if last_type(lines).len() == 0 {
            "message"@
        } else {
            last_type(lines)
        },
        data: joined(data_values(lines)),
    }
}

/// The lines of an event under assembly.
proof fn lemma_block(s: ParserState, lines: Seq<Seq<char>>)
    requires
        s.idle(),
        forall|i: int| 0 <= i < lines.len() ==> (#[trigger] lines[i]).len() > 0,
    ensures
        process_each(s, lines) == (ParserState {
            event_type: last_type(lines),
            data: data_buffer(lines),
            ..s
        }),
    decreases lines.len(),
{
    reveal_strlit("event");
    reveal_strlit("data");
    if lines.len() == 0 {
        assert(s.event_type =~= last_type(lines));
        assert(s.data =~= Seq::<char>::empty());
    } else {
        let init = lines.drop_last();
        let line = lines.last();
        assert(line == lines[lines.len() - 1]);
        assert forall|i: int| 0 <= i < init.len() implies (#[trigger] init[i]).len() > 0 by {
            assert(init[i] == lines[i]);
        }
        lemma_block(s, init);
        assert("event"@ != "data"@) by {
            assert("event"@.len() != "data"@.len());
        }
        if line[0] == ':' {
            assert(text::field_name(line).len() == 0);
        } else if text::field_name(line) == "data"@ {
            let value = text::field_value(line);
            let before = data_values(init);
            let after = data_values(lines);
            assert(after.drop_last() =~= before);
            if before.len() == 0 {
                assert(Seq::<char>::empty() + value =~= value);
            }
        }
    }
}

/// The lines up to a blank one make one event. Without a data field there is no event. Either way the
/// next event starts afresh.
pub proof fn law_event(s: ParserState, lines: Seq<Seq<char>>)
    requires
        s.idle(),
        forall|i: int| 0 <= i < lines.len() ==> (#[trigger] lines[i]).len() > 0,
    ensures
        process_each(s, lines).process_line(Seq::empty()) == (ParserState {
            events: if data_values(lines).len() == 0 {
                s.events
            } else {
                s.events.push(block_event(lines))
            },
            ..s
        }),
{
    lemma_block(s, lines);
    let block = process_each(s, lines);
    if data_values(lines).len() > 0 {
        assert(block.data.drop_last() =~= joined(data_values(lines)));
    }
    assert(s.event_type =~= Seq::<char>::empty());
    assert(s.data =~= Seq::<char>::empty());
}

/// The lines behind the last blank one: the block that is still open.
pub open spec fn open_block(lines: Seq<Seq<char>>) -> Seq<Seq<char>>
    decreases lines.len(),
{
    if lines.len() == 0 || lines.last().len() == 0 {
        Seq::empty()
    } else {
        open_block(lines.drop_last()).push(lines.last())
    }
}

/// The blocks of the lines: each blank line ends one.
pub open spec fn blocks(lines: Seq<Seq<char>>) -> Seq<Seq<Seq<char>>>
    decreases lines.len(),
{
    if lines.len() == 0 {
        Seq::empty()
    } else if lines.last().len() == 0 {
        blocks(lines.drop_last()).push(open_block(lines.drop_last()))
    } else {
        blocks(lines.drop_last())
    }
}

/// The events of the blocks: one for each block that holds a data field, in order.
pub open spec fn block_events(all: Seq<Seq<Seq<char>>>) -> Seq<EventText>
    decreases all.len(),
{
    if all.len() == 0 {
        Seq::empty()
    } else if data_values(all.last()).len() == 0 {
        block_events(all.drop_last())
    } else {
        block_events(all.drop_last()).push(block_event(all.last()))
    }
}

/// The events of a text.
pub open spec fn text_events(chars: Seq<char>) -> Seq<EventText> {
    block_events(blocks(text::complete_lines(chars)))
}

/// An open block holds no blank line.
proof fn lemma_open_block(lines: Seq<Seq<char>>)
    ensures
        forall|i: int|
            0 <= i < open_block(lines).len() ==> (#[trigger] open_block(lines)[i]).len() > 0,
    decreases lines.len(),
{
    if lines.len() > 0 && lines.last().len() > 0 {
        let before = open_block(lines.drop_last());
        lemma_open_block(lines.drop_last());
        assert forall|i: int| 0 <= i < open_block(lines).len() implies (
        #[trigger] open_block(lines)[i]).len() > 0 by {
            if i < before.len() {
                assert(open_block(lines)[i] == before[i]);
            }
        }
    }
}

/// Between two events, lines add one event for each block that holds a data field, and the block that
/// is still open is the event under assembly.
pub proof fn law_blocks(s: ParserState, lines: Seq<Seq<char>>)
    requires
        s.idle(),
    ensures
        process_each(s, lines) == (ParserState {
            event_type: last_type(open_block(lines)),
            data: data_buffer(open_block(lines)),
            events: s.events + block_events(blocks(lines)),
            ..s
        }),
    decreases lines.len(),
{
    if lines.len() == 0 {
        lemma_block(s, open_block(lines));
        assert(s.events + block_events(blocks(lines)) =~= s.events);
    } else {
        let init = lines.drop_last();
        let line = lines.last();
        law_blocks(s, init);
        let open = open_block(init);
        let before = ParserState { events: s.events + block_events(blocks(init)), ..s };
        lemma_open_block(init);
        lemma_block(before, open);
        assert(process_each(s, init) == process_each(before, open));
        if line.len() == 0 {
            assert(line =~= Seq::<char>::empty());
            law_event(before, open);
            assert(blocks(lines).drop_last() =~= blocks(init));
            assert(s.event_type =~= Seq::<char>::empty());
            assert(s.data =~= Seq::<char>::empty());
            assert(process_each(s, lines).events =~= s.events + block_events(blocks(lines)));
        } else {
            let now = open.push(line);
            lemma_open_block(lines);
            assert(now.drop_last() =~= open);
            lemma_block(before, now);
        }
    }
}

/// What a whole text leaves behind, said directly: the events of its blocks, and the text behind its
/// last line end.
pub proof fn law_parsed(chars: Seq<char>)
    ensures
        parsed(chars) == (ParserState {
            bom_checked: true,
            line: text::leftover(chars),
            events: text_events(chars),
            ..ParserState::initial()
        }),
{
    let s = ParserState { bom_checked: true, line: chars, ..ParserState::initial() };
    law_process_lines(s);
    law_blocks(s, text::complete_lines(chars));
    assert(s.events + text_events(chars) =~= text_events(chars));
}

/// A blank line at the front of a text makes no event.
proof fn lemma_text_events_skip_lf(chars: Seq<char>)
    requires
        chars.len() > 0,
        chars[0] == '\n',
    ensures
        text_events(chars.skip(1)) == text_events(chars),
{
    let blank = Seq::<char>::empty();
    let rest = chars.skip(1);
    let later = text::complete_lines(rest);
    assert(chars =~= blank + seq!['\n'] + rest);
    lemma_first_line_of(blank, seq!['\n'], rest);
    text::lemma_first_line_shrinks(chars);
    let s = ParserState::initial();
    lemma_process_each_first(s, blank, later);
    assert(s.process_line(blank) =~= s);
    law_blocks(s, later);
    law_blocks(s, seq![blank] + later);
    assert(s.events + text_events(rest) =~= text_events(rest));
    assert(s.events + text_events(chars) =~= text_events(chars));
}

/// Text with no line end at the end of a text completes no line.
proof fn lemma_complete_lines_append(chars: Seq<char>, tail: Seq<char>)
    requires
        text::is_one_line(tail),
    ensures
        text::complete_lines(chars + tail) == text::complete_lines(chars),
{
    law_lines(chars);
    let lines = text::complete_lines(chars);
    let ends = text::line_ends(chars);
    let left = text::leftover(chars);
    assert(chars + tail =~= text::terminated(lines, ends) + (left + tail));
    law_lines_are_unique(lines, ends, left + tail);
}

/// The events of a stream come out of its bytes: between two events, pushing bytes adds the events of
/// their text to the queue, one for each block that holds a data field, in order. Ill-formed
/// sequences are U+FFFD in that text, and a byte order mark at the front of the stream is no part of
/// it.
pub proof fn law_events_from_bytes(s: ParserState, bytes: Seq<u8>)
    requires
        s.wf(),
        s.pending.len() == 0,
        s.line.len() == 0,
        s.idle(),
    ensures
        s.push(bytes).events == s.events + text_events(
            utf8::decode_lossy(
                if s.bom_checked {
                    bytes
                } else {
                    without_bom(bytes)
                },
            ),
        ),
{
    if s.bom_checked {
        let ready = utf8::decode_ready(bytes);
        let held = utf8::decode_lossy(utf8::held_back(bytes));
        utf8::lemma_lossy_is_ready_and_held_back(bytes);
        lemma_complete_lines_append(ready, held);
        assert(s.pending + bytes =~= bytes);
        assert(s.line + ready =~= ready);
        let taken = received(s, bytes).decode().join_crlf();
        law_process_lines(taken);
        law_blocks(taken, text::complete_lines(taken.line));
        if s.after_cr && ready.len() > 0 && ready[0] == '\n' {
            lemma_text_events_skip_lf(ready);
        }
    } else {
        let chars = utf8::decode_lossy(without_bom(bytes));
        assert(s =~= ParserState::initial());
        law_push_keeps_wf(s, bytes);
        law_finish(s.push(bytes));
        law_stream(bytes);
        law_parsed(chars);
        assert(s.events + text_events(chars) =~= text_events(chars));
    }
}

/// The events of a whole stream: one for each block that holds a data field, in order.
pub proof fn law_stream_events(bytes: Seq<u8>)
    ensures
        ParserState::initial().push(bytes).events == text_events(
            utf8::decode_lossy(without_bom(bytes)),
        ),
{
    let events = text_events(utf8::decode_lossy(without_bom(bytes)));
    law_events_from_bytes(ParserState::initial(), bytes);
    assert(Seq::<EventText>::empty() + events =~= events);
}

/// The same events come out however the stream is cut into chunks.
pub proof fn law_stream_events_in_chunks(chunks: Seq<Seq<u8>>)
    ensures
        push_all(ParserState::initial(), chunks).events == text_events(
            utf8::decode_lossy(without_bom(concatenated(chunks))),
        ),
{
    law_chunking(ParserState::initial(), chunks);
    law_stream_events(concatenated(chunks));
}

/// A text of lines ends in the last line end.
proof fn lemma_terminated_last(lines: Seq<Seq<char>>, ends: Seq<Seq<char>>)
    requires
        text::are_terminated(lines, ends),
        lines.len() > 0,
    ensures
        text::terminated(lines, ends).len() > 0,
        text::terminated(lines, ends).last() == ends.last().last(),
{
    let last = lines.len() - 1;
    lemma_terminated_split(lines, ends, last);
    let tail = text::terminated(lines.skip(last), ends.skip(last));
    assert(text::terminated(lines.skip(last).skip(1), ends.skip(last).skip(1)).len() == 0);
    assert(tail =~= lines.last() + ends.last());
    assert(ends[last] == ends.last());
}

/// A text of lines can be put together in two parts.
proof fn lemma_terminated_split(lines: Seq<Seq<char>>, ends: Seq<Seq<char>>, n: int)
    requires
        lines.len() == ends.len(),
        0 <= n <= lines.len(),
    ensures
        text::terminated(lines, ends) == text::terminated(lines.take(n), ends.take(n))
            + text::terminated(lines.skip(n), ends.skip(n)),
    decreases n,
{
    if n == 0 {
        assert(lines.skip(0) =~= lines);
        assert(ends.skip(0) =~= ends);
        assert(text::terminated(lines.take(0), ends.take(0)) + text::terminated(lines, ends)
            =~= text::terminated(lines, ends));
    } else {
        lemma_terminated_split(lines.skip(1), ends.skip(1), n - 1);
        assert(lines.take(n).skip(1) =~= lines.skip(1).take(n - 1));
        assert(ends.take(n).skip(1) =~= ends.skip(1).take(n - 1));
        assert(lines.skip(1).skip(n - 1) =~= lines.skip(n));
        assert(ends.skip(1).skip(n - 1) =~= ends.skip(n));
        assert(text::terminated(lines, ends) =~= text::terminated(lines.take(n), ends.take(n))
            + text::terminated(lines.skip(n), ends.skip(n)));
    }
}

/// An event comes out of its bytes: pushed between two events, the UTF-8 of the lines of an event
/// and of the blank line behind them, each with LF, CR or CRLF, adds that event to the queue, and
/// nothing else changes. At the front of the stream, the bytes must not begin with a byte order
/// mark, which would be dropped.
pub proof fn law_event_from_bytes(s: ParserState, lines: Seq<Seq<char>>, ends: Seq<Seq<char>>)
    requires
        s.wf(),
        s.pending.len() == 0,
        s.line.len() == 0,
        s.idle(),
        forall|i: int| 0 <= i < lines.len() ==> (#[trigger] lines[i]).len() > 0,
        text::are_terminated(lines.push(Seq::empty()), ends),
        s.bom_checked || !model::byte_order_mark().is_prefix_of(
            encode_utf8(text::terminated(lines.push(Seq::empty()), ends)),
        ),
    ensures
        s.push(encode_utf8(text::terminated(lines.push(Seq::empty()), ends))) == (ParserState {
            bom_checked: true,
            after_cr: ends.last() == seq!['\r'],
            events: if data_values(lines).len() == 0 {
                s.events
            } else {
                s.events.push(block_event(lines))
            },
            ..s
        }),
{
    let blank = Seq::<char>::empty();
    let all = lines.push(blank);
    let chars = text::terminated(all, ends);
    assert(all.drop_last() =~= lines);
    assert(chars + blank =~= chars);
    law_lines_are_unique(all, ends, blank);
    lemma_terminated_last(all, ends);
    assert(ends.last() == ends[ends.len() - 1]);
    let bytes = encode_utf8(chars);
    law_well_formed_text_is_kept(chars);
    utf8::lemma_ready_last_char(bytes);
    assert(s.pending + bytes =~= bytes);
    assert(s.line + chars =~= chars);
    assert(utf8::held_back(bytes) =~= s.pending);
    if bytes.len() < 3 && bytes.is_prefix_of(model::byte_order_mark()) {
        assert(bytes.last() == model::byte_order_mark()[bytes.len() - 1]);
    }
    let after_cr = ends.last() == seq!['\r'];
    assert(after_cr == (chars.last() == '\r'));
    let ready = ParserState { bom_checked: true, after_cr, ..s };
    law_event(ready, lines);
    let taken = received(s, bytes).decode().join_crlf();
    if s.after_cr && chars[0] == '\n' {
        // The blank line is the second half of a CRLF.
        lemma_terminated_first(all, ends, blank);
        assert(all[0].len() == 0);
        if lines.len() > 0 {
            assert(all[0] == lines[0]);
        }
        assert(text::terminated(all.skip(1), ends.skip(1)).len() == 0);
        assert(chars =~= seq!['\n']);
        assert(taken =~= ready);
        assert(taken.process_lines() == taken);
        assert(data_values(lines).len() == 0);
    } else {
        assert(taken =~= ParserState { line: chars, ..ready });
        law_process_lines(taken);
        lemma_process_each_frame(ready, chars, all);
        assert(s.line =~= blank);
    }
}

} // verus!
