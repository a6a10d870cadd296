use sojobo::text::{split_field, split_line};
use sojobo::{ContentBlock, Role, SseParser, StopReason};

/// The waiting events, as pairs of type and data.
fn drain(parser: &mut SseParser) -> Vec<(String, String)> {
    let mut events = Vec::new();
    while let Some(event) = parser.next_event() {
        events.push((event.event, event.data));
    }
    events
}

/// The events of a stream that arrives in the given chunks.
fn events(chunks: &[&[u8]]) -> Vec<(String, String)> {
    let mut parser = SseParser::new();
    for chunk in chunks {
        parser.push(chunk);
    }
    drain(&mut parser)
}

fn event(event: &str, data: &str) -> (String, String) {
    (event.to_string(), data.to_string())
}

const STREAM: &[u8] =
    b"\xef\xbb\xbfevent: greet\ndata: h\xc3\xa9\xff\r\ndata:\xf0\x9f\x98\x80\n\n: note\rdata:2\r\rdata: \xe2\x82\n\n";

fn stream_events() -> Vec<(String, String)> {
    vec![
        event("greet", "h\u{e9}\u{FFFD}\n\u{1F600}"),
        event("message", "2"),
        event("message", "\u{FFFD}"),
    ]
}

#[test]
fn whole_stream() {
    assert_eq!(events(&[STREAM]), stream_events());
}

#[test]
fn two_chunks() {
    for at in 0..=STREAM.len() {
        let (a, b) = STREAM.split_at(at);
        assert_eq!(events(&[a, b]), stream_events());
    }
}

#[test]
fn three_chunks() {
    for first in 0..=STREAM.len() {
        for second in first..=STREAM.len() {
            let chunks = [&STREAM[..first], &STREAM[first..second], &STREAM[second..]];
            assert_eq!(events(&chunks), stream_events());
        }
    }
}

#[test]
fn one_byte_per_chunk() {
    let stream = b"\xef\xbb\xbfevent: a\ndata: \xe2\x82\xac\ndata: \xf0\x9f\x98\x80\n\ndata\r\r";
    let chunks: Vec<&[u8]> = stream.chunks(1).collect();
    assert_eq!(events(&chunks), events(&[stream]));
    assert_eq!(
        events(&chunks),
        vec![event("a", "\u{20AC}\n\u{1F600}"), event("message", "")]
    );
}

#[test]
fn one_byte_per_chunk_with_every_line_end() {
    let stream = b"data: a\r\ndata: b\rdata: c\ndata: d\r\n\r\ndata: e\r\r\ndata: f\n\r\n\r\n";
    let chunks: Vec<&[u8]> = stream.chunks(1).collect();
    assert_eq!(events(&chunks), events(&[stream]));
    assert_eq!(
        events(&chunks),
        vec![event("message", "a\nb\nc\nd"), event("message", "e"), event("message", "f")]
    );
    let chunks: Vec<&[u8]> = STREAM.chunks(1).collect();
    assert_eq!(events(&chunks), stream_events());
}

#[test]
fn crlf_cut_in_two_while_an_event_is_under_assembly() {
    let one = vec![event("message", "a\nb")];
    assert_eq!(events(&[b"data: a\r", b"\ndata: b\n\n"]), one);
    assert_eq!(events(&[b"data: a\r\ndata: b\r\n\r\n"]), one);
    assert_eq!(events(&[b"data: a\r", b"\ndata: b\r\n\r\n"]), one);
    assert_eq!(events(&[b"data: a\r", b"", b"\ndata: b\r\n\r\n"]), one);
    assert_eq!(events(&[b"data: a\r", b"\n", b"data: b\r", b"\n", b"\r", b"\n"]), one);
    assert_eq!(events(&[b"data: a\r", b"data: b\r\n\r\n"]), one);
}

#[test]
fn only_one_lf_belongs_to_a_cr() {
    let two = vec![event("message", "a"), event("message", "b")];
    assert_eq!(events(&[b"data: a\r", b"\n\ndata: b\n\n"]), two);
    assert_eq!(events(&[b"data: a\r", b"\n", b"\n", b"data: b\n\n"]), two);
    assert_eq!(events(&[b"data: a\r\n\ndata: b\n\n"]), two);
}

#[test]
fn a_cr_ends_its_line_at_once() {
    let mut parser = SseParser::new();
    parser.push(b"data: a\r\n\r");
    assert_eq!(drain(&mut parser), vec![event("message", "a")]);
    parser.push(b"\ndata: b\n\n");
    assert_eq!(drain(&mut parser), vec![event("message", "b")]);
}

#[test]
fn a_character_between_cr_and_lf_parts_them() {
    assert_eq!(
        events(&[b"data: a\r", b"\xc3", b"\ndata: b\n\n"]),
        vec![event("message", "a\nb")]
    );
    assert_eq!(events(&[b"data: a\r", b"x", b"\n\n"]), vec![event("message", "a")]);
}

#[test]
fn crlf_cut_in_two_between_events() {
    assert_eq!(
        events(&[b"data: a\r\n\r", b"\ndata: b\r\n\r\n"]),
        events(&[b"data: a\r\n\r\ndata: b\r\n\r\n"])
    );
}

#[test]
fn finish_completes_no_event() {
    let mut parser = SseParser::new();
    parser.push(b"data: done\n\nevent: e\ndata: open\ndata: cut\xe2\x82");
    parser.finish();
    assert_eq!(drain(&mut parser), vec![event("message", "done")]);
}

#[test]
fn finish_discards_the_event_under_assembly() {
    let mut parser = SseParser::new();
    parser.push(b"data: a\n");
    parser.finish();
    parser.push(b"\n");
    assert!(parser.next_event().is_none());

    let mut parser = SseParser::new();
    parser.push(b"event: lost\ndata: a\r");
    parser.finish();
    parser.push(b"\n");
    parser.push(b"data: b\n\n");
    assert_eq!(drain(&mut parser), vec![event("message", "b")]);

    let mut parser = SseParser::new();
    parser.push(b"event: lost\ndata: a\n\xe2");
    parser.finish();
    parser.push(b"\n\ndata: b\n\n");
    assert_eq!(drain(&mut parser), vec![event("message", "b")]);
}

#[test]
fn finish_turns_an_incomplete_character_into_one_replacement() {
    let mut parser = SseParser::new();
    parser.push(b"data: x\xf0\x9f\x98");
    parser.finish();
    parser.push(b"\n\n");
    assert_eq!(drain(&mut parser), vec![event("message", "x\u{FFFD}")]);
}

#[test]
fn finish_twice_is_finish_once() {
    let mut parser = SseParser::new();
    parser.push(b"data: x\xe2");
    parser.finish();
    parser.finish();
    parser.push(b"\n\n");
    assert_eq!(drain(&mut parser), vec![event("message", "x\u{FFFD}")]);
}

#[test]
fn finish_settles_the_byte_order_mark() {
    let mut parser = SseParser::new();
    parser.finish();
    parser.push(b"\xef\xbb\xbfdata: a\n\ndata: b\n\n");
    assert_eq!(drain(&mut parser), vec![event("message", "b")]);

    let mut parser = SseParser::new();
    parser.push(b"\xef\xbb");
    parser.finish();
    parser.push(b"\xbfdata: a\n\ndata: b\n\n");
    assert_eq!(drain(&mut parser), vec![event("message", "b")]);
}

#[test]
fn push_goes_on_after_finish() {
    let mut parser = SseParser::new();
    parser.push(b"data: first\n\n");
    parser.finish();
    parser.push(b"data: second\n\n");
    assert_eq!(
        drain(&mut parser),
        vec![event("message", "first"), event("message", "second")]
    );
}

#[test]
fn pushing_nothing_changes_nothing() {
    assert_eq!(
        events(&[b"", b"\xef", b"", b"\xbb\xbfdata: \xc3", b"", b"\xa9\n", b"", b"\n"]),
        vec![event("message", "\u{e9}")]
    );
}

#[test]
fn only_the_first_byte_order_mark_is_dropped() {
    assert_eq!(
        events(&[b"\xef\xbb\xbfdata:1\n\ndata:\xef\xbb\xbf2\n\n"]),
        vec![event("message", "1"), event("message", "\u{FEFF}2")]
    );
    assert_eq!(events(&[b"\xef\xbb\xbf\xef\xbb\xbfdata:1\n\n"]), vec![]);
}

#[test]
fn bytes_that_are_no_byte_order_mark_are_text() {
    assert_eq!(events(&[b"\xef", b"\xbb", b"data:1\n\ndata:2\n\n"]), vec![event("message", "2")]);
    assert_eq!(events(&[b"d", b"ata:1\n\n"]), vec![event("message", "1")]);
    assert_eq!(events(&[b"\n", b"\n", b"data:1\n\n"]), vec![event("message", "1")]);
}

#[test]
fn each_line_end_ends_a_line() {
    for end in ["\n", "\r", "\r\n"] {
        let stream = format!("data:a{end}data:b{end}{end}data:c{end}{end}");
        assert_eq!(
            events(&[stream.as_bytes()]),
            vec![event("message", "a\nb"), event("message", "c")]
        );
    }
}

#[test]
fn ignored_lines() {
    let stream = b"data:a\n:data:no\n:\nid:1\nretry:2\nDATA:no\ndata2:no\nevents:no\n\n";
    assert_eq!(events(&[stream]), vec![event("message", "a")]);
}

#[test]
fn event_of_a_block() {
    assert_eq!(
        events(&[b"event:a\ndata:1\nevent: b\ndata\ndata: 3\n\ndata:4\n\n"]),
        vec![event("b", "1\n\n3"), event("message", "4")]
    );
    assert_eq!(
        events(&[b"event:lost\n\ndata:x\n\n"]),
        vec![event("message", "x")]
    );
}

#[test]
fn one_event_per_block_with_data_and_any_line_ends() {
    let blocks: [&[&str]; 6] = [
        &["event: a", "data: 1", "data:2"],
        &["event: lost"],
        &[],
        &[": note", "data"],
        &["id: 7"],
        &["data: x", "event:", "data:\u{FFFD}y"],
    ];
    let expected = vec![event("a", "1\n2"), event("message", ""), event("message", "x\n\u{FFFD}y")];
    for first in 0..3 {
        let mut stream = Vec::new();
        let mut next = first;
        let mut end = |stream: &mut Vec<u8>| {
            // LF comes before CRLF and CR, so that no LF follows a bare CR.
            let mut text = ["\n", "\r\n", "\r"][next % 3];
            if stream.last() == Some(&b'\r') && text == "\n" {
                text = "\r\n";
            }
            next += 1;
            stream.extend_from_slice(text.as_bytes());
        };
        for block in blocks {
            for line in block {
                stream.extend_from_slice(line.replace('\u{FFFD}', "?").as_bytes());
                end(&mut stream);
            }
            end(&mut stream);
        }
        for byte in stream.iter_mut() {
            if *byte == b'?' {
                *byte = 0xFF;
            }
        }
        stream.extend_from_slice(b"data: open\ndata: left over");
        assert_eq!(events(&[&stream]), expected);
        let chunks: Vec<&[u8]> = stream.chunks(1).collect();
        assert_eq!(events(&chunks), expected);
    }
}

#[test]
fn a_text_is_its_lines_and_what_is_left_over() {
    let text = "a\r\n\nb\r\rc\n\r\nd";
    let mut lines = Vec::new();
    let mut rest = text;
    while let Some((line, behind)) = split_line(rest) {
        lines.push(line);
        rest = behind;
    }
    assert_eq!(lines, vec!["a", "", "b", "", "c", ""]);
    assert_eq!(rest, "d");
}

#[test]
fn taking_events_before_or_after_a_push() {
    let mut early = SseParser::new();
    early.push(b"data:1\n\ndata:2\n\nda");
    let first = early.next_event().unwrap();
    assert_eq!(first.data, "1");
    early.push(b"ta:3\n\n");

    let mut late = SseParser::new();
    late.push(b"data:1\n\ndata:2\n\nda");
    late.push(b"ta:3\n\n");
    assert_eq!(late.next_event().unwrap().data, "1");

    let rest = drain(&mut early);
    assert_eq!(rest, drain(&mut late));
    assert_eq!(rest, vec![event("message", "2"), event("message", "3")]);
}

#[test]
fn default_is_new() {
    let mut parser = SseParser::default();
    assert!(parser.next_event().is_none());
    parser.push(b"\xef\xbb\xbfdata:1\n\n");
    assert_eq!(drain(&mut parser), vec![event("message", "1")]);
}

#[test]
fn split_line_values() {
    assert_eq!(split_line(""), None);
    assert_eq!(split_line("abc"), None);
    assert_eq!(split_line("\n"), Some(("", "")));
    assert_eq!(split_line("a\nb\nc"), Some(("a", "b\nc")));
    assert_eq!(split_line("a\rb"), Some(("a", "b")));
    assert_eq!(split_line("a\r\nb"), Some(("a", "b")));
    assert_eq!(split_line("a\r\rb"), Some(("a", "\rb")));
    assert_eq!(split_line("a\n\rb"), Some(("a", "\rb")));
    assert_eq!(split_line("a\r"), Some(("a", "")));
    assert_eq!(split_line("\u{10A}\u{20AC}\u{10D}\n\u{1F600}"), Some(("\u{10A}\u{20AC}\u{10D}", "\u{1F600}")));
}

#[test]
fn split_field_values() {
    assert_eq!(split_field("data: x"), ("data", "x"));
    assert_eq!(split_field("data:x"), ("data", "x"));
    assert_eq!(split_field("data:  x"), ("data", " x"));
    assert_eq!(split_field("data:\tx"), ("data", "\tx"));
    assert_eq!(split_field("data:a:b"), ("data", "a:b"));
    assert_eq!(split_field("data: "), ("data", ""));
    assert_eq!(split_field("data:"), ("data", ""));
    assert_eq!(split_field("data"), ("data", ""));
    assert_eq!(split_field(":x"), ("", "x"));
    assert_eq!(split_field("\u{e9}\u{13A}: \u{1F600}"), ("\u{e9}\u{13A}", "\u{1F600}"));
}

#[test]
fn protocol_vocabulary() {
    let blocks = [
        ContentBlock::Text { text: "hi".to_string() },
        ContentBlock::ToolUse {
            id: "1".to_string(),
            name: "ls".to_string(),
            input: "{}".to_string(),
        },
        ContentBlock::ToolResult {
            tool_use_id: "1".to_string(),
            content: "ok".to_string(),
            is_error: false,
        },
        ContentBlock::Thinking { thinking: "hm".to_string(), signature: "s".to_string() },
    ];
    assert!(matches!(&blocks[2], ContentBlock::ToolResult { is_error: false, .. }));
    assert!(matches!(Role::User, Role::User | Role::Assistant));
    assert!(matches!(
        StopReason::StopSequence,
        StopReason::EndTurn | StopReason::ToolUse | StopReason::MaxTokens | StopReason::StopSequence
    ));
}
