use sojobo::SseParser;

#[test]
fn parse_simple_event() {
    let mut parser = SseParser::new();
    parser.push(b"data: hello\n\n");
    let event = parser.next_event().unwrap();
    assert_eq!(event.event, "message");
    assert_eq!(event.data, "hello");
    assert!(parser.next_event().is_none());
}

#[test]
fn parse_named_event() {
    let mut parser = SseParser::new();
    parser.push(b"event: content_block_delta\ndata: {\"text\":\"hi\"}\n\n");
    let event = parser.next_event().unwrap();
    assert_eq!(event.event, "content_block_delta");
    assert_eq!(event.data, "{\"text\":\"hi\"}");
}

#[test]
fn parse_multiline_data() {
    let mut parser = SseParser::new();
    parser.push(b"data: line1\ndata: line2\ndata: line3\n\n");
    let event = parser.next_event().unwrap();
    assert_eq!(event.data, "line1\nline2\nline3");
}

#[test]
fn skip_comments() {
    let mut parser = SseParser::new();
    parser.push(b": this is a comment\ndata: hello\n\n");
    let event = parser.next_event().unwrap();
    assert_eq!(event.data, "hello");
}

#[test]
fn multiple_events() {
    let mut parser = SseParser::new();
    parser.push(b"data: first\n\ndata: second\n\n");
    let e1 = parser.next_event().unwrap();
    let e2 = parser.next_event().unwrap();
    assert_eq!(e1.data, "first");
    assert_eq!(e2.data, "second");
    assert!(parser.next_event().is_none());
}

#[test]
fn incremental_push() {
    let mut parser = SseParser::new();
    parser.push(b"data: hel");
    assert!(parser.next_event().is_none());
    parser.push(b"lo\n\n");
    let event = parser.next_event().unwrap();
    assert_eq!(event.data, "hello");
}

#[test]
fn blank_line_with_no_data_is_ignored() {
    let mut parser = SseParser::new();
    parser.push(b"\n\ndata: real\n\n");
    let event = parser.next_event().unwrap();
    assert_eq!(event.data, "real");
    assert!(parser.next_event().is_none());
}

#[test]
fn crlf_line_endings() {
    let mut parser = SseParser::new();
    parser.push(b"data: hello\r\n\r\n");
    let event = parser.next_event().unwrap();
    assert_eq!(event.data, "hello");
}

#[test]
fn cr_only_line_endings() {
    let mut parser = SseParser::new();
    parser.push(b"data: hello\r\r");
    let event = parser.next_event().unwrap();
    assert_eq!(event.data, "hello");
}

#[test]
fn no_space_after_colon() {
    let mut parser = SseParser::new();
    parser.push(b"data:nospace\n\n");
    let event = parser.next_event().unwrap();
    assert_eq!(event.data, "nospace");
}

#[test]
fn event_type_resets_after_dispatch() {
    let mut parser = SseParser::new();
    parser.push(b"event: custom\ndata: first\n\ndata: second\n\n");
    let e1 = parser.next_event().unwrap();
    let e2 = parser.next_event().unwrap();
    assert_eq!(e1.event, "custom");
    assert_eq!(e2.event, "message");
}

#[test]
fn data_field_no_colon_fires_empty_event() {
    let mut parser = SseParser::new();
    parser.push(b"data\n\n");
    let event = parser.next_event().unwrap();
    assert_eq!(event.data, "");
}

#[test]
fn two_data_fields_no_colon_fires_newline() {
    let mut parser = SseParser::new();
    parser.push(b"data\ndata\n\n");
    let event = parser.next_event().unwrap();
    assert_eq!(event.data, "\n");
}

#[test]
fn space_after_colon_is_optional() {
    let mut parser = SseParser::new();
    parser.push(b"data:test\n\ndata: test\n\n");
    let e1 = parser.next_event().unwrap();
    let e2 = parser.next_event().unwrap();
    assert_eq!(e1.data, e2.data);
    assert_eq!(e1.data, "test");
}

#[test]
fn spec_example_stock_data() {
    let mut parser = SseParser::new();
    parser.push(b"data: YHOO\ndata: +2\ndata: 10\n\n");
    let event = parser.next_event().unwrap();
    assert_eq!(event.data, "YHOO\n+2\n10");
}

#[test]
fn only_first_space_after_colon_stripped() {
    let mut parser = SseParser::new();
    parser.push(b"data:  third event\n\n");
    let event = parser.next_event().unwrap();
    assert_eq!(event.data, " third event");
}

#[test]
fn bom_stripped_from_first_chunk() {
    let mut parser = SseParser::new();
    parser.push(b"\xef\xbb\xbfdata: hello\n\n");
    let event = parser.next_event().unwrap();
    assert_eq!(event.data, "hello");
}

#[test]
fn bom_not_stripped_from_later_chunks() {
    let mut parser = SseParser::new();
    parser.push(b"data: first\n\n");
    parser.next_event().unwrap();
    parser.push(b"\xef\xbb\xbfdata: second\n\ndata: third\n\n");
    let event = parser.next_event().unwrap();
    assert_eq!(event.data, "third");
}

#[test]
fn bom_split_across_chunks() {
    let mut parser = SseParser::new();
    parser.push(b"\xef\xbb");
    parser.push(b"\xbfdata: hello\n\n");
    let event = parser.next_event().unwrap();
    assert_eq!(event.data, "hello");
}

#[test]
fn multibyte_char_split_across_chunks() {
    let mut parser = SseParser::new();
    parser.push(b"data: \xc3");
    assert!(parser.next_event().is_none());
    parser.push(b"\xa9\n\n");
    let event = parser.next_event().unwrap();
    assert_eq!(event.data, "é");
}

#[test]
fn three_byte_char_split_across_chunks() {
    let mut parser = SseParser::new();
    parser.push(b"data: \xe2");
    assert!(parser.next_event().is_none());
    parser.push(b"\x82\xac\n\n");
    let event = parser.next_event().unwrap();
    assert_eq!(event.data, "\u{20AC}");
}

#[test]
fn four_byte_char_split_across_chunks() {
    let mut parser = SseParser::new();
    parser.push(b"data: \xf0\x9f");
    assert!(parser.next_event().is_none());
    parser.push(b"\x98\x80\n\n");
    let event = parser.next_event().unwrap();
    assert_eq!(event.data, "\u{1F600}");
}

#[test]
fn invalid_utf8_replaced_with_fffd() {
    let mut parser = SseParser::new();
    parser.push(b"data: a\xffb\n\n");
    let event = parser.next_event().unwrap();
    assert_eq!(event.data, "a\u{FFFD}b");
}

#[test]
fn invalid_continuation_byte_replaced() {
    let mut parser = SseParser::new();
    parser.push(b"data: \xc3(ok\n\n");
    let event = parser.next_event().unwrap();
    assert_eq!(event.data, "\u{FFFD}(ok");
}

#[test]
fn finish_flushes_incomplete_utf8_as_one_replacement() {
    let mut parser = SseParser::new();
    parser.push(b"data: x\xe2\x82");
    assert!(parser.next_event().is_none());
    parser.finish();
    assert!(parser.next_event().is_none());
}

#[test]
fn finish_with_complete_event() {
    let mut parser = SseParser::new();
    parser.push(b"data: ok\n\n");
    parser.push(b"\xe2");
    let event = parser.next_event().unwrap();
    assert_eq!(event.data, "ok");
    parser.finish();
    assert!(parser.next_event().is_none());
}

#[test]
fn id_field_ignored_without_breaking() {
    let mut parser = SseParser::new();
    parser.push(b"id: 123\ndata: hello\n\n");
    let event = parser.next_event().unwrap();
    assert_eq!(event.data, "hello");
}

#[test]
fn retry_field_ignored_without_breaking() {
    let mut parser = SseParser::new();
    parser.push(b"retry: 5000\ndata: hello\n\n");
    let event = parser.next_event().unwrap();
    assert_eq!(event.data, "hello");
}

#[test]
fn unknown_field_ignored() {
    let mut parser = SseParser::new();
    parser.push(b"foo: bar\ndata: hello\n\n");
    let event = parser.next_event().unwrap();
    assert_eq!(event.data, "hello");
}

#[test]
fn empty_event_field_resets_to_message() {
    let mut parser = SseParser::new();
    parser.push(b"event: custom\nevent:\ndata: hello\n\n");
    let event = parser.next_event().unwrap();
    assert_eq!(event.event, "message");
}

#[test]
fn multiple_event_fields_last_wins() {
    let mut parser = SseParser::new();
    parser.push(b"event: first\nevent: second\ndata: hello\n\n");
    let event = parser.next_event().unwrap();
    assert_eq!(event.event, "second");
}

#[test]
fn data_colon_no_value() {
    let mut parser = SseParser::new();
    parser.push(b"data:\n\n");
    let event = parser.next_event().unwrap();
    assert_eq!(event.data, "");
}

#[test]
fn comment_between_data_fields() {
    let mut parser = SseParser::new();
    parser.push(b"data: a\n: comment\ndata: b\n\n");
    let event = parser.next_event().unwrap();
    assert_eq!(event.data, "a\nb");
}

#[test]
fn mixed_line_endings() {
    let mut parser = SseParser::new();
    parser.push(b"data: a\ndata: b\r\ndata: c\r\r");
    let event = parser.next_event().unwrap();
    assert_eq!(event.data, "a\nb\nc");
}

#[test]
fn empty_push() {
    let mut parser = SseParser::new();
    parser.push(b"");
    assert!(parser.next_event().is_none());
    parser.push(b"data: hello\n\n");
    let event = parser.next_event().unwrap();
    assert_eq!(event.data, "hello");
}

#[test]
fn empty_stream_finish() {
    let mut parser = SseParser::new();
    parser.finish();
    assert!(parser.next_event().is_none());
}

#[test]
fn finish_called_twice() {
    let mut parser = SseParser::new();
    parser.push(b"data: hello\n\n");
    parser.next_event().unwrap();
    parser.finish();
    parser.finish();
    assert!(parser.next_event().is_none());
}

#[test]
fn push_after_finish() {
    let mut parser = SseParser::new();
    parser.push(b"data: first\n\n");
    parser.finish();
    parser.push(b"data: second\n\n");
    let _ = parser.next_event();
}

#[test]
fn events_accumulate_without_consumption() {
    let mut parser = SseParser::new();
    parser.push(b"data: a\n\ndata: b\n\ndata: c\n\n");
    let e1 = parser.next_event().unwrap();
    let e2 = parser.next_event().unwrap();
    let e3 = parser.next_event().unwrap();
    assert_eq!(e1.data, "a");
    assert_eq!(e2.data, "b");
    assert_eq!(e3.data, "c");
    assert!(parser.next_event().is_none());
}

#[test]
fn bom_only_stream() {
    let mut parser = SseParser::new();
    parser.push(b"\xef\xbb\xbf");
    parser.finish();
    assert!(parser.next_event().is_none());
}

#[test]
fn first_chunk_single_bom_byte_then_finish() {
    let mut parser = SseParser::new();
    parser.push(b"\xef");
    parser.finish();
    assert!(parser.next_event().is_none());
}

#[test]
fn invalid_byte_before_line_ending() {
    let mut parser = SseParser::new();
    parser.push(b"data: x\xff\n\n");
    let event = parser.next_event().unwrap();
    assert_eq!(event.data, "x\u{FFFD}");
}

#[test]
fn four_byte_char_one_byte_per_push() {
    let mut parser = SseParser::new();
    parser.push(b"data: ");
    parser.push(b"\xf0");
    parser.push(b"\x9f");
    parser.push(b"\x98");
    parser.push(b"\x80");
    parser.push(b"\n\n");
    let event = parser.next_event().unwrap();
    assert_eq!(event.data, "\u{1F600}");
}

#[test]
fn wpt_field_parsing() {
    let mut parser = SseParser::new();
    parser.push(
        b"data:\0\ndata:  2\rData:1\ndata\0:2\ndata:1\r\0data:4\nda-ta:3\rdata_5\ndata:3\rdata:\r\n data:32\ndata:4\n\n",
    );
    let event = parser.next_event().unwrap();
    assert_eq!(event.data, "\0\n 2\n1\n3\n\n4");
}

#[test]
fn wpt_newlines() {
    let mut parser = SseParser::new();
    parser.push(b"data:test\r\ndata\ndata:test\r\n\r");
    let event = parser.next_event().unwrap();
    assert_eq!(event.data, "test\n\ntest");
}

#[test]
fn wpt_bom() {
    let mut parser = SseParser::new();
    parser.push(b"\xef\xbb\xbfdata:1\n\n\xef\xbb\xbfdata:2\n\ndata:3\n\n");
    let e1 = parser.next_event().unwrap();
    assert_eq!(e1.data, "1");
    let e2 = parser.next_event().unwrap();
    assert_eq!(e2.data, "3");
    assert!(parser.next_event().is_none());
}

#[test]
fn wpt_double_bom() {
    let mut parser = SseParser::new();
    parser.push(b"\xef\xbb\xbf\xef\xbb\xbfdata:1\n\ndata:2\n\ndata:3\n\n");
    let e1 = parser.next_event().unwrap();
    assert_eq!(e1.data, "2");
    let e2 = parser.next_event().unwrap();
    assert_eq!(e2.data, "3");
    assert!(parser.next_event().is_none());
}

#[test]
fn wpt_comments() {
    let mut parser = SseParser::new();
    let long = "x".repeat(2 * 1024);
    let input =
        format!("data:1\r:\0\n:\r\ndata:2\n:{long}\rdata:3\n:data:fail\r:{long}\ndata:4\n\n");
    parser.push(input.as_bytes());
    let event = parser.next_event().unwrap();
    assert_eq!(event.data, "1\n2\n3\n4");
}

#[test]
fn wpt_empty_event_field() {
    let mut parser = SseParser::new();
    parser.push(b"event: \ndata:data\n\n");
    let event = parser.next_event().unwrap();
    assert_eq!(event.event, "message");
    assert_eq!(event.data, "data");
}

#[test]
fn wpt_null_in_data() {
    let mut parser = SseParser::new();
    parser.push(b"data:\0\n\n");
    let event = parser.next_event().unwrap();
    assert_eq!(event.data, "\0");
}

#[test]
fn wpt_leading_space() {
    let mut parser = SseParser::new();
    parser.push(b"data:\ttest\rdata: \ndata:test\n\n");
    let event = parser.next_event().unwrap();
    assert_eq!(event.data, "\ttest\n\ntest");
}

#[test]
fn wpt_unknown_fields() {
    let mut parser = SseParser::new();
    parser.push(
        b"data:test\n data\ndata\nfoobar:xxx\njustsometext\n:thisisacommentyay\ndata:test\n\n",
    );
    let event = parser.next_event().unwrap();
    assert_eq!(event.data, "test\n\ntest");
}

#[test]
fn wpt_field_data() {
    let mut parser = SseParser::new();
    parser.push(b"data:\n\ndata\ndata\n\ndata:test\n\n");
    let e1 = parser.next_event().unwrap();
    assert_eq!(e1.data, "");
    let e2 = parser.next_event().unwrap();
    assert_eq!(e2.data, "\n");
    let e3 = parser.next_event().unwrap();
    assert_eq!(e3.data, "test");
    assert!(parser.next_event().is_none());
}

#[test]
fn wpt_field_event() {
    let mut parser = SseParser::new();
    parser.push(b"event:test\ndata:x\n\ndata:x\n\n");
    let e1 = parser.next_event().unwrap();
    assert_eq!(e1.event, "test");
    assert_eq!(e1.data, "x");
    let e2 = parser.next_event().unwrap();
    assert_eq!(e2.event, "message");
    assert_eq!(e2.data, "x");
}

#[test]
fn wpt_retry_empty() {
    let mut parser = SseParser::new();
    parser.push(b"retry\ndata:test\n\n");
    let event = parser.next_event().unwrap();
    assert_eq!(event.data, "test");
}

#[test]
fn wpt_case_sensitive_field_names() {
    let mut parser = SseParser::new();
    parser.push(b"Data:no\ndata:yes\ndAta:no\n\n");
    let event = parser.next_event().unwrap();
    assert_eq!(event.data, "yes");
}

#[test]
fn wpt_space_prefixed_field_name() {
    let mut parser = SseParser::new();
    parser.push(b" data:ignored\ndata:kept\n\n");
    let event = parser.next_event().unwrap();
    assert_eq!(event.data, "kept");
}

#[test]
fn wpt_null_in_field_name() {
    let mut parser = SseParser::new();
    parser.push(b"data\0:ignored\ndata:kept\n\n");
    let event = parser.next_event().unwrap();
    assert_eq!(event.data, "kept");
}
