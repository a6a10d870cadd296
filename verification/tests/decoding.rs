use sojobo::utf8::next_chunk;
use sojobo::SseParser;

/// Bytes on both sides of every boundary between the byte classes of UTF-8.
const CORNER_BYTES: [u8; 26] = [
    0x00, 0x0A, 0x41, 0x7F, 0x80, 0x8F, 0x90, 0x9F, 0xA0, 0xBF, 0xC0, 0xC1, 0xC2, 0xDF, 0xE0, 0xE1,
    0xEC, 0xED, 0xEE, 0xEF, 0xF0, 0xF1, 0xF3, 0xF4, 0xF5, 0xFF,
];

/// The chunks are those of the standard library.
fn assert_same_chunks(bytes: &[u8]) {
    let mut start = 0;
    for expected in bytes.utf8_chunks() {
        let chunk = next_chunk(bytes, start);
        assert_eq!(chunk.valid, expected.valid());
        assert_eq!(chunk.valid_end, start + expected.valid().len());
        assert_eq!(chunk.end, chunk.valid_end + expected.invalid().len());
        start = chunk.end;
    }
    assert_eq!(start, bytes.len());
}

/// The text of `bytes`, as the parser decodes it.
fn decoded(bytes: &[u8]) -> String {
    let mut parser = SseParser::new();
    parser.push(b"data:x");
    parser.push(bytes);
    parser.finish();
    parser.push(b"\n\n");
    parser.next_event().unwrap().data
}

#[test]
fn chunks_of_one_and_two_bytes() {
    for a in 0..=255u8 {
        assert_same_chunks(&[a]);
        for b in 0..=255u8 {
            assert_same_chunks(&[a, b]);
        }
    }
}

#[test]
fn chunks_of_three_bytes() {
    for a in CORNER_BYTES {
        for b in CORNER_BYTES {
            for c in 0..=255u8 {
                assert_same_chunks(&[a, b, c]);
            }
        }
    }
}

#[test]
fn chunks_of_four_bytes() {
    for a in CORNER_BYTES {
        for b in CORNER_BYTES {
            for c in CORNER_BYTES {
                for d in CORNER_BYTES {
                    assert_same_chunks(&[a, b, c, d]);
                }
            }
        }
    }
}

#[test]
fn chunk_values() {
    let chunk = next_chunk(b"ab\xe2\x82(", 0);
    assert_eq!((chunk.valid, chunk.valid_end, chunk.end), ("ab", 2, 4));
    let chunk = next_chunk(b"ab\xe2\x82(", 4);
    assert_eq!((chunk.valid, chunk.valid_end, chunk.end), ("(", 5, 5));
    let chunk = next_chunk(b"", 0);
    assert_eq!((chunk.valid, chunk.valid_end, chunk.end), ("", 0, 0));
}

#[test]
fn decoding_is_that_of_the_standard_library() {
    for a in CORNER_BYTES {
        for b in CORNER_BYTES {
            for c in CORNER_BYTES {
                let bytes = [a, b, c, b'-'];
                if !bytes.contains(&b'\n') {
                    let expected = format!("x{}", String::from_utf8_lossy(&bytes));
                    assert_eq!(decoded(&bytes), expected);
                }
            }
        }
    }
}

#[test]
fn one_replacement_per_ill_formed_sequence() {
    assert_eq!(decoded(b"\xff\xfe"), "x\u{FFFD}\u{FFFD}");
    assert_eq!(decoded(b"\xe2\x82\xe2\x82"), "x\u{FFFD}\u{FFFD}");
    assert_eq!(decoded(b"\xed\xa0\x80"), "x\u{FFFD}\u{FFFD}\u{FFFD}");
    assert_eq!(decoded(b"\xf0\x9f\x98a"), "x\u{FFFD}a");
    assert_eq!(decoded(b"\xc0\x80"), "x\u{FFFD}\u{FFFD}");
}

#[test]
fn well_formed_text_is_kept() {
    let text = "a\u{7f}\u{80}\u{7ff}\u{800}\u{d7ff}\u{e000}\u{ffff}\u{10000}\u{10ffff}";
    assert_eq!(decoded(text.as_bytes()), format!("x{text}"));
}

#[test]
fn ascii_is_kept() {
    assert_eq!(decoded(b"ASCII \t~\x7f"), "xASCII \t~\x7f");
}

#[test]
fn an_ill_formed_end_waits_for_more() {
    let mut parser = SseParser::new();
    parser.push(b"data: \xff");
    parser.push(b"\xff");
    parser.push(b"\n\n");
    assert_eq!(parser.next_event().unwrap().data, "\u{FFFD}\u{FFFD}");
}

#[test]
fn ascii_survives_ill_formed_bytes() {
    let mut parser = SseParser::new();
    parser.push(b"data:\xe2\ndata\xff:\ndata:\xf0\x9f:\r\r");
    assert_eq!(parser.next_event().unwrap().data, "\u{FFFD}\n\u{FFFD}:");
}
