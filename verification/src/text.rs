//! Lines and fields of decoded text, found byte by byte.
use vstd::prelude::*;
use vstd::utf8::*;

verus! {

pub(crate) const LF: u8 = 0x0A;

pub(crate) const CR: u8 = 0x0D;

const SPACE: u8 = 0x20;

pub(crate) const COLON: u8 = 0x3A;

/// The character ends a line.
pub open spec fn is_line_end(c: char) -> bool {
    c == '\n' || c == '\r'
}

/// The text holds no line end.
pub open spec fn is_one_line(text: Seq<char>) -> bool {
    forall|i: int| 0 <= i < text.len() ==> !is_line_end(#[trigger] text[i])
}

/// The text holds no CR.
pub open spec fn has_no_cr(text: Seq<char>) -> bool {
    forall|i: int| 0 <= i < text.len() ==> #[trigger] text[i] != '\r'
}

/// How many characters stand before the first line end, or how many there are if there is none.
pub open spec fn line_len(text: Seq<char>) -> int
    decreases text.len(),
{
    if text.len() == 0 || is_line_end(text[0]) {
        0
    } else {
        1 + line_len(text.skip(1))
    }
}

/// How many characters the line end at the front of `text` has: two for CRLF, one for LF or CR.
pub open spec fn line_end_len(text: Seq<char>) -> int
    recommends
        text.len() > 0,
        is_line_end(text[0]),
{
    if text[0] == '\r' && text.len() > 1 && text[1] == '\n' {
        2
    } else {
        1
    }
}

/// The first complete line of `text`, without its line end, and the text behind that line end.
pub open spec fn first_line(text: Seq<char>) -> Option<(Seq<char>, Seq<char>)> {
    let n = line_len(text);
    if n == text.len() {
        None
    } else {
        Some((text.take(n), text.skip(n).skip(line_end_len(text.skip(n)))))
    }
}

/// The complete lines of `text`, without their line ends.
pub open spec fn complete_lines(text: Seq<char>) -> Seq<Seq<char>>
    decreases text.len(),
{
    match first_line(text) {
        None => Seq::empty(),
        Some((line, rest)) => {
            proof {
                lemma_first_line_shrinks(text);
            }
            seq![line] + complete_lines(rest)
        },
    }
}

/// The line ends of the complete lines of `text`.
pub open spec fn line_ends(text: Seq<char>) -> Seq<Seq<char>>
    decreases text.len(),
{
    match first_line(text) {
        None => Seq::empty(),
        Some((line, rest)) => {
            proof {
                lemma_first_line_shrinks(text);
            }
            let tail = text.skip(line_len(text));
            seq![tail.take(line_end_len(tail))] + line_ends(rest)
        },
    }
}

/// The text behind the last line end of `text`.
pub open spec fn leftover(text: Seq<char>) -> Seq<char>
    decreases text.len(),
{
    match first_line(text) {
        None => text,
        Some((line, rest)) => {
            proof {
                lemma_first_line_shrinks(text);
            }
            leftover(rest)
        },
    }
}

/// The lines one behind the other, each with its line end behind it.
pub open spec fn terminated(lines: Seq<Seq<char>>, ends: Seq<Seq<char>>) -> Seq<char>
    decreases lines.len(),
{
    if lines.len() == 0 {
        Seq::empty()
    } else {
        lines[0] + ends[0] + terminated(lines.skip(1), ends.skip(1))
    }
}

/// `lines` and `ends` can stand for a text: every line is one line, every line end is LF, CR or CRLF,
/// and no LF follows a bare CR, for the two would be one line end.
pub open spec fn are_terminated(lines: Seq<Seq<char>>, ends: Seq<Seq<char>>) -> bool {
    &&& lines.len() == ends.len()
    &&& forall|i: int| 0 <= i < lines.len() ==> is_one_line(#[trigger] lines[i])
    &&& forall|i: int|
        0 <= i < ends.len() ==> {
            ||| #[trigger] ends[i] == seq!['\n']
            ||| ends[i] == seq!['\r', '\n']
            ||| ends[i] == seq!['\r'] && !lf_follows(lines, ends, i)
        }
}

/// Behind the line end at `i` stands an LF.
pub open spec fn lf_follows(lines: Seq<Seq<char>>, ends: Seq<Seq<char>>, i: int) -> bool {
    i + 1 < lines.len() && lines[i + 1].len() == 0 && ends[i + 1] == seq!['\n']
}

/// How many characters stand before the first colon of `line`, or how many there are if there is
/// none.
pub open spec fn name_len(line: Seq<char>) -> int
    decreases line.len(),
{
    if line.len() == 0 || line[0] == ':' {
        0
    } else {
        1 + name_len(line.skip(1))
    }
}

/// The field name of a line: all that stands before its first colon.
pub open spec fn field_name(line: Seq<char>) -> Seq<char> {
    line.take(name_len(line))
}

/// The field value of a line: all that stands behind its first colon, without one leading space.
/// A line with no colon has an empty value.
pub open spec fn field_value(line: Seq<char>) -> Seq<char> {
    let n = name_len(line);
    if n == line.len() {
        Seq::empty()
    } else {
        without_leading_space(line.skip(n + 1))
    }
}

/// The text without its first character, if that is U+0020 SPACE.
pub open spec fn without_leading_space(text: Seq<char>) -> Seq<char> {
    if text.len() > 0 && text[0] == ' ' {
        text.skip(1)
    } else {
        text
    }
}

/// The text without its last character, if that is U+000A LINE FEED.
pub open spec fn without_trailing_newline(text: Seq<char>) -> Seq<char> {
    if text.len() > 0 && text.last() == '\n' {
        text.drop_last()
    } else {
        text
    }
}

/// `line_len` is the place of the first line end.
pub proof fn lemma_line_len(text: Seq<char>)
    ensures
        0 <= line_len(text) <= text.len(),
        line_len(text) < text.len() ==> is_line_end(text[line_len(text)]),
        forall|i: int| 0 <= i < line_len(text) ==> !is_line_end(#[trigger] text[i]),
    decreases text.len(),
{
    if text.len() > 0 && !is_line_end(text[0]) {
        lemma_line_len(text.skip(1));
        assert forall|i: int| 0 <= i < line_len(text) implies !is_line_end(#[trigger] text[i]) by {
            if i > 0 {
                assert(text[i] == text.skip(1)[i - 1]);
            }
        }
    }
}

/// Only the place of the first line end is `line_len`.
pub proof fn lemma_line_len_unique(text: Seq<char>, n: int)
    requires
        0 <= n <= text.len(),
        n < text.len() ==> is_line_end(text[n]),
        forall|i: int| 0 <= i < n ==> !is_line_end(#[trigger] text[i]),
    ensures
        line_len(text) == n,
{
    lemma_line_len(text);
    if line_len(text) < n {
        assert(!is_line_end(text[line_len(text)]));
    }
    if n < line_len(text) {
        assert(!is_line_end(text[n]));
    }
}

/// The text behind the first line is shorter.
pub proof fn lemma_first_line_shrinks(text: Seq<char>)
    ensures
        first_line(text) matches Some((line, rest)) ==> rest.len() < text.len(),
{
    lemma_line_len(text);
}

/// `name_len` is the place of the first colon, or the end of the line.
pub proof fn lemma_name_len_bounds(line: Seq<char>)
    ensures
        0 <= name_len(line) <= line.len(),
        name_len(line) < line.len() ==> line[name_len(line)] == ':',
        forall|i: int| 0 <= i < name_len(line) ==> #[trigger] line[i] != ':',
    decreases line.len(),
{
    if line.len() > 0 && line[0] != ':' {
        lemma_name_len_bounds(line.skip(1));
        assert forall|i: int| 0 <= i < name_len(line) implies #[trigger] line[i] != ':' by {
            if i > 0 {
                assert(line[i] == line.skip(1)[i - 1]);
            }
        }
    }
}

/// Only the place of the first colon is `name_len`.
pub proof fn lemma_name_len_unique(line: Seq<char>, n: int)
    requires
        0 <= n <= line.len(),
        n < line.len() ==> line[n] == ':',
        forall|i: int| 0 <= i < n ==> #[trigger] line[i] != ':',
    ensures
        name_len(line) == n,
    decreases line.len(),
{
    if n > 0 {
        assert(line[0] != ':');
        let rest = line.skip(1);
        assert forall|i: int| 0 <= i < n - 1 implies #[trigger] rest[i] != ':' by {
            assert(line[i + 1] != ':');
        }
        lemma_name_len_unique(rest, n - 1);
    }
}

/// Splitting a line off loses nothing: the text is the line, its line end and the rest. The line
/// holds neither LF nor CR, and a bare CR is not followed by LF. There is no line to split off
/// exactly when the text holds neither.
pub proof fn law_split_line(text: Seq<char>)
    ensures
        match first_line(text) {
            Some((line, rest)) => {
                &&& forall|i: int|
                    0 <= i < line.len() ==> #[trigger] line[i] != '\n' && line[i] != '\r'
                &&& {
                    ||| text == line + seq!['\n'] + rest
                    ||| text == line + seq!['\r', '\n'] + rest
                    ||| text == line + seq!['\r'] + rest && !(rest.len() > 0 && rest[0] == '\n')
                }
            },
            None => !text.contains('\n') && !text.contains('\r'),
        },
{
    lemma_line_len(text);
    let n = line_len(text);
    if let Some((line, rest)) = first_line(text) {
        assert forall|i: int| 0 <= i < line.len() implies #[trigger] line[i] != '\n' && line[i]
            != '\r' by {
            assert(!is_line_end(text[i]));
        }
        assert(is_line_end(text[n]));
        if line_end_len(text.skip(n)) == 2 {
            assert(text =~= line + seq!['\r', '\n'] + rest);
        } else if text[n] == '\n' {
            assert(text =~= line + seq!['\n'] + rest);
        } else {
            assert(text =~= line + seq!['\r'] + rest);
        }
    } else {
        assert forall|i: int| 0 <= i < text.len() implies #[trigger] text[i] != '\n' && text[i]
            != '\r' by {
            assert(!is_line_end(text[i]));
        }
    }
}

/// Splitting a line into its field loses nothing but the first colon and one space behind it: the
/// line is the name, the colon, at most one space, and the value. The name holds no colon.
pub proof fn law_field(line: Seq<char>)
    ensures
        !field_name(line).contains(':'),
        line.contains(':') ==> {
            ||| line == field_name(line) + seq![':', ' '] + field_value(line)
            ||| line == field_name(line) + seq![':'] + field_value(line) && !(field_value(line).len()
                > 0 && field_value(line)[0] == ' ')
        },
        !line.contains(':') ==> field_name(line) == line && field_value(line).len() == 0,
{
    lemma_name_len_bounds(line);
    let n = name_len(line);
    assert(field_name(line) =~= line.take(n));
    if line.contains(':') {
        let k = choose|k: int| 0 <= k < line.len() && line[k] == ':';
        assert(n < line.len());
        let behind = line.skip(n + 1);
        if behind.len() > 0 && behind[0] == ' ' {
            assert(line =~= field_name(line) + seq![':', ' '] + field_value(line));
        } else {
            assert(line =~= field_name(line) + seq![':'] + field_value(line));
        }
    } else if n < line.len() {
        assert(line.contains(line[n]));
    } else {
        assert(line.take(n) =~= line);
    }
}

/// A field is read back as it is written: for every name without a colon and every value, the name
/// comes back whole, and so does the value behind a colon and one space, whatever it begins with.
/// The space may be left out where the value begins with none, and a name alone has no value.
pub proof fn law_field_is_read_back(name: Seq<char>, value: Seq<char>)
    requires
        !name.contains(':'),
    ensures
        field_name(name + seq![':', ' '] + value) == name,
        field_value(name + seq![':', ' '] + value) == value,
        field_name(name + seq![':'] + value) == name,
        !(value.len() > 0 && value[0] == ' ') ==> field_value(name + seq![':'] + value) == value,
        field_name(name) == name,
        field_value(name) == Seq::<char>::empty(),
{
    let n = name.len() as int;
    assert forall|i: int| 0 <= i < n implies #[trigger] name[i] != ':' by {
        assert(name.contains(name[i]));
    }
    let spaced = name + seq![':', ' '] + value;
    let plain = name + seq![':'] + value;
    lemma_name_len_unique(spaced, n);
    lemma_name_len_unique(plain, n);
    lemma_name_len_unique(name, n);
    assert(spaced.take(n) =~= name);
    assert(plain.take(n) =~= name);
    assert(name.take(n) =~= name);
    assert(spaced.skip(n + 1).skip(1) =~= value);
    assert(plain.skip(n + 1) =~= value);
}

/// Encoding works character by character.
pub proof fn lemma_encode_append(a: Seq<char>, b: Seq<char>)
    ensures
        encode_utf8(a + b) == encode_utf8(a) + encode_utf8(b),
    decreases a.len(),
{
    if a.len() == 0 {
        assert(a + b =~= b);
        assert(encode_utf8(a) + encode_utf8(b) =~= encode_utf8(b));
    } else {
        assert((a + b).drop_first() =~= a.drop_first() + b);
        lemma_encode_append(a.drop_first(), b);
        let first = encode_scalar(a[0] as u32);
        assert(first + (encode_utf8(a.drop_first()) + encode_utf8(b)) =~= encode_utf8(a)
            + encode_utf8(b));
    }
}

/// Every character takes up at least one byte.
proof fn lemma_encode_len(text: Seq<char>)
    ensures
        text.len() <= encode_utf8(text).len(),
        text.len() > 0 ==> encode_utf8(text).len() >= encode_scalar(text[0] as u32).len(),
    decreases text.len(),
{
    if text.len() > 0 {
        lemma_encode_len(text.drop_first());
    }
}

/// Different texts have different encodings.
proof fn lemma_encode_injective(a: Seq<char>, b: Seq<char>)
    requires
        encode_utf8(a) == encode_utf8(b),
    ensures
        a == b,
{
    encode_utf8_decode_utf8(a);
    encode_utf8_decode_utf8(b);
}

/// Text can be cut between any two characters.
proof fn lemma_boundary(a: Seq<char>, b: Seq<char>)
    ensures
        is_char_boundary(encode_utf8(a + b), encode_utf8(a).len() as int),
    decreases a.len(),
{
    encode_utf8_valid_utf8(a + b);
    if a.len() > 0 {
        encode_utf8_first_scalar(a + b);
        assert((a + b).drop_first() =~= a.drop_first() + b);
        lemma_boundary(a.drop_first(), b);
        lemma_encode_append(a, b);
        assert(pop_first_scalar(encode_utf8(a + b)) =~= encode_utf8(a.drop_first() + b));
    }
}

/// The bytes of a multi-byte character are not ASCII, and an ASCII character is its own byte.
pub proof fn lemma_scalar_bytes(c: char)
    ensures
        (c as u32) < 0x80 ==> encode_scalar(c as u32) == seq![c as u8],
        (c as u32) >= 0x80 ==> forall|i: int|
            0 <= i < encode_scalar(c as u32).len() ==> #[trigger] encode_scalar(c as u32)[i]
                >= 0x80,
        encode_scalar(c as u32).len() >= 1,
        c as u32 as int == c as int,
        (c as u32) < 0x80 ==> c as u8 as int == c as int,
{
    let s = c as u32;
    char_is_scalar(c);
    assert(s < 0x80 ==> leading_byte_width_1(s) == s) by (bit_vector);
    assert(leading_byte_width_2(s) >= 0x80) by (bit_vector);
    assert(leading_byte_width_3(s) >= 0x80) by (bit_vector);
    assert(leading_byte_width_4(s) >= 0x80) by (bit_vector);
    assert(last_continuation_byte(s) >= 0x80) by (bit_vector);
    assert(second_last_continuation_byte(s) >= 0x80) by (bit_vector);
    assert(third_last_continuation_byte(s) >= 0x80) by (bit_vector);
}

/// An ASCII byte of encoded text is a character of that text, and stands on a boundary.
proof fn lemma_ascii_byte_is_char(text: Seq<char>, i: int) -> (n: int)
    requires
        0 <= i < encode_utf8(text).len(),
        encode_utf8(text)[i] < 0x80,
    ensures
        0 <= n < text.len(),
        text[n] as u32 == encode_utf8(text)[i] as u32,
        encode_utf8(text.take(n)) == encode_utf8(text).take(i),
        encode_utf8(text.skip(n)) == encode_utf8(text).skip(i),
        is_char_boundary(encode_utf8(text), i),
    decreases text.len(),
{
    let first = encode_scalar(text[0] as u32);
    lemma_scalar_bytes(text[0]);
    if i < first.len() {
        assert(encode_utf8(text)[i] == first[i]);
        assert(text.skip(0) =~= text);
        assert(encode_utf8(text.take(0)) =~= encode_utf8(text).take(0));
        assert(encode_utf8(text).skip(0) =~= encode_utf8(text));
        encode_utf8_valid_utf8(text);
        0
    } else {
        let rest = text.drop_first();
        let m = lemma_ascii_byte_is_char(rest, i - first.len());
        let n = m + 1;
        assert(text.take(n).drop_first() =~= rest.take(m));
        assert(text.skip(n) =~= rest.skip(m));
        assert(encode_utf8(text.take(n)) =~= encode_utf8(text).take(i));
        assert(encode_utf8(text.skip(n)) =~= encode_utf8(text).skip(i));
        lemma_boundary(text.take(n), text.skip(n));
        assert(text.take(n) + text.skip(n) =~= text);
        n
    }
}

/// An ASCII character of text is a byte of its encoding.
proof fn lemma_ascii_char_is_byte(text: Seq<char>, n: int)
    requires
        0 <= n < text.len(),
        (text[n] as u32) < 0x80,
    ensures
        encode_utf8(text.take(n)).len() < encode_utf8(text).len(),
        encode_utf8(text)[encode_utf8(text.take(n)).len() as int] == text[n] as u8,
        encode_utf8(text.take(n)).len() < encode_utf8(text.take(n + 1)).len(),
{
    assert(text =~= text.take(n) + text.skip(n));
    lemma_encode_append(text.take(n), text.skip(n));
    lemma_scalar_bytes(text[n]);
    assert(text.take(n + 1) =~= text.take(n) + seq![text[n]]);
    lemma_encode_append(text.take(n), seq![text[n]]);
    lemma_encode_len(seq![text[n]]);
    lemma_encode_len(text.skip(n));
}

/// Encoding a longer beginning of a text takes at least as many bytes.
proof fn lemma_encode_take_monotonic(text: Seq<char>, m: int, n: int)
    requires
        0 <= m <= n <= text.len(),
    ensures
        encode_utf8(text.take(m)).len() <= encode_utf8(text.take(n)).len(),
{
    assert(text.take(n) =~= text.take(m) + text.subrange(m, n));
    lemma_encode_append(text.take(m), text.subrange(m, n));
}

/// Split `buf` at its first line end.
///
/// Line ends are CRLF, LF and CR. Gives the line and the text behind its line end, or `None` when
/// `buf` holds no line end.
///
/// The search goes by bytes: LF and CR are ASCII, and no byte of a multi-byte character is, so
/// the place of such a byte is always a place where the text can be cut.
pub fn split_line(buf: &str) -> (r: Option<(&str, &str)>)
    ensures
        match r {
            Some((line, rest)) => first_line(buf@) == Some((line@, rest@)),
            None => first_line(buf@) is None,
        },
        match r {
            Some((line, rest)) => {
                &&& forall|i: int|
                    0 <= i < line@.len() ==> #[trigger] line@[i] != '\n' && line@[i] != '\r'
                &&& {
                    ||| buf@ == line@ + seq!['\n'] + rest@
                    ||| buf@ == line@ + seq!['\r', '\n'] + rest@
                    ||| buf@ == line@ + seq!['\r'] + rest@ && !(rest@.len() > 0 && rest@[0] == '\n')
                }
            },
            None => !buf@.contains('\n') && !buf@.contains('\r'),
        },
{
    proof {
        law_split_line(buf@);
    }
    let bytes = buf.as_bytes();
    let mut i: usize = 0;
    while i < bytes.len()
        invariant
            i <= bytes@.len(),
            bytes@ == encode_utf8(buf@),
            forall|j: int| 0 <= j < i ==> bytes@[j] != LF && bytes@[j] != CR,
        decreases bytes@.len() - i,
    {
        let b: u8 = bytes[i];
        if b == LF || b == CR {
            let ghost n = lemma_ascii_byte_is_char(buf@, i as int);
            proof {
                lemma_scalar_bytes(buf@[n]);
                assert forall|m: int| 0 <= m < n implies !is_line_end(#[trigger] buf@[m]) by {
                    if is_line_end(buf@[m]) {
                        lemma_ascii_char_is_byte(buf@, m);
                        lemma_encode_take_monotonic(buf@, m + 1, n);
                    }
                }
                lemma_line_len_unique(buf@, n);
            }
            let (line, tail) = buf.split_at(i);
            proof {
                assert(bytes@.skip(i as int) =~= bytes@.subrange(i as int, bytes@.len() as int));
                assert(bytes@.take(i as int) =~= bytes@.subrange(0, i as int));
                lemma_encode_injective(line@, buf@.take(n));
                lemma_encode_injective(tail@, buf@.skip(n));
            }
            let crlf: bool = b == CR && i + 1 < bytes.len() && bytes[i + 1] == LF;
            let end: usize = if crlf { 2 } else { 1 };
            proof {
                lemma_line_end(tail@, crlf);
            }
            return Some((line, skip_ascii(tail, end)));
        }
        i = i + 1;
    }
    proof {
        assert forall|m: int| 0 <= m < buf@.len() implies !is_line_end(#[trigger] buf@[m]) by {
            if is_line_end(buf@[m]) {
                lemma_ascii_char_is_byte(buf@, m);
            }
        }
        lemma_line_len_unique(buf@, buf@.len() as int);
    }
    None
}

/// The line end at the front of a text, by its bytes.
proof fn lemma_line_end(text: Seq<char>, crlf: bool)
    requires
        text.len() > 0,
        is_line_end(text[0]),
        crlf == (encode_utf8(text)[0] == CR && encode_utf8(text).len() > 1 && encode_utf8(text)[1]
            == LF),
    ensures
        line_end_len(text) == if crlf {
            2int
        } else {
            1int
        },
{
    lemma_scalar_bytes(text[0]);
    if crlf {
        let m = lemma_ascii_byte_is_char(text, 1);
        lemma_encode_len(text.take(m));
        assert(m == 1);
        lemma_scalar_bytes(text[1]);
    } else if text.len() > 1 && text[1] == '\n' {
        lemma_ascii_char_is_byte(text, 1);
        lemma_ascii_prefix(text, 1);
        lemma_scalar_bytes(text[1]);
    }
}

/// ASCII characters take up one byte each.
proof fn lemma_ascii_prefix(text: Seq<char>, n: int)
    requires
        0 <= n <= text.len(),
        forall|i: int| 0 <= i < n ==> (#[trigger] text[i] as u32) < 0x80,
    ensures
        encode_utf8(text.take(n)).len() == n,
{
    assert forall|i: int| 0 <= i < n implies '\0' <= #[trigger] text.take(n)[i] <= '\u{7f}' by {
        lemma_scalar_bytes(text[i]);
    }
    is_ascii_chars_encode_utf8(text.take(n));
}

/// The text behind its first `n` characters, which are ASCII.
pub(crate) fn skip_ascii(text: &str, n: usize) -> (r: &str)
    requires
        n <= text@.len(),
        forall|i: int| 0 <= i < n ==> (#[trigger] text@[i] as u32) < 0x80,
    ensures
        r@ == text@.skip(n as int),
{
    let ghost head = text@.take(n as int);
    let ghost tail = text@.skip(n as int);
    proof {
        lemma_ascii_prefix(text@, n as int);
        assert(text@ =~= head + tail);
        lemma_encode_append(head, tail);
        lemma_boundary(head, tail);
    }
    let (_, rest) = text.split_at(n);
    proof {
        let bytes = encode_utf8(text@);
        assert(bytes.subrange(n as int, bytes.len() as int) =~= encode_utf8(tail));
        lemma_encode_injective(rest@, tail);
    }
    rest
}

/// Whether the text starts with the given ASCII character.
pub(crate) fn starts_with_ascii(text: &str, c: u8) -> (r: bool)
    requires
        c < 0x80,
    ensures
        r == (text@.len() > 0 && text@[0] as int == c),
{
    let bytes = text.as_bytes();
    let r: bool = bytes.len() > 0 && bytes[0] == c;
    proof {
        if r {
            let n = lemma_ascii_byte_is_char(text@, 0);
            lemma_encode_len(text@.take(n));
            lemma_scalar_bytes(text@[0]);
        } else if text@.len() > 0 {
            lemma_scalar_bytes(text@[0]);
            if text@[0] as int == c {
                lemma_ascii_char_is_byte(text@, 0);
                lemma_ascii_prefix(text@, 0);
            }
        }
    }
    r
}

/// Split a line into its field name and its field value.
pub fn split_field(line: &str) -> (r: (&str, &str))
    ensures
        r.0@ == field_name(line@),
        r.1@ == field_value(line@),
        !r.0@.contains(':'),
        line@.contains(':') ==> {
            ||| line@ == r.0@ + seq![':', ' '] + r.1@
            ||| line@ == r.0@ + seq![':'] + r.1@ && !(r.1@.len() > 0 && r.1@[0] == ' ')
        },
        !line@.contains(':') ==> r.0@ == line@ && r.1@.len() == 0,
{
    proof {
        law_field(line@);
    }
    let bytes = line.as_bytes();
    let mut i: usize = 0;
    while i < bytes.len()
        invariant
            i <= bytes@.len(),
            bytes@ == encode_utf8(line@),
            forall|j: int| 0 <= j < i ==> bytes@[j] != COLON,
        decreases bytes@.len() - i,
    {
        if bytes[i] == COLON {
            let ghost n = lemma_ascii_byte_is_char(line@, i as int);
            proof {
                lemma_scalar_bytes(line@[n]);
                assert forall|m: int| 0 <= m < n implies #[trigger] line@[m] != ':' by {
                    if line@[m] == ':' {
                        lemma_ascii_char_is_byte(line@, m);
                        lemma_encode_take_monotonic(line@, m + 1, n);
                    }
                }
                lemma_name_len_unique(line@, n);
            }
            let (name, tail) = line.split_at(i);
            proof {
                assert(bytes@.skip(i as int) =~= bytes@.subrange(i as int, bytes@.len() as int));
                assert(bytes@.take(i as int) =~= bytes@.subrange(0, i as int));
                lemma_encode_injective(name@, line@.take(n));
                lemma_encode_injective(tail@, line@.skip(n));
                assert(line@.skip(n).skip(1) =~= line@.skip(n + 1));
            }
            let value = skip_ascii(tail, 1);
            if starts_with_ascii(value, SPACE) {
                return (name, skip_ascii(value, 1));
            }
            return (name, value);
        }
        i = i + 1;
    }
    proof {
        assert forall|m: int| 0 <= m < line@.len() implies #[trigger] line@[m] != ':' by {
            if line@[m] == ':' {
                lemma_ascii_char_is_byte(line@, m);
            }
        }
        lemma_name_len_unique(line@, line@.len() as int);
        assert(line@.take(line@.len() as int) =~= line@);
        reveal_strlit("");
    }
    (line, "")
}

/// Whether the text ends in the given ASCII character.
pub(crate) fn ends_with_ascii(text: &str, c: u8) -> (r: bool)
    requires
        c < 0x80,
    ensures
        r == (text@.len() > 0 && text@.last() as int == c),
        r ==> encode_utf8(text@.drop_last()) == encode_utf8(text@).drop_last(),
        r ==> encode_utf8(text@).len() > 0,
        r ==> is_char_boundary(encode_utf8(text@), encode_utf8(text@).len() - 1),
{
    let bytes = text.as_bytes();
    let r: bool = bytes.len() > 0 && bytes[bytes.len() - 1] == c;
    proof {
        if r {
            let last = bytes@.len() - 1;
            let n = lemma_ascii_byte_is_char(text@, last);
            lemma_scalar_bytes(text@[n]);
            lemma_encode_len(text@.skip(n));
            assert(n == text@.len() - 1);
            assert(bytes@.take(last) =~= bytes@.drop_last());
            assert(text@.take(n) =~= text@.drop_last());
        } else if text@.len() > 0 {
            let n = text@.len() - 1;
            lemma_scalar_bytes(text@[n]);
            if text@.last() as int == c {
                lemma_ascii_char_is_byte(text@, n);
                let tail = seq![text@[n]];
                assert(text@ =~= text@.take(n) + tail);
                lemma_encode_append(text@.take(n), tail);
                assert(tail =~= tail.take(1));
                lemma_ascii_prefix(tail, 1);
            }
        }
    }
    r
}

/// The text without a newline at its end.
pub(crate) fn trim_newline(text: &str) -> (r: &str)
    ensures
        r@ == without_trailing_newline(text@),
{
    if ends_with_ascii(text, LF) {
        let last: usize = text.as_bytes().len() - 1;
        let (head, _) = text.split_at(last);
        proof {
            let bytes = encode_utf8(text@);
            assert(bytes.subrange(0, last as int) =~= bytes.drop_last());
            lemma_encode_injective(head@, text@.drop_last());
        }
        head
    } else {
        text
    }
}

/// Whether two texts are equal.
pub(crate) fn same_text(a: &str, b: &str) -> (r: bool)
    ensures
        r == (a@ == b@),
{
    let left = a.as_bytes();
    let right = b.as_bytes();
    if left.len() != right.len() {
        return false;
    }
    let mut i: usize = 0;
    while i < left.len()
        invariant
            i <= left@.len(),
            left@.len() == right@.len(),
            left@ == encode_utf8(a@),
            right@ == encode_utf8(b@),
            forall|j: int| 0 <= j < i ==> left@[j] == right@[j],
        decreases left@.len() - i,
    {
        if left[i] != right[i] {
            return false;
        }
        i = i + 1;
    }
    proof {
        assert(left@ =~= right@);
        lemma_encode_injective(a@, b@);
    }
    true
}

} // verus!
