//! Lossy UTF-8 decoding of a byte stream.
use vstd::prelude::*;
use vstd::slice::slice_subrange;
use vstd::utf8::*;

verus! {

/// U+FFFD REPLACEMENT CHARACTER, which stands for every ill-formed byte sequence.
pub const REPLACEMENT: char = '\u{FFFD}';

/// The bytes are the beginning (possibly the whole) of the encoding of some character.
pub open spec fn begins_scalar(bytes: Seq<u8>) -> bool {
    exists|c: char| bytes.is_prefix_of(#[trigger] encode_scalar(c as u32))
}

/// How many bytes the ill-formed sequence at the front of `bytes` has: as many as still begin the
/// encoding of some character, and at least one.
pub open spec fn ill_formed_len(bytes: Seq<u8>) -> int
    recommends
        bytes.len() > 0,
        !valid_first_scalar(bytes),
{
    if bytes.len() >= 3 && begins_scalar(bytes.take(3)) {
        3
    } else if bytes.len() >= 2 && begins_scalar(bytes.take(2)) {
        2
    } else {
        1
    }
}

/// How many bytes the first decoded character of `bytes` takes up.
pub open spec fn unit_len(bytes: Seq<u8>) -> int
    recommends
        bytes.len() > 0,
{
    if valid_first_scalar(bytes) {
        length_of_first_scalar(bytes)
    } else {
        ill_formed_len(bytes)
    }
}

/// The first decoded character of `bytes`.
pub open spec fn unit_char(bytes: Seq<u8>) -> char
    recommends
        bytes.len() > 0,
{
    if valid_first_scalar(bytes) {
        decode_first_scalar(bytes) as char
    } else {
        REPLACEMENT
    }
}

/// The second byte of a multi-byte encoding may follow its first byte.
spec fn pair_fits(b0: u8, b1: u8) -> bool {
    if b0 == 0xE0 {
        0xA0 <= b1 <= 0xBF
    } else if b0 == 0xED {
        0x80 <= b1 <= 0x9F
    } else if b0 == 0xF0 {
        0x90 <= b1 <= 0xBF
    } else if b0 == 0xF4 {
        0x80 <= b1 <= 0x8F
    } else {
        0xC2 <= b0 <= 0xF4 && 0x80 <= b1 <= 0xBF
    }
}

proof fn lemma_width_2(b0: u8, b1: u8)
    by (bit_vector)
    requires
        is_leading_byte_width_2(b0),
        is_continuation_byte(b1),
    ensures
        0x80 <= codepoint_width_2(b0, b1) <==> 0xC2 <= b0,
        codepoint_width_2(b0, b1) <= 0x7FF,
{
}

proof fn lemma_width_3(b0: u8, b1: u8, b2: u8)
    by (bit_vector)
    requires
        is_leading_byte_width_3(b0),
        is_continuation_byte(b1),
        is_continuation_byte(b2),
    ensures
        0x800 <= codepoint_width_3(b0, b1, b2) <==> (b0 != 0xE0 || 0xA0 <= b1),
        0xD800 <= codepoint_width_3(b0, b1, b2) <= 0xDFFF <==> (b0 == 0xED && 0xA0 <= b1),
        codepoint_width_3(b0, b1, b2) <= 0xFFFF,
{
}

proof fn lemma_width_4(b0: u8, b1: u8, b2: u8, b3: u8)
    by (bit_vector)
    requires
        is_leading_byte_width_4(b0),
        is_continuation_byte(b1),
        is_continuation_byte(b2),
        is_continuation_byte(b3),
    ensures
        0x10000 <= codepoint_width_4(b0, b1, b2, b3) <==> (b0 != 0xF0 || 0x90 <= b1),
        codepoint_width_4(b0, b1, b2, b3) <= 0x10FFFF <==> (b0 < 0xF4 || (b0 == 0xF4 && b1
            <= 0x8F)),
{
}

/// Well-formedness of the first character, byte by byte.
proof fn lemma_valid_first_scalar(bytes: Seq<u8>)
    ensures
        valid_first_scalar(bytes) <==> {
            ||| bytes.len() >= 1 && bytes[0] <= 0x7F
            ||| bytes.len() >= 2 && bytes[0] <= 0xDF && pair_fits(bytes[0], bytes[1])
            ||| bytes.len() >= 3 && 0xE0 <= bytes[0] <= 0xEF && pair_fits(bytes[0], bytes[1])
                && is_continuation_byte(bytes[2])
            ||| bytes.len() >= 4 && 0xF0 <= bytes[0] && pair_fits(bytes[0], bytes[1])
                && is_continuation_byte(bytes[2]) && is_continuation_byte(bytes[3])
        },
{
    if bytes.len() >= 1 && is_leading_byte_width_1(bytes[0]) {
        let b = bytes[0];
        assert((b & 0x7F) as u32 <= 0x7F) by (bit_vector);
    } else if bytes.len() >= 2 && is_leading_byte_width_2(bytes[0]) && is_continuation_byte(
        bytes[1],
    ) {
        lemma_width_2(bytes[0], bytes[1]);
    } else if bytes.len() >= 3 && is_leading_byte_width_3(bytes[0]) && is_continuation_byte(
        bytes[1],
    ) && is_continuation_byte(bytes[2]) {
        lemma_width_3(bytes[0], bytes[1], bytes[2]);
    } else if bytes.len() >= 4 && is_leading_byte_width_4(bytes[0]) && is_continuation_byte(
        bytes[1],
    ) && is_continuation_byte(bytes[2]) && is_continuation_byte(bytes[3]) {
        lemma_width_4(bytes[0], bytes[1], bytes[2], bytes[3]);
    }
}

proof fn lemma_encoding_is_one_scalar(c: char)
    ensures
        valid_first_scalar(encode_scalar(c as u32)),
        length_of_first_scalar(encode_scalar(c as u32)) == encode_scalar(c as u32).len(),
        decode_first_scalar(encode_scalar(c as u32)) as char == c,
{
    let one = seq![c];
    assert(one.drop_first() =~= Seq::<char>::empty());
    assert(encode_utf8(one.drop_first()) =~= Seq::<u8>::empty());
    assert(encode_utf8(one) =~= encode_scalar(c as u32));
    encode_utf8_first_scalar(one);
    char_u32_cast(c, decode_first_scalar(encode_utf8(one)));
}

/// The beginning of a well-formed character begins a character.
proof fn lemma_begins_scalar_intro(bytes: Seq<u8>, whole: Seq<u8>)
    requires
        valid_first_scalar(whole),
        bytes.len() <= length_of_first_scalar(whole),
        bytes =~= whole.take(bytes.len() as int),
    ensures
        begins_scalar(bytes),
{
    let first = take_first_scalar(whole);
    lemma_valid_first_scalar(whole);
    lemma_valid_first_scalar(first);
    assert(pop_first_scalar(first) =~= Seq::<u8>::empty());
    assert(valid_utf8(pop_first_scalar(first)));
    assert(valid_utf8(first));
    decode_utf8_first_scalar(first);
    let c = decode_first_scalar(first) as char;
    assert(take_first_scalar(first) =~= first);
    assert(bytes.is_prefix_of(encode_scalar(c as u32)));
}

/// Two bytes begin a character, byte by byte.
proof fn lemma_begins_scalar_2(bytes: Seq<u8>)
    requires
        bytes.len() == 2,
    ensures
        begins_scalar(bytes) <==> pair_fits(bytes[0], bytes[1]),
{
    if begins_scalar(bytes) {
        let c = choose|c: char| bytes.is_prefix_of(#[trigger] encode_scalar(c as u32));
        let e = encode_scalar(c as u32);
        lemma_encoding_is_one_scalar(c);
        lemma_valid_first_scalar(e);
        assert(bytes[0] == e[0] && bytes[1] == e[1]);
    }
    if pair_fits(bytes[0], bytes[1]) {
        let whole = bytes + seq![0x80u8, 0x80u8];
        lemma_valid_first_scalar(whole);
        lemma_begins_scalar_intro(bytes, whole);
    }
}

/// Three bytes begin a character, byte by byte.
proof fn lemma_begins_scalar_3(bytes: Seq<u8>)
    requires
        bytes.len() == 3,
    ensures
        begins_scalar(bytes) <==> 0xE0 <= bytes[0] && pair_fits(bytes[0], bytes[1])
            && is_continuation_byte(bytes[2]),
{
    if begins_scalar(bytes) {
        let c = choose|c: char| bytes.is_prefix_of(#[trigger] encode_scalar(c as u32));
        let e = encode_scalar(c as u32);
        lemma_encoding_is_one_scalar(c);
        lemma_valid_first_scalar(e);
        assert(bytes[0] == e[0] && bytes[1] == e[1] && bytes[2] == e[2]);
    }
    if 0xE0 <= bytes[0] && pair_fits(bytes[0], bytes[1]) && is_continuation_byte(bytes[2]) {
        let whole = bytes + seq![0x80u8];
        lemma_valid_first_scalar(whole);
        lemma_begins_scalar_intro(bytes, whole);
    }
}

/// What begins a character also does without its last bytes.
proof fn lemma_begins_scalar_take(bytes: Seq<u8>, n: int)
    requires
        begins_scalar(bytes),
        0 <= n <= bytes.len(),
    ensures
        begins_scalar(bytes.take(n)),
{
    let c = choose|c: char| bytes.is_prefix_of(#[trigger] encode_scalar(c as u32));
    assert(bytes.take(n).is_prefix_of(encode_scalar(c as u32)));
}

/// A well-formed character at the front of bytes is the encoding of a character.
proof fn lemma_first_scalar_is_encoding(bytes: Seq<u8>) -> (c: char)
    requires
        valid_first_scalar(bytes),
    ensures
        take_first_scalar(bytes) == encode_scalar(c as u32),
{
    let first = take_first_scalar(bytes);
    lemma_valid_first_scalar(bytes);
    lemma_valid_first_scalar(first);
    assert(pop_first_scalar(first) =~= Seq::<u8>::empty());
    assert(valid_utf8(pop_first_scalar(first)));
    assert(valid_utf8(first));
    decode_utf8_first_scalar(first);
    assert(take_first_scalar(first) =~= first);
    decode_first_scalar(first) as char
}

/// An ill-formed sequence is taken as a whole: bytes that are no whole character and, if there are
/// several, begin one, and that the next byte does not continue.
pub proof fn lemma_ill_formed(bad: Seq<u8>, rest: Seq<u8>)
    requires
        bad.len() > 0,
        bad.len() == 1 || begins_scalar(bad),
        forall|c: char| bad != #[trigger] encode_scalar(c as u32),
        rest.len() > 0 ==> !begins_scalar(bad.push(rest[0])),
    ensures
        !valid_first_scalar(bad + rest),
        unit_len(bad + rest) == bad.len(),
        unit_char(bad + rest) == '\u{FFFD}',
{
    let all = bad + rest;
    let k = bad.len() as int;
    if valid_first_scalar(all) {
        let c = lemma_first_scalar_is_encoding(all);
        let e = encode_scalar(c as u32);
        let n = e.len() as int;
        lemma_valid_first_scalar(all);
        if n > k {
            assert(bad.push(rest[0]) =~= all.take(k + 1));
            assert(bad.push(rest[0]).is_prefix_of(e));
        } else if k > 1 {
            let d = choose|d: char| bad.is_prefix_of(#[trigger] encode_scalar(d as u32));
            lemma_encoding_is_one_scalar(d);
            assert(encode_scalar(d as u32)[0] == all[0]);
            assert(bad =~= e);
        } else {
            assert(bad =~= e);
        }
        assert(false);
    }
    lemma_valid_first_scalar(all);
    assert(all.take(k) =~= bad);
    if k >= 4 {
        let d = choose|d: char| bad.is_prefix_of(#[trigger] encode_scalar(d as u32));
        assert(bad =~= encode_scalar(d as u32));
    }
    if rest.len() > 0 {
        assert(all.take(k + 1) =~= bad.push(rest[0]));
    }
    if all.len() >= 3 && begins_scalar(all.take(3)) && k < 3 {
        lemma_begins_scalar_take(all.take(3), k + 1);
        assert(all.take(3).take(k + 1) =~= all.take(k + 1));
    }
    if k == 3 {
        lemma_begins_scalar_take(bad, 2);
    }
}

/// The length of the first decoded character, byte by byte.
proof fn lemma_unit_len(bytes: Seq<u8>)
    requires
        bytes.len() > 0,
    ensures
        1 <= unit_len(bytes) <= bytes.len(),
        valid_first_scalar(bytes) && bytes[0] <= 0x7F ==> unit_len(bytes) == 1,
        valid_first_scalar(bytes) && 0x7F < bytes[0] <= 0xDF ==> unit_len(bytes) == 2,
        valid_first_scalar(bytes) && 0xE0 <= bytes[0] <= 0xEF ==> unit_len(bytes) == 3,
        valid_first_scalar(bytes) && 0xF0 <= bytes[0] ==> unit_len(bytes) == 4,
        !valid_first_scalar(bytes) ==> unit_len(bytes) == if bytes.len() < 2 || !pair_fits(
            bytes[0],
            bytes[1],
        ) {
            1
        } else if bytes.len() < 3 || !is_continuation_byte(bytes[2]) {
            2int
        } else {
            3int
        },
{
    lemma_valid_first_scalar(bytes);
    if bytes.len() >= 2 {
        lemma_begins_scalar_2(bytes.take(2));
    }
    if bytes.len() >= 3 {
        lemma_begins_scalar_3(bytes.take(3));
    }
}

/// The text of `bytes` with every ill-formed sequence replaced by one U+FFFD.
pub open spec fn decode_lossy(bytes: Seq<u8>) -> Seq<char>
    decreases bytes.len(),
{
    if bytes.len() == 0 {
        Seq::empty()
    } else {
        proof {
            lemma_unit_len_bounds(bytes);
        }
        seq![unit_char(bytes)] + decode_lossy(bytes.skip(unit_len(bytes)))
    }
}

/// The first character of `bytes` is ill-formed and reaches their end: more input may complete it.
pub open spec fn is_undecided(bytes: Seq<u8>) -> bool {
    bytes.len() > 0 && !valid_first_scalar(bytes) && unit_len(bytes) == bytes.len()
}

/// The bytes at the end of `bytes` that are not decoded until more input arrives.
pub open spec fn held_back(bytes: Seq<u8>) -> Seq<u8>
    decreases bytes.len(),
{
    if bytes.len() == 0 || is_undecided(bytes) {
        bytes
    } else {
        proof {
            lemma_unit_len_bounds(bytes);
        }
        held_back(bytes.skip(unit_len(bytes)))
    }
}

/// The text of the bytes before those that are held back.
pub open spec fn decode_ready(bytes: Seq<u8>) -> Seq<char> {
    decode_lossy(bytes.take(bytes.len() - held_back(bytes).len()))
}

/// The first decoded character takes up at least one byte and at most all of them.
pub proof fn lemma_unit_len_bounds(bytes: Seq<u8>)
    requires
        bytes.len() > 0,
    ensures
        1 <= unit_len(bytes) <= bytes.len(),
{
    lemma_unit_len(bytes);
}

/// What follows a decided character does not change it.
proof fn lemma_unit_extend(a: Seq<u8>, b: Seq<u8>)
    requires
        a.len() > 0,
        !is_undecided(a),
    ensures
        valid_first_scalar(a + b) == valid_first_scalar(a),
        unit_len(a + b) == unit_len(a),
        unit_char(a + b) == unit_char(a),
        !is_undecided(a + b),
{
    lemma_valid_first_scalar(a);
    lemma_valid_first_scalar(a + b);
    lemma_unit_len(a);
    lemma_unit_len(a + b);
}

/// The bytes after the first character do not determine it.
proof fn lemma_unit_truncate(bytes: Seq<u8>, n: int)
    requires
        bytes.len() > 0,
        unit_len(bytes) <= n <= bytes.len(),
    ensures
        valid_first_scalar(bytes.take(n)) == valid_first_scalar(bytes),
        unit_len(bytes.take(n)) == unit_len(bytes),
        unit_char(bytes.take(n)) == unit_char(bytes),
{
    lemma_valid_first_scalar(bytes);
    lemma_unit_len(bytes);
    lemma_valid_first_scalar(bytes.take(n));
    lemma_unit_len(bytes.take(n));
}

/// What is held back is the end of the bytes.
pub proof fn lemma_held_back_is_suffix(bytes: Seq<u8>)
    ensures
        held_back(bytes).len() <= bytes.len(),
        held_back(bytes) == bytes.skip(bytes.len() - held_back(bytes).len()),
    decreases bytes.len(),
{
    if bytes.len() == 0 || is_undecided(bytes) {
        assert(bytes.skip(0) =~= bytes);
    } else {
        lemma_unit_len_bounds(bytes);
        let n = unit_len(bytes);
        lemma_held_back_is_suffix(bytes.skip(n));
        assert(bytes.skip(bytes.len() - held_back(bytes).len()) =~= bytes.skip(n).skip(
            bytes.len() - n - held_back(bytes).len(),
        ));
    }
}

/// One step of incremental decoding.
pub proof fn lemma_ready_step(bytes: Seq<u8>)
    ensures
        bytes.len() == 0 || is_undecided(bytes) ==> decode_ready(bytes) == Seq::<char>::empty()
            && held_back(bytes) == bytes,
        bytes.len() > 0 && !is_undecided(bytes) ==> decode_ready(bytes) == seq![unit_char(bytes)]
            + decode_ready(bytes.skip(unit_len(bytes))) && held_back(bytes) == held_back(
            bytes.skip(unit_len(bytes)),
        ),
{
    if bytes.len() == 0 || is_undecided(bytes) {
        assert(bytes.take(0).len() == 0);
    } else {
        let n = unit_len(bytes);
        lemma_unit_len_bounds(bytes);
        lemma_held_back_is_suffix(bytes.skip(n));
        let k = bytes.len() - held_back(bytes).len();
        lemma_unit_truncate(bytes, k);
        assert(bytes.take(k).skip(n) =~= bytes.skip(n).take(k - n));
    }
}

/// ASCII bytes, and only those, decode to ASCII characters, each to itself.
pub proof fn lemma_unit_ascii(bytes: Seq<u8>)
    requires
        bytes.len() > 0,
    ensures
        bytes[0] < 0x80 ==> unit_len(bytes) == 1 && unit_char(bytes) as int == bytes[0],
        bytes[0] < 0x80 ==> !is_undecided(bytes),
        bytes[0] >= 0x80 ==> unit_char(bytes) as int >= 0x80,
        bytes[0] >= 0x80 ==> forall|i: int| 0 <= i < unit_len(bytes) ==> #[trigger] bytes[i] >= 0x80,
{
    lemma_unit_len(bytes);
    lemma_valid_first_scalar(bytes);
    let b = bytes[0];
    if valid_first_scalar(bytes) {
        if b < 0x80 {
            assert((b & 0x7F) as u32 == b) by (bit_vector)
                requires
                    b < 0x80,
            ;
        } else if b <= 0xDF {
            lemma_width_2(b, bytes[1]);
        } else if b <= 0xEF {
            lemma_width_3(b, bytes[1], bytes[2]);
        } else {
            lemma_width_4(b, bytes[1], bytes[2], bytes[3]);
        }
    }
}

/// An ASCII byte at the front decodes to itself, and the rest is decoded on its own.
pub proof fn lemma_ready_first_ascii(bytes: Seq<u8>)
    requires
        bytes.len() > 0,
        bytes[0] < 0x80,
    ensures
        decode_ready(bytes).len() > 0,
        decode_ready(bytes)[0] as int == bytes[0],
        decode_ready(bytes).skip(1) == decode_ready(bytes.skip(1)),
        held_back(bytes) == held_back(bytes.skip(1)),
{
    lemma_unit_ascii(bytes);
    lemma_ready_step(bytes);
    assert(decode_ready(bytes).skip(1) =~= decode_ready(bytes.skip(1)));
}

/// Text that ends in an ASCII character comes from bytes that end in it, if none are held back.
pub proof fn lemma_ready_last_char(bytes: Seq<u8>)
    requires
        decode_ready(bytes).len() > 0,
        (decode_ready(bytes).last() as int) < 0x80,
        held_back(bytes).len() == 0,
    ensures
        bytes.len() > 0,
        decode_ready(bytes).last() as int == bytes.last(),
    decreases bytes.len(),
{
    lemma_ready_step(bytes);
    lemma_unit_len_bounds(bytes);
    lemma_unit_ascii(bytes);
    let rest = bytes.skip(unit_len(bytes));
    lemma_ready_step(rest);
    if rest.len() > 0 {
        lemma_ready_last_char(rest);
    }
}

/// Bytes that more input may complete are no ASCII bytes, and at most three.
pub proof fn lemma_undecided(bytes: Seq<u8>)
    requires
        is_undecided(bytes),
    ensures
        bytes.len() <= 3,
        bytes[0] >= 0x80,
        decode_ready(bytes) == Seq::<char>::empty(),
        held_back(bytes) == bytes,
{
    lemma_unit_len(bytes);
    lemma_unit_ascii(bytes);
    lemma_ready_step(bytes);
}

/// The beginnings of U+FEFF are bytes that more input may complete.
pub proof fn lemma_bom_prefix()
    ensures
        is_undecided(seq![0xEFu8]),
        is_undecided(seq![0xEFu8, 0xBBu8]),
{
    let one = seq![0xEFu8];
    let two = seq![0xEFu8, 0xBBu8];
    lemma_valid_first_scalar(one);
    lemma_unit_len(one);
    lemma_valid_first_scalar(two);
    lemma_unit_len(two);
}

/// The bytes of U+FEFF.
pub proof fn lemma_bom_is_encoded()
    ensures
        encode_utf8(seq!['\u{FEFF}']) == seq![0xEFu8, 0xBBu8, 0xBFu8],
{
    let mark = seq!['\u{FEFF}'];
    assert(encode_utf8(mark.drop_first()) =~= Seq::<u8>::empty());
    assert(leading_byte_width_3(0xFEFF) == 0xEF) by (bit_vector);
    assert(second_last_continuation_byte(0xFEFF) == 0xBB) by (bit_vector);
    assert(last_continuation_byte(0xFEFF) == 0xBF) by (bit_vector);
    assert(mark[0] as u32 == 0xFEFF);
    assert(has_width_3_encoding(0xFEFF));
    assert(encode_utf8(mark) =~= seq![0xEFu8, 0xBBu8, 0xBFu8]);
}

/// A run of well-formed text decodes to itself, whatever follows.
pub proof fn lemma_well_formed_run(text: Seq<char>, bytes: Seq<u8>)
    ensures
        decode_lossy(encode_utf8(text) + bytes) == text + decode_lossy(bytes),
        decode_ready(encode_utf8(text) + bytes) == text + decode_ready(bytes),
        held_back(encode_utf8(text) + bytes) == held_back(bytes),
    decreases text.len(),
{
    if text.len() == 0 {
        assert(encode_utf8(text) + bytes =~= bytes);
        assert(text + decode_lossy(bytes) =~= decode_lossy(bytes));
        assert(text + decode_ready(bytes) =~= decode_ready(bytes));
    } else {
        let first = encode_scalar(text[0] as u32);
        let rest = encode_utf8(text.drop_first()) + bytes;
        let all = encode_utf8(text) + bytes;
        lemma_encoding_is_one_scalar(text[0]);
        lemma_unit_extend(first, rest);
        assert(first + rest =~= all);
        assert(all.skip(first.len() as int) =~= rest);
        lemma_well_formed_run(text.drop_first(), bytes);
        lemma_ready_step(all);
        assert(seq![text[0]] + (text.drop_first() + decode_lossy(bytes)) =~= text + decode_lossy(
            bytes,
        ));
        assert(seq![text[0]] + (text.drop_first() + decode_ready(bytes)) =~= text + decode_ready(
            bytes,
        ));
    }
}

/// Decoding can stop at the held-back bytes and go on when more input has arrived.
pub proof fn lemma_ready_append(a: Seq<u8>, b: Seq<u8>)
    ensures
        decode_ready(a + b) == decode_ready(a) + decode_ready(held_back(a) + b),
        held_back(a + b) == held_back(held_back(a) + b),
    decreases a.len(),
{
    lemma_ready_step(a);
    if a.len() == 0 || is_undecided(a) {
        assert(decode_ready(a) + decode_ready(a + b) =~= decode_ready(a + b));
    } else {
        let n = unit_len(a);
        lemma_unit_len_bounds(a);
        lemma_unit_extend(a, b);
        lemma_ready_step(a + b);
        assert((a + b).skip(n) =~= a.skip(n) + b);
        lemma_ready_append(a.skip(n), b);
        assert(seq![unit_char(a)] + (decode_ready(a.skip(n)) + decode_ready(held_back(a) + b))
            =~= decode_ready(a) + decode_ready(held_back(a) + b));
    }
}

/// The held-back bytes are at most one ill-formed sequence, and holding them back again changes
/// nothing.
pub proof fn lemma_held_back_is_undecided(bytes: Seq<u8>)
    ensures
        held_back(bytes).len() == 0 || is_undecided(held_back(bytes)),
        held_back(held_back(bytes)) == held_back(bytes),
    decreases bytes.len(),
{
    if bytes.len() > 0 && !is_undecided(bytes) {
        lemma_unit_len_bounds(bytes);
        lemma_held_back_is_undecided(bytes.skip(unit_len(bytes)));
    }
}

/// The whole text is the text before the held-back bytes, and one U+FFFD for those, if there are
/// any.
pub proof fn lemma_lossy_is_ready_and_held_back(bytes: Seq<u8>)
    ensures
        decode_lossy(bytes) == decode_ready(bytes) + decode_lossy(held_back(bytes)),
        decode_lossy(held_back(bytes)) == if held_back(bytes).len() == 0 {
            Seq::<char>::empty()
        } else {
            seq![REPLACEMENT]
        },
    decreases bytes.len(),
{
    lemma_ready_step(bytes);
    if bytes.len() == 0 {
        assert(decode_ready(bytes) + decode_lossy(bytes) =~= decode_lossy(bytes));
    } else if is_undecided(bytes) {
        assert(decode_lossy(bytes.skip(unit_len(bytes))) =~= Seq::<char>::empty());
        assert(seq![REPLACEMENT] + Seq::<char>::empty() =~= seq![REPLACEMENT]);
        assert(decode_ready(bytes) + decode_lossy(bytes) =~= decode_lossy(bytes));
    } else {
        let n = unit_len(bytes);
        lemma_unit_len_bounds(bytes);
        lemma_lossy_is_ready_and_held_back(bytes.skip(n));
        assert(seq![unit_char(bytes)] + (decode_ready(bytes.skip(n)) + decode_lossy(
            held_back(bytes),
        )) =~= decode_ready(bytes) + decode_lossy(held_back(bytes)));
    }
}

fn pair_fits_exec(b0: u8, b1: u8) -> (r: bool)
    ensures
        r == pair_fits(b0, b1),
{
    match b0 {
        0xE0 => 0xA0 <= b1 && b1 <= 0xBF,
        0xED => 0x80 <= b1 && b1 <= 0x9F,
        0xF0 => 0x90 <= b1 && b1 <= 0xBF,
        0xF4 => 0x80 <= b1 && b1 <= 0x8F,
        _ => 0xC2 <= b0 && b0 <= 0xF4 && 0x80 <= b1 && b1 <= 0xBF,
    }
}

fn is_continuation(b: u8) -> (r: bool)
    ensures
        r == is_continuation_byte(b),
{
    0x80 <= b && b <= 0xBF
}

/// Whether a well-formed character stands at `start`, and how many bytes the character or the
/// ill-formed sequence there has.
fn scan_unit(bytes: &[u8], start: usize) -> (r: (bool, usize))
    requires
        start < bytes@.len(),
    ensures
        r.0 == valid_first_scalar(bytes@.skip(start as int)),
        r.1 == unit_len(bytes@.skip(start as int)),
        1 <= r.1 <= bytes@.len() - start,
{
    let ghost rest = bytes@.skip(start as int);
    proof {
        lemma_valid_first_scalar(rest);
        lemma_unit_len(rest);
    }
    let left: usize = bytes.len() - start;
    let b0: u8 = bytes[start];
    if b0 <= 0x7F {
        (true, 1)
    } else if left < 2 || !pair_fits_exec(b0, bytes[start + 1]) {
        (false, 1)
    } else if b0 <= 0xDF {
        (true, 2)
    } else if left < 3 || !is_continuation(bytes[start + 2]) {
        (false, 2)
    } else if b0 <= 0xEF {
        (true, 3)
    } else if left < 4 || !is_continuation(bytes[start + 3]) {
        (false, 3)
    } else {
        (true, 4)
    }
}

/// The error of `core::str::from_utf8`; nothing is claimed of it.
#[verifier::external_type_specification]
#[verifier::external_body]
pub struct ExUtf8Error(core::str::Utf8Error);

/// `core::str::from_utf8` gives back exactly the given bytes as a string slice when they are
/// well-formed UTF-8, and an error when they are not.
pub assume_specification[ core::str::from_utf8 ](v: &[u8]) -> (r: Result<
    &str,
    core::str::Utf8Error,
>)
    ensures
        r is Ok <==> valid_utf8(v@),
        r matches Ok(s) ==> encode_utf8(s@) == v@,
;

/// `valid`, `valid_end` and `end` are the chunk of `bytes` that begins at `start`: the longest run
/// of well-formed text there, where it ends, and where the ill-formed sequence behind it ends. That
/// sequence is empty only at the end of `bytes`.
pub open spec fn is_chunk(
    bytes: Seq<u8>,
    start: int,
    valid: Seq<char>,
    valid_end: int,
    end: int,
) -> bool {
    &&& start <= valid_end <= end <= bytes.len()
    &&& encode_utf8(valid) == bytes.subrange(start, valid_end)
    &&& if valid_end == bytes.len() {
        end == valid_end
    } else {
        &&& !valid_first_scalar(bytes.skip(valid_end))
        &&& end == valid_end + unit_len(bytes.skip(valid_end))
    }
}

/// What a chunk adds to the decoded text.
pub proof fn lemma_chunk(bytes: Seq<u8>, start: int, valid: Seq<char>, valid_end: int, end: int)
    requires
        0 <= start,
        is_chunk(bytes, start, valid, valid_end, end),
    ensures
        valid_end == end ==> decode_lossy(bytes.skip(start)) == valid,
        valid_end < end ==> decode_lossy(bytes.skip(start)) == valid.push(REPLACEMENT)
            + decode_lossy(bytes.skip(end)),
        end == bytes.len() ==> decode_ready(bytes.skip(start)) == valid,
        end == bytes.len() ==> held_back(bytes.skip(start)) == bytes.skip(valid_end),
        end < bytes.len() ==> decode_ready(bytes.skip(start)) == valid.push(REPLACEMENT)
            + decode_ready(bytes.skip(end)),
        end < bytes.len() ==> held_back(bytes.skip(start)) == held_back(bytes.skip(end)),
{
    let tail = bytes.skip(valid_end);
    assert(bytes.skip(start) =~= encode_utf8(valid) + tail);
    lemma_well_formed_run(valid, tail);
    lemma_ready_step(tail);
    if valid_end == end {
        assert(valid + decode_lossy(tail) =~= valid);
        assert(valid + decode_ready(tail) =~= valid);
    } else {
        assert(tail.skip(end - valid_end) =~= bytes.skip(end));
        assert(valid + (seq![REPLACEMENT] + decode_lossy(bytes.skip(end))) =~= valid.push(
            REPLACEMENT,
        ) + decode_lossy(bytes.skip(end)));
        assert(valid + (seq![REPLACEMENT] + decode_ready(bytes.skip(end))) =~= valid.push(
            REPLACEMENT,
        ) + decode_ready(bytes.skip(end)));
        if end == bytes.len() {
            assert(valid + decode_ready(tail) =~= valid);
        }
    }
}

/// One step of decoding: a run of well-formed text and the ill-formed sequence that ends it.
pub struct Utf8Chunk<'a> {
    /// The well-formed text.
    pub valid: &'a str,
    /// Where the well-formed text ends.
    pub valid_end: usize,
    /// Where the ill-formed sequence ends.
    pub end: usize,
}

/// What stands behind a run of well-formed text is ill-formed: no character stands there, the sequence
/// is one byte or begins a character, and with the next byte it begins none.
proof fn lemma_ill_formed_here(bytes: Seq<u8>)
    requires
        bytes.len() > 0,
        !valid_first_scalar(bytes),
    ensures
        forall|c: char| !(#[trigger] encode_scalar(c as u32)).is_prefix_of(bytes),
        unit_len(bytes) == 1 || begins_scalar(bytes.take(unit_len(bytes))),
        unit_len(bytes) < bytes.len() ==> !begins_scalar(bytes.take(unit_len(bytes) + 1)),
{
    lemma_valid_first_scalar(bytes);
    lemma_unit_len(bytes);
    let n = unit_len(bytes);
    assert forall|c: char| !(#[trigger] encode_scalar(c as u32)).is_prefix_of(bytes) by {
        let e = encode_scalar(c as u32);
        lemma_encoding_is_one_scalar(c);
        lemma_valid_first_scalar(e);
        if e.is_prefix_of(bytes) {
            assert(forall|i: int| 0 <= i < e.len() ==> e[i] == bytes[i]);
        }
    }
    if n < bytes.len() && begins_scalar(bytes.take(n + 1)) {
        if n == 3 {
            let c = choose|c: char|
                bytes.take(4).is_prefix_of(#[trigger] encode_scalar(c as u32));
            assert(encode_scalar(c as u32).is_prefix_of(bytes)) by {
                assert(encode_scalar(c as u32) =~= bytes.take(4));
            }
        }
    }
}

/// The chunk of `bytes` that begins at `start`. Its ill-formed sequence is empty only at the end of
/// `bytes`.
pub fn next_chunk(bytes: &[u8], start: usize) -> (r: Utf8Chunk<'_>)
    requires
        start <= bytes@.len(),
    ensures
        is_chunk(bytes@, start as int, r.valid@, r.valid_end as int, r.end as int),
        start <= r.valid_end <= r.end <= bytes@.len(),
        encode_utf8(r.valid@) == bytes@.subrange(start as int, r.valid_end as int),
        r.valid_end == r.end <==> r.valid_end == bytes@.len(),
        forall|c: char|
            r.valid_end < r.end ==> !(#[trigger] encode_scalar(c as u32)).is_prefix_of(
                bytes@.skip(r.valid_end as int),
            ),
        r.end - r.valid_end > 1 ==> exists|c: char|
            bytes@.subrange(r.valid_end as int, r.end as int).is_prefix_of(
                #[trigger] encode_scalar(c as u32),
            ),
        forall|c: char|
            r.valid_end < r.end < bytes@.len() ==> !bytes@.subrange(
                r.valid_end as int,
                r.end + 1,
            ).is_prefix_of(#[trigger] encode_scalar(c as u32)),
{
    let mut valid_end: usize = start;
    let mut end: usize = start;
    assert(valid_utf8(bytes@.subrange(start as int, start as int)));
    while end == valid_end && valid_end < bytes.len()
        invariant
            start <= valid_end <= end <= bytes@.len(),
            valid_utf8(bytes@.subrange(start as int, valid_end as int)),
            valid_end < end ==> !valid_first_scalar(bytes@.skip(valid_end as int)) && end
                - valid_end == unit_len(bytes@.skip(valid_end as int)),
        decreases bytes@.len() - valid_end, (if end == valid_end { 1int } else { 0int }),
    {
        let (well_formed, n) = scan_unit(bytes, valid_end);
        if well_formed {
            proof {
                let run = bytes@.subrange(start as int, bytes@.len() as int);
                let i = valid_end - start;
                assert(run.subrange(0, i) =~= bytes@.subrange(start as int, valid_end as int));
                assert(run.subrange(i, run.len() as int) =~= bytes@.skip(valid_end as int));
                partial_valid_utf8_extend(run, i);
                assert(run.subrange(0, i + n) =~= bytes@.subrange(start as int, valid_end + n));
            }
            valid_end = valid_end + n;
            end = valid_end;
        } else {
            end = valid_end + n;
        }
    }
    let valid = match core::str::from_utf8(slice_subrange(bytes, start, valid_end)) {
        Ok(text) => text,
        // Unreachable: the scan above has passed only well-formed characters.
        Err(_) => "",
    };
    proof {
        if valid_end < bytes@.len() {
            let tail = bytes@.skip(valid_end as int);
            lemma_ill_formed_here(tail);
            let n = unit_len(tail);
            assert(tail.take(n) =~= bytes@.subrange(valid_end as int, end as int));
            if end < bytes@.len() {
                assert(tail.take(n + 1) =~= bytes@.subrange(valid_end as int, end + 1));
            }
        }
    }
    Utf8Chunk { valid, valid_end, end }
}

} // verus!
