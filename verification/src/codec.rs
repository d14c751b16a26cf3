use vstd::prelude::*;
use vstd::utf8::{
    codepoint_width_2, codepoint_width_3, codepoint_width_4, decode_first_scalar, encode_scalar,
    has_width_1_encoding, has_width_2_encoding, has_width_3_encoding, has_width_4_encoding,
    decode_utf8_first_scalar, is_continuation_byte, is_scalar, last_continuation_byte, leading_byte_width_1,
    leading_byte_width_2, leading_byte_width_3, leading_byte_width_4, length_of_first_scalar,
    pop_first_scalar, second_last_continuation_byte, take_first_scalar, third_last_continuation_byte,
    valid_first_scalar, valid_utf8,
};
use crate::value::Error;

verus! {

/// The number of bytes of the UTF-8 sequence that a byte starts: one for
/// ASCII, two to four for the leading bytes of longer sequences that can
/// encode a scalar, and zero for any other byte.
pub open spec fn sequence_length_spec(byte: u8) -> nat {
    if byte <= 0x7f {
        1
    } else if 0xc2 <= byte <= 0xdf {
        2
    } else if 0xe0 <= byte <= 0xef {
        3
    } else if 0xf0 <= byte <= 0xf4 {
        4
    } else {
        0
    }
}

/// The scalar that `bytes` encode when they are exactly one well-formed
/// UTF-8 sequence (not overlong, not a surrogate, at most U+10FFFF).
pub open spec fn decode_sequence_spec(bytes: Seq<u8>) -> Option<u32> {
    if bytes.len() > 0 && valid_first_scalar(bytes) && length_of_first_scalar(bytes)
        == bytes.len() {
        Some(decode_first_scalar(bytes))
    } else {
        None
    }
}

/// The scalar value an integer names, or `NumberExpected` when it names none.
pub open spec fn code_point_spec(number: i64) -> Result<u32, Error> {
    if 0 <= number <= 0x10ffff && !(0xd800 <= number <= 0xdfff) {
        Ok(number as u32)
    } else {
        Err(Error::NumberExpected)
    }
}

proof fn lemma_width_1(first: u8)
    by (bit_vector)
    requires
        first <= 0x7f,
    ensures
        (first & 0x7f) as u32 == first as u32,
{
}

proof fn lemma_width_2(first: u8, second: u8)
    by (bit_vector)
    requires
        0xc0 <= first <= 0xdf,
        0x80 <= second <= 0xbf,
    ensures
        codepoint_width_2(first, second) >= 0x80 <==> first >= 0xc2,
        codepoint_width_2(first, second) <= 0x7ff,
{
}

proof fn lemma_width_3(first: u8, second: u8, third: u8)
    by (bit_vector)
    requires
        0xe0 <= first <= 0xef,
        0x80 <= second <= 0xbf,
        0x80 <= third <= 0xbf,
    ensures
        codepoint_width_3(first, second, third) >= 0x800 <==> (first != 0xe0 || second >= 0xa0),
        (0xd800 <= codepoint_width_3(first, second, third) <= 0xdfff) <==> (first == 0xed
            && second >= 0xa0),
        codepoint_width_3(first, second, third) <= 0xffff,
{
}

proof fn lemma_width_4(first: u8, second: u8, third: u8, fourth: u8)
    by (bit_vector)
    requires
        0xf0 <= first <= 0xf7,
        0x80 <= second <= 0xbf,
        0x80 <= third <= 0xbf,
        0x80 <= fourth <= 0xbf,
    ensures
        (0x10000 <= codepoint_width_4(first, second, third, fourth) <= 0x10ffff) <==> (first
            <= 0xf4 && (first != 0xf0 || second >= 0x90) && (first != 0xf4 || second < 0x90)),
{
}

/// Returns the length of the UTF-8 sequence that a byte starts, or zero.
pub fn utf8_sequence_length(byte: u8) -> (r: usize)
    ensures
        r == sequence_length_spec(byte),
{
    if byte <= 0x7f {
        1
    } else if 0xc2 <= byte && byte <= 0xdf {
        2
    } else if 0xe0 <= byte && byte <= 0xef {
        3
    } else if 0xf0 <= byte && byte <= 0xf4 {
        4
    } else {
        0
    }
}

fn continuation(byte: u8) -> (r: bool)
    ensures
        r == is_continuation_byte(byte),
{
    0x80 <= byte && byte < 0xc0
}

/// Decodes a byte sequence that is exactly one UTF-8 encoded scalar.
pub fn utf8_decode_sequence(bytes: &[u8]) -> (r: Option<u32>)
    ensures
        r == decode_sequence_spec(bytes@),
{
    let n = bytes.len();
    if n == 1 {
        let first = bytes[0];
        proof {
            if first <= 0x7f {
                lemma_width_1(first);
            }
        }
        if first < 0x80 {
            Some(first as u32)
        } else {
            None
        }
    } else if n == 2 {
        let first = bytes[0];
        let second = bytes[1];
        proof {
            if 0xc0 <= first <= 0xdf && is_continuation_byte(second) {
                lemma_width_2(first, second);
            }
        }
        if 0xc2 <= first && first < 0xe0 && continuation(second) {
            Some((((first & 0x1f) as u32) << 6) | ((second & 0x3f) as u32))
        } else {
            None
        }
    } else if n == 3 {
        let first = bytes[0];
        let second = bytes[1];
        let third = bytes[2];
        proof {
            if 0xe0 <= first <= 0xef && is_continuation_byte(second) && is_continuation_byte(
                third,
            ) {
                lemma_width_3(first, second, third);
            }
        }
        if 0xe0 <= first && first < 0xf0 && continuation(second) && continuation(third) && (first
            != 0xe0 || second >= 0xa0) && (first != 0xed || second < 0xa0) {
            Some(
                (((first & 0x0f) as u32) << 12) | (((second & 0x3f) as u32) << 6) | ((third
                    & 0x3f) as u32),
            )
        } else {
            None
        }
    } else if n == 4 {
        let first = bytes[0];
        let second = bytes[1];
        let third = bytes[2];
        let fourth = bytes[3];
        proof {
            if 0xf0 <= first <= 0xf7 && is_continuation_byte(second) && is_continuation_byte(
                third,
            ) && is_continuation_byte(fourth) {
                lemma_width_4(first, second, third, fourth);
            }
        }
        if 0xf0 <= first && first < 0xf5 && continuation(second) && continuation(third)
            && continuation(fourth) && (first != 0xf0 || second >= 0x90) && (first != 0xf4
            || second < 0x90) {
            Some(
                (((first & 0x07) as u32) << 18) | (((second & 0x3f) as u32) << 12) | (((third
                    & 0x3f) as u32) << 6) | ((fourth & 0x3f) as u32),
            )
        } else {
            None
        }
    } else {
        None
    }
}

proof fn lemma_encode_width_2(c: u32)
    by (bit_vector)
    requires
        0x80 <= c <= 0x7ff,
    ensures
        0xc2 <= leading_byte_width_2(c) <= 0xdf,
        0x80 <= last_continuation_byte(c) <= 0xbf,
        codepoint_width_2(leading_byte_width_2(c), last_continuation_byte(c)) == c,
{
}

proof fn lemma_encode_width_3(c: u32)
    by (bit_vector)
    requires
        0x800 <= c <= 0xffff,
    ensures
        0xe0 <= leading_byte_width_3(c) <= 0xef,
        0x80 <= second_last_continuation_byte(c) <= 0xbf,
        0x80 <= last_continuation_byte(c) <= 0xbf,
        codepoint_width_3(
            leading_byte_width_3(c),
            second_last_continuation_byte(c),
            last_continuation_byte(c),
        ) == c,
{
}

proof fn lemma_encode_width_4(c: u32)
    by (bit_vector)
    requires
        0x10000 <= c <= 0x10ffff,
    ensures
        0xf0 <= leading_byte_width_4(c) <= 0xf4,
        0x80 <= third_last_continuation_byte(c) <= 0xbf,
        0x80 <= second_last_continuation_byte(c) <= 0xbf,
        0x80 <= last_continuation_byte(c) <= 0xbf,
        codepoint_width_4(
            leading_byte_width_4(c),
            third_last_continuation_byte(c),
            second_last_continuation_byte(c),
            last_continuation_byte(c),
        ) == c,
{
}

proof fn lemma_encode_width_1(c: u32)
    by (bit_vector)
    requires
        c <= 0x7f,
    ensures
        leading_byte_width_1(c) <= 0x7f,
        leading_byte_width_1(c) as u32 == c,
        (leading_byte_width_1(c) & 0x7f) as u32 == c,
{
}

/// Decoding the UTF-8 encoding of a scalar gives the scalar back.
pub proof fn lemma_decode_encode(c: u32)
    requires
        is_scalar(c),
    ensures
        decode_sequence_spec(encode_scalar(c)) == Some(c),
{
    let b = encode_scalar(c);
    if has_width_1_encoding(c) {
        lemma_encode_width_1(c);
    } else if has_width_2_encoding(c) {
        lemma_encode_width_2(c);
    } else if has_width_3_encoding(c) {
        lemma_encode_width_3(c);
    } else {
        lemma_encode_width_4(c);
    }
}

/// A well-formed sequence is the UTF-8 encoding of the scalar it decodes to.
pub proof fn lemma_encode_decode(bytes: Seq<u8>)
    requires
        decode_sequence_spec(bytes) is Some,
    ensures
        is_scalar(decode_sequence_spec(bytes)->Some_0),
        encode_scalar(decode_sequence_spec(bytes)->Some_0) == bytes,
{
    let c = decode_first_scalar(bytes);
    lemma_sequence_length_of_valid(bytes);
    assert(pop_first_scalar(bytes) =~= Seq::<u8>::empty());
    assert(valid_utf8(pop_first_scalar(bytes)));
    assert(valid_utf8(bytes));
    decode_utf8_first_scalar(bytes);
    assert(take_first_scalar(bytes) =~= bytes);
    if bytes[0] <= 0x7f {
        lemma_width_1(bytes[0]);
    } else if 0xc0 <= bytes[0] <= 0xdf {
        lemma_width_2(bytes[0], bytes[1]);
    } else if 0xe0 <= bytes[0] <= 0xef {
        lemma_width_3(bytes[0], bytes[1], bytes[2]);
    }
    assert(0 <= c <= 0x10ffff && !(0xd800 <= c <= 0xdfff));
    assert((c as char) as u32 == c);
    assert(is_scalar(c)) by {
        lemma_decode_encode_scalar_range(c);
    }
}

/// A value that is no surrogate and at most U+10FFFF is a scalar.
proof fn lemma_decode_encode_scalar_range(c: u32)
    by (bit_vector)
    requires
        c <= 0x10ffff,
        !(0xd800 <= c <= 0xdfff),
    ensures
        is_scalar(c),
{
}

/// A well-formed sequence is as long as its first byte announces.
pub proof fn lemma_sequence_length_of_valid(bytes: Seq<u8>)
    requires
        decode_sequence_spec(bytes) is Some,
    ensures
        sequence_length_spec(bytes[0]) == bytes.len(),
{
    if bytes.len() == 2 && 0xc0 <= bytes[0] <= 0xdf {
        lemma_width_2(bytes[0], bytes[1]);
    } else if bytes.len() == 4 && 0xf0 <= bytes[0] <= 0xf7 {
        lemma_width_4(bytes[0], bytes[1], bytes[2], bytes[3]);
    }
}

/// Returns the scalar value an integer names.
pub fn code_point(number: i64) -> (r: Result<u32, Error>)
    ensures
        r == code_point_spec(number),
        r matches Ok(c) ==> is_scalar(c),
{
    if number < 0 || number > 0x10ffff {
        return Err(Error::NumberExpected);
    }
    let c = number as u32;
    if 0xd800 <= c && c <= 0xdfff {
        return Err(Error::NumberExpected);
    }
    Ok(c)
}

/// Writes the UTF-8 encoding of a scalar to the front of `bytes` and
/// returns its length; the other bytes stay as they were.
pub fn encode_scalar_into(c: u32, bytes: &mut [u8; 4]) -> (r: usize)
    requires
        is_scalar(c),
    ensures
        r == encode_scalar(c).len(),
        1 <= r <= 4,
        final(bytes)@.subrange(0, r as int) == encode_scalar(c),
        final(bytes)@.subrange(r as int, 4) == old(bytes)@.subrange(r as int, 4),
{
    if c <= 0x7f {
        bytes[0] = (c & 0x7f) as u8;
        1
    } else if c <= 0x7ff {
        bytes[0] = 0xc0 | ((c >> 6) & 0x1f) as u8;
        bytes[1] = 0x80 | (c & 0x3f) as u8;
        2
    } else if c <= 0xffff {
        bytes[0] = 0xe0 | ((c >> 12) & 0x0f) as u8;
        bytes[1] = 0x80 | ((c >> 6) & 0x3f) as u8;
        bytes[2] = 0x80 | (c & 0x3f) as u8;
        3
    } else {
        bytes[0] = 0xf0 | ((c >> 18) & 0x7) as u8;
        bytes[1] = 0x80 | ((c >> 12) & 0x3f) as u8;
        bytes[2] = 0x80 | ((c >> 6) & 0x3f) as u8;
        bytes[3] = 0x80 | (c & 0x3f) as u8;
        4
    }
}

/// Writes the UTF-8 encoding of the scalar an integer names to the front of
/// `bytes` and returns its length.
pub fn encode_utf8_code_point(number: i64, bytes: &mut [u8; 4]) -> (r: Result<usize, Error>)
    ensures
        match code_point_spec(number) {
            Ok(c) => r == Ok::<usize, Error>(encode_scalar(c).len() as usize)
                && final(bytes)@.subrange(0, encode_scalar(c).len() as int) == encode_scalar(c),
            Err(e) => r == Err::<usize, Error>(e) && final(bytes)@ == old(bytes)@,
        },
{
    let c = code_point(number)?;
    Ok(encode_scalar_into(c, bytes))
}

/// The scalar that replaces a malformed sequence.
pub const REPLACEMENT_CODE_POINT: u32 = 0xfffd;

/// True when a sequence of `length` bytes starts `bytes` and one of its
/// bytes after the first that `bytes` holds is no continuation byte.
pub open spec fn has_invalid_continuation(bytes: Seq<u8>, length: nat) -> bool {
    length > 1 && exists|i: int|
        1 <= i < bytes.len() && i < length && !is_continuation_byte(#[trigger] bytes[i])
}

/// Decodes UTF-8 `bytes` into at most `maximum` scalars: the scalars, the
/// number of bytes they took, and whether decoding stopped at a malformed
/// sequence in strict mode. Decoding stops early at a sequence cut off by
/// the end of the input unless the input is final or the sequence is
/// already malformed; a malformed sequence otherwise decodes to U+FFFD in
/// place of its first byte.
pub open spec fn decode_stream(bytes: Seq<u8>, maximum: nat, final_input: bool, strict: bool) -> (
    Seq<u32>,
    nat,
    bool,
)
    decreases bytes.len(),
{
    if bytes.len() == 0 || maximum == 0 {
        (seq![], 0, false)
    } else {
        let length = sequence_length_spec(bytes[0]);
        if length == 1 {
            let rest = decode_stream(bytes.drop_first(), (maximum - 1) as nat, final_input, strict);
            (seq![bytes[0] as u32] + rest.0, rest.1 + 1, rest.2)
        } else {
            let code_point = if length > 1 && bytes.len() >= length {
                decode_sequence_spec(bytes.subrange(0, length as int))
            } else {
                None
            };
            if code_point is None && length > 1 && bytes.len() < length && !final_input
                && !has_invalid_continuation(bytes, length) {
                (seq![], 0, false)
            } else if code_point is Some {
                let rest = decode_stream(
                    bytes.subrange(length as int, bytes.len() as int),
                    (maximum - 1) as nat,
                    final_input,
                    strict,
                );
                (seq![code_point->Some_0] + rest.0, rest.1 + length, rest.2)
            } else if strict {
                (seq![], 0, true)
            } else {
                let rest = decode_stream(bytes.drop_first(), (maximum - 1) as nat, final_input, strict);
                (seq![REPLACEMENT_CODE_POINT] + rest.0, rest.1 + 1, rest.2)
            }
        }
    }
}

/// Decodes UTF-8 bytes into at most `maximum` scalars; see `decode_stream`.
pub fn decode_buffer(bytes: &[u8], maximum: usize, final_input: bool, strict: bool) -> (r: (
    Vec<u32>,
    usize,
    bool,
))
    ensures
        (r.0@, r.1 as nat, r.2) == decode_stream(bytes@, maximum as nat, final_input, strict),
        r.0@.len() <= maximum,
        r.1 <= bytes@.len(),
{
    let input_length = bytes.len();
    let mut code_points: Vec<u32> = Vec::new();
    let mut consumed: usize = 0;
    let ghost whole = decode_stream(bytes@, maximum as nat, final_input, strict);
    proof {
        assert(bytes@.subrange(0, input_length as int) =~= bytes@);
        assert(Seq::<u32>::empty() + whole.0 =~= whole.0);
    }
    while consumed < input_length && code_points.len() < maximum
        invariant
            input_length == bytes@.len(),
            consumed <= input_length,
            code_points@.len() <= maximum,
            whole == decode_stream(bytes@, maximum as nat, final_input, strict),
            ({
                let rest = decode_stream(
                    bytes@.subrange(consumed as int, input_length as int),
                    (maximum - code_points@.len()) as nat,
                    final_input,
                    strict,
                );
                whole == (code_points@ + rest.0, (consumed + rest.1) as nat, rest.2)
            }),
        ensures
            consumed <= input_length,
            code_points@.len() <= maximum,
            whole == (code_points@, consumed as nat, false),
        decreases input_length - consumed,
    {
        let ghost rest_bytes = bytes@.subrange(consumed as int, input_length as int);
        let ghost budget = (maximum - code_points@.len()) as nat;
        let b = bytes[consumed];
        assert(rest_bytes[0] == b);
        let sequence_length = utf8_sequence_length(b);
        if sequence_length == 1 {
            proof {
                assert(rest_bytes.drop_first() =~= bytes@.subrange(consumed + 1, input_length as int));
                let rest = decode_stream(rest_bytes.drop_first(), (budget - 1) as nat, final_input, strict);
                assert(code_points@.push(b as u32) + rest.0 =~= code_points@ + (seq![b as u32] + rest.0));
            }
            code_points.push(b as u32);
            consumed = consumed + 1;
            continue;
        }
        let available = input_length - consumed;
        let mut has_invalid = false;
        if sequence_length > 1 {
            let limit = if available < sequence_length { input_length } else { consumed + sequence_length };
            let mut i = consumed + 1;
            while i < limit
                invariant
                    consumed + 1 <= i,
                    i <= limit,
                    limit <= input_length,
                    limit == consumed + (if available < sequence_length { available } else { sequence_length }),
                    input_length == bytes@.len(),
                    rest_bytes == bytes@.subrange(consumed as int, input_length as int),
                    has_invalid <==> exists|j: int|
                        1 <= j < i - consumed && !is_continuation_byte(#[trigger] rest_bytes[j]),
                decreases limit - i,
            {
                if !continuation(bytes[i]) {
                    has_invalid = true;
                }
                proof {
                    assert(rest_bytes[(i - consumed) as int] == bytes@[i as int]);
                    if has_invalid {
                        if !is_continuation_byte(bytes@[i as int]) {
                            assert(!is_continuation_byte(rest_bytes[(i - consumed) as int]));
                        }
                    }
                }
                i = i + 1;
            }
        }
        assert(has_invalid == has_invalid_continuation(rest_bytes, sequence_length as nat));
        let code_point = if sequence_length > 1 && available >= sequence_length {
            proof {
                assert(bytes@.subrange(consumed as int, (consumed + sequence_length) as int) =~= rest_bytes.subrange(0, sequence_length as int));
            }
            utf8_decode_sequence(&bytes[consumed..consumed + sequence_length])
        } else {
            None
        };
        if code_point.is_none() && sequence_length > 1 && available < sequence_length && !final_input
            && !has_invalid {
            proof {
                assert(code_points@ + Seq::<u32>::empty() =~= code_points@);
            }
            break;
        }
        match code_point {
            Some(c) => {
                proof {
                    assert(rest_bytes.subrange(sequence_length as int, rest_bytes.len() as int) =~= bytes@.subrange(
                        (consumed + sequence_length) as int,
                        input_length as int,
                    ));
                    let rest = decode_stream(rest_bytes.subrange(sequence_length as int, rest_bytes.len() as int), (budget - 1) as nat, final_input, strict);
                    assert(code_points@.push(c) + rest.0 =~= code_points@ + (seq![c] + rest.0));
                }
                code_points.push(c);
                consumed = consumed + sequence_length;
            },
            None => {
                if strict {
                    return (code_points, consumed, true);
                }
                proof {
                    assert(rest_bytes.drop_first() =~= bytes@.subrange(consumed + 1, input_length as int));
                    let rest = decode_stream(rest_bytes.drop_first(), (budget - 1) as nat, final_input, strict);
                    assert(code_points@.push(REPLACEMENT_CODE_POINT) + rest.0 =~= code_points@ + (seq![REPLACEMENT_CODE_POINT] + rest.0));
                }
                code_points.push(REPLACEMENT_CODE_POINT);
                consumed = consumed + 1;
            },
        }
    }
    (code_points, consumed, false)
}

/// The UTF-8 encodings of `scalars`, one after another.
pub open spec fn encode_all(scalars: Seq<u32>) -> Seq<u8>
    decreases scalars.len(),
{
    if scalars.len() == 0 {
        seq![]
    } else {
        encode_scalar(scalars[0]) + encode_all(scalars.drop_first())
    }
}

/// Decoding the UTF-8 encodings of scalars gives the scalars back and takes
/// all of the bytes, whether the input is final or not and whether decoding
/// is strict or not, as long as at least that many scalars may be decoded.
pub proof fn lemma_decode_stream_encoded(scalars: Seq<u32>, maximum: nat, final_input: bool, strict: bool)
    requires
        forall|i: int| 0 <= i < scalars.len() ==> is_scalar(#[trigger] scalars[i]),
        scalars.len() <= maximum,
    ensures
        decode_stream(encode_all(scalars), maximum, final_input, strict) == (
            scalars,
            encode_all(scalars).len(),
            false,
        ),
    decreases scalars.len(),
{
    if scalars.len() == 0 {
        assert(encode_all(scalars) =~= Seq::<u8>::empty());
    } else {
        let c = scalars[0];
        let rest = scalars.drop_first();
        assert forall|i: int| 0 <= i < rest.len() implies is_scalar(#[trigger] rest[i]) by {
            assert(rest[i] == scalars[i + 1]);
        }
        lemma_decode_stream_encoded(rest, (maximum - 1) as nat, final_input, strict);
        let e = encode_scalar(c);
        let tail = encode_all(rest);
        let bytes = encode_all(scalars);
        assert(bytes == e + tail);
        lemma_decode_encode(c);
        lemma_sequence_length_of_valid(e);
        assert(bytes[0] == e[0]);
        let length = sequence_length_spec(bytes[0]);
        assert(length == e.len());
        if length == 1 {
            lemma_encode_width_1(c);
            assert(bytes.drop_first() =~= tail);
            assert(bytes[0] as u32 == c);
        } else {
            assert(bytes.subrange(0, length as int) =~= e);
            assert(bytes.subrange(length as int, bytes.len() as int) =~= tail);
        }
        assert(seq![c] + rest =~= scalars);
    }
}


/// The UTF-8 encoding of a scalar is one to four bytes long, its first byte
/// announces its length, and every byte after the first is a continuation
/// byte.
proof fn lemma_encoding_shape(c: u32)
    requires
        is_scalar(c),
    ensures
        1 <= encode_scalar(c).len() <= 4,
        sequence_length_spec(encode_scalar(c)[0]) == encode_scalar(c).len(),
        forall|i: int|
            1 <= i < encode_scalar(c).len() ==> is_continuation_byte(#[trigger] encode_scalar(c)[i]),
{
    lemma_decode_encode(c);
    lemma_sequence_length_of_valid(encode_scalar(c));
    if has_width_1_encoding(c) {
        lemma_encode_width_1(c);
    } else if has_width_2_encoding(c) {
        lemma_encode_width_2(c);
    } else if has_width_3_encoding(c) {
        lemma_encode_width_3(c);
    } else {
        lemma_encode_width_4(c);
    }
}

/// Every byte after the first of a well-formed sequence is a continuation
/// byte.
proof fn lemma_valid_sequence_continuations(bytes: Seq<u8>)
    requires
        decode_sequence_spec(bytes) is Some,
    ensures
        forall|i: int| 1 <= i < bytes.len() ==> is_continuation_byte(#[trigger] bytes[i]),
{
    lemma_encode_decode(bytes);
    lemma_encoding_shape(decode_sequence_spec(bytes)->Some_0);
}

/// Each step of decoding takes at least one byte, so a limit on the number
/// of scalars that is at least the number of bytes does not change the
/// outcome.
proof fn lemma_decode_stream_budget(
    bytes: Seq<u8>,
    first: nat,
    second: nat,
    final_input: bool,
    strict: bool,
)
    requires
        bytes.len() <= first,
        bytes.len() <= second,
    ensures
        decode_stream(bytes, first, final_input, strict) == decode_stream(
            bytes,
            second,
            final_input,
            strict,
        ),
    decreases bytes.len(),
{
    if bytes.len() > 0 {
        let length = sequence_length_spec(bytes[0]);
        lemma_decode_stream_budget(
            bytes.drop_first(),
            (first - 1) as nat,
            (second - 1) as nat,
            final_input,
            strict,
        );
        if length > 1 && bytes.len() >= length {
            lemma_decode_stream_budget(
                bytes.subrange(length as int, bytes.len() as int),
                (first - 1) as nat,
                (second - 1) as nat,
                final_input,
                strict,
            );
        }
    }
}

/// Lenient decoding of final input never stops early: it takes every byte
/// and reports no malformed sequence, as long as the limit on the number of
/// scalars is at least the number of bytes.
pub proof fn lemma_decode_lenient_final_takes_all(bytes: Seq<u8>, maximum: nat)
    requires
        bytes.len() <= maximum,
    ensures
        decode_stream(bytes, maximum, true, false).1 == bytes.len(),
        !decode_stream(bytes, maximum, true, false).2,
    decreases bytes.len(),
{
    if bytes.len() > 0 {
        let length = sequence_length_spec(bytes[0]);
        lemma_decode_lenient_final_takes_all(bytes.drop_first(), (maximum - 1) as nat);
        if length > 1 && bytes.len() >= length {
            lemma_decode_lenient_final_takes_all(
                bytes.subrange(length as int, bytes.len() as int),
                (maximum - 1) as nat,
            );
        }
    }
}

/// Lenient decoding of final input resynchronises at every ASCII byte: the
/// scalars decoded from `before`, an ASCII byte and `after` are the scalars
/// of `before` alone, that byte, and the scalars of `after` alone. So no
/// malformed sequence swallows the ASCII byte that follows it; each one
/// stands for one U+FFFD per byte it leaves behind, and decoding goes on
/// with the next byte.
pub proof fn lemma_decode_lenient_ascii_split(before: Seq<u8>, ascii: u8, after: Seq<u8>, maximum: nat)
    requires
        ascii <= 0x7f,
        before.len() + 1 + after.len() <= maximum,
    ensures
        decode_stream(before + seq![ascii] + after, maximum, true, false) == (
            decode_stream(before, maximum, true, false).0 + seq![ascii as u32] + decode_stream(
                after,
                maximum,
                true,
                false,
            ).0,
            (before.len() + 1 + after.len()) as nat,
            false,
        ),
    decreases before.len(),
{
    let whole = before + seq![ascii] + after;
    lemma_decode_lenient_final_takes_all(before, maximum);
    lemma_decode_lenient_final_takes_all(after, maximum);
    lemma_decode_stream_budget(after, (maximum - 1) as nat, maximum, true, false);
    if before.len() == 0 {
        assert(whole =~= seq![ascii] + after);
        assert(whole[0] == ascii);
        assert(whole.drop_first() =~= after);
        assert(decode_stream(before, maximum, true, false).0 =~= Seq::<u32>::empty());
        assert(Seq::<u32>::empty() + seq![ascii as u32] =~= seq![ascii as u32]);
    } else {
        let b = before[0];
        assert(whole[0] == b);
        let length = sequence_length_spec(b);
        let code = if length > 1 && before.len() >= length {
            decode_sequence_spec(before.subrange(0, length as int))
        } else {
            None
        };
        let whole_code = if length > 1 && whole.len() >= length {
            decode_sequence_spec(whole.subrange(0, length as int))
        } else {
            None
        };
        if length > 1 && before.len() >= length {
            assert(whole.subrange(0, length as int) =~= before.subrange(0, length as int));
        } else if length > 1 && whole.len() >= length {
            let window = whole.subrange(0, length as int);
            assert(window[before.len() as int] == ascii);
            if decode_sequence_spec(window) is Some {
                lemma_valid_sequence_continuations(window);
                assert(is_continuation_byte(window[before.len() as int]));
            }
        }
        assert(whole_code == code);
        let step: nat = if code is Some { length } else { 1 };
        let value: u32 = if length == 1 {
            b as u32
        } else if code is Some {
            code->Some_0
        } else {
            REPLACEMENT_CODE_POINT
        };
        let rest = before.subrange(step as int, before.len() as int);
        assert(whole.subrange(step as int, whole.len() as int) =~= rest + seq![ascii] + after);
        assert(before.drop_first() =~= before.subrange(1, before.len() as int));
        assert(whole.drop_first() =~= whole.subrange(1, whole.len() as int));
        lemma_decode_lenient_ascii_split(rest, ascii, after, (maximum - 1) as nat);
        lemma_decode_stream_budget(rest, (maximum - 1) as nat, maximum, true, false);
        let tail = decode_stream(rest, maximum, true, false);
        let tail_after = decode_stream(after, maximum, true, false);
        assert(decode_stream(before, maximum, true, false).0 == seq![value] + tail.0);
        assert(decode_stream(whole, maximum, true, false).0 == seq![value] + (tail.0 + seq![
            ascii as u32,
        ] + tail_after.0));
        assert(seq![value] + (tail.0 + seq![ascii as u32] + tail_after.0) =~= (seq![value]
            + tail.0) + seq![ascii as u32] + tail_after.0);
    }
}

/// Decoding input that is not final stops before a character that the end
/// of the input cuts off, in strict and lenient mode alike: the scalars
/// whose encodings come first are decoded, the bytes of the cut character
/// are left for the next chunk, and no malformed sequence is reported.
pub proof fn lemma_decode_stream_defers_cut_character(
    scalars: Seq<u32>,
    cut: u32,
    kept: nat,
    maximum: nat,
    strict: bool,
)
    requires
        forall|i: int| 0 <= i < scalars.len() ==> is_scalar(#[trigger] scalars[i]),
        is_scalar(cut),
        0 < kept < encode_scalar(cut).len(),
        scalars.len() <= maximum,
    ensures
        decode_stream(
            encode_all(scalars) + encode_scalar(cut).subrange(0, kept as int),
            maximum,
            false,
            strict,
        ) == (scalars, encode_all(scalars).len(), false),
    decreases scalars.len(),
{
    let piece = encode_scalar(cut).subrange(0, kept as int);
    let bytes = encode_all(scalars) + piece;
    if scalars.len() == 0 {
        assert(encode_all(scalars) =~= Seq::<u8>::empty());
        assert(bytes =~= piece);
        if maximum > 0 {
            lemma_encoding_shape(cut);
            let length = sequence_length_spec(bytes[0]);
            assert(bytes[0] == encode_scalar(cut)[0]);
            assert(length == encode_scalar(cut).len());
            assert forall|i: int| 1 <= i < bytes.len() && i < length implies is_continuation_byte(
                #[trigger] bytes[i],
            ) by {
                assert(bytes[i] == encode_scalar(cut)[i]);
            }
            assert(!has_invalid_continuation(bytes, length));
        }
    } else {
        let c = scalars[0];
        let rest = scalars.drop_first();
        assert forall|i: int| 0 <= i < rest.len() implies is_scalar(#[trigger] rest[i]) by {
            assert(rest[i] == scalars[i + 1]);
        }
        lemma_decode_stream_defers_cut_character(rest, cut, kept, (maximum - 1) as nat, strict);
        let e = encode_scalar(c);
        let tail = encode_all(rest) + piece;
        assert(encode_all(scalars) == e + encode_all(rest));
        assert(bytes =~= e + tail);
        lemma_decode_encode(c);
        lemma_sequence_length_of_valid(e);
        assert(bytes[0] == e[0]);
        let length = sequence_length_spec(bytes[0]);
        assert(length == e.len());
        if length == 1 {
            lemma_encode_width_1(c);
            assert(bytes.drop_first() =~= tail);
            assert(bytes[0] as u32 == c);
        } else {
            assert(bytes.subrange(0, length as int) =~= e);
            assert(bytes.subrange(length as int, bytes.len() as int) =~= tail);
        }
        assert(seq![c] + rest =~= scalars);
    }
}

/// Decoding gives at most `maximum` scalars and takes at most the bytes it
/// is given.
proof fn lemma_decode_stream_bounds(bytes: Seq<u8>, maximum: nat, final_input: bool, strict: bool)
    ensures
        decode_stream(bytes, maximum, final_input, strict).0.len() <= maximum,
        decode_stream(bytes, maximum, final_input, strict).1 <= bytes.len(),
    decreases bytes.len(),
{
    if bytes.len() > 0 && maximum > 0 {
        let length = sequence_length_spec(bytes[0]);
        lemma_decode_stream_bounds(bytes.drop_first(), (maximum - 1) as nat, final_input, strict);
        if length > 1 && bytes.len() >= length {
            lemma_decode_stream_bounds(
                bytes.subrange(length as int, bytes.len() as int),
                (maximum - 1) as nat,
                final_input,
                strict,
            );
        }
    }
}

/// The scalar that the sequence the first byte of `bytes` announces
/// decodes to, when `bytes` hold all of it.
spec fn first_window_code(bytes: Seq<u8>) -> Option<u32> {
    let length = sequence_length_spec(bytes[0]);
    if length > 1 && bytes.len() >= length {
        decode_sequence_spec(bytes.subrange(0, length as int))
    } else {
        None
    }
}

/// True when decoding stops at the first sequence of `bytes` to wait for
/// more input.
spec fn first_deferred(bytes: Seq<u8>, final_input: bool) -> bool {
    let length = sequence_length_spec(bytes[0]);
    first_window_code(bytes) is None && length > 1 && bytes.len() < length && !final_input
        && !has_invalid_continuation(bytes, length)
}

/// When decoding `first` as input that is not final does not wait at its
/// first sequence, decoding `first` followed by `second` reads that
/// sequence the same way and does not wait at it either.
proof fn lemma_chunk_first_sequence(first: Seq<u8>, second: Seq<u8>, final_input: bool)
    requires
        first.len() > 0,
        !first_deferred(first, false),
    ensures
        first_window_code(first + second) == first_window_code(first),
        !first_deferred(first + second, final_input),
        (first + second)[0] == first[0],
{
    let whole = first + second;
    let length = sequence_length_spec(first[0]);
    assert(whole[0] == first[0]);
    if length > 1 && first.len() >= length {
        assert(whole.subrange(0, length as int) =~= first.subrange(0, length as int));
    } else if length > 1 {
        let i = choose|i: int|
            1 <= i < first.len() && i < length && !is_continuation_byte(#[trigger] first[i]);
        assert(whole[i] == first[i]);
        assert(has_invalid_continuation(whole, length));
        if whole.len() >= length {
            let window = whole.subrange(0, length as int);
            assert(window[i] == first[i]);
            if decode_sequence_spec(window) is Some {
                lemma_valid_sequence_continuations(window);
                assert(is_continuation_byte(window[i]));
            }
        }
    }
}

/// How many bytes the first step of decoding `bytes` takes when it neither
/// waits nor stops.
spec fn first_step(bytes: Seq<u8>) -> nat {
    if first_window_code(bytes) is Some {
        sequence_length_spec(bytes[0])
    } else {
        1
    }
}

/// The scalar the first step of decoding `bytes` gives when it neither
/// waits nor stops.
spec fn first_value(bytes: Seq<u8>) -> u32 {
    if sequence_length_spec(bytes[0]) == 1 {
        bytes[0] as u32
    } else if first_window_code(bytes) is Some {
        first_window_code(bytes)->Some_0
    } else {
        REPLACEMENT_CODE_POINT
    }
}

/// True when strict decoding stops at the first sequence of `bytes`.
spec fn first_fails(bytes: Seq<u8>, strict: bool) -> bool {
    first_window_code(bytes) is None && sequence_length_spec(bytes[0]) != 1 && strict
}

/// One step of decoding, when it neither waits nor stops.
proof fn lemma_decode_stream_step(bytes: Seq<u8>, maximum: nat, final_input: bool, strict: bool)
    requires
        bytes.len() > 0,
        maximum > 0,
        !first_deferred(bytes, final_input),
        !first_fails(bytes, strict),
    ensures
        1 <= first_step(bytes) <= bytes.len(),
        ({
            let rest = decode_stream(
                bytes.subrange(first_step(bytes) as int, bytes.len() as int),
                (maximum - 1) as nat,
                final_input,
                strict,
            );
            decode_stream(bytes, maximum, final_input, strict) == (
                seq![first_value(bytes)] + rest.0,
                rest.1 + first_step(bytes),
                rest.2,
            )
        }),
{
    assert(bytes.drop_first() =~= bytes.subrange(1, bytes.len() as int));
}

/// Decoding in chunks gives what decoding all at once gives: decoding
/// `first` as input that is not final, then the bytes of `first` it left
/// together with `second`, yields the scalars, the byte count and the
/// malformed flag of decoding `first` followed by `second` in one go. When
/// the first chunk stops at a malformed sequence in strict mode, decoding
/// both at once stops there too.
#[verifier::spinoff_prover]
pub proof fn lemma_decode_stream_chunks(
    first: Seq<u8>,
    second: Seq<u8>,
    maximum: nat,
    final_input: bool,
    strict: bool,
)
    ensures
        ({
            let head = decode_stream(first, maximum, false, strict);
            let tail = decode_stream(
                first.subrange(head.1 as int, first.len() as int) + second,
                (maximum - head.0.len()) as nat,
                final_input,
                strict,
            );
            decode_stream(first + second, maximum, final_input, strict) == if head.2 {
                head
            } else {
                (head.0 + tail.0, head.1 + tail.1, tail.2)
            }
        }),
    decreases first.len(),
{
    let whole = first + second;
    let head = decode_stream(first, maximum, false, strict);
    assert(first.subrange(0, first.len() as int) =~= first);
    if first.len() == 0 || maximum == 0 {
        assert(first.len() == 0 ==> whole =~= second);
        let tail = decode_stream(whole, maximum, final_input, strict);
        assert(Seq::<u32>::empty() + tail.0 =~= tail.0);
    } else if first_deferred(first, false) {
        let tail = decode_stream(whole, maximum, final_input, strict);
        assert(Seq::<u32>::empty() + tail.0 =~= tail.0);
    } else {
        lemma_chunk_first_sequence(first, second, final_input);
        if !first_fails(first, strict) {
            let step = first_step(first);
            let value = first_value(first);
            assert(first_step(whole) == step);
            assert(first_value(whole) == value);
            lemma_decode_stream_step(first, maximum, false, strict);
            lemma_decode_stream_step(whole, maximum, final_input, strict);
            let rest = first.subrange(step as int, first.len() as int);
            assert(whole.subrange(step as int, whole.len() as int) =~= rest + second);
            lemma_decode_stream_chunks(rest, second, (maximum - 1) as nat, final_input, strict);
            let inner = decode_stream(rest, (maximum - 1) as nat, false, strict);
            lemma_decode_stream_bounds(rest, (maximum - 1) as nat, false, strict);
            assert(rest.subrange(inner.1 as int, rest.len() as int) =~= first.subrange(
                head.1 as int,
                first.len() as int,
            ));
            let tail = decode_stream(
                rest.subrange(inner.1 as int, rest.len() as int) + second,
                (maximum - 1 - inner.0.len()) as nat,
                final_input,
                strict,
            );
            assert(seq![value] + (inner.0 + tail.0) =~= (seq![value] + inner.0) + tail.0);
        }
    }
}

/// What strict decoding takes of its input is exactly the UTF-8 encoding of
/// the scalars it gives.
pub proof fn lemma_decode_strict_takes_encodings(bytes: Seq<u8>, maximum: nat, final_input: bool)
    ensures
        forall|i: int|
            0 <= i < decode_stream(bytes, maximum, final_input, true).0.len() ==> is_scalar(
                #[trigger] decode_stream(bytes, maximum, final_input, true).0[i],
            ),
        decode_stream(bytes, maximum, final_input, true).1 <= bytes.len(),
        bytes.subrange(0, decode_stream(bytes, maximum, final_input, true).1 as int) == encode_all(
            decode_stream(bytes, maximum, final_input, true).0,
        ),
    decreases bytes.len(),
{
    let d = decode_stream(bytes, maximum, final_input, true);
    if bytes.len() == 0 || maximum == 0 || first_deferred(bytes, final_input) || first_fails(
        bytes,
        true,
    ) {
        assert(bytes.subrange(0, 0) =~= Seq::<u8>::empty());
        assert(encode_all(Seq::<u32>::empty()) =~= Seq::<u8>::empty());
    } else {
        lemma_decode_stream_step(bytes, maximum, final_input, true);
        let step = first_step(bytes);
        let value = first_value(bytes);
        let rest = bytes.subrange(step as int, bytes.len() as int);
        lemma_decode_strict_takes_encodings(rest, (maximum - 1) as nat, final_input);
        let inner = decode_stream(rest, (maximum - 1) as nat, final_input, true);
        let window = bytes.subrange(0, step as int);
        if sequence_length_spec(bytes[0]) == 1 {
            lemma_width_1(bytes[0]);
            let c = bytes[0] as u32;
            assert(has_width_1_encoding(c));
            lemma_encode_width_1(c);
            assert(encode_scalar(c) =~= window);
            assert(is_scalar(c));
        } else {
            assert(first_window_code(bytes) is Some);
            lemma_encode_decode(window);
        }
        assert(is_scalar(value));
        assert(encode_scalar(value) == window);
        let out = seq![value] + inner.0;
        assert(out[0] == value);
        assert(out.drop_first() =~= inner.0);
        assert(encode_all(out) == encode_scalar(value) + encode_all(inner.0));
        assert(bytes.subrange(0, d.1 as int) =~= window + rest.subrange(0, inner.1 as int));
        assert forall|i: int| 0 <= i < out.len() implies is_scalar(#[trigger] out[i]) by {
            if i > 0 {
                assert(out[i] == inner.0[i - 1]);
            }
        }
    }
}

/// Strict and lenient decoding agree until strict decoding meets a
/// malformed sequence: where strict decoding reports none, both give the
/// same result, and where it stops, lenient decoding has given the same
/// scalars and then a U+FFFD in place of the malformed sequence.
pub proof fn lemma_decode_strict_lenient_agree(bytes: Seq<u8>, maximum: nat, final_input: bool)
    ensures
        ({
            let strict = decode_stream(bytes, maximum, final_input, true);
            let lenient = decode_stream(bytes, maximum, final_input, false);
            &&& !strict.2 ==> strict == lenient
            &&& strict.2 ==> {
                &&& strict.0.len() < lenient.0.len()
                &&& lenient.0.subrange(0, strict.0.len() as int) == strict.0
                &&& lenient.0[strict.0.len() as int] == REPLACEMENT_CODE_POINT
                &&& strict.1 < lenient.1
            }
        }),
    decreases bytes.len(),
{
    if bytes.len() == 0 || maximum == 0 || first_deferred(bytes, final_input) {
    } else if first_fails(bytes, true) {
        assert(!first_fails(bytes, false));
        lemma_decode_stream_step(bytes, maximum, final_input, false);
        let lenient = decode_stream(bytes, maximum, final_input, false);
        assert(lenient.0[0] == REPLACEMENT_CODE_POINT);
        assert(lenient.0.subrange(0, 0) =~= Seq::<u32>::empty());
    } else {
        lemma_decode_stream_step(bytes, maximum, final_input, true);
        lemma_decode_stream_step(bytes, maximum, final_input, false);
        let step = first_step(bytes);
        let value = first_value(bytes);
        let rest = bytes.subrange(step as int, bytes.len() as int);
        lemma_decode_strict_lenient_agree(rest, (maximum - 1) as nat, final_input);
        let inner_strict = decode_stream(rest, (maximum - 1) as nat, final_input, true);
        let inner_lenient = decode_stream(rest, (maximum - 1) as nat, final_input, false);
        let strict = decode_stream(bytes, maximum, final_input, true);
        let lenient = decode_stream(bytes, maximum, final_input, false);
        if inner_strict.2 {
            assert(lenient.0[strict.0.len() as int] == inner_lenient.0[inner_strict.0.len() as int]);
            assert(lenient.0.subrange(0, strict.0.len() as int) =~= seq![value]
                + inner_lenient.0.subrange(0, inner_strict.0.len() as int));
        }
    }
}

} // verus!
