//! Conversions between texts and their bytes.

use crate::wire::{line_break_at, no_line_break};
use vstd::prelude::*;
use vstd::utf8::{
    decode_utf8, encode_scalar, encode_utf8, has_width_1_encoding, is_ascii_chars,
    is_ascii_chars_encode_utf8, last_continuation_byte, leading_byte_width_1,
    leading_byte_width_2, leading_byte_width_3, leading_byte_width_4,
    second_last_continuation_byte, third_last_continuation_byte, valid_utf8,
};

verus! {

/// The text that `bytes` encodes in UTF-8, if they encode one.
///
/// This calls [`String::from_utf8`], whose result is taken on trust: it is a
/// text exactly when the bytes are valid UTF-8, and then the text that they
/// decode to.
#[verifier::external_body]
pub(crate) fn text_from_utf8(bytes: &[u8]) -> (r: Option<String>)
    ensures
        r is Some <==> valid_utf8(bytes@),
        r matches Some(text) ==> text@ == decode_utf8(bytes@),
{
    String::from_utf8(bytes.to_vec()).ok()
}

/// The upper-case form of an ASCII letter; any other character is left as it is.
pub open spec fn upper(c: char) -> char {
    if 'a' <= c <= 'z' {
        ((c as u8) - 32) as char
    } else {
        c
    }
}

/// Whether `a` and `b` are the same text when the case of ASCII letters is left
/// out of account.
pub open spec fn same_ignoring_case(a: Seq<char>, b: Seq<char>) -> bool {
    a.len() == b.len() && forall|i: int| 0 <= i < a.len() ==> upper(#[trigger] a[i]) == upper(b[i])
}

/// The upper-case form of the byte of an ASCII letter; any other byte is left as it is.
fn upper_byte(b: u8) -> (r: u8)
    ensures
        r == if 97 <= b <= 122 {
            (b - 32) as u8
        } else {
            b
        },
{
    if 97 <= b && b <= 122 {
        b - 32
    } else {
        b
    }
}

/// Tests whether `text` is the ASCII word `word`, in any mix of upper and lower case.
pub(crate) fn eq_ignoring_case(text: &str, word: &str) -> (r: bool)
    requires
        is_ascii_chars(word@),
    ensures
        r == same_ignoring_case(text@, word@),
{
    broadcast use is_ascii_chars_encode_utf8;

    if !text.is_ascii() {
        proof {
            let i = choose|i: int| 0 <= i < text@.len() && !('\0' <= #[trigger] text@[i] <= '\u{7f}');
            if text@.len() == word@.len() {
                assert('\0' <= word@[i] <= '\u{7f}');
                assert(upper(text@[i]) != upper(word@[i]));
            }
        }
        return false;
    }
    let a = text.as_bytes();
    let b = word.as_bytes();
    if a.len() != b.len() {
        return false;
    }
    let mut i: usize = 0;
    while i < a.len()
        invariant
            i <= a.len(),
            a.len() == b.len(),
            a@.len() == text@.len(),
            b@.len() == word@.len(),
            is_ascii_chars(text@),
            is_ascii_chars(word@),
            forall|j: int| 0 <= j < a@.len() ==> text@[j] as u8 == #[trigger] a@[j],
            forall|j: int| 0 <= j < b@.len() ==> word@[j] as u8 == #[trigger] b@[j],
            forall|j: int| 0 <= j < i ==> upper(#[trigger] text@[j]) == upper(word@[j]),
        decreases a.len() - i,
    {
        let x = upper_byte(a[i]);
        let y = upper_byte(b[i]);
        assert('\0' <= text@[i as int] <= '\u{7f}');
        assert('\0' <= word@[i as int] <= '\u{7f}');
        assert(text@[i as int] as u8 == a@[i as int]);
        assert(word@[i as int] as u8 == b@[i as int]);
        assert(upper(text@[i as int]) as u8 == x);
        assert(upper(word@[i as int]) as u8 == y);
        if x != y {
            return false;
        }
        assert(upper(text@[i as int]) == upper(word@[i as int]));
        i = i + 1;
    }
    true
}

/// Whether a line break, a carriage return and then a line feed, starts at
/// position `i` of `text`.
pub open spec fn line_break_in(text: Seq<char>, i: int) -> bool {
    0 <= i && i + 1 < text.len() && text[i] == '\r' && text[i + 1] == '\n'
}

/// Whether `text` holds no line break.
pub open spec fn one_line(text: Seq<char>) -> bool {
    forall|i: int| !line_break_in(text, i)
}

/// The ASCII characters are the first 128 numbers, carriage return is number 13
/// and line feed number 10.
proof fn lemma_char_numbers(c: char)
    ensures
        (c as u32) < 128 ==> c as u8 == c as u32,
        c as u32 == 13 <==> c == '\r',
        c as u32 == 10 <==> c == '\n',
{
}

/// The bytes of a character: one byte, the character itself, for an ASCII
/// character, and up to four bytes beyond the ASCII range for any other.
proof fn lemma_scalar_bytes(c: char)
    ensures
        1 <= encode_scalar(c as u32).len() <= 4,
        (c as u32) < 128 ==> encode_scalar(c as u32).len() == 1 && encode_scalar(c as u32)[0]
            == c as u8,
        (c as u32) >= 128 ==> forall|k: int|
            0 <= k < encode_scalar(c as u32).len() ==> #[trigger] encode_scalar(c as u32)[k]
                >= 128,
{
    let s = c as u32;
    if has_width_1_encoding(s) {
        assert(leading_byte_width_1(s) == s as u8) by (bit_vector)
            requires
                has_width_1_encoding(s),
        ;
    } else {
        assert(leading_byte_width_2(s) >= 128 && leading_byte_width_3(s) >= 128
            && leading_byte_width_4(s) >= 128 && last_continuation_byte(s) >= 128
            && second_last_continuation_byte(s) >= 128 && third_last_continuation_byte(s) >= 128)
            by (bit_vector);
    }
}

/// The bytes of a text that is not empty start with the bytes of its first
/// character.
proof fn lemma_first_byte(text: Seq<char>)
    requires
        text.len() > 0,
    ensures
        encode_utf8(text).len() > 0,
        encode_utf8(text)[0] == 10u8 <==> text[0] == '\n',
{
    let c = text[0];
    let head = encode_scalar(c as u32);
    lemma_scalar_bytes(c);
    assert(encode_utf8(text) == head + encode_utf8(text.drop_first()));
    assert(encode_utf8(text)[0] == head[0]);
    lemma_char_numbers(c);
    if (c as u32) >= 128 {
        assert(head[0] >= 128);
    }
}

/// A text holds a line break exactly when its bytes do.
pub proof fn lemma_one_line(text: Seq<char>)
    ensures
        one_line(text) <==> no_line_break(encode_utf8(text)),
    decreases text.len(),
{
    let bytes = encode_utf8(text);
    if text.len() == 0 {
    } else {
        let c = text[0];
        let rest = text.drop_first();
        let head = encode_scalar(c as u32);
        let tail = encode_utf8(rest);
        let n = head.len() as int;
        assert(bytes == head + tail);
        lemma_scalar_bytes(c);
        lemma_char_numbers(c);
        lemma_one_line(rest);
        if rest.len() > 0 {
            lemma_first_byte(rest);
            assert(rest[0] == text[1]);
        } else {
            assert(tail.len() == 0);
        }
        if (c as u32) < 128 {
            assert(head[0] == c as u8);
        } else {
            assert(forall|k: int| 0 <= k < n ==> head[k] >= 128);
        }
        if one_line(text) {
            assert forall|i: int| !line_break_in(rest, i) by {
                if line_break_in(rest, i) {
                    assert(line_break_in(text, i + 1));
                }
            }
            assert forall|j: int| !line_break_at(bytes, j) by {
                if line_break_at(bytes, j) {
                    if j + 1 < n {
                        assert(head[j] == bytes[j]);
                    } else if j + 1 == n {
                        assert(head[j] == bytes[j]);
                        assert(tail[0] == bytes[j + 1]);
                        assert(line_break_in(text, 0));
                    } else {
                        assert(tail[j - n] == bytes[j]);
                        assert(tail[j - n + 1] == bytes[j + 1]);
                        assert(line_break_at(tail, j - n));
                    }
                }
            }
        }
        if no_line_break(bytes) {
            assert forall|j: int| !line_break_at(tail, j) by {
                if line_break_at(tail, j) {
                    assert(bytes[n + j] == tail[j]);
                    assert(bytes[n + j + 1] == tail[j + 1]);
                    assert(line_break_at(bytes, n + j));
                }
            }
            assert forall|i: int| !line_break_in(text, i) by {
                if line_break_in(text, i) {
                    if i == 0 {
                        assert(rest[0] == text[1]);
                        assert(bytes[0] == head[0]);
                        assert(bytes[1] == tail[0]);
                        assert(line_break_at(bytes, 0));
                    } else {
                        assert(rest[i - 1] == text[i]);
                        assert(rest[i] == text[i + 1]);
                        assert(line_break_in(rest, i - 1));
                    }
                }
            }
        }
    }
}

} // verus!
