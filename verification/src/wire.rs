//! The wire format: what the bytes of a frame are, and what a run of
//! bytes means when it is read as frames.
//!
//! A frame starts with a tag byte. Texts and headers end with a line
//! break, the two bytes CR LF.
//!
//! | tag | frame                                                  |
//! |-----|--------------------------------------------------------|
//! | `+` | text, line break                                       |
//! | `-` | text, line break                                       |
//! | `$` | length, line break, that many bytes, line break        |
//! | `$` | `-1`, line break: the null value                       |
//! | `*` | count, line break, that many frames                    |

use crate::decimal::{numeral, parse_number};
use crate::text::one_line;
use crate::value::Content;
use vstd::prelude::*;
use vstd::utf8::{decode_utf8, encode_utf8, valid_utf8};

verus! {

/// Carriage return, the first byte of a line break.
pub const CR: u8 = 13;

/// Line feed, the second byte of a line break.
pub const LF: u8 = 10;

/// The tag `+` of a simple string.
pub const PLUS: u8 = 43;

/// The tag `-` of an error, and the sign of the null length.
pub const MINUS: u8 = 45;

/// The tag `$` of a bulk string.
pub const DOLLAR: u8 = 36;

/// The tag `*` of an array.
pub const STAR: u8 = 42;

/// The digit `1`.
pub const ONE: u8 = 49;

/// The two bytes that end a line.
pub open spec fn line_break() -> Seq<u8> {
    seq![CR, LF]
}

/// The header that marks the null value: `-1`.
pub open spec fn null_header() -> Seq<u8> {
    seq![MINUS, ONE]
}

/// Whether a line break starts at position `i` of `bytes`.
pub open spec fn line_break_at(bytes: Seq<u8>, i: int) -> bool {
    0 <= i && i + 1 < bytes.len() && bytes[i] == CR && bytes[i + 1] == LF
}

/// Whether `bytes` holds no line break.
pub open spec fn no_line_break(bytes: Seq<u8>) -> bool {
    forall|i: int| !line_break_at(bytes, i)
}

/// The position of the first line break of `bytes` at or after `from`.
pub open spec fn find_line_break(bytes: Seq<u8>, from: int) -> Option<int>
    decreases bytes.len() - from,
{
    if from < 0 || from + 1 >= bytes.len() {
        None
    } else if line_break_at(bytes, from) {
        Some(from)
    } else {
        find_line_break(bytes, from + 1)
    }
}

/// The canonical bytes of one value.
pub open spec fn encoding(v: Content) -> Seq<u8>
    decreases v,
{
    match v {
        Content::SimpleString(text) => seq![PLUS] + encode_utf8(text) + line_break(),
        Content::Error(text) => seq![MINUS] + encode_utf8(text) + line_break(),
        Content::BulkString(text) => seq![DOLLAR] + numeral(encode_utf8(text).len())
            + line_break() + encode_utf8(text) + line_break(),
        Content::Null => seq![DOLLAR] + null_header() + line_break(),
        Content::Array(items) => seq![STAR] + numeral(items.len()) + line_break() + encoding_of_first(
            items,
            items.len(),
        ),
    }
}

/// The canonical bytes of the first `n` values of `items`, one after another.
pub open spec fn encoding_of_first(items: Seq<Content>, n: nat) -> Seq<u8>
    decreases items, n,
{
    if n == 0 || n > items.len() {
        Seq::<u8>::empty()
    } else {
        encoding_of_first(items, (n - 1) as nat) + encoding(items[n - 1])
    }
}

/// Whether `v` is a value that a frame can carry: the text of a simple string or
/// an error holds no line break, and the length of a bulk string and the count of
/// an array can be addressed.
pub open spec fn well_formed(v: Content) -> bool
    decreases v,
{
    match v {
        Content::SimpleString(text) => one_line(text),
        Content::Error(text) => one_line(text),
        Content::BulkString(text) => encode_utf8(text).len() <= usize::MAX,
        Content::Null => true,
        Content::Array(items) => items.len() <= usize::MAX && forall|i: int|
            0 <= i < items.len() ==> well_formed(#[trigger] items[i]),
    }
}

/// What reading one frame yields.
pub enum Parsed {
    /// A whole frame stands there: its value, and the position after its last byte.
    Complete { value: Content, end: int },
    /// The bytes so far can still grow into a frame.
    Incomplete,
    /// No frame starts with these bytes.
    Invalid,
}

/// What reading a run of frames yields.
pub enum ParsedItems {
    /// All the frames stand there: their values in order, and the position after the last byte.
    Complete { values: Seq<Content>, end: int },
    /// The bytes so far can still grow into the frames.
    Incomplete,
    /// The bytes cannot be continued to the frames.
    Invalid,
}

/// The text frame whose text runs from `start` to the line break at `stop`.
pub open spec fn text_frame(bytes: Seq<u8>, start: int, stop: int, error: bool) -> Parsed {
    let text = bytes.subrange(start, stop);
    if !valid_utf8(text) {
        Parsed::Invalid
    } else if error {
        Parsed::Complete { value: Content::Error(decode_utf8(text)), end: stop + 2 }
    } else {
        Parsed::Complete { value: Content::SimpleString(decode_utf8(text)), end: stop + 2 }
    }
}

/// The bulk frame whose header runs from `start` to the line break at `stop`.
pub open spec fn bulk_frame(bytes: Seq<u8>, start: int, stop: int) -> Parsed {
    let header = bytes.subrange(start, stop);
    if header == null_header() {
        Parsed::Complete { value: Content::Null, end: stop + 2 }
    } else {
        match parse_number(header) {
            None => Parsed::Invalid,
            Some(n) => {
                let first = stop + 2;
                let payload = bytes.subrange(first, first + n);
                if n > usize::MAX {
                    Parsed::Invalid
                } else if bytes.len() < first + n + 2 {
                    Parsed::Incomplete
                } else if !line_break_at(bytes, first + n) {
                    Parsed::Invalid
                } else if !valid_utf8(payload) {
                    Parsed::Invalid
                } else {
                    Parsed::Complete {
                        value: Content::BulkString(decode_utf8(payload)),
                        end: first + n + 2,
                    }
                }
            },
        }
    }
}

/// A line break found at or after `from` lies inside `bytes`, at or after `from`,
/// and is the first one there.
pub proof fn lemma_find_line_break(bytes: Seq<u8>, from: int)
    ensures
        match find_line_break(bytes, from) {
            Some(stop) => from <= stop && line_break_at(bytes, stop) && forall|i: int|
                from <= i < stop ==> !line_break_at(bytes, i),
            None => forall|i: int| 0 <= from <= i ==> !line_break_at(bytes, i),
        },
    decreases bytes.len() - from,
{
    if from < 0 || from + 1 >= bytes.len() {
    } else if line_break_at(bytes, from) {
    } else {
        lemma_find_line_break(bytes, from + 1);
    }
}

/// The frame that starts at position `pos` of `bytes`.
pub open spec fn frame_at(bytes: Seq<u8>, pos: int) -> Parsed
    decreases bytes.len() - pos, 0nat,
{
    if pos < 0 || pos >= bytes.len() {
        Parsed::Incomplete
    } else {
        let tag = bytes[pos];
        if tag != PLUS && tag != MINUS && tag != DOLLAR && tag != STAR {
            Parsed::Invalid
        } else {
            match find_line_break(bytes, pos + 1) {
                None => Parsed::Incomplete,
                Some(stop) => if tag == PLUS {
                    text_frame(bytes, pos + 1, stop, false)
                } else if tag == MINUS {
                    text_frame(bytes, pos + 1, stop, true)
                } else if tag == DOLLAR {
                    bulk_frame(bytes, pos + 1, stop)
                } else {
                    match parse_number(bytes.subrange(pos + 1, stop)) {
                        None => Parsed::Invalid,
                        Some(n) => if n > usize::MAX {
                            Parsed::Invalid
                        } else {
                            proof {
                                lemma_find_line_break(bytes, pos + 1);
                            }
                            match frames_at(bytes, stop + 2, n) {
                                ParsedItems::Complete { values, end } => Parsed::Complete {
                                    value: Content::Array(values),
                                    end,
                                },
                                ParsedItems::Incomplete => Parsed::Incomplete,
                                ParsedItems::Invalid => Parsed::Invalid,
                            }
                        },
                    }
                },
            }
        }
    }
}

/// The `n` frames that start, one after another, at position `pos` of `bytes`.
///
/// A frame always ends after the position it starts at, and inside `bytes`;
/// the test for this makes the recursion visibly well founded.
pub open spec fn frames_at(bytes: Seq<u8>, pos: int, n: nat) -> ParsedItems
    decreases bytes.len() - pos, n,
{
    if n == 0 {
        ParsedItems::Complete { values: Seq::<Content>::empty(), end: pos }
    } else {
        match frame_at(bytes, pos) {
            Parsed::Complete { value, end } => if pos < end <= bytes.len() {
                match frames_at(bytes, end, (n - 1) as nat) {
                    ParsedItems::Complete { values, end: last } => ParsedItems::Complete {
                        values: seq![value] + values,
                        end: last,
                    },
                    ParsedItems::Incomplete => ParsedItems::Incomplete,
                    ParsedItems::Invalid => ParsedItems::Invalid,
                }
            } else {
                ParsedItems::Invalid
            },
            Parsed::Incomplete => ParsedItems::Incomplete,
            Parsed::Invalid => ParsedItems::Invalid,
        }
    }
}

/// A frame ends after the position it starts at, and inside the bytes.
pub proof fn lemma_frame_bounds(bytes: Seq<u8>, pos: int)
    ensures
        frame_at(bytes, pos) matches Parsed::Complete { end, .. } ==> 0 <= pos < end
            <= bytes.len(),
    decreases bytes.len() - pos, 0nat,
{
    if 0 <= pos < bytes.len() {
        lemma_find_line_break(bytes, pos + 1);
        match find_line_break(bytes, pos + 1) {
            Some(stop) => {
                if bytes[pos] == STAR {
                    match parse_number(bytes.subrange(pos + 1, stop)) {
                        Some(n) => {
                            lemma_frames_bounds(bytes, stop + 2, n);
                        },
                        None => {},
                    }
                }
            },
            None => {},
        }
    }
}

/// A run of `n` frames holds `n` values, and ends inside the bytes, at or after
/// the position it starts at.
pub proof fn lemma_frames_bounds(bytes: Seq<u8>, pos: int, n: nat)
    requires
        0 <= pos <= bytes.len(),
    ensures
        frames_at(bytes, pos, n) matches ParsedItems::Complete { values, end } ==> pos <= end
            <= bytes.len() && values.len() == n,
    decreases bytes.len() - pos, n,
{
    if n > 0 {
        lemma_frame_bounds(bytes, pos);
        match frame_at(bytes, pos) {
            Parsed::Complete { value, end } => {
                if pos < end <= bytes.len() {
                    lemma_frames_bounds(bytes, end, (n - 1) as nat);
                }
            },
            _ => {},
        }
    }
}

/// What `bytes` means when read as one frame from its first byte.
pub open spec fn decoding(bytes: Seq<u8>) -> Parsed {
    frame_at(bytes, 0)
}

} // verus!
