//! Reading frames from bytes.

use crate::decimal::parse_u64;
use crate::text::text_from_utf8;
use crate::value::{contents, lemma_array_content, Content, Value};
use crate::wire::{
    bulk_frame, find_line_break, frame_at, frames_at, lemma_find_line_break, lemma_frame_bounds,
    null_header, text_frame, Parsed, ParsedItems, CR, DOLLAR, LF, MINUS, ONE, PLUS, STAR,
};
use vstd::prelude::*;
use vstd::slice::slice_subrange;

verus! {

/// What reading one frame from a buffer gave.
#[derive(Debug)]
pub enum Frame {
    /// A whole frame: its value, and the position after its last byte.
    Complete { value: Value, end: usize },
    /// More bytes are needed.
    Incomplete,
    /// The bytes are no frame.
    Invalid,
}

impl View for Frame {
    type V = Parsed;

    open spec fn view(&self) -> Parsed {
        match self {
            Frame::Complete { value, end } => Parsed::Complete { value: value@, end: *end as int },
            Frame::Incomplete => Parsed::Incomplete,
            Frame::Invalid => Parsed::Invalid,
        }
    }
}

/// What reading a run of frames from a buffer gave.
#[derive(Debug)]
pub enum Frames {
    /// All the frames: their values in order, and the position after the last byte.
    Complete { values: Vec<Value>, end: usize },
    /// More bytes are needed.
    Incomplete,
    /// The bytes are no such run of frames.
    Invalid,
}

impl View for Frames {
    type V = ParsedItems;

    open spec fn view(&self) -> ParsedItems {
        match self {
            Frames::Complete { values, end } => ParsedItems::Complete {
                values: contents(values@),
                end: *end as int,
            },
            Frames::Incomplete => ParsedItems::Incomplete,
            Frames::Invalid => ParsedItems::Invalid,
        }
    }
}

/// Finds the first line break of `buf` at or after `from`.
pub fn find_line(buf: &[u8], from: usize) -> (r: Option<usize>)
    ensures
        match r {
            Some(stop) => find_line_break(buf@, from as int) == Some(stop as int),
            None => find_line_break(buf@, from as int) is None,
        },
{
    let mut i: usize = from;
    while i < buf.len() && buf.len() - i >= 2
        invariant
            from <= i,
            find_line_break(buf@, from as int) == find_line_break(buf@, i as int),
        decreases buf.len() - i,
    {
        if buf[i] == CR && buf[i + 1] == LF {
            return Some(i);
        }
        i = i + 1;
    }
    None
}

/// A run of values read so far, followed by what the rest of the run gives.
pub open spec fn after(done: Seq<Content>, rest: ParsedItems) -> ParsedItems {
    match rest {
        ParsedItems::Complete { values, end } => ParsedItems::Complete {
            values: done + values,
            end,
        },
        ParsedItems::Incomplete => ParsedItems::Incomplete,
        ParsedItems::Invalid => ParsedItems::Invalid,
    }
}

/// Reads the text frame whose text runs from `start` to the line break at `stop`.
fn read_text(buf: &[u8], start: usize, stop: usize, error: bool) -> (r: Frame)
    requires
        start <= stop,
        stop + 2 <= buf.len(),
    ensures
        r@ == text_frame(buf@, start as int, stop as int, error),
{
    match text_from_utf8(slice_subrange(buf, start, stop)) {
        None => Frame::Invalid,
        Some(text) => if error {
            Frame::Complete { value: Value::Error(text), end: stop + 2 }
        } else {
            Frame::Complete { value: Value::SimpleString(text), end: stop + 2 }
        },
    }
}

/// Reads the bulk frame whose header runs from `start` to the line break at `stop`.
fn read_bulk(buf: &[u8], start: usize, stop: usize) -> (r: Frame)
    requires
        start <= stop,
        stop + 2 <= buf.len(),
    ensures
        r@ == bulk_frame(buf@, start as int, stop as int),
{
    let header = slice_subrange(buf, start, stop);
    if header.len() == 2 && header[0] == MINUS && header[1] == ONE {
        assert(header@ =~= null_header());
        return Frame::Complete { value: Value::Null, end: stop + 2 };
    }
    assert(header@ != null_header()) by {
        if header@ == null_header() {
            assert(null_header().len() == 2);
            assert(null_header()[0] == MINUS && null_header()[1] == ONE);
        }
    }
    let n: usize = match parse_u64(header) {
        None => {
            return Frame::Invalid;
        },
        Some(n) => if n > usize::MAX as u64 {
            return Frame::Invalid;
        } else {
            n as usize
        },
    };
    let first: usize = stop + 2;
    let room: usize = buf.len() - first;
    if room < n || room - n < 2 {
        return Frame::Incomplete;
    }
    if buf[first + n] != CR || buf[first + n + 1] != LF {
        return Frame::Invalid;
    }
    match text_from_utf8(slice_subrange(buf, first, first + n)) {
        None => Frame::Invalid,
        Some(text) => Frame::Complete { value: Value::BulkString(text), end: first + n + 2 },
    }
}

/// Reads the frame that starts at position `pos` of `buf`.
///
/// Arrays may be nested to any depth, and the reading follows them: it calls
/// itself once for each level.
pub fn read_frame(buf: &[u8], pos: usize) -> (r: Frame)
    ensures
        r@ == frame_at(buf@, pos as int),
    decreases buf@.len() - pos, 0nat,
{
    if pos >= buf.len() {
        return Frame::Incomplete;
    }
    let tag = buf[pos];
    if tag != PLUS && tag != MINUS && tag != DOLLAR && tag != STAR {
        return Frame::Invalid;
    }
    proof {
        lemma_find_line_break(buf@, pos + 1);
    }
    let stop: usize = match find_line(buf, pos + 1) {
        None => {
            return Frame::Incomplete;
        },
        Some(stop) => stop,
    };
    if tag == PLUS {
        read_text(buf, pos + 1, stop, false)
    } else if tag == MINUS {
        read_text(buf, pos + 1, stop, true)
    } else if tag == DOLLAR {
        read_bulk(buf, pos + 1, stop)
    } else {
        let n: usize = match parse_u64(slice_subrange(buf, pos + 1, stop)) {
            None => {
                return Frame::Invalid;
            },
            Some(n) => if n > usize::MAX as u64 {
                return Frame::Invalid;
            } else {
                n as usize
            },
        };
        match read_frames(buf, stop + 2, n) {
            Frames::Complete { values, end } => {
                proof {
                    lemma_array_content(values);
                }
                Frame::Complete { value: Value::Array(values), end }
            },
            Frames::Incomplete => Frame::Incomplete,
            Frames::Invalid => Frame::Invalid,
        }
    }
}

/// Reads the `n` frames that start, one after another, at position `pos` of `buf`.
pub fn read_frames(buf: &[u8], pos: usize, n: usize) -> (r: Frames)
    ensures
        r@ == frames_at(buf@, pos as int, n as nat),
    decreases buf@.len() - pos, 1nat,
{
    let mut values: Vec<Value> = Vec::new();
    let mut cur: usize = pos;
    let mut k: usize = 0;
    assert(contents(values@) + frames_at(buf@, pos as int, n as nat)->Complete_values
        =~= frames_at(buf@, pos as int, n as nat)->Complete_values);
    while k < n
        invariant
            k <= n,
            cur == pos || pos < cur <= buf.len(),
            frames_at(buf@, pos as int, n as nat) == after(
                contents(values@),
                frames_at(buf@, cur as int, (n - k) as nat),
            ),
        decreases n - k,
    {
        proof {
            lemma_frame_bounds(buf@, cur as int);
        }
        match read_frame(buf, cur) {
            Frame::Complete { value, end } => {
                let ghost before = contents(values@);
                let ghost rest = frames_at(buf@, end as int, (n - k - 1) as nat);
                values.push(value);
                assert(contents(values@) =~= before + seq![value@]);
                assert(after(before, after(seq![value@], rest)) == after(contents(values@), rest))
                    by {
                    match rest {
                        ParsedItems::Complete { values: more, end: last } => {
                            assert(before + (seq![value@] + more) =~= (before + seq![value@])
                                + more);
                        },
                        _ => {},
                    }
                }
                cur = end;
                k = k + 1;
            },
            Frame::Incomplete => {
                return Frames::Incomplete;
            },
            Frame::Invalid => {
                return Frames::Invalid;
            },
        }
    }
    assert(contents(values@) + Seq::<Content>::empty() =~= contents(values@));
    Frames::Complete { values, end: cur }
}

} // verus!
