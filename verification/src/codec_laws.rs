//! What holds between writing a value and reading it back.

use crate::decimal::{is_digit, lemma_numeral, numeral, parse_number};
use crate::text::lemma_one_line;
use crate::value::Content;
use crate::wire::{
    bulk_frame, decoding, encoding, encoding_of_first, find_line_break, frame_at, frames_at,
    lemma_find_line_break, lemma_frame_bounds, lemma_frames_bounds, line_break, line_break_at,
    no_line_break, null_header, well_formed, Parsed, ParsedItems, CR, DOLLAR, LF, MINUS, ONE,
    PLUS, STAR,
};
use vstd::prelude::*;
use vstd::utf8::{
    decode_utf8, decode_utf8_encode_utf8, encode_utf8, encode_utf8_decode_utf8,
    encode_utf8_valid_utf8, valid_utf8,
};

verus! {

/// Whether `bytes` holds, from `pos` on, the bytes of `e` as far as `bytes` goes.
pub open spec fn agrees(bytes: Seq<u8>, pos: int, e: Seq<u8>) -> bool {
    forall|i: int| 0 <= i < e.len() && pos + i < bytes.len() ==> bytes[pos + i] == #[trigger] e[i]
}

/// What reading at `pos` gives where the frame of `v` stands, whole or cut off by
/// the end of `bytes`.
pub open spec fn reading_of(v: Content, bytes: Seq<u8>, pos: int) -> Parsed {
    if pos + encoding(v).len() <= bytes.len() {
        Parsed::Complete { value: v, end: pos + encoding(v).len() }
    } else {
        Parsed::Incomplete
    }
}

proof fn lemma_agrees_split(bytes: Seq<u8>, pos: int, x: Seq<u8>, y: Seq<u8>)
    requires
        agrees(bytes, pos, x + y),
    ensures
        agrees(bytes, pos, x),
        agrees(bytes, pos + x.len(), y),
{
    let e = x + y;
    assert forall|i: int| 0 <= i < x.len() && pos + i < bytes.len() implies bytes[pos + i]
        == #[trigger] x[i] by {
        assert(e[i] == x[i]);
    }
    assert forall|i: int| 0 <= i < y.len() && pos + x.len() + i < bytes.len() implies bytes[pos
        + x.len() + i] == #[trigger] y[i] by {
        assert(e[x.len() + i] == y[i]);
    }
}

proof fn lemma_first_line_break(bytes: Seq<u8>, from: int, stop: int)
    requires
        0 <= from <= stop,
        line_break_at(bytes, stop),
        forall|i: int| from <= i < stop ==> !line_break_at(bytes, i),
    ensures
        find_line_break(bytes, from) == Some(stop),
    decreases stop - from,
{
    if from < stop {
        lemma_first_line_break(bytes, from + 1, stop);
    }
}

proof fn lemma_no_line_break_after(bytes: Seq<u8>, from: int)
    requires
        0 <= from,
        forall|i: int| from <= i ==> !line_break_at(bytes, i),
    ensures
        find_line_break(bytes, from) is None,
{
    lemma_find_line_break(bytes, from);
}

/// A frame has at least a tag and a line break.
pub proof fn lemma_encoding_len(v: Content)
    ensures
        encoding(v).len() >= 3,
{
}

/// The frames of the first `a` items are the start of the frames of the first `b`.
proof fn lemma_encoding_prefix(items: Seq<Content>, a: nat, b: nat)
    requires
        a <= b <= items.len(),
    ensures
        encoding_of_first(items, a).len() <= encoding_of_first(items, b).len(),
        encoding_of_first(items, b).take(encoding_of_first(items, a).len() as int)
            == encoding_of_first(items, a),
    decreases b - a,
{
    if a == b {
        assert(encoding_of_first(items, b).take(encoding_of_first(items, a).len() as int)
            =~= encoding_of_first(items, a));
    } else {
        lemma_encoding_prefix(items, a, (b - 1) as nat);
        let shorter = encoding_of_first(items, (b - 1) as nat);
        let longer = encoding_of_first(items, b);
        assert(longer == shorter + encoding(items[b - 1]));
        let k = encoding_of_first(items, a).len() as int;
        assert(longer.take(k) =~= shorter.take(k));
    }
}

/// Reading a text frame, whole or cut off.
proof fn lemma_text(text: Seq<char>, error: bool, bytes: Seq<u8>, pos: int)
    requires
        no_line_break(encode_utf8(text)),
        0 <= pos <= bytes.len(),
        agrees(
            bytes,
            pos,
            seq![if error { MINUS } else { PLUS }] + encode_utf8(text) + line_break(),
        ),
    ensures
        ({
            let tag = if error { MINUS } else { PLUS };
            let e = seq![tag] + encode_utf8(text) + line_break();
            let value = if error { Content::Error(text) } else { Content::SimpleString(text) };
            frame_at(bytes, pos) == if pos + e.len() <= bytes.len() {
                Parsed::Complete { value, end: pos + e.len() }
            } else {
                Parsed::Incomplete
            }
        }),
{
    broadcast use encode_utf8_valid_utf8, encode_utf8_decode_utf8;

    let tag = if error { MINUS } else { PLUS };
    let u = encode_utf8(text);
    let e = seq![tag] + u + line_break();
    let n = u.len() as int;
    let stop = pos + 1 + n;
    assert(e.len() == n + 3);
    if pos < bytes.len() {
        assert(e[0] == tag);
        assert(bytes[pos + 0] == e[0]);
        assert forall|i: int| pos + 1 <= i < stop implies !line_break_at(bytes, i) by {
            if line_break_at(bytes, i) {
                let m = i - pos;
                assert(e[m] == u[m - 1]);
                assert(bytes[pos + m] == e[m]);
                assert(bytes[pos + (m + 1)] == e[m + 1]);
                if m + 1 <= n {
                    assert(e[m + 1] == u[m]);
                    assert(line_break_at(u, m - 1));
                } else {
                    assert(e[m + 1] == CR);
                }
            }
        }
        if pos + e.len() <= bytes.len() {
            assert(e[n + 1] == CR);
            assert(e[n + 2] == LF);
            assert(bytes[pos + (n + 1)] == e[n + 1]);
            assert(bytes[pos + (n + 2)] == e[n + 2]);
            assert(line_break_at(bytes, stop));
            lemma_first_line_break(bytes, pos + 1, stop);
            assert(bytes.subrange(pos + 1, stop) =~= u) by {
                assert forall|i: int| 0 <= i < n implies bytes.subrange(pos + 1, stop)[i]
                    == u[i] by {
                    assert(e[i + 1] == u[i]);
                    assert(bytes[pos + (i + 1)] == e[i + 1]);
                }
            }
        } else {
            assert forall|i: int| pos + 1 <= i implies !line_break_at(bytes, i) by {}
            lemma_no_line_break_after(bytes, pos + 1);
        }
    }
}

/// Reading the header line of a bulk string or an array, whole or cut off: the
/// tag, the numeral of `n` and a line break, with `more` bytes to follow.
proof fn lemma_header(tag: u8, n: nat, more: Seq<u8>, bytes: Seq<u8>, pos: int)
    requires
        0 <= pos < bytes.len(),
        agrees(bytes, pos, seq![tag] + numeral(n) + line_break() + more),
    ensures
        bytes[pos] == tag,
        ({
            let stop = pos + 1 + numeral(n).len();
            if stop + 2 <= bytes.len() {
                &&& find_line_break(bytes, pos + 1) == Some(stop)
                &&& bytes.subrange(pos + 1, stop) == numeral(n)
                &&& agrees(bytes, stop + 2, more)
            } else {
                find_line_break(bytes, pos + 1) is None
            }
        }),
{
    let num = numeral(n);
    let head = seq![tag] + num + line_break();
    let e = head + more;
    let d = num.len() as int;
    let stop = pos + 1 + d;
    lemma_numeral(n);
    lemma_agrees_split(bytes, pos, head, more);
    assert(head.len() == d + 3);
    assert(head[0] == tag);
    assert(bytes[pos + 0] == head[0]);
    assert forall|i: int| pos + 1 <= i < stop implies !line_break_at(bytes, i) by {
        if i < bytes.len() {
            let m = i - pos;
            assert(head[m] == num[m - 1]);
            assert(bytes[pos + m] == head[m]);
            assert(is_digit(num[m - 1]));
        }
    }
    if stop + 2 <= bytes.len() {
        assert(head[d + 1] == CR);
        assert(head[d + 2] == LF);
        assert(bytes[pos + (d + 1)] == head[d + 1]);
        assert(bytes[pos + (d + 2)] == head[d + 2]);
        lemma_first_line_break(bytes, pos + 1, stop);
        assert(bytes.subrange(pos + 1, stop) =~= num) by {
            assert forall|i: int| 0 <= i < d implies bytes.subrange(pos + 1, stop)[i]
                == num[i] by {
                assert(head[i + 1] == num[i]);
                assert(bytes[pos + (i + 1)] == head[i + 1]);
            }
        }
    } else {
        assert forall|i: int| pos + 1 <= i implies !line_break_at(bytes, i) by {}
        lemma_no_line_break_after(bytes, pos + 1);
    }
}

/// Reading a bulk frame, whole or cut off.
proof fn lemma_bulk(text: Seq<char>, bytes: Seq<u8>, pos: int)
    requires
        encode_utf8(text).len() <= usize::MAX,
        0 <= pos <= bytes.len(),
        agrees(bytes, pos, encoding(Content::BulkString(text))),
    ensures
        frame_at(bytes, pos) == reading_of(Content::BulkString(text), bytes, pos),
{
    broadcast use encode_utf8_valid_utf8, encode_utf8_decode_utf8;

    let u = encode_utf8(text);
    let n = u.len();
    let len = n as int;
    let more = u + line_break();
    let e = encoding(Content::BulkString(text));
    assert(e =~= seq![DOLLAR] + numeral(n) + line_break() + more);
    lemma_numeral(n);
    if pos < bytes.len() {
        lemma_header(DOLLAR, n, more, bytes, pos);
        let stop = pos + 1 + numeral(n).len();
        let first = stop + 2;
        if first <= bytes.len() {
            let header = bytes.subrange(pos + 1, stop);
            assert(header != null_header()) by {
                assert(is_digit(numeral(n)[0]));
                assert(null_header()[0] == MINUS);
            }
            assert(more[len] == CR);
            assert(more[len + 1] == LF);
            if first + len + 2 <= bytes.len() {
                assert(bytes[first + len] == more[len]);
                assert(bytes[first + (len + 1)] == more[len + 1]);
                assert(bytes.subrange(first, first + len) =~= u) by {
                    assert forall|i: int| 0 <= i < len implies bytes.subrange(
                        first,
                        first + len,
                    )[i] == u[i] by {
                        assert(more[i] == u[i]);
                        assert(bytes[first + i] == more[i]);
                    }
                }
            }
            assert(frame_at(bytes, pos) == bulk_frame(bytes, pos + 1, stop));
        }
    }
}

/// Reading the null frame, whole or cut off.
proof fn lemma_null(bytes: Seq<u8>, pos: int)
    requires
        0 <= pos <= bytes.len(),
        agrees(bytes, pos, encoding(Content::Null)),
    ensures
        frame_at(bytes, pos) == reading_of(Content::Null, bytes, pos),
{
    let e = encoding(Content::Null);
    assert(e =~= seq![DOLLAR, MINUS, ONE, CR, LF]);
    if pos < bytes.len() {
        assert(bytes[pos + 0] == e[0]);
        assert forall|i: int| pos + 1 <= i < pos + 3 implies !line_break_at(bytes, i) by {
            if i < bytes.len() {
                assert(bytes[pos + (i - pos)] == e[i - pos]);
            }
        }
        if pos + 5 <= bytes.len() {
            assert(bytes[pos + 1] == e[1]);
            assert(bytes[pos + 2] == e[2]);
            assert(bytes[pos + 3] == e[3]);
            assert(bytes[pos + 4] == e[4]);
            lemma_first_line_break(bytes, pos + 1, pos + 3);
            assert(bytes.subrange(pos + 1, pos + 3) =~= null_header());
        } else {
            assert forall|i: int| pos + 1 <= i implies !line_break_at(bytes, i) by {}
            lemma_no_line_break_after(bytes, pos + 1);
        }
    }
}

/// Reading a frame where the frame of a value stands, whole or cut off by the
/// end of the bytes: the value comes back, or more bytes are asked for.
pub proof fn lemma_frame(v: Content, bytes: Seq<u8>, pos: int)
    requires
        well_formed(v),
        0 <= pos <= bytes.len(),
        agrees(bytes, pos, encoding(v)),
    ensures
        frame_at(bytes, pos) == reading_of(v, bytes, pos),
    decreases v, 0nat,
{
    lemma_encoding_len(v);
    match v {
        Content::SimpleString(text) => {
            assert(encoding(v) =~= seq![PLUS] + encode_utf8(text) + line_break());
            lemma_one_line(text);
            lemma_text(text, false, bytes, pos);
        },
        Content::Error(text) => {
            assert(encoding(v) =~= seq![MINUS] + encode_utf8(text) + line_break());
            lemma_one_line(text);
            lemma_text(text, true, bytes, pos);
        },
        Content::BulkString(text) => {
            lemma_bulk(text, bytes, pos);
        },
        Content::Null => {
            lemma_null(bytes, pos);
        },
        Content::Array(items) => {
            let n = items.len();
            let body = encoding_of_first(items, n);
            lemma_numeral(n);
            if pos < bytes.len() {
                lemma_header(STAR, n, body, bytes, pos);
                let stop = pos + 1 + numeral(n).len();
                if stop + 2 <= bytes.len() {
                    assert(decreases_to!(v => v->Array_0));
                    lemma_frames(items, 0, bytes, stop + 2);
                    assert(items.skip(0) =~= items);
                }
            }
        },
    }
}

/// Reading the frames of a run of values from the `j`-th on, where those frames
/// stand, whole or cut off by the end of the bytes.
pub proof fn lemma_frames(items: Seq<Content>, j: nat, bytes: Seq<u8>, start: int)
    requires
        forall|i: int| 0 <= i < items.len() ==> well_formed(#[trigger] items[i]),
        j <= items.len(),
        0 <= start,
        start + encoding_of_first(items, j).len() <= bytes.len(),
        agrees(bytes, start, encoding_of_first(items, items.len())),
    ensures
        frames_at(
            bytes,
            start + encoding_of_first(items, j).len(),
            (items.len() - j) as nat,
        ) == if start + encoding_of_first(items, items.len()).len() <= bytes.len() {
            ParsedItems::Complete {
                values: items.skip(j as int),
                end: start + encoding_of_first(items, items.len()).len(),
            }
        } else {
            ParsedItems::Incomplete
        },
    decreases items, items.len() - j,
{
    let n = items.len();
    let here = start + encoding_of_first(items, j).len();
    if j == n {
        assert(items.skip(j as int) =~= Seq::<Content>::empty());
    } else {
        let item = items[j as int];
        let next = (j + 1) as nat;
        let whole = encoding_of_first(items, n);
        let upto = encoding_of_first(items, next);
        lemma_encoding_prefix(items, next, n);
        assert(upto == encoding_of_first(items, j) + encoding(item));
        assert(agrees(bytes, start, upto)) by {
            assert forall|i: int| 0 <= i < upto.len() && start + i < bytes.len() implies bytes[start
                + i] == #[trigger] upto[i] by {
                assert(whole.take(upto.len() as int)[i] == whole[i]);
            }
        }
        lemma_agrees_split(bytes, start, encoding_of_first(items, j), encoding(item));
        lemma_frame(item, bytes, here);
        lemma_encoding_len(item);
        if here + encoding(item).len() <= bytes.len() {
            lemma_frames(items, next, bytes, start);
            assert(seq![item] + items.skip(next as int) =~= items.skip(j as int));
        }
    }
}

/// Writing a value and reading the bytes back gives the value, and uses all the
/// bytes.
pub proof fn law_round_trip(v: Content)
    requires
        well_formed(v),
    ensures
        decoding(encoding(v)) == (Parsed::Complete { value: v, end: encoding(v).len() as int }),
{
    lemma_frame(v, encoding(v), 0);
}

/// Reading a frame is not disturbed by what follows it: the value comes back, and
/// none of the following bytes is used.
pub proof fn law_frame_is_self_delimiting(v: Content, more: Seq<u8>)
    requires
        well_formed(v),
    ensures
        decoding(encoding(v) + more) == (Parsed::Complete {
            value: v,
            end: encoding(v).len() as int,
        }),
{
    lemma_frame(v, encoding(v) + more, 0);
}

/// Any part of a frame that stops short of its end asks for more bytes.
pub proof fn law_partial_frame(v: Content, k: int)
    requires
        well_formed(v),
        0 <= k < encoding(v).len(),
    ensures
        decoding(encoding(v).take(k)) == Parsed::Incomplete,
{
    lemma_frame(v, encoding(v).take(k), 0);
}

/// Whatever is read from bytes is a value that a frame can carry.
pub proof fn law_read_values_are_well_formed(bytes: Seq<u8>, pos: int)
    ensures
        frame_at(bytes, pos) matches Parsed::Complete { value, .. } ==> well_formed(value),
    decreases bytes.len() - pos, 0nat,
{
    broadcast use decode_utf8_encode_utf8;

    if 0 <= pos < bytes.len() {
        lemma_find_line_break(bytes, pos + 1);
        match find_line_break(bytes, pos + 1) {
            Some(stop) => {
                let tag = bytes[pos];
                let line = bytes.subrange(pos + 1, stop);
                if tag == PLUS || tag == MINUS {
                    assert forall|i: int| !line_break_at(line, i) by {
                        if line_break_at(line, i) {
                            assert(line_break_at(bytes, pos + 1 + i));
                        }
                    }
                    if valid_utf8(line) {
                        lemma_one_line(decode_utf8(line));
                    }
                } else if tag == DOLLAR {
                } else if tag == STAR {
                    match parse_number(line) {
                        Some(n) => {
                            lemma_frames_bounds(bytes, stop + 2, n);
                            lemma_read_runs_are_well_formed(bytes, stop + 2, n);
                        },
                        None => {},
                    }
                }
            },
            None => {},
        }
    }
}

proof fn lemma_read_runs_are_well_formed(bytes: Seq<u8>, pos: int, n: nat)
    ensures
        frames_at(bytes, pos, n) matches ParsedItems::Complete { values, .. } ==> forall|i: int|
            0 <= i < values.len() ==> well_formed(#[trigger] values[i]),
    decreases bytes.len() - pos, n,
{
    if n > 0 {
        law_read_values_are_well_formed(bytes, pos);
        match frame_at(bytes, pos) {
            Parsed::Complete { value, end } => {
                if pos < end <= bytes.len() {
                    lemma_read_runs_are_well_formed(bytes, end, (n - 1) as nat);
                }
            },
            _ => {},
        }
    }
}

/// Once a frame has been read, or found malformed, no bytes that arrive later
/// change that.
pub proof fn law_reading_is_final(bytes: Seq<u8>, more: Seq<u8>, pos: int)
    ensures
        !(frame_at(bytes, pos) is Incomplete) ==> frame_at(bytes + more, pos) == frame_at(
            bytes,
            pos,
        ),
    decreases bytes.len() - pos, 0nat,
{
    let longer = bytes + more;
    if !(frame_at(bytes, pos) is Incomplete) {
        lemma_find_line_break(bytes, pos + 1);
        let tag = bytes[pos];
        assert(longer[pos] == tag);
        match find_line_break(bytes, pos + 1) {
            Some(stop) => {
                assert(line_break_at(longer, stop)) by {
                    assert(longer[stop] == bytes[stop]);
                    assert(longer[stop + 1] == bytes[stop + 1]);
                }
                assert forall|i: int| pos + 1 <= i < stop implies !line_break_at(longer, i) by {
                    assert(longer[i] == bytes[i]);
                    assert(longer[i + 1] == bytes[i + 1]);
                    assert(!line_break_at(bytes, i));
                }
                lemma_first_line_break(longer, pos + 1, stop);
                assert(longer.subrange(pos + 1, stop) =~= bytes.subrange(pos + 1, stop));
                if tag == DOLLAR {
                    match parse_number(bytes.subrange(pos + 1, stop)) {
                        Some(n) => {
                            let first = stop + 2;
                            if n <= usize::MAX && first + n + 2 <= bytes.len() {
                                assert(longer[first + n] == bytes[first + n]);
                                assert(longer[first + n + 1] == bytes[first + n + 1]);
                                assert(longer.subrange(first, first + n) =~= bytes.subrange(
                                    first,
                                    first + n,
                                ));
                            }
                        },
                        None => {},
                    }
                } else if tag == STAR {
                    match parse_number(bytes.subrange(pos + 1, stop)) {
                        Some(n) => {
                            if n <= usize::MAX {
                                lemma_runs_are_final(bytes, more, stop + 2, n);
                            }
                        },
                        None => {},
                    }
                }
            },
            None => {},
        }
    }
}

proof fn lemma_runs_are_final(bytes: Seq<u8>, more: Seq<u8>, pos: int, n: nat)
    ensures
        !(frames_at(bytes, pos, n) is Incomplete) ==> frames_at(bytes + more, pos, n)
            == frames_at(bytes, pos, n),
    decreases bytes.len() - pos, n,
{
    if n > 0 && !(frames_at(bytes, pos, n) is Incomplete) {
        law_reading_is_final(bytes, more, pos);
        lemma_frame_bounds(bytes, pos);
        match frame_at(bytes, pos) {
            Parsed::Complete { value, end } => {
                if pos < end <= bytes.len() {
                    lemma_runs_are_final(bytes, more, end, (n - 1) as nat);
                }
            },
            _ => {},
        }
    }
}

} // verus!
