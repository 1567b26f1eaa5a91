//! Writing values as frames.

use crate::decimal::{numeral, push_numeral};
use crate::decode::find_line;
use crate::text::lemma_one_line;
use crate::value::{contents, lemma_array_content, Content, Value};
use crate::wire::{
    encoding, encoding_of_first, lemma_find_line_break, line_break, no_line_break, well_formed,
    CR, DOLLAR, LF, MINUS, ONE, PLUS, STAR,
};
use vstd::prelude::*;
use vstd::std_specs::vec::axiom_vec_index_decreases;

verus! {

/// Appends `bytes` to `out`.
fn push_bytes(out: &mut Vec<u8>, bytes: &[u8])
    ensures
        final(out)@ == old(out)@ + bytes@,
{
    out.extend_from_slice(bytes);
    assert(out@ =~= old(out)@ + bytes@);
}

/// Appends a line break to `out`.
fn push_line_break(out: &mut Vec<u8>)
    ensures
        final(out)@ == old(out)@ + line_break(),
{
    out.push(CR);
    out.push(LF);
    assert(out@ =~= old(out)@ + line_break());
}

/// Appends the frame of `value` to `out`.
pub fn encode_into(value: &Value, out: &mut Vec<u8>)
    ensures
        final(out)@ == old(out)@ + encoding(value@),
    decreases value,
{
    match value {
        Value::SimpleString(text) => {
            out.push(PLUS);
            push_bytes(out, text.as_str().as_bytes());
            push_line_break(out);
            assert(out@ =~= old(out)@ + encoding(value@));
        },
        Value::Error(text) => {
            out.push(MINUS);
            push_bytes(out, text.as_str().as_bytes());
            push_line_break(out);
            assert(out@ =~= old(out)@ + encoding(value@));
        },
        Value::BulkString(text) => {
            let bytes = text.as_str().as_bytes();
            out.push(DOLLAR);
            push_numeral(out, bytes.len());
            push_line_break(out);
            push_bytes(out, bytes);
            push_line_break(out);
            assert(out@ =~= old(out)@ + encoding(value@));
        },
        Value::Null => {
            out.push(DOLLAR);
            out.push(MINUS);
            out.push(ONE);
            push_line_break(out);
            assert(out@ =~= old(out)@ + encoding(value@));
        },
        Value::Array(items) => {
            proof {
                lemma_array_content(*items);
            }
            let ghost all = contents(items@);
            out.push(STAR);
            push_numeral(out, items.len());
            push_line_break(out);
            let ghost head = out@;
            assert(head =~= old(out)@ + (seq![STAR] + numeral(items.len() as nat) + line_break()));
            let mut i: usize = 0;
            while i < items.len()
                invariant
                    i <= items.len(),
                    *value == Value::Array(*items),
                    all == contents(items@),
                    out@ == head + encoding_of_first(all, i as nat),
                decreases items.len() - i,
            {
                proof {
                    assert(decreases_to!(*value => value->Array_0));
                    axiom_vec_index_decreases(*items, i as int);
                }
                encode_into(&items[i], out);
                assert(out@ =~= head + encoding_of_first(all, (i + 1) as nat));
                i = i + 1;
            }
            assert(out@ =~= old(out)@ + encoding(value@));
        },
    }
}

/// The frame of `value`.
pub fn encode(value: &Value) -> (bytes: Vec<u8>)
    ensures
        bytes@ == encoding(value@),
{
    let mut out: Vec<u8> = Vec::new();
    encode_into(value, &mut out);
    assert(out@ =~= encoding(value@));
    out
}

/// Tests whether `bytes` holds no line break.
fn is_one_line(bytes: &[u8]) -> (r: bool)
    ensures
        r == no_line_break(bytes@),
{
    proof {
        lemma_find_line_break(bytes@, 0);
    }
    match find_line(bytes, 0) {
        Some(stop) => false,
        None => true,
    }
}

/// Tests whether `value` is one that a frame can carry, so that reading its
/// frame gives it back.
pub fn is_well_formed(value: &Value) -> (r: bool)
    ensures
        r == well_formed(value@),
    decreases value,
{
    match value {
        Value::SimpleString(text) => {
            proof {
                lemma_one_line(text@);
            }
            is_one_line(text.as_str().as_bytes())
        },
        Value::Error(text) => {
            proof {
                lemma_one_line(text@);
            }
            is_one_line(text.as_str().as_bytes())
        },
        Value::BulkString(text) => {
            // A text in memory has a length in bytes that can be addressed.
            let size = text.as_str().as_bytes().len();
            true
        },
        Value::Null => true,
        Value::Array(items) => {
            proof {
                lemma_array_content(*items);
            }
            let ghost all = contents(items@);
            let mut i: usize = 0;
            while i < items.len()
                invariant
                    i <= items.len(),
                    *value == Value::Array(*items),
                    all == contents(items@),
                    value@ == Content::Array(all),
                    forall|j: int| 0 <= j < i ==> well_formed(#[trigger] all[j]),
                decreases items.len() - i,
            {
                proof {
                    assert(decreases_to!(*value => value->Array_0));
                    axiom_vec_index_decreases(*items, i as int);
                }
                if !is_well_formed(&items[i]) {
                    assert(!well_formed(all[i as int]));
                    return false;
                }
                i = i + 1;
            }
            true
        },
    }
}

} // verus!
