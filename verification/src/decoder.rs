//! Resumable decoding: bytes arrive in chunks of any size, values leave whole.

use crate::codec_laws::{law_partial_frame, law_round_trip, lemma_encoding_len};
use crate::decode::{read_frame, Frame};
use crate::value::{Content, Value};
use crate::wire::{decoding, encoding, lemma_frame_bounds, well_formed, Parsed};
use vstd::prelude::*;

verus! {

/// Why a byte stream cannot be read as frames.
#[derive(Clone, Copy, Debug, PartialEq, Eq, Structural)]
pub enum FramingError {
    /// The bytes do not follow the grammar of any frame.
    Malformed,
    /// The stream ended inside a frame.
    Truncated,
}

/// The bytes of one connection that were received and not yet consumed.
pub struct Decoder {
    buffer: Vec<u8>,
}

impl View for Decoder {
    type V = Seq<u8>;

    closed spec fn view(&self) -> Seq<u8> {
        self.buffer@
    }
}

/// What a decoder that holds `pending` yields while the stream is open.
pub open spec fn next_of(pending: Seq<u8>) -> Result<Option<Content>, FramingError> {
    match decoding(pending) {
        Parsed::Complete { value, .. } => Ok(Some(value)),
        Parsed::Incomplete => Ok(None),
        Parsed::Invalid => Err(FramingError::Malformed),
    }
}

/// What a decoder that holds `pending` yields once the stream has ended.
pub open spec fn last_of(pending: Seq<u8>) -> Result<Option<Content>, FramingError> {
    match decoding(pending) {
        Parsed::Complete { value, .. } => Ok(Some(value)),
        Parsed::Incomplete => if pending.len() == 0 {
            Ok(None)
        } else {
            Err(FramingError::Truncated)
        },
        Parsed::Invalid => Err(FramingError::Malformed),
    }
}

/// What a decoder that holds `pending` holds after it was asked for a value.
pub open spec fn rest_of(pending: Seq<u8>) -> Seq<u8> {
    match decoding(pending) {
        Parsed::Complete { end, .. } => pending.skip(end),
        _ => pending,
    }
}

/// Whether `result` is `expected`, with each value taken by its content.
pub open spec fn yields(
    result: Result<Option<Value>, FramingError>,
    expected: Result<Option<Content>, FramingError>,
) -> bool {
    match result {
        Ok(Some(value)) => expected == Ok::<Option<Content>, FramingError>(Some(value@)),
        Ok(None) => expected == Ok::<Option<Content>, FramingError>(None),
        Err(e) => expected == Err::<Option<Content>, FramingError>(e),
    }
}

impl Decoder {
    /// A decoder that holds no bytes.
    pub fn new() -> (decoder: Decoder)
        ensures
            decoder@ == Seq::<u8>::empty(),
    {
        Decoder { buffer: Vec::new() }
    }

    /// The number of bytes held.
    pub fn pending(&self) -> (n: usize)
        ensures
            n == self@.len(),
    {
        self.buffer.len()
    }

    /// Takes in the next chunk of the stream.
    pub fn feed(&mut self, chunk: &[u8])
        ensures
            final(self)@ == old(self)@ + chunk@,
    {
        self.buffer.extend_from_slice(chunk);
        assert(self.buffer@ =~= old(self).buffer@ + chunk@);
    }

    /// Hands out the frame at the front of the held bytes, if a whole one is there.
    ///
    /// `Ok(None)` says that more bytes are needed. After an error the held bytes
    /// stay as they are: the stream cannot be read any further.
    pub fn next_value(&mut self) -> (result: Result<Option<Value>, FramingError>)
        ensures
            yields(result, next_of(old(self)@)),
            final(self)@ == rest_of(old(self)@),
    {
        proof {
            lemma_frame_bounds(self.buffer@, 0);
        }
        match read_frame(self.buffer.as_slice(), 0) {
            Frame::Complete { value, end } => {
                let rest = self.buffer.split_off(end);
                self.buffer = rest;
                assert(self.buffer@ =~= old(self).buffer@.skip(end as int));
                Ok(Some(value))
            },
            Frame::Incomplete => Ok(None),
            Frame::Invalid => Err(FramingError::Malformed),
        }
    }

    /// Hands out the frame at the front of the held bytes, knowing that no more
    /// bytes will come.
    ///
    /// `Ok(None)` says that the stream ended cleanly, between two frames. A stream
    /// that ends inside a frame is an error.
    pub fn finish(&mut self) -> (result: Result<Option<Value>, FramingError>)
        ensures
            yields(result, last_of(old(self)@)),
            final(self)@ == rest_of(old(self)@),
    {
        let held = self.buffer.len();
        match self.next_value() {
            Ok(Some(value)) => Ok(Some(value)),
            Ok(None) => if held == 0 {
                Ok(None)
            } else {
                Err(FramingError::Truncated)
            },
            Err(e) => Err(e),
        }
    }
}

/// The bytes of `chunks`, one chunk after another.
pub open spec fn joined(chunks: Seq<Seq<u8>>) -> Seq<u8>
    decreases chunks.len(),
{
    if chunks.len() == 0 {
        Seq::<u8>::empty()
    } else {
        joined(chunks.drop_last()) + chunks.last()
    }
}

/// The bytes that a fresh decoder holds when it was fed the first `k` of `chunks`
/// and asked for a value after each one before.
pub open spec fn held_after(chunks: Seq<Seq<u8>>, k: nat) -> Seq<u8>
    decreases k,
{
    if k == 0 || k > chunks.len() {
        Seq::<u8>::empty()
    } else {
        rest_of(held_after(chunks, (k - 1) as nat)) + chunks[k - 1]
    }
}

proof fn lemma_joined_grows(chunks: Seq<Seq<u8>>, k: nat)
    requires
        k <= chunks.len(),
        forall|i: int| 0 <= i < chunks.len() ==> (#[trigger] chunks[i]).len() > 0,
    ensures
        joined(chunks.take(k as int)) == joined(chunks).take(
            joined(chunks.take(k as int)).len() as int,
        ),
        joined(chunks.take(k as int)).len() <= joined(chunks).len(),
        k < chunks.len() ==> joined(chunks.take(k as int)).len() < joined(chunks).len(),
    decreases chunks.len() - k,
{
    let upto = joined(chunks.take(k as int));
    if k == chunks.len() {
        assert(chunks.take(k as int) =~= chunks);
        assert(upto =~= joined(chunks).take(upto.len() as int));
    } else {
        lemma_joined_grows(chunks, k + 1);
        let longer = chunks.take(k as int + 1);
        assert(longer.drop_last() =~= chunks.take(k as int));
        assert(longer.last() == chunks[k as int]);
        assert(joined(longer) == upto + chunks[k as int]);
        assert(upto =~= joined(chunks).take(upto.len() as int));
    }
}

/// A frame that arrives in pieces is read as if it had arrived whole: while a
/// piece is missing the decoder keeps what came and asks for more, and with the
/// last piece it yields the value and keeps nothing.
pub proof fn law_chunked_delivery(v: Content, chunks: Seq<Seq<u8>>, k: nat)
    requires
        well_formed(v),
        joined(chunks) == encoding(v),
        forall|i: int| 0 <= i < chunks.len() ==> (#[trigger] chunks[i]).len() > 0,
        k <= chunks.len(),
    ensures
        held_after(chunks, k) == joined(chunks.take(k as int)),
        k < chunks.len() ==> next_of(held_after(chunks, k)) == Ok::<
            Option<Content>,
            FramingError,
        >(None) && rest_of(held_after(chunks, k)) == held_after(chunks, k),
        k == chunks.len() ==> next_of(held_after(chunks, k)) == Ok::<
            Option<Content>,
            FramingError,
        >(Some(v)) && rest_of(held_after(chunks, k)) == Seq::<u8>::empty(),
    decreases k,
{
    let e = encoding(v);
    lemma_encoding_len(v);
    lemma_joined_grows(chunks, k);
    if k == 0 {
        assert(chunks.take(0) =~= Seq::<Seq<u8>>::empty());
    } else {
        law_chunked_delivery(v, chunks, (k - 1) as nat);
        let upto = chunks.take(k as int);
        assert(upto.drop_last() =~= chunks.take(k - 1));
        assert(upto.last() == chunks[k - 1]);
    }
    let held = held_after(chunks, k);
    if k < chunks.len() {
        law_partial_frame(v, held.len() as int);
    } else {
        assert(chunks.take(k as int) =~= chunks);
        law_round_trip(v);
        assert(e.skip(e.len() as int) =~= Seq::<u8>::empty());
    }
}

} // verus!
