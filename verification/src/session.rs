//! One connection: from the bytes that arrive to the bytes to send back.
//!
//! The session neither reads nor writes. Its owner hands it each chunk that the
//! peer sent and sends what the session hands back; when the session reports a
//! failure, or when the peer has closed, the owner closes the connection.

use crate::codec_laws::law_reading_is_final;
use crate::decoder::{Decoder, FramingError};
use crate::encode::encode_into;
use crate::executor::{entries_after, respond, response_to};
use crate::store::{Record, Store};
use crate::wire::{decoding, encoding, lemma_frame_bounds, Parsed};
use vstd::prelude::*;

verus! {

/// What serving the requests in a run of bytes comes to.
pub struct Served {
    /// The replies to the requests, as frames, in the order of the requests.
    pub output: Seq<u8>,
    /// The bytes after the last whole request.
    pub pending: Seq<u8>,
    /// The entries of the store after the last request.
    pub entries: Map<Seq<char>, Record>,
    /// Why no more requests can be read, if that is so.
    pub failure: Option<FramingError>,
}

/// Serves the requests that stand whole at the front of `pending`, one after
/// another, until one is incomplete or malformed.
///
/// A frame always ends after its first byte and inside the bytes; the test for
/// this makes the recursion visibly well founded.
pub open spec fn served(pending: Seq<u8>, entries: Map<Seq<char>, Record>, now: u64) -> Served
    decreases pending.len(),
{
    match decoding(pending) {
        Parsed::Complete { value, end } => if 0 < end <= pending.len() {
            let rest = served(pending.skip(end), entries_after(entries, value, now), now);
            Served {
                output: encoding(response_to(entries, value, now)) + rest.output,
                pending: rest.pending,
                entries: rest.entries,
                failure: rest.failure,
            }
        } else {
            Served { output: Seq::<u8>::empty(), pending, entries, failure: None }
        },
        Parsed::Incomplete => Served { output: Seq::<u8>::empty(), pending, entries, failure: None },
        Parsed::Invalid => Served {
            output: Seq::<u8>::empty(),
            pending,
            entries,
            failure: Some(FramingError::Malformed),
        },
    }
}

/// Serves what is left when the peer has closed: bytes that remain after the
/// last whole request are a request cut short.
pub open spec fn served_at_end(pending: Seq<u8>, entries: Map<Seq<char>, Record>, now: u64) -> Served {
    let s = served(pending, entries, now);
    Served {
        output: s.output,
        pending: s.pending,
        entries: s.entries,
        failure: if s.failure is Some {
            s.failure
        } else if s.pending.len() > 0 {
            Some(FramingError::Truncated)
        } else {
            None
        },
    }
}

/// `s`, with `output` sent before it.
pub open spec fn preceded(output: Seq<u8>, s: Served) -> Served {
    Served {
        output: output + s.output,
        pending: s.pending,
        entries: s.entries,
        failure: s.failure,
    }
}

/// What the owner of a connection is to do after the session took its turn.
#[derive(Debug)]
pub struct Turn {
    /// The bytes to send to the peer.
    pub output: Vec<u8>,
    /// Why the connection is to be closed once the bytes are sent, if it is.
    pub failure: Option<FramingError>,
}

/// The state of one connection.
pub struct Session {
    decoder: Decoder,
}

impl View for Session {
    type V = Seq<u8>;

    /// The bytes received and not yet served.
    closed spec fn view(&self) -> Seq<u8> {
        self.decoder@
    }
}

impl Session {
    /// The state of a connection on which nothing has arrived.
    pub fn new() -> (session: Session)
        ensures
            session@ == Seq::<u8>::empty(),
    {
        Session { decoder: Decoder::new() }
    }

    /// Takes in a chunk that the peer sent at the instant `now`, serves every
    /// request that is now whole, and hands back the replies.
    pub fn receive(&mut self, chunk: &[u8], store: &mut Store, now: u64) -> (turn: Turn)
        ensures
            ({
                let s = served(old(self)@ + chunk@, old(store)@, now);
                &&& turn.output@ == s.output
                &&& turn.failure == s.failure
                &&& final(self)@ == s.pending
                &&& final(store)@ == s.entries
            }),
    {
        self.decoder.feed(chunk);
        let ghost whole = served(old(self)@ + chunk@, old(store)@, now);
        let mut output: Vec<u8> = Vec::new();
        assert(output@ + whole.output =~= whole.output);
        loop
            invariant
                whole == served(old(self)@ + chunk@, old(store)@, now),
                whole == preceded(output@, served(self.decoder@, store@, now)),
            decreases self.decoder@.len(),
        {
            let ghost pending = self.decoder@;
            let ghost entries = store@;
            let ghost sent = output@;
            proof {
                lemma_frame_bounds(pending, 0);
            }
            match self.decoder.next_value() {
                Ok(Some(request)) => {
                    let reply = respond(store, request, now);
                    encode_into(&reply, &mut output);
                    proof {
                        let rest = served(self.decoder@, store@, now);
                        assert(sent + (encoding(reply@) + rest.output) =~= (sent + encoding(
                            reply@,
                        )) + rest.output);
                    }
                },
                Ok(None) => {
                    assert(sent + Seq::<u8>::empty() =~= sent);
                    return Turn { output, failure: None };
                },
                Err(e) => {
                    assert(sent + Seq::<u8>::empty() =~= sent);
                    return Turn { output, failure: Some(e) };
                },
            }
        }
    }

    /// Serves what is left when the peer has closed its side at the instant
    /// `now`. The close is clean when no failure is reported: the stream ended
    /// between two requests.
    pub fn close(&mut self, store: &mut Store, now: u64) -> (turn: Turn)
        ensures
            ({
                let s = served_at_end(old(self)@, old(store)@, now);
                &&& turn.output@ == s.output
                &&& turn.failure == s.failure
                &&& final(self)@ == s.pending
                &&& final(store)@ == s.entries
            }),
    {
        let nothing: Vec<u8> = Vec::new();
        assert(old(self)@ + nothing@ =~= old(self)@);
        let turn = self.receive(nothing.as_slice(), store, now);
        if turn.failure.is_none() && self.decoder.pending() > 0 {
            Turn { output: turn.output, failure: Some(FramingError::Truncated) }
        } else {
            turn
        }
    }
}

/// How the bytes of a stream are cut into chunks makes no difference: serving a
/// first chunk and then a second one sends the same replies and leaves the same
/// store, the same pending bytes and the same failure as serving both at once.
/// Where the first chunk already ends in a failure, the second changes nothing
/// of it.
pub proof fn law_chunks_are_invisible(
    first: Seq<u8>,
    second: Seq<u8>,
    entries: Map<Seq<char>, Record>,
    now: u64,
)
    ensures
        ({
            let once = served(first + second, entries, now);
            let one = served(first, entries, now);
            let two = served(one.pending + second, one.entries, now);
            if one.failure is None {
                once == preceded(one.output, two)
            } else {
                once == (Served {
                    output: one.output,
                    pending: one.pending + second,
                    entries: one.entries,
                    failure: one.failure,
                })
            }
        }),
    decreases first.len(),
{
    let both = first + second;
    lemma_frame_bounds(first, 0);
    law_reading_is_final(first, second, 0);
    match decoding(first) {
        Parsed::Complete { value, end } => {
            let next = entries_after(entries, value, now);
            assert(both.skip(end) =~= first.skip(end) + second);
            law_chunks_are_invisible(first.skip(end), second, next, now);
            let reply = encoding(response_to(entries, value, now));
            let one = served(first.skip(end), next, now);
            let two = served(one.pending + second, one.entries, now);
            if one.failure is None {
                assert(reply + (one.output + two.output) =~= (reply + one.output) + two.output);
            }
        },
        Parsed::Incomplete => {
            let two = served(both, entries, now);
            assert(Seq::<u8>::empty() + two.output =~= two.output);
        },
        Parsed::Invalid => {},
    }
}

} // verus!
