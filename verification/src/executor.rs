//! Running commands against the store.
//!
//! | command | effect on the store        | reply                                  |
//! |---------|----------------------------|----------------------------------------|
//! | PING    | none                       | the simple string `PONG`               |
//! | ECHO    | none                       | the text, as a bulk string             |
//! | SET     | writes the entry           | the simple string `OK`                 |
//! | GET     | removes the entry if ended | the value as a bulk string, or null    |
//!
//! A request that is no command changes nothing and is answered with an error
//! value; the connection stays usable.

use crate::command::{
    command_of, extract_command, message_of, parse_command, request_of, Command, CommandError,
    Request,
};
use crate::store::{found, swept, written, Record, Store};
use crate::value::{contents, Content, Value};
use crate::text::one_line;
use crate::wire::well_formed;
use vstd::prelude::*;
use vstd::string::StringExecFns;

verus! {

/// The text `PONG`.
pub open spec fn pong() -> Seq<char> {
    seq!['P', 'O', 'N', 'G']
}

/// The text `OK`.
pub open spec fn ok() -> Seq<char> {
    seq!['O', 'K']
}

/// The reply to `request` when the store holds `entries` and the clock shows `now`.
pub open spec fn reply_to(entries: Map<Seq<char>, Record>, request: Request, now: u64) -> Content {
    match request {
        Request::Ping => Content::SimpleString(pong()),
        Request::Echo(text) => Content::BulkString(text),
        Request::SetKey { .. } => Content::SimpleString(ok()),
        Request::GetKey { key } => match found(entries, key, now) {
            Some(value) => Content::BulkString(value),
            None => Content::Null,
        },
    }
}

/// What the store holds after `request` has run.
pub open spec fn effect_of(entries: Map<Seq<char>, Record>, request: Request, now: u64) -> Map<
    Seq<char>,
    Record,
> {
    match request {
        Request::SetKey { key, value, ttl } => written(entries, key, value, ttl, now),
        Request::GetKey { key } => swept(entries, key, now),
        _ => entries,
    }
}

/// A text without carriage return holds no line break.
proof fn lemma_plain_text(text: Seq<char>)
    requires
        forall|i: int| 0 <= i < text.len() ==> #[trigger] text[i] != '\r',
    ensures
        one_line(text),
{
}

/// A bulk string that holds `text`.
fn bulk(text: String) -> (value: Value)
    ensures
        value@ == Content::BulkString(text@),
        well_formed(value@),
{
    // A text in memory has a length in bytes that can be addressed.
    let size = text.as_str().as_bytes().len();
    Value::BulkString(text)
}

/// Runs `command` at the instant `now`.
pub fn run(store: &mut Store, command: Command, now: u64) -> (reply: Value)
    ensures
        reply@ == reply_to(old(store)@, command@, now),
        final(store)@ == effect_of(old(store)@, command@, now),
        well_formed(reply@),
{
    match command {
        Command::Ping => {
            proof {
                reveal_strlit("PONG");
                assert("PONG"@ =~= pong());
                lemma_plain_text(pong());
            }
            Value::SimpleString(String::from_str("PONG"))
        },
        Command::Echo(text) => bulk(text),
        Command::SetKey { key, value, ttl } => {
            store.set(key, value, ttl, now);
            proof {
                reveal_strlit("OK");
                assert("OK"@ =~= ok());
                lemma_plain_text(ok());
            }
            Value::SimpleString(String::from_str("OK"))
        },
        Command::GetKey { key } => match store.get(key.as_str(), now) {
            Some(value) => bulk(value),
            None => Value::Null,
        },
    }
}

/// Runs the command that `name` and `args` ask for at the instant `now`. Where
/// they ask for none the store stays as it is.
pub fn execute(store: &mut Store, name: &str, args: &Vec<Value>, now: u64) -> (result: Result<
    Value,
    CommandError,
>)
    ensures
        match request_of(name@, contents(args@)) {
            Ok(request) => result matches Ok(reply) && reply@ == reply_to(
                old(store)@,
                request,
                now,
            ) && well_formed(reply@) && final(store)@ == effect_of(old(store)@, request, now),
            Err(e) => result matches Err(got) && got == e && final(store)@ == old(store)@,
        },
{
    match parse_command(name, args) {
        Ok(command) => Ok(run(store, command, now)),
        Err(e) => Err(e),
    }
}

/// The command that `request` asks for.
pub open spec fn asked(request: Content) -> Result<Request, CommandError> {
    match command_of(request) {
        Ok((name, args)) => request_of(name, args),
        Err(e) => Err(e),
    }
}

/// The reply to a decoded request: that of its command, or an error value that
/// says why it is none.
pub open spec fn response_to(entries: Map<Seq<char>, Record>, request: Content, now: u64) -> Content {
    match asked(request) {
        Ok(command) => reply_to(entries, command, now),
        Err(e) => Content::Error(message_of(e)),
    }
}

/// What the store holds after a decoded request was answered.
pub open spec fn entries_after(entries: Map<Seq<char>, Record>, request: Content, now: u64) -> Map<
    Seq<char>,
    Record,
> {
    match asked(request) {
        Ok(command) => effect_of(entries, command, now),
        Err(_) => entries,
    }
}

/// The error value that tells a client of `error`.
pub fn error_reply(error: CommandError) -> (reply: Value)
    ensures
        reply@ == Content::Error(message_of(error)),
        well_formed(reply@),
{
    proof {
        reveal_strlit("ERR unexpected format");
        reveal_strlit("ERR not a bulk string");
        reveal_strlit("ERR unknown command");
        reveal_strlit("ERR wrong number of arguments");
        reveal_strlit("ERR value is not an integer or out of range");
        reveal_strlit("ERR unsupported expiry type");
        lemma_plain_text(message_of(error));
    }
    Value::Error(error.message())
}

/// Answers a decoded request at the instant `now`.
pub fn respond(store: &mut Store, request: Value, now: u64) -> (reply: Value)
    ensures
        reply@ == response_to(old(store)@, request@, now),
        final(store)@ == entries_after(old(store)@, request@, now),
        well_formed(reply@),
{
    let (name, args) = match extract_command(request) {
        Ok(parts) => parts,
        Err(e) => {
            return error_reply(e);
        },
    };
    match parse_command(name.as_str(), &args) {
        Ok(command) => run(store, command, now),
        Err(e) => error_reply(e),
    }
}

} // verus!
