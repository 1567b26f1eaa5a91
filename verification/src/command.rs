//! From a decoded request to a command.
//!
//! A request is an array of bulk strings: the first is the command's name, in
//! upper or lower case, the others are its arguments in order.
//!
//! | name | arguments                          |
//! |------|------------------------------------|
//! | PING | none needed                        |
//! | ECHO | a text                             |
//! | SET  | key, value, then `EX` seconds or `PX` milliseconds if the entry is to end |
//! | GET  | key                                |
//!
//! Arguments beyond those that a command reads are not looked at.

use crate::decimal::{fit_u64, parse_signed, parse_signed_u64};
use crate::store::Ttl;
use crate::text::{eq_ignoring_case, same_ignoring_case};
use crate::value::{contents, lemma_array_content, Content, Value};
use vstd::prelude::*;
use vstd::string::StringExecFns;
use vstd::utf8::encode_utf8;

verus! {

/// Why a request is not a command that can be run.
#[derive(Clone, Copy, Debug, PartialEq, Eq, Structural)]
pub enum CommandError {
    /// The request is not an array, or it is an array without elements.
    UnexpectedFormat,
    /// An element of the request, or an argument, is not a bulk string.
    NotBulkString,
    /// The name is none of the commands.
    UnknownCommand,
    /// An argument that the command needs is not there.
    MissingArgument,
    /// The duration is not a number that fits in 64 bits.
    InvalidDuration,
    /// The kind of expiry is neither `EX` nor `PX`.
    UnsupportedExpiry,
}

/// The text that tells a client of `error`.
pub open spec fn message_of(error: CommandError) -> Seq<char> {
    match error {
        CommandError::UnexpectedFormat => "ERR unexpected format"@,
        CommandError::NotBulkString => "ERR not a bulk string"@,
        CommandError::UnknownCommand => "ERR unknown command"@,
        CommandError::MissingArgument => "ERR wrong number of arguments"@,
        CommandError::InvalidDuration => "ERR value is not an integer or out of range"@,
        CommandError::UnsupportedExpiry => "ERR unsupported expiry type"@,
    }
}

impl CommandError {
    /// The text that tells a client of this error.
    pub fn message(&self) -> (text: String)
        ensures
            text@ == message_of(*self),
    {
        match self {
            CommandError::UnexpectedFormat => String::from_str("ERR unexpected format"),
            CommandError::NotBulkString => String::from_str("ERR not a bulk string"),
            CommandError::UnknownCommand => String::from_str("ERR unknown command"),
            CommandError::MissingArgument => String::from_str("ERR wrong number of arguments"),
            CommandError::InvalidDuration => String::from_str(
                "ERR value is not an integer or out of range",
            ),
            CommandError::UnsupportedExpiry => String::from_str("ERR unsupported expiry type"),
        }
    }
}

/// Whether every one of `items` is a bulk string.
pub open spec fn all_bulk(items: Seq<Content>) -> bool {
    forall|i: int| 0 <= i < items.len() ==> #[trigger] items[i] is BulkString
}

/// The name and the arguments that `request` holds.
pub open spec fn command_of(request: Content) -> Result<(Seq<char>, Seq<Content>), CommandError> {
    match request {
        Content::Array(items) => if items.len() == 0 {
            Err(CommandError::UnexpectedFormat)
        } else if !all_bulk(items) {
            Err(CommandError::NotBulkString)
        } else {
            Ok((items[0]->BulkString_0, items.skip(1)))
        },
        _ => Err(CommandError::UnexpectedFormat),
    }
}

/// The text of a bulk string.
pub fn unpack_bulk_str(value: Value) -> (result: Result<String, CommandError>)
    ensures
        match result {
            Ok(text) => value@ == Content::BulkString(text@),
            Err(e) => e == CommandError::NotBulkString && !(value@ is BulkString),
        },
{
    match value {
        Value::BulkString(text) => Ok(text),
        _ => Err(CommandError::NotBulkString),
    }
}

/// Tests whether every one of `items` is a bulk string.
fn only_bulk(items: &Vec<Value>) -> (r: bool)
    ensures
        r == all_bulk(contents(items@)),
{
    let mut i: usize = 0;
    while i < items.len()
        invariant
            i <= items.len(),
            forall|j: int| 0 <= j < i ==> #[trigger] contents(items@)[j] is BulkString,
        decreases items.len() - i,
    {
        match &items[i] {
            Value::BulkString(_) => {},
            _ => {
                assert(!(contents(items@)[i as int] is BulkString));
                return false;
            },
        }
        i = i + 1;
    }
    true
}

/// Takes a request apart into the command's name and its arguments.
pub fn extract_command(value: Value) -> (result: Result<(String, Vec<Value>), CommandError>)
    ensures
        match result {
            Ok((name, args)) => command_of(value@) == Ok::<
                (Seq<char>, Seq<Content>),
                CommandError,
            >((name@, contents(args@))),
            Err(e) => command_of(value@) == Err::<(Seq<char>, Seq<Content>), CommandError>(e),
        },
{
    match value {
        Value::Array(items) => {
            proof {
                lemma_array_content(items);
            }
            let ghost all = contents(items@);
            if items.len() == 0 {
                return Err(CommandError::UnexpectedFormat);
            }
            if !only_bulk(&items) {
                return Err(CommandError::NotBulkString);
            }
            let mut items = items;
            let args = items.split_off(1);
            assert(contents(args@) =~= all.skip(1));
            match items.pop() {
                Some(Value::BulkString(name)) => Ok((name, args)),
                _ => {
                    assert(all[0] is BulkString);
                    Err(CommandError::NotBulkString)
                },
            }
        },
        _ => Err(CommandError::UnexpectedFormat),
    }
}

/// A command with its arguments, ready to run.
#[derive(Debug)]
pub enum Command {
    /// Asks for a sign of life.
    Ping,
    /// Asks for the text back.
    Echo(String),
    /// Writes a value under a key, to end after the time to live if there is one.
    SetKey { key: String, value: String, ttl: Option<Ttl> },
    /// Reads the value under a key.
    GetKey { key: String },
}

/// The mathematical content of a [`Command`].
pub enum Request {
    Ping,
    Echo(Seq<char>),
    SetKey { key: Seq<char>, value: Seq<char>, ttl: Option<Ttl> },
    GetKey { key: Seq<char> },
}

impl View for Command {
    type V = Request;

    open spec fn view(&self) -> Request {
        match self {
            Command::Ping => Request::Ping,
            Command::Echo(text) => Request::Echo(text@),
            Command::SetKey { key, value, ttl } => Request::SetKey {
                key: key@,
                value: value@,
                ttl: *ttl,
            },
            Command::GetKey { key } => Request::GetKey { key: key@ },
        }
    }
}

/// The name `PING`.
pub open spec fn ping_name() -> Seq<char> {
    seq!['P', 'I', 'N', 'G']
}

/// The name `ECHO`.
pub open spec fn echo_name() -> Seq<char> {
    seq!['E', 'C', 'H', 'O']
}

/// The name `SET`.
pub open spec fn set_name() -> Seq<char> {
    seq!['S', 'E', 'T']
}

/// The name `GET`.
pub open spec fn get_name() -> Seq<char> {
    seq!['G', 'E', 'T']
}

/// The expiry kind `EX`: the duration counts seconds.
pub open spec fn ex_kind() -> Seq<char> {
    seq!['E', 'X']
}

/// The expiry kind `PX`: the duration counts milliseconds.
pub open spec fn px_kind() -> Seq<char> {
    seq!['P', 'X']
}

/// The number that the text of a duration denotes: digits, with or without a
/// plus sign before them, that denote a number of 64 bits.
pub open spec fn duration_of(text: Seq<char>) -> Option<u64> {
    fit_u64(parse_signed(encode_utf8(text)))
}

/// The time to live that the arguments of `SET` after the key and the value ask
/// for.
pub open spec fn ttl_of(args: Seq<Content>) -> Result<Option<Ttl>, CommandError> {
    if args.len() < 3 {
        Ok(None)
    } else if args.len() < 4 {
        Err(CommandError::MissingArgument)
    } else if !(args[2] is BulkString) || !(args[3] is BulkString) {
        Err(CommandError::NotBulkString)
    } else {
        let kind = args[2]->BulkString_0;
        match duration_of(args[3]->BulkString_0) {
            None => Err(CommandError::InvalidDuration),
            Some(amount) => if same_ignoring_case(kind, px_kind()) {
                Ok(Some(Ttl::Millis(amount)))
            } else if same_ignoring_case(kind, ex_kind()) {
                Ok(Some(Ttl::Seconds(amount)))
            } else {
                Err(CommandError::UnsupportedExpiry)
            },
        }
    }
}

/// The command that `name` and `args` ask for. The number of arguments is looked
/// at first, then their kinds, then the duration, then the kind of expiry.
pub open spec fn request_of(name: Seq<char>, args: Seq<Content>) -> Result<Request, CommandError> {
    if same_ignoring_case(name, ping_name()) {
        Ok(Request::Ping)
    } else if same_ignoring_case(name, echo_name()) {
        if args.len() < 1 {
            Err(CommandError::MissingArgument)
        } else if !(args[0] is BulkString) {
            Err(CommandError::NotBulkString)
        } else {
            Ok(Request::Echo(args[0]->BulkString_0))
        }
    } else if same_ignoring_case(name, set_name()) {
        if args.len() < 2 || args.len() == 3 {
            Err(CommandError::MissingArgument)
        } else if !(args[0] is BulkString) || !(args[1] is BulkString) {
            Err(CommandError::NotBulkString)
        } else {
            match ttl_of(args) {
                Err(e) => Err(e),
                Ok(ttl) => Ok(
                    Request::SetKey {
                        key: args[0]->BulkString_0,
                        value: args[1]->BulkString_0,
                        ttl,
                    },
                ),
            }
        }
    } else if same_ignoring_case(name, get_name()) {
        if args.len() < 1 {
            Err(CommandError::MissingArgument)
        } else if !(args[0] is BulkString) {
            Err(CommandError::NotBulkString)
        } else {
            Ok(Request::GetKey { key: args[0]->BulkString_0 })
        }
    } else {
        Err(CommandError::UnknownCommand)
    }
}

/// The text of the argument at position `i`, which must be a bulk string.
fn argument(args: &Vec<Value>, i: usize) -> (result: Result<&String, CommandError>)
    requires
        i < args.len(),
    ensures
        match result {
            Ok(text) => contents(args@)[i as int] == Content::BulkString(text@),
            Err(e) => e == CommandError::NotBulkString && !(contents(args@)[i as int]
                is BulkString),
        },
{
    match &args[i] {
        Value::BulkString(text) => Ok(text),
        _ => Err(CommandError::NotBulkString),
    }
}

/// Reads the time to live from the arguments of `SET`.
fn parse_ttl(args: &Vec<Value>) -> (result: Result<Option<Ttl>, CommandError>)
    ensures
        result == ttl_of(contents(args@)),
{
    if args.len() < 3 {
        return Ok(None);
    }
    if args.len() < 4 {
        return Err(CommandError::MissingArgument);
    }
    let kind = match argument(args, 2) {
        Ok(text) => text,
        Err(e) => {
            return Err(e);
        },
    };
    let amount_text = match argument(args, 3) {
        Ok(text) => text,
        Err(e) => {
            return Err(e);
        },
    };
    let amount = match parse_signed_u64(amount_text.as_str().as_bytes()) {
        Some(amount) => amount,
        None => {
            return Err(CommandError::InvalidDuration);
        },
    };
    proof {
        reveal_strlit("PX");
        reveal_strlit("EX");
        assert("PX"@ =~= px_kind());
        assert("EX"@ =~= ex_kind());
    }
    if eq_ignoring_case(kind.as_str(), "PX") {
        Ok(Some(Ttl::Millis(amount)))
    } else if eq_ignoring_case(kind.as_str(), "EX") {
        Ok(Some(Ttl::Seconds(amount)))
    } else {
        Err(CommandError::UnsupportedExpiry)
    }
}

/// Reads a command from its name and its arguments.
pub fn parse_command(name: &str, args: &Vec<Value>) -> (result: Result<Command, CommandError>)
    ensures
        match result {
            Ok(command) => request_of(name@, contents(args@)) == Ok::<Request, CommandError>(
                command@,
            ),
            Err(e) => request_of(name@, contents(args@)) == Err::<Request, CommandError>(e),
        },
{
    proof {
        reveal_strlit("PING");
        reveal_strlit("ECHO");
        reveal_strlit("SET");
        reveal_strlit("GET");
        assert("PING"@ =~= ping_name());
        assert("ECHO"@ =~= echo_name());
        assert("SET"@ =~= set_name());
        assert("GET"@ =~= get_name());
    }
    if eq_ignoring_case(name, "PING") {
        Ok(Command::Ping)
    } else if eq_ignoring_case(name, "ECHO") {
        if args.len() < 1 {
            return Err(CommandError::MissingArgument);
        }
        match argument(args, 0) {
            Ok(text) => Ok(Command::Echo(text.clone())),
            Err(e) => Err(e),
        }
    } else if eq_ignoring_case(name, "SET") {
        if args.len() < 2 || args.len() == 3 {
            return Err(CommandError::MissingArgument);
        }
        let key = match argument(args, 0) {
            Ok(text) => text,
            Err(e) => {
                return Err(e);
            },
        };
        let value = match argument(args, 1) {
            Ok(text) => text,
            Err(e) => {
                return Err(e);
            },
        };
        match parse_ttl(args) {
            Ok(ttl) => Ok(Command::SetKey { key: key.clone(), value: value.clone(), ttl }),
            Err(e) => Err(e),
        }
    } else if eq_ignoring_case(name, "GET") {
        if args.len() < 1 {
            return Err(CommandError::MissingArgument);
        }
        match argument(args, 0) {
            Ok(text) => Ok(Command::GetKey { key: text.clone() }),
            Err(e) => Err(e),
        }
    } else {
        Err(CommandError::UnknownCommand)
    }
}

} // verus!
