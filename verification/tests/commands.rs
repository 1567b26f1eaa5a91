use respkv::command::{
    extract_command, parse_command, unpack_bulk_str, Command, CommandError,
};
use respkv::executor::{error_reply, execute, respond, run};
use respkv::store::{Store, Ttl};
use respkv::value::Value;

fn bulk(text: &str) -> Value {
    Value::BulkString(text.to_string())
}

fn simple(text: &str) -> Value {
    Value::SimpleString(text.to_string())
}

fn request(words: &[&str]) -> Value {
    Value::Array(words.iter().map(|w| bulk(w)).collect())
}

fn args(words: &[&str]) -> Vec<Value> {
    words.iter().map(|w| bulk(w)).collect()
}

fn parsed(name: &str, words: &[&str]) -> Result<String, CommandError> {
    parse_command(name, &args(words)).map(|c| format!("{:?}", c))
}

#[test]
fn unpack_bulk_str_gives_the_text() {
    assert_eq!(unpack_bulk_str(bulk("FOO")), Ok("FOO".to_string()));
    assert_eq!(unpack_bulk_str(bulk("")), Ok(String::new()));
}

#[test]
fn unpack_bulk_str_refuses_other_values() {
    assert_eq!(unpack_bulk_str(simple("FOO")), Err(CommandError::NotBulkString));
    assert_eq!(unpack_bulk_str(Value::Null), Err(CommandError::NotBulkString));
    assert_eq!(unpack_bulk_str(Value::Error("e".to_string())), Err(CommandError::NotBulkString));
    assert_eq!(unpack_bulk_str(Value::Array(vec![bulk("a")])), Err(CommandError::NotBulkString));
}

#[test]
fn extract_command_splits_name_and_arguments() {
    assert_eq!(
        extract_command(request(&["SET", "FOO", "BAR"])),
        Ok(("SET".to_string(), vec![bulk("FOO"), bulk("BAR")]))
    );
    assert_eq!(extract_command(request(&["ping"])), Ok(("ping".to_string(), vec![])));
}

#[test]
fn extract_command_refuses_what_is_no_array() {
    assert_eq!(extract_command(bulk("PING")), Err(CommandError::UnexpectedFormat));
    assert_eq!(extract_command(simple("PING")), Err(CommandError::UnexpectedFormat));
    assert_eq!(extract_command(Value::Null), Err(CommandError::UnexpectedFormat));
    assert_eq!(
        extract_command(Value::Error("PING".to_string())),
        Err(CommandError::UnexpectedFormat)
    );
}

#[test]
fn extract_command_refuses_an_empty_array() {
    assert_eq!(extract_command(Value::Array(vec![])), Err(CommandError::UnexpectedFormat));
}

#[test]
fn extract_command_refuses_elements_that_are_no_bulk_strings() {
    assert_eq!(
        extract_command(Value::Array(vec![simple("PING")])),
        Err(CommandError::NotBulkString)
    );
    assert_eq!(
        extract_command(Value::Array(vec![bulk("ECHO"), Value::Null])),
        Err(CommandError::NotBulkString)
    );
    assert_eq!(
        extract_command(Value::Array(vec![bulk("ECHO"), bulk("a"), Value::Array(vec![])])),
        Err(CommandError::NotBulkString)
    );
}

#[test]
fn names_are_compared_without_regard_to_ascii_case_only() {
    assert_eq!(parsed("ping", &[]), Ok("Ping".to_string()));
    assert_eq!(parsed("PiNg", &[]), Ok("Ping".to_string()));
    assert_eq!(parsed("PIN", &[]), Err(CommandError::UnknownCommand));
    assert_eq!(parsed("PINGS", &[]), Err(CommandError::UnknownCommand));
    assert_eq!(parsed("P\u{131}NG", &[]), Err(CommandError::UnknownCommand));
    assert_eq!(parsed("\u{17f}ET", &["k", "v"]), Err(CommandError::UnknownCommand));
    assert_eq!(parsed("GE\u{74}", &["k"]), Ok("GetKey { key: \"k\" }".to_string()));
    assert_eq!(parsed("GEt\u{301}", &["k"]), Err(CommandError::UnknownCommand));
    assert_eq!(parsed("pINg", &[]), Ok("Ping".to_string()));
    assert_eq!(parsed("PING ", &[]), Err(CommandError::UnknownCommand));
    assert_eq!(parsed("P@NG", &[]), Err(CommandError::UnknownCommand));
    assert_eq!(
        parsed("SET", &["k", "v", "p\u{78}", "1"]),
        Ok("SetKey { key: \"k\", value: \"v\", ttl: Some(Millis(1)) }".to_string())
    );
    assert_eq!(parsed("SET", &["k", "v", "PX\u{0}", "1"]), Err(CommandError::UnsupportedExpiry));
    assert_eq!(parsed("SET", &["k", "v", "\u{e9}X", "1"]), Err(CommandError::UnsupportedExpiry));
}

#[test]
fn parse_command_reads_each_command() {
    assert_eq!(parsed("PING", &[]), Ok("Ping".to_string()));
    assert_eq!(parsed("ping", &["more"]), Ok("Ping".to_string()));
    assert_eq!(parsed("Echo", &["hi"]), Ok("Echo(\"hi\")".to_string()));
    assert_eq!(parsed("get", &["k"]), Ok("GetKey { key: \"k\" }".to_string()));
    assert_eq!(
        parsed("set", &["k", "v"]),
        Ok("SetKey { key: \"k\", value: \"v\", ttl: None }".to_string())
    );
    assert_eq!(
        parsed("SET", &["k", "v", "px", "50"]),
        Ok("SetKey { key: \"k\", value: \"v\", ttl: Some(Millis(50)) }".to_string())
    );
    assert_eq!(
        parsed("SET", &["k", "v", "Ex", "+7", "extra"]),
        Ok("SetKey { key: \"k\", value: \"v\", ttl: Some(Seconds(7)) }".to_string())
    );
    assert_eq!(
        parsed("SET", &["k", "v", "EX", "0"]),
        Ok("SetKey { key: \"k\", value: \"v\", ttl: Some(Seconds(0)) }".to_string())
    );
}

#[test]
fn parse_command_reports_each_error() {
    assert_eq!(parsed("FLUSH", &[]), Err(CommandError::UnknownCommand));
    assert_eq!(parsed("", &[]), Err(CommandError::UnknownCommand));
    assert_eq!(parsed("ECHO", &[]), Err(CommandError::MissingArgument));
    assert_eq!(parsed("GET", &[]), Err(CommandError::MissingArgument));
    assert_eq!(parsed("SET", &["k"]), Err(CommandError::MissingArgument));
    assert_eq!(parsed("SET", &["k", "v", "PX"]), Err(CommandError::MissingArgument));
    assert_eq!(parsed("SET", &["k", "v", "PX", "abc"]), Err(CommandError::InvalidDuration));
    assert_eq!(parsed("SET", &["k", "v", "PX", "-5"]), Err(CommandError::InvalidDuration));
    assert_eq!(parsed("SET", &["k", "v", "PX", ""]), Err(CommandError::InvalidDuration));
    assert_eq!(
        parsed("SET", &["k", "v", "PX", "18446744073709551616"]),
        Err(CommandError::InvalidDuration)
    );
    assert_eq!(parsed("SET", &["k", "v", "XX", "5"]), Err(CommandError::UnsupportedExpiry));
    assert_eq!(parsed("SET", &["k", "v", "XX", "abc"]), Err(CommandError::InvalidDuration));
    assert_eq!(
        parse_command("GET", &vec![Value::Null]).map(|_| ()),
        Err(CommandError::NotBulkString)
    );
    assert_eq!(
        parse_command("ECHO", &vec![simple("a")]).map(|_| ()),
        Err(CommandError::NotBulkString)
    );
    assert_eq!(
        parse_command("SET", &vec![bulk("k"), Value::Null]).map(|_| ()),
        Err(CommandError::NotBulkString)
    );
    assert_eq!(
        parse_command("SET", &vec![bulk("k"), bulk("v"), bulk("PX"), Value::Null]).map(|_| ()),
        Err(CommandError::NotBulkString)
    );
}

#[test]
fn ping_is_answered_with_pong() {
    let mut store = Store::new();
    assert_eq!(execute(&mut store, "PING", &vec![], 0), Ok(simple("PONG")));
    assert_eq!(run(&mut store, Command::Ping, 0), simple("PONG"));
    assert_eq!(store.len(), 0);
}

#[test]
fn echo_gives_the_text_back() {
    let mut store = Store::new();
    assert_eq!(execute(&mut store, "echo", &args(&["hello world"]), 0), Ok(bulk("hello world")));
    assert_eq!(store.len(), 0);
}

#[test]
fn set_then_get() {
    let mut store = Store::new();
    assert_eq!(execute(&mut store, "SET", &args(&["FOO", "BAR"]), 5), Ok(simple("OK")));
    assert_eq!(execute(&mut store, "GET", &args(&["FOO"]), 6), Ok(bulk("BAR")));
    assert_eq!(execute(&mut store, "GET", &args(&["foo"]), 6), Ok(Value::Null));
}

#[test]
fn a_failed_command_leaves_the_store_alone() {
    let mut store = Store::new();
    assert_eq!(
        execute(&mut store, "SET", &args(&["FOO", "BAR", "PX", "soon"]), 0),
        Err(CommandError::InvalidDuration)
    );
    assert_eq!(store.len(), 0);
    assert_eq!(execute(&mut store, "GET", &args(&["FOO"]), 0), Ok(Value::Null));
}

#[test]
fn respond_answers_errors_with_an_error_value() {
    let mut store = Store::new();
    assert_eq!(
        respond(&mut store, request(&["NOPE"]), 0),
        Value::Error("ERR unknown command".to_string())
    );
    assert_eq!(
        respond(&mut store, bulk("PING"), 0),
        Value::Error("ERR unexpected format".to_string())
    );
    assert_eq!(
        respond(&mut store, Value::Array(vec![Value::Null]), 0),
        Value::Error("ERR not a bulk string".to_string())
    );
    assert_eq!(
        respond(&mut store, request(&["SET", "k"]), 0),
        Value::Error("ERR wrong number of arguments".to_string())
    );
    assert_eq!(
        respond(&mut store, request(&["SET", "k", "v", "EX", "x"]), 0),
        Value::Error("ERR value is not an integer or out of range".to_string())
    );
    assert_eq!(
        respond(&mut store, request(&["SET", "k", "v", "NX", "1"]), 0),
        Value::Error("ERR unsupported expiry type".to_string())
    );
    assert_eq!(respond(&mut store, request(&["ping"]), 0), simple("PONG"));
}

#[test]
fn error_messages() {
    let all = [
        (CommandError::UnexpectedFormat, "ERR unexpected format"),
        (CommandError::NotBulkString, "ERR not a bulk string"),
        (CommandError::UnknownCommand, "ERR unknown command"),
        (CommandError::MissingArgument, "ERR wrong number of arguments"),
        (CommandError::InvalidDuration, "ERR value is not an integer or out of range"),
        (CommandError::UnsupportedExpiry, "ERR unsupported expiry type"),
    ];
    for (error, text) in all {
        assert_eq!(error.message(), text);
        assert_eq!(error_reply(error), Value::Error(text.to_string()));
    }
}

#[test]
fn ttl_in_milliseconds() {
    assert_eq!(Ttl::Millis(50).as_millis(), 50);
    assert_eq!(Ttl::Seconds(2).as_millis(), 2000);
    assert_eq!(Ttl::Seconds(u64::MAX).as_millis(), 18_446_744_073_709_551_615_000u128);
    assert_eq!(Ttl::Millis(0).as_millis(), 0);
}
