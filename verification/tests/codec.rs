use respkv::decimal::{parse_signed_u64, parse_u64, push_numeral};
use respkv::decode::{find_line, read_frame, read_frames, Frame, Frames};
use respkv::decoder::{Decoder, FramingError};
use respkv::encode::{encode, encode_into, is_well_formed};
use respkv::value::{duplicate, Value};

fn simple(text: &str) -> Value {
    Value::SimpleString(text.to_string())
}

fn bulk(text: &str) -> Value {
    Value::BulkString(text.to_string())
}

fn decode_whole(bytes: &[u8]) -> Result<Option<Value>, FramingError> {
    let mut decoder = Decoder::new();
    decoder.feed(bytes);
    decoder.next_value()
}

fn sample_values() -> Vec<Value> {
    vec![
        simple("OK"),
        simple(""),
        simple("lone \r and lone \n are no line break"),
        simple("ends with a carriage return\r"),
        Value::Error("ERR unknown command".to_string()),
        bulk(""),
        bulk("BAR"),
        bulk("two\r\nlines"),
        bulk("caf\u{e9} \u{1f600}"),
        Value::Null,
        Value::Array(vec![]),
        Value::Array(vec![bulk("SET"), bulk("FOO"), bulk("BAR")]),
        Value::Array(vec![
            Value::Array(vec![Value::Null, simple("a")]),
            bulk("0123456789"),
            Value::Array(vec![Value::Array(vec![])]),
        ]),
    ]
}

#[test]
fn encodes_a_simple_string() {
    assert_eq!(encode(&simple("PONG")), b"+PONG\r\n".to_vec());
}

#[test]
fn encodes_an_error() {
    assert_eq!(encode(&Value::Error("ERR no".to_string())), b"-ERR no\r\n".to_vec());
}

#[test]
fn encodes_a_bulk_string_with_its_length_in_bytes() {
    assert_eq!(encode(&bulk("BAR")), b"$3\r\nBAR\r\n".to_vec());
    assert_eq!(encode(&bulk("")), b"$0\r\n\r\n".to_vec());
    assert_eq!(encode(&bulk("caf\u{e9}")), b"$5\r\ncaf\xc3\xa9\r\n".to_vec());
    assert_eq!(encode(&bulk("0123456789")), b"$10\r\n0123456789\r\n".to_vec());
}

#[test]
fn encodes_null() {
    assert_eq!(encode(&Value::Null), b"$-1\r\n".to_vec());
}

#[test]
fn encodes_an_array() {
    let value = Value::Array(vec![bulk("GET"), bulk("FOO")]);
    assert_eq!(encode(&value), b"*2\r\n$3\r\nGET\r\n$3\r\nFOO\r\n".to_vec());
    assert_eq!(encode(&Value::Array(vec![])), b"*0\r\n".to_vec());
}

#[test]
fn encode_into_appends() {
    let mut out = b"+A\r\n".to_vec();
    encode_into(&Value::Null, &mut out);
    assert_eq!(out, b"+A\r\n$-1\r\n".to_vec());
}

#[test]
fn decodes_each_kind_of_frame() {
    assert_eq!(decode_whole(b"+OK\r\n"), Ok(Some(simple("OK"))));
    assert_eq!(decode_whole(b"-ERR no\r\n"), Ok(Some(Value::Error("ERR no".to_string()))));
    assert_eq!(decode_whole(b"$3\r\nBAR\r\n"), Ok(Some(bulk("BAR"))));
    assert_eq!(decode_whole(b"$-1\r\n"), Ok(Some(Value::Null)));
    assert_eq!(
        decode_whole(b"*2\r\n$4\r\nECHO\r\n$2\r\nhi\r\n"),
        Ok(Some(Value::Array(vec![bulk("ECHO"), bulk("hi")])))
    );
}

#[test]
fn decodes_a_payload_that_holds_a_line_break() {
    assert_eq!(decode_whole(b"$5\r\na\r\nbc\r\n"), Ok(Some(bulk("a\r\nbc"))));
}

#[test]
fn decodes_a_length_with_leading_zeros() {
    assert_eq!(decode_whole(b"$003\r\nBAR\r\n"), Ok(Some(bulk("BAR"))));
}

#[test]
fn round_trip_of_sample_values() {
    for value in sample_values() {
        assert!(is_well_formed(&value));
        let bytes = encode(&value);
        let mut decoder = Decoder::new();
        decoder.feed(&bytes);
        assert_eq!(decoder.next_value(), Ok(Some(duplicate(&value))));
        assert_eq!(decoder.pending(), 0);
        assert_eq!(decoder.finish(), Ok(None));
    }
}

#[test]
fn a_frame_cut_anywhere_asks_for_more() {
    for value in sample_values() {
        let bytes = encode(&value);
        for cut in 0..bytes.len() {
            let mut decoder = Decoder::new();
            decoder.feed(&bytes[..cut]);
            assert_eq!(decoder.next_value(), Ok(None));
            assert_eq!(decoder.pending(), cut);
            decoder.feed(&bytes[cut..]);
            assert_eq!(decoder.next_value(), Ok(Some(value.clone())));
            assert_eq!(decoder.pending(), 0);
        }
    }
}

#[test]
fn byte_by_byte_delivery_gives_the_same_value() {
    for value in sample_values() {
        let bytes = encode(&value);
        let mut decoder = Decoder::new();
        for (i, byte) in bytes.iter().enumerate() {
            decoder.feed(&[*byte]);
            let got = decoder.next_value();
            if i + 1 < bytes.len() {
                assert_eq!(got, Ok(None));
            } else {
                assert_eq!(got, Ok(Some(value.clone())));
            }
        }
        assert_eq!(decoder.pending(), 0);
    }
}

#[test]
fn a_frame_does_not_use_the_bytes_of_the_next() {
    let mut decoder = Decoder::new();
    decoder.feed(b"$3\r\nBAR\r\n+OK\r\n$-1");
    assert_eq!(decoder.next_value(), Ok(Some(bulk("BAR"))));
    assert_eq!(decoder.pending(), 8);
    assert_eq!(decoder.next_value(), Ok(Some(simple("OK"))));
    assert_eq!(decoder.pending(), 3);
    assert_eq!(decoder.next_value(), Ok(None));
    assert_eq!(decoder.pending(), 3);
}

#[test]
fn an_unknown_tag_is_malformed() {
    assert_eq!(decode_whole(b"?what\r\n"), Err(FramingError::Malformed));
    assert_eq!(decode_whole(b":12\r\n"), Err(FramingError::Malformed));
    assert_eq!(decode_whole(b"PING\r\n"), Err(FramingError::Malformed));
}

#[test]
fn a_negative_length_other_than_minus_one_is_malformed() {
    assert_eq!(decode_whole(b"$-2\r\n"), Err(FramingError::Malformed));
    assert_eq!(decode_whole(b"$-10\r\n"), Err(FramingError::Malformed));
    assert_eq!(decode_whole(b"*-1\r\n"), Err(FramingError::Malformed));
}

#[test]
fn a_length_that_is_no_number_is_malformed() {
    assert_eq!(decode_whole(b"$\r\n"), Err(FramingError::Malformed));
    assert_eq!(decode_whole(b"$3x\r\nBAR\r\n"), Err(FramingError::Malformed));
    assert_eq!(decode_whole(b"$+3\r\nBAR\r\n"), Err(FramingError::Malformed));
    assert_eq!(decode_whole(b"* 1\r\n+a\r\n"), Err(FramingError::Malformed));
    assert_eq!(
        decode_whole(b"$99999999999999999999999999\r\nBAR\r\n"),
        Err(FramingError::Malformed)
    );
}

#[test]
fn a_payload_without_its_line_break_is_malformed() {
    assert_eq!(decode_whole(b"$3\r\nBARxy"), Err(FramingError::Malformed));
    assert_eq!(decode_whole(b"$3\r\nBAR\n\r"), Err(FramingError::Malformed));
}

#[test]
fn bytes_that_are_no_text_are_malformed() {
    assert_eq!(decode_whole(b"$2\r\n\xff\xfe\r\n"), Err(FramingError::Malformed));
    assert_eq!(decode_whole(b"+\xc3\r\n"), Err(FramingError::Malformed));
    assert_eq!(decode_whole(b"-\x80\r\n"), Err(FramingError::Malformed));
}

#[test]
fn a_malformed_element_makes_the_array_malformed() {
    assert_eq!(decode_whole(b"*2\r\n+a\r\n!b\r\n"), Err(FramingError::Malformed));
}

#[test]
fn malformed_bytes_are_kept() {
    let mut decoder = Decoder::new();
    decoder.feed(b"+OK\r\n?x\r\n+NEXT\r\n");
    assert_eq!(decoder.next_value(), Ok(Some(simple("OK"))));
    assert_eq!(decoder.next_value(), Err(FramingError::Malformed));
    assert_eq!(decoder.pending(), 11);
    assert_eq!(decoder.next_value(), Err(FramingError::Malformed));
}

#[test]
fn a_stream_that_ends_between_frames_ends_cleanly() {
    let mut decoder = Decoder::new();
    assert_eq!(decoder.finish(), Ok(None));
    decoder.feed(b"+OK\r\n");
    assert_eq!(decoder.finish(), Ok(Some(simple("OK"))));
    assert_eq!(decoder.finish(), Ok(None));
}

#[test]
fn a_stream_that_ends_inside_a_frame_is_truncated() {
    let mut decoder = Decoder::new();
    decoder.feed(b"*2\r\n$3\r\nGET\r\n$3\r\nFO");
    assert_eq!(decoder.next_value(), Ok(None));
    assert_eq!(decoder.finish(), Err(FramingError::Truncated));
    assert_eq!(decoder.pending(), 19);
}

#[test]
fn a_stream_that_ends_on_malformed_bytes_is_malformed() {
    let mut decoder = Decoder::new();
    decoder.feed(b"hello");
    assert_eq!(decoder.finish(), Err(FramingError::Malformed));
}

#[test]
fn read_frame_reports_where_the_frame_ends() {
    let buf = b"xx+OK\r\n$3\r\nBAR\r\n";
    match read_frame(buf, 2) {
        Frame::Complete { value, end } => {
            assert_eq!(value, simple("OK"));
            assert_eq!(end, 7);
        }
        other => panic!("unexpected: {:?}", other),
    }
    match read_frame(buf, 7) {
        Frame::Complete { value, end } => {
            assert_eq!(value, bulk("BAR"));
            assert_eq!(end, 16);
        }
        other => panic!("unexpected: {:?}", other),
    }
    assert!(matches!(read_frame(buf, 16), Frame::Incomplete));
    assert!(matches!(read_frame(buf, 40), Frame::Incomplete));
    assert!(matches!(read_frame(buf, 0), Frame::Invalid));
}

#[test]
fn read_frames_reads_a_run() {
    let buf = b"+a\r\n+b\r\n+c";
    match read_frames(buf, 0, 2) {
        Frames::Complete { values, end } => {
            assert_eq!(values, vec![simple("a"), simple("b")]);
            assert_eq!(end, 8);
        }
        other => panic!("unexpected: {:?}", other),
    }
    assert!(matches!(read_frames(buf, 0, 3), Frames::Incomplete));
    match read_frames(buf, 4, 0) {
        Frames::Complete { values, end } => {
            assert!(values.is_empty());
            assert_eq!(end, 4);
        }
        other => panic!("unexpected: {:?}", other),
    }
}

#[test]
fn an_array_count_larger_than_the_data_asks_for_more() {
    assert_eq!(decode_whole(b"*1000000000\r\n+a\r\n"), Ok(None));
}

#[test]
fn find_line_finds_the_first_line_break() {
    assert_eq!(find_line(b"ab\r\ncd\r\n", 0), Some(2));
    assert_eq!(find_line(b"ab\r\ncd\r\n", 2), Some(2));
    assert_eq!(find_line(b"ab\r\ncd\r\n", 3), Some(6));
    assert_eq!(find_line(b"ab\r\ncd\r\n", 7), None);
    assert_eq!(find_line(b"ab\r", 0), None);
    assert_eq!(find_line(b"a\n\rb", 0), None);
    assert_eq!(find_line(b"", 5), None);
}

#[test]
fn texts_with_a_line_break_are_not_well_formed() {
    assert!(!is_well_formed(&simple("a\r\nb")));
    assert!(!is_well_formed(&Value::Error("\r\n".to_string())));
    assert!(!is_well_formed(&Value::Array(vec![bulk("x"), simple("a\r\n")])));
    assert!(is_well_formed(&bulk("a\r\nb")));
    assert!(is_well_formed(&simple("a\n\rb")));
}

#[test]
fn a_simple_string_with_a_line_break_does_not_come_back() {
    let bytes = encode(&simple("a\r\nb"));
    assert_eq!(bytes, b"+a\r\nb\r\n".to_vec());
    assert_eq!(decode_whole(&bytes), Ok(Some(simple("a"))));
}

#[test]
fn parse_u64_reads_digits() {
    assert_eq!(parse_u64(b"0"), Some(0));
    assert_eq!(parse_u64(b"007"), Some(7));
    assert_eq!(parse_u64(b"1234567890"), Some(1234567890));
    assert_eq!(parse_u64(b"18446744073709551615"), Some(u64::MAX));
    assert_eq!(parse_u64(b"18446744073709551616"), None);
    assert_eq!(parse_u64(b"99999999999999999999999"), None);
    assert_eq!(parse_u64(b""), None);
    assert_eq!(parse_u64(b"12a"), None);
    assert_eq!(parse_u64(b"-1"), None);
    assert_eq!(parse_u64(b"+1"), None);
    assert_eq!(parse_u64(b" 1"), None);
}

#[test]
fn parse_signed_u64_takes_a_plus_sign() {
    assert_eq!(parse_signed_u64(b"+50"), Some(50));
    assert_eq!(parse_signed_u64(b"50"), Some(50));
    assert_eq!(parse_signed_u64(b"+"), None);
    assert_eq!(parse_signed_u64(b"++5"), None);
    assert_eq!(parse_signed_u64(b"-5"), None);
    assert_eq!(parse_signed_u64(b""), None);
    assert_eq!(parse_signed_u64(b"+18446744073709551615"), Some(u64::MAX));
    assert_eq!(parse_signed_u64(b"+18446744073709551616"), None);
}

#[test]
fn push_numeral_writes_the_shortest_numeral() {
    for (n, text) in [(0usize, "0"), (9, "9"), (10, "10"), (105, "105"), (4096, "4096")] {
        let mut out = b"x".to_vec();
        push_numeral(&mut out, n);
        assert_eq!(out, format!("x{}", text).into_bytes());
    }
    let mut out = Vec::new();
    push_numeral(&mut out, usize::MAX);
    assert_eq!(out, usize::MAX.to_string().into_bytes());
}

#[test]
fn duplicate_copies_nested_values() {
    for value in sample_values() {
        assert_eq!(duplicate(&value), value);
        assert_eq!(value.clone(), value);
    }
}
