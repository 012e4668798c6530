use redis_lite::resp::{
    parse_client_bytes, parse_request_prefix, push_decimal, Array, BulkString, Integer, Null, Resp,
    RespValue, SimpleError, SimpleString,
};

fn out(r: &Resp) -> Vec<u8> {
    r.to_output().expect("renderable")
}

#[test]
fn renders_simple_string() {
    let r = Resp::SimpleString(SimpleString(b"PONG".to_vec()));
    assert_eq!(out(&r), b"+PONG\r\n".to_vec());
}

#[test]
fn renders_error() {
    let r = Resp::SimpleError(SimpleError(b"ERR bad".to_vec()));
    assert_eq!(out(&r), b"-ERR bad\r\n".to_vec());
}

#[test]
fn renders_integers() {
    assert_eq!(out(&Resp::Integer(Integer(0))), b":0\r\n".to_vec());
    assert_eq!(out(&Resp::Integer(Integer(-42))), b":-42\r\n".to_vec());
    assert_eq!(
        out(&Resp::Integer(Integer(i64::MIN))),
        b":-9223372036854775808\r\n".to_vec()
    );
    assert_eq!(
        out(&Resp::Integer(Integer(i64::MAX))),
        b":9223372036854775807\r\n".to_vec()
    );
}

#[test]
fn renders_bulk_string_with_terminator_inside() {
    let r = Resp::BulkString(BulkString(b"a\r\nb".to_vec()));
    assert_eq!(out(&r), b"$4\r\na\r\nb\r\n".to_vec());
}

#[test]
fn renders_null_in_legacy_form() {
    assert_eq!(out(&Resp::Null(Null)), b"$-1\r\n".to_vec());
    assert_eq!(Null.to_output(), Some(b"$-1\r\n".to_vec()));
}

#[test]
fn renders_nested_array() {
    let inner = Resp::Array(Array(vec![Resp::Integer(Integer(1))]));
    let r = Resp::Array(Array(vec![
        Resp::BulkString(BulkString(b"dir".to_vec())),
        inner,
        Resp::Null(Null),
    ]));
    assert_eq!(out(&r), b"*3\r\n$3\r\ndir\r\n*1\r\n:1\r\n$-1\r\n".to_vec());
}

#[test]
fn refuses_line_terminator_in_simple_string() {
    assert!(Resp::SimpleString(SimpleString(b"a\rb".to_vec())).to_output().is_none());
    assert!(SimpleError(b"a\nb".to_vec()).to_output().is_none());
    let nested = Resp::Array(Array(vec![Resp::SimpleString(SimpleString(b"x\n".to_vec()))]));
    assert!(nested.to_output().is_none());
}

#[test]
fn first_bytes() {
    assert_eq!(Resp::SimpleString(SimpleString(vec![])).first_byte(), b'+');
    assert_eq!(Resp::Array(Array(vec![])).first_byte(), b'*');
    assert_eq!(Resp::Integer(Integer(3)).first_byte(), b':');
}

#[test]
fn push_decimal_spells_numbers() {
    let mut v = b"x".to_vec();
    push_decimal(&mut v, 1234567890);
    assert_eq!(v, b"x1234567890".to_vec());
    let mut z = Vec::new();
    push_decimal(&mut z, 0);
    assert_eq!(z, b"0".to_vec());
}

fn round_trip(r: Resp) {
    let bytes = out(&r);
    let (back, n) = Resp::to_resp(&bytes).expect("parses");
    assert_eq!(n, bytes.len());
    assert_eq!(out(&back), bytes);
}

#[test]
fn every_variant_round_trips() {
    round_trip(Resp::SimpleString(SimpleString(b"hello world".to_vec())));
    round_trip(Resp::SimpleError(SimpleError(b"ERR x".to_vec())));
    round_trip(Resp::Integer(Integer(-7)));
    round_trip(Resp::Integer(Integer(i64::MIN)));
    round_trip(Resp::BulkString(BulkString(b"\r\n\x00\xff".to_vec())));
    round_trip(Resp::BulkString(BulkString(vec![])));
    round_trip(Resp::Null(Null));
    round_trip(Resp::Array(Array(vec![])));
    round_trip(Resp::Array(Array(vec![
        Resp::Array(Array(vec![Resp::Integer(Integer(5))])),
        Resp::BulkString(BulkString(b"v".to_vec())),
    ])));
}

#[test]
fn null_parses_back_as_null() {
    let (back, n) = Resp::to_resp(b"$-1\r\n").unwrap();
    assert_eq!(n, 5);
    assert!(matches!(back, Resp::Null(_)));
    let (back, _) = Resp::to_resp(b"_\r\n").unwrap();
    assert!(matches!(back, Resp::Null(_)));
}

#[test]
fn reply_parser_refuses_bad_input() {
    assert!(Resp::to_resp(b"").is_none());
    assert!(Resp::to_resp(b"+OK").is_none());
    assert!(Resp::to_resp(b"+O\nK\r\n").is_none());
    assert!(Resp::to_resp(b":12a\r\n").is_none());
    assert!(Resp::to_resp(b":9223372036854775808\r\n").is_none());
    assert!(Resp::to_resp(b"$5\r\nabc\r\n").is_none());
    assert!(Resp::to_resp(b"*2\r\n:1\r\n").is_none());
    assert!(Resp::to_resp(b"?x\r\n").is_none());
}

#[test]
fn reply_parser_reports_consumed_prefix() {
    let (r, n) = Resp::to_resp(b"+OK\r\n+NEXT\r\n").unwrap();
    assert_eq!(n, 5);
    assert!(matches!(r, Resp::SimpleString(SimpleString(ref s)) if s == b"OK"));
}

#[test]
fn parses_ping_request() {
    let items = parse_client_bytes(b"*1\r\n$4\r\nPING\r\n").unwrap();
    assert_eq!(items, vec![b"PING".to_vec()]);
}

#[test]
fn parses_echo_request() {
    let items = parse_client_bytes(b"*2\r\n$4\r\nECHO\r\n$5\r\nhello\r\n").unwrap();
    assert_eq!(items, vec![b"ECHO".to_vec(), b"hello".to_vec()]);
}

#[test]
fn bulk_strings_may_hold_terminators() {
    let items = parse_client_bytes(b"*1\r\n$4\r\na\r\nb\r\n").unwrap();
    assert_eq!(items, vec![b"a\r\nb".to_vec()]);
}

#[test]
fn malformed_requests_are_refused() {
    let cases: Vec<&[u8]> = vec![
        b"",
        b"+PING\r\n",
        b"*2\r\n$4\r\nPING\r\n",
        b"*1\r\n$5\r\nPING\r\n",
        b"*1\r\n$x\r\nPING\r\n",
        b"*-1\r\n",
        b"*1\r\n$4\r\nPI",
        b"*1\r\n:4\r\n",
        b"*1\r\n$4\r\nPING\r\nextra",
    ];
    for c in cases {
        let e = parse_client_bytes(c).unwrap_err();
        assert_eq!(e.0, b"ERR malformed frame".to_vec());
    }
}

#[test]
fn request_round_trip_is_byte_identical() {
    let items = vec![b"SET".to_vec(), b"k\r\n".to_vec(), vec![], b"v".to_vec()];
    let arr = Resp::Array(Array(
        items.iter().map(|i| Resp::BulkString(BulkString(i.clone()))).collect(),
    ));
    let bytes = out(&arr);
    let parsed = parse_client_bytes(&bytes).unwrap();
    assert_eq!(parsed, items);
    let again = Resp::Array(Array(
        parsed.into_iter().map(|i| Resp::BulkString(BulkString(i))).collect(),
    ));
    assert_eq!(out(&again), bytes);
}

#[test]
fn prefix_parser_leaves_pipelined_rest() {
    let buf = b"*1\r\n$4\r\nPING\r\n*1\r\n$4\r\nPI";
    let (items, n) = parse_request_prefix(buf).unwrap();
    assert_eq!(items, vec![b"PING".to_vec()]);
    assert_eq!(n, 14);
    assert!(parse_request_prefix(&buf[n..]).is_none());
}

#[test]
fn bulk_string_from_bytes() {
    let buf = b"xx$3\r\nabc\r\n";
    let (b, e) = BulkString::from_bytes_iter(buf, 2).unwrap();
    assert_eq!(b.content(), &b"abc".to_vec());
    assert_eq!(e, buf.len());
    assert!(BulkString::from_bytes_iter(buf, 0).is_err());
    assert!(BulkString::from_bytes_iter(b"+abc\r\n", 0).is_err());
}

use redis_lite::framing::{frame_status_of, Framing};

#[test]
fn framing_complete_partial_malformed() {
    assert!(matches!(frame_status_of(b"*1\r\n$4\r\nPING\r\n"), Framing::Complete(14)));
    assert!(matches!(frame_status_of(b"*1\r\n$4\r\nPING\r\n*1\r\n"), Framing::Complete(14)));
    assert!(matches!(frame_status_of(b""), Framing::Partial));
    assert!(matches!(frame_status_of(b"*"), Framing::Partial));
    assert!(matches!(frame_status_of(b"*12"), Framing::Partial));
    assert!(matches!(frame_status_of(b"*1\r"), Framing::Partial));
    assert!(matches!(frame_status_of(b"*1\r\n$4\r\nPI"), Framing::Partial));
    assert!(matches!(frame_status_of(b"*1\r\n$4\r\nPING\r"), Framing::Partial));
    assert!(matches!(frame_status_of(b"*99999999999999999999999\r\n$1\r\n"), Framing::Partial));
    assert!(matches!(frame_status_of(b"+PING\r\n"), Framing::Malformed));
    assert!(matches!(frame_status_of(b"*\r\n"), Framing::Malformed));
    assert!(matches!(frame_status_of(b"*1\n"), Framing::Malformed));
    assert!(matches!(frame_status_of(b"*1\r\n:1\r\n"), Framing::Malformed));
    assert!(matches!(frame_status_of(b"*1\r\n$4\r\nPINGx"), Framing::Malformed));
    assert!(matches!(frame_status_of(b"*99999999999999999999999\r\nx"), Framing::Malformed));
    assert!(matches!(frame_status_of(b"*0\r\n"), Framing::Complete(4)));
}

#[test]
fn leading_zeros_parse_but_render_in_shortest_form() {
    let items = parse_client_bytes(b"*01\r\n$04\r\nPING\r\n").unwrap();
    assert_eq!(items, vec![b"PING".to_vec()]);
    let again = Resp::Array(Array(
        items.into_iter().map(|i| Resp::BulkString(BulkString(i))).collect(),
    ));
    assert_eq!(out(&again), b"*1\r\n$4\r\nPING\r\n".to_vec());
}
