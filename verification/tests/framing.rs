use lsp_client::parsing::{parse_header, read_message, frame_payload, LspHeader, ParseError};
use serde_json::Value;

#[test]
fn test_parse_header() {
    let header = "Content-Length: 132";
    assert_eq!(parse_header(header.as_bytes()).ok(), Some(LspHeader::ContentLength(132)));
}

#[test]
fn test_parse_message() {
    let inps = vec![
        "Content-Length: 18\n\r\n\r{\"name\": \"value\"}",
        "Content-length: 18\n\r\n\r{\"name\": \"value\"}",
        "Content-Length: 18\n\rContent-Type: utf-8\n\r\n\r{\"name\": \"value\"}",
    ];
    for inp in inps {
        let result = match read_message(inp.as_bytes(), 0) {
            Ok((r, _)) => r,
            Err(e) => panic!("error: {:?}", e),
        };
        let exp: Value = serde_json::from_str("{\"name\": \"value\"}").unwrap();
        assert_eq!(result, exp);
    }
}

#[test]
fn round_trip_json_value() {
    let v: Value = serde_json::from_str("{\"a\":[1,2,3],\"b\":\"x\",\"c\":null}").unwrap();
    let body = serde_json::to_vec(&v).unwrap();
    let frame = frame_payload(&body);
    let (decoded, next) = read_message(&frame, 0).unwrap();
    assert_eq!(decoded, v);
    assert_eq!(next, frame.len());
}

#[test]
fn frame_has_exact_header() {
    let body = b"{\"x\":1}";
    let frame = frame_payload(body);
    assert_eq!(frame.as_slice(), b"Content-Length: 7\r\n\r\n{\"x\":1}");
}

#[test]
fn body_bytes_taken_verbatim() {
    // embedded \r, \n and a multi-byte character; exactly the counted
    // bytes are consumed, and trailing input is left for the next frame
    let body = "[1,\n2,\r\n\"\u{00df}\"]";
    let input = format!("Content-Length: {}\r\n\r\n{}extra", body.len(), body);
    let (v, next) = read_message(input.as_bytes(), 0).unwrap();
    let exp: Value = serde_json::from_str(body).unwrap();
    assert_eq!(v, exp);
    assert_eq!(next, input.len() - "extra".len());
}

#[test]
fn header_names_case_insensitive() {
    assert_eq!(
        parse_header("CONTENT-LENGTH: 5".as_bytes()).ok(),
        Some(LspHeader::ContentLength(5))
    );
    assert_eq!(parse_header("cOnTeNt-TyPe: UTF-8".as_bytes()).ok(), Some(LspHeader::ContentType));
}

#[test]
fn bare_lf_terminators_accepted() {
    let input = "Content-Length: 2\n\n{}";
    let (v, next) = read_message(input.as_bytes(), 0).unwrap();
    let exp: Value = serde_json::from_str("{}").unwrap();
    assert_eq!(v, exp);
    assert_eq!(next, input.len());
}

#[test]
fn plus_sign_in_length_accepted() {
    // mirrors integer parsing from a string with a leading plus
    assert_eq!(
        parse_header("Content-Length: +18".as_bytes()).ok(),
        Some(LspHeader::ContentLength(18))
    );
}

#[test]
fn unknown_header_rejected() {
    assert_eq!(parse_header("Pragma: no-cache".as_bytes()), Err(ParseError::Unknown));
    let input = "X-Custom: zzz\r\n\r\n{}";
    // the offending line is consumed; decoding can resume after it
    assert_eq!(
        read_message(input.as_bytes(), 0),
        Err((ParseError::Unknown, "X-Custom: zzz\r\n".len()))
    );
    // the decoder is still usable afterwards
    let ok = "Content-Length: 2\r\n\r\n{}";
    assert!(read_message(ok.as_bytes(), 0).is_ok());
}

#[test]
fn malformed_header_rejected() {
    assert_eq!(parse_header("Content-Length".as_bytes()), Err(ParseError::Unknown));
    assert_eq!(parse_header("a: b: c".as_bytes()), Err(ParseError::Unknown));
}

#[test]
fn bad_length_value_rejected() {
    assert_eq!(parse_header("Content-Length: abc".as_bytes()), Err(ParseError::ParseInt));
    assert_eq!(parse_header("Content-Length: ".as_bytes()), Err(ParseError::ParseInt));
    assert_eq!(
        parse_header("Content-Length: 99999999999999999999999".as_bytes()),
        Err(ParseError::ParseInt)
    );
}

#[test]
fn missing_content_length_rejected() {
    let input = "Content-Type: utf-8\r\n\r\n{}";
    assert_eq!(
        read_message(input.as_bytes(), 0),
        Err((ParseError::Unknown, input.len() - "{}".len()))
    );
}

#[test]
fn truncated_body_is_io_error() {
    let input = "Content-Length: 10\r\n\r\nab";
    assert_eq!(
        read_message(input.as_bytes(), 0),
        Err((ParseError::Io, input.len() - "ab".len()))
    );
}

#[test]
fn invalid_utf8_body_rejected() {
    let mut input = b"Content-Length: 2\r\n\r\n".to_vec();
    input.push(0xff);
    input.push(0xfe);
    // the bad body is consumed whole; the stream stays in sync
    assert_eq!(read_message(&input, 0), Err((ParseError::Utf8, input.len())));
}

#[test]
fn invalid_json_body_rejected() {
    let input = "Content-Length: 8\r\n\r\nnot json";
    assert_eq!(read_message(input.as_bytes(), 0), Err((ParseError::Json, input.len())));
}

#[test]
fn two_frames_in_sequence() {
    let input = "Content-Length: 2\r\n\r\n{}Content-Length: 4\r\n\r\nnull";
    let (v1, next) = read_message(input.as_bytes(), 0).unwrap();
    assert_eq!(v1, serde_json::from_str::<Value>("{}").unwrap());
    let (v2, end) = read_message(input.as_bytes(), next).unwrap();
    assert_eq!(v2, Value::Null);
    assert_eq!(end, input.len());
}
