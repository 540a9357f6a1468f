use lsp_client::client::{
    Callable, DispatchOutcome, LanguageServerRef, Peer, ProtocolViolation, SendError, WriteError,
    number_from_id, prepare_lsp_json,
};
use lsp_client::json_io::RpcId;
use lsp_client::parsing::read_message;
use serde_json::Value;
use std::sync::{Arc, Mutex};

struct FakePeer {
    written: Arc<Mutex<Vec<u8>>>,
}

impl Peer for FakePeer {
    fn write_msg(&mut self, buf: &Vec<u8>) -> Result<(), WriteError> {
        self.written.lock().unwrap().extend_from_slice(buf);
        Ok(())
    }
}

struct FailingPeer;

impl Peer for FailingPeer {
    fn write_msg(&mut self, _buf: &Vec<u8>) -> Result<(), WriteError> {
        Err(WriteError { message: String::from("sink closed") })
    }
}

struct Recorder {
    tag: u64,
    log: Arc<Mutex<Vec<(u64, Result<Value, Value>)>>>,
}

impl Callable for Recorder {
    fn call(self, result: Result<Value, Value>) {
        self.log.lock().unwrap().push((self.tag, result));
    }
}

fn new_conn() -> (
    LanguageServerRef<FakePeer, Recorder>,
    Arc<Mutex<Vec<u8>>>,
    Arc<Mutex<Vec<(u64, Result<Value, Value>)>>>,
) {
    let written = Arc::new(Mutex::new(Vec::new()));
    let conn = LanguageServerRef::new(FakePeer { written: written.clone() });
    let log = Arc::new(Mutex::new(Vec::new()));
    (conn, written, log)
}

fn response_value(text: &str) -> Value {
    let frame = format!("Content-Length: {}\r\n\r\n{}", text.len(), text);
    let (v, next) = read_message(frame.as_bytes(), 0).unwrap();
    assert_eq!(next, frame.len());
    v
}

#[test]
fn end_to_end_initialize() {
    let (conn, written, log) = new_conn();
    let params: Value = serde_json::from_str("{}").unwrap();
    let id = conn
        .send_request("initialize", &params, Recorder { tag: 7, log: log.clone() })
        .unwrap();
    assert_eq!(id, 1);

    let body = "{\"jsonrpc\":\"2.0\",\"id\":1,\"method\":\"initialize\",\"params\":{}}";
    let expected = format!("Content-Length: {}\r\n\r\n{}", body.len(), body);
    assert_eq!(written.lock().unwrap().as_slice(), expected.as_bytes());

    let v = response_value("{\"jsonrpc\":\"2.0\",\"id\":1,\"result\":null}");
    assert_eq!(conn.handle_msg(&v), DispatchOutcome::Completed(1));
    let entries = log.lock().unwrap();
    assert_eq!(entries.len(), 1);
    assert_eq!(entries[0], (7, Ok(Value::Null)));
}

#[test]
fn out_of_order_responses_reach_their_own_completions() {
    let (conn, _written, log) = new_conn();
    let params: Value = serde_json::from_str("{}").unwrap();
    let id1 = conn.send_request("a", &params, Recorder { tag: 1, log: log.clone() }).unwrap();
    let id2 = conn.send_request("b", &params, Recorder { tag: 2, log: log.clone() }).unwrap();
    assert_eq!((id1, id2), (1, 2));

    let v2 = response_value("{\"jsonrpc\":\"2.0\",\"id\":2,\"result\":\"second\"}");
    let v1 = response_value("{\"jsonrpc\":\"2.0\",\"id\":1,\"result\":\"first\"}");
    assert_eq!(conn.handle_msg(&v2), DispatchOutcome::Completed(2));
    assert_eq!(conn.handle_msg(&v1), DispatchOutcome::Completed(1));

    let entries = log.lock().unwrap();
    assert_eq!(entries.len(), 2);
    assert_eq!(entries[0], (2, Ok(Value::String(String::from("second")))));
    assert_eq!(entries[1], (1, Ok(Value::String(String::from("first")))));
}

#[test]
fn ids_distinct_across_cloned_handles() {
    let (conn, _written, log) = new_conn();
    let other = conn.clone();
    let params: Value = serde_json::from_str("{}").unwrap();
    let mut ids = Vec::new();
    for k in 0..5u64 {
        let handle = if k % 2 == 0 { &conn } else { &other };
        ids.push(handle.send_request("m", &params, Recorder { tag: k, log: log.clone() }).unwrap());
    }
    assert_eq!(ids, vec![1, 2, 3, 4, 5]);

    // answer each exactly once, in scrambled order
    for id in [3u64, 1, 5, 2, 4] {
        let v = response_value(&format!("{{\"jsonrpc\":\"2.0\",\"id\":{},\"result\":{}}}", id, id));
        assert_eq!(conn.handle_msg(&v), DispatchOutcome::Completed(id));
    }
    let entries = log.lock().unwrap();
    assert_eq!(entries.len(), 5);
    for (tag, result) in entries.iter() {
        // tag k was recorded under id k + 1 and must see result k + 1
        assert_eq!(result, &Ok(Value::from(tag + 1)));
    }
}

#[test]
fn unknown_id_is_protocol_violation() {
    let (conn, _written, log) = new_conn();
    let v = response_value("{\"jsonrpc\":\"2.0\",\"id\":42,\"result\":null}");
    assert_eq!(
        conn.handle_msg(&v),
        DispatchOutcome::Violation(ProtocolViolation::UnknownId(42))
    );
    assert!(log.lock().unwrap().is_empty());
}

#[test]
fn second_response_for_same_id_is_violation() {
    let (conn, _written, log) = new_conn();
    let params: Value = serde_json::from_str("{}").unwrap();
    conn.send_request("m", &params, Recorder { tag: 0, log: log.clone() }).unwrap();
    let v = response_value("{\"jsonrpc\":\"2.0\",\"id\":1,\"result\":null}");
    assert_eq!(conn.handle_msg(&v), DispatchOutcome::Completed(1));
    assert_eq!(
        conn.handle_msg(&v),
        DispatchOutcome::Violation(ProtocolViolation::UnknownId(1))
    );
    assert_eq!(log.lock().unwrap().len(), 1);
}

#[test]
fn null_id_error_invokes_no_callback() {
    let (conn, _written, log) = new_conn();
    let params: Value = serde_json::from_str("{}").unwrap();
    conn.send_request("m", &params, Recorder { tag: 0, log: log.clone() }).unwrap();
    let v = response_value(
        "{\"jsonrpc\":\"2.0\",\"id\":null,\"error\":{\"code\":-32700,\"message\":\"parse error\"}}",
    );
    assert_eq!(conn.handle_msg(&v), DispatchOutcome::NullIdError);
    assert!(log.lock().unwrap().is_empty());
    // the connection keeps working
    let ok = response_value("{\"jsonrpc\":\"2.0\",\"id\":1,\"result\":true}");
    assert_eq!(conn.handle_msg(&ok), DispatchOutcome::Completed(1));
    assert_eq!(log.lock().unwrap().len(), 1);
}

#[test]
fn error_response_reaches_completion_as_err() {
    let (conn, _written, log) = new_conn();
    let params: Value = serde_json::from_str("{}").unwrap();
    conn.send_request("m", &params, Recorder { tag: 0, log: log.clone() }).unwrap();
    let v = response_value(
        "{\"jsonrpc\":\"2.0\",\"id\":1,\"error\":{\"code\":-32601,\"message\":\"method not found\"}}",
    );
    assert_eq!(conn.handle_msg(&v), DispatchOutcome::CompletedWithError(1));
    let entries = log.lock().unwrap();
    assert_eq!(entries.len(), 1);
    let err = entries[0].1.as_ref().unwrap_err();
    assert_eq!(err["code"], Value::from(-32601));
    assert_eq!(err["message"], Value::from("method not found"));
}

#[test]
fn string_id_accepted() {
    let (conn, _written, log) = new_conn();
    let params: Value = serde_json::from_str("{}").unwrap();
    conn.send_request("m", &params, Recorder { tag: 0, log: log.clone() }).unwrap();
    let v = response_value("{\"jsonrpc\":\"2.0\",\"id\":\"1\",\"result\":3}");
    assert_eq!(conn.handle_msg(&v), DispatchOutcome::Completed(1));
    assert_eq!(log.lock().unwrap()[0], (0, Ok(Value::from(3))));
}

#[test]
fn server_traffic_is_reported_not_dispatched() {
    let (conn, _written, log) = new_conn();
    let req = response_value("{\"jsonrpc\":\"2.0\",\"id\":9,\"method\":\"window/x\",\"params\":{}}");
    assert_eq!(conn.handle_msg(&req), DispatchOutcome::RequestIgnored);
    let note = response_value("{\"jsonrpc\":\"2.0\",\"method\":\"log\",\"params\":{}}");
    assert_eq!(conn.handle_msg(&note), DispatchOutcome::NotificationIgnored);
    let junk = response_value("{\"hello\":\"world\"}");
    assert_eq!(conn.handle_msg(&junk), DispatchOutcome::Malformed);
    assert!(log.lock().unwrap().is_empty());
}

#[test]
fn notification_writes_frame_and_records_nothing() {
    let (conn, written, log) = new_conn();
    let params: Value = serde_json::from_str("[1]").unwrap();
    conn.send_notification("textDocument/didOpen", &params).unwrap();
    let body = "{\"jsonrpc\":\"2.0\",\"method\":\"textDocument/didOpen\",\"params\":[1]}";
    let expected = format!("Content-Length: {}\r\n\r\n{}", body.len(), body);
    assert_eq!(written.lock().unwrap().as_slice(), expected.as_bytes());
    // no id was consumed and nothing is pending
    let id = conn.send_request("m", &params, Recorder { tag: 0, log: log.clone() }).unwrap();
    assert_eq!(id, 1);
}

#[test]
fn transport_failure_surfaces() {
    let conn: LanguageServerRef<FailingPeer, Recorder> = LanguageServerRef::new(FailingPeer);
    let params: Value = serde_json::from_str("{}").unwrap();
    let log = Arc::new(Mutex::new(Vec::new()));
    assert_eq!(
        conn.send_request("m", &params, Recorder { tag: 0, log }),
        Err(SendError::Transport)
    );
    assert_eq!(conn.send_notification("m", &params), Err(SendError::Transport));
}

#[test]
fn id_forms_read_as_numbers() {
    assert_eq!(number_from_id(&RpcId::Num(5)), Ok(5));
    assert_eq!(number_from_id(&RpcId::Num(-1)), Err(ProtocolViolation::InvalidId));
    assert_eq!(number_from_id(&RpcId::Str(String::from("10"))), Ok(10));
    assert_eq!(number_from_id(&RpcId::Str(String::from("+10"))), Ok(10));
    assert_eq!(
        number_from_id(&RpcId::Str(String::from("ten"))),
        Err(ProtocolViolation::InvalidId)
    );
    assert_eq!(
        number_from_id(&RpcId::Str(String::from("99999999999999999999999"))),
        Err(ProtocolViolation::InvalidId)
    );
    assert_eq!(number_from_id(&RpcId::Null), Err(ProtocolViolation::InvalidId));
}

#[test]
fn prepare_lsp_json_frames_a_value() {
    let v: Value = serde_json::from_str("{\"k\":[true,null]}").unwrap();
    let frame = prepare_lsp_json(&v).unwrap();
    let (decoded, next) = read_message(&frame, 0).unwrap();
    assert_eq!(decoded, v);
    assert_eq!(next, frame.len());
}
