use lsp_client::correlator::{
    prepare_lsp_json, prepare_notification, route, Correlator, Inbound, Route, SendError,
};
use lsp_client::framing::{read_message, Progress};
use lsp_client::rpc::MsgId;
use jsonrpc_lite::{Id, JsonRpc};
use serde_json::Value;

fn json(text: &str) -> Value {
    serde_json::from_str(text).unwrap()
}

fn body_of(frame: &[u8]) -> String {
    match read_message(frame, true) {
        Progress::Frame { body, consumed } => {
            assert_eq!(consumed, frame.len());
            body
        }
        other => panic!("not a frame: {:?}", other),
    }
}

#[test]
fn ids_are_consecutive() {
    let mut c: Correlator<u32> = Correlator::new();
    let ids: Vec<i64> = (0..5).map(|k| c.register(k)).collect();
    assert_eq!(ids, vec![1, 2, 3, 4, 5]);
}

#[test]
fn resolve_fires_once() {
    let mut c: Correlator<&str> = Correlator::new();
    let id = c.register("first");
    assert_eq!(c.resolve(id), Some("first"));
    assert_eq!(c.resolve(id), None);
    assert_eq!(c.resolve(99), None);
}

#[test]
fn duplicate_reply_is_unknown() {
    let mut c: Correlator<&str> = Correlator::new();
    let id = c.register("cb");
    let reply = format!("{{\"jsonrpc\":\"2.0\",\"id\":{},\"result\":null}}", id);
    assert!(matches!(c.handle_msg(&reply), Inbound::Resolved { callback: "cb", .. }));
    assert!(matches!(c.handle_msg(&reply), Inbound::UnknownId(1)));
}

#[test]
fn initialize_reply_reaches_callback() {
    let mut c: Correlator<&str> = Correlator::new();
    let (id, frame) = match c.prepare_request("initialize", &json("{}"), "init") {
        Ok(x) => x,
        Err(e) => panic!("{:?}", e),
    };
    assert_eq!(id, 1);
    let sent = JsonRpc::parse(&body_of(&frame)).unwrap();
    assert_eq!(sent.get_method(), Some("initialize"));
    assert_eq!(frame, prepare_lsp_json(&JsonRpc::request_with_params(1, "initialize", json("{}"))));
    let reply = encode(r#"{"jsonrpc":"2.0","id":1,"result":{"capabilities":{}}}"#);
    let body = body_of(&reply);
    match c.handle_msg(&body) {
        Inbound::Resolved { callback, outcome } => {
            assert_eq!(callback, "init");
            assert_eq!(outcome, Ok(json(r#"{"capabilities":{}}"#)));
        }
        _ => panic!("reply not resolved"),
    }
}

fn encode(body: &str) -> Vec<u8> {
    lsp_client::framing::encode_frame(body.as_bytes())
}

#[test]
fn error_reply_reaches_callback() {
    let mut c: Correlator<u8> = Correlator::new();
    c.register(1);
    c.register(2);
    let body = r#"{"jsonrpc":"2.0","id":2,"error":{"code":-32601,"message":"not found"}}"#;
    match c.handle_msg(body) {
        Inbound::Resolved { callback, outcome } => {
            assert_eq!(callback, 2);
            assert_eq!(outcome, Err(json(r#"{"code":-32601,"message":"not found"}"#)));
        }
        _ => panic!("error reply not resolved"),
    }
    assert_eq!(c.resolve(1), Some(1));
}

#[test]
fn notification_is_forwarded() {
    let mut c: Correlator<u8> = Correlator::new();
    c.register(7);
    let body = r#"{"jsonrpc":"2.0","method":"textDocument/publishDiagnostics","params":{"uri":"file:///a","diagnostics":[]}}"#;
    assert!(matches!(c.handle_msg(body), Inbound::Forward));
    assert_eq!(c.resolve(1), Some(7));
}

#[test]
fn request_from_peer_is_forwarded() {
    let mut c: Correlator<u8> = Correlator::new();
    let body = r#"{"jsonrpc":"2.0","id":5,"method":"workspace/configuration","params":{"items":[]}}"#;
    assert!(matches!(c.handle_msg(body), Inbound::Forward));
}

#[test]
fn garbage_is_undecodable() {
    let mut c: Correlator<u8> = Correlator::new();
    assert!(matches!(c.handle_msg("not json"), Inbound::Undecodable));
}

#[test]
fn string_id_reply_is_dropped() {
    let mut c: Correlator<u8> = Correlator::new();
    c.register(1);
    assert!(matches!(c.handle_msg(r#"{"jsonrpc":"2.0","id":"1","result":3}"#), Inbound::Dropped));
    assert_eq!(c.resolve(1), Some(1));
}

#[test]
fn routes() {
    assert_eq!(route(&Some(MsgId::Num(3)), true, true), Route::Conflict(3));
    assert_eq!(route(&Some(MsgId::Num(3)), true, false), Route::Respond(3));
    assert_eq!(route(&Some(MsgId::Num(3)), false, true), Route::Reject(3));
    assert_eq!(route(&Some(MsgId::Num(3)), false, false), Route::Forward);
    assert_eq!(route(&None, false, false), Route::Forward);
    assert_eq!(route(&Some(MsgId::Str("a".to_string())), true, false), Route::Drop);
    assert_eq!(route(&Some(MsgId::Null), false, true), Route::Drop);
}

#[test]
fn dispatch_conflict_keeps_call() {
    let mut c: Correlator<u8> = Correlator::new();
    c.register(9);
    let r = c.dispatch(Some(MsgId::Num(1)), Some(json("1")), Some(json("2")));
    assert!(matches!(r, Inbound::Conflict(1)));
    assert_eq!(c.resolve(1), Some(9));
}

#[test]
fn request_round_trip() {
    let mut c: Correlator<()> = Correlator::new();
    for _ in 0..6 {
        c.register(());
    }
    let (id, frame) = match c.prepare_request("foo", &json(r#"{"a":1}"#), ()) {
        Ok(x) => x,
        Err(e) => panic!("{:?}", e),
    };
    assert_eq!(id, 7);
    let decoded = JsonRpc::parse(&body_of(&frame)).unwrap();
    let expected = JsonRpc::request_with_params(7, "foo", json(r#"{"a":1}"#));
    assert_eq!(decoded, expected);
    assert_eq!(decoded.get_id(), Some(Id::Num(7)));
}

#[test]
fn notification_frame() {
    let frame = prepare_notification("initialized", &json("{}"));
    assert_eq!(frame, prepare_lsp_json(&JsonRpc::notification_with_params("initialized", json("{}"))));
    let decoded = JsonRpc::parse(&body_of(&frame)).unwrap();
    assert_eq!(decoded.get_id(), None);
    assert_eq!(decoded.get_method(), Some("initialized"));
}

#[test]
fn can_allocate_fresh() {
    let c: Correlator<u8> = Correlator::new();
    assert!(c.can_allocate());
}

#[test]
fn reply_with_result_and_error_is_conflict() {
    let mut c: Correlator<u8> = Correlator::new();
    c.register(4);
    let body = r#"{"jsonrpc":"2.0","id":1,"result":2,"error":{"code":1,"message":"x"}}"#;
    assert!(matches!(c.handle_msg(body), Inbound::Conflict(1)));
    assert_eq!(c.resolve(1), Some(4));
}

#[test]
fn requests_get_consecutive_ids() {
    let mut c: Correlator<u8> = Correlator::new();
    let mut ids = Vec::new();
    for k in 0..4u8 {
        match c.prepare_request("m", &json("[]"), k) {
            Ok((id, _)) => ids.push(id),
            Err(SendError::IdsExhausted) => panic!("no ids"),
        }
    }
    assert_eq!(ids, vec![1, 2, 3, 4]);
}

#[test]
fn lsp_json_frame_holds_message() {
    let frame = prepare_lsp_json(&JsonRpc::request_with_params(7, "foo", json(r#"{"a":1}"#)));
    let text = serde_json::to_string(&JsonRpc::request_with_params(7, "foo", json(r#"{"a":1}"#))).unwrap();
    assert_eq!(frame, format!("Content-Length: {}\r\n\r\n{}", text.len(), text).into_bytes());
}
