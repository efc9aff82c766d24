//! The JSON-RPC envelope, through `jsonrpc_lite` and `serde_json`.
use vstd::prelude::*;
use jsonrpc_lite::{Id, JsonRpc};
use serde_json::Value;

verus! {

#[verifier::external_type_specification]
#[verifier::external_body]
pub struct ExValue(serde_json::Value);

#[verifier::external_type_specification]
#[verifier::external_body]
pub struct ExJsonError(serde_json::Error);

#[verifier::external_type_specification]
#[verifier::external_body]
pub struct ExJsonRpc(jsonrpc_lite::JsonRpc);

/// The `id` member of a message, as the envelope carries it.
#[derive(Debug, PartialEq, Eq)]
pub enum MsgId {
    Num(i64),
    Str(String),
    Null,
}

/// The JSON-RPC message that a text holds, if it holds one.
pub uninterp spec fn parsed_rpc(text: Seq<char>) -> Option<JsonRpc>;

/// The JSON value that a text holds, if it holds one.
pub uninterp spec fn parsed_json(text: Seq<char>) -> Option<Value>;

/// The member `key` of a JSON object, if it has one.
pub uninterp spec fn member_of(v: Value, key: Seq<char>) -> Option<Value>;

/// The id of a request or reply; none for a notification.
pub uninterp spec fn id_of(m: JsonRpc) -> Option<MsgId>;

/// The version 2.0 request with this id, method and params.
pub uninterp spec fn request_msg(id: i64, method: Seq<char>, params: Value) -> JsonRpc;

/// The version 2.0 notification with this method and params.
pub uninterp spec fn notification_msg(method: Seq<char>, params: Value) -> JsonRpc;

/// The JSON text of a message.
pub uninterp spec fn json_text(m: JsonRpc) -> Seq<u8>;

/// Relies on `JsonRpc::parse`, which reads one JSON-RPC message from text.
#[verifier::external_body]
pub(crate) fn parse_rpc(text: &str) -> (r: Option<JsonRpc>)
    ensures
        r == parsed_rpc(text@),
{
    JsonRpc::parse(text).ok()
}

/// Relies on `serde_json::from_str`, which reads one JSON value from text.
#[verifier::external_body]
pub(crate) fn parse_json(text: &str) -> (r: Option<Value>)
    ensures
        r == parsed_json(text@),
{
    serde_json::from_str::<Value>(text).ok()
}

/// Relies on `Value::get`: the member `key` of an object, none for a value
/// that is not an object or lacks the member.
#[verifier::external_body]
pub(crate) fn member(v: &Value, key: &str) -> (r: Option<Value>)
    ensures
        r == member_of(*v, key@),
{
    v.get(key).cloned()
}

/// Relies on `JsonRpc::get_id`: the id of a request or reply, none for a
/// notification.
#[verifier::external_body]
pub(crate) fn rpc_id(m: &JsonRpc) -> (r: Option<MsgId>)
    ensures
        r == id_of(*m),
{
    match m.get_id() {
        Some(Id::Num(n)) => Some(MsgId::Num(n)),
        Some(Id::Str(s)) => Some(MsgId::Str(s)),
        Some(Id::None(())) => Some(MsgId::Null),
        None => None,
    }
}

/// Relies on `JsonRpc::request_with_params`: a version 2.0 request. An array
/// or object `params` is carried as it is; any other value becomes `null`.
#[verifier::external_body]
pub(crate) fn request_rpc(id: i64, method: &str, params: &Value) -> (r: JsonRpc)
    ensures
        r == request_msg(id, method@, *params),
{
    JsonRpc::request_with_params(id, method, params.clone())
}

/// Relies on `JsonRpc::notification_with_params`: a version 2.0 notification,
/// with `params` carried as in a request.
#[verifier::external_body]
pub(crate) fn notification_rpc(method: &str, params: &Value) -> (r: JsonRpc)
    ensures
        r == notification_msg(method@, *params),
{
    JsonRpc::notification_with_params(method, params.clone())
}

/// Relies on `serde_json::to_vec`: the message as JSON text. It fails only
/// where a `Serialize` impl fails or a map has keys that are not strings,
/// and a `JsonRpc` has neither.
#[verifier::external_body]
pub(crate) fn rpc_bytes(m: &JsonRpc) -> (r: Result<Vec<u8>, serde_json::Error>)
    ensures
        r is Ok,
        r matches Ok(b) ==> b@ == json_text(*m),
{
    serde_json::to_vec(m)
}

} // verus!
