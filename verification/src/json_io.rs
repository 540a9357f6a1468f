//! The trusted boundary around the JSON and JSON-RPC crates: type
//! declarations, named results, and the wrappers through which the
//! verified code calls them.

use vstd::prelude::*;
use serde_json::Value;

verus! {

#[verifier::external_type_specification]
#[verifier::external_body]
pub struct ExValue(serde_json::Value);

#[verifier::external_type_specification]
#[verifier::external_body]
pub struct ExJsonError(serde_json::Error);

#[verifier::external_type_specification]
#[verifier::external_body]
pub struct ExFromUtf8Error(std::string::FromUtf8Error);

#[verifier::external_type_specification]
#[verifier::external_body]
pub struct ExJsonRpc(jsonrpc_lite::JsonRpc);

#[verifier::external_type_specification]
#[verifier::external_body]
pub struct ExRpcId(jsonrpc_lite::Id);

#[verifier::external_type_specification]
#[verifier::external_body]
pub struct ExRpcErrorObject(jsonrpc_lite::Error);

/// Whether the JSON parser accepts this text as a single JSON value.
pub uninterp spec fn json_parses(text: Seq<char>) -> bool;

/// The compact JSON rendering of a string value, quotes and escapes
/// included.
pub uninterp spec fn json_string_bytes(text: Seq<char>) -> Seq<u8>;

/// Relies on `String::from_utf8`: succeeds exactly on valid UTF-8, and
/// the string it returns holds the characters those bytes encode.
#[verifier::external_body]
pub(crate) fn string_from_utf8(bytes: Vec<u8>) -> (r: Result<String, std::string::FromUtf8Error>)
    ensures
        match r {
            Ok(s) => vstd::utf8::valid_utf8(bytes@) && s@ == vstd::utf8::decode_utf8(bytes@),
            Err(_) => !vstd::utf8::valid_utf8(bytes@),
        },
{
    String::from_utf8(bytes)
}

/// Relies on `serde_json::from_str::<Value>`: whether the text parses as
/// JSON depends on the text alone.
#[verifier::external_body]
pub(crate) fn json_from_str(s: &str) -> (r: Result<Value, serde_json::Error>)
    ensures
        r is Ok <==> json_parses(s@),
{
    serde_json::from_str::<Value>(s)
}

/// Relies on `serde_json::to_vec` on a `Value`: produces the compact
/// JSON rendering of the value, which is JSON text and therefore valid
/// UTF-8. The call succeeds: serialization fails only when a `Serialize`
/// impl fails or a map key is not a string, and a `Value` tree has
/// neither. Nothing is assumed of which bytes come out.
#[verifier::external_body]
pub(crate) fn json_value_to_vec(v: &Value) -> (r: Result<Vec<u8>, serde_json::Error>)
    ensures
        r is Ok,
        r matches Ok(b) ==> vstd::utf8::valid_utf8(b@),
{
    serde_json::to_vec(v)
}

/// Relies on `serde_json::to_vec` on a string slice: the rendering of a
/// string depends on its characters alone, and serializing a string
/// cannot fail.
#[verifier::external_body]
pub(crate) fn json_string_to_vec(s: &str) -> (r: Result<Vec<u8>, serde_json::Error>)
    ensures
        r is Ok,
        r matches Ok(b) ==> b@ == json_string_bytes(s@),
{
    serde_json::to_vec(&s)
}

/// A response id as this client reads it: a number, a string, or null.
pub enum RpcId {
    Num(i64),
    Str(String),
    Null,
}

/// An inbound message after classification, with the fields the
/// dispatcher reads moved out of the JSON-RPC structures.
pub(crate) enum RpcMessage {
    Request,
    Notification,
    Success { id: jsonrpc_lite::Id, result: Value },
    Error { id: jsonrpc_lite::Id, error: jsonrpc_lite::Error },
}

/// Relies on `serde_json::from_value::<jsonrpc_lite::JsonRpc>`: reads a
/// JSON value as one of the four JSON-RPC message shapes.
#[verifier::external_body]
pub(crate) fn rpc_from_value(v: &Value) -> Result<jsonrpc_lite::JsonRpc, serde_json::Error> {
    serde_json::from_value(v.clone())
}

/// Relies on the variants of `jsonrpc_lite::JsonRpc`: tells them apart,
/// moving the id and payload fields out.
#[verifier::external_body]
pub(crate) fn classify_rpc(m: jsonrpc_lite::JsonRpc) -> RpcMessage {
    match m {
        jsonrpc_lite::JsonRpc::Request(_) => RpcMessage::Request,
        jsonrpc_lite::JsonRpc::Notification(_) => RpcMessage::Notification,
        jsonrpc_lite::JsonRpc::Success(s) => RpcMessage::Success { id: s.id, result: s.result },
        jsonrpc_lite::JsonRpc::Error(e) => RpcMessage::Error { id: e.id, error: e.error },
    }
}

/// Relies on the variants of `jsonrpc_lite::Id`: maps each to the
/// corresponding `RpcId` variant, moving the value.
#[verifier::external_body]
pub(crate) fn id_repr(id: jsonrpc_lite::Id) -> RpcId {
    match id {
        jsonrpc_lite::Id::Num(n) => RpcId::Num(n),
        jsonrpc_lite::Id::Str(s) => RpcId::Str(s),
        jsonrpc_lite::Id::None(()) => RpcId::Null,
    }
}

/// Relies on `serde_json::to_value`: renders the error member of an
/// error response back as the JSON value it was carried as.
#[verifier::external_body]
pub(crate) fn error_to_value(e: jsonrpc_lite::Error) -> Result<Value, serde_json::Error> {
    serde_json::to_value(e)
}

} // verus!
