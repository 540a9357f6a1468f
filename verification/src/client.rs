//! The client connection: owns the write half of the conversation and the
//! table of in-flight requests, allocates request ids, and dispatches
//! decoded inbound messages to their completions.
//!
//! All shared state sits behind one lock, so id allocation, the pending
//! table and outbound writes change together; `LanguageServerRef` is the
//! duplicable handle through which both callers and the background reader
//! reach it.

use vstd::prelude::*;
use std::collections::HashMap;
use std::sync::Arc;
use vstd::rwlock::RwLock;
use vstd::string::StringSliceAdditionalSpecFns;
use serde_json::Value;
use crate::json_io::{RpcId, RpcMessage, rpc_from_value, classify_rpc, id_repr, error_to_value,
    json_value_to_vec, json_string_to_vec};
use crate::parsing::{frame_payload, frame_bytes};
use crate::numbers::{dec_repr, dec_value, parse_dec_u64};

verus! {

broadcast use vstd::std_specs::hash::group_hash_axioms;

/// Carried by a peer that could not accept bytes; fatal to the
/// connection.
pub struct WriteError {
    pub message: String,
}

/// The byte sink a connection writes frames to; implemented outside the
/// library by whatever owns the server subprocess's input stream.
pub trait Peer: Sized {
    fn write_msg(&mut self, buf: &Vec<u8>) -> Result<(), WriteError>;
}

/// A one-shot completion handler: consumes itself together with the
/// success or error payload of the response it waited for.
pub trait Callable: Sized {
    fn call(self, result: Result<Value, Value>);
}

/// Why a message could not be sent: the value could not be rendered as
/// JSON, the peer refused the bytes, or the id counter is spent.
/// Rendering a JSON value tree never fails, so the send contracts rule
/// `Encode` out: of these, callers see only `Transport` and
/// `IdsExhausted`.
#[derive(Debug, PartialEq, Eq, Clone, Copy)]
pub enum SendError {
    Encode,
    Transport,
    IdsExhausted,
}

/// A condition the protocol does not allow on an inbound response: an id
/// that matches no pending request, or an id that is not a non-negative
/// integer in number or string form.
#[derive(Debug, PartialEq, Eq, Clone, Copy)]
pub enum ProtocolViolation {
    UnknownId(u64),
    InvalidId,
}

/// What dispatching one inbound message did. Requests and notifications
/// from the server are not supported and are reported for logging; an
/// error response with a null id invokes no completion.
///
/// The policy for messages the protocol does not allow is: a response
/// whose id cannot be correlated — unknown, null on a success, negative
/// or unreadable — is a `Violation`, unrecoverable for the connection,
/// and the caller ends it; a message that does not have the shape of a
/// JSON-RPC message at all (a required member such as `result` missing,
/// or no recognizable envelope) is `Malformed`: it is dropped, reported,
/// and the connection continues.
#[derive(Debug, PartialEq, Eq, Clone, Copy)]
pub enum DispatchOutcome {
    Completed(u64),
    CompletedWithError(u64),
    RequestIgnored,
    NotificationIgnored,
    NullIdError,
    Malformed,
    Violation(ProtocolViolation),
}

/// One request issued: `id` is the value the counter had, the counter
/// advanced by one, and the completion was recorded under `id`.
pub open spec fn send_transition<C>(
    pre_pending: Map<u64, C>,
    pre_next: u64,
    post_pending: Map<u64, C>,
    post_next: u64,
    id: u64,
    completion: C,
) -> bool {
    &&& id == pre_next
    &&& post_next == pre_next + 1
    &&& post_pending == pre_pending.insert(id, completion)
}

/// One response delivered: the entry under `id` existed and was removed.
pub open spec fn complete_transition<C>(
    pre_pending: Map<u64, C>,
    post_pending: Map<u64, C>,
    id: u64,
) -> bool {
    &&& pre_pending.contains_key(id)
    &&& post_pending == pre_pending.remove(id)
}

/// The shared connection state: the peer the frames go to, the pending
/// requests by id, and the next id to allocate. Reached only through
/// `LanguageServerRef`, which keeps it behind one lock.
pub struct LanguageServer<W: Peer, C: Callable> {
    pub peer: W,
    pub pending: HashMap<u64, C>,
    pub next_id: u64,
}

/// The body of a request envelope: the JSON-RPC skeleton around the
/// rendered id, method and params.
pub open spec fn request_body_bytes(id: u64, method_json: Seq<u8>, params_json: Seq<u8>) -> Seq<
    u8,
> {
    seq![123u8, 34, 106, 115, 111, 110, 114, 112, 99, 34, 58, 34, 50, 46, 48, 34, 44, 34, 105, 100, 34, 58]
        + dec_repr(id as nat) + seq![44u8, 34, 109, 101, 116, 104, 111, 100, 34, 58] + method_json
        + seq![44u8, 34, 112, 97, 114, 97, 109, 115, 34, 58] + params_json + seq![125u8]
}

/// The body of a notification envelope: as a request, but with no id.
pub open spec fn notification_body_bytes(method_json: Seq<u8>, params_json: Seq<u8>) -> Seq<u8> {
    seq![123u8, 34, 106, 115, 111, 110, 114, 112, 99, 34, 58, 34, 50, 46, 48, 34, 44, 34, 109, 101, 116, 104, 111, 100, 34, 58]
        + method_json + seq![44u8, 34, 112, 97, 114, 97, 109, 115, 34, 58] + params_json
        + seq![125u8]
}

/// Assembles the body of a request envelope from its rendered parts.
fn assemble_request(id: u64, method_json: &Vec<u8>, params_json: &Vec<u8>) -> (r: Vec<u8>)
    ensures
        r@ == request_body_bytes(id, method_json@, params_json@),
{
    let mut r: Vec<u8> = Vec::new();
    r.push(123);
    r.push(34);
    r.push(106);
    r.push(115);
    r.push(111);
    r.push(110);
    r.push(114);
    r.push(112);
    r.push(99);
    r.push(34);
    r.push(58);
    r.push(34);
    r.push(50);
    r.push(46);
    r.push(48);
    r.push(34);
    r.push(44);
    r.push(34);
    r.push(105);
    r.push(100);
    r.push(34);
    r.push(58);
    let digits = crate::numbers::u64_to_dec(id);
    crate::byteops::push_all(&mut r, digits.as_slice());
    r.push(44);
    r.push(34);
    r.push(109);
    r.push(101);
    r.push(116);
    r.push(104);
    r.push(111);
    r.push(100);
    r.push(34);
    r.push(58);
    crate::byteops::push_all(&mut r, method_json.as_slice());
    r.push(44);
    r.push(34);
    r.push(112);
    r.push(97);
    r.push(114);
    r.push(97);
    r.push(109);
    r.push(115);
    r.push(34);
    r.push(58);
    crate::byteops::push_all(&mut r, params_json.as_slice());
    r.push(125);
    proof {
        assert(r@ =~= request_body_bytes(id, method_json@, params_json@));
    }
    r
}

/// Assembles the body of a notification envelope from its rendered parts.
fn assemble_notification(method_json: &Vec<u8>, params_json: &Vec<u8>) -> (r: Vec<u8>)
    ensures
        r@ == notification_body_bytes(method_json@, params_json@),
{
    let mut r: Vec<u8> = Vec::new();
    r.push(123);
    r.push(34);
    r.push(106);
    r.push(115);
    r.push(111);
    r.push(110);
    r.push(114);
    r.push(112);
    r.push(99);
    r.push(34);
    r.push(58);
    r.push(34);
    r.push(50);
    r.push(46);
    r.push(48);
    r.push(34);
    r.push(44);
    r.push(34);
    r.push(109);
    r.push(101);
    r.push(116);
    r.push(104);
    r.push(111);
    r.push(100);
    r.push(34);
    r.push(58);
    crate::byteops::push_all(&mut r, method_json.as_slice());
    r.push(44);
    r.push(34);
    r.push(112);
    r.push(97);
    r.push(114);
    r.push(97);
    r.push(109);
    r.push(115);
    r.push(34);
    r.push(58);
    crate::byteops::push_all(&mut r, params_json.as_slice());
    r.push(125);
    proof {
        assert(r@ =~= notification_body_bytes(method_json@, params_json@));
    }
    r
}

/// Produces the framed wire form of one JSON value: the compact JSON
/// rendering preceded by its `Content-Length` header.
pub fn prepare_lsp_json(msg: &Value) -> (r: Result<Vec<u8>, SendError>)
    ensures
        r is Ok,
        r matches Ok(f) ==> exists|body: Seq<u8>| f@ == frame_bytes(body),
{
    match json_value_to_vec(msg) {
        Ok(body) => {
            let f = frame_payload(body.as_slice());
            proof {
                assert(f@ == frame_bytes(body@));
            }
            Ok(f)
        },
        Err(_) => Err(SendError::Encode),
    }
}

/// Reads a response id as the non-negative integer it must denote: a JSON
/// number is taken as is, a JSON string is read as base-10 digits; null,
/// negative numbers and malformed strings violate the protocol.
pub fn number_from_id(id: &RpcId) -> (r: Result<u64, ProtocolViolation>)
    ensures
        match id {
            RpcId::Num(n) => if 0 <= *n {
                r == Ok::<u64, ProtocolViolation>(*n as u64)
            } else {
                r == Err::<u64, ProtocolViolation>(ProtocolViolation::InvalidId)
            },
            RpcId::Str(s) => match dec_value(vstd::utf8::encode_utf8(s@)) {
                Some(n) => if n <= u64::MAX {
                    r == Ok::<u64, ProtocolViolation>(n as u64)
                } else {
                    r == Err::<u64, ProtocolViolation>(ProtocolViolation::InvalidId)
                },
                None => r == Err::<u64, ProtocolViolation>(ProtocolViolation::InvalidId),
            },
            RpcId::Null => r == Err::<u64, ProtocolViolation>(ProtocolViolation::InvalidId),
        },
{
    match id {
        RpcId::Num(n) => {
            if *n >= 0 {
                Ok(*n as u64)
            } else {
                Err(ProtocolViolation::InvalidId)
            }
        },
        RpcId::Str(s) => match parse_dec_u64(s.as_str().as_bytes()) {
            Some(v) => Ok(v),
            None => Err(ProtocolViolation::InvalidId),
        },
        RpcId::Null => Err(ProtocolViolation::InvalidId),
    }
}

impl<W: Peer, C: Callable> LanguageServer<W, C> {
    /// The connection's invariant: ids start at 1, and every pending id
    /// was allocated before the counter's current value.
    pub open spec fn wf(self) -> bool {
        &&& self.next_id >= 1
        &&& forall|k: u64| #[trigger] self.pending@.contains_key(k) ==> k < self.next_id
    }

    /// Hands bytes to the peer; the connection state does not change.
    fn write(&mut self, msg: &Vec<u8>) -> (r: Result<(), WriteError>)
        ensures
            final(self).pending@ == old(self).pending@,
            final(self).next_id == old(self).next_id,
    {
        self.peer.write_msg(msg)
    }

    /// Frames one rendered envelope body and hands it to the peer.
    fn send_rpc(&mut self, body: &Vec<u8>) -> (r: Result<(), WriteError>)
        ensures
            final(self).pending@ == old(self).pending@,
            final(self).next_id == old(self).next_id,
    {
        let frame = frame_payload(body.as_slice());
        self.write(&frame)
    }

    /// Sends a request: renders the envelope around a fresh id, writes the
    /// frame, and records the completion under that id. The id is fresh
    /// (never still pending), the counter only grows, and on any failure
    /// the pending table and the counter are untouched; `IdsExhausted`
    /// comes exactly when the counter has no next value.
    pub fn send_request(&mut self, method: &str, params: &Value, completion: C) -> (r: Result<
        u64,
        SendError,
    >)
        requires
            old(self).wf(),
        ensures
            final(self).wf(),
            match r {
                Ok(id) => send_transition(
                    old(self).pending@,
                    old(self).next_id,
                    final(self).pending@,
                    final(self).next_id,
                    id,
                    completion,
                ) && !old(self).pending@.contains_key(id),
                Err(e) => {
                    &&& final(self).pending@ == old(self).pending@
                    &&& final(self).next_id == old(self).next_id
                    &&& (e == SendError::IdsExhausted <==> old(self).next_id == u64::MAX)
                    &&& (e == SendError::Transport || e == SendError::IdsExhausted)
                },
            },
    {
        if self.next_id == u64::MAX {
            return Err(SendError::IdsExhausted);
        }
        let method_json = match json_string_to_vec(method) {
            Ok(b) => b,
            Err(_) => {
                return Err(SendError::Encode);
            },
        };
        let params_json = match json_value_to_vec(params) {
            Ok(b) => b,
            Err(_) => {
                return Err(SendError::Encode);
            },
        };
        let id = self.next_id;
        let body = assemble_request(id, &method_json, &params_json);
        match self.send_rpc(&body) {
            Err(_) => Err(SendError::Transport),
            Ok(()) => {
                self.pending.insert(id, completion);
                self.next_id = id + 1;
                Ok(id)
            },
        }
    }

    /// Sends a notification: no id is allocated, nothing is recorded, and
    /// no completion will ever be invoked for it.
    pub fn send_notification(&mut self, method: &str, params: &Value) -> (r: Result<(), SendError>)
        requires
            old(self).wf(),
        ensures
            final(self).wf(),
            final(self).pending@ == old(self).pending@,
            final(self).next_id == old(self).next_id,
            r matches Err(e) ==> e == SendError::Transport,
    {
        let method_json = match json_string_to_vec(method) {
            Ok(b) => b,
            Err(_) => {
                return Err(SendError::Encode);
            },
        };
        let params_json = match json_value_to_vec(params) {
            Ok(b) => b,
            Err(_) => {
                return Err(SendError::Encode);
            },
        };
        let body = assemble_notification(&method_json, &params_json);
        match self.send_rpc(&body) {
            Err(_) => Err(SendError::Transport),
            Ok(()) => Ok(()),
        }
    }

    /// Delivers a success payload: removes the pending entry for `id` and
    /// invokes its completion with `Ok`; an id that matches no pending
    /// request is a protocol violation and changes nothing.
    pub fn handle_response(&mut self, id: u64, result: Value) -> (r: Result<(), ProtocolViolation>)
        requires
            old(self).wf(),
        ensures
            final(self).wf(),
            final(self).next_id == old(self).next_id,
            match r {
                Ok(()) => complete_transition(old(self).pending@, final(self).pending@, id),
                Err(v) => {
                    &&& v == ProtocolViolation::UnknownId(id)
                    &&& !old(self).pending@.contains_key(id)
                    &&& final(self).pending@ == old(self).pending@
                },
            },
    {
        match self.pending.remove(&id) {
            Some(completion) => {
                completion.call(Ok(result));
                Ok(())
            },
            None => {
                proof {
                    assert(self.pending@ =~= old(self).pending@);
                }
                Err(ProtocolViolation::UnknownId(id))
            },
        }
    }

    /// Delivers an error payload: as `handle_response`, but the completion
    /// is invoked with `Err`.
    pub fn handle_error(&mut self, id: u64, error: Value) -> (r: Result<(), ProtocolViolation>)
        requires
            old(self).wf(),
        ensures
            final(self).wf(),
            final(self).next_id == old(self).next_id,
            match r {
                Ok(()) => complete_transition(old(self).pending@, final(self).pending@, id),
                Err(v) => {
                    &&& v == ProtocolViolation::UnknownId(id)
                    &&& !old(self).pending@.contains_key(id)
                    &&& final(self).pending@ == old(self).pending@
                },
            },
    {
        match self.pending.remove(&id) {
            Some(completion) => {
                completion.call(Err(error));
                Ok(())
            },
            None => {
                proof {
                    assert(self.pending@ =~= old(self).pending@);
                }
                Err(ProtocolViolation::UnknownId(id))
            },
        }
    }

    /// Dispatches one decoded inbound message. Exactly the completed
    /// request's entry leaves the pending table; every other outcome —
    /// server-initiated traffic, an error with a null id, a malformed
    /// message, a violation — leaves the connection state unchanged.
    pub fn handle_msg(&mut self, val: &Value) -> (r: DispatchOutcome)
        requires
            old(self).wf(),
        ensures
            final(self).wf(),
            final(self).next_id == old(self).next_id,
            match r {
                DispatchOutcome::Completed(id) => complete_transition(
                    old(self).pending@,
                    final(self).pending@,
                    id,
                ),
                DispatchOutcome::CompletedWithError(id) => complete_transition(
                    old(self).pending@,
                    final(self).pending@,
                    id,
                ),
                DispatchOutcome::Violation(v) => final(self).pending@ == old(self).pending@ && (
                v matches ProtocolViolation::UnknownId(id) ==> !old(self).pending@.contains_key(
                    id,
                )),
                _ => final(self).pending@ == old(self).pending@,
            },
    {
        let rpc = match rpc_from_value(val) {
            Ok(m) => m,
            Err(_) => {
                return DispatchOutcome::Malformed;
            },
        };
        match classify_rpc(rpc) {
            RpcMessage::Request => DispatchOutcome::RequestIgnored,
            RpcMessage::Notification => DispatchOutcome::NotificationIgnored,
            RpcMessage::Success { id, result } => {
                let idr = id_repr(id);
                let num = match number_from_id(&idr) {
                    Ok(n) => n,
                    Err(v) => {
                        return DispatchOutcome::Violation(v);
                    },
                };
                match self.handle_response(num, result) {
                    Ok(()) => DispatchOutcome::Completed(num),
                    Err(v) => DispatchOutcome::Violation(v),
                }
            },
            RpcMessage::Error { id, error } => {
                let idr = id_repr(id);
                match &idr {
                    RpcId::Null => DispatchOutcome::NullIdError,
                    _ => {
                        let num = match number_from_id(&idr) {
                            Ok(n) => n,
                            Err(v) => {
                                return DispatchOutcome::Violation(v);
                            },
                        };
                        let errval = match error_to_value(error) {
                            Ok(v) => v,
                            Err(_) => {
                                return DispatchOutcome::Malformed;
                            },
                        };
                        match self.handle_error(num, errval) {
                            Ok(()) => DispatchOutcome::CompletedWithError(num),
                            Err(v) => DispatchOutcome::Violation(v),
                        }
                    },
                }
            },
        }
    }
}

/// Relies on `Arc::clone`: the duplicate refers to the same allocation,
/// so it holds the same value.
#[verifier::external_body]
fn arc_clone<T>(a: &Arc<T>) -> (r: Arc<T>)
    ensures
        r == *a,
{
    Arc::clone(a)
}

/// Relies on `Arc`'s deref: borrowing through the pointer yields the
/// value it holds.
#[verifier::external_body]
fn arc_borrow<'a, T>(a: &'a Arc<T>) -> (r: &'a T)
    ensures
        *r == **a,
{
    &**a
}

/// The duplicable handle to one connection: all duplicates share the same
/// state behind the same lock, so sends and dispatches from any number of
/// holders are serialized.
#[verifier::reject_recursive_types(W)]
#[verifier::reject_recursive_types(C)]
pub struct LanguageServerRef<W: Peer, C: Callable> {
    inner: Arc<RwLock<LanguageServer<W, C>, spec_fn(LanguageServer<W, C>) -> bool>>,
}

impl<W: Peer, C: Callable> LanguageServerRef<W, C> {
    /// The lock admits exactly the well-formed connection states.
    #[verifier::type_invariant]
    spec fn wf_ref(self) -> bool {
        forall|s: LanguageServer<W, C>| #[trigger] ((*self.inner).pred())(s) <==> s.wf()
    }

    /// Starts a connection around a peer: the id counter begins at 1 and
    /// no request is pending.
    pub fn new(peer: W) -> (r: Self) {
        let server = LanguageServer { peer, pending: HashMap::new(), next_id: 1u64 };
        proof {
            assert(server.wf());
        }
        let lock = RwLock::<LanguageServer<W, C>, spec_fn(LanguageServer<W, C>) -> bool>::new(
            server,
            Ghost(|s: LanguageServer<W, C>| s.wf()),
        );
        LanguageServerRef { inner: Arc::new(lock) }
    }

    /// Sends a request under the lock; see `LanguageServer::send_request`
    /// for the exact effect on the shared state. An allocated id is
    /// always at least 1.
    pub fn send_request(&self, method: &str, params: &Value, completion: C) -> (r: Result<
        u64,
        SendError,
    >)
        ensures
            r matches Ok(id) ==> 1 <= id,
    {
        proof {
            use_type_invariant(self);
        }
        let lock = arc_borrow(&self.inner);
        let (mut server, handle) = lock.acquire_write();
        let r = server.send_request(method, params, completion);
        handle.release_write(server);
        r
    }

    /// Sends a notification under the lock; no id is allocated and no
    /// completion is recorded.
    pub fn send_notification(&self, method: &str, params: &Value) -> (r: Result<(), SendError>) {
        proof {
            use_type_invariant(self);
        }
        let lock = arc_borrow(&self.inner);
        let (mut server, handle) = lock.acquire_write();
        let r = server.send_notification(method, params);
        handle.release_write(server);
        r
    }

    /// Dispatches one decoded inbound message under the lock; see
    /// `LanguageServer::handle_msg` for the exact effect on the shared
    /// state.
    pub fn handle_msg(&self, val: &Value) -> (r: DispatchOutcome) {
        proof {
            use_type_invariant(self);
        }
        let lock = arc_borrow(&self.inner);
        let (mut server, handle) = lock.acquire_write();
        let r = server.handle_msg(val);
        handle.release_write(server);
        r
    }
}

impl<W: Peer, C: Callable> Clone for LanguageServerRef<W, C> {
    /// Duplicates the handle; both refer to the same shared state.
    fn clone(&self) -> (r: Self) {
        proof {
            use_type_invariant(self);
        }
        LanguageServerRef { inner: arc_clone(&self.inner) }
    }
}

/// Law: requests issued one after the other get distinct ids.
pub proof fn lemma_send_ids_distinct<C>(
    p0: Map<u64, C>,
    n0: u64,
    p1: Map<u64, C>,
    n1: u64,
    p2: Map<u64, C>,
    n2: u64,
    id1: u64,
    id2: u64,
    c1: C,
    c2: C,
)
    requires
        send_transition(p0, n0, p1, n1, id1, c1),
        send_transition(p1, n1, p2, n2, id2, c2),
    ensures
        id1 != id2,
{
}

/// Law: a well-formed connection never hands out an id that is still
/// pending, so a fresh request cannot steal an outstanding completion.
pub proof fn lemma_fresh_id_not_pending<W: Peer, C: Callable>(s: LanguageServer<W, C>)
    requires
        s.wf(),
    ensures
        !s.pending@.contains_key(s.next_id),
{
}

/// Law: delivering a response removes its id from the pending table, so
/// the same completion can never be invoked twice; a second response with
/// the same id finds nothing.
pub proof fn lemma_complete_once<C>(p0: Map<u64, C>, p1: Map<u64, C>, id: u64)
    requires
        complete_transition(p0, p1, id),
    ensures
        !p1.contains_key(id),
{
}

/// Law: delivering one response leaves every other pending request in
/// place with its own completion, whatever order responses arrive in.
pub proof fn lemma_complete_keeps_others<C>(p0: Map<u64, C>, p1: Map<u64, C>, id: u64, other: u64)
    requires
        complete_transition(p0, p1, id),
        other != id,
        p0.contains_key(other),
    ensures
        p1.contains_key(other),
        p1[other] == p0[other],
{
}

/// A run of send transitions: step `k` takes state `k` to state `k + 1`,
/// granting id `ids[k]` to completion `cbs[k]`. The lock serializes any
/// number of concurrent senders into such a run.
pub open spec fn send_chain<C>(
    pendings: Seq<Map<u64, C>>,
    nexts: Seq<u64>,
    ids: Seq<u64>,
    cbs: Seq<C>,
) -> bool {
    &&& pendings.len() == ids.len() + 1
    &&& nexts.len() == ids.len() + 1
    &&& cbs.len() == ids.len()
    &&& forall|k: int|
        0 <= k < ids.len() ==> send_transition(
            pendings[k],
            nexts[k],
            pendings[k + 1],
            nexts[k + 1],
            #[trigger] ids[k],
            cbs[k],
        )
}

/// Law: a run of `N` requests receives exactly the `N` consecutive ids
/// starting at the counter — pairwise distinct — the counter ends `N`
/// higher, and the final table holds every completion under its own id.
pub proof fn lemma_send_chain<C>(
    pendings: Seq<Map<u64, C>>,
    nexts: Seq<u64>,
    ids: Seq<u64>,
    cbs: Seq<C>,
)
    requires
        send_chain(pendings, nexts, ids, cbs),
    ensures
        forall|k: int| 0 <= k < ids.len() ==> #[trigger] ids[k] == nexts[0] + k,
        forall|j: int, k: int| 0 <= j < k < ids.len() ==> ids[j] != ids[k],
        nexts.last() == nexts[0] + ids.len(),
        forall|k: int|
            0 <= k < ids.len() ==> pendings.last().contains_key(#[trigger] ids[k])
                && pendings.last()[ids[k]] == cbs[k],
    decreases ids.len(),
{
    if ids.len() > 0 {
        let m = ids.len() - 1;
        let pp = pendings.drop_last();
        let nn = nexts.drop_last();
        let ii = ids.drop_last();
        let cc = cbs.drop_last();
        assert forall|k: int|
            0 <= k < m implies send_transition(
                pp[k],
                nn[k],
                pp[k + 1],
                nn[k + 1],
                #[trigger] ii[k],
                cc[k],
            ) by {
            assert(ii[k] == ids[k]);
            assert(pp[k] == pendings[k] && pp[k + 1] == pendings[k + 1]);
            assert(nn[k] == nexts[k] && nn[k + 1] == nexts[k + 1]);
            assert(cc[k] == cbs[k]);
        }
        lemma_send_chain(pp, nn, ii, cc);
        assert(send_transition(pendings[m], nexts[m], pendings[m + 1], nexts[m + 1], ids[m], cbs[m]));
        assert(nn.last() == nexts[m] && nn[0] == nexts[0]);
        assert(nexts[m] == nexts[0] + m);
        assert forall|k: int| 0 <= k < ids.len() implies #[trigger] ids[k] == nexts[0] + k by {
            if k < m {
                assert(ii[k] == ids[k]);
                assert(ii[k] == nn[0] + k);
            }
        }
        assert(nexts.last() == nexts[m + 1]);
        assert(pendings.last() == pendings[m + 1]);
        assert(pp.last() == pendings[m]);
        assert forall|k: int|
            0 <= k < ids.len() implies pendings.last().contains_key(#[trigger] ids[k])
                && pendings.last()[ids[k]] == cbs[k] by {
            if k < m {
                assert(ii[k] == ids[k]);
                assert(pp.last().contains_key(ii[k]) && pp.last()[ii[k]] == cc[k]);
                assert(cc[k] == cbs[k]);
                assert(ids[k] != ids[m]);
            }
        }
    }
}

/// A run of completions: step `k` delivers the response bearing id
/// `ids[k]`, in whatever order the responses arrived.
pub open spec fn complete_chain<C>(pendings: Seq<Map<u64, C>>, ids: Seq<u64>) -> bool {
    &&& pendings.len() == ids.len() + 1
    &&& forall|k: int|
        0 <= k < ids.len() ==> complete_transition(pendings[k], pendings[k + 1], #[trigger] ids[k])
}

proof fn lemma_complete_chain_absent<C>(pendings: Seq<Map<u64, C>>, ids: Seq<u64>, j: int, id: u64)
    requires
        complete_chain(pendings, ids),
        0 <= j < pendings.len(),
        !pendings[j].contains_key(id),
    ensures
        !pendings.last().contains_key(id),
    decreases pendings.len() - j,
{
    if j < pendings.len() - 1 {
        assert(ids[j] == ids[j]);
        assert(complete_transition(pendings[j], pendings[j + 1], ids[j]));
        lemma_complete_chain_absent(pendings, ids, j + 1, id);
    }
}

/// Law: `N` pending requests answered once each, in any order, hand each
/// dispatch the completion that was recorded under its id at the start —
/// so every completion runs exactly once, with its own response — and
/// afterwards none of those ids is pending: a further response for any
/// of them finds nothing.
pub proof fn lemma_complete_chain<C>(pendings: Seq<Map<u64, C>>, ids: Seq<u64>)
    requires
        complete_chain(pendings, ids),
        ids.no_duplicates(),
    ensures
        forall|k: int|
            0 <= k < ids.len() ==> pendings[k][#[trigger] ids[k]] == pendings[0][ids[k]],
        forall|k: int| 0 <= k < ids.len() ==> !pendings.last().contains_key(#[trigger] ids[k]),
    decreases ids.len(),
{
    if ids.len() > 0 {
        let tp = pendings.drop_first();
        let ti = ids.drop_first();
        assert(ids[0] == ids[0]);
        assert(complete_transition(pendings[0], pendings[1], ids[0]));
        assert forall|k: int|
            0 <= k < ti.len() implies complete_transition(
                tp[k],
                tp[k + 1],
                #[trigger] ti[k],
            ) by {
            assert(ti[k] == ids[k + 1]);
            assert(complete_transition(pendings[k + 1], pendings[k + 1 + 1], ids[k + 1]));
            assert(tp[k] == pendings[k + 1] && tp[k + 1] == pendings[k + 1 + 1]);
        }
        assert(ti.no_duplicates()) by {
            assert forall|i: int, j: int| 0 <= i < j < ti.len() implies ti[i] != ti[j] by {
                assert(ti[i] == ids[i + 1] && ti[j] == ids[j + 1]);
            }
        }
        lemma_complete_chain(tp, ti);
        assert forall|k: int|
            0 <= k < ids.len() implies pendings[k][#[trigger] ids[k]] == pendings[0][ids[k]] by {
            if k > 0 {
                assert(ti[k - 1] == ids[k]);
                assert(tp[k - 1][ti[k - 1]] == tp[0][ti[k - 1]]);
                assert(tp[k - 1] == pendings[k] && tp[0] == pendings[1]);
                assert(ids[k] != ids[0]);
                assert(pendings[1] == pendings[0].remove(ids[0]));
            }
        }
        assert(tp.last() == pendings.last());
        assert forall|k: int|
            0 <= k < ids.len() implies !pendings.last().contains_key(#[trigger] ids[k]) by {
            if k == 0 {
                assert(!pendings[1].contains_key(ids[0]));
                lemma_complete_chain_absent(pendings, ids, 1, ids[0]);
            } else {
                assert(ti[k - 1] == ids[k]);
                assert(!tp.last().contains_key(ti[k - 1]));
            }
        }
    }
}

} // verus!
