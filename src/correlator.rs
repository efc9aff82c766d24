//! Matches replies to the requests that are still waiting for them.
use vstd::prelude::*;
use std::collections::HashMap;
use serde_json::Value;
use crate::framing::{encode_frame, frame_bytes};
use crate::rpc::{
    id_of, json_text, member, member_of, notification_msg, notification_rpc, parse_json,
    parse_rpc, parsed_json, parsed_rpc, request_msg, request_rpc, rpc_bytes, rpc_id, MsgId,
};
use vstd::pervasive::unreached;

verus! {

broadcast use vstd::std_specs::hash::group_hash_axioms;

/// Where an inbound message goes, by its id and by which of `result` and
/// `error` it carries.
#[derive(Debug, PartialEq, Eq, Structural)]
pub enum Route {
    /// A success reply to the call with this id.
    Respond(i64),
    /// An error reply to the call with this id.
    Reject(i64),
    /// A reply with both a result and an error: a protocol violation.
    Conflict(i64),
    /// A notification, or a request from the peer: not a reply to anything.
    Forward,
    /// A reply whose id is not a number: no call of ours can match it.
    Drop,
}

/// The route of a message with this id, with or without a result and an error.
pub open spec fn route_spec(id: Option<MsgId>, has_result: bool, has_error: bool) -> Route {
    match id {
        None => Route::Forward,
        Some(MsgId::Num(n)) => if has_result && has_error {
            Route::Conflict(n)
        } else if has_result {
            Route::Respond(n)
        } else if has_error {
            Route::Reject(n)
        } else {
            Route::Forward
        },
        Some(_) => if has_result || has_error {
            Route::Drop
        } else {
            Route::Forward
        },
    }
}

/// Classifies an inbound message.
pub fn route(id: &Option<MsgId>, has_result: bool, has_error: bool) -> (r: Route)
    ensures
        r == route_spec(*id, has_result, has_error),
{
    match id {
        None => Route::Forward,
        Some(MsgId::Num(n)) => if has_result && has_error {
            Route::Conflict(*n)
        } else if has_result {
            Route::Respond(*n)
        } else if has_error {
            Route::Reject(*n)
        } else {
            Route::Forward
        },
        Some(_) => if has_result || has_error {
            Route::Drop
        } else {
            Route::Forward
        },
    }
}

/// What became of an inbound message.
pub enum Inbound<C> {
    /// It answered a pending call, now removed; `callback` is to be run once
    /// with `outcome`.
    Resolved { callback: C, outcome: Result<Value, Value> },
    /// It answered a call that is not pending (never made, or answered before).
    UnknownId(i64),
    /// It carried both a result and an error.
    Conflict(i64),
    /// It is a notification or a request from the peer, for the caller's handler.
    Forward,
    /// It is a reply whose id is not a number.
    Dropped,
    /// It is not a JSON-RPC message.
    Undecodable,
}

/// Why an outbound message was not framed.
#[derive(Debug)]
pub enum SendError {
    /// Every request id has been used.
    IdsExhausted,
}

/// The ids allocated so far and the calls that wait for a reply.
pub struct Correlator<C> {
    next_id: i64,
    pending: HashMap<i64, C>,
}

/// `post` is `pre` after registering `callback` under the fresh id `id`.
pub open spec fn registered<C>(pre: Correlator<C>, post: Correlator<C>, callback: C, id: i64) -> bool {
    &&& id == pre.next_id()
    &&& !pre.pending().contains_key(id)
    &&& post.next_id() == pre.next_id() + 1
    &&& post.pending() == pre.pending().insert(id, callback)
}

/// `post` is `pre` after taking out the call with id `id`, which `r` returns.
pub open spec fn resolved<C>(pre: Correlator<C>, post: Correlator<C>, id: i64, r: Option<C>) -> bool {
    &&& post.next_id() == pre.next_id()
    &&& post.pending() == pre.pending().remove(id)
    &&& r == if pre.pending().contains_key(id) {
        Some(pre.pending()[id])
    } else {
        None
    }
}

/// `post` and `r` are what handling a message with this id, result and
/// error payload makes of `pre`.
pub open spec fn dispatched<C>(
    pre: Correlator<C>,
    post: Correlator<C>,
    id: Option<MsgId>,
    result: Option<Value>,
    error: Option<Value>,
    r: Inbound<C>,
) -> bool {
    &&& post.next_id() == pre.next_id()
    &&& match route_spec(id, result is Some, error is Some) {
        Route::Respond(n) => if pre.pending().contains_key(n) {
            &&& r == (Inbound::Resolved { callback: pre.pending()[n], outcome: Ok(result.unwrap()) })
            &&& post.pending() == pre.pending().remove(n)
        } else {
            r == Inbound::<C>::UnknownId(n) && post.pending() == pre.pending()
        },
        Route::Reject(n) => if pre.pending().contains_key(n) {
            &&& r == (Inbound::Resolved { callback: pre.pending()[n], outcome: Err(error.unwrap()) })
            &&& post.pending() == pre.pending().remove(n)
        } else {
            r == Inbound::<C>::UnknownId(n) && post.pending() == pre.pending()
        },
        Route::Conflict(n) => r == Inbound::<C>::Conflict(n) && post.pending() == pre.pending(),
        Route::Forward => r == Inbound::<C>::Forward && post.pending() == pre.pending(),
        Route::Drop => r == Inbound::<C>::Dropped && post.pending() == pre.pending(),
    }
}

impl<C> Correlator<C> {
    /// The id that the next request gets.
    pub closed spec fn next_id(&self) -> int {
        self.next_id as int
    }

    /// The calls that wait for a reply, by id.
    pub closed spec fn pending(&self) -> Map<i64, C> {
        self.pending@
    }

    /// Ids start at 1, and every pending id was allocated before.
    pub open spec fn wf(&self) -> bool {
        &&& 1 <= self.next_id() <= i64::MAX
        &&& forall|k: i64| #[trigger] self.pending().contains_key(k) ==> 1 <= k < self.next_id()
    }

    pub fn new() -> (r: Self)
        ensures
            r.wf(),
            r.next_id() == 1,
            r.pending() == Map::<i64, C>::empty(),
    {
        Correlator { next_id: 1, pending: HashMap::new() }
    }

    /// Whether an id is left for another request.
    pub fn can_allocate(&self) -> (r: bool)
        ensures
            r == (self.next_id() < i64::MAX),
    {
        self.next_id < i64::MAX
    }

    /// Registers `callback` under a fresh id, which it returns.
    pub fn register(&mut self, callback: C) -> (id: i64)
        requires
            old(self).wf(),
            old(self).next_id() < i64::MAX,
        ensures
            final(self).wf(),
            registered(*old(self), *final(self), callback, id),
    {
        let id = self.next_id;
        self.pending.insert(id, callback);
        self.next_id = id + 1;
        assert forall|k: i64| #[trigger] self.pending().contains_key(k) implies 1 <= k < self.next_id() by {
            if k != id {
                assert(old(self).pending().contains_key(k));
            }
        }
        id
    }

    /// Takes out the call with id `id`, if it is pending.
    pub fn resolve(&mut self, id: i64) -> (r: Option<C>)
        requires
            old(self).wf(),
        ensures
            final(self).wf(),
            resolved(*old(self), *final(self), id, r),
    {
        self.pending.remove(&id)
    }

    /// Handles a message with this id, result and error payload: a reply to
    /// a pending call takes that call out and hands back its callback.
    pub fn dispatch(&mut self, id: Option<MsgId>, result: Option<Value>, error: Option<Value>) -> (r:
        Inbound<C>)
        requires
            old(self).wf(),
        ensures
            final(self).wf(),
            dispatched(*old(self), *final(self), id, result, error, r),
    {
        match route(&id, result.is_some(), error.is_some()) {
            Route::Respond(n) => match self.resolve(n) {
                Some(callback) => Inbound::Resolved { callback, outcome: Ok(result.unwrap()) },
                None => {
                    assert(old(self).pending().remove(n) =~= old(self).pending());
                    Inbound::UnknownId(n)
                },
            },
            Route::Reject(n) => match self.resolve(n) {
                Some(callback) => Inbound::Resolved { callback, outcome: Err(error.unwrap()) },
                None => {
                    assert(old(self).pending().remove(n) =~= old(self).pending());
                    Inbound::UnknownId(n)
                },
            },
            Route::Conflict(n) => Inbound::Conflict(n),
            Route::Forward => Inbound::Forward,
            Route::Drop => Inbound::Dropped,
        }
    }

    /// Handles one inbound message body: reads its id from the JSON-RPC
    /// envelope and its `result` and `error` members from the JSON object,
    /// and dispatches by them.
    pub fn handle_msg(&mut self, body: &str) -> (r: Inbound<C>)
        requires
            old(self).wf(),
        ensures
            final(self).wf(),
            match decoded(body@) {
                None => {
                    &&& r is Undecodable
                    &&& final(self).next_id() == old(self).next_id()
                    &&& final(self).pending() == old(self).pending()
                },
                Some((id, result, error)) => dispatched(*old(self), *final(self), id, result, error, r),
            },
    {
        let json = match parse_json(body) {
            Some(v) => v,
            None => return Inbound::Undecodable,
        };
        let m = match parse_rpc(body) {
            Some(m) => m,
            None => return Inbound::Undecodable,
        };
        let id = rpc_id(&m);
        let result = member(&json, "result");
        let error = member(&json, "error");
        self.dispatch(id, result, error)
    }

    /// Builds the frame of a request to `method` with `params`, and
    /// registers `callback` under the request's id, which it returns with the
    /// frame. It fails, registering nothing, only once every id is used.
    pub fn prepare_request(&mut self, method: &str, params: &Value, callback: C) -> (r: Result<
        (i64, Vec<u8>),
        SendError,
    >)
        requires
            old(self).wf(),
        ensures
            final(self).wf(),
            r is Err <==> old(self).next_id() == i64::MAX,
            match r {
                Ok((id, frame)) => {
                    &&& registered(*old(self), *final(self), callback, id)
                    &&& frame@ == frame_bytes(json_text(request_msg(id, method@, *params)))
                },
                Err(_) => {
                    &&& final(self).next_id() == old(self).next_id()
                    &&& final(self).pending() == old(self).pending()
                },
            },
    {
        if !self.can_allocate() {
            return Err(SendError::IdsExhausted);
        }
        let msg = request_rpc(self.next_id, method, params);
        let frame = prepare_lsp_json(&msg);
        let id = self.register(callback);
        Ok((id, frame))
    }
}

/// What a message body decodes to: the id from its JSON-RPC envelope, and
/// its `result` and `error` members; none unless it is both JSON and
/// JSON-RPC.
pub open spec fn decoded(body: Seq<char>) -> Option<(Option<MsgId>, Option<Value>, Option<Value>)> {
    match (parsed_json(body), parsed_rpc(body)) {
        (Some(v), Some(m)) => Some((id_of(m), member_of(v, "result"@), member_of(v, "error"@))),
        _ => None,
    }
}

/// The frame that carries `msg` as JSON text.
pub fn prepare_lsp_json(msg: &jsonrpc_lite::JsonRpc) -> (r: Vec<u8>)
    ensures
        r@ == frame_bytes(json_text(*msg)),
{
    match rpc_bytes(msg) {
        Ok(body) => encode_frame(body.as_slice()),
        Err(_) => unreached(),
    }
}

/// Builds the frame of a notification of `method` with `params`.
pub fn prepare_notification(method: &str, params: &Value) -> (r: Vec<u8>)
    ensures
        r@ == frame_bytes(json_text(notification_msg(method@, *params))),
{
    let msg = notification_rpc(method, params);
    prepare_lsp_json(&msg)
}

/// Requests registered one after another get consecutive ids: from a state
/// whose next id is `k`, the `n` registrations get `k`, `k + 1`, ...,
/// `k + n - 1`, each once.
pub proof fn lemma_ids_consecutive<C>(states: Seq<Correlator<C>>, callbacks: Seq<C>, ids: Seq<i64>)
    requires
        states.len() == ids.len() + 1,
        callbacks.len() == ids.len(),
        forall|i: int|
            0 <= i < ids.len() ==> registered(
                #[trigger] states[i],
                states[i + 1],
                callbacks[i],
                ids[i],
            ),
    ensures
        forall|i: int| 0 <= i <= ids.len() ==> #[trigger] states[i].next_id() == states[0].next_id() + i,
        forall|i: int| 0 <= i < ids.len() ==> #[trigger] ids[i] == states[0].next_id() + i,
        ids.to_set() == Set::new(
            |x: i64| states[0].next_id() <= x < states[0].next_id() + ids.len(),
        ),
        ids.no_duplicates(),
    decreases ids.len(),
{
    if ids.len() > 0 {
        let n = ids.len() - 1;
        lemma_ids_consecutive(states.drop_last(), callbacks.drop_last(), ids.drop_last());
        assert(registered(states[n], states[n + 1], callbacks[n], ids[n]));
        assert(states.drop_last()[n] == states[n]);
        assert forall|i: int| 0 <= i <= ids.len() implies #[trigger] states[i].next_id() == states[0].next_id() + i by {
            if i <= n {
                assert(states.drop_last()[i] == states[i]);
            }
        }
        assert forall|i: int| 0 <= i < ids.len() implies #[trigger] ids[i] == states[0].next_id() + i by {
            if i < n {
                assert(ids.drop_last()[i] == ids[i]);
            }
        }
    }
    let k = states[0].next_id();
    assert forall|x: i64| ids.to_set().contains(x) <==> k <= x < k + ids.len() by {
        if k <= x < k + ids.len() {
            assert(ids[x - k] == x);
        }
    }
    assert(ids.to_set() =~= Set::new(|x: i64| k <= x < k + ids.len()));
}

/// A call is resolved at most once: once a reply has resolved the call with
/// id `n`, a second reply with the same id resolves nothing and leaves the
/// pending calls as they were.
pub proof fn lemma_duplicate_reply<C>(
    s0: Correlator<C>,
    s1: Correlator<C>,
    s2: Correlator<C>,
    n: i64,
    result1: Option<Value>,
    error1: Option<Value>,
    r1: Inbound<C>,
    result2: Option<Value>,
    error2: Option<Value>,
    r2: Inbound<C>,
)
    requires
        dispatched(s0, s1, Some(MsgId::Num(n)), result1, error1, r1),
        dispatched(s1, s2, Some(MsgId::Num(n)), result2, error2, r2),
        r1 is Resolved,
    ensures
        !(r2 is Resolved),
        s2.pending() == s1.pending(),
        s2.next_id() == s1.next_id(),
        !s1.pending().contains_key(n),
{
}

} // verus!
