//! Sending and responding: what the test is to send, from the scenario's
//! templates and the bindings so far.
use vstd::prelude::*;
use vstd::string::*;

use crate::bindings::{render, render_json, BindError, Env, Scope};
use crate::execution::{EventKey, EventRespond, EventSend, Executable, KeyActor, KeyDummy, KeyRecv, KeyRespond, KeySend};
use crate::json::{Json, JsonValue};
use crate::marshalling::MarshallingRegistry;
use crate::scenario::Msg;

use super::binds::envs_of;
use super::{RunError, Runner};

verus! {

/// What a message that the test sends carries.
#[derive(Debug)]
pub enum Payload {
    /// A serialized message, to be deserialized into the message type.
    Value(JsonValue),
    /// The predefined message stored under this key.
    Injected(String),
}

/// The mathematical content of a [Payload].
pub enum PayloadView {
    Value(Json),
    Injected(Seq<char>),
}

impl View for Payload {
    type V = PayloadView;

    open spec fn view(&self) -> PayloadView {
        match self {
            Payload::Value(v) => PayloadView::Value(v@),
            Payload::Injected(k) => PayloadView::Injected(k@),
        }
    }
}

/// A message that the test is to send.
#[derive(Debug)]
pub struct Outbound {
    /// The dummy that sends it.
    pub from: KeyDummy,
    /// The address it is sent to; `None` when it is routed.
    pub to: Option<u64>,
    /// The FQN of its type.
    pub fqn: String,
    pub payload: Payload,
}

/// A response that the test is to send.
#[derive(Debug)]
pub struct Reply {
    /// The dummy that responds; `None` for the test itself.
    pub from: Option<KeyDummy>,
    /// The receive event that accepted the request.
    pub request: KeyRecv,
    /// The FQN of the request type.
    pub fqn: String,
    pub payload: Payload,
}

/// The text of the error when the template names an unbound variable `n`.
pub open spec fn unbound_text(n: Seq<char>) -> Seq<char> {
    seq!['u', 'n', 'b', 'o', 'u', 'n', 'd', ' ', 'v', 'a', 'l', 'u', 'e', ':', ' '] + n
}

/// The payload of the message `msg`, with the variables `env` and the
/// predefined messages of `marshalling`; or the text of the error.
pub open spec fn marshalled(marshalling: MarshallingRegistry, env: Env, msg: Msg) -> Result<
    PayloadView,
    Seq<char>,
> {
    match msg {
        Msg::Literal(v) => Ok(PayloadView::Value(v@)),
        Msg::Bind(t) => match render_json(t@, env) {
            Ok(v) => Ok(PayloadView::Value(v)),
            Err(n) => Err(unbound_text(n)),
        },
        Msg::Inject(key) => if marshalling.value_of(key@) is Some {
            Ok(PayloadView::Injected(key@))
        } else {
            Err("no such value"@)
        },
    }
}

/// The payload of `msg`, with the variables of `scope`.
fn marshal(marshalling: &MarshallingRegistry, scope: &Scope, msg: &Msg) -> (r: Result<Payload, RunError>)
    ensures
        match r {
            Ok(p) => marshalled(*marshalling, scope.env(), *msg) == Ok::<PayloadView, Seq<char>>(p@),
            Err(e) => marshalled(*marshalling, scope.env(), *msg) matches Err(t) && e matches RunError::Marshalling(m) && m@ == t,
        },
{
    match msg {
        Msg::Literal(v) => Ok(Payload::Value(v.deep_clone())),
        Msg::Bind(t) => match render(t, scope) {
            Ok(v) => Ok(Payload::Value(v)),
            Err(e) => Err(RunError::Marshalling(e.message())),
        },
        Msg::Inject(key) => match marshalling.value(key.as_str()) {
            Some(_) => Ok(Payload::Injected(key.clone())),
            None => Err(RunError::Marshalling(String::from_str("no such value"))),
        },
    }
}

impl<'a> Runner<'a> {
    /// The message that the send event `k` sends: to the address bound to
    /// its actor (routed, when it names none), from its dummy, with its
    /// payload produced in its scope. An actor with no address yet is an
    /// error, checked first.
    pub fn prepare_send(&self, k: KeySend) -> (r: Result<Outbound, RunError>)
        requires
            self.wf(),
            k.0 < self.exe().events.send@.len(),
        ensures
            ({
                let ev = self.exe().events.send@[k.0 as int];
                let env = envs_of(self.scope_seq())[ev.scope_key.0 as int];
                let unbound = ev.to matches Some(a) && self.actor_seq()[a.0 as int] is None;
                match r {
                    Ok(o) => {
                        &&& !unbound
                        &&& o.to == match ev.to {
                            Some(a) => self.actor_seq()[a.0 as int],
                            None => None,
                        }
                        &&& o.from == ev.from
                        &&& o.fqn@ == ev.fqn@
                        &&& marshalled(self.exe().marshalling, env, ev.payload) == Ok::<PayloadView, Seq<char>>(o.payload@)
                    },
                    Err(e) => if unbound {
                        e == RunError::UnboundName(ev.to->0)
                    } else {
                        marshalled(self.exe().marshalling, env, ev.payload) matches Err(t) && e matches RunError::Marshalling(m) && m@ == t
                    },
                }
            }),
    {
        let ev: &EventSend = &self.executable.events.send[k.0];
        assert(self.exe().events.send@[k.0 as int] == *ev);
        let to = match ev.to {
            Some(a) => match self.actors[a.0] {
                Some(addr) => Some(addr),
                None => {
                    return Err(RunError::UnboundName(a));
                },
            },
            None => None,
        };
        let payload = marshal(&self.executable.marshalling, &self.scopes[ev.scope_key.0], &ev.payload)?;
        Ok(Outbound { from: ev.from, to, fqn: ev.fqn.clone(), payload })
    }

    /// The response that the respond event `k` sends to the request accepted
    /// by its receive event: from its dummy (or the test itself), with its
    /// payload produced in its scope. The request is used up, even when the
    /// payload cannot be produced; with no request kept, nothing changes and
    /// the error is [RunError::NoRequest].
    pub fn prepare_respond(&mut self, k: KeyRespond) -> (r: Result<Reply, RunError>)
        requires
            old(self).wf(),
            k.0 < old(self).exe().events.respond@.len(),
        ensures
            final(self).wf(),
            ({
                let ev = old(self).exe().events.respond@[k.0 as int];
                let env = envs_of(old(self).scope_seq())[ev.scope_key.0 as int];
                let kept = old(self).request_seq()[ev.respond_to.0 as int];
                &&& !kept ==> r == Err::<Reply, RunError>(RunError::NoRequest) && *final(self) == *old(self)
                &&& kept ==> {
                    &&& final(self).same_except_requests(*old(self))
                    &&& final(self).request_seq() == old(self).request_seq().update(ev.respond_to.0 as int, false)
                    &&& match r {
                        Ok(o) => {
                            &&& o.from == ev.respond_from
                            &&& o.request == ev.respond_to
                            &&& o.fqn@ == ev.request_type@
                            &&& marshalled(old(self).exe().marshalling, env, ev.payload) == Ok::<PayloadView, Seq<char>>(o.payload@)
                        },
                        Err(e) => marshalled(old(self).exe().marshalling, env, ev.payload) matches Err(t) && e matches RunError::Marshalling(m) && m@ == t,
                    }
                }
            }),
    {
        let exe: &'a Executable = self.executable;
        let ev: &EventRespond = &exe.events.respond[k.0];
        assert(self.exe().events.respond@[k.0 as int] == *ev);
        let rq = ev.respond_to;
        if !self.requests[rq.0] {
            return Err(RunError::NoRequest);
        }
        let ghost s0 = *self;
        self.requests.set(rq.0, false);
        proof {
            assert(self.same_except_requests(s0));
            self.lemma_requests_changed(s0);
        }
        let payload = marshal(&exe.marshalling, &self.scopes[ev.scope_key.0], &ev.payload)?;
        Ok(Reply { from: ev.respond_from, request: rq, fqn: ev.request_type.clone(), payload })
    }
}

} // verus!
