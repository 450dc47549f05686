//! Executables: scenarios compiled into graphs of events.
use vstd::prelude::*;

use crate::marshalling::{MarshallerKind, MarshallingRegistry};
use crate::names::{ActorName, DummyName, EventName, SubroutineName};
use crate::scenario::{DstPattern, Msg, RequiredToBe};

pub mod builder;
pub mod keys;
pub mod report;
pub mod runner;
pub mod tables;

pub use keys::{
    KeyActor, KeyBind, KeyDelay, KeyDummy, KeyRecv, KeyRespond, KeyScenario, KeyScope, KeySend,
};
pub use report::Report;
pub use tables::{EventMap, EventSet};

verus! {

/// A key corresponding to some event during test execution.
#[derive(Debug, Clone, Copy, PartialEq, Eq, PartialOrd, Ord, Hash, Structural)]
pub enum EventKey {
    Bind(KeyBind),
    Send(KeySend),
    Recv(KeyRecv),
    Respond(KeyRespond),
    Delay(KeyDelay),
}

/// A scenario compiled into a graph of events.
#[derive(Debug)]
pub struct Executable {
    pub marshalling: MarshallingRegistry,
    pub actors: Vec<ActorInfo>,
    pub dummies: Vec<DummyInfo>,
    pub events: Events,
    pub root_scope_key: KeyScope,
    pub scopes: Vec<ScopeInfo>,
}

/// Where a scope comes from.
#[derive(Debug)]
pub struct ScopeInfo {
    pub source_key: KeyScenario,
    pub invoked_as: Option<(KeyScope, EventName, SubroutineName)>,
}

/// The names an actor is known by, in each scope where it is known.
#[derive(Debug)]
pub struct ActorInfo {
    pub known_as: Vec<(KeyScope, ActorName)>,
}

/// The names a dummy is known by, in each scope where it is known.
#[derive(Debug)]
pub struct DummyInfo {
    pub known_as: Vec<(KeyScope, DummyName)>,
}

/// The events of an executable and how they depend on one another.
#[derive(Debug)]
pub struct Events {
    pub priority: EventMap<usize>,
    pub required: EventMap<RequiredToBe>,
    pub names: EventMap<(KeyScope, EventName)>,
    pub bind: Vec<EventBind>,
    pub send: Vec<EventSend>,
    pub recv: Vec<EventRecv>,
    pub respond: Vec<EventRespond>,
    pub delay: Vec<EventDelay>,
    pub entry_points: EventSet,
    pub key_unblocks_values: EventMap<EventSet>,
}

#[derive(Debug)]
pub struct EventSend {
    pub scope_key: KeyScope,
    pub from: KeyDummy,
    pub to: Option<KeyActor>,
    pub fqn: String,
    pub payload: Msg,
}

#[derive(Debug)]
pub struct EventRecv {
    pub scope_key: KeyScope,
    pub from: Option<KeyActor>,
    pub to: Option<KeyDummy>,
    pub fqn: String,
    pub after_duration: u128,
    pub before_duration: Option<u128>,
    pub payload_matchers: Vec<DstPattern>,
}

#[derive(Debug)]
pub struct EventRespond {
    pub scope_key: KeyScope,
    pub respond_to: KeyRecv,
    pub request_type: String,
    pub respond_from: Option<KeyDummy>,
    pub payload: Msg,
}

#[derive(Debug)]
pub struct EventDelay {
    pub delay_for: u128,
    pub delay_step: u128,
}

#[derive(Debug)]
pub struct EventBind {
    pub dst: DstPattern,
    pub src: Msg,
    pub scope: BindScope,
}

/// The scopes a bind event reads from and writes to.
#[derive(Debug, Clone, Copy, PartialEq, Eq, Structural)]
pub enum BindScope {
    Same(KeyScope),
    Two { src: KeyScope, dst: KeyScope },
}


/// The largest duration that a scenario holds, in nanoseconds: that of
/// `u64::MAX` seconds.
pub const MAX_DURATION: u128 = 18_446_744_073_709_551_616_000_000_000;

/// The latest instant that the runner accepts, in nanoseconds since it
/// started.
pub const MAX_INSTANT: u128 = 1_000_000_000_000_000_000_000_000_000_000;

impl EventKey {
    /// The index of the event among the events of its kind.
    pub open spec fn index(self) -> usize {
        match self {
            EventKey::Bind(k) => k.0,
            EventKey::Send(k) => k.0,
            EventKey::Recv(k) => k.0,
            EventKey::Respond(k) => k.0,
            EventKey::Delay(k) => k.0,
        }
    }
}

impl Executable {
    /// Whether `k` is the key of an event of this executable.
    pub open spec fn valid_key(&self, k: EventKey) -> bool {
        match k {
            EventKey::Bind(b) => b.0 < self.events.bind@.len(),
            EventKey::Send(b) => b.0 < self.events.send@.len(),
            EventKey::Recv(b) => b.0 < self.events.recv@.len(),
            EventKey::Respond(b) => b.0 < self.events.respond@.len(),
            EventKey::Delay(b) => b.0 < self.events.delay@.len(),
        }
    }

    /// The events that `p` unblocks.
    pub open spec fn unblocks(&self, p: EventKey) -> Set<EventKey> {
        if self.events.key_unblocks_values.map().contains_key(p) {
            self.events.key_unblocks_values.map()[p].set()
        } else {
            Set::empty()
        }
    }

    /// The events that must happen before `d`.
    pub open spec fn prerequisites(&self, d: EventKey) -> Set<EventKey> {
        Set::new(|p: EventKey| self.unblocks(p).contains(d))
    }

    pub open spec fn scope_ok(&self, s: KeyScope) -> bool {
        s.0 < self.scopes@.len()
    }

    pub open spec fn actor_ok(&self, a: KeyActor) -> bool {
        a.0 < self.actors@.len()
    }

    pub open spec fn dummy_ok(&self, d: KeyDummy) -> bool {
        d.0 < self.dummies@.len()
    }

    /// The executable is consistent: every key refers to an item of it, every
    /// event has a name, every message type it uses is known (responses are
    /// sent to requests), and durations are bounded; the entry points wait
    /// for nothing.
    pub open spec fn wf(&self) -> bool {
        let ev = &self.events;
        &&& self.wf_graph()
        &&& ev.required.wf()
        &&& ev.entry_points.wf()
        &&& self.scope_ok(self.root_scope_key)
        &&& forall|k: EventKey| #[trigger] ev.entry_points.set().contains(k) ==> self.valid_key(k)
        &&& forall|k: EventKey| #[trigger] ev.entry_points.set().contains(k) ==> self.prerequisites(k).is_empty()
        &&& forall|k: EventKey| #[trigger] ev.required.map().contains_key(k) ==> self.valid_key(k)
    }

    /// The graph of events is consistent: every key refers to an item of it,
    /// every event has a name, every message type it uses is known
    /// (responses are sent to requests), and durations are bounded.
    pub open spec fn wf_graph(&self) -> bool {
        let ev = &self.events;
        &&& ev.priority.wf()
        &&& ev.names.wf()
        &&& ev.key_unblocks_values.wf()
        &&& forall|k: EventKey| self.valid_key(k) ==> #[trigger] ev.names.map().contains_key(k)
        &&& forall|p: EventKey| #[trigger]
            ev.key_unblocks_values.map().contains_key(p) ==> {
                &&& self.valid_key(p)
                &&& ev.key_unblocks_values.map()[p].wf()
                &&& forall|d: EventKey| #[trigger]
                    ev.key_unblocks_values.map()[p].set().contains(d) ==> self.valid_key(d)
            }
        &&& forall|i: int| 0 <= i < ev.bind@.len() ==> match #[trigger] ev.bind@[i].scope {
            BindScope::Same(s) => self.scope_ok(s),
            BindScope::Two { src, dst } => self.scope_ok(src) && self.scope_ok(dst),
        }
        &&& forall|i: int| 0 <= i < ev.send@.len() ==> {
            let e = #[trigger] ev.send@[i];
            &&& self.scope_ok(e.scope_key)
            &&& self.dummy_ok(e.from)
            &&& (e.to matches Some(a) ==> self.actor_ok(a))
            &&& self.marshalling.kind_of(e.fqn@) is Some
        }
        &&& forall|i: int| 0 <= i < ev.recv@.len() ==> {
            let e = #[trigger] ev.recv@[i];
            &&& self.scope_ok(e.scope_key)
            &&& (e.from matches Some(a) ==> self.actor_ok(a))
            &&& (e.to matches Some(d) ==> self.dummy_ok(d))
            &&& self.marshalling.kind_of(e.fqn@) is Some
            &&& e.after_duration <= MAX_DURATION
            &&& (e.before_duration matches Some(b) ==> b <= MAX_DURATION)
        }
        &&& forall|i: int| 0 <= i < ev.respond@.len() ==> {
            let e = #[trigger] ev.respond@[i];
            &&& self.scope_ok(e.scope_key)
            &&& e.respond_to.0 < ev.recv@.len()
            &&& (e.respond_from matches Some(d) ==> self.dummy_ok(d))
            &&& self.marshalling.kind_of(e.request_type@) == Some(MarshallerKind::Request)
        }
        &&& forall|i: int| 0 <= i < ev.delay@.len() ==> {
            let e = #[trigger] ev.delay@[i];
            &&& e.delay_for <= MAX_DURATION
            &&& e.delay_step <= MAX_DURATION
        }
    }
}

} // verus!
