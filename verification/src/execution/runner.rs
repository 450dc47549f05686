//! Running an executable: the decisions of a test run.
//!
//! The run alternates outside work (exchanging messages with the system under
//! test, waiting) with decisions. The decisions are made here, on the state
//! of a [Runner]; the outside work is done by its driver, which hands the
//! outcome back (a received message, the time).
//!
//! Instants are counted in nanoseconds since the run started.
use vstd::prelude::*;

use crate::bindings::{assoc_env, BindError, Env, Scope};
use crate::execution::tables::{insert_into, no_dups};
use crate::execution::{
    KeyBind, EventKey, EventMap, EventSet, Executable, KeyActor, KeyDelay, KeyDummy, KeyRecv, KeyRespond,
    KeySend, MAX_DURATION, MAX_INSTANT,
};
use crate::json::JsonValue;
use crate::names::ActorName;
use crate::scenario::RequiredToBe;

pub mod binds;
mod deps;
mod outcome;
pub mod recv;
pub mod send;
pub mod timers;

pub use recv::Envelope;

verus! {

/// An error that ends a run.
#[derive(Debug)]
pub enum RunError {
    EventIsNotReady(ReadyEventKey),
    DummyName(ActorName),
    ActorName(ActorName),
    UnboundName(KeyActor),
    NoRequest,
    BindError(BindError),
    Marshalling(String),
}

/// A key for an event that is ready to be processed by [Runner].
///
/// A trimmed version of [EventKey]: binds are processed all together, and so
/// are receives and delays.
#[derive(Debug, Clone, Copy, PartialEq, Eq, PartialOrd, Ord, Hash, Structural)]
pub enum ReadyEventKey {
    Bind,
    RecvOrDelay,
    Send(KeySend),
    Respond(KeyRespond),
}

/// The class of `e`.
pub open spec fn ready_class(e: EventKey) -> ReadyEventKey {
    match e {
        EventKey::Bind(_) => ReadyEventKey::Bind,
        EventKey::Send(k) => ReadyEventKey::Send(k),
        EventKey::Respond(k) => ReadyEventKey::Respond(k),
        EventKey::Delay(_) | EventKey::Recv(_) => ReadyEventKey::RecvOrDelay,
    }
}

/// The event that a class stands for, when it stands for one.
pub open spec fn class_event(r: ReadyEventKey) -> Option<EventKey> {
    match r {
        ReadyEventKey::Send(k) => Some(EventKey::Send(k)),
        ReadyEventKey::Respond(k) => Some(EventKey::Respond(k)),
        _ => None,
    }
}

impl ReadyEventKey {
    /// The class of `e`.
    pub fn from_event_key(e: EventKey) -> (r: Self)
        ensures
            r == ready_class(e),
    {
        match e {
            EventKey::Bind(_) => ReadyEventKey::Bind,
            EventKey::Send(k) => ReadyEventKey::Send(k),
            EventKey::Respond(k) => ReadyEventKey::Respond(k),
            EventKey::Delay(_) | EventKey::Recv(_) => ReadyEventKey::RecvOrDelay,
        }
    }

    /// The event that the class stands for: only a send or a respond stands for
    /// one event.
    pub fn event_key(self) -> (r: Result<EventKey, ()>)
        ensures
            match r {
                Ok(e) => class_event(self) == Some(e),
                Err(_) => class_event(self) is None,
            },
    {
        match self {
            ReadyEventKey::Bind => Err(()),
            ReadyEventKey::Send(k) => Ok(EventKey::Send(k)),
            ReadyEventKey::Respond(k) => Ok(EventKey::Respond(k)),
            ReadyEventKey::RecvOrDelay => Err(()),
        }
    }
}

/// Pending delays: (deadline, key, step), each key once.
#[derive(Debug)]
pub struct Delays {
    entries: Vec<(u128, KeyDelay, u128)>,
}

impl Delays {
    pub closed spec fn set(&self) -> Set<(u128, KeyDelay, u128)> {
        self.entries@.to_set()
    }

    pub closed spec fn wf(&self) -> bool {
        forall|i: int, j: int|
            0 <= i < j < self.entries@.len() ==> self.entries@[i].1 != self.entries@[j].1
    }

    /// Each delay is pending once.
    pub proof fn lemma_unique(&self, a: (u128, KeyDelay, u128), b: (u128, KeyDelay, u128))
        requires
            self.wf(),
            self.set().contains(a),
            self.set().contains(b),
            a.1 == b.1,
        ensures
            a == b,
    {
        let i = choose|i: int| 0 <= i < self.entries@.len() && self.entries@[i] == a;
        let j = choose|j: int| 0 <= j < self.entries@.len() && self.entries@[j] == b;
        if i != j {
            if i < j {
                assert(self.entries@[i].1 != self.entries@[j].1);
            } else {
                assert(self.entries@[j].1 != self.entries@[i].1);
            }
        }
    }

    pub open spec fn has_key(&self, k: KeyDelay) -> bool {
        exists|d: u128, s: u128| self.set().contains((d, k, s))
    }

    pub fn new() -> (r: Self)
        ensures
            r.wf(),
            r.set() == Set::<(u128, KeyDelay, u128)>::empty(),
    {
        let r = Delays { entries: Vec::new() };
        assert(r.set() =~= Set::<(u128, KeyDelay, u128)>::empty());
        r
    }

    /// Adds the delay `key`, due `delay_for` after `now`, stepping by `step`.
    pub fn insert(&mut self, now: u128, key: KeyDelay, delay_for: u128, step: u128)
        requires
            old(self).wf(),
            !old(self).has_key(key),
            now <= MAX_INSTANT,
            delay_for <= MAX_DURATION,
        ensures
            final(self).wf(),
            final(self).set() == old(self).set().insert(((now + delay_for) as u128, key, step)),
    {
        let ghost before = self.entries@;
        let e = (now + delay_for, key, step);
        self.entries.push(e);
        proof {
            assert(self.entries@ == before.push(e));
            assert forall|i: int, j: int|
                0 <= i < j < self.entries@.len() implies self.entries@[i].1 != self.entries@[j].1 by {
                if j == before.len() {
                    assert(before.contains(before[i]));
                    assert(old(self).set().contains((before[i].0, before[i].1, before[i].2)));
                }
            }
            assert(self.entries@.to_set() =~= before.to_set().insert(e)) by {
                assert forall|x: (u128, KeyDelay, u128)| #[trigger] self.entries@.contains(x) <==> before.contains(x) || x == e by {
                    if before.contains(x) {
                        let j = choose|j: int| 0 <= j < before.len() && #[trigger] before[j] == x;
                        assert(self.entries@[j] == x);
                    }
                    if x == e {
                        assert(self.entries@[before.len() as int] == x);
                    }
                }
            }
        }
    }
}

/// The window in which each receive event accepts a message.
#[derive(Debug)]
pub struct Receives {
    valid_from: Vec<Option<u128>>,
    valid_thru: Vec<(u128, KeyRecv)>,
}

impl Receives {
    /// The earliest instant at which each receive accepts a message.
    pub closed spec fn from_seq(&self) -> Seq<Option<u128>> {
        self.valid_from@
    }

    /// The deadlines of the receives.
    pub closed spec fn thru_set(&self) -> Set<(u128, KeyRecv)> {
        self.valid_thru@.to_set()
    }

    pub closed spec fn wf(&self) -> bool {
        forall|i: int, j: int|
            0 <= i < j < self.valid_thru@.len() ==> self.valid_thru@[i].1 != self.valid_thru@[j].1
    }

    /// Each receive has one deadline at most.
    pub proof fn lemma_unique(&self, a: (u128, KeyRecv), b: (u128, KeyRecv))
        requires
            self.wf(),
            self.thru_set().contains(a),
            self.thru_set().contains(b),
            a.1 == b.1,
        ensures
            a == b,
    {
        let i = choose|i: int| 0 <= i < self.valid_thru@.len() && self.valid_thru@[i] == a;
        let j = choose|j: int| 0 <= j < self.valid_thru@.len() && self.valid_thru@[j] == b;
        if i != j {
            if i < j {
                assert(self.valid_thru@[i].1 != self.valid_thru@[j].1);
            } else {
                assert(self.valid_thru@[j].1 != self.valid_thru@[i].1);
            }
        }
    }

    pub open spec fn has_deadline(&self, k: KeyRecv) -> bool {
        exists|d: u128| self.thru_set().contains((d, k))
    }
}

impl Receives {
    /// No receive has a window yet.
    pub fn new(n: usize) -> (r: Self)
        ensures
            r.wf(),
            r.from_seq() == Seq::new(n as nat, |i: int| None::<u128>),
            r.thru_set() == Set::<(u128, KeyRecv)>::empty(),
    {
        let mut valid_from: Vec<Option<u128>> = Vec::new();
        let mut i: usize = 0;
        while i < n
            invariant
                i <= n,
                valid_from@ == Seq::new(i as nat, |j: int| None::<u128>),
            decreases n - i,
        {
            valid_from.push(None);
            i = i + 1;
            assert(valid_from@ =~= Seq::new(i as nat, |j: int| None::<u128>));
        }
        let r = Receives { valid_from, valid_thru: Vec::new() };
        assert(r.thru_set() =~= Set::<(u128, KeyRecv)>::empty());
        r
    }

    /// Opens the window of `key` at `now`: it accepts messages from `after`
    /// later, and (with `before`) until `before` later.
    pub fn insert(&mut self, now: u128, key: KeyRecv, after: u128, before: Option<u128>)
        requires
            old(self).wf(),
            key.0 < old(self).from_seq().len(),
            !old(self).has_deadline(key),
            now <= MAX_INSTANT,
            after <= MAX_DURATION,
            before matches Some(b) ==> b <= MAX_DURATION,
        ensures
            final(self).wf(),
            final(self).from_seq() == old(self).from_seq().update(key.0 as int, Some((now + after) as u128)),
            final(self).thru_set() == match before {
                Some(b) => old(self).thru_set().insert(((now + b) as u128, key)),
                None => old(self).thru_set(),
            },
    {
        self.valid_from.set(key.0, Some(now + after));
        if let Some(b) = before {
            let ghost prev = self.valid_thru@;
            let e = (now + b, key);
            self.valid_thru.push(e);
            proof {
                assert(self.valid_thru@ == prev.push(e));
                assert forall|i: int, j: int|
                    0 <= i < j < self.valid_thru@.len() implies self.valid_thru@[i].1 != self.valid_thru@[j].1 by {
                    if j == prev.len() {
                        assert(prev.contains(prev[i]));
                        assert(old(self).thru_set().contains((prev[i].0, prev[i].1)));
                    }
                }
                assert(self.valid_thru@.to_set() =~= prev.to_set().insert(e)) by {
                    assert forall|x: (u128, KeyRecv)| #[trigger] self.valid_thru@.contains(x) <==> prev.contains(x) || x == e by {
                        if prev.contains(x) {
                            let j = choose|j: int| 0 <= j < prev.len() && #[trigger] prev[j] == x;
                            assert(self.valid_thru@[j] == x);
                        }
                        if x == e {
                            assert(self.valid_thru@[prev.len() as int] == x);
                        }
                    }
                }
            }
        }
    }

    /// Closes the windows whose deadline is before `now`; returns their keys.
    pub fn select_timed_out(&mut self, now: u128) -> (r: Vec<KeyRecv>)
        requires
            old(self).wf(),
        ensures
            final(self).wf(),
            final(self).from_seq() == old(self).from_seq(),
            final(self).thru_set() == old(self).thru_set().filter(|e: (u128, KeyRecv)| e.0 >= now),
            forall|k: KeyRecv| r@.contains(k) <==> exists|d: u128| d < now && #[trigger] old(self).thru_set().contains((d, k)),
    {
        let mut kept: Vec<(u128, KeyRecv)> = Vec::new();
        let mut out: Vec<KeyRecv> = Vec::new();
        let ghost all = self.valid_thru@;
        let mut i: usize = 0;
        while i < self.valid_thru.len()
            invariant
                self.valid_thru@ == all,
                i <= all.len(),
                forall|x: (u128, KeyRecv)| #[trigger] kept@.contains(x) <==> all.take(i as int).contains(x) && x.0 >= now,
                forall|k: KeyRecv| #[trigger] out@.contains(k) <==> exists|d: u128| d < now && #[trigger] all.take(i as int).contains((d, k)),
                forall|a: int, b: int| 0 <= a < b < kept@.len() ==> kept@[a].1 != kept@[b].1,
                forall|a: int| 0 <= a < kept@.len() ==> exists|j: int| 0 <= j < i && all[j] == #[trigger] kept@[a],
                forall|a: int, b: int| 0 <= a < b < all.len() ==> all[a].1 != all[b].1,
            decreases all.len() - i,
        {
            let e = self.valid_thru[i];
            let ghost kept0 = kept@;
            let ghost out0 = out@;
            assert(all.take(i + 1) == all.take(i as int).push(e));
            if e.0 < now {
                out.push(e.1);
                proof {
                    assert forall|k: KeyRecv| #[trigger] out@.contains(k) <==> exists|d: u128| d < now && #[trigger] all.take(i + 1).contains((d, k)) by {
                        if out@.contains(k) {
                            let j = choose|j: int| 0 <= j < out@.len() && out@[j] == k;
                            if j == out0.len() {
                                assert(all.take(i + 1)[i as int] == (e.0, k));
                                assert(all.take(i + 1).contains((e.0, k)));
                            } else {
                                assert(out0[j] == k);
                                assert(out0.contains(k));
                                let d = choose|d: u128| d < now && #[trigger] all.take(i as int).contains((d, k));
                                assert(all.take(i + 1).contains((d, k)));
                            }
                        }
                        if exists|d: u128| d < now && #[trigger] all.take(i + 1).contains((d, k)) {
                            let d = choose|d: u128| d < now && #[trigger] all.take(i + 1).contains((d, k));
                            if (d, k) == e {
                                assert(out@[out0.len() as int] == k);
                            } else {
                                assert(all.take(i as int).contains((d, k)));
                                assert(out0.contains(k));
                                let j = choose|j: int| 0 <= j < out0.len() && #[trigger] out0[j] == k;
                                assert(out@[j] == k);
                            }
                        }
                    }
                }
            } else {
                kept.push(e);
                proof {
                    assert forall|k: KeyRecv| #[trigger] out@.contains(k) <==> exists|d: u128| d < now && #[trigger] all.take(i + 1).contains((d, k)) by {
                        if exists|d: u128| d < now && #[trigger] all.take(i + 1).contains((d, k)) {
                            let d = choose|d: u128| d < now && #[trigger] all.take(i + 1).contains((d, k));
                            let j = choose|j: int| 0 <= j < i + 1 && #[trigger] all.take(i + 1)[j] == (d, k);
                            assert(j != i);
                            assert(all.take(i as int)[j] == (d, k));
                            assert(all.take(i as int).contains((d, k)));
                        }
                        if out@.contains(k) {
                            let d = choose|d: u128| d < now && #[trigger] all.take(i as int).contains((d, k));
                            let j = choose|j: int| 0 <= j < i && #[trigger] all.take(i as int)[j] == (d, k);
                            assert(all.take(i + 1)[j] == (d, k));
                            assert(all.take(i + 1).contains((d, k)));
                        }
                    }
                    assert forall|a: int, b: int| 0 <= a < b < kept@.len() implies kept@[a].1 != kept@[b].1 by {
                        if b == kept0.len() {
                            let j = choose|j: int| 0 <= j < i && #[trigger] all[j] == kept@[a];
                            assert(all[j].1 != all[i as int].1);
                        }
                    }
                    assert forall|a: int| 0 <= a < kept@.len() implies exists|j: int| 0 <= j < i + 1 && all[j] == #[trigger] kept@[a] by {
                        if a == kept0.len() {
                            assert(all[i as int] == kept@[a]);
                        } else {
                            assert(kept0[a] == kept@[a]);
                        }
                    }
                    assert forall|x: (u128, KeyRecv)| #[trigger] kept@.contains(x) <==> all.take(i + 1).contains(x) && x.0 >= now by {
                        if kept@.contains(x) {
                            let j = choose|j: int| 0 <= j < kept@.len() && kept@[j] == x;
                            if j < kept0.len() {
                                assert(kept0[j] == x);
                                assert(kept0.contains(x));
                            } else {
                                assert(all.take(i + 1)[i as int] == x);
                            }
                        }
                        if all.take(i + 1).contains(x) && x.0 >= now {
                            let j = choose|j: int| 0 <= j < i + 1 && #[trigger] all.take(i + 1)[j] == x;
                            if j == i {
                                assert(kept@[kept0.len() as int] == x);
                            } else {
                                assert(all.take(i as int)[j] == x);
                                assert(kept0.contains(x));
                                let a = choose|a: int| 0 <= a < kept0.len() && kept0[a] == x;
                                assert(kept@[a] == x);
                            }
                        }
                    }
                }
            }
            i = i + 1;
        }
        assert(all.take(all.len() as int) == all);
        self.valid_thru = kept;
        assert(self.valid_thru@.to_set() =~= all.to_set().filter(|e: (u128, KeyRecv)| e.0 >= now)) by {
            assert forall|x: (u128, KeyRecv)| self.valid_thru@.contains(x) <==> all.contains(x) && x.0 >= now by {}
        }
        assert(old(self).thru_set() == all.to_set());
        assert(i == all.len());
        assert forall|k: KeyRecv| out@.contains(k) <==> exists|d: u128| d < now && #[trigger] all.to_set().contains((d, k)) by {
            if out@.contains(k) {
                assert(exists|d: u128| d < now && #[trigger] all.take(i as int).contains((d, k)));
                let d = choose|d: u128| d < now && #[trigger] all.take(i as int).contains((d, k));
                assert(all.contains((d, k)));
                assert(all.to_set().contains((d, k)));
            }
            if exists|d: u128| d < now && #[trigger] all.to_set().contains((d, k)) {
                let d = choose|d: u128| d < now && #[trigger] all.to_set().contains((d, k));
                assert(all.contains((d, k)));
            }
        }
        out
    }

    /// Closes the window of `key`; returns the instant it opened at.
    pub fn remove_by_key(&mut self, key: KeyRecv) -> (r: Option<u128>)
        requires
            old(self).wf(),
            key.0 < old(self).from_seq().len(),
        ensures
            final(self).wf(),
            r == old(self).from_seq()[key.0 as int],
            final(self).from_seq() == old(self).from_seq().update(key.0 as int, None),
            final(self).thru_set() == old(self).thru_set().filter(|e: (u128, KeyRecv)| e.1 != key),
    {
        let r = self.valid_from[key.0];
        self.valid_from.set(key.0, None);
        let mut kept: Vec<(u128, KeyRecv)> = Vec::new();
        let ghost all = self.valid_thru@;
        let mut i: usize = 0;
        while i < self.valid_thru.len()
            invariant
                self.valid_thru@ == all,
                i <= all.len(),
                forall|x: (u128, KeyRecv)| #[trigger] kept@.contains(x) <==> all.take(i as int).contains(x) && x.1 != key,
                forall|a: int, b: int| 0 <= a < b < kept@.len() ==> kept@[a].1 != kept@[b].1,
                forall|a: int| 0 <= a < kept@.len() ==> exists|j: int| 0 <= j < i && all[j] == #[trigger] kept@[a],
                forall|a: int, b: int| 0 <= a < b < all.len() ==> all[a].1 != all[b].1,
            decreases all.len() - i,
        {
            let e = self.valid_thru[i];
            let ghost kept0 = kept@;
            assert(all.take(i + 1) == all.take(i as int).push(e));
            if e.1 != key {
                kept.push(e);
                proof {
                    assert forall|a: int, b: int| 0 <= a < b < kept@.len() implies kept@[a].1 != kept@[b].1 by {
                        if b == kept0.len() {
                            let j = choose|j: int| 0 <= j < i && #[trigger] all[j] == kept@[a];
                            assert(all[j].1 != all[i as int].1);
                        }
                    }
                    assert forall|a: int| 0 <= a < kept@.len() implies exists|j: int| 0 <= j < i + 1 && all[j] == #[trigger] kept@[a] by {
                        if a == kept0.len() {
                            assert(all[i as int] == kept@[a]);
                        } else {
                            assert(kept0[a] == kept@[a]);
                        }
                    }
                    assert forall|x: (u128, KeyRecv)| #[trigger] kept@.contains(x) <==> all.take(i + 1).contains(x) && x.1 != key by {
                        if kept@.contains(x) {
                            let j = choose|j: int| 0 <= j < kept@.len() && kept@[j] == x;
                            if j < kept0.len() {
                                assert(kept0[j] == x);
                                assert(kept0.contains(x));
                            } else {
                                assert(all.take(i + 1)[i as int] == x);
                            }
                        }
                        if all.take(i + 1).contains(x) && x.1 != key {
                            let j = choose|j: int| 0 <= j < i + 1 && #[trigger] all.take(i + 1)[j] == x;
                            if j == i {
                                assert(kept@[kept0.len() as int] == x);
                            } else {
                                assert(all.take(i as int)[j] == x);
                                assert(kept0.contains(x));
                                let a = choose|a: int| 0 <= a < kept0.len() && kept0[a] == x;
                                assert(kept@[a] == x);
                            }
                        }
                    }
                }
            } else {
                proof {
                    assert forall|x: (u128, KeyRecv)| #[trigger] kept@.contains(x) <==> all.take(i + 1).contains(x) && x.1 != key by {
                        if all.take(i + 1).contains(x) && x.1 != key {
                            let j = choose|j: int| 0 <= j < i + 1 && #[trigger] all.take(i + 1)[j] == x;
                            if j < i {
                                assert(all.take(i as int)[j] == x);
                            }
                        }
                        if kept@.contains(x) {
                            assert(all.take(i as int).contains(x));
                            let j = choose|j: int| 0 <= j < i && #[trigger] all.take(i as int)[j] == x;
                            assert(all.take(i + 1)[j] == x);
                        }
                    }
                }
            }
            i = i + 1;
        }
        assert(all.take(all.len() as int) == all);
        self.valid_thru = kept;
        assert(self.valid_thru@.to_set() =~= all.to_set().filter(|e: (u128, KeyRecv)| e.1 != key)) by {
            assert forall|x: (u128, KeyRecv)| self.valid_thru@.contains(x) <==> all.contains(x) && x.1 != key by {}
        }
        r
    }

    /// The instant at which the window of `key` opened, if it is open.
    pub fn valid_from_of(&self, key: KeyRecv) -> (r: Option<u128>)
        requires
            key.0 < self.from_seq().len(),
        ensures
            r == self.from_seq()[key.0 as int],
    {
        self.valid_from[key.0]
    }
}

/// Runs the set up integration test: the state of a run.
pub struct Runner<'a> {
    executable: &'a Executable,
    ready_events: EventSet,
    key_requires_values: EventMap<EventSet>,
    scopes: Vec<Scope>,
    actors: Vec<Option<u64>>,
    requests: Vec<bool>,
    delays: Delays,
    receives: Receives,
    unreached: EventMap<RequiredToBe>,
    reached: EventMap<RequiredToBe>,
    fired: EventSet,
}

impl<'a> Runner<'a> {
    /// The executable being run.
    pub closed spec fn exe(&self) -> Executable {
        *self.executable
    }

    /// The events that are ready to happen.
    pub closed spec fn ready(&self) -> Set<EventKey> {
        self.ready_events.set()
    }

    /// The events that have happened.
    pub closed spec fn fired_set(&self) -> Set<EventKey> {
        self.fired.set()
    }

    /// For each event still waiting, the prerequisites it waits for.
    pub closed spec fn waiting(&self) -> Map<EventKey, Set<EventKey>> {
        self.key_requires_values.map().map_values(|s: EventSet| s.set())
    }

    pub closed spec fn scope_seq(&self) -> Seq<Scope> {
        self.scopes@
    }

    /// The address bound to each actor, if any.
    pub closed spec fn actor_seq(&self) -> Seq<Option<u64>> {
        self.actors@
    }

    /// Whether a request received by each receive event is kept for a response.
    pub closed spec fn request_seq(&self) -> Seq<bool> {
        self.requests@
    }

    pub closed spec fn delay_set(&self) -> Set<(u128, KeyDelay, u128)> {
        self.delays.set()
    }

    pub closed spec fn valid_from(&self) -> Seq<Option<u128>> {
        self.receives.from_seq()
    }

    pub closed spec fn valid_thru(&self) -> Set<(u128, KeyRecv)> {
        self.receives.thru_set()
    }

    /// Required events that have not happened.
    pub closed spec fn unreached_map(&self) -> Map<EventKey, RequiredToBe> {
        self.unreached.map()
    }

    /// Required events that have happened.
    pub closed spec fn reached_map(&self) -> Map<EventKey, RequiredToBe> {
        self.reached.map()
    }

    /// The bindings, the addresses, the requests kept and the required events
    /// are as in `other`, for the same executable.
    pub closed spec fn same_bindings(&self, other: Self) -> bool {
        &&& self.executable == other.executable
        &&& self.scopes == other.scopes
        &&& self.actors == other.actors
        &&& self.requests == other.requests
        &&& self.unreached == other.unreached
        &&& self.reached == other.reached
    }

    /// An event waits for `p` exactly when `p` unblocks it and has not
    /// happened.
    pub proof fn lemma_waiting(&self, d: EventKey, p: EventKey)
        requires
            self.wf(),
        ensures
            (self.waiting().contains_key(d) && self.waiting()[d].contains(p)) <==> (
            self.exe().unblocks(p).contains(d) && !self.fired_set().contains(p)),
    {
        assert(self.waiting().contains_key(d) || !self.waiting().contains_key(d));
        assert(self.exe().unblocks(p).contains(d) || !self.exe().unblocks(p).contains(d));
    }

    /// Everything but the required events reached and unreached is as in
    /// `other`.
    pub closed spec fn same_except_outcome(&self, other: Self) -> bool {
        &&& self.executable == other.executable
        &&& self.ready_events == other.ready_events
        &&& self.key_requires_values == other.key_requires_values
        &&& self.scopes == other.scopes
        &&& self.actors == other.actors
        &&& self.requests == other.requests
        &&& self.delays == other.delays
        &&& self.receives == other.receives
        &&& self.fired == other.fired
    }

    /// Changing the required events reached and unreached keeps the state
    /// consistent, as long as they remain events of the executable.
    proof fn lemma_outcome_wf(&self, other: Self)
        requires
            other.wf(),
            self.same_except_outcome(other),
            self.unreached.wf(),
            self.reached.wf(),
            forall|k: EventKey| #[trigger] self.unreached.map().contains_key(k) ==> self.exe().valid_key(k),
            forall|k: EventKey| #[trigger] self.reached.map().contains_key(k) ==> self.exe().valid_key(k),
            self.unreached.map().dom().disjoint(self.reached.map().dom()),
            self.unreached.map().union_prefer_right(self.reached.map()) == self.exe().events.required.map(),
        ensures
            self.wf(),
    {
        assert(self.ready() == other.ready());
        assert(self.waiting() == other.waiting());
    }

    /// Everything but the ready events and the bindings of the scopes is as
    /// in `other`; the scopes bind the same actors.
    pub closed spec fn same_except_ready_and_scopes(&self, other: Self) -> bool {
        &&& self.executable == other.executable
        &&& self.key_requires_values == other.key_requires_values
        &&& self.actors == other.actors
        &&& self.requests == other.requests
        &&& self.delays == other.delays
        &&& self.receives == other.receives
        &&& self.unreached == other.unreached
        &&& self.reached == other.reached
        &&& self.fired == other.fired
        &&& self.scopes@.len() == other.scopes@.len()
        &&& forall|i: int| 0 <= i < self.scopes@.len() ==> (#[trigger] self.scopes@[i]).actor_pairs() == other.scopes@[i].actor_pairs()
    }

    /// The events of `fired` can be recorded as having happened: each is an
    /// event of the executable, once, that has not happened, is not ready and
    /// waits for nothing. This holds of the events that the runner has just
    /// fired, whatever fired them: an event leaves the ready events as it
    /// fires, and only a ready event fires.
    pub open spec fn can_release(&self, fired: Seq<EventKey>) -> bool {
        &&& no_dups(fired)
        &&& forall|i: int|
            0 <= i < fired.len() ==> {
                let k = #[trigger] fired[i];
                &&& self.exe().valid_key(k)
                &&& !self.fired_set().contains(k)
                &&& !self.ready().contains(k)
                &&& !self.waiting().contains_key(k)
            }
    }

    /// Removing a ready event from `other`, with the scopes changed in their
    /// bindings only, keeps the state consistent.
    proof fn lemma_ready_binds_removed(&self, other: Self, e: EventKey)
        requires
            other.wf(),
            self.same_except_ready_and_scopes(other),
            self.ready_events.wf(),
            e is Bind,
            self.ready() == other.ready().remove(e),
            forall|i: int| 0 <= i < self.scopes@.len() ==> (#[trigger] self.scopes@[i]).wf(),
        ensures
            self.wf(),
    {
        assert(self.waiting() == other.waiting());
        assert forall|x: (u128, KeyDelay, u128)| #[trigger] self.delays.set().contains(x) implies self.ready().contains(EventKey::Delay(x.1)) by {
            assert(other.ready().contains(EventKey::Delay(x.1)));
        }
        assert forall|x: (u128, KeyRecv)| #[trigger] self.receives.thru_set().contains(x) implies self.ready().contains(EventKey::Recv(x.1)) by {
            assert(other.ready().contains(EventKey::Recv(x.1)));
        }
        assert forall|k: EventKey| #[trigger] self.ready().contains(k) implies other.ready().contains(k) by {}
    }

    /// Everything that a receive event does not change is as in `other`: the
    /// executable, what events wait for, the delays, the required events and
    /// the events that happened; the scopes bind the same actors.
    pub closed spec fn same_except_recv(&self, other: Self) -> bool {
        &&& self.executable == other.executable
        &&& self.key_requires_values == other.key_requires_values
        &&& self.delays == other.delays
        &&& self.unreached == other.unreached
        &&& self.reached == other.reached
        &&& self.fired == other.fired
        &&& self.scopes@.len() == other.scopes@.len()
        &&& forall|i: int| 0 <= i < self.scopes@.len() ==> (#[trigger] self.scopes@[i]).actor_pairs() == other.scopes@[i].actor_pairs()
    }

    /// Firing the ready receive `k` from `other`, closing its window, keeps
    /// the state consistent.
    proof fn lemma_recv_fired(&self, other: Self, k: KeyRecv)
        requires
            other.wf(),
            other.ready().contains(EventKey::Recv(k)),
            self.same_except_recv(other),
            self.ready_events.wf(),
            self.ready() == other.ready().remove(EventKey::Recv(k)),
            self.receives.wf(),
            self.valid_from() == other.valid_from().update(k.0 as int, None),
            self.valid_thru() == other.valid_thru().filter(|e: (u128, KeyRecv)| e.1 != k),
            forall|i: int| 0 <= i < self.scopes@.len() ==> (#[trigger] self.scopes@[i]).wf(),
            self.actors@.len() == other.actors@.len(),
            self.requests@.len() == other.requests@.len(),
        ensures
            self.wf(),
    {
        assert(self.waiting() == other.waiting());
        assert forall|x: (u128, KeyDelay, u128)| #[trigger] self.delays.set().contains(x) implies self.ready().contains(EventKey::Delay(x.1)) by {
            assert(other.ready().contains(EventKey::Delay(x.1)));
        }
        assert forall|x: (u128, KeyRecv)| #[trigger] self.receives.thru_set().contains(x) implies self.ready().contains(EventKey::Recv(x.1)) by {
            assert(other.valid_thru().contains(x));
            assert(other.ready().contains(EventKey::Recv(x.1)));
        }
        assert forall|j: KeyRecv| #[trigger] self.ready().contains(EventKey::Recv(j)) implies self.receives.valid_from@[j.0 as int] is Some by {
            assert(other.ready().contains(EventKey::Recv(j)));
            assert(j != k);
        }
        assert forall|x: EventKey| #[trigger] self.ready().contains(x) implies other.ready().contains(x) by {}
    }

    /// Everything but the ready events, the delays and the receive windows is
    /// as in `other`.
    pub closed spec fn same_except_timers(&self, other: Self) -> bool {
        &&& self.executable == other.executable
        &&& self.key_requires_values == other.key_requires_values
        &&& self.scopes == other.scopes
        &&& self.actors == other.actors
        &&& self.requests == other.requests
        &&& self.unreached == other.unreached
        &&& self.reached == other.reached
        &&& self.fired == other.fired
    }

    /// Removing ready events, delays and receive deadlines keeps the state
    /// consistent, as long as the delays and deadlines left belong to ready
    /// events.
    proof fn lemma_timers_changed(&self, other: Self)
        requires
            other.wf(),
            self.same_except_timers(other),
            self.ready_events.wf(),
            self.delays.wf(),
            self.receives.wf(),
            self.ready().subset_of(other.ready()),
            self.delays.set().subset_of(other.delays.set()),
            self.receives.valid_from@ == other.receives.valid_from@,
            forall|e: (u128, KeyDelay, u128)| #[trigger] self.delays.set().contains(e) ==> self.ready().contains(EventKey::Delay(e.1)),
            forall|e: (u128, KeyRecv)| #[trigger] self.receives.thru_set().contains(e) ==> self.ready().contains(EventKey::Recv(e.1)),
        ensures
            self.wf(),
    {
        assert(self.waiting() == other.waiting());
        assert forall|x: EventKey| #[trigger] self.ready().contains(x) implies other.ready().contains(x) by {}
        assert forall|j: KeyRecv| #[trigger] self.ready().contains(EventKey::Recv(j)) implies self.receives.valid_from@[j.0 as int] is Some by {
            assert(other.ready().contains(EventKey::Recv(j)));
        }
        assert forall|e: (u128, KeyDelay, u128)| #[trigger] self.delays.set().contains(e) implies e.2 <= MAX_DURATION by {
            assert(other.delays.set().contains(e));
        }
    }

    /// Everything but the requests kept for a response is as in `other`.
    pub closed spec fn same_except_requests(&self, other: Self) -> bool {
        &&& self.executable == other.executable
        &&& self.ready_events == other.ready_events
        &&& self.key_requires_values == other.key_requires_values
        &&& self.scopes == other.scopes
        &&& self.actors == other.actors
        &&& self.delays == other.delays
        &&& self.receives == other.receives
        &&& self.unreached == other.unreached
        &&& self.reached == other.reached
        &&& self.fired == other.fired
        &&& self.requests@.len() == other.requests@.len()
    }

    /// Changing which requests are kept keeps the state consistent.
    proof fn lemma_requests_changed(&self, other: Self)
        requires
            other.wf(),
            self.same_except_requests(other),
        ensures
            self.wf(),
    {
        assert(self.ready() == other.ready());
        assert(self.waiting() == other.waiting());
    }

    /// The views of a state that keeps all but the required events reached
    /// and unreached are those of `other`.
    proof fn lemma_same_except_outcome(&self, other: Self)
        requires
            self.same_except_outcome(other),
        ensures
            self.exe() == other.exe(),
            self.ready() == other.ready(),
            self.waiting() == other.waiting(),
            self.fired_set() == other.fired_set(),
            self.delay_set() == other.delay_set(),
            self.valid_from() == other.valid_from(),
            self.valid_thru() == other.valid_thru(),
            self.scope_seq() == other.scope_seq(),
            self.actor_seq() == other.actor_seq(),
            self.request_seq() == other.request_seq(),
    {
    }

    /// The views of a state with the same bindings as `other`.
    proof fn lemma_same_bindings(&self, other: Self)
        requires
            self.same_bindings(other),
        ensures
            self.exe() == other.exe(),
            self.scope_seq() == other.scope_seq(),
            self.actor_seq() == other.actor_seq(),
            self.request_seq() == other.request_seq(),
            self.unreached_map() == other.unreached_map(),
            self.reached_map() == other.reached_map(),
    {
    }

    /// Everything but the ready events is as in `other`.
    pub closed spec fn same_except_ready(&self, other: Self) -> bool {
        &&& self.executable == other.executable
        &&& self.key_requires_values == other.key_requires_values
        &&& self.scopes == other.scopes
        &&& self.actors == other.actors
        &&& self.requests == other.requests
        &&& self.delays == other.delays
        &&& self.receives == other.receives
        &&& self.unreached == other.unreached
        &&& self.reached == other.reached
        &&& self.fired == other.fired
    }

    /// The state is consistent with the executable: every key refers to an
    /// item of it, an event waits exactly for its prerequisites that have not
    /// happened, and a ready event has not happened and waits for nothing.
    pub closed spec fn wf(&self) -> bool {
        let exe = self.executable;
        &&& exe.wf()
        &&& self.ready_events.wf()
        &&& self.fired.wf()
        &&& self.key_requires_values.wf()
        &&& self.unreached.wf()
        &&& self.reached.wf()
        &&& self.delays.wf()
        &&& self.receives.wf()
        &&& self.scopes@.len() == exe.scopes@.len()
        &&& forall|i: int| 0 <= i < self.scopes@.len() ==> #[trigger] self.scopes@[i].wf()
        &&& self.actors@.len() == exe.actors@.len()
        &&& self.requests@.len() == exe.events.recv@.len()
        &&& self.receives.valid_from@.len() == exe.events.recv@.len()
        &&& forall|k: EventKey| #[trigger] self.ready().contains(k) ==> exe.valid_key(k)
        &&& forall|k: EventKey| #[trigger]
            self.key_requires_values.map().contains_key(k) ==> self.key_requires_values.map()[k].wf()
        &&& forall|d: EventKey, p: EventKey|
            (#[trigger] self.waiting().contains_key(d) && self.waiting()[d].contains(p)) <==> (
            #[trigger] exe.unblocks(p).contains(d) && !self.fired.set().contains(p))
        &&& forall|d: EventKey| #[trigger]
            self.waiting().contains_key(d) ==> !self.waiting()[d].is_empty()
        &&& forall|k: EventKey| #[trigger]
            self.ready().contains(k) ==> !self.fired.set().contains(k) && !self.waiting().contains_key(
                k,
            )
        &&& forall|e: (u128, KeyDelay, u128)| #[trigger]
            self.delays.set().contains(e) ==> self.ready().contains(EventKey::Delay(e.1))
        &&& forall|e: (u128, KeyRecv)| #[trigger]
            self.receives.thru_set().contains(e) ==> self.ready().contains(EventKey::Recv(e.1))
        &&& forall|d: EventKey| #[trigger] self.waiting().contains_key(d) ==> !self.fired.set().contains(d) && exe.valid_key(d)
        &&& forall|k: KeyRecv| #[trigger] self.ready().contains(EventKey::Recv(k)) ==> self.receives.valid_from@[k.0 as int] is Some
        &&& forall|e: (u128, KeyDelay, u128)| #[trigger] self.delays.set().contains(e) ==> e.2 <= MAX_DURATION
        &&& forall|k: EventKey| #[trigger] self.unreached.map().contains_key(k) ==> exe.valid_key(k)
        &&& forall|k: EventKey| #[trigger] self.reached.map().contains_key(k) ==> exe.valid_key(k)
        &&& self.unreached.map().dom().disjoint(self.reached.map().dom())
        &&& self.unreached.map().union_prefer_right(self.reached.map()) == exe.events.required.map()
    }

    /// What a consistent state holds: the executable is well-formed; ready
    /// events are events of it that have not happened and wait for nothing;
    /// an event waits exactly for its prerequisites that have not happened;
    /// every ready receive has opened its window, every pending delay and
    /// receive deadline belongs to a ready event; the required events are
    /// split between reached and unreached.
    pub proof fn lemma_wf_facts(&self)
        requires
            self.wf(),
        ensures
            self.exe().wf(),
            self.scope_seq().len() == self.exe().scopes@.len(),
            self.actor_seq().len() == self.exe().actors@.len(),
            self.request_seq().len() == self.exe().events.recv@.len(),
            self.valid_from().len() == self.exe().events.recv@.len(),
            forall|k: EventKey| #[trigger] self.ready().contains(k) ==> {
                &&& self.exe().valid_key(k)
                &&& !self.fired_set().contains(k)
                &&& !self.waiting().contains_key(k)
            },
            forall|d: EventKey, p: EventKey|
                (#[trigger] self.waiting().contains_key(d) && self.waiting()[d].contains(p)) <==> (
                #[trigger] self.exe().unblocks(p).contains(d) && !self.fired_set().contains(p)),
            forall|k: KeyRecv| #[trigger] self.ready().contains(EventKey::Recv(k)) ==> self.valid_from()[k.0 as int] is Some,
            forall|e: (u128, KeyDelay, u128)| #[trigger] self.delay_set().contains(e) ==> self.ready().contains(EventKey::Delay(e.1)),
            forall|e: (u128, KeyRecv)| #[trigger] self.valid_thru().contains(e) ==> self.ready().contains(EventKey::Recv(e.1)),
            self.unreached_map().dom().disjoint(self.reached_map().dom()),
            self.unreached_map().union_prefer_right(self.reached_map()) == self.exe().events.required.map(),
    {
    }

    /// What `same_bindings` keeps.
    pub proof fn lemma_same_bindings_views(&self, other: Self)
        requires
            self.same_bindings(other),
        ensures
            self.exe() == other.exe(),
            self.scope_seq() == other.scope_seq(),
            self.actor_seq() == other.actor_seq(),
            self.request_seq() == other.request_seq(),
            self.unreached_map() == other.unreached_map(),
            self.reached_map() == other.reached_map(),
    {
    }

    /// What `same_except_outcome` keeps.
    pub proof fn lemma_same_except_outcome_views(&self, other: Self)
        requires
            self.same_except_outcome(other),
        ensures
            self.exe() == other.exe(),
            self.ready() == other.ready(),
            self.waiting() == other.waiting(),
            self.fired_set() == other.fired_set(),
            self.scope_seq() == other.scope_seq(),
            self.actor_seq() == other.actor_seq(),
            self.request_seq() == other.request_seq(),
            self.delay_set() == other.delay_set(),
            self.valid_from() == other.valid_from(),
            self.valid_thru() == other.valid_thru(),
    {
    }

    /// What `same_except_ready_and_scopes` keeps.
    pub proof fn lemma_same_except_ready_and_scopes_views(&self, other: Self)
        requires
            self.same_except_ready_and_scopes(other),
        ensures
            self.exe() == other.exe(),
            self.waiting() == other.waiting(),
            self.fired_set() == other.fired_set(),
            self.actor_seq() == other.actor_seq(),
            self.request_seq() == other.request_seq(),
            self.delay_set() == other.delay_set(),
            self.valid_from() == other.valid_from(),
            self.valid_thru() == other.valid_thru(),
            self.unreached_map() == other.unreached_map(),
            self.reached_map() == other.reached_map(),
            self.scope_seq().len() == other.scope_seq().len(),
    {
    }

    /// What `same_except_recv` keeps.
    pub proof fn lemma_same_except_recv_views(&self, other: Self)
        requires
            self.same_except_recv(other),
        ensures
            self.exe() == other.exe(),
            self.waiting() == other.waiting(),
            self.fired_set() == other.fired_set(),
            self.delay_set() == other.delay_set(),
            self.unreached_map() == other.unreached_map(),
            self.reached_map() == other.reached_map(),
            self.scope_seq().len() == other.scope_seq().len(),
    {
    }

    /// What `same_except_timers` keeps.
    pub proof fn lemma_same_except_timers_views(&self, other: Self)
        requires
            self.same_except_timers(other),
        ensures
            self.exe() == other.exe(),
            self.waiting() == other.waiting(),
            self.fired_set() == other.fired_set(),
            self.scope_seq() == other.scope_seq(),
            self.actor_seq() == other.actor_seq(),
            self.request_seq() == other.request_seq(),
            self.unreached_map() == other.unreached_map(),
            self.reached_map() == other.reached_map(),
    {
    }

    /// What `same_except_requests` keeps.
    pub proof fn lemma_same_except_requests_views(&self, other: Self)
        requires
            self.same_except_requests(other),
        ensures
            self.exe() == other.exe(),
            self.ready() == other.ready(),
            self.waiting() == other.waiting(),
            self.fired_set() == other.fired_set(),
            self.scope_seq() == other.scope_seq(),
            self.actor_seq() == other.actor_seq(),
            self.delay_set() == other.delay_set(),
            self.valid_from() == other.valid_from(),
            self.valid_thru() == other.valid_thru(),
            self.unreached_map() == other.unreached_map(),
            self.reached_map() == other.reached_map(),
            self.request_seq().len() == other.request_seq().len(),
    {
    }

    /// What `same_except_ready` keeps.
    pub proof fn lemma_same_except_ready_views(&self, other: Self)
        requires
            self.same_except_ready(other),
        ensures
            self.exe() == other.exe(),
            self.waiting() == other.waiting(),
            self.fired_set() == other.fired_set(),
            self.scope_seq() == other.scope_seq(),
            self.actor_seq() == other.actor_seq(),
            self.request_seq() == other.request_seq(),
            self.delay_set() == other.delay_set(),
            self.valid_from() == other.valid_from(),
            self.valid_thru() == other.valid_thru(),
            self.unreached_map() == other.unreached_map(),
            self.reached_map() == other.reached_map(),
    {
    }

    /// The required events that have not happened, in the order in which the
    /// report lists them.
    pub closed spec fn unreached_keys(&self) -> Seq<EventKey> {
        self.unreached.key_seq()
    }

    /// The required events that have happened, in the order in which the
    /// report lists them.
    pub closed spec fn reached_keys(&self) -> Seq<EventKey> {
        self.reached.key_seq()
    }
}


/// The events that become ready once the events of `fired` have happened:
/// those that were waiting for events of `fired` only.
pub open spec fn unblocked_by(waiting: Map<EventKey, Set<EventKey>>, fired: Set<EventKey>) -> Set<
    EventKey,
> {
    Set::new(|d: EventKey| waiting.contains_key(d) && waiting[d].subset_of(fired))
}

/// The entries of the delays among `keys` that become ready at `now`.
pub open spec fn delay_entries(exe: &Executable, now: u128, keys: Set<EventKey>) -> Set<
    (u128, KeyDelay, u128),
> {
    Set::new(
        |e: (u128, KeyDelay, u128)|
            keys.contains(EventKey::Delay(e.1)) && e == delay_entry(exe, now, e.1),
    )
}

/// The deadlines of the receives among `keys` that become ready at `now`.
pub open spec fn recv_deadlines(exe: &Executable, now: u128, keys: Set<EventKey>) -> Set<
    (u128, KeyRecv),
> {
    Set::new(
        |e: (u128, KeyRecv)|
            keys.contains(EventKey::Recv(e.1)) && recv_deadline(exe, now, e.1) == Some(e.0),
    )
}

/// `from`, where the receives among `keys` open their windows at `now`.
pub open spec fn recv_starts(
    exe: &Executable,
    now: u128,
    keys: Set<EventKey>,
    from: Seq<Option<u128>>,
) -> Seq<Option<u128>> {
    Seq::new(
        from.len(),
        |i: int|
            if keys.contains(EventKey::Recv(KeyRecv(i as usize))) {
                Some(recv_start(exe, now, KeyRecv(i as usize)))
            } else {
                from[i]
            },
    )
}

/// The entry of a delay that becomes ready at `now`.
pub open spec fn delay_entry(exe: &Executable, now: u128, k: KeyDelay) -> (u128, KeyDelay, u128) {
    ((now + exe.events.delay@[k.0 as int].delay_for) as u128, k, exe.events.delay@[k.0 as int].delay_step)
}

/// The deadline of a receive that becomes ready at `now`, if it has one.
pub open spec fn recv_deadline(exe: &Executable, now: u128, k: KeyRecv) -> Option<u128> {
    match exe.events.recv@[k.0 as int].before_duration {
        Some(b) => Some((now + b) as u128),
        None => None,
    }
}

/// The instant from which a receive that becomes ready at `now` accepts.
pub open spec fn recv_start(exe: &Executable, now: u128, k: KeyRecv) -> u128 {
    (now + exe.events.recv@[k.0 as int].after_duration) as u128
}

impl<'a> Runner<'a> {
    /// Sets up the run of `executable`, starting at `now`, with
    /// `root_scope_values` bound in the root scope: the entry points are ready;
    /// every other event waits for its prerequisites.
    #[verifier::loop_isolation(false)]
    #[verifier::spinoff_prover]
    #[verifier::rlimit(60)]
    pub fn new(executable: &'a Executable, now: u128, root_scope_values: Vec<(String, JsonValue)>) -> (r: Runner<'a>)
        requires
            executable.wf(),
            now <= MAX_INSTANT,
        ensures
            r.wf(),
            r.exe() == *executable,
            r.fired_set() == Set::<EventKey>::empty(),
            r.ready() == executable.events.entry_points.set(),
            r.scope_seq().len() == executable.scopes@.len(),
            forall|i: int| 0 <= i < r.scope_seq().len() ==> #[trigger] r.scope_seq()[i].env() == if i == executable.root_scope_key.0 {
                assoc_env(root_scope_values@)
            } else {
                Env::empty()
            },
            forall|i: int| 0 <= i < r.scope_seq().len() ==> #[trigger] r.scope_seq()[i].actor_pairs() == Set::<(Seq<char>, u64)>::empty(),
            r.actor_seq() == Seq::new(executable.actors@.len(), |i: int| None::<u64>),
            r.request_seq() == Seq::new(executable.events.recv@.len(), |i: int| false),
            r.delay_set() == Set::new(|e: (u128, KeyDelay, u128)|
                executable.events.entry_points.set().contains(EventKey::Delay(e.1)) && e == delay_entry(executable, now, e.1)),
            forall|i: int| 0 <= i < executable.events.recv@.len() ==> #[trigger] r.valid_from()[i] == if executable.events.entry_points.set().contains(EventKey::Recv(KeyRecv(i as usize))) {
                Some(recv_start(executable, now, KeyRecv(i as usize)))
            } else {
                None
            },
            r.valid_from().len() == executable.events.recv@.len(),
            r.valid_thru() == Set::new(|e: (u128, KeyRecv)|
                executable.events.entry_points.set().contains(EventKey::Recv(e.1)) && recv_deadline(executable, now, e.1) == Some(e.0)),
            r.unreached_map() == executable.events.required.map(),
            r.reached_map() == Map::<EventKey, RequiredToBe>::empty(),
    {
        let exe = executable;
        let entry = &exe.events.entry_points;
        proof {
            entry.lemma_seq();
        }
        let ghost eseq = entry.seq();
        // the ready events, and the windows of those among them that wait
        let mut ready_events = EventSet::new();
        let mut delays = Delays::new();
        let mut receives = Receives::new(exe.events.recv.len());
        let mut i: usize = 0;
        while i < entry.len()
            invariant
                exe.wf(),
                now <= MAX_INSTANT,
                eseq == entry.seq(),
                no_dups(eseq),
                eseq.to_set() == entry.set(),
                i <= eseq.len(),
                ready_events.wf(),
                ready_events.set() == eseq.take(i as int).to_set(),
                delays.wf(),
                delays.set() == Set::new(|e: (u128, KeyDelay, u128)|
                    eseq.take(i as int).contains(EventKey::Delay(e.1)) && e == delay_entry(exe, now, e.1)),
                receives.wf(),
                receives.from_seq().len() == exe.events.recv@.len(),
                forall|j: int| 0 <= j < exe.events.recv@.len() ==> #[trigger] receives.from_seq()[j] == if eseq.take(i as int).contains(EventKey::Recv(KeyRecv(j as usize))) {
                    Some(recv_start(exe, now, KeyRecv(j as usize)))
                } else {
                    None
                },
                receives.thru_set() == Set::new(|e: (u128, KeyRecv)|
                    eseq.take(i as int).contains(EventKey::Recv(e.1)) && recv_deadline(exe, now, e.1) == Some(e.0)),
            decreases eseq.len() - i,
        {
            let k = entry.at(i);
            let ghost pre = eseq.take(i as int);
            assert(eseq.take(i + 1) == pre.push(k));
            assert(!pre.contains(k)) by {
                if pre.contains(k) {
                    let j = choose|j: int| 0 <= j < pre.len() && #[trigger] pre[j] == k;
                    assert(eseq[j] == eseq[i as int]);
                }
            }
            assert(entry.set().contains(k));
            assert(exe.valid_key(k));
            ready_events.insert(k);
            assert(ready_events.set() =~= pre.push(k).to_set()) by {
                assert forall|x: EventKey| pre.push(k).contains(x) <==> pre.contains(x) || x == k by {
                    if pre.contains(x) {
                        let j = choose|j: int| 0 <= j < pre.len() && #[trigger] pre[j] == x;
                        assert(pre.push(k)[j] == x);
                    }
                    if x == k {
                        assert(pre.push(k)[pre.len() as int] == x);
                    }
                }
            }
            match k {
                EventKey::Delay(dk) => {
                    let ev = &exe.events.delay[dk.0];
                    proof {
                        if delays.has_key(dk) {
                            let (d, st) = choose|d: u128, st: u128| delays.set().contains((d, dk, st));
                            assert(pre.contains(EventKey::Delay(dk)));
                        }
                    }
                    delays.insert(now, dk, ev.delay_for, ev.delay_step);
                    assert(delays.set() =~= Set::new(|e: (u128, KeyDelay, u128)|
                        pre.push(k).contains(EventKey::Delay(e.1)) && e == delay_entry(exe, now, e.1)));
                    assert forall|j: int| 0 <= j < exe.events.recv@.len() implies #[trigger] receives.from_seq()[j] == if pre.push(k).contains(EventKey::Recv(KeyRecv(j as usize))) {
                        Some(recv_start(exe, now, KeyRecv(j as usize)))
                    } else {
                        None
                    } by {
                        assert(pre.push(k).contains(EventKey::Recv(KeyRecv(j as usize))) == pre.contains(EventKey::Recv(KeyRecv(j as usize))));
                    }
                    assert(receives.thru_set() =~= Set::new(|e: (u128, KeyRecv)|
                        pre.push(k).contains(EventKey::Recv(e.1)) && recv_deadline(exe, now, e.1) == Some(e.0)));
                },
                EventKey::Recv(rk) => {
                    let ev = &exe.events.recv[rk.0];
                    proof {
                        if receives.has_deadline(rk) {
                            let d = choose|d: u128| receives.thru_set().contains((d, rk));
                            assert(pre.contains(EventKey::Recv(rk)));
                        }
                    }
                    receives.insert(now, rk, ev.after_duration, ev.before_duration);
                    assert(delays.set() =~= Set::new(|e: (u128, KeyDelay, u128)|
                        pre.push(k).contains(EventKey::Delay(e.1)) && e == delay_entry(exe, now, e.1)));
                    assert forall|j: int| 0 <= j < exe.events.recv@.len() implies #[trigger] receives.from_seq()[j] == if pre.push(k).contains(EventKey::Recv(KeyRecv(j as usize))) {
                        Some(recv_start(exe, now, KeyRecv(j as usize)))
                    } else {
                        None
                    } by {
                        if j != rk.0 {
                            assert(pre.push(k).contains(EventKey::Recv(KeyRecv(j as usize))) == pre.contains(EventKey::Recv(KeyRecv(j as usize))));
                        } else {
                            assert(pre.push(k)[pre.len() as int] == EventKey::Recv(KeyRecv(j as usize)));
                        }
                    }
                    assert(receives.thru_set() =~= Set::new(|e: (u128, KeyRecv)|
                        pre.push(k).contains(EventKey::Recv(e.1)) && recv_deadline(exe, now, e.1) == Some(e.0))) by {
                        assert(pre.push(k)[pre.len() as int] == EventKey::Recv(rk));
                    }
                },
                _ => {
                    assert(delays.set() =~= Set::new(|e: (u128, KeyDelay, u128)|
                        pre.push(k).contains(EventKey::Delay(e.1)) && e == delay_entry(exe, now, e.1)));
                    assert forall|j: int| 0 <= j < exe.events.recv@.len() implies #[trigger] receives.from_seq()[j] == if pre.push(k).contains(EventKey::Recv(KeyRecv(j as usize))) {
                        Some(recv_start(exe, now, KeyRecv(j as usize)))
                    } else {
                        None
                    } by {
                        assert(pre.push(k).contains(EventKey::Recv(KeyRecv(j as usize))) == pre.contains(EventKey::Recv(KeyRecv(j as usize))));
                    }
                    assert(receives.thru_set() =~= Set::new(|e: (u128, KeyRecv)|
                        pre.push(k).contains(EventKey::Recv(e.1)) && recv_deadline(exe, now, e.1) == Some(e.0)));
                },
            }
            i = i + 1;
        }
        assert(eseq.take(eseq.len() as int) == eseq);

        // what each event waits for: the inverse of what each event unblocks
        let unblocks = &exe.events.key_unblocks_values;
        proof {
            unblocks.lemma_keys();
        }
        let ghost pkeys = unblocks.key_seq();
        let mut waiting: EventMap<EventSet> = EventMap::new();
        let mut pi: usize = 0;
        while pi < unblocks.len()
            invariant
                exe.wf(),
                pkeys == unblocks.key_seq(),
                no_dups(pkeys),
                pkeys.to_set() == unblocks.map().dom(),
                pi <= pkeys.len(),
                waiting.wf(),
                forall|k: EventKey| #[trigger] waiting.map().contains_key(k) ==> waiting.map()[k].wf(),
                forall|d: EventKey| #[trigger] waiting.map().contains_key(d) ==> !waiting.map()[d].set().is_empty(),
                forall|d: EventKey, p: EventKey|
                    (#[trigger] waiting.map().contains_key(d) && waiting.map()[d].set().contains(p)) <==> (
                    #[trigger] exe.unblocks(p).contains(d) && pkeys.take(pi as int).contains(p)),
            decreases pkeys.len() - pi,
        {
            let (p, deps) = unblocks.entry_at(pi);
            proof {
                deps.lemma_seq();
            }
            let ghost dseq = deps.seq();
            let ghost pre = pkeys.take(pi as int);
            assert(pkeys.take(pi + 1) == pre.push(p));
            assert(exe.unblocks(p) == deps.set());
            let mut di: usize = 0;
            while di < deps.len()
                invariant
                    exe.wf(),
                    dseq == deps.seq(),
                    dseq.to_set() == deps.set(),
                    exe.unblocks(p) == deps.set(),
                    p == pkeys[pi as int],
                    pre == pkeys.take(pi as int),
                    no_dups(pkeys),
                    pi < pkeys.len(),
                    di <= dseq.len(),
                    waiting.wf(),
                    forall|k: EventKey| #[trigger] waiting.map().contains_key(k) ==> waiting.map()[k].wf(),
                    forall|d: EventKey| #[trigger] waiting.map().contains_key(d) ==> !waiting.map()[d].set().is_empty(),
                    forall|d: EventKey, q: EventKey|
                        (#[trigger] waiting.map().contains_key(d) && waiting.map()[d].set().contains(q)) <==> (
                        #[trigger] exe.unblocks(q).contains(d) && (pre.contains(q) || (q == p && dseq.take(di as int).contains(d)))),
                decreases dseq.len() - di,
            {
                let d = deps.at(di);
                let ghost w0 = waiting.map();
                assert(dseq.take(di + 1) == dseq.take(di as int).push(d));
                insert_into(&mut waiting, d, p);
                let ghost di0 = di as int;
                di = di + 1;
                proof {
                    assert(!pre.contains(p)) by {
                        if pre.contains(p) {
                            let j = choose|j: int| 0 <= j < pre.len() && #[trigger] pre[j] == p;
                            assert(pkeys[j] == pkeys[pi as int]);
                        }
                    }
                    assert(dseq.to_set().contains(d));
                    assert(dseq.take(di as int)[di0] == d);
                    assert(dseq.take(di as int).contains(d));
                    assert(dseq.contains(d)) by {
                        assert(dseq[di0] == d);
                    }
                    assert(exe.unblocks(p).contains(d));
                    assert forall|x: EventKey, q: EventKey|
                        (#[trigger] waiting.map().contains_key(x) && waiting.map()[x].set().contains(q)) <==> (
                        #[trigger] exe.unblocks(q).contains(x) && (pre.contains(q) || (q == p && dseq.take(di as int).contains(x)))) by {
                        let w1 = waiting.map();
                        let old_lhs = w0.contains_key(x) && w0[x].set().contains(q);
                        let old_rhs = exe.unblocks(q).contains(x) && (pre.contains(q) || (q == p && dseq.take(di0).contains(x)));
                        assert(old_lhs <==> old_rhs);
                        if x == d {
                            if w0.contains_key(d) {
                                assert(w1[d].set() == w0[d].set().insert(p));
                            } else {
                                assert(w1[d].set() == Set::<EventKey>::empty().insert(p));
                            }
                            assert(w1.contains_key(d));
                        } else {
                            assert(w1.contains_key(x) == w0.contains_key(x));
                            if w0.contains_key(x) {
                                assert(w1[x] == w0[x]);
                            }
                            assert(dseq.take(di as int).contains(x) == dseq.take(di0).contains(x)) by {
                                if dseq.take(di as int).contains(x) {
                                    let j = choose|j: int| 0 <= j < di && #[trigger] dseq.take(di as int)[j] == x;
                                    assert(dseq.take(di0)[j] == x);
                                }
                                if dseq.take(di0).contains(x) {
                                    let j = choose|j: int| 0 <= j < di0 && #[trigger] dseq.take(di0)[j] == x;
                                    assert(dseq.take(di as int)[j] == x);
                                }
                            }
                        }
                    }
                }
            }
            let ghost pi0 = pi as int;
            pi = pi + 1;
            proof {
                assert(dseq.take(dseq.len() as int) == dseq);
                assert forall|d: EventKey, q: EventKey|
                    (#[trigger] waiting.map().contains_key(d) && waiting.map()[d].set().contains(q)) <==> (
                    #[trigger] exe.unblocks(q).contains(d) && pkeys.take(pi as int).contains(q)) by {
                    let inner = exe.unblocks(q).contains(d) && (pre.contains(q) || (q == p && dseq.take(di as int).contains(d)));
                    assert((waiting.map().contains_key(d) && waiting.map()[d].set().contains(q)) <==> inner);
                    assert(pkeys.take(pi as int).contains(q) <==> pre.contains(q) || q == p) by {
                        if pkeys.take(pi as int).contains(q) && q != p {
                            let j = choose|j: int| 0 <= j < pi0 && #[trigger] pkeys.take(pi as int)[j] == q;
                            assert(pre[j] == q);
                        }
                        if pre.contains(q) {
                            let j = choose|j: int| 0 <= j < pi0 && #[trigger] pre[j] == q;
                            assert(pkeys.take(pi as int)[j] == q);
                        }
                        if q == p {
                            assert(pkeys.take(pi as int)[pi0] == p);
                        }
                    }
                    if q == p && exe.unblocks(q).contains(d) {
                        assert(deps.set().contains(d));
                        assert(dseq.to_set().contains(d));
                        assert(dseq.contains(d));
                    }
                }
            }
        }
        proof {
            assert(pkeys.take(pkeys.len() as int) == pkeys);
            assert forall|d: EventKey, q: EventKey| #[trigger] exe.unblocks(q).contains(d) implies pkeys.contains(q) by {
                assert(unblocks.map().contains_key(q));
                assert(pkeys.to_set().contains(q));
            }
        }

        // one scope per scope of the executable
        let mut scopes: Vec<Scope> = Vec::new();
        let mut root_values = Some(root_scope_values);
        let ghost values = root_scope_values@;
        let mut si: usize = 0;
        while si < exe.scopes.len()
            invariant
                exe.wf(),
                si <= exe.scopes@.len(),
                scopes@.len() == si,
                root_values is None <==> si > exe.root_scope_key.0,
                root_values matches Some(v) ==> v@ == values,
                forall|j: int| 0 <= j < si ==> #[trigger] scopes@[j].wf(),
                forall|j: int| 0 <= j < si ==> #[trigger] scopes@[j].env() == if j == exe.root_scope_key.0 {
                    assoc_env(values)
                } else {
                    Env::empty()
                },
                forall|j: int| 0 <= j < si ==> #[trigger] scopes@[j].actor_pairs() == Set::<(Seq<char>, u64)>::empty(),
            decreases exe.scopes@.len() - si,
        {
            if si == exe.root_scope_key.0 {
                let v = root_values.take().unwrap();
                scopes.push(Scope::from_values(v));
            } else {
                scopes.push(Scope::new());
            }
            si = si + 1;
        }

        let mut actors: Vec<Option<u64>> = Vec::new();
        while actors.len() < exe.actors.len()
            invariant
                actors@.len() <= exe.actors@.len(),
                forall|j: int| 0 <= j < actors@.len() ==> actors@[j] is None,
            decreases exe.actors@.len() - actors@.len(),
        {
            actors.push(None);
        }
        assert(actors@ =~= Seq::new(exe.actors@.len(), |i: int| None::<u64>));
        let mut requests: Vec<bool> = Vec::new();
        while requests.len() < exe.events.recv.len()
            invariant
                requests@.len() <= exe.events.recv@.len(),
                forall|j: int| 0 <= j < requests@.len() ==> !requests@[j],
            decreases exe.events.recv@.len() - requests@.len(),
        {
            requests.push(false);
        }
        assert(requests@ =~= Seq::new(exe.events.recv@.len(), |i: int| false));

        // the required events, none reached yet
        let required = &exe.events.required;
        proof {
            required.lemma_keys();
        }
        let ghost rkeys = required.key_seq();
        let mut unreached: EventMap<RequiredToBe> = EventMap::new();
        let mut ui: usize = 0;
        while ui < required.len()
            invariant
                exe.wf(),
                rkeys == required.key_seq(),
                rkeys.to_set() == required.map().dom(),
                ui <= rkeys.len(),
                unreached.wf(),
                unreached.map() == required.map().restrict(rkeys.take(ui as int).to_set()),
            decreases rkeys.len() - ui,
        {
            let (k, v) = required.entry_at(ui);
            unreached.insert(k, *v);
            proof {
                assert(rkeys.take(ui + 1) == rkeys.take(ui as int).push(k));
                assert(rkeys.take(ui + 1).to_set() =~= rkeys.take(ui as int).to_set().insert(k)) by {
                    assert forall|x: EventKey| rkeys.take(ui as int).push(k).contains(x) <==> rkeys.take(ui as int).contains(x) || x == k by {
                        if rkeys.take(ui as int).contains(x) {
                            let j = choose|j: int| 0 <= j < ui && #[trigger] rkeys.take(ui as int)[j] == x;
                            assert(rkeys.take(ui as int).push(k)[j] == x);
                        }
                        if x == k {
                            assert(rkeys.take(ui as int).push(k)[ui as int] == x);
                        }
                    }
                }
                assert(unreached.map() =~= required.map().restrict(rkeys.take(ui + 1).to_set()));
            }
            ui = ui + 1;
        }
        proof {
            assert(rkeys.take(rkeys.len() as int) == rkeys);
            assert(unreached.map() =~= required.map());
        }

        let r = Runner {
            executable,
            ready_events,
            key_requires_values: waiting,
            scopes,
            actors,
            requests,
            delays,
            receives,
            unreached,
            reached: EventMap::new(),
            fired: EventSet::new(),
        };
        proof {
            assert(r.waiting().dom() == waiting.map().dom());
            assert forall|d: EventKey, p: EventKey|
                (#[trigger] r.waiting().contains_key(d) && r.waiting()[d].contains(p)) <==> (
                #[trigger] exe.unblocks(p).contains(d) && !r.fired.set().contains(p)) by {
                if exe.unblocks(p).contains(d) {
                    assert(pkeys.contains(p));
                }
            }
            assert forall|k: EventKey| #[trigger] r.ready().contains(k) implies !r.fired.set().contains(k) && !r.waiting().contains_key(k) by {
                assert(entry.set().contains(k));
                if r.waiting().contains_key(k) {
                    let p = choose|p: EventKey| r.waiting()[k].contains(p);
                    assert(exe.unblocks(p).contains(k));
                    assert(exe.prerequisites(k).contains(p));
                }
            }
            assert forall|e: (u128, KeyDelay, u128)| #[trigger] r.delays.set().contains(e) implies r.ready().contains(EventKey::Delay(e.1)) by {
                assert(eseq.contains(EventKey::Delay(e.1)));
            }
            assert forall|e: (u128, KeyRecv)| #[trigger] r.receives.thru_set().contains(e) implies r.ready().contains(EventKey::Recv(e.1)) by {
                assert(eseq.contains(EventKey::Recv(e.1)));
                assert(entry.set().contains(EventKey::Recv(e.1)));
            }
            assert forall|d: EventKey| #[trigger] r.waiting().contains_key(d) implies !r.fired.set().contains(d) && exe.valid_key(d) by {
                let p = choose|p: EventKey| r.waiting()[d].contains(p);
                assert(exe.unblocks(p).contains(d));
                assert(exe.events.key_unblocks_values.map().contains_key(p));
            }
            assert(r.reached.map() =~= Map::<EventKey, RequiredToBe>::empty());
            assert(r.unreached.map().dom().disjoint(r.reached.map().dom()));
            assert(r.unreached.map().union_prefer_right(r.reached.map()) =~= exe.events.required.map());
            assert(r.delay_set() =~= Set::new(|e: (u128, KeyDelay, u128)|
                executable.events.entry_points.set().contains(EventKey::Delay(e.1)) && e == delay_entry(executable, now, e.1)));
            assert(r.valid_thru() =~= Set::new(|e: (u128, KeyRecv)|
                executable.events.entry_points.set().contains(EventKey::Recv(e.1)) && recv_deadline(executable, now, e.1) == Some(e.0)));
        }
        r
    }
}


/// Whether `ready` holds a bind event.
pub open spec fn has_bind(ready: Set<EventKey>) -> bool {
    exists|b: KeyBind| #[trigger] ready.contains(EventKey::Bind(b))
}

/// Whether `ready` holds a receive or a delay event.
pub open spec fn has_recv_or_delay(ready: Set<EventKey>) -> bool {
    (exists|b: KeyRecv| #[trigger] ready.contains(EventKey::Recv(b))) || (exists|b: KeyDelay|
        #[trigger] ready.contains(EventKey::Delay(b)))
}

/// `k` is the first send event of `ready`.
pub open spec fn first_send(ready: Set<EventKey>, k: KeySend) -> bool {
    ready.contains(EventKey::Send(k)) && forall|j: KeySend| #[trigger]
        ready.contains(EventKey::Send(j)) ==> k.0 <= j.0
}

/// `k` is the first respond event of `ready`.
pub open spec fn first_respond(ready: Set<EventKey>, k: KeyRespond) -> bool {
    ready.contains(EventKey::Respond(k)) && forall|j: KeyRespond| #[trigger]
        ready.contains(EventKey::Respond(j)) ==> k.0 <= j.0
}

/// The class of events to process next, in a predictable order: binds first,
/// then sends and responds one by one (the first of them first), then
/// receives and delays.
pub open spec fn next_ready(ready: Set<EventKey>, r: Option<ReadyEventKey>) -> bool {
    if has_bind(ready) {
        r == Some(ReadyEventKey::Bind)
    } else if exists|k: KeySend| #[trigger] ready.contains(EventKey::Send(k)) {
        r matches Some(ReadyEventKey::Send(k)) && first_send(ready, k)
    } else if exists|k: KeyRespond| #[trigger] ready.contains(EventKey::Respond(k)) {
        r matches Some(ReadyEventKey::Respond(k)) && first_respond(ready, k)
    } else if has_recv_or_delay(ready) {
        r == Some(ReadyEventKey::RecvOrDelay)
    } else {
        r is None
    }
}

/// The rank of a class in the order of processing: binds, sends, responds,
/// then receives and delays.
pub open spec fn class_rank(c: ReadyEventKey) -> int {
    match c {
        ReadyEventKey::Bind => 0,
        ReadyEventKey::Send(_) => 1,
        ReadyEventKey::Respond(_) => 2,
        ReadyEventKey::RecvOrDelay => 3,
    }
}

/// `a` is processed before `b`: by rank, then sends and responds by key.
pub open spec fn class_before(a: ReadyEventKey, b: ReadyEventKey) -> bool {
    class_rank(a) < class_rank(b) || match (a, b) {
        (ReadyEventKey::Send(x), ReadyEventKey::Send(y)) => x.0 < y.0,
        (ReadyEventKey::Respond(x), ReadyEventKey::Respond(y)) => x.0 < y.0,
        _ => false,
    }
}

/// Each class of `r` comes before the next.
pub open spec fn sorted_classes(r: Seq<ReadyEventKey>) -> bool {
    forall|i: int, j: int| 0 <= i < j < r.len() ==> class_before(#[trigger] r[i], #[trigger] r[j])
}

/// The class `c` has events in `ready`.
pub open spec fn class_ready(ready: Set<EventKey>, c: ReadyEventKey) -> bool {
    match c {
        ReadyEventKey::Bind => has_bind(ready),
        ReadyEventKey::Send(k) => ready.contains(EventKey::Send(k)),
        ReadyEventKey::Respond(k) => ready.contains(EventKey::Respond(k)),
        ReadyEventKey::RecvOrDelay => has_recv_or_delay(ready),
    }
}

/// `r` lists the classes that have events in `ready`, each once, in the
/// order of processing.
pub open spec fn ready_sequence(ready: Set<EventKey>, r: Seq<ReadyEventKey>) -> bool {
    &&& sorted_classes(r)
    &&& forall|c: ReadyEventKey| #[trigger] r.contains(c) <==> class_ready(ready, c)
}

/// A class that comes after every class of a sorted list keeps it sorted,
/// and is then in it with those before.
proof fn lemma_push_class(r: Seq<ReadyEventKey>, c: ReadyEventKey)
    requires
        sorted_classes(r),
        forall|i: int| 0 <= i < r.len() ==> class_before(#[trigger] r[i], c),
    ensures
        sorted_classes(r.push(c)),
        forall|x: ReadyEventKey| #[trigger] r.push(c).contains(x) <==> r.contains(x) || x == c,
{
    let s = r.push(c);
    assert forall|i: int, j: int| 0 <= i < j < s.len() implies class_before(#[trigger] s[i], #[trigger] s[j]) by {
        if j < r.len() {
            assert(s[i] == r[i] && s[j] == r[j]);
        } else {
            assert(s[i] == r[i]);
        }
    }
    assert forall|x: ReadyEventKey| #[trigger] s.contains(x) <==> r.contains(x) || x == c by {
        if s.contains(x) {
            let i = choose|i: int| 0 <= i < s.len() && s[i] == x;
            if i < r.len() {
                assert(r[i] == x);
            }
        }
        if r.contains(x) {
            let i = choose|i: int| 0 <= i < r.len() && r[i] == x;
            assert(s[i] == x);
        }
        if x == c {
            assert(s[r.len() as int] == x);
        }
    }
}

impl<'a> Runner<'a> {
    /// The class of events to process next, if any event is ready.
    pub fn next_ready_event(&self) -> (r: Option<ReadyEventKey>)
        requires
            self.wf(),
        ensures
            next_ready(self.ready(), r),
    {
        proof {
            self.ready_events.lemma_seq();
        }
        let ghost rs = self.ready_events.seq();
        let mut has_b = false;
        let mut has_rd = false;
        let mut min_send: Option<KeySend> = None;
        let mut min_resp: Option<KeyRespond> = None;
        let mut i: usize = 0;
        while i < self.ready_events.len()
            invariant
                rs == self.ready_events.seq(),
                rs.to_set() == self.ready(),
                i <= rs.len(),
                has_b <==> exists|b: KeyBind| #[trigger] rs.take(i as int).contains(EventKey::Bind(b)),
                has_rd <==> (exists|b: KeyRecv| #[trigger] rs.take(i as int).contains(EventKey::Recv(b))) || (exists|b: KeyDelay| #[trigger] rs.take(i as int).contains(EventKey::Delay(b))),
                match min_send {
                    Some(k) => rs.take(i as int).contains(EventKey::Send(k)) && forall|j: KeySend| #[trigger] rs.take(i as int).contains(EventKey::Send(j)) ==> k.0 <= j.0,
                    None => forall|j: KeySend| !(#[trigger] rs.take(i as int).contains(EventKey::Send(j))),
                },
                match min_resp {
                    Some(k) => rs.take(i as int).contains(EventKey::Respond(k)) && forall|j: KeyRespond| #[trigger] rs.take(i as int).contains(EventKey::Respond(j)) ==> k.0 <= j.0,
                    None => forall|j: KeyRespond| !(#[trigger] rs.take(i as int).contains(EventKey::Respond(j))),
                },
            decreases rs.len() - i,
        {
            let k = self.ready_events.at(i);
            let ghost i0 = i as int;
            i = i + 1;
            assert(rs.take(i as int) == rs.take(i0).push(k));
            assert forall|x: EventKey| #[trigger] rs.take(i as int).contains(x) <==> rs.take(i0).contains(x) || x == k by {
                if rs.take(i as int).contains(x) && x != k {
                    let j = choose|j: int| 0 <= j < i && #[trigger] rs.take(i as int)[j] == x;
                    assert(rs.take(i0)[j] == x);
                }
                if rs.take(i0).contains(x) {
                    let j = choose|j: int| 0 <= j < i0 && #[trigger] rs.take(i0)[j] == x;
                    assert(rs.take(i as int)[j] == x);
                }
                if x == k {
                    assert(rs.take(i as int)[i0] == x);
                }
            }
            proof {
                let prev = rs.take(i0);
                let cur = rs.take(i as int);
                if exists|b: KeyBind| #[trigger] cur.contains(EventKey::Bind(b)) {
                    let b = choose|b: KeyBind| #[trigger] cur.contains(EventKey::Bind(b));
                    if EventKey::Bind(b) != k {
                        assert(prev.contains(EventKey::Bind(b)));
                    }
                }
                if exists|b: KeyBind| #[trigger] prev.contains(EventKey::Bind(b)) {
                    let b = choose|b: KeyBind| #[trigger] prev.contains(EventKey::Bind(b));
                    assert(cur.contains(EventKey::Bind(b)));
                }
                if exists|b: KeyRecv| #[trigger] cur.contains(EventKey::Recv(b)) {
                    let b = choose|b: KeyRecv| #[trigger] cur.contains(EventKey::Recv(b));
                    if EventKey::Recv(b) != k {
                        assert(prev.contains(EventKey::Recv(b)));
                    }
                }
                if exists|b: KeyRecv| #[trigger] prev.contains(EventKey::Recv(b)) {
                    let b = choose|b: KeyRecv| #[trigger] prev.contains(EventKey::Recv(b));
                    assert(cur.contains(EventKey::Recv(b)));
                }
                if exists|b: KeyDelay| #[trigger] cur.contains(EventKey::Delay(b)) {
                    let b = choose|b: KeyDelay| #[trigger] cur.contains(EventKey::Delay(b));
                    if EventKey::Delay(b) != k {
                        assert(prev.contains(EventKey::Delay(b)));
                    }
                }
                if exists|b: KeyDelay| #[trigger] prev.contains(EventKey::Delay(b)) {
                    let b = choose|b: KeyDelay| #[trigger] prev.contains(EventKey::Delay(b));
                    assert(cur.contains(EventKey::Delay(b)));
                }
                match k {
                    EventKey::Bind(b) => assert(cur.contains(EventKey::Bind(b))),
                    EventKey::Recv(b) => assert(cur.contains(EventKey::Recv(b))),
                    EventKey::Delay(b) => assert(cur.contains(EventKey::Delay(b))),
                    _ => {},
                }
            }
            match k {
                EventKey::Bind(_) => {
                    has_b = true;
                },
                EventKey::Recv(_) | EventKey::Delay(_) => {
                    has_rd = true;
                },
                EventKey::Send(s) => {
                    match min_send {
                        Some(m) => {
                            if s.0 < m.0 {
                                min_send = Some(s);
                            }
                        },
                        None => {
                            min_send = Some(s);
                        },
                    }
                },
                EventKey::Respond(s) => {
                    match min_resp {
                        Some(m) => {
                            if s.0 < m.0 {
                                min_resp = Some(s);
                            }
                        },
                        None => {
                            min_resp = Some(s);
                        },
                    }
                },
            }
        }
        assert(rs.take(rs.len() as int) == rs);
        assert forall|x: EventKey| rs.contains(x) <==> self.ready().contains(x) by {}
        if has_b {
            return Some(ReadyEventKey::Bind);
        }
        match min_send {
            Some(k) => {
                return Some(ReadyEventKey::Send(k));
            },
            None => {},
        }
        match min_resp {
            Some(k) => {
                return Some(ReadyEventKey::Respond(k));
            },
            None => {},
        }
        if has_rd {
            return Some(ReadyEventKey::RecvOrDelay);
        }
        None
    }

    /// The classes of events to process, in a predictable order: binds (once,
    /// if any is ready), then each ready send and each ready respond, by key,
    /// then receives and delays (once, if any is ready).
    pub fn ready_events(&self) -> (r: Vec<ReadyEventKey>)
        requires
            self.wf(),
        ensures
            ready_sequence(self.ready(), r@),
    {
        proof {
            self.lemma_wf_facts();
        }
        let ghost ready = self.ready();
        let exe: &Executable = self.executable;
        let mut r: Vec<ReadyEventKey> = Vec::new();
        let mut has_b = false;
        let mut i: usize = 0;
        while i < exe.events.bind.len()
            invariant
                ready == self.ready(),
                *exe == self.exe(),
                i <= exe.events.bind@.len(),
                has_b <==> exists|b: KeyBind| b.0 < i && #[trigger] ready.contains(EventKey::Bind(b)),
            decreases exe.events.bind@.len() - i,
        {
            if self.ready_events.contains(EventKey::Bind(KeyBind(i))) {
                has_b = true;
            }
            i = i + 1;
        }
        proof {
            if has_bind(ready) {
                let b = choose|b: KeyBind| #[trigger] ready.contains(EventKey::Bind(b));
                assert(exe.valid_key(EventKey::Bind(b)));
            }
        }
        proof {
            assert forall|c: ReadyEventKey| !(#[trigger] r@.contains(c)) by {}
        }
        if has_b {
            proof {
                lemma_push_class(r@, ReadyEventKey::Bind);
            }
            r.push(ReadyEventKey::Bind);
        }
        let mut k: usize = 0;
        while k < exe.events.send.len()
            invariant
                ready == self.ready(),
                *exe == self.exe(),
                k <= exe.events.send@.len(),
                has_b == has_bind(ready),
                sorted_classes(r@),
                forall|i: int| 0 <= i < r@.len() ==> class_rank(#[trigger] r@[i]) < 1 || (r@[i] matches ReadyEventKey::Send(j) && j.0 < k),
                forall|c: ReadyEventKey| #[trigger] r@.contains(c) <==> (c == ReadyEventKey::Bind && has_b) || (c matches ReadyEventKey::Send(j)
                    && j.0 < k && ready.contains(EventKey::Send(j))),
            decreases exe.events.send@.len() - k,
        {
            if self.ready_events.contains(EventKey::Send(KeySend(k))) {
                let c = ReadyEventKey::Send(KeySend(k));
                proof {
                    lemma_push_class(r@, c);
                }
                r.push(c);
            }
            k = k + 1;
        }
        let mut k: usize = 0;
        while k < exe.events.respond.len()
            invariant
                ready == self.ready(),
                *exe == self.exe(),
                k <= exe.events.respond@.len(),
                has_b == has_bind(ready),
                forall|j: KeySend| #[trigger] ready.contains(EventKey::Send(j)) ==> j.0 < exe.events.send@.len(),
                sorted_classes(r@),
                forall|i: int| 0 <= i < r@.len() ==> class_rank(#[trigger] r@[i]) < 2 || (r@[i] matches ReadyEventKey::Respond(j) && j.0 < k),
                forall|c: ReadyEventKey| #[trigger] r@.contains(c) <==> (c == ReadyEventKey::Bind && has_b) || (c matches ReadyEventKey::Send(j)
                    && ready.contains(EventKey::Send(j))) || (c matches ReadyEventKey::Respond(j) && j.0 < k && ready.contains(EventKey::Respond(j))),
            decreases exe.events.respond@.len() - k,
        {
            if self.ready_events.contains(EventKey::Respond(KeyRespond(k))) {
                let c = ReadyEventKey::Respond(KeyRespond(k));
                proof {
                    lemma_push_class(r@, c);
                }
                r.push(c);
            }
            k = k + 1;
        }
        let mut has_rd = false;
        let mut i: usize = 0;
        while i < exe.events.recv.len()
            invariant
                ready == self.ready(),
                *exe == self.exe(),
                i <= exe.events.recv@.len(),
                has_rd <==> exists|b: KeyRecv| b.0 < i && #[trigger] ready.contains(EventKey::Recv(b)),
            decreases exe.events.recv@.len() - i,
        {
            if self.ready_events.contains(EventKey::Recv(KeyRecv(i))) {
                has_rd = true;
            }
            i = i + 1;
        }
        let mut i: usize = 0;
        while i < exe.events.delay.len()
            invariant
                ready == self.ready(),
                *exe == self.exe(),
                i <= exe.events.delay@.len(),
                has_rd <==> (exists|b: KeyRecv| b.0 < exe.events.recv@.len() && #[trigger] ready.contains(EventKey::Recv(b)))
                    || (exists|b: KeyDelay| b.0 < i && #[trigger] ready.contains(EventKey::Delay(b))),
            decreases exe.events.delay@.len() - i,
        {
            if self.ready_events.contains(EventKey::Delay(KeyDelay(i))) {
                has_rd = true;
            }
            i = i + 1;
        }
        proof {
            if exists|b: KeyRecv| #[trigger] ready.contains(EventKey::Recv(b)) {
                let b = choose|b: KeyRecv| #[trigger] ready.contains(EventKey::Recv(b));
                assert(exe.valid_key(EventKey::Recv(b)));
            }
            if exists|b: KeyDelay| #[trigger] ready.contains(EventKey::Delay(b)) {
                let b = choose|b: KeyDelay| #[trigger] ready.contains(EventKey::Delay(b));
                assert(exe.valid_key(EventKey::Delay(b)));
            }
            assert(has_rd == has_recv_or_delay(ready));
        }
        if has_rd {
            proof {
                lemma_push_class(r@, ReadyEventKey::RecvOrDelay);
            }
            r.push(ReadyEventKey::RecvOrDelay);
        }
        proof {
            assert forall|c: ReadyEventKey| #[trigger] r@.contains(c) <==> class_ready(ready, c) by {
                match c {
                    ReadyEventKey::Respond(j) => {
                        if ready.contains(EventKey::Respond(j)) {
                            assert(exe.valid_key(EventKey::Respond(j)));
                        }
                    },
                    _ => {},
                }
            }
        }
        r
    }

    /// Starts processing the class `r`: a send or a respond must be ready, and
    /// stops being ready; for another class, a bind, receive or delay must be
    /// ready.
    pub fn begin_fire(&mut self, r: ReadyEventKey) -> (res: Result<(), RunError>)
        requires
            old(self).wf(),
        ensures
            final(self).wf(),
            final(self).exe() == old(self).exe(),
            final(self).fired_set() == old(self).fired_set(),
            match class_event(r) {
                Some(e) => {
                    &&& res is Ok <==> old(self).ready().contains(e)
                    &&& final(self).ready() == old(self).ready().remove(e)
                },
                None => {
                    &&& res is Ok <==> (has_bind(old(self).ready()) || has_recv_or_delay(old(self).ready()))
                    &&& final(self).ready() == old(self).ready()
                },
            },
            res matches Err(e) ==> e == RunError::EventIsNotReady(r),
            final(self).same_except_ready(*old(self)),
            res is Ok && class_event(r) is Some ==> final(self).can_release(seq![class_event(r)->0]),
    {
        match r.event_key() {
            Ok(e) => {
                if !self.ready_events.contains(e) {
                    return Err(RunError::EventIsNotReady(r));
                }
                self.ready_events.remove(e);
                proof {
                    assert(self.unreached == old(self).unreached);
                    assert(self.reached == old(self).reached);
                    assert(self.exe() == old(self).exe());
                    assert forall|k: EventKey| #[trigger] self.ready().contains(k) implies old(self).ready().contains(k) by {}
                    assert forall|x: (u128, KeyDelay, u128)| #[trigger] self.delays.set().contains(x) implies self.ready().contains(EventKey::Delay(x.1)) by {
                        assert(old(self).ready().contains(EventKey::Delay(x.1)));
                    }
                    assert forall|x: (u128, KeyRecv)| #[trigger] self.receives.thru_set().contains(x) implies self.ready().contains(EventKey::Recv(x.1)) by {
                        assert(old(self).ready().contains(EventKey::Recv(x.1)));
                    }
                }
                Ok(())
            },
            Err(_) => {
                proof {
                    self.ready_events.lemma_seq();
                }
                let mut i: usize = 0;
                while i < self.ready_events.len()
                    invariant
                        self.wf(),
                        *self == *old(self),
                        class_event(r) is None,
                        i <= self.ready_events.seq().len(),
                        self.ready_events.seq().to_set() == self.ready(),
                        forall|j: int| 0 <= j < i ==> match #[trigger] self.ready_events.seq()[j] {
                            EventKey::Bind(_) | EventKey::Recv(_) | EventKey::Delay(_) => false,
                            _ => true,
                        },
                    decreases self.ready_events.seq().len() - i,
                {
                    match self.ready_events.at(i) {
                        EventKey::Bind(_) | EventKey::Recv(_) | EventKey::Delay(_) => {
                            proof {
                                let k = self.ready_events.seq()[i as int];
                                assert(self.ready_events.seq().contains(k));
                                assert(self.ready().contains(k));
                                match k {
                                    EventKey::Bind(b) => assert(has_bind(self.ready())),
                                    EventKey::Recv(b) => assert(self.ready().contains(EventKey::Recv(b))),
                                    EventKey::Delay(b) => assert(self.ready().contains(EventKey::Delay(b))),
                                    _ => {},
                                }
                            }
                            return Ok(());
                        },
                        _ => {},
                    }
                    i = i + 1;
                }
                proof {
                    assert forall|b: KeyBind| !self.ready().contains(EventKey::Bind(b)) by {
                        if self.ready().contains(EventKey::Bind(b)) {
                            assert(self.ready_events.seq().contains(EventKey::Bind(b)));
                        }
                    }
                    assert forall|b: KeyRecv| !self.ready().contains(EventKey::Recv(b)) by {
                        if self.ready().contains(EventKey::Recv(b)) {
                            assert(self.ready_events.seq().contains(EventKey::Recv(b)));
                        }
                    }
                    assert forall|b: KeyDelay| !self.ready().contains(EventKey::Delay(b)) by {
                        if self.ready().contains(EventKey::Delay(b)) {
                            assert(self.ready_events.seq().contains(EventKey::Delay(b)));
                        }
                    }
                }
                Err(RunError::EventIsNotReady(r))
            },
        }
    }
}

/// An event is never ready before all of its prerequisites have happened.
pub proof fn law_ready_after_prerequisites(r: &Runner, d: EventKey)
    requires
        r.wf(),
        r.ready().contains(d),
    ensures
        r.exe().prerequisites(d).subset_of(r.fired_set()),
{
    assert forall|p: EventKey| #[trigger] r.exe().prerequisites(d).contains(p) implies r.fired_set().contains(p) by {
        r.lemma_waiting(d, p);
    }
}

/// An event that waits is released by events that happen exactly when,
/// with them, all of its prerequisites have happened.
pub proof fn law_released_when_prerequisites_fired(r: &Runner, fired: Set<EventKey>, d: EventKey)
    requires
        r.wf(),
        r.waiting().contains_key(d),
    ensures
        unblocked_by(r.waiting(), fired).contains(d) <==> r.exe().prerequisites(d).subset_of(
            r.fired_set().union(fired),
        ),
{
    if unblocked_by(r.waiting(), fired).contains(d) {
        assert forall|p: EventKey| #[trigger] r.exe().prerequisites(d).contains(p) implies r.fired_set().union(fired).contains(p) by {
            r.lemma_waiting(d, p);
        }
    }
    if r.exe().prerequisites(d).subset_of(r.fired_set().union(fired)) {
        assert forall|p: EventKey| #[trigger] r.waiting()[d].contains(p) implies fired.contains(p) by {
            r.lemma_waiting(d, p);
            assert(r.exe().prerequisites(d).contains(p));
        }
    }
}

/// An event happens once at most: an event that happened is neither ready
/// nor waiting, so it cannot be recorded as happening again.
pub proof fn law_fires_once(r: &Runner, k: EventKey)
    requires
        r.wf(),
        r.fired_set().contains(k),
    ensures
        !r.ready().contains(k),
        !r.waiting().contains_key(k),
        !r.can_release(seq![k]),
{
    assert(seq![k][0] == k);
}

/// Every required event is either reached or unreached, never both, and
/// keeps what it is required to be.
pub proof fn law_required_partitioned(r: &Runner, k: EventKey)
    requires
        r.wf(),
    ensures
        r.exe().events.required.map().contains_key(k) <==> (r.unreached_map().contains_key(k) || r.reached_map().contains_key(k)),
        !(r.unreached_map().contains_key(k) && r.reached_map().contains_key(k)),
        r.unreached_map().contains_key(k) ==> r.unreached_map()[k] == r.exe().events.required.map()[k],
        r.reached_map().contains_key(k) ==> r.reached_map()[k] == r.exe().events.required.map()[k],
{
    let u = r.unreached_map();
    let m = r.reached_map();
    assert(u.union_prefer_right(m) == r.exe().events.required.map());
    if u.contains_key(k) && m.contains_key(k) {
        assert(u.dom().contains(k) && m.dom().contains(k));
    }
}

} // verus!
