//! Receiving: matching the messages that the test receives against the
//! ready receive events, and closing the windows that time out.
use vstd::prelude::*;

use crate::bindings::{bind_to_pattern, match_pattern, Env, Scope, Txn};
use crate::execution::tables::no_dups;
use crate::execution::{EventKey, EventRecv, Executable, KeyActor, KeyDummy, KeyRecv};
use crate::json::{str_eq, Json, JsonValue};
use crate::scenario::DstPattern;

use super::binds::envs_of;
use super::Runner;

verus! {

/// A message received by the test, as the runner sees it.
#[derive(Debug)]
pub struct Envelope {
    /// The address of the sender.
    pub sender: u64,
    /// The dummy it was sent to; `None` when it was routed to the test.
    pub to_dummy: Option<KeyDummy>,
    /// The FQN of its type, when its type is known.
    pub fqn: Option<String>,
    /// Whether it is a request, to be responded to.
    pub is_request: bool,
    /// Its payload, serialized.
    pub payload: JsonValue,
}

/// The patterns of `ps`.
pub open spec fn patterns_view(ps: Seq<DstPattern>) -> Seq<Json> {
    ps.map_values(|p: DstPattern| p.0@)
}

/// Matching `value` against each of `patterns` in turn, binding variables,
/// until one does not match.
pub open spec fn match_all(value: Json, patterns: Seq<Json>, env: Env) -> (bool, Env)
    decreases patterns.len(),
{
    if patterns.len() == 0 {
        (true, env)
    } else {
        let (ok, e1) = match_all(value, patterns.drop_last(), env);
        if !ok {
            (false, e1)
        } else {
            match_pattern(value, patterns.last(), e1)
        }
    }
}

/// Whether the receive event `k` accepts the message `m` at `now`: the
/// message has the expected type, comes from the expected actor (the address
/// bound to it, if any), was sent to the expected dummy, its payload matches
/// the patterns with the variables `envs` of the scopes, and the window of
/// the event has opened.
pub open spec fn recv_accepts(
    exe: Executable,
    actors: Seq<Option<u64>>,
    envs: Seq<Env>,
    valid_from: Seq<Option<u128>>,
    k: KeyRecv,
    m: Envelope,
    now: u128,
) -> bool {
    let ev = exe.events.recv@[k.0 as int];
    &&& m.fqn matches Some(f) && f@ == ev.fqn@
    &&& (ev.from matches Some(a) ==> (actors[a.0 as int] matches Some(addr) ==> addr == m.sender))
    &&& (ev.to matches Some(d) ==> m.to_dummy == Some(d))
    &&& match_all(m.payload@, patterns_view(ev.payload_matchers@), envs[ev.scope_key.0 as int]).0
    &&& valid_from[k.0 as int] matches Some(t) && t <= now
}

/// The priority of the receive event `k`, if it has one.
pub open spec fn recv_priority(exe: Executable, k: KeyRecv) -> Option<usize> {
    if exe.events.priority.map().contains_key(EventKey::Recv(k)) {
        Some(exe.events.priority.map()[EventKey::Recv(k)])
    } else {
        None
    }
}

/// Whether the receive event `a` is tried before `b`: events without a
/// priority first, then by priority; ties go by key.
pub open spec fn recv_before(exe: Executable, a: KeyRecv, b: KeyRecv) -> bool {
    match (recv_priority(exe, a), recv_priority(exe, b)) {
        (None, None) => a.0 < b.0,
        (None, Some(_)) => true,
        (Some(_), None) => false,
        (Some(x), Some(y)) => x < y || (x == y && a.0 < b.0),
    }
}

/// The order in which receives are tried is a strict total order.
proof fn lemma_recv_before(exe: Executable, a: KeyRecv, b: KeyRecv, c: KeyRecv)
    ensures
        !recv_before(exe, a, a),
        a != b ==> recv_before(exe, a, b) || recv_before(exe, b, a),
        recv_before(exe, a, b) ==> !recv_before(exe, b, a),
        recv_before(exe, a, b) && recv_before(exe, b, c) ==> recv_before(exe, a, c),
{
}

/// A receive event accepts only what it expects: a message of its type,
/// sent to the dummy it names (to exactly that one), by the address bound
/// to the actor it names (where one is bound), whose payload matches its
/// first pattern, once its window has opened.
pub proof fn law_recv_accepts_what_it_expects(
    exe: Executable,
    actors: Seq<Option<u64>>,
    envs: Seq<Env>,
    valid_from: Seq<Option<u128>>,
    k: KeyRecv,
    m: Envelope,
    now: u128,
)
    requires
        recv_accepts(exe, actors, envs, valid_from, k, m, now),
    ensures
        ({
            let ev = exe.events.recv@[k.0 as int];
            &&& m.fqn is Some && m.fqn->0@ == ev.fqn@
            &&& forall|d: KeyDummy| ev.to == Some(d) ==> m.to_dummy == Some(d)
            &&& forall|a: KeyActor, addr: u64| ev.from == Some(a) && actors[a.0 as int] == Some(addr) ==> m.sender == addr
            &&& valid_from[k.0 as int] is Some && valid_from[k.0 as int]->0 <= now
            &&& ev.payload_matchers@.len() > 0 ==> match_pattern(m.payload@, ev.payload_matchers@[0].0@, envs[ev.scope_key.0 as int]).0
        }),
{
    let ev = exe.events.recv@[k.0 as int];
    if ev.payload_matchers@.len() > 0 {
        lemma_match_all_first(m.payload@, patterns_view(ev.payload_matchers@), envs[ev.scope_key.0 as int]);
    }
}

/// A value that matches a list of patterns matches the first of them.
proof fn lemma_match_all_first(value: Json, patterns: Seq<Json>, env: Env)
    requires
        patterns.len() > 0,
        match_all(value, patterns, env).0,
    ensures
        match_pattern(value, patterns[0], env).0,
    decreases patterns.len(),
{
    if patterns.len() > 1 {
        let init = patterns.drop_last();
        assert(match_all(value, init, env).0);
        lemma_match_all_first(value, init, env);
        assert(init[0] == patterns[0]);
    } else {
        assert(patterns.drop_last().len() == 0);
        assert(match_all(value, patterns.drop_last(), env) == (true, env));
        assert(patterns.last() == patterns[0]);
    }
}

/// Of two receive events with priorities, the one with the lower priority
/// (defined earlier) is tried first: where both accept a message, the later
/// never takes it from the earlier.
pub proof fn law_lower_priority_tried_first(exe: Executable, j: KeyRecv, k: KeyRecv)
    requires
        exe.events.priority.map().contains_key(EventKey::Recv(j)),
        exe.events.priority.map().contains_key(EventKey::Recv(k)),
        exe.events.priority.map()[EventKey::Recv(j)] < exe.events.priority.map()[EventKey::Recv(k)],
    ensures
        recv_before(exe, j, k),
        !recv_before(exe, k, j),
{
}

impl<'a> Runner<'a> {
    /// Whether the receive event `a` is tried before `b`.
    fn tried_before(&self, a: KeyRecv, b: KeyRecv) -> (r: bool)
        requires
            self.exe().events.priority.wf(),
        ensures
            r == recv_before(self.exe(), a, b),
    {
        let pa = self.executable.events.priority.get(EventKey::Recv(a));
        let pb = self.executable.events.priority.get(EventKey::Recv(b));
        match (pa, pb) {
            (None, None) => a.0 < b.0,
            (None, Some(_)) => true,
            (Some(_), None) => false,
            (Some(x), Some(y)) => *x < *y || (*x == *y && a.0 < b.0),
        }
    }

    /// Whether the receive event `k` accepts `m` at `now`; if it does, the
    /// transaction that binds the variables of its patterns.
    #[verifier::loop_isolation(false)]
    fn check_recv(&self, k: KeyRecv, m: &Envelope, now: u128) -> (r: Option<Txn>)
        requires
            self.wf(),
            k.0 < self.exe().events.recv@.len(),
        ensures
            r is Some <==> recv_accepts(
                self.exe(),
                self.actor_seq(),
                envs_of(self.scope_seq()),
                self.valid_from(),
                k,
                *m,
                now,
            ),
            r matches Some(t) ==> {
                let sk = self.exe().events.recv@[k.0 as int].scope_key;
                &&& t.fits(&self.scope_seq()[sk.0 as int])
                &&& t.added_actors() == Set::<(Seq<char>, u64)>::empty()
                &&& t.env_with(&self.scope_seq()[sk.0 as int]) == match_all(
                    m.payload@,
                    patterns_view(self.exe().events.recv@[k.0 as int].payload_matchers@),
                    envs_of(self.scope_seq())[sk.0 as int],
                ).1
            },
    {
        let ghost exe = self.exe();
        let ev: &EventRecv = &self.executable.events.recv[k.0];
        assert(exe.events.recv@[k.0 as int] == *ev);
        match &m.fqn {
            Some(f) => {
                if !str_eq(f.as_str(), ev.fqn.as_str()) {
                    return None;
                }
            },
            None => {
                return None;
            },
        }
        match ev.from {
            Some(a) => match self.actors[a.0] {
                Some(addr) => {
                    if addr != m.sender {
                        return None;
                    }
                },
                None => {},
            },
            None => {},
        }
        match ev.to {
            Some(d) => match m.to_dummy {
                Some(d2) => {
                    if d2 != d {
                        return None;
                    }
                },
                None => {
                    return None;
                },
            },
            None => {},
        }
        let scope: &Scope = &self.scopes[ev.scope_key.0];
        let ghost env0 = envs_of(self.scope_seq())[ev.scope_key.0 as int];
        let ghost pats = patterns_view(ev.payload_matchers@);
        let mut txn = scope.txn();
        proof {
            assert(txn.env_with(scope) =~= env0);
            assert(match_all(m.payload@, pats.take(0), env0) == (true, env0)) by {
                assert(pats.take(0) =~= Seq::<Json>::empty());
            }
        }
        let mut i: usize = 0;
        while i < ev.payload_matchers.len()
            invariant
                i <= ev.payload_matchers@.len(),
                pats == patterns_view(ev.payload_matchers@),
                txn.fits(scope),
                txn.added_actors() == Set::<(Seq<char>, u64)>::empty(),
                match_all(m.payload@, pats.take(i as int), env0) == (true, txn.env_with(scope)),
            decreases ev.payload_matchers@.len() - i,
        {
            let ghost before = txn.env_with(scope);
            let ok = bind_to_pattern(&m.payload, &ev.payload_matchers[i].0, scope, &mut txn);
            proof {
                assert(pats.take(i + 1).drop_last() =~= pats.take(i as int));
                assert(pats.take(i + 1).last() == ev.payload_matchers@[i as int].0@);
            }
            if !ok {
                proof {
                    lemma_match_all_fails(m.payload@, pats, env0, i + 1);
                }
                return None;
            }
            i = i + 1;
        }
        proof {
            assert(pats.take(i as int) =~= pats);
        }
        match self.receives.valid_from_of(k) {
            Some(t) => {
                if t > now {
                    return None;
                }
            },
            None => {
                return None;
            },
        }
        Some(txn)
    }
}

/// Once a pattern does not match, matching all of them fails.
proof fn lemma_match_all_fails(value: Json, patterns: Seq<Json>, env: Env, n: int)
    requires
        0 <= n <= patterns.len(),
        !match_all(value, patterns.take(n), env).0,
    ensures
        !match_all(value, patterns, env).0,
    decreases patterns.len() - n,
{
    if n < patterns.len() {
        assert(patterns.take(n + 1).drop_last() =~= patterns.take(n));
        lemma_match_all_fails(value, patterns, env, n + 1);
    } else {
        assert(patterns.take(n) =~= patterns);
    }
}

/// The addresses bound to actors once the receive event `ev` accepted a
/// message from `sender`: the sender's address is bound to the actor it is
/// expected from, if that had none.
pub open spec fn actors_after(actors: Seq<Option<u64>>, ev: EventRecv, sender: u64) -> Seq<Option<u64>> {
    match ev.from {
        Some(a) => if actors[a.0 as int] is None {
            actors.update(a.0 as int, Some(sender))
        } else {
            actors
        },
        None => actors,
    }
}

impl<'a> Runner<'a> {
    /// Whether the receive event `k` accepts `m` at `now`, in this state.
    pub open spec fn accepts(&self, k: KeyRecv, m: Envelope, now: u128) -> bool {
        recv_accepts(self.exe(), self.actor_seq(), envs_of(self.scope_seq()), self.valid_from(), k, m, now)
    }

    /// Matches the message `m`, received at `now`, against the ready receive
    /// events, in the order in which they are tried: the first that accepts
    /// it fires. The variables of its patterns are bound in its scope, the
    /// sender's address is bound to the actor it is expected from if that
    /// had none, its window closes, and whether `m` is a request is kept for
    /// a response. Returns the event that fired, if any.
    #[verifier::rlimit(50)]
    pub fn match_envelope(&mut self, m: &Envelope, now: u128) -> (r: Option<KeyRecv>)
        requires
            old(self).wf(),
        ensures
            final(self).wf(),
            match r {
                None => {
                    &&& *final(self) == *old(self)
                    &&& forall|k: KeyRecv| #[trigger]
                        old(self).ready().contains(EventKey::Recv(k)) ==> !old(self).accepts(k, *m, now)
                },
                Some(k) => {
                    let ev = old(self).exe().events.recv@[k.0 as int];
                    &&& old(self).ready().contains(EventKey::Recv(k))
                    &&& old(self).accepts(k, *m, now)
                    &&& forall|j: KeyRecv| #[trigger]
                        old(self).ready().contains(EventKey::Recv(j)) && recv_before(old(self).exe(), j, k)
                            ==> !old(self).accepts(j, *m, now)
                    &&& final(self).same_except_recv(*old(self))
                    &&& final(self).ready() == old(self).ready().remove(EventKey::Recv(k))
                    &&& envs_of(final(self).scope_seq()) == envs_of(old(self).scope_seq()).update(
                        ev.scope_key.0 as int,
                        match_all(m.payload@, patterns_view(ev.payload_matchers@), envs_of(old(self).scope_seq())[ev.scope_key.0 as int]).1,
                    )
                    &&& final(self).actor_seq() == actors_after(old(self).actor_seq(), ev, m.sender)
                    &&& final(self).request_seq() == old(self).request_seq().update(k.0 as int, m.is_request)
                    &&& final(self).valid_from() == old(self).valid_from().update(k.0 as int, None)
                    &&& final(self).valid_thru() == old(self).valid_thru().filter(|e: (u128, KeyRecv)| e.1 != k)
                    &&& final(self).can_release(seq![EventKey::Recv(k)])
                },
            },
    {
        proof {
            self.ready_events.lemma_seq();
        }
        let ghost s0 = *self;
        let ghost exe = self.exe();
        let ghost rs = self.ready_events.seq();
        let mut best: Option<KeyRecv> = None;
        let mut i: usize = 0;
        while i < self.ready_events.len()
            invariant
                *self == s0,
                s0 == *old(self),
                s0.wf(),
                exe == s0.exe(),
                rs == s0.ready_events.seq(),
                rs.to_set() == s0.ready(),
                no_dups(rs),
                i <= rs.len(),
                best matches Some(b) ==> {
                    &&& rs.take(i as int).contains(EventKey::Recv(b))
                    &&& s0.accepts(b, *m, now)
                    &&& forall|j: KeyRecv| #[trigger] rs.take(i as int).contains(EventKey::Recv(j)) && recv_before(exe, j, b) ==> !s0.accepts(j, *m, now)
                },
                best is None ==> forall|j: KeyRecv| #[trigger] rs.take(i as int).contains(EventKey::Recv(j)) ==> !s0.accepts(j, *m, now),
            decreases rs.len() - i,
        {
            let e = self.ready_events.at(i);
            proof {
                crate::execution::tables::lemma_take_one_more(rs, i as int);
                assert(rs.contains(e)) by {
                    assert(rs[i as int] == e);
                }
                assert(s0.ready().contains(e));
            }
            match e {
                EventKey::Recv(k) => {
                    let acc = self.check_recv(k, m, now);
                    if acc.is_some() {
                        match best {
                            None => {
                                best = Some(k);
                            },
                            Some(b) => {
                                if self.tried_before(k, b) {
                                    best = Some(k);
                                }
                            },
                        }
                    }
                    proof {
                        let ghost pre = rs.take(i as int);
                        let ghost nxt = rs.take(i + 1);
                        assert forall|x: EventKey| #[trigger] nxt.contains(x) <==> pre.contains(x) || x == e by {
                            assert(nxt.to_set().contains(x) == pre.to_set().insert(e).contains(x));
                        }
                        assert(!pre.contains(e)) by {
                            if pre.contains(e) {
                                let t = choose|t: int| 0 <= t < pre.len() && #[trigger] pre[t] == e;
                                assert(rs[t] == rs[i as int]);
                            }
                        }
                        match best {
                            Some(b) => {
                                assert forall|j: KeyRecv| #[trigger] nxt.contains(EventKey::Recv(j)) && recv_before(exe, j, b) implies !s0.accepts(j, *m, now) by {
                                    lemma_recv_before(exe, j, k, b);
                                    lemma_recv_before(exe, k, b, j);
                                    if j != k && acc.is_some() && b == k {
                                        assert(pre.contains(EventKey::Recv(j)));
                                    }
                                }
                            },
                            None => {},
                        }
                    }
                },
                _ => {
                    proof {
                        let ghost pre = rs.take(i as int);
                        let ghost nxt = rs.take(i + 1);
                        assert forall|x: EventKey| #[trigger] nxt.contains(x) <==> pre.contains(x) || x == e by {
                            assert(nxt.to_set().contains(x) == pre.to_set().insert(e).contains(x));
                        }
                    }
                },
            }
            i = i + 1;
        }
        proof {
            assert(rs.take(rs.len() as int) == rs);
            assert forall|x: EventKey| rs.contains(x) <==> s0.ready().contains(x) by {
                assert(rs.to_set().contains(x) == rs.contains(x));
            }
        }
        match best {
            None => None,
            Some(k) => {
                let ev: &EventRecv = &self.executable.events.recv[k.0];
                assert(exe.events.recv@[k.0 as int] == *ev);
                let sk = ev.scope_key;
                let from = ev.from;
                let txn = self.check_recv(k, m, now).unwrap();
                let mut sc = self.scopes.remove(sk.0);
                let ghost sc0 = sc;
                txn.commit(&mut sc);
                proof {
                    assert(sc.actor_pairs() =~= sc0.actor_pairs());
                }
                self.scopes.insert(sk.0, sc);
                proof {
                    assert(self.scopes@ =~= s0.scopes@.update(sk.0 as int, sc));
                    assert(envs_of(self.scope_seq()) =~= envs_of(s0.scope_seq()).update(sk.0 as int, sc.env()));
                }
                match from {
                    Some(a) => {
                        if self.actors[a.0].is_none() {
                            self.actors.set(a.0, Some(m.sender));
                        }
                    },
                    None => {},
                }
                self.ready_events.remove(EventKey::Recv(k));
                self.receives.remove_by_key(k);
                self.requests.set(k.0, m.is_request);
                proof {
                    assert(self.actor_seq() =~= actors_after(s0.actor_seq(), *ev, m.sender));
                    assert(self.request_seq() =~= s0.request_seq().update(k.0 as int, m.is_request));
                    assert(self.same_except_recv(s0));
                    self.lemma_recv_fired(s0, k);
                    assert(no_dups(seq![EventKey::Recv(k)]));
                    assert(!s0.fired_set().contains(EventKey::Recv(k)));
                    assert(!s0.waiting().contains_key(EventKey::Recv(k)));
                    assert(self.waiting() == s0.waiting());
                }
                Some(k)
            },
        }
    }
}

} // verus!
