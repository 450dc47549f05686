//! Firing the ready bind events: values are produced in one scope and matched
//! against patterns in another, binding variables.
use vstd::prelude::*;
use vstd::string::*;

use crate::bindings::{match_pattern, render, render_json, BindError, Env, Scope};
use crate::execution::tables::no_dups;
use crate::execution::{BindScope, EventBind, EventKey, Executable, KeyBind, KeyScope};
use crate::json::{Json, JsonValue};
use crate::scenario::Msg;

use super::{RunError, Runner};

verus! {

/// Why a bind event could not produce its value.
pub enum BindFault {
    /// The template names a variable that has no value.
    Unbound(Seq<char>),
    /// No predefined message is stored under the key.
    NoValue(Seq<char>),
}

/// The text that `format!("{:?}", s)` gives for the string `s`: `s` in
/// double quotes, with quotes, backslashes and the characters that are not
/// printable escaped.
pub uninterp spec fn debug_text(s: Seq<char>) -> Seq<char>;

/// `<str as Debug>::fmt`, through `format!("{:?}", ..)`: the quoted,
/// escaped form of `s`.
#[verifier::external_body]
fn debug_quoted(s: &str) -> (r: String)
    ensures
        r@ == debug_text(s@),
{
    format!("{:?}", s)
}

/// The text of the error when no predefined message is stored under `key`.
pub open spec fn no_such_key_text(key: Seq<char>) -> Seq<char> {
    "no such key: "@ + debug_text(key)
}

/// Whether the error `e` is the one that reports `fault`.
pub open spec fn reports(e: RunError, fault: BindFault) -> bool {
    match fault {
        BindFault::Unbound(n) => e matches RunError::BindError(BindError::UnboundValue(m)) && m@ == n,
        BindFault::NoValue(k) => e matches RunError::Marshalling(msg) && msg@ == no_such_key_text(k),
    }
}

/// The scopes that a bind event reads from and writes to.
pub open spec fn bind_scopes(s: BindScope) -> (KeyScope, KeyScope) {
    match s {
        BindScope::Same(k) => (k, k),
        BindScope::Two { src, dst } => (src, dst),
    }
}

/// The variables bound in each of `scopes`.
pub open spec fn envs_of(scopes: Seq<Scope>) -> Seq<Env> {
    scopes.map_values(|s: Scope| s.env())
}

/// The value that the bind event `b` produces, with the variables `envs` of
/// the scopes.
pub open spec fn bind_source(exe: Executable, envs: Seq<Env>, b: EventBind) -> Result<Json, BindFault> {
    let src = bind_scopes(b.scope).0;
    match b.src {
        Msg::Literal(v) => Ok(v@),
        Msg::Bind(t) => match render_json(t@, envs[src.0 as int]) {
            Ok(v) => Ok(v),
            Err(n) => Err(BindFault::Unbound(n)),
        },
        Msg::Inject(key) => match exe.marshalling.value_of(key@) {
            Some(v) => Ok(v),
            None => Err(BindFault::NoValue(key@)),
        },
    }
}

/// Firing the bind event `k` on the variables `envs`: whether its value
/// matched its pattern, and the variables then.
pub open spec fn bind_step(exe: Executable, envs: Seq<Env>, k: KeyBind) -> Result<(bool, Seq<Env>), BindFault> {
    let b = exe.events.bind@[k.0 as int];
    let dst = bind_scopes(b.scope).1;
    match bind_source(exe, envs, b) {
        Err(f) => Err(f),
        Ok(v) => {
            let (ok, env) = match_pattern(v, b.dst.0@, envs[dst.0 as int]);
            if ok {
                Ok((true, envs.update(dst.0 as int, env)))
            } else {
                Ok((false, envs))
            }
        },
    }
}

/// A bind event produces its value with the variables of the scope it reads
/// from (for a bind across a call boundary, the field `src`), and of no
/// other: two states that agree on that scope give the same value.
pub proof fn law_bind_reads_its_source_scope(exe: Executable, envs1: Seq<Env>, envs2: Seq<Env>, b: EventBind)
    requires
        match b.scope {
            BindScope::Same(s) => envs1[s.0 as int] == envs2[s.0 as int],
            BindScope::Two { src, dst } => envs1[src.0 as int] == envs2[src.0 as int],
        },
    ensures
        bind_source(exe, envs1, b) == bind_source(exe, envs2, b),
{
}

/// Firing a bind event changes the variables of the scope it writes to (for
/// a bind across a call boundary, the field `dst`) and of no other; where
/// its value does not match, nothing changes; where it matches, that scope
/// holds what matching the value against the pattern, from its variables,
/// gives.
pub proof fn law_bind_writes_its_destination_scope(exe: Executable, envs: Seq<Env>, k: KeyBind)
    requires
        k.0 < exe.events.bind@.len(),
        ({
            let b = exe.events.bind@[k.0 as int];
            match b.scope {
                BindScope::Same(s) => s.0 < envs.len(),
                BindScope::Two { src, dst } => src.0 < envs.len() && dst.0 < envs.len(),
            }
        }),
    ensures
        ({
            let b = exe.events.bind@[k.0 as int];
            let d = match b.scope {
                BindScope::Same(s) => s,
                BindScope::Two { src, dst } => dst,
            };
            bind_step(exe, envs, k) matches Ok((ok, after)) ==> {
                &&& after.len() == envs.len()
                &&& forall|i: int| 0 <= i < envs.len() && i != d.0 ==> after[i] == envs[i]
                &&& !ok ==> after == envs
                &&& ok ==> after[d.0 as int] == match_pattern(bind_source(exe, envs, b)->Ok_0, b.dst.0@, envs[d.0 as int]).1
            }
        }),
{
}

/// Firing the bind events of `order`, one after the other, on the variables
/// `envs`: the variables then, and the events whose values matched; or the
/// first fault.
pub open spec fn run_binds(exe: Executable, envs: Seq<Env>, order: Seq<KeyBind>) -> Result<
    (Seq<Env>, Seq<KeyBind>),
    BindFault,
>
    decreases order.len(),
{
    if order.len() == 0 {
        Ok((envs, Seq::empty()))
    } else {
        match run_binds(exe, envs, order.drop_last()) {
            Err(f) => Err(f),
            Ok((e1, fired)) => match bind_step(exe, e1, order.last()) {
                Err(f) => Err(f),
                Ok((ok, e2)) => Ok((e2, if ok { fired.push(order.last()) } else { fired })),
            },
        }
    }
}

/// The bind events of `order` before the `n`-th fire, and the `n`-th is
/// the first that cannot produce its value, as `e` reports.
pub open spec fn failed_at(exe: Executable, envs: Seq<Env>, order: Seq<KeyBind>, n: int, e: RunError) -> bool {
    &&& run_binds(exe, envs, order.take(n)) is Ok
    &&& bind_step(exe, run_binds(exe, envs, order.take(n))->Ok_0.0, order[n]) matches Err(f)
    &&& reports(e, f)
}

/// The priority of the bind event `k`, if it has one.
pub open spec fn bind_priority(exe: Executable, k: KeyBind) -> Option<usize> {
    if exe.events.priority.map().contains_key(EventKey::Bind(k)) {
        Some(exe.events.priority.map()[EventKey::Bind(k)])
    } else {
        None
    }
}

/// Whether the bind event `a` fires before `b`: events without a priority
/// first, then by priority; ties go by key.
pub open spec fn bind_before(exe: Executable, a: KeyBind, b: KeyBind) -> bool {
    match (bind_priority(exe, a), bind_priority(exe, b)) {
        (None, None) => a.0 < b.0,
        (None, Some(_)) => true,
        (Some(_), None) => false,
        (Some(x), Some(y)) => x < y || (x == y && a.0 < b.0),
    }
}

/// `order` holds the bind events of `ready` once each, in firing order.
pub open spec fn is_bind_order(exe: Executable, ready: Set<EventKey>, order: Seq<KeyBind>) -> bool {
    &&& forall|k: KeyBind| #[trigger] order.contains(k) <==> ready.contains(EventKey::Bind(k))
    &&& forall|i: int, j: int| 0 <= i < j < order.len() ==> bind_before(exe, #[trigger] order[i], #[trigger] order[j])
}

/// The order in which binds fire is a strict total order.
proof fn lemma_bind_before(exe: Executable, a: KeyBind, b: KeyBind, c: KeyBind)
    ensures
        !bind_before(exe, a, a),
        a != b ==> bind_before(exe, a, b) || bind_before(exe, b, a),
        bind_before(exe, a, b) ==> !bind_before(exe, b, a),
        bind_before(exe, a, b) && bind_before(exe, b, c) ==> bind_before(exe, a, c),
{
}

impl<'a> Runner<'a> {
    /// Whether the bind event `a` fires before `b`.
    fn fires_before(&self, a: KeyBind, b: KeyBind) -> (r: bool)
        requires
            self.exe().events.priority.wf(),
        ensures
            r == bind_before(self.exe(), a, b),
    {
        let pa = self.executable.events.priority.get(EventKey::Bind(a));
        let pb = self.executable.events.priority.get(EventKey::Bind(b));
        match (pa, pb) {
            (None, None) => a.0 < b.0,
            (None, Some(_)) => true,
            (Some(_), None) => false,
            (Some(x), Some(y)) => *x < *y || (*x == *y && a.0 < b.0),
        }
    }

    /// The ready bind events, in firing order.
    fn ready_binds(&self) -> (order: Vec<KeyBind>)
        requires
            self.wf(),
        ensures
            is_bind_order(self.exe(), self.ready(), order@),
            forall|i: int| 0 <= i < order@.len() ==> (#[trigger] order@[i]).0 < self.exe().events.bind@.len(),
    {
        proof {
            self.ready_events.lemma_seq();
        }
        let ghost exe = self.exe();
        let ghost rs = self.ready_events.seq();
        let mut out: Vec<KeyBind> = Vec::new();
        let mut i: usize = 0;
        while i < self.ready_events.len()
            invariant
                self.wf(),
                exe == self.exe(),
                rs == self.ready_events.seq(),
                rs.to_set() == self.ready(),
                no_dups(rs),
                i <= rs.len(),
                forall|k: KeyBind| #[trigger] out@.contains(k) <==> rs.take(i as int).contains(EventKey::Bind(k)),
                forall|a: int, b: int| 0 <= a < b < out@.len() ==> bind_before(exe, #[trigger] out@[a], #[trigger] out@[b]),
                forall|a: int| 0 <= a < out@.len() ==> (#[trigger] out@[a]).0 < exe.events.bind@.len(),
            decreases rs.len() - i,
        {
            let e = self.ready_events.at(i);
            proof {
                crate::execution::tables::lemma_take_one_more(rs, i as int);
            }
            match e {
                EventKey::Bind(k) => {
                    proof {
                        assert(rs.contains(e)) by {
                            assert(rs[i as int] == e);
                        }
                        assert(self.ready().contains(e));
                        assert(!out@.contains(k)) by {
                            if out@.contains(k) {
                                let j = choose|j: int| 0 <= j < i && #[trigger] rs.take(i as int)[j] == EventKey::Bind(k);
                                assert(rs[j] == rs[i as int]);
                            }
                        }
                    }
                    // the position of the first event that fires after `k`
                    let mut p: usize = 0;
                    while p < out.len() && !self.fires_before(k, out[p])
                        invariant
                            self.wf(),
                            exe == self.exe(),
                            p <= out@.len(),
                            forall|a: int| 0 <= a < p ==> !bind_before(exe, k, #[trigger] out@[a]),
                        decreases out@.len() - p,
                    {
                        p = p + 1;
                    }
                    let ghost out0 = out@;
                    out.insert(p, k);
                    proof {
                        assert(out@ == out0.insert(p as int, k));
                        assert forall|a: int, b: int| 0 <= a < b < out@.len() implies bind_before(exe, #[trigger] out@[a], #[trigger] out@[b]) by {
                            if a < p && b == p {
                                lemma_bind_before(exe, k, out0[a], k);
                                assert(out0[a] != k) by {
                                    assert(out0.contains(out0[a]));
                                }
                            } else if a == p && b > p {
                                if p < out0.len() {
                                    assert(bind_before(exe, k, out0[p as int]));
                                    if b - 1 > p {
                                        lemma_bind_before(exe, k, out0[p as int], out0[b - 1]);
                                    }
                                }
                            } else if a < p && b > p {
                                assert(bind_before(exe, out0[a], out0[b - 1]));
                            } else if a > p {
                                assert(bind_before(exe, out0[a - 1], out0[b - 1]));
                            }
                        }
                        assert forall|x: KeyBind| #[trigger] out@.contains(x) <==> rs.take(i + 1).contains(EventKey::Bind(x)) by {
                            if out@.contains(x) {
                                let j = choose|j: int| 0 <= j < out@.len() && out@[j] == x;
                                if j < p {
                                    assert(out0[j] == x);
                                    assert(out0.contains(x));
                                } else if j > p {
                                    assert(out0[j - 1] == x);
                                    assert(out0.contains(x));
                                } else {
                                    assert(rs.take(i + 1)[i as int] == EventKey::Bind(x));
                                }
                                if out0.contains(x) {
                                    assert(rs.take(i as int).contains(EventKey::Bind(x)));
                                    assert(rs.take(i as int).to_set().contains(EventKey::Bind(x)));
                                    assert(rs.take(i + 1).to_set().contains(EventKey::Bind(x)));
                                }
                            }
                            if rs.take(i + 1).contains(EventKey::Bind(x)) && x != k {
                                assert(rs.take(i + 1).to_set().contains(EventKey::Bind(x)));
                                assert(rs.take(i as int).to_set().contains(EventKey::Bind(x)));
                                assert(rs.take(i as int).contains(EventKey::Bind(x)));
                                assert(out0.contains(x));
                                let j = choose|j: int| 0 <= j < out0.len() && out0[j] == x;
                                if j < p {
                                    assert(out@[j] == x);
                                } else {
                                    assert(out@[j + 1] == x);
                                }
                            }
                            if x == k {
                                assert(out@[p as int] == x);
                            }
                        }
                        assert forall|a: int| 0 <= a < out@.len() implies (#[trigger] out@[a]).0 < exe.events.bind@.len() by {
                            if a > p {
                                assert(out@[a] == out0[a - 1]);
                            } else if a < p {
                                assert(out@[a] == out0[a]);
                            }
                        }
                    }
                },
                _ => {
                    proof {
                        assert forall|x: KeyBind| #[trigger] out@.contains(x) <==> rs.take(i + 1).contains(EventKey::Bind(x)) by {
                            if rs.take(i + 1).contains(EventKey::Bind(x)) {
                                assert(EventKey::Bind(x) != e);
                                assert(rs.take(i + 1).to_set().contains(EventKey::Bind(x)));
                                assert(rs.take(i as int).to_set().contains(EventKey::Bind(x)));
                            }
                            if out@.contains(x) {
                                assert(rs.take(i as int).to_set().contains(EventKey::Bind(x)));
                                assert(rs.take(i + 1).to_set().contains(EventKey::Bind(x)));
                            }
                        }
                    }
                },
            }
            i = i + 1;
        }
        proof {
            assert(rs.take(rs.len() as int) == rs);
            assert forall|k: KeyBind| #[trigger] out@.contains(k) <==> self.ready().contains(EventKey::Bind(k)) by {
                if self.ready().contains(EventKey::Bind(k)) {
                    assert(rs.to_set().contains(EventKey::Bind(k)));
                }
            }
        }
        out
    }

    /// The value that the bind event `b` produces, its source scope being
    /// `src`.
    fn bind_value(&self, b: &EventBind, src: KeyScope) -> (r: Result<JsonValue, RunError>)
        requires
            self.wf(),
            src == bind_scopes(b.scope).0,
            src.0 < self.scope_seq().len(),
        ensures
            match r {
                Ok(v) => bind_source(self.exe(), envs_of(self.scope_seq()), *b) == Ok::<Json, BindFault>(v@),
                Err(e) => bind_source(self.exe(), envs_of(self.scope_seq()), *b) matches Err(f) && reports(e, f),
            },
    {
        match &b.src {
            Msg::Literal(v) => Ok(v.deep_clone()),
            Msg::Bind(t) => match render(t, &self.scopes[src.0]) {
                Ok(v) => Ok(v),
                Err(e) => Err(RunError::BindError(e)),
            },
            Msg::Inject(key) => match self.executable.marshalling.value(key.as_str()) {
                Some(v) => Ok(v.deep_clone()),
                None => {
                    let msg = String::from_str("no such key: ").concat(debug_quoted(key.as_str()).as_str());
                    Err(RunError::Marshalling(msg))
                },
            },
        }
    }

    /// Fires the ready bind events, in firing order: each stops being ready;
    /// its value, produced in its source scope, is matched against its
    /// pattern in its destination scope, and the variables bound by a match
    /// are kept. Returns the events whose values matched; the first event
    /// that cannot produce its value ends it with an error: the events
    /// before it have fired, it has stopped being ready, and the events
    /// after it are still ready.
    #[verifier::rlimit(50)]
    pub fn fire_binds(&mut self) -> (r: Result<Vec<EventKey>, RunError>)
        requires
            old(self).wf(),
        ensures
            final(self).wf(),
            final(self).same_except_ready_and_scopes(*old(self)),
            exists|order: Seq<KeyBind>|
                #![trigger is_bind_order(old(self).exe(), old(self).ready(), order)]
                is_bind_order(old(self).exe(), old(self).ready(), order) && match r {
                    Ok(fired) => {
                        &&& run_binds(old(self).exe(), envs_of(old(self).scope_seq()), order) matches Ok((envs, keys))
                        &&& envs_of(final(self).scope_seq()) == envs
                        &&& fired@ == keys.map_values(|k: KeyBind| EventKey::Bind(k))
                    },
                    Err(e) => {
                        &&& run_binds(old(self).exe(), envs_of(old(self).scope_seq()), order) matches Err(f) && reports(e, f)
                        &&& exists|n: int|
                            #![trigger order.take(n)]
                            0 <= n < order.len() && failed_at(old(self).exe(), envs_of(old(self).scope_seq()), order, n, e)
                                && envs_of(final(self).scope_seq()) == run_binds(
                                old(self).exe(),
                                envs_of(old(self).scope_seq()),
                                order.take(n),
                            )->Ok_0.0 && final(self).ready() == old(self).ready().filter(
                                |x: EventKey| !(x matches EventKey::Bind(k) && order.take(n + 1).contains(k)),
                            )
                    },
                },
            r is Ok ==> final(self).ready() == old(self).ready().filter(|e: EventKey| !(e is Bind)),
            r matches Ok(fired) ==> final(self).can_release(fired@),
    {
        let order = self.ready_binds();
        let ghost s0 = *self;
        let ghost exe = self.exe();
        let ghost envs0 = envs_of(self.scope_seq());
        let exe_ref: &'a Executable = self.executable;
        let mut out: Vec<EventKey> = Vec::new();
        let ghost mut keys: Seq<KeyBind> = Seq::empty();
        let mut i: usize = 0;
        proof {
            assert(order@.take(0) =~= Seq::<KeyBind>::empty());
            assert(envs_of(self.scope_seq()) =~= envs0);
        }
        while i < order.len()
            invariant
                s0 == *old(self),
                s0.wf(),
                exe == s0.exe(),
                exe_ref == s0.executable,
                envs0 == envs_of(s0.scope_seq()),
                is_bind_order(exe, s0.ready(), order@),
                forall|j: int| 0 <= j < order@.len() ==> (#[trigger] order@[j]).0 < exe.events.bind@.len(),
                i <= order@.len(),
                self.wf(),
                self.same_except_ready_and_scopes(s0),
                self.ready() == s0.ready().filter(
                    |e: EventKey| !(e matches EventKey::Bind(k) && order@.take(i as int).contains(k)),
                ),
                run_binds(exe, envs0, order@.take(i as int)) == Ok::<(Seq<Env>, Seq<KeyBind>), BindFault>(
                    (envs_of(self.scope_seq()), keys),
                ),
                out@ == keys.map_values(|k: KeyBind| EventKey::Bind(k)),
                forall|j: int| 0 <= j < keys.len() ==> order@.take(i as int).contains(#[trigger] keys[j]),
                no_dups(out@),
            decreases order@.len() - i,
        {
            let k = order[i];
            let ghost i0 = i as int;
            let ghost si = *self;
            proof {
                assert(order@.take(i0 + 1).drop_last() =~= order@.take(i0));
                assert(order@.take(i0 + 1).last() == k);
                assert(order@.contains(k)) by {
                    assert(order@[i0] == k);
                }
            }
            self.ready_events.remove(EventKey::Bind(k));
            proof {
                self.lemma_ready_binds_removed(si, EventKey::Bind(k));
            }
            let ghost sr = *self;
            let b: &EventBind = &exe_ref.events.bind[k.0];
            let (src, dst) = match b.scope {
                BindScope::Same(sk) => (sk, sk),
                BindScope::Two { src, dst } => (src, dst),
            };
            assert(exe.scope_ok(src) && exe.scope_ok(dst)) by {
                assert(exe.events.bind@[k.0 as int] == *b);
            }
            let value = match self.bind_value(b, src) {
                Ok(v) => v,
                Err(e) => {
                    proof {
                        self.lemma_ready_binds_removed(si, EventKey::Bind(k));
                        lemma_run_binds_err(exe, envs0, order@, i0 + 1);
                        assert(envs_of(self.scope_seq()) == envs_of(si.scope_seq()));
                        assert(order@[i0] == k);
                        assert(failed_at(exe, envs0, order@, i0, e));
                        assert(self.ready() =~= s0.ready().filter(
                            |x: EventKey| !(x matches EventKey::Bind(y) && order@.take(i0 + 1).contains(y)),
                        )) by {
                            assert forall|x: KeyBind| order@.take(i0 + 1).contains(x) <==> order@.take(i0).contains(x) || x == k by {
                                if order@.take(i0 + 1).contains(x) && x != k {
                                    let j = choose|j: int| 0 <= j < i0 + 1 && #[trigger] order@.take(i0 + 1)[j] == x;
                                    assert(order@.take(i0)[j] == x);
                                }
                                if order@.take(i0).contains(x) {
                                    let j = choose|j: int| 0 <= j < i0 && #[trigger] order@.take(i0)[j] == x;
                                    assert(order@.take(i0 + 1)[j] == x);
                                }
                                if x == k {
                                    assert(order@.take(i0 + 1)[i0] == x);
                                }
                            }
                        }
                    }
                    return Err(e);
                },
            };
            let mut txn = self.scopes[dst.0].txn();
            let ghost envs_i = envs_of(si.scope_seq());
            proof {
                assert(envs_of(self.scope_seq()) == envs_i);
                assert(txn.env_with(&self.scopes@[dst.0 as int]) =~= envs_i[dst.0 as int]);
            }
            let ok = crate::bindings::bind_to_pattern(&value, &b.dst.0, &self.scopes[dst.0], &mut txn);
            let ghost envm = match_pattern(value@, b.dst.0@, envs_i[dst.0 as int]).1;
            proof {
                assert(bind_source(exe, envs_i, *b) == Ok::<Json, BindFault>(value@));
                assert(bind_step(exe, envs_i, k) == if ok {
                    Ok::<(bool, Seq<Env>), BindFault>((true, envs_i.update(dst.0 as int, envm)))
                } else {
                    Ok::<(bool, Seq<Env>), BindFault>((false, envs_i))
                });
            }
            let ghost keys0 = keys;
            if ok {
                let mut sc = self.scopes.remove(dst.0);
                let ghost sc0 = sc;
                txn.commit(&mut sc);
                proof {
                    assert(sc.actor_pairs() =~= sc0.actor_pairs());
                    assert(sc.env() == envm);
                }
                self.scopes.insert(dst.0, sc);
                proof {
                    assert(self.scopes@ =~= sr.scopes@.update(dst.0 as int, sc));
                    assert(self.same_except_ready_and_scopes(si));
                }
                out.push(EventKey::Bind(k));
                proof {
                    keys = keys.push(k);
                }
            }
            i = i + 1;
            proof {
                let scopes_now = self.scope_seq();
                assert(envs_of(scopes_now) =~= if ok {
                    envs_of(si.scope_seq()).update(dst.0 as int, scopes_now[dst.0 as int].env())
                } else {
                    envs_of(si.scope_seq())
                });
                self.lemma_ready_binds_removed(si, EventKey::Bind(k));
                assert(self.ready() =~= s0.ready().filter(
                    |e: EventKey| !(e matches EventKey::Bind(x) && order@.take(i as int).contains(x)),
                )) by {
                    assert forall|x: KeyBind| order@.take(i as int).contains(x) <==> order@.take(i0).contains(x) || x == k by {
                        if order@.take(i as int).contains(x) && x != k {
                            let j = choose|j: int| 0 <= j < i && #[trigger] order@.take(i as int)[j] == x;
                            assert(order@.take(i0)[j] == x);
                        }
                        if order@.take(i0).contains(x) {
                            let j = choose|j: int| 0 <= j < i0 && #[trigger] order@.take(i0)[j] == x;
                            assert(order@.take(i as int)[j] == x);
                        }
                        if x == k {
                            assert(order@.take(i as int)[i0] == x);
                        }
                    }
                }
                assert(out@ =~= keys.map_values(|x: KeyBind| EventKey::Bind(x)));
                assert forall|j: int| 0 <= j < keys.len() implies order@.take(i as int).contains(#[trigger] keys[j]) by {
                    if j < keys0.len() {
                        assert(order@.take(i0).contains(keys0[j]));
                        let t = choose|t: int| 0 <= t < i0 && #[trigger] order@.take(i0)[t] == keys0[j];
                        assert(order@.take(i as int)[t] == keys[j]);
                    } else {
                        assert(order@.take(i as int)[i0] == keys[j]);
                    }
                }
                if ok {
                    assert forall|a: int, c: int| 0 <= a < c < out@.len() implies out@[a] != out@[c] by {
                        if c == out@.len() - 1 {
                            assert(order@.take(i0).contains(keys0[a]));
                            let t = choose|t: int| 0 <= t < i0 && #[trigger] order@.take(i0)[t] == keys0[a];
                            assert(order@[t] == keys0[a]);
                            assert(bind_before(exe, order@[t], order@[i0]));
                        }
                    }
                }
            }
        }
        proof {
            assert(order@.take(order@.len() as int) == order@);
            assert(self.ready() =~= s0.ready().filter(|e: EventKey| !(e is Bind))) by {
                assert forall|e: EventKey| #[trigger] s0.ready().contains(e) && (e is Bind) implies order@.contains(e->Bind_0) by {
                }
            }
            assert forall|j: int| 0 <= j < out@.len() implies {
                let e = #[trigger] out@[j];
                &&& self.exe().valid_key(e)
                &&& !self.fired_set().contains(e)
                &&& !self.ready().contains(e)
                &&& !self.waiting().contains_key(e)
            } by {
                let kk = keys[j];
                assert(order@.contains(kk));
                assert(s0.ready().contains(EventKey::Bind(kk)));
            }
        }
        Ok(out)
    }
}

/// A fault among the first `n` bind events is the fault of them all.
proof fn lemma_run_binds_err(exe: Executable, envs: Seq<Env>, order: Seq<KeyBind>, n: int)
    requires
        0 <= n <= order.len(),
        run_binds(exe, envs, order.take(n)) is Err,
    ensures
        run_binds(exe, envs, order) == run_binds(exe, envs, order.take(n)),
    decreases order.len() - n,
{
    if n < order.len() {
        assert(order.take(n + 1).drop_last() =~= order.take(n));
        lemma_run_binds_err(exe, envs, order, n + 1);
    } else {
        assert(order.take(n) =~= order);
    }
}

} // verus!
