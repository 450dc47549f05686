//! What happens when events have fired: the events that wait for them are
//! released.
use vstd::prelude::*;

use crate::execution::tables::no_dups;
use crate::execution::{EventKey, EventSet, Executable, KeyRecv, MAX_INSTANT};

use super::{
    delay_entries, recv_deadlines, recv_starts, unblocked_by, Runner,
};

verus! {

/// The events of `s` that wait for `p` only, in `waiting`.
spec fn released_among(waiting: Map<EventKey, Set<EventKey>>, p: EventKey, s: Seq<EventKey>) -> Set<
    EventKey,
> {
    Set::new(|x: EventKey| s.contains(x) && waiting[x].subset_of(set![p]))
}

impl<'a> Runner<'a> {
    /// Records that `p` has happened at `now`: it stops being a prerequisite
    /// of the events it unblocks, and those that waited for `p` only become
    /// ready.
    #[verifier::rlimit(50)]
    fn release(&mut self, p: EventKey, now: u128)
        requires
            old(self).wf(),
            now <= MAX_INSTANT,
            old(self).exe().valid_key(p),
            !old(self).fired_set().contains(p),
            !old(self).ready().contains(p),
            !old(self).waiting().contains_key(p),
        ensures
            final(self).wf(),
            final(self).same_bindings(*old(self)),
            final(self).fired_set() == old(self).fired_set().insert(p),
            final(self).ready() == old(self).ready().union(
                unblocked_by(old(self).waiting(), set![p]),
            ),
            final(self).delay_set() == old(self).delay_set().union(
                delay_entries(&old(self).exe(), now, unblocked_by(old(self).waiting(), set![p])),
            ),
            final(self).valid_from() == recv_starts(
                &old(self).exe(),
                now,
                unblocked_by(old(self).waiting(), set![p]),
                old(self).valid_from(),
            ),
            final(self).valid_thru() == old(self).valid_thru().union(
                recv_deadlines(&old(self).exe(), now, unblocked_by(old(self).waiting(), set![p])),
            ),
    {
        let ghost s0 = *self;
        let ghost w0 = self.waiting();
        let ghost r0 = self.ready();
        let exe: &'a Executable = self.executable;
        let empty = EventSet::new();
        let deps = match exe.events.key_unblocks_values.get(p) {
            Some(deps) => deps,
            None => &empty,
        };
        proof {
            deps.lemma_seq();
            assert(deps.set() == exe.unblocks(p));
        }
        let ghost dseq = deps.seq();
        proof {
            assert forall|x: EventKey| dseq.contains(x) implies w0.contains_key(x) && w0[x].contains(
                p,
            ) by {
                assert(dseq.to_set().contains(x));
                assert(exe.unblocks(p).contains(x));
            }
            assert(self.ready() =~= r0.union(released_among(w0, p, dseq.take(0))));
            assert(delay_entries(exe, now, released_among(w0, p, dseq.take(0))) =~= Set::empty());
            assert(recv_deadlines(exe, now, released_among(w0, p, dseq.take(0))) =~= Set::empty());
            assert(self.delay_set() =~= self.delay_set().union(delay_entries(exe, now, released_among(w0, p, dseq.take(0)))));
            assert(self.valid_thru() =~= self.valid_thru().union(recv_deadlines(exe, now, released_among(w0, p, dseq.take(0)))));
            assert(self.valid_from() =~= recv_starts(exe, now, released_among(w0, p, dseq.take(0)), self.valid_from()));
        }
        let mut j: usize = 0;
        while j < deps.len()
            invariant
                s0.wf(),
                w0 == s0.waiting(),
                r0 == s0.ready(),
                exe == s0.executable,
                now <= MAX_INSTANT,
                s0.exe().valid_key(p),
                !s0.fired.set().contains(p),
                !r0.contains(p),
                !w0.contains_key(p),
                dseq == deps.seq(),
                no_dups(dseq),
                dseq.to_set() == exe.unblocks(p),
                forall|x: EventKey| dseq.contains(x) ==> w0.contains_key(x) && w0[x].contains(p),
                j <= dseq.len(),
                self.executable == s0.executable,
                self.same_bindings(s0),
                self.fired == s0.fired,
                self.ready_events.wf(),
                self.key_requires_values.wf(),
                forall|k: EventKey| #[trigger]
                    self.key_requires_values.map().contains_key(k)
                        ==> self.key_requires_values.map()[k].wf(),
                self.delays.wf(),
                self.receives.wf(),
                self.receives.valid_from@.len() == exe.events.recv@.len(),
                self.ready() == r0.union(released_among(w0, p, dseq.take(j as int))),
                forall|x: EventKey| #[trigger]
                    self.waiting().contains_key(x) <==> w0.contains_key(x) && !released_among(w0, p, dseq.take(j as int)).contains(x),
                forall|x: EventKey| #[trigger]
                    self.waiting().contains_key(x) ==> self.waiting()[x] == if dseq.take(
                        j as int,
                    ).contains(x) {
                        w0[x].remove(p)
                    } else {
                        w0[x]
                    },
                self.delay_set() == s0.delay_set().union(delay_entries(exe, now, released_among(w0, p, dseq.take(j as int)))),
                self.valid_from() == recv_starts(exe, now, released_among(w0, p, dseq.take(j as int)), s0.valid_from()),
                self.valid_thru() == s0.valid_thru().union(recv_deadlines(exe, now, released_among(w0, p, dseq.take(j as int)))),
                forall|e: (u128, crate::execution::KeyDelay, u128)| #[trigger]
                    self.delays.set().contains(e) ==> self.ready().contains(EventKey::Delay(e.1)),
                forall|e: (u128, KeyRecv)| #[trigger]
                    self.receives.thru_set().contains(e) ==> self.ready().contains(
                        EventKey::Recv(e.1),
                    ),
            decreases dseq.len() - j,
        {
            let d = deps.at(j);
            let ghost j0 = j as int;
            let ghost pre = dseq.take(j0);
            assert(dseq.take(j0 + 1) == pre.push(d));
            assert(!pre.contains(d)) by {
                if pre.contains(d) {
                    let i = choose|i: int| 0 <= i < pre.len() && #[trigger] pre[i] == d;
                    assert(dseq[i] == dseq[j0]);
                }
            }
            assert(dseq.contains(d)) by {
                assert(dseq[j0] == d);
            }
            assert(w0.contains_key(d) && w0[d].contains(p));
            assert(!released_among(w0, p, dseq.take(j0)).contains(d));
            assert(self.waiting().contains_key(d));
            assert(self.waiting()[d] == w0[d]);
            let ghost w_before = self.waiting();
            let ghost ready_before = self.ready();
            let s_opt = self.key_requires_values.remove(d);
            let mut s = s_opt.unwrap();
            assert(s.set() == w0[d]);
            s.remove(p);
            proof {
                s.lemma_seq();
            }
            let ghost released = w0[d].subset_of(set![p]);
            proof {
                if released {
                    assert(s.set() =~= Set::<EventKey>::empty());
                } else {
                    let q = choose|q: EventKey| w0[d].contains(q) && !set![p].contains(q);
                    assert(s.set().contains(q));
                }
            }
            assert forall|x: EventKey| #[trigger] dseq.take(j0 + 1).contains(x) <==> pre.contains(
                x,
            ) || x == d by {
                if dseq.take(j0 + 1).contains(x) && x != d {
                    let i = choose|i: int| 0 <= i < j0 + 1 && #[trigger] dseq.take(j0 + 1)[i] == x;
                    assert(pre[i] == x);
                }
                if pre.contains(x) {
                    let i = choose|i: int| 0 <= i < j0 && #[trigger] pre[i] == x;
                    assert(dseq.take(j0 + 1)[i] == x);
                }
                if x == d {
                    assert(dseq.take(j0 + 1)[j0] == x);
                }
            }
            assert(released_among(w0, p, dseq.take(j0 + 1)) =~= if released {
                released_among(w0, p, dseq.take(j0)).insert(d)
            } else {
                released_among(w0, p, dseq.take(j0))
            }) by {
                assert forall|x: EventKey| #[trigger] dseq.take(j0 + 1).contains(x) <==> pre.contains(
                    x,
                ) || x == d by {
                    if dseq.take(j0 + 1).contains(x) && x != d {
                        let i = choose|i: int| 0 <= i < j0 + 1 && #[trigger] dseq.take(j0 + 1)[i] == x;
                        assert(pre[i] == x);
                    }
                    if pre.contains(x) {
                        let i = choose|i: int| 0 <= i < j0 && #[trigger] pre[i] == x;
                        assert(dseq.take(j0 + 1)[i] == x);
                    }
                    if x == d {
                        assert(dseq.take(j0 + 1)[j0] == x);
                    }
                }
            }
            if s.len() == 0 {
                assert(released);
                self.ready_events.insert(d);
                match d {
                    EventKey::Delay(k) => {
                        let ev = &exe.events.delay[k.0];
                        proof {
                            if self.delays.has_key(k) {
                                let (dd, st) = choose|dd: u128, st: u128|
                                    self.delays.set().contains((dd, k, st));
                                assert(ready_before.contains(EventKey::Delay(k)));
                            }
                        }
                        self.delays.insert(now, k, ev.delay_for, ev.delay_step);
                    },
                    EventKey::Recv(k) => {
                        let ev = &exe.events.recv[k.0];
                        proof {
                            if self.receives.has_deadline(k) {
                                let dd = choose|dd: u128| self.receives.thru_set().contains((dd, k));
                                assert(ready_before.contains(EventKey::Recv(k)));
                            }
                        }
                        self.receives.insert(now, k, ev.after_duration, ev.before_duration);
                    },
                    _ => {},
                }
                proof {
                    let u1 = released_among(w0, p, dseq.take(j0 + 1));
                    let u0 = released_among(w0, p, dseq.take(j0));
                    assert forall|i: int| 0 <= i < self.valid_from().len() implies self.valid_from()[i]
                        == recv_starts(exe, now, u1, s0.valid_from())[i] by {
                        match d {
                            EventKey::Recv(k) => {
                                assert(exe.events.recv@.len() == exe.events.recv.len());
                                if i != k.0 {
                                    assert(KeyRecv(i as usize) != k);
                                    assert(u1.contains(EventKey::Recv(KeyRecv(i as usize)))
                                        == u0.contains(EventKey::Recv(KeyRecv(i as usize))));
                                }
                            },
                            _ => {
                                assert(u1.contains(EventKey::Recv(KeyRecv(i as usize)))
                                    == u0.contains(EventKey::Recv(KeyRecv(i as usize))));
                            },
                        }
                    }
                    assert(self.ready() =~= r0.union(released_among(w0, p, dseq.take(j0 + 1))));
                    assert(self.delay_set() =~= s0.delay_set().union(
                        delay_entries(exe, now, released_among(w0, p, dseq.take(j0 + 1))),
                    ));
                    assert(self.valid_from() =~= recv_starts(exe, now, released_among(w0, p, dseq.take(j0 + 1)), s0.valid_from()));
                    assert(self.valid_thru() =~= s0.valid_thru().union(
                        recv_deadlines(exe, now, released_among(w0, p, dseq.take(j0 + 1))),
                    ));
                }
            } else {
                assert(!released);
                self.key_requires_values.insert(d, s);
                proof {
                    assert(self.ready() =~= r0.union(released_among(w0, p, dseq.take(j0 + 1))));
                    assert(delay_entries(exe, now, released_among(w0, p, dseq.take(j0 + 1))) == delay_entries(exe, now, released_among(w0, p, dseq.take(j0))));
                    assert(recv_deadlines(exe, now, released_among(w0, p, dseq.take(j0 + 1))) == recv_deadlines(exe, now, released_among(w0, p, dseq.take(j0))));
                    assert(recv_starts(exe, now, released_among(w0, p, dseq.take(j0 + 1)), s0.valid_from()) == recv_starts(
                        exe,
                        now,
                        released_among(w0, p, dseq.take(j0)),
                        s0.valid_from(),
                    ));
                }
            }
            j = j + 1;
            proof {
                assert forall|x: EventKey| #[trigger]
                    self.waiting().contains_key(x) <==> w0.contains_key(x) && !released_among(w0, p, dseq.take(j as int)).contains(
                        x,
                    ) by {
                    if x != d {
                        assert(self.waiting().contains_key(x) == w_before.contains_key(x));
                    }
                }
                assert forall|x: EventKey| #[trigger]
                    self.waiting().contains_key(x) implies self.waiting()[x] == if dseq.take(
                        j as int,
                    ).contains(x) {
                        w0[x].remove(p)
                    } else {
                        w0[x]
                    } by {
                    if x != d {
                        assert(w_before.contains_key(x));
                        assert(self.waiting()[x] == w_before[x]);
                    }
                }
            }
        }
        proof {
            assert(dseq.take(dseq.len() as int) == dseq);
        }
        let ghost w_end = self.waiting();
        self.fired.insert(p);
        proof {
            assert(self.waiting() == w_end);
            let ub = unblocked_by(w0, set![p]);
            assert(released_among(w0, p, dseq.take(dseq.len() as int)) =~= ub) by {
                assert forall|x: EventKey| ub.contains(x) implies dseq.contains(x) by {
                    assert(!w0[x].is_empty()) by {
                        assert(s0.waiting().contains_key(x));
                    }
                    let q = choose|q: EventKey| w0[x].contains(q);
                    assert(q == p);
                    assert(s0.waiting()[x].contains(p));
                    assert(exe.unblocks(p).contains(x));
                    assert(dseq.to_set().contains(x));
                }
            }
            assert forall|x: EventKey| #[trigger] w0.contains_key(x) implies w0[x].remove(p) == w0[x]
                || dseq.contains(x) by {
                if w0[x].contains(p) {
                    assert(s0.waiting()[x].contains(p));
                    assert(exe.unblocks(p).contains(x));
                    assert(dseq.to_set().contains(x));
                } else {
                    assert(w0[x].remove(p) =~= w0[x]);
                }
            }
            assert forall|x: EventKey, q: EventKey|
                (#[trigger] self.waiting().contains_key(x) && self.waiting()[x].contains(q)) <==> (
                #[trigger] exe.unblocks(q).contains(x) && !self.fired.set().contains(q)) by {
                s0.lemma_waiting(x, q);
                if exe.unblocks(q).contains(x) && !self.fired.set().contains(q) {
                    assert(s0.waiting().contains_key(x) && s0.waiting()[x].contains(q));
                    assert(q != p);
                    assert(w0[x].contains(q) && !set![p].contains(q));
                    assert(!w0[x].subset_of(set![p]));
                    assert(!ub.contains(x));
                    assert(!released_among(w0, p, dseq.take(dseq.len() as int)).contains(x));
                    assert(self.waiting().contains_key(x));
                    if dseq.take(dseq.len() as int).contains(x) {
                        assert(self.waiting()[x] == w0[x].remove(p));
                    } else {
                        assert(self.waiting()[x] == w0[x]);
                    }
                    assert(self.waiting()[x].contains(q));
                    if dseq.contains(x) {
                        assert(dseq.take(dseq.len() as int).contains(x));
                    }
                }
                if self.waiting().contains_key(x) && self.waiting()[x].contains(q) {
                    assert(w0.contains_key(x));
                    if dseq.contains(x) {
                        assert(dseq.take(dseq.len() as int).contains(x));
                    }
                    assert(w0[x].contains(q));
                    assert(q != p);
                }
            }
            assert forall|x: EventKey| #[trigger] self.waiting().contains_key(x) implies !self.waiting()[
                x
            ].is_empty() by {
                assert(!ub.contains(x));
                assert(!w0[x].subset_of(set![p]));
                let q = choose|q: EventKey| w0[x].contains(q) && !set![p].contains(q);
                if dseq.contains(x) {
                    assert(dseq.take(dseq.len() as int).contains(x));
                }
                assert(self.waiting()[x].contains(q));
            }
            assert forall|k: EventKey| #[trigger] self.ready().contains(k) implies !self.fired.set().contains(
                k,
            ) && !self.waiting().contains_key(k) && exe.valid_key(k) by {
                if ub.contains(k) {
                    assert(s0.waiting().contains_key(k));
                }
            }
            assert forall|x: EventKey| #[trigger] self.waiting().contains_key(x) implies !self.fired.set().contains(
                x,
            ) && exe.valid_key(x) by {
                assert(s0.waiting().contains_key(x));
            }
        }
    }

    /// Records that the events of `fired` have happened, at `now`: the events
    /// that waited for them only become ready, with their windows opened at
    /// `now`. The events of `fired` are those that the runner just fired
    /// (see [Runner::can_release]): each is taken out of the ready events
    /// when it fires, so none is ready, waiting or fired before; the
    /// functions that fire events say so of what they return, and
    /// [Runner::can_release_now] tests it.
    #[verifier::rlimit(50)]
    pub fn process_dependencies(&mut self, fired: &Vec<EventKey>, now: u128)
        requires
            old(self).wf(),
            now <= MAX_INSTANT,
            old(self).can_release(fired@),
        ensures
            final(self).wf(),
            final(self).same_bindings(*old(self)),
            final(self).fired_set() == old(self).fired_set().union(fired@.to_set()),
            final(self).ready() == old(self).ready().union(
                unblocked_by(old(self).waiting(), fired@.to_set()),
            ),
            final(self).delay_set() == old(self).delay_set().union(
                delay_entries(&old(self).exe(), now, unblocked_by(old(self).waiting(), fired@.to_set())),
            ),
            final(self).valid_from() == recv_starts(
                &old(self).exe(),
                now,
                unblocked_by(old(self).waiting(), fired@.to_set()),
                old(self).valid_from(),
            ),
            final(self).valid_thru() == old(self).valid_thru().union(
                recv_deadlines(&old(self).exe(), now, unblocked_by(old(self).waiting(), fired@.to_set())),
            ),
    {
        let ghost s0 = *self;
        let ghost w0 = self.waiting();
        let ghost exe = self.exe();
        proof {
            let f0 = fired@.take(0).to_set();
            assert(f0 =~= Set::<EventKey>::empty());
            assert(unblocked_by(w0, f0) =~= Set::<EventKey>::empty()) by {
                assert forall|x: EventKey| !unblocked_by(w0, f0).contains(x) by {
                    if w0.contains_key(x) {
                        assert(!s0.waiting()[x].is_empty());
                        let q = choose|q: EventKey| w0[x].contains(q);
                        assert(!f0.contains(q));
                    }
                }
            }
            assert(self.fired_set() =~= s0.fired_set().union(f0));
            assert(self.ready() =~= s0.ready().union(unblocked_by(w0, f0)));
            assert(self.delay_set() =~= s0.delay_set().union(delay_entries(&exe, now, unblocked_by(w0, f0))));
            assert(self.valid_thru() =~= s0.valid_thru().union(recv_deadlines(&exe, now, unblocked_by(w0, f0))));
            assert(self.valid_from() =~= recv_starts(&exe, now, unblocked_by(w0, f0), s0.valid_from()));
        }
        let mut i: usize = 0;
        while i < fired.len()
            invariant
                s0.wf(),
                w0 == s0.waiting(),
                exe == s0.exe(),
                now <= MAX_INSTANT,
                no_dups(fired@),
                i <= fired@.len(),
                self.wf(),
                self.same_bindings(s0),
                self.exe() == exe,
                self.fired_set() == s0.fired_set().union(fired@.take(i as int).to_set()),
                self.ready() == s0.ready().union(unblocked_by(w0, fired@.take(i as int).to_set())),
                self.delay_set() == s0.delay_set().union(
                    delay_entries(&exe, now, unblocked_by(w0, fired@.take(i as int).to_set())),
                ),
                self.valid_from() == recv_starts(
                    &exe,
                    now,
                    unblocked_by(w0, fired@.take(i as int).to_set()),
                    s0.valid_from(),
                ),
                self.valid_thru() == s0.valid_thru().union(
                    recv_deadlines(&exe, now, unblocked_by(w0, fired@.take(i as int).to_set())),
                ),
                forall|j: int|
                    i <= j < fired@.len() ==> {
                        let k = #[trigger] fired@[j];
                        &&& exe.valid_key(k)
                        &&& !self.fired_set().contains(k)
                        &&& !self.ready().contains(k)
                        &&& !self.waiting().contains_key(k)
                    },
            decreases fired@.len() - i,
        {
            let p = fired[i];
            let ghost i0 = i as int;
            let ghost si = *self;
            let ghost wi = self.waiting();
            let ghost f_i = fired@.take(i0).to_set();
            let ghost f_n = fired@.take(i0 + 1).to_set();
            proof {
                assert(fired@.take(i0 + 1) == fired@.take(i0).push(p));
                assert(f_n =~= f_i.insert(p)) by {
                    assert forall|x: EventKey| fired@.take(i0).push(p).contains(x) <==> fired@.take(i0).contains(x) || x == p by {
                        if fired@.take(i0).contains(x) {
                            let j = choose|j: int| 0 <= j < i0 && #[trigger] fired@.take(i0)[j] == x;
                            assert(fired@.take(i0).push(p)[j] == x);
                        }
                        if x == p {
                            assert(fired@.take(i0).push(p)[i0] == x);
                        }
                    }
                }
            }
            self.release(p, now);
            i = i + 1;
            proof {
                let u_i = unblocked_by(w0, f_i);
                let u_n = unblocked_by(w0, f_n);
                let step = unblocked_by(wi, set![p]);
                assert forall|x: EventKey, q: EventKey| #![trigger wi[x].contains(q)] #![trigger w0[x].contains(q)] wi.contains_key(x) && wi[x].contains(q) <==> (w0.contains_key(x) && w0[x].contains(q) && !f_i.contains(q)) by {
                    si.lemma_waiting(x, q);
                    s0.lemma_waiting(x, q);
                }
                assert(u_i.union(step) =~= u_n) by {
                    assert forall|x: EventKey| u_i.union(step).contains(x) <==> u_n.contains(x) by {
                        if step.contains(x) {
                            assert(!si.waiting()[x].is_empty());
                            let q = choose|q: EventKey| wi[x].contains(q);
                            assert(w0.contains_key(x));
                            assert forall|r: EventKey| w0[x].contains(r) implies f_n.contains(r) by {
                                if !f_i.contains(r) {
                                    assert(wi[x].contains(r));
                                }
                            }
                        }
                        if u_i.contains(x) {
                            assert forall|r: EventKey| w0[x].contains(r) implies f_n.contains(r) by {}
                        }
                        if u_n.contains(x) && !u_i.contains(x) {
                            let r = choose|r: EventKey| w0[x].contains(r) && !f_i.contains(r);
                            assert(r == p);
                            assert(wi.contains_key(x) && wi[x].contains(p));
                            assert forall|t: EventKey| wi[x].contains(t) implies set![p].contains(t) by {
                                assert(w0[x].contains(t) && !f_i.contains(t));
                            }
                        }
                    }
                }
                assert(self.fired_set() =~= s0.fired_set().union(f_n));
                assert(self.ready() =~= s0.ready().union(u_n));
                assert(self.delay_set() =~= s0.delay_set().union(delay_entries(&exe, now, u_n)));
                assert(self.valid_thru() =~= s0.valid_thru().union(recv_deadlines(&exe, now, u_n)));
                assert(self.valid_from() =~= recv_starts(&exe, now, u_n, s0.valid_from()));
                assert forall|j: int| i <= j < fired@.len() implies {
                    let k = #[trigger] fired@[j];
                    &&& exe.valid_key(k)
                    &&& !self.fired_set().contains(k)
                    &&& !self.ready().contains(k)
                    &&& !self.waiting().contains_key(k)
                } by {
                    let k = fired@[j];
                    assert(fired@[j] != fired@[i0]);
                    assert(!si.waiting().contains_key(k));
                    if self.waiting().contains_key(k) {
                        assert(!self.waiting()[k].is_empty());
                        let q = choose|q: EventKey| self.waiting()[k].contains(q);
                        self.lemma_waiting(k, q);
                        si.lemma_waiting(k, q);
                    }
                }
            }
        }
        proof {
            assert(fired@.take(fired@.len() as int) == fired@);
        }
    }
}

} // verus!
