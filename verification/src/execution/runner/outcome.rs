//! Which required events were reached, and the report of a run.
use vstd::prelude::*;

use crate::execution::tables::{lemma_take_one_more, no_dups};
use crate::execution::{EventKey, EventMap, Executable, KeyScope, Report};
use crate::names::EventName;
use crate::scenario::RequiredToBe;

use crate::execution::MAX_INSTANT;

use super::{delay_entries, recv_deadlines, recv_starts, unblocked_by, Runner};

verus! {

impl Executable {
    /// The scope of the event `key` and its name, if it has one.
    pub fn event_name(&self, key: EventKey) -> (r: Option<(KeyScope, EventName)>)
        requires
            self.events.names.wf(),
        ensures
            match r {
                Some((s, n)) => {
                    &&& self.events.names.map().contains_key(key)
                    &&& self.events.names.map()[key].0 == s
                    &&& self.events.names.map()[key].1@ == n@
                },
                None => !self.events.names.map().contains_key(key),
            },
    {
        match self.events.names.get(key) {
            Some((s, n)) => Some((*s, n.duplicate())),
            None => None,
        }
    }
}

/// The entries of `m` named by `names`, in the order of `keys`.
fn named_entries(
    m: &EventMap<RequiredToBe>,
    names: &EventMap<(KeyScope, EventName)>,
) -> (r: Vec<(EventName, RequiredToBe)>)
    requires
        m.wf(),
        names.wf(),
        forall|k: EventKey| #[trigger] m.map().contains_key(k) ==> names.map().contains_key(k),
    ensures
        r@.len() == m.key_seq().len(),
        forall|i: int|
            0 <= i < r@.len() ==> {
                &&& (#[trigger] r@[i]).0@ == names.map()[m.key_seq()[i]].1@
                &&& r@[i].1 == m.map()[m.key_seq()[i]]
            },
{
    proof {
        m.lemma_keys();
    }
    let mut out: Vec<(EventName, RequiredToBe)> = Vec::new();
    let mut i: usize = 0;
    while i < m.len()
        invariant
            m.wf(),
            names.wf(),
            forall|k: EventKey| #[trigger] m.map().contains_key(k) ==> names.map().contains_key(k),
            m.key_seq().to_set() == m.map().dom(),
            i <= m.key_seq().len(),
            out@.len() == i,
            forall|j: int|
                0 <= j < i ==> {
                    &&& (#[trigger] out@[j]).0@ == names.map()[m.key_seq()[j]].1@
                    &&& out@[j].1 == m.map()[m.key_seq()[j]]
                },
        decreases m.key_seq().len() - i,
    {
        let (k, req) = m.entry_at(i);
        let (_, name) = names.get(k).unwrap();
        out.push((name.duplicate(), *req));
        i = i + 1;
    }
    out
}

impl<'a> Runner<'a> {
    /// Moves the required events among `fired` from the unreached to the
    /// reached.
    pub fn record_reached(&mut self, fired: &Vec<EventKey>)
        requires
            old(self).wf(),
        ensures
            final(self).wf(),
            final(self).same_except_outcome(*old(self)),
            final(self).ready() == old(self).ready(),
            final(self).waiting() == old(self).waiting(),
            final(self).fired_set() == old(self).fired_set(),
            final(self).delay_set() == old(self).delay_set(),
            final(self).valid_from() == old(self).valid_from(),
            final(self).valid_thru() == old(self).valid_thru(),
            final(self).scope_seq() == old(self).scope_seq(),
            final(self).actor_seq() == old(self).actor_seq(),
            final(self).request_seq() == old(self).request_seq(),
            final(self).unreached_map() == old(self).unreached_map().remove_keys(fired@.to_set()),
            final(self).reached_map() == old(self).reached_map().union_prefer_right(
                old(self).unreached_map().restrict(fired@.to_set()),
            ),
    {
        let ghost s0 = *self;
        let mut i: usize = 0;
        while i < fired.len()
            invariant
                s0.wf(),
                i <= fired@.len(),
                self.wf(),
                self.same_except_outcome(s0),
                self.unreached_map() == s0.unreached_map().remove_keys(fired@.take(i as int).to_set()),
                self.reached_map() == s0.reached_map().union_prefer_right(
                    s0.unreached_map().restrict(fired@.take(i as int).to_set()),
                ),
            decreases fired@.len() - i,
        {
            let k = fired[i];
            let ghost i0 = i as int;
            let ghost f_i = fired@.take(i0).to_set();
            let ghost u_before = self.unreached_map();
            let ghost r_before = self.reached_map();
            let ghost f_n = fired@.take(i0 + 1).to_set();
            proof {
                lemma_take_one_more(fired@, i0);
            }
            let ghost um = self.unreached.map();
            let ghost rm = self.reached.map();
            match self.unreached.remove(k) {
                Some(req) => {
                    self.reached.insert(k, req);
                    proof {
                        assert(self.unreached.map().union_prefer_right(self.reached.map()) =~= um.union_prefer_right(rm));
                        assert(self.unreached.map().dom().disjoint(self.reached.map().dom()));
                    }
                },
                None => {
                    proof {
                        assert(self.unreached.map() =~= um);
                    }
                },
            }
            i = i + 1;
            proof {
                assert(self.unreached_map() =~= s0.unreached_map().remove_keys(f_n));
                assert(self.reached_map() =~= s0.reached_map().union_prefer_right(
                    s0.unreached_map().restrict(f_n),
                ));
                assert forall|x: EventKey| #[trigger] self.unreached.map().contains_key(x) implies self.exe().valid_key(x) by {
                    assert(u_before.contains_key(x));
                }
                assert forall|x: EventKey| #[trigger] self.reached.map().contains_key(x) implies self.exe().valid_key(x) by {
                    if !r_before.contains_key(x) {
                        assert(u_before.contains_key(x));
                    }
                }
                self.lemma_outcome_wf(s0);
            }
        }
        assert(fired@.take(fired@.len() as int) == fired@);
        proof {
            self.lemma_same_except_outcome(s0);
        }
    }

    /// Whether the events of `fired` can be recorded as having happened.
    pub fn can_release_now(&self, fired: &Vec<EventKey>) -> (r: bool)
        requires
            self.wf(),
        ensures
            r == self.can_release(fired@),
    {
        let exe: &Executable = self.executable;
        let mut i: usize = 0;
        while i < fired.len()
            invariant
                self.wf(),
                *exe == self.exe(),
                i <= fired@.len(),
                forall|a: int, b: int| 0 <= a < b < fired@.len() && a < i ==> fired@[a] != fired@[b],
                forall|a: int|
                    0 <= a < i ==> {
                        let k = #[trigger] fired@[a];
                        &&& self.exe().valid_key(k)
                        &&& !self.fired_set().contains(k)
                        &&& !self.ready().contains(k)
                        &&& !self.waiting().contains_key(k)
                    },
            decreases fired@.len() - i,
        {
            let k = fired[i];
            let valid = match k {
                EventKey::Bind(b) => b.0 < exe.events.bind.len(),
                EventKey::Send(b) => b.0 < exe.events.send.len(),
                EventKey::Recv(b) => b.0 < exe.events.recv.len(),
                EventKey::Respond(b) => b.0 < exe.events.respond.len(),
                EventKey::Delay(b) => b.0 < exe.events.delay.len(),
            };
            assert(fired@[i as int] == k);
            assert(valid == self.exe().valid_key(k));
            if !valid || self.fired.contains(k) || self.ready_events.contains(k) {
                return false;
            }
            match self.key_requires_values.get(k) {
                Some(_) => {
                    assert(self.waiting().contains_key(k));
                    return false;
                },
                None => {
                    assert(!self.waiting().contains_key(k));
                },
            }
            let mut j: usize = i + 1;
            while j < fired.len()
                invariant
                    i < j <= fired@.len(),
                    k == fired@[i as int],
                    forall|b: int| i < b < j ==> fired@[b] != k,
                decreases fired@.len() - j,
            {
                if fired[j] == k {
                    return false;
                }
                j = j + 1;
            }
            i = i + 1;
        }
        true
    }

    /// Records that the events of `fired` have happened, at `now`: the
    /// events that waited for them only become ready (see
    /// [Runner::process_dependencies]); when some did happen, the required
    /// ones among them count as reached. Returns whether some did happen:
    /// when none did, the run makes no more progress.
    pub fn settle(&mut self, fired: &Vec<EventKey>, now: u128) -> (progress: bool)
        requires
            old(self).wf(),
            now <= MAX_INSTANT,
            old(self).can_release(fired@),
        ensures
            final(self).wf(),
            progress == (fired@.len() > 0),
            final(self).exe() == old(self).exe(),
            final(self).fired_set() == old(self).fired_set().union(fired@.to_set()),
            final(self).ready() == old(self).ready().union(
                unblocked_by(old(self).waiting(), fired@.to_set()),
            ),
            final(self).delay_set() == old(self).delay_set().union(
                delay_entries(&old(self).exe(), now, unblocked_by(old(self).waiting(), fired@.to_set())),
            ),
            final(self).valid_from() == recv_starts(
                &old(self).exe(),
                now,
                unblocked_by(old(self).waiting(), fired@.to_set()),
                old(self).valid_from(),
            ),
            final(self).valid_thru() == old(self).valid_thru().union(
                recv_deadlines(&old(self).exe(), now, unblocked_by(old(self).waiting(), fired@.to_set())),
            ),
            final(self).scope_seq() == old(self).scope_seq(),
            final(self).actor_seq() == old(self).actor_seq(),
            final(self).request_seq() == old(self).request_seq(),
            final(self).unreached_map() == old(self).unreached_map().remove_keys(fired@.to_set()),
            final(self).reached_map() == old(self).reached_map().union_prefer_right(
                old(self).unreached_map().restrict(fired@.to_set()),
            ),
    {
        let ghost s0 = *self;
        self.process_dependencies(fired, now);
        proof {
            self.lemma_same_bindings(s0);
        }
        if fired.len() == 0 {
            proof {
                assert(fired@.to_set() =~= Set::<EventKey>::empty());
                assert(s0.unreached_map().remove_keys(fired@.to_set()) =~= s0.unreached_map());
                assert(s0.reached_map().union_prefer_right(s0.unreached_map().restrict(fired@.to_set())) =~= s0.reached_map());
            }
            return false;
        }
        self.record_reached(fired);
        true
    }

    /// The report of the run so far: the required events, reached or not,
    /// each by its name.
    pub fn finish(&self) -> (r: Report)
        requires
            self.wf(),
        ensures
            no_dups(self.reached_keys()),
            self.reached_keys().to_set() == self.reached_map().dom(),
            no_dups(self.unreached_keys()),
            self.unreached_keys().to_set() == self.unreached_map().dom(),
            r.reached@.len() == self.reached_keys().len(),
            forall|i: int|
                0 <= i < r.reached@.len() ==> {
                    &&& (#[trigger] r.reached@[i]).0@ == self.exe().events.names.map()[self.reached_keys()[i]].1@
                    &&& r.reached@[i].1 == self.reached_map()[self.reached_keys()[i]]
                },
            r.unreached@.len() == self.unreached_keys().len(),
            forall|i: int|
                0 <= i < r.unreached@.len() ==> {
                    &&& (#[trigger] r.unreached@[i]).0@ == self.exe().events.names.map()[self.unreached_keys()[i]].1@
                    &&& r.unreached@[i].1 == self.unreached_map()[self.unreached_keys()[i]]
                },
    {
        proof {
            self.reached.lemma_keys();
            self.unreached.lemma_keys();
        }
        let reached = named_entries(&self.reached, &self.executable.events.names);
        let unreached = named_entries(&self.unreached, &self.executable.events.names);
        Report { reached, unreached }
    }
}

} // verus!
