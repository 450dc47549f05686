//! Time: receive windows that close, delays that expire, and how long the
//! runner may sleep.
use vstd::prelude::*;

use crate::execution::tables::no_dups;
use crate::execution::{EventKey, KeyDelay, KeyRecv, MAX_DURATION, MAX_INSTANT};

use super::{Delays, Runner};

verus! {

/// The receive events whose deadline in `thru` is before `now`.
pub open spec fn timed_out(thru: Set<(u128, KeyRecv)>, now: u128) -> Set<KeyRecv> {
    Set::new(|k: KeyRecv| exists|d: u128| d < now && #[trigger] thru.contains((d, k)))
}

/// The delays of `delays` that are due before `now`.
pub open spec fn expired(delays: Set<(u128, KeyDelay, u128)>, now: u128) -> Set<KeyDelay> {
    Set::new(|k: KeyDelay| exists|d: u128, s: u128| d < now && #[trigger] delays.contains((d, k, s)))
}

/// `until` is the instant up to which the runner sleeps at `now` with the
/// pending delays `pending`: the earliest of their deadlines and of `now`
/// plus their steps; `now` when none is pending.
pub open spec fn sleeps_until(pending: Set<(u128, KeyDelay, u128)>, now: u128, until: u128) -> bool {
    if pending.is_empty() {
        until == now
    } else {
        &&& forall|e: (u128, KeyDelay, u128)| #[trigger] pending.contains(e) ==> until <= e.0 && until <= now + e.2
        &&& exists|e: (u128, KeyDelay, u128)| #[trigger] pending.contains(e) && (until == e.0 || until == now + e.2)
    }
}

/// Whether the delay `a`, a deadline with a key, falls due before `b`: by
/// deadline, then by key.
pub open spec fn due_before(a: (u128, KeyDelay), b: (u128, KeyDelay)) -> bool {
    a.0 < b.0 || (a.0 == b.0 && a.1.0 < b.1.0)
}

/// `ks` lists delays of `pending` in the order in which they fall due.
pub open spec fn in_due_order(pending: Set<(u128, KeyDelay, u128)>, ks: Seq<KeyDelay>) -> bool {
    forall|i: int, j: int, di: u128, si: u128, dj: u128, sj: u128|
        #![trigger pending.contains((di, ks[i], si)), pending.contains((dj, ks[j], sj))]
        0 <= i && i < j && j < ks.len() && pending.contains((di, ks[i], si)) && pending.contains((dj, ks[j], sj))
            ==> due_before((di, ks[i]), (dj, ks[j]))
}

/// Keys taken in order from delays that fall due in order are in due order.
proof fn lemma_due_order(pending: Set<(u128, KeyDelay, u128)>, pairs: Seq<(u128, KeyDelay)>, ks: Seq<KeyDelay>)
    requires
        ks.len() == pairs.len(),
        forall|a: int| 0 <= a < ks.len() ==> #[trigger] ks[a] == pairs[a].1,
        forall|a: int, d: u128, s: u128| #![trigger pairs[a], pending.contains((d, pairs[a].1, s))]
            0 <= a < pairs.len() && pending.contains((d, pairs[a].1, s)) ==> d == pairs[a].0,
        forall|a: int, b: int| 0 <= a < b < pairs.len() ==> due_before(pairs[a], pairs[b]),
    ensures
        in_due_order(pending, ks),
{
    assert forall|i: int, j: int, di: u128, si: u128, dj: u128, sj: u128|
        #![trigger pending.contains((di, ks[i], si)), pending.contains((dj, ks[j], sj))]
        0 <= i && i < j && j < ks.len() && pending.contains((di, ks[i], si)) && pending.contains((dj, ks[j], sj))
            implies due_before((di, ks[i]), (dj, ks[j])) by {
        assert(ks[i] == pairs[i].1 && ks[j] == pairs[j].1);
        assert(di == pairs[i].0);
        assert(dj == pairs[j].0);
        assert(due_before(pairs[i], pairs[j]));
    }
}

fn falls_due_before(a: (u128, KeyDelay), b: (u128, KeyDelay)) -> (r: bool)
    ensures
        r == due_before(a, b),
{
    a.0 < b.0 || (a.0 == b.0 && a.1.0 < b.1.0)
}

/// The delays of `entries` due before `now`, with their deadlines, in the
/// order in which they fall due.
fn expired_in_order(entries: &Vec<(u128, KeyDelay, u128)>, now: u128) -> (r: Vec<(u128, KeyDelay)>)
    requires
        forall|a: int, b: int| 0 <= a < b < entries@.len() ==> entries@[a].1 != entries@[b].1,
    ensures
        forall|x: (u128, KeyDelay)| #[trigger] r@.contains(x) <==> exists|s: u128| x.0 < now && #[trigger] entries@.contains((x.0, x.1, s)),
        forall|a: int, b: int| 0 <= a < b < r@.len() ==> due_before(r@[a], r@[b]),
{
    let mut out: Vec<(u128, KeyDelay)> = Vec::new();
    let mut i: usize = 0;
    while i < entries.len()
        invariant
            i <= entries@.len(),
            forall|a: int, b: int| 0 <= a < b < entries@.len() ==> entries@[a].1 != entries@[b].1,
            forall|x: (u128, KeyDelay)| #[trigger] out@.contains(x) <==> exists|s: u128| x.0 < now && #[trigger] entries@.take(i as int).contains((x.0, x.1, s)),
            forall|a: int, b: int| 0 <= a < b < out@.len() ==> due_before(out@[a], out@[b]),
        decreases entries@.len() - i,
    {
        let e = entries[i];
        let ghost out0 = out@;
        proof {
            assert(entries@.take(i + 1) == entries@.take(i as int).push(e));
        }
        if e.0 < now {
            let x = (e.0, e.1);
            let mut p: usize = 0;
            while p < out.len() && falls_due_before(out[p], x)
                invariant
                    p <= out@.len(),
                    out@ == out0,
                    forall|a: int| 0 <= a < p ==> due_before(#[trigger] out@[a], x),
                decreases out@.len() - p,
            {
                p = p + 1;
            }
            out.insert(p, x);
            proof {
                // the delays before `i` have other keys than `e`
                assert forall|a: int| 0 <= a < out0.len() implies (#[trigger] out0[a]).1 != x.1 by {
                    assert(out0.contains(out0[a]));
                    let s = choose|s: u128| out0[a].0 < now && #[trigger] entries@.take(i as int).contains((out0[a].0, out0[a].1, s));
                    let j = choose|j: int| 0 <= j < i && #[trigger] entries@.take(i as int)[j] == (out0[a].0, out0[a].1, s);
                    assert(entries@[j].1 != entries@[i as int].1);
                }
                assert(out@ == out0.insert(p as int, x));
                assert forall|a: int, b: int| 0 <= a < b < out@.len() implies due_before(out@[a], out@[b]) by {
                    if a < p && b == p {
                    } else if a == p && b > p {
                        assert(!due_before(out0[p as int], x));
                        assert(out0[p as int].1 != x.1);
                        if b - 1 > p {
                            assert(due_before(out0[p as int], out0[b - 1]));
                        }
                    } else if a < p && b > p {
                        assert(due_before(out0[a], out0[b - 1]));
                    } else if a > p {
                        assert(due_before(out0[a - 1], out0[b - 1]));
                    }
                }
                assert forall|y: (u128, KeyDelay)| #[trigger] out@.contains(y) <==> exists|s: u128| y.0 < now && #[trigger] entries@.take(i + 1).contains((y.0, y.1, s)) by {
                    if out@.contains(y) {
                        let j = choose|j: int| 0 <= j < out@.len() && out@[j] == y;
                        if j < p {
                            assert(out0[j] == y);
                            assert(out0.contains(y));
                        } else if j > p {
                            assert(out0[j - 1] == y);
                            assert(out0.contains(y));
                        } else {
                            assert(entries@.take(i + 1)[i as int] == (y.0, y.1, e.2));
                            assert(entries@.take(i + 1).contains((y.0, y.1, e.2)));
                        }
                        if out0.contains(y) {
                            let s = choose|s: u128| y.0 < now && #[trigger] entries@.take(i as int).contains((y.0, y.1, s));
                            let t = choose|t: int| 0 <= t < i && #[trigger] entries@.take(i as int)[t] == (y.0, y.1, s);
                            assert(entries@.take(i + 1)[t] == (y.0, y.1, s));
                            assert(entries@.take(i + 1).contains((y.0, y.1, s)));
                        }
                    }
                    if exists|s: u128| y.0 < now && #[trigger] entries@.take(i + 1).contains((y.0, y.1, s)) {
                        let s = choose|s: u128| y.0 < now && #[trigger] entries@.take(i + 1).contains((y.0, y.1, s));
                        let t = choose|t: int| 0 <= t < i + 1 && #[trigger] entries@.take(i + 1)[t] == (y.0, y.1, s);
                        if t == i {
                            assert(y == x);
                            assert(out@[p as int] == y);
                        } else {
                            assert(entries@.take(i as int)[t] == (y.0, y.1, s));
                            assert(entries@.take(i as int).contains((y.0, y.1, s)));
                            assert(out0.contains(y));
                            let a = choose|a: int| 0 <= a < out0.len() && out0[a] == y;
                            if a < p {
                                assert(out@[a] == y);
                            } else {
                                assert(out@[a + 1] == y);
                            }
                        }
                    }
                }
            }
        } else {
            proof {
                assert forall|y: (u128, KeyDelay)| #[trigger] out@.contains(y) <==> exists|s: u128| y.0 < now && #[trigger] entries@.take(i + 1).contains((y.0, y.1, s)) by {
                    if out@.contains(y) {
                        let s = choose|s: u128| y.0 < now && #[trigger] entries@.take(i as int).contains((y.0, y.1, s));
                        let t = choose|t: int| 0 <= t < i && #[trigger] entries@.take(i as int)[t] == (y.0, y.1, s);
                        assert(entries@.take(i + 1)[t] == (y.0, y.1, s));
                        assert(entries@.take(i + 1).contains((y.0, y.1, s)));
                    }
                    if exists|s: u128| y.0 < now && #[trigger] entries@.take(i + 1).contains((y.0, y.1, s)) {
                        let s = choose|s: u128| y.0 < now && #[trigger] entries@.take(i + 1).contains((y.0, y.1, s));
                        let t = choose|t: int| 0 <= t < i + 1 && #[trigger] entries@.take(i + 1)[t] == (y.0, y.1, s);
                        assert(t != i);
                        assert(entries@.take(i as int)[t] == (y.0, y.1, s));
                        assert(entries@.take(i as int).contains((y.0, y.1, s)));
                    }
                }
            }
        }
        i = i + 1;
    }
    proof {
        assert(entries@.take(entries@.len() as int) == entries@);
    }
    out
}

impl Delays {
    /// Removes the delays due before `now`; returns their keys, in the order
    /// in which they fell due.
    fn take_expired(&mut self, now: u128) -> (r: Vec<KeyDelay>)
        requires
            old(self).wf(),
        ensures
            final(self).wf(),
            final(self).set() == old(self).set().filter(|e: (u128, KeyDelay, u128)| e.0 >= now),
            forall|k: KeyDelay| #[trigger] r@.contains(k) <==> expired(old(self).set(), now).contains(k),
            forall|i: int, j: int| 0 <= i < j < r@.len() ==> r@[i] != r@[j],
            in_due_order(old(self).set(), r@),
    {
        let ghost all = self.entries@;
        let pairs = expired_in_order(&self.entries, now);
        let mut kept: Vec<(u128, KeyDelay, u128)> = Vec::new();
        let mut i: usize = 0;
        while i < self.entries.len()
            invariant
                self.entries@ == all,
                i <= all.len(),
                forall|a: int, b: int| 0 <= a < b < all.len() ==> all[a].1 != all[b].1,
                forall|x: (u128, KeyDelay, u128)| #[trigger] kept@.contains(x) <==> all.take(i as int).contains(x) && x.0 >= now,
                forall|a: int| 0 <= a < kept@.len() ==> exists|j: int| 0 <= j < i && all[j] == #[trigger] kept@[a],
                forall|a: int, b: int| 0 <= a < b < kept@.len() ==> kept@[a].1 != kept@[b].1,
            decreases all.len() - i,
        {
            let e = self.entries[i];
            let ghost kept0 = kept@;
            assert(all.take(i + 1) == all.take(i as int).push(e));
            if e.0 < now {
                proof {
                    assert forall|x: (u128, KeyDelay, u128)| #[trigger] kept@.contains(x) <==> all.take(i + 1).contains(x) && x.0 >= now by {
                        if all.take(i + 1).contains(x) && x.0 >= now {
                            let j = choose|j: int| 0 <= j < i + 1 && #[trigger] all.take(i + 1)[j] == x;
                            assert(j != i);
                            assert(all.take(i as int)[j] == x);
                        }
                        if kept@.contains(x) {
                            assert(all.take(i as int).contains(x));
                            let j = choose|j: int| 0 <= j < i && #[trigger] all.take(i as int)[j] == x;
                            assert(all.take(i + 1)[j] == x);
                        }
                    }
                }
            } else {
                kept.push(e);
                proof {
                    assert forall|a: int, b: int| 0 <= a < b < kept@.len() implies kept@[a].1 != kept@[b].1 by {
                        if b == kept0.len() {
                            let j = choose|j: int| 0 <= j < i && #[trigger] all[j] == kept@[a];
                            assert(all[j].1 != all[i as int].1);
                        }
                    }
                    assert forall|a: int| 0 <= a < kept@.len() implies exists|j: int| 0 <= j < i + 1 && all[j] == #[trigger] kept@[a] by {
                        if a == kept0.len() {
                            assert(all[i as int] == kept@[a]);
                        } else {
                            assert(kept0[a] == kept@[a]);
                        }
                    }
                    assert forall|x: (u128, KeyDelay, u128)| #[trigger] kept@.contains(x) <==> all.take(i + 1).contains(x) && x.0 >= now by {
                        if kept@.contains(x) {
                            let j = choose|j: int| 0 <= j < kept@.len() && kept@[j] == x;
                            if j < kept0.len() {
                                assert(kept0[j] == x);
                                assert(kept0.contains(x));
                            } else {
                                assert(all.take(i + 1)[i as int] == x);
                            }
                        }
                        if all.take(i + 1).contains(x) && x.0 >= now {
                            let j = choose|j: int| 0 <= j < i + 1 && #[trigger] all.take(i + 1)[j] == x;
                            if j == i {
                                assert(kept@[kept0.len() as int] == x);
                            } else {
                                assert(all.take(i as int)[j] == x);
                                assert(kept0.contains(x));
                                let a = choose|a: int| 0 <= a < kept0.len() && kept0[a] == x;
                                assert(kept@[a] == x);
                            }
                        }
                    }
                }
            }
            i = i + 1;
        }
        assert(all.take(all.len() as int) == all);
        self.entries = kept;
        // the keys, in the order of `pairs`
        let mut out: Vec<KeyDelay> = Vec::new();
        let mut j: usize = 0;
        while j < pairs.len()
            invariant
                j <= pairs@.len(),
                out@ == pairs@.take(j as int).map_values(|x: (u128, KeyDelay)| x.1),
            decreases pairs@.len() - j,
        {
            out.push(pairs[j].1);
            proof {
                assert(pairs@.take(j + 1) == pairs@.take(j as int).push(pairs@[j as int]));
                assert(out@ =~= pairs@.take(j + 1).map_values(|x: (u128, KeyDelay)| x.1));
            }
            j = j + 1;
        }
        proof {
            assert(pairs@.take(pairs@.len() as int) == pairs@);
            assert(out@.len() == pairs@.len());
            assert forall|a: int| 0 <= a < out@.len() implies #[trigger] out@[a] == pairs@[a].1 by {}
            assert(self.set() =~= all.to_set().filter(|e: (u128, KeyDelay, u128)| e.0 >= now)) by {
                assert forall|x: (u128, KeyDelay, u128)| self.entries@.contains(x) <==> all.contains(x) && x.0 >= now by {}
            }
            assert forall|k: KeyDelay| #[trigger] out@.contains(k) <==> expired(old(self).set(), now).contains(k) by {
                if out@.contains(k) {
                    let a = choose|a: int| 0 <= a < out@.len() && out@[a] == k;
                    assert(pairs@.contains(pairs@[a]));
                    let s = choose|s: u128| pairs@[a].0 < now && #[trigger] all.contains((pairs@[a].0, pairs@[a].1, s));
                    assert(old(self).set().contains((pairs@[a].0, k, s)));
                }
                if expired(old(self).set(), now).contains(k) {
                    let (d, s) = choose|d: u128, s: u128| d < now && #[trigger] old(self).set().contains((d, k, s));
                    assert(all.contains((d, k, s)));
                    assert(all.contains(((d, k).0, (d, k).1, s)));
                    assert(pairs@.contains((d, k)));
                    let a = choose|a: int| 0 <= a < pairs@.len() && pairs@[a] == (d, k);
                    assert(out@[a] == k);
                }
            }
            assert forall|a: int, b: int| 0 <= a < b < out@.len() implies out@[a] != out@[b] by {
                assert(due_before(pairs@[a], pairs@[b]));
                if out@[a] == out@[b] {
                    assert(pairs@.contains(pairs@[a]));
                    assert(pairs@.contains(pairs@[b]));
                    let sa = choose|s: u128| pairs@[a].0 < now && #[trigger] all.contains((pairs@[a].0, pairs@[a].1, s));
                    let sb = choose|s: u128| pairs@[b].0 < now && #[trigger] all.contains((pairs@[b].0, pairs@[b].1, s));
                    let ta = choose|t: int| 0 <= t < all.len() && all[t] == (pairs@[a].0, pairs@[a].1, sa);
                    let tb = choose|t: int| 0 <= t < all.len() && all[t] == (pairs@[b].0, pairs@[b].1, sb);
                    if ta < tb {
                        assert(all[ta].1 != all[tb].1);
                    } else if tb < ta {
                        assert(all[tb].1 != all[ta].1);
                    }
                }
            }
            assert forall|a: int, d: u128, s: u128| #![trigger pairs@[a], old(self).set().contains((d, pairs@[a].1, s))]
                0 <= a < pairs@.len() && old(self).set().contains((d, pairs@[a].1, s)) implies d == pairs@[a].0 by {
                assert(pairs@.contains(pairs@[a]));
                let sa = choose|s: u128| pairs@[a].0 < now && #[trigger] all.contains((pairs@[a].0, pairs@[a].1, s));
                assert(old(self).set().contains((pairs@[a].0, pairs@[a].1, sa)));
                old(self).lemma_unique((d, pairs@[a].1, s), (pairs@[a].0, pairs@[a].1, sa));
            }
            lemma_due_order(old(self).set(), pairs@, out@);
            assert(in_due_order(old(self).set(), out@));
        }
        out
    }

    /// The instant up to which the runner may sleep at `now`.
    fn horizon(&self, now: u128) -> (r: u128)
        requires
            now <= MAX_INSTANT,
            forall|e: (u128, KeyDelay, u128)| #[trigger] self.set().contains(e) ==> e.2 <= MAX_DURATION,
        ensures
            sleeps_until(self.set(), now, r),
    {
        let mut best: Option<u128> = None;
        let mut i: usize = 0;
        while i < self.entries.len()
            invariant
                now <= MAX_INSTANT,
                forall|e: (u128, KeyDelay, u128)| #[trigger] self.set().contains(e) ==> e.2 <= MAX_DURATION,
                i <= self.entries@.len(),
                match best {
                    None => i == 0,
                    Some(b) => {
                        &&& forall|j: int| 0 <= j < i ==> b <= (#[trigger] self.entries@[j]).0 && b <= now + self.entries@[j].2
                        &&& exists|j: int| 0 <= j < i && (b == (#[trigger] self.entries@[j]).0 || b == now + self.entries@[j].2)
                    },
                },
            decreases self.entries@.len() - i,
        {
            let e = self.entries[i];
            assert(self.set().contains(e)) by {
                assert(self.entries@[i as int] == e);
            }
            let c = if e.0 < now + e.2 {
                e.0
            } else {
                now + e.2
            };
            match best {
                None => {
                    best = Some(c);
                },
                Some(b) => {
                    if c < b {
                        best = Some(c);
                    }
                },
            }
            i = i + 1;
        }
        match best {
            None => {
                assert(self.set() =~= Set::<(u128, KeyDelay, u128)>::empty()) by {
                    assert forall|x: (u128, KeyDelay, u128)| !self.set().contains(x) by {
                        if self.entries@.contains(x) {
                            let j = choose|j: int| 0 <= j < self.entries@.len() && self.entries@[j] == x;
                        }
                    }
                }
                now
            },
            Some(b) => {
                proof {
                    let j = choose|j: int| 0 <= j < i && (b == (#[trigger] self.entries@[j]).0 || b == now + self.entries@[j].2);
                    assert(self.set().contains(self.entries@[j])) by {
                        assert(self.entries@.contains(self.entries@[j]));
                    }
                    assert forall|e: (u128, KeyDelay, u128)| #[trigger] self.set().contains(e) implies b <= e.0 && b <= now + e.2 by {
                        let t = choose|t: int| 0 <= t < self.entries@.len() && self.entries@[t] == e;
                    }
                }
                b
            },
        }
    }
}

impl<'a> Runner<'a> {
    /// Closes the windows of the receive events whose deadline passed before
    /// `now`: they stop being ready, without firing. Returns their keys.
    pub fn expire_receives(&mut self, now: u128) -> (r: Vec<KeyRecv>)
        requires
            old(self).wf(),
        ensures
            final(self).wf(),
            final(self).same_except_timers(*old(self)),
            forall|k: KeyRecv| #[trigger] r@.contains(k) <==> timed_out(old(self).valid_thru(), now).contains(k),
            final(self).ready() == old(self).ready().filter(
                |e: EventKey| !(e matches EventKey::Recv(k) && timed_out(old(self).valid_thru(), now).contains(k)),
            ),
            final(self).valid_thru() == old(self).valid_thru().filter(|e: (u128, KeyRecv)| e.0 >= now),
            final(self).valid_from() == old(self).valid_from(),
            final(self).delay_set() == old(self).delay_set(),
    {
        let ghost s0 = *self;
        let ghost to = timed_out(s0.valid_thru(), now);
        let out = self.receives.select_timed_out(now);
        let mut i: usize = 0;
        while i < out.len()
            invariant
                s0 == *old(self),
                s0.wf(),
                to == timed_out(s0.valid_thru(), now),
                forall|k: KeyRecv| #[trigger] out@.contains(k) <==> to.contains(k),
                i <= out@.len(),
                self.ready_events.wf(),
                self.same_except_timers(s0),
                self.delays == s0.delays,
                self.receives.wf(),
                self.receives.valid_from@ == s0.receives.valid_from@,
                self.valid_thru() == s0.valid_thru().filter(|e: (u128, KeyRecv)| e.0 >= now),
                self.ready() == s0.ready().filter(
                    |e: EventKey| !(e matches EventKey::Recv(k) && out@.take(i as int).contains(k)),
                ),
            decreases out@.len() - i,
        {
            let k = out[i];
            self.ready_events.remove(EventKey::Recv(k));
            proof {
                assert(out@.take(i + 1) == out@.take(i as int).push(k));
                assert(self.ready() =~= s0.ready().filter(
                    |e: EventKey| !(e matches EventKey::Recv(x) && out@.take(i + 1).contains(x)),
                )) by {
                    assert forall|x: KeyRecv| out@.take(i + 1).contains(x) <==> out@.take(i as int).contains(x) || x == k by {
                        if out@.take(i + 1).contains(x) && x != k {
                            let j = choose|j: int| 0 <= j < i + 1 && #[trigger] out@.take(i + 1)[j] == x;
                            assert(out@.take(i as int)[j] == x);
                        }
                        if out@.take(i as int).contains(x) {
                            let j = choose|j: int| 0 <= j < i && #[trigger] out@.take(i as int)[j] == x;
                            assert(out@.take(i + 1)[j] == x);
                        }
                        if x == k {
                            assert(out@.take(i + 1)[i as int] == x);
                        }
                    }
                }
            }
            i = i + 1;
        }
        proof {
            assert(out@.take(out@.len() as int) == out@);
            assert(self.ready() =~= s0.ready().filter(
                |e: EventKey| !(e matches EventKey::Recv(k) && to.contains(k)),
            ));
            assert forall|e: (u128, KeyRecv)| #[trigger] self.receives.thru_set().contains(e) implies self.ready().contains(EventKey::Recv(e.1)) by {
                assert(s0.valid_thru().contains(e));
                assert(s0.ready().contains(EventKey::Recv(e.1)));
                if to.contains(e.1) {
                    let d = choose|d: u128| d < now && #[trigger] s0.valid_thru().contains((d, e.1));
                    s0.receives.lemma_unique(e, (d, e.1));
                }
            }
            self.lemma_timers_changed(s0);
        }
        out
    }

    /// At `now`, with nothing else to do: removes the delays due before `now`,
    /// which fire (they stop being ready), and returns the instant up to
    /// which the runner may sleep before looking again, with the keys of the
    /// delays that fired, in the order in which they fell due.
    pub fn next_delays(&mut self, now: u128) -> (r: (u128, Vec<KeyDelay>))
        requires
            old(self).wf(),
            now <= MAX_INSTANT,
        ensures
            final(self).wf(),
            final(self).same_except_timers(*old(self)),
            forall|k: KeyDelay| #[trigger] r.1@.contains(k) <==> expired(old(self).delay_set(), now).contains(k),
            in_due_order(old(self).delay_set(), r.1@),
            final(self).delay_set() == old(self).delay_set().filter(|e: (u128, KeyDelay, u128)| e.0 >= now),
            sleeps_until(final(self).delay_set(), now, r.0),
            final(self).ready() == old(self).ready().filter(
                |e: EventKey| !(e matches EventKey::Delay(k) && expired(old(self).delay_set(), now).contains(k)),
            ),
            final(self).valid_thru() == old(self).valid_thru(),
            final(self).valid_from() == old(self).valid_from(),
            final(self).can_release(r.1@.map_values(|k: KeyDelay| EventKey::Delay(k))),
    {
        let ghost s0 = *self;
        let ghost ex = expired(s0.delay_set(), now);
        let out = self.delays.take_expired(now);
        let mut i: usize = 0;
        while i < out.len()
            invariant
                s0 == *old(self),
                s0.wf(),
                ex == expired(s0.delay_set(), now),
                forall|k: KeyDelay| #[trigger] out@.contains(k) <==> ex.contains(k),
                forall|a: int, b: int| 0 <= a < b < out@.len() ==> out@[a] != out@[b],
                i <= out@.len(),
                self.ready_events.wf(),
                self.same_except_timers(s0),
                self.receives == s0.receives,
                self.delays.wf(),
                self.delay_set() == s0.delay_set().filter(|e: (u128, KeyDelay, u128)| e.0 >= now),
                self.ready() == s0.ready().filter(
                    |e: EventKey| !(e matches EventKey::Delay(k) && out@.take(i as int).contains(k)),
                ),
            decreases out@.len() - i,
        {
            let k = out[i];
            self.ready_events.remove(EventKey::Delay(k));
            proof {
                assert(out@.take(i + 1) == out@.take(i as int).push(k));
                assert(self.ready() =~= s0.ready().filter(
                    |e: EventKey| !(e matches EventKey::Delay(x) && out@.take(i + 1).contains(x)),
                )) by {
                    assert forall|x: KeyDelay| out@.take(i + 1).contains(x) <==> out@.take(i as int).contains(x) || x == k by {
                        if out@.take(i + 1).contains(x) && x != k {
                            let j = choose|j: int| 0 <= j < i + 1 && #[trigger] out@.take(i + 1)[j] == x;
                            assert(out@.take(i as int)[j] == x);
                        }
                        if out@.take(i as int).contains(x) {
                            let j = choose|j: int| 0 <= j < i && #[trigger] out@.take(i as int)[j] == x;
                            assert(out@.take(i + 1)[j] == x);
                        }
                        if x == k {
                            assert(out@.take(i + 1)[i as int] == x);
                        }
                    }
                }
            }
            i = i + 1;
        }
        proof {
            assert(out@.take(out@.len() as int) == out@);
            assert(self.ready() =~= s0.ready().filter(
                |e: EventKey| !(e matches EventKey::Delay(k) && ex.contains(k)),
            ));
            assert forall|e: (u128, KeyDelay, u128)| #[trigger] self.delays.set().contains(e) implies self.ready().contains(EventKey::Delay(e.1)) by {
                assert(s0.delay_set().contains(e));
                assert(s0.ready().contains(EventKey::Delay(e.1)));
                if ex.contains(e.1) {
                    let (d, st) = choose|d: u128, st: u128| d < now && #[trigger] s0.delay_set().contains((d, e.1, st));
                    s0.delays.lemma_unique(e, (d, e.1, st));
                }
            }
            assert forall|e: (u128, KeyRecv)| #[trigger] self.receives.thru_set().contains(e) implies self.ready().contains(EventKey::Recv(e.1)) by {
                assert(s0.ready().contains(EventKey::Recv(e.1)));
            }
            self.lemma_timers_changed(s0);
        }
        let until = self.delays.horizon(now);
        proof {
            let fk = out@.map_values(|k: KeyDelay| EventKey::Delay(k));
            assert forall|a: int| 0 <= a < fk.len() implies {
                let e = #[trigger] fk[a];
                &&& self.exe().valid_key(e)
                &&& !self.fired_set().contains(e)
                &&& !self.ready().contains(e)
                &&& !self.waiting().contains_key(e)
            } by {
                let k = out@[a];
                assert(out@.contains(k));
                let (d, st) = choose|d: u128, st: u128| d < now && #[trigger] s0.delay_set().contains((d, k, st));
                assert(s0.ready().contains(EventKey::Delay(k)));
                assert(self.waiting() == s0.waiting()) by {
                    assert(self.same_except_timers(s0));
                }
            }
            assert(no_dups(fk)) by {
                assert forall|a: int, b: int| 0 <= a < b < fk.len() implies fk[a] != fk[b] by {
                    assert(out@[a] != out@[b]);
                }
            }
        }
        (until, out)
    }

    /// Ends a round of receiving, at `now`: the round is over when receive
    /// events fired; when none did but some messages matched no event, the
    /// runner receives again; when nothing happened, the delays due fire
    /// (see [Runner::next_delays]) and the runner sleeps, the round being
    /// over when some delay fired or there is nothing to wait for.
    pub fn end_round(&mut self, fired_any: bool, unmatched: usize, now: u128) -> (r: RoundEnd)
        requires
            old(self).wf(),
            now <= MAX_INSTANT,
        ensures
            final(self).wf(),
            fired_any ==> r is Done && *final(self) == *old(self),
            !fired_any && unmatched > 0 ==> r is Again && *final(self) == *old(self),
            !fired_any && unmatched == 0 ==> (r matches RoundEnd::Sleep { until, expired: ks, done } && {
                &&& done == (ks@.len() > 0 || until == now)
                &&& final(self).same_except_timers(*old(self))
                &&& forall|k: KeyDelay| #[trigger] ks@.contains(k) <==> expired(old(self).delay_set(), now).contains(k)
                &&& in_due_order(old(self).delay_set(), ks@)
                &&& final(self).delay_set() == old(self).delay_set().filter(|e: (u128, KeyDelay, u128)| e.0 >= now)
                &&& sleeps_until(final(self).delay_set(), now, until)
                &&& final(self).ready() == old(self).ready().filter(
                    |e: EventKey| !(e matches EventKey::Delay(k) && expired(old(self).delay_set(), now).contains(k)),
                )
                &&& final(self).valid_thru() == old(self).valid_thru()
                &&& final(self).valid_from() == old(self).valid_from()
                &&& final(self).can_release(ks@.map_values(|k: KeyDelay| EventKey::Delay(k)))
            }),
    {
        if fired_any {
            RoundEnd::Done
        } else if unmatched > 0 {
            RoundEnd::Again
        } else {
            let (until, expired) = self.next_delays(now);
            let done = expired.len() > 0 || until == now;
            RoundEnd::Sleep { until, expired, done }
        }
    }
}

/// How a round of receiving ends.
#[derive(Debug)]
pub enum RoundEnd {
    /// Receive events fired: the round is over.
    Done,
    /// Nothing fired, but some messages matched no event: receive again.
    Again,
    /// Nothing happened: sleep until `until`; the delays of `expired` fired;
    /// the round is over when `done`.
    Sleep { until: u128, expired: Vec<KeyDelay>, done: bool },
}

/// The runner never sleeps into the past: with pending delays due at `now`
/// or later, it sleeps until `now` or later, and no later than the first of
/// them is due.
pub proof fn law_sleep_within_bounds(pending: Set<(u128, KeyDelay, u128)>, now: u128, until: u128)
    requires
        sleeps_until(pending, now, until),
        forall|e: (u128, KeyDelay, u128)| #[trigger] pending.contains(e) ==> e.0 >= now,
    ensures
        until >= now,
        forall|e: (u128, KeyDelay, u128)| #[trigger] pending.contains(e) ==> until <= e.0,
{
    if !pending.is_empty() {
        let e = choose|e: (u128, KeyDelay, u128)| #[trigger] pending.contains(e) && (until == e.0 || until == now + e.2);
    }
}

} // verus!
