//! The shape of a scenario as a graph: one node per event name, one edge
//! from each prerequisite to the event that waits for it.
use vstd::prelude::*;
use vstd::string::*;

use crate::execution::tables::no_dups;
use crate::execution::{EventKey, EventSet, Executable};
use crate::names::EventName;
use crate::scenario::{DefEvent, Scenario};

verus! {

/// The name of an event, quoted for a graph.
pub open spec fn quoted(name: Seq<char>) -> Seq<char> {
    seq!['"', 'E', ':'] + name + seq!['"']
}

/// The name of the event `name`, as displayed, in double quotes.
pub fn quote(name: &EventName) -> (r: String)
    ensures
        r@ == quoted(name@),
{
    proof {
        reveal_strlit("\"E:");
        reveal_strlit("\"");
    }
    let r = String::from_str("\"E:").concat(name.as_str()).concat("\"");
    assert(r@ =~= quoted(name@));
    r
}

/// The indices of the events of `events` whose name no earlier event has.
pub open spec fn first_occurrences(events: Seq<DefEvent>) -> Seq<usize>
    decreases events.len(),
{
    if events.len() == 0 {
        Seq::empty()
    } else {
        let last = events.len() - 1;
        let earlier = first_occurrences(events.drop_last());
        if exists|j: int| 0 <= j < last && #[trigger] events[j].id@ == events[last].id@ {
            earlier
        } else {
            earlier.push(last as usize)
        }
    }
}

/// The edges of `events`: from each prerequisite of each event to the
/// event, both quoted, in the order of the events and their prerequisites.
pub open spec fn edges_of(events: Seq<DefEvent>) -> Seq<(Seq<char>, Seq<char>)>
    decreases events.len(),
{
    if events.len() == 0 {
        Seq::empty()
    } else {
        let e = events.last();
        edges_of(events.drop_last()) + e.prerequisites@.map_values(
            |p: EventName| (quoted(p@), quoted(e.id@)),
        )
    }
}

/// The graph of a scenario.
pub struct ScenarioGraph {
    /// The events drawn as nodes, by index: one per name, the first event
    /// with that name.
    pub nodes: Vec<usize>,
    /// The edges, from a prerequisite to the event that waits for it.
    pub edges: Vec<(String, String)>,
}

/// The graph of `scenario`.
#[verifier::loop_isolation(false)]
pub fn scenario_graph(scenario: &Scenario) -> (g: ScenarioGraph)
    ensures
        g.nodes@ == first_occurrences(scenario.events@),
        g.edges@.map_values(|e: (String, String)| (e.0@, e.1@)) == edges_of(scenario.events@),
{
    let events = &scenario.events;
    let mut nodes: Vec<usize> = Vec::new();
    let mut edges: Vec<(String, String)> = Vec::new();
    let mut i: usize = 0;
    while i < events.len()
        invariant
            i <= events@.len(),
            nodes@ == first_occurrences(events@.take(i as int)),
            edges@.map_values(|e: (String, String)| (e.0@, e.1@)) == edges_of(events@.take(i as int)),
        decreases events@.len() - i,
    {
        let ghost pre = events@.take(i as int);
        assert(events@.take(i + 1).drop_last() =~= pre);
        let ev: &DefEvent = &events[i];
        // a node, unless an earlier event has the same name
        let mut seen = false;
        let mut j: usize = 0;
        while j < i
            invariant
                j <= i < events@.len(),
                seen <==> exists|t: int| 0 <= t < j && #[trigger] events@[t].id@ == events@[i as int].id@,
            decreases i - j,
        {
            if events[j].id.same_as(&ev.id) {
                assert(events@[j as int].id@ == events@[i as int].id@);
                seen = true;
            }
            j = j + 1;
        }
        proof {
            let nxt = events@.take(i + 1);
            assert(seen <==> exists|t: int| 0 <= t < i && #[trigger] nxt[t].id@ == nxt[i as int].id@) by {
                if seen {
                    let t = choose|t: int| 0 <= t < i && #[trigger] events@[t].id@ == events@[i as int].id@;
                    assert(nxt[t].id@ == nxt[i as int].id@);
                }
                if exists|t: int| 0 <= t < i && #[trigger] nxt[t].id@ == nxt[i as int].id@ {
                    let t = choose|t: int| 0 <= t < i && #[trigger] nxt[t].id@ == nxt[i as int].id@;
                    assert(events@[t].id@ == events@[i as int].id@);
                }
            }
        }
        if !seen {
            nodes.push(i);
        }
        // an edge from each prerequisite
        let ghost edges0 = edges@.map_values(|e: (String, String)| (e.0@, e.1@));
        let mut k: usize = 0;
        while k < ev.prerequisites.len()
            invariant
                k <= ev.prerequisites@.len(),
                edges@.map_values(|e: (String, String)| (e.0@, e.1@)) == edges0 + ev.prerequisites@.take(
                    k as int,
                ).map_values(|p: EventName| (quoted(p@), quoted(ev.id@))),
            decreases ev.prerequisites@.len() - k,
        {
            let ghost before = edges@;
            let a = quote(&ev.prerequisites[k]);
            let b = quote(&ev.id);
            edges.push((a, b));
            proof {
                assert(edges@.map_values(|e: (String, String)| (e.0@, e.1@)) =~= before.map_values(
                    |e: (String, String)| (e.0@, e.1@),
                ).push((quoted(ev.prerequisites@[k as int]@), quoted(ev.id@))));
                assert(ev.prerequisites@.take(k + 1) =~= ev.prerequisites@.take(k as int).push(
                    ev.prerequisites@[k as int],
                ));
                assert(edges@ == before.push(edges@[before.len() as int]));
                assert(edges@.map_values(|e: (String, String)| (e.0@, e.1@)) =~= edges0
                    + ev.prerequisites@.take(k + 1).map_values(|p: EventName| (quoted(p@), quoted(ev.id@))));
            }
            k = k + 1;
        }
        proof {
            assert(ev.prerequisites@.take(ev.prerequisites@.len() as int) =~= ev.prerequisites@);
            assert(events@.take(i + 1).last() == *ev);
        }
        i = i + 1;
    }
    assert(events@.take(events@.len() as int) =~= events@);
    ScenarioGraph { nodes, edges }
}

/// The graph of an executable.
pub struct ExecutableGraph {
    /// The events drawn, each once.
    pub nodes: EventSet,
    /// The edges, from an event to each event it unblocks, each once.
    pub edges: Vec<(EventKey, EventKey)>,
}

/// The graph of `exe` draws its entry points, and each event that some
/// event unblocks.
pub open spec fn drawn(exe: Executable, k: EventKey) -> bool {
    exe.events.entry_points.set().contains(k) || exists|p: EventKey| #[trigger] exe.unblocks(p).contains(k)
}

/// The graph of `exe`: its events, and an edge from each event to each
/// event that it unblocks.
pub fn executable_graph(exe: &Executable) -> (g: ExecutableGraph)
    requires
        exe.wf(),
    ensures
        g.nodes.wf(),
        forall|k: EventKey| g.nodes.set().contains(k) <==> drawn(*exe, k),
        forall|p: EventKey, c: EventKey| g.edges@.contains((p, c)) <==> exe.unblocks(p).contains(c),
        forall|a: int, b: int| 0 <= a < b < g.edges@.len() ==> g.edges@[a] != g.edges@[b],
{
    let eps: &EventSet = &exe.events.entry_points;
    let kuv = &exe.events.key_unblocks_values;
    proof {
        eps.lemma_seq();
        kuv.lemma_keys();
    }
    let mut nodes = EventSet::new();
    let mut i: usize = 0;
    while i < eps.len()
        invariant
            i <= eps.seq().len(),
            nodes.wf(),
            forall|k: EventKey| nodes.set().contains(k) <==> eps.seq().take(i as int).contains(k),
        decreases eps.seq().len() - i,
    {
        let k = eps.at(i);
        nodes.insert(k);
        proof {
            assert forall|x: EventKey| nodes.set().contains(x) <==> eps.seq().take(i + 1).contains(x) by {
                if eps.seq().take(i + 1).contains(x) && x != k {
                    let t = choose|t: int| 0 <= t < i + 1 && #[trigger] eps.seq().take(i + 1)[t] == x;
                    assert(eps.seq().take(i as int)[t] == x);
                }
                if eps.seq().take(i as int).contains(x) {
                    let t = choose|t: int| 0 <= t < i && #[trigger] eps.seq().take(i as int)[t] == x;
                    assert(eps.seq().take(i + 1)[t] == x);
                }
                if x == k {
                    assert(eps.seq().take(i + 1)[i as int] == x);
                }
            }
        }
        i = i + 1;
    }
    assert(eps.seq().take(eps.seq().len() as int) =~= eps.seq());
    let ghost ks = kuv.key_seq();
    let mut edges: Vec<(EventKey, EventKey)> = Vec::new();
    let mut j: usize = 0;
    while j < kuv.len()
        invariant
            exe.wf(),
            *kuv == exe.events.key_unblocks_values,
            ks == kuv.key_seq(),
            no_dups(ks),
            ks.to_set() == kuv.map().dom(),
            j <= ks.len(),
            nodes.wf(),
            forall|k: EventKey| nodes.set().contains(k) <==> eps.set().contains(k) || exists|t: int|
                0 <= t < j && #[trigger] kuv.map()[ks[t]].set().contains(k),
            forall|p: EventKey, c: EventKey| edges@.contains((p, c)) <==> exists|t: int|
                0 <= t < j && ks[t] == p && #[trigger] kuv.map()[p].set().contains(c),
            forall|a: int, b: int| 0 <= a < b < edges@.len() ==> edges@[a] != edges@[b],
            forall|a: int| 0 <= a < edges@.len() ==> ks.take(j as int).contains((#[trigger] edges@[a]).0),
        decreases ks.len() - j,
    {
        let (p, children) = kuv.entry_at(j);
        proof {
            assert(kuv.map().contains_key(p));
            children.lemma_seq();
        }
        let ghost e0 = edges@;
        let mut m: usize = 0;
        while m < children.len()
            invariant
                exe.wf(),
                *kuv == exe.events.key_unblocks_values,
                ks == kuv.key_seq(),
                no_dups(ks),
                j < ks.len(),
                p == ks[j as int],
                kuv.map().contains_key(p),
                *children == kuv.map()[p],
                no_dups(children.seq()),
                children.seq().to_set() == children.set(),
                m <= children.seq().len(),
                nodes.wf(),
                forall|k: EventKey| nodes.set().contains(k) <==> eps.set().contains(k) || (exists|t: int|
                    0 <= t < j && #[trigger] kuv.map()[ks[t]].set().contains(k)) || children.seq().take(m as int).contains(k),
                edges@.len() == e0.len() + m,
                forall|a: int| 0 <= a < e0.len() ==> edges@[a] == e0[a],
                forall|a: int| e0.len() <= a < edges@.len() ==> #[trigger] edges@[a] == (p, children.seq()[a - e0.len()]),
                forall|a: int, b: int| 0 <= a < b < e0.len() ==> e0[a] != e0[b],
                forall|a: int| 0 <= a < e0.len() ==> ks.take(j as int).contains((#[trigger] e0[a]).0),
            decreases children.seq().len() - m,
        {
            let c = children.at(m);
            nodes.insert(c);
            edges.push((p, c));
            proof {
                assert forall|x: EventKey| children.seq().take(m + 1).contains(x) <==> children.seq().take(m as int).contains(x) || x == c by {
                    if children.seq().take(m + 1).contains(x) && x != c {
                        let t = choose|t: int| 0 <= t < m + 1 && #[trigger] children.seq().take(m + 1)[t] == x;
                        assert(children.seq().take(m as int)[t] == x);
                    }
                    if children.seq().take(m as int).contains(x) {
                        let t = choose|t: int| 0 <= t < m && #[trigger] children.seq().take(m as int)[t] == x;
                        assert(children.seq().take(m + 1)[t] == x);
                    }
                    if x == c {
                        assert(children.seq().take(m + 1)[m as int] == x);
                    }
                }
            }
            m = m + 1;
        }
        proof {
            assert(children.seq().take(children.seq().len() as int) =~= children.seq());
            // the nodes
            assert forall|k: EventKey| nodes.set().contains(k) <==> eps.set().contains(k) || exists|t: int|
                0 <= t < j + 1 && #[trigger] kuv.map()[ks[t]].set().contains(k) by {
                if exists|t: int| 0 <= t < j + 1 && #[trigger] kuv.map()[ks[t]].set().contains(k) {
                    let t = choose|t: int| 0 <= t < j + 1 && #[trigger] kuv.map()[ks[t]].set().contains(k);
                    if t == j {
                        assert(children.seq().contains(k));
                    }
                }
                if children.seq().contains(k) {
                    assert(kuv.map()[ks[j as int]].set().contains(k));
                }
            }
            // the edges
            assert forall|a: int| 0 <= a < edges@.len() implies ks.take(j + 1).contains((#[trigger] edges@[a]).0) by {
                if a < e0.len() {
                    assert(edges@[a] == e0[a]);
                    assert(ks.take(j as int).contains(e0[a].0));
                    let t = choose|t: int| 0 <= t < j && #[trigger] ks.take(j as int)[t] == e0[a].0;
                    assert(ks.take(j + 1)[t] == e0[a].0);
                } else {
                    assert(edges@[a] == (p, children.seq()[a - e0.len()]));
                    assert(ks.take(j + 1)[j as int] == p);
                }
            }
            assert forall|a: int, b: int| 0 <= a < b < edges@.len() implies edges@[a] != edges@[b] by {
                if b >= e0.len() && a < e0.len() {
                    assert(ks.take(j as int).contains(e0[a].0));
                    let t = choose|t: int| 0 <= t < j && #[trigger] ks.take(j as int)[t] == e0[a].0;
                    assert(ks[t] == e0[a].0);
                    assert(edges@[a] == e0[a]);
                    assert(edges@[b].0 == p);
                    assert(ks[t] != ks[j as int]);
                } else if a >= e0.len() {
                    assert(children.seq()[a - e0.len()] != children.seq()[b - e0.len()]);
                } else {
                    assert(e0[a] != e0[b]);
                }
            }
            assert forall|q: EventKey, c: EventKey| edges@.contains((q, c)) <==> exists|t: int|
                0 <= t < j + 1 && ks[t] == q && #[trigger] kuv.map()[q].set().contains(c) by {
                if edges@.contains((q, c)) {
                    let a = choose|a: int| 0 <= a < edges@.len() && #[trigger] edges@[a] == (q, c);
                    if a < e0.len() {
                        assert(e0[a] == (q, c));
                        assert(e0.contains((q, c)));
                    } else {
                        assert(q == p);
                        assert(children.seq().contains(c));
                        assert(ks[j as int] == q);
                    }
                }
                if exists|t: int| 0 <= t < j + 1 && ks[t] == q && #[trigger] kuv.map()[q].set().contains(c) {
                    let t = choose|t: int| 0 <= t < j + 1 && ks[t] == q && #[trigger] kuv.map()[q].set().contains(c);
                    if t < j {
                        assert(e0.contains((q, c)));
                        let a = choose|a: int| 0 <= a < e0.len() && #[trigger] e0[a] == (q, c);
                        assert(edges@[a] == (q, c));
                    } else {
                        assert(children.seq().contains(c));
                        let x = choose|x: int| 0 <= x < children.seq().len() && #[trigger] children.seq()[x] == c;
                        let a = e0.len() + x;
                        assert(edges@[a] == (q, c));
                    }
                }
            }
        }
        j = j + 1;
    }
    proof {
        assert forall|k: EventKey| nodes.set().contains(k) <==> drawn(*exe, k) by {
            if exists|q: EventKey| #[trigger] exe.unblocks(q).contains(k) {
                let q = choose|q: EventKey| #[trigger] exe.unblocks(q).contains(k);
                assert(kuv.map().contains_key(q));
                assert(ks.to_set().contains(q));
                let t = choose|t: int| 0 <= t < ks.len() && #[trigger] ks[t] == q;
                assert(kuv.map()[ks[t]].set().contains(k));
            }
            if exists|t: int| 0 <= t < ks.len() && #[trigger] kuv.map()[ks[t]].set().contains(k) {
                let t = choose|t: int| 0 <= t < ks.len() && #[trigger] kuv.map()[ks[t]].set().contains(k);
                assert(ks.to_set().contains(ks[t]));
                assert(exe.unblocks(ks[t]).contains(k));
            }
        }
        assert forall|q: EventKey, c: EventKey| edges@.contains((q, c)) <==> exe.unblocks(q).contains(c) by {
            if exe.unblocks(q).contains(c) {
                assert(kuv.map().contains_key(q));
                assert(ks.to_set().contains(q));
                let t = choose|t: int| 0 <= t < ks.len() && #[trigger] ks[t] == q;
                assert(kuv.map()[q].set().contains(c));
            }
            if edges@.contains((q, c)) {
                let t = choose|t: int| 0 <= t < ks.len() && ks[t] == q && #[trigger] kuv.map()[q].set().contains(c);
                assert(ks.to_set().contains(q));
            }
        }
    }
    ExecutableGraph { nodes, edges }
}

} // verus!
