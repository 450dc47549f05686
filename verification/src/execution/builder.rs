//! Building an [Executable] from the loaded scenarios: each scenario, and
//! each call of a subroutine, becomes a scope; each event becomes one item
//! (two for a call: entering and leaving the subroutine), with the events it
//! waits for.
use bimap::BiHashMap;
use vstd::prelude::*;

use crate::actor_book::{bimap_get_by_left, bimap_insert, bimap_new, bimap_pairs};
use vstd::string::*;
use crate::execution::tables::insert_into;
use crate::execution::{
    ActorInfo, BindScope, DummyInfo, EventBind, EventDelay, EventKey, EventMap, EventRecv,
    EventRespond, EventSend, EventSet, Events, Executable, KeyActor, KeyBind, KeyDelay, KeyDummy,
    KeyRecv, KeyRespond, KeyScenario, KeyScope, KeySend, ScopeInfo, MAX_DURATION,
};
use crate::json::{str_eq, Json, JsonValue};
use crate::marshalling::{MarshallerKind, MarshallingRegistry};
use crate::names::{ActorName, DummyName, EventName, MessageName, SubroutineName};
use crate::scenario::{
    DefCallSub, DefEvent, DefEventKind, DefEventRecv, DefEventRespond, DefEventSend, DefSubBind,
    DefTypeAlias, DstPattern, Msg, MsgView, RequiredToBe, Scenario,
};

verus! {

/// Why an executable cannot be built.
#[derive(Debug)]
pub enum BuildError {
    UnknownEvent(EventName),
    DuplicateEventName(EventName),
    NotARequest(EventName),
    UnknownActor(ActorName),
    UnknownDummy(DummyName),
    UnknownSubroutine(SubroutineName),
    UnknownFqn(String),
    UnknownAlias(MessageName),
    DuplicateAlias(MessageName),
    DuplicateActorName(ActorName),
    DuplicateDummyName(DummyName),
}

/// A loaded scenario, with the scenarios of the subroutines it declares.
#[derive(Debug)]
pub struct Source {
    pub scenario: Scenario,
    pub subroutines: Vec<(SubroutineName, KeyScenario)>,
}

/// The loaded scenarios.
#[derive(Debug)]
pub struct SourceCode {
    pub sources: Vec<Source>,
}

/// The value paired with the first occurrence of `k` in `entries`.
pub open spec fn lookup<V>(entries: Seq<(Seq<char>, V)>, k: Seq<char>) -> Option<V>
    decreases entries.len(),
{
    if entries.len() == 0 {
        None
    } else if entries[0].0 == k {
        Some(entries[0].1)
    } else {
        lookup(entries.drop_first(), k)
    }
}

/// The first occurrence of `k` gives the value.
proof fn lemma_lookup_first<V>(entries: Seq<(Seq<char>, V)>, k: Seq<char>, i: int)
    requires
        0 <= i < entries.len(),
        entries[i].0 == k,
        forall|j: int| 0 <= j < i ==> entries[j].0 != k,
    ensures
        lookup(entries, k) == Some(entries[i].1),
    decreases i,
{
    if i > 0 {
        lemma_lookup_first(entries.drop_first(), k, i - 1);
    }
}

/// A key that does not occur gives no value.
proof fn lemma_lookup_none<V>(entries: Seq<(Seq<char>, V)>, k: Seq<char>)
    requires
        forall|j: int| 0 <= j < entries.len() ==> entries[j].0 != k,
    ensures
        lookup(entries, k) is None,
    decreases entries.len(),
{
    if entries.len() > 0 {
        lemma_lookup_none(entries.drop_first(), k);
    }
}

/// A value given is paired with the key in some entry.
proof fn lemma_lookup_in<V>(entries: Seq<(Seq<char>, V)>, k: Seq<char>) -> (i: int)
    requires
        lookup(entries, k) is Some,
    ensures
        0 <= i < entries.len(),
        entries[i].0 == k,
        entries[i].1 == lookup(entries, k)->0,
        forall|j: int| 0 <= j < i ==> entries[j].0 != k,
    decreases entries.len(),
{
    if entries[0].0 == k {
        0
    } else {
        let j = lemma_lookup_in(entries.drop_first(), k);
        assert forall|x: int| 0 <= x < j + 1 implies entries[x].0 != k by {
            if x > 0 {
                assert(entries[x] == entries.drop_first()[x - 1]);
            }
        }
        j + 1
    }
}

/// The subroutines of a source, by name.
pub open spec fn subs_view(subs: Seq<(SubroutineName, KeyScenario)>) -> Seq<(Seq<char>, KeyScenario)> {
    subs.map_values(|e: (SubroutineName, KeyScenario)| (e.0@, e.1))
}

/// The scenario that the source `i` calls as `name`, if it declares it.
pub open spec fn called(code: SourceCode, i: int, name: Seq<char>) -> Option<KeyScenario> {
    lookup(subs_view(code.sources@[i].subroutines@), name)
}

/// The scenarios that `rank` orders: each scenario calls scenarios of lower
/// rank only, and only scenarios that are loaded.
pub open spec fn ranked_by(code: SourceCode, rank: spec_fn(int) -> nat) -> bool {
    forall|i: int, e: int|
        0 <= i < code.sources@.len() && 0 <= e < code.sources@[i].scenario.events@.len() ==> match #[trigger] code.sources@[i].scenario.events@[e].kind {
            DefEventKind::Call(c) => match called(code, i, c.subroutine_name@) {
                Some(j) => j.0 < code.sources@.len() && rank(j.0 as int) < rank(i),
                None => true,
            },
            _ => true,
        }
}

/// The durations of `event` are within those that a scenario holds.
pub open spec fn durations_ok(event: DefEvent) -> bool {
    match event.kind {
        DefEventKind::Delay(d) => d.delay_for <= MAX_DURATION && d.delay_step <= MAX_DURATION,
        DefEventKind::Recv(r) => r.after_duration <= MAX_DURATION && (r.before_duration matches Some(b)
            ==> b <= MAX_DURATION),
        _ => true,
    }
}

/// No event waits twice for the same event.
pub open spec fn prerequisites_distinct(event: DefEvent) -> bool {
    forall|a: int, b: int|
        0 <= a < b < event.prerequisites@.len() ==> event.prerequisites@[a]@ != event.prerequisites@[b]@
}

impl SourceCode {
    /// The scenarios can be built from: calls of subroutines do not go round
    /// in circles and lead to loaded scenarios, durations are bounded, and
    /// no event names a prerequisite twice.
    pub open spec fn buildable(&self) -> bool {
        &&& exists|rank: spec_fn(int) -> nat| ranked_by(*self, rank)
        &&& forall|i: int, e: int|
            0 <= i < self.sources@.len() && 0 <= e < self.sources@[i].scenario.events@.len() ==> {
                &&& durations_ok(#[trigger] self.sources@[i].scenario.events@[e])
                &&& prerequisites_distinct(self.sources@[i].scenario.events@[e])
            }
    }
}

/// The event refers to the actor `n` of its scenario.
pub open spec fn mentions_actor(ev: DefEvent, n: Seq<char>) -> bool {
    match ev.kind {
        DefEventKind::Recv(r) => r.from matches Some(a) && a@ == n,
        DefEventKind::Send(s) => s.to matches Some(a) && a@ == n,
        DefEventKind::Call(c) => exists|j: int| 0 <= j < c.actors@.len() && (#[trigger] c.actors@[j]).0@ == n,
        _ => false,
    }
}

/// The event refers to the dummy `n` of its scenario.
pub open spec fn mentions_dummy(ev: DefEvent, n: Seq<char>) -> bool {
    match ev.kind {
        DefEventKind::Recv(r) => r.to matches Some(d) && d@ == n,
        DefEventKind::Send(s) => s.from@ == n,
        DefEventKind::Respond(r) => r.from matches Some(d) && d@ == n,
        DefEventKind::Call(c) => exists|j: int| 0 <= j < c.dummies@.len() && (#[trigger] c.dummies@[j]).0@ == n,
        _ => false,
    }
}

/// The event refers to the message type imported as `a`.
pub open spec fn mentions_alias(ev: DefEvent, a: Seq<char>) -> bool {
    match ev.kind {
        DefEventKind::Recv(r) => r.message_type@ == a,
        DefEventKind::Send(s) => s.message_type@ == a,
        _ => false,
    }
}

/// The event refers to the event named `n`: as a prerequisite, or as the
/// request it responds to.
pub open spec fn mentions_event(ev: DefEvent, n: Seq<char>) -> bool {
    ||| exists|j: int| 0 <= j < ev.prerequisites@.len() && (#[trigger] ev.prerequisites@[j])@ == n
    ||| ev.kind matches DefEventKind::Respond(r) && r.to_request@ == n
}

/// The scenario `i` of `code` is at fault as `err` says, with the message
/// types of `marshalling`: it imports an alias twice or an unknown FQN,
/// declares a name twice, or an event refers to what the scenario does not
/// declare (events only to those defined before it), or responds to an
/// event that is not a receive of a request.
pub open spec fn source_fault(code: SourceCode, marshalling: MarshallingRegistry, i: int, err: BuildError) -> bool {
    let s = code.sources@[i].scenario;
    match err {
        BuildError::DuplicateAlias(a) => exists|x: int, y: int|
            0 <= x < y < s.types@.len() && #[trigger] s.types@[x].type_alias@ == a@ && #[trigger] s.types@[y].type_alias@ == a@,
        BuildError::UnknownFqn(f) => exists|x: int|
            0 <= x < s.types@.len() && #[trigger] s.types@[x].type_fqn@ == f@ && marshalling.kind_of(f@) is None,
        BuildError::DuplicateActorName(n) => exists|x: int, y: int|
            0 <= x < y < s.actors@.len() && #[trigger] s.actors@[x]@ == n@ && #[trigger] s.actors@[y]@ == n@,
        BuildError::DuplicateDummyName(n) => exists|x: int, y: int|
            0 <= x < y < s.dummies@.len() && #[trigger] s.dummies@[x]@ == n@ && #[trigger] s.dummies@[y]@ == n@,
        BuildError::DuplicateEventName(n) => exists|x: int, y: int|
            0 <= x < y < s.events@.len() && #[trigger] s.events@[x].id@ == n@ && #[trigger] s.events@[y].id@ == n@,
        BuildError::UnknownEvent(n) => exists|e: int|
            0 <= e < s.events@.len() && mentions_event(#[trigger] s.events@[e], n@) && forall|f: int|
                0 <= f < e ==> s.events@[f].id@ != n@,
        BuildError::NotARequest(n) => exists|e: int, f: int| {
            &&& 0 <= f < e < s.events@.len()
            &&& (#[trigger] s.events@[e]).kind matches DefEventKind::Respond(r)
            &&& r.to_request@ == n@
            &&& (#[trigger] s.events@[f]).id@ == n@
            &&& forall|g: int| 0 <= g < f ==> s.events@[g].id@ != n@
            &&& !receives_request(marshalling, s.types@, s.events@[f])
        },
        BuildError::UnknownAlias(a) => exists|e: int|
            0 <= e < s.events@.len() && mentions_alias(#[trigger] s.events@[e], a@) && forall|x: int|
                0 <= x < s.types@.len() ==> s.types@[x].type_alias@ != a@,
        BuildError::UnknownActor(n) => exists|e: int|
            0 <= e < s.events@.len() && mentions_actor(#[trigger] s.events@[e], n@) && forall|x: int|
                0 <= x < s.actors@.len() ==> s.actors@[x]@ != n@,
        BuildError::UnknownDummy(n) => exists|e: int|
            0 <= e < s.events@.len() && mentions_dummy(#[trigger] s.events@[e], n@) && forall|x: int|
                0 <= x < s.dummies@.len() ==> s.dummies@[x]@ != n@,
        BuildError::UnknownSubroutine(n) => exists|e: int| {
            &&& 0 <= e < s.events@.len()
            &&& (#[trigger] s.events@[e]).kind matches DefEventKind::Call(c)
            &&& c.subroutine_name@ == n@
            &&& called(code, i, n@) is None
        },
    }
}

/// `ev` receives a request: a message whose type, imported by `types`, is
/// known to `marshalling` as a request.
pub open spec fn receives_request(marshalling: MarshallingRegistry, types: Seq<DefTypeAlias>, ev: DefEvent) -> bool {
    &&& ev.kind matches DefEventKind::Recv(r)
    &&& lookup(aliases_view(types), r.message_type@) matches Some(fqn)
    &&& marshalling.kind_of(fqn) == Some(MarshallerKind::Request)
}

/// In `exe`, `t` is a receive item exactly where `ev` receives, and then
/// one compiled as `ev` says.
pub open spec fn recv_tail(exe: Executable, code: SourceCode, i: int, scope: KeyScope, ev: DefEvent, t: EventKey) -> bool {
    &&& (t is Recv <==> ev.kind is Recv)
    &&& ev.kind matches DefEventKind::Recv(r) ==> recv_compiled(exe, scope, aliases_view(code.sources@[i].scenario.types@), r, exe.events.recv@[t->Recv_0.0 as int])
}

/// The name of the first item of the event `ev`: its own, or for a call of
/// a subroutine, that of entering the subroutine.
pub open spec fn head_name(ev: DefEvent) -> Seq<char> {
    match ev.kind {
        DefEventKind::Call(_) => ev.id@ + "[ENTER SUB]"@,
        _ => ev.id@,
    }
}

/// In `exe`, the first item of the event `ev` of the scope `scope` waits
/// for an event named `q` in that scope.
pub open spec fn waits_in(exe: Executable, scope: KeyScope, ev: DefEvent, q: Seq<char>) -> bool {
    exists|kq: EventKey, kf: EventKey|
        {
            &&& exe.valid_key(kq)
            &&& exe.valid_key(kf)
            &&& exe.events.names.map()[kq].0 == scope
            &&& exe.events.names.map()[kq].1@ == q
            &&& exe.events.names.map()[kf].0 == scope
            &&& exe.events.names.map()[kf].1@ == head_name(ev)
            &&& #[trigger] exe.unblocks(kq).contains(kf)
        }
}

/// Among `entry`, there is the first item of the event `ev` of the scope
/// `scope` of `exe`.
pub open spec fn starts_in(exe: Executable, entry: EventSet, scope: KeyScope, ev: DefEvent) -> bool {
    exists|k: EventKey|
        #[trigger] entry.set().contains(k) && exe.valid_key(k) && exe.events.names.map()[k].0 == scope
            && exe.events.names.map()[k].1@ == head_name(ev)
}

/// What an event waits for, it still waits for as the executable grows.
proof fn lemma_waits_grow(a: Executable, b: Executable, scope: KeyScope, ev: DefEvent, q: Seq<char>)
    requires
        waits_in(a, scope, ev, q),
        extends(a, b),
    ensures
        waits_in(b, scope, ev, q),
{
    let (kq, kf) = choose|kq: EventKey, kf: EventKey|
        {
            &&& a.valid_key(kq)
            &&& a.valid_key(kf)
            &&& a.events.names.map()[kq].0 == scope
            &&& a.events.names.map()[kq].1@ == q
            &&& a.events.names.map()[kf].0 == scope
            &&& a.events.names.map()[kf].1@ == head_name(ev)
            &&& #[trigger] a.unblocks(kq).contains(kf)
        };
    assert(b.unblocks(kq).contains(kf));
}

/// An event that starts among `ea` starts among `eb` too, as the
/// executable grows and the entry points with it.
proof fn lemma_starts_grow(a: Executable, b: Executable, ea: EventSet, eb: EventSet, scope: KeyScope, ev: DefEvent)
    requires
        starts_in(a, ea, scope, ev),
        extends(a, b),
        ea.set().subset_of(eb.set()),
    ensures
        starts_in(b, eb, scope, ev),
{
    let k = choose|k: EventKey|
        #[trigger] ea.set().contains(k) && a.valid_key(k) && a.events.names.map()[k].0 == scope
            && a.events.names.map()[k].1@ == head_name(ev);
    assert(eb.set().contains(k));
}

/// Some event of `exe` is named `name` in the scope `scope`.
pub open spec fn named_in(exe: Executable, scope: KeyScope, name: Seq<char>) -> bool {
    exists|k: EventKey| exe.valid_key(k) && (#[trigger] exe.events.names.map()[k]).0 == scope && exe.events.names.map()[k].1@ == name
}

/// When `ev` is required to be reached or unreached, `required` holds an
/// event of `exe` named as `ev` in the scope `scope`, required as `ev` is.
pub open spec fn required_in(exe: Executable, required: EventMap<RequiredToBe>, scope: KeyScope, ev: DefEvent) -> bool {
    ev.require matches Some(q) ==> exists|k: EventKey|
        #[trigger] required.map().contains_key(k) && required.map()[k] == q && exe.events.names.map()[k].0 == scope
            && exe.events.names.map()[k].1@ == ev.id@
}

/// `a` is a prefix of `b`.
pub open spec fn grows<T>(a: Seq<T>, b: Seq<T>) -> bool {
    a.len() <= b.len() && forall|i: int| 0 <= i < a.len() ==> #[trigger] b[i] == a[i]
}

/// The message types that `types` import: each alias with its FQN.
pub open spec fn aliases_view(types: Seq<DefTypeAlias>) -> Seq<(Seq<char>, Seq<char>)> {
    types.map_values(|t: DefTypeAlias| (t.type_alias@, t.type_fqn@))
}

/// In `exe`, the actor `a` is known as `n` in the scope `scope`.
pub open spec fn actor_named(exe: Executable, a: KeyActor, scope: KeyScope, n: Seq<char>) -> bool {
    &&& exe.actor_ok(a)
    &&& exists|j: int|
        0 <= j < exe.actors@[a.0 as int].known_as@.len() && (#[trigger] exe.actors@[a.0 as int].known_as@[j]).0 == scope
            && exe.actors@[a.0 as int].known_as@[j].1@ == n
}

/// In `exe`, the dummy `d` is known as `n` in the scope `scope`.
pub open spec fn dummy_named(exe: Executable, d: KeyDummy, scope: KeyScope, n: Seq<char>) -> bool {
    &&& exe.dummy_ok(d)
    &&& exists|j: int|
        0 <= j < exe.dummies@[d.0 as int].known_as@.len() && (#[trigger] exe.dummies@[d.0 as int].known_as@[j]).0 == scope
            && exe.dummies@[d.0 as int].known_as@[j].1@ == n
}

/// `a` is the actor known as `n` in `scope`, or none where `n` is none.
pub open spec fn actor_as(exe: Executable, a: Option<KeyActor>, scope: KeyScope, n: Option<ActorName>) -> bool {
    match n {
        Some(n) => a matches Some(k) && actor_named(exe, k, scope, n@),
        None => a is None,
    }
}

/// `d` is the dummy known as `n` in `scope`, or none where `n` is none.
pub open spec fn dummy_as(exe: Executable, d: Option<KeyDummy>, scope: KeyScope, n: Option<DummyName>) -> bool {
    match n {
        Some(n) => d matches Some(k) && dummy_named(exe, k, scope, n@),
        None => d is None,
    }
}

/// A receive event as its definition `r` says, in `scope`.
pub open spec fn recv_compiled(exe: Executable, scope: KeyScope, aliases: Seq<(Seq<char>, Seq<char>)>, r: DefEventRecv, x: EventRecv) -> bool {
    &&& x.scope_key == scope
    &&& lookup(aliases, r.message_type@) == Some(x.fqn@)
    &&& actor_as(exe, x.from, scope, r.from)
    &&& dummy_as(exe, x.to, scope, r.to)
    &&& x.after_duration == r.after_duration
    &&& x.before_duration == r.before_duration
    &&& x.payload_matchers@.len() == r.also_match_data@.len() + 1
    &&& x.payload_matchers@[0].0@ == r.message_data.0@
    &&& forall|j: int| 0 <= j < r.also_match_data@.len() ==> x.payload_matchers@[j + 1].0@ == (#[trigger] r.also_match_data@[j]).0@
}

/// A send event as its definition `s` says, in `scope`.
pub open spec fn send_compiled(exe: Executable, scope: KeyScope, aliases: Seq<(Seq<char>, Seq<char>)>, s: DefEventSend, x: EventSend) -> bool {
    &&& x.scope_key == scope
    &&& lookup(aliases, s.message_type@) == Some(x.fqn@)
    &&& dummy_named(exe, x.from, scope, s.from@)
    &&& actor_as(exe, x.to, scope, s.to)
    &&& x.payload@ == s.message_data@
}

/// A respond event as its definition `r` says, in `scope`: it answers the
/// receive event named `r.to_request` there, with the type of its request.
pub open spec fn respond_compiled(exe: Executable, scope: KeyScope, r: DefEventRespond, x: EventRespond) -> bool {
    &&& x.scope_key == scope
    &&& exe.valid_key(EventKey::Recv(x.respond_to))
    &&& exe.events.names.map()[EventKey::Recv(x.respond_to)].0 == scope
    &&& exe.events.names.map()[EventKey::Recv(x.respond_to)].1@ == r.to_request@
    &&& x.request_type@ == exe.events.recv@[x.respond_to.0 as int].fqn@
    &&& dummy_as(exe, x.respond_from, scope, r.from)
    &&& x.payload@ == r.data@
}

/// A bind across the boundary of a subroutine, as `b` says: the pattern
/// matched against the template, or `null` against `null` where there is
/// none.
pub open spec fn boundary_compiled(b: Option<DefSubBind>, x: EventBind) -> bool {
    match b {
        Some(b) => x.dst.0@ == b.dst.0@ && x.src@ == MsgView::Bind(b.src@),
        None => x.dst.0@ == Json::Null && x.src@ == MsgView::Literal(Json::Null),
    }
}

/// A call `c` of the event named `id` of the scenario `i`, in `scope`:
/// `head` binds its input into a scope of the scenario that `i` declares
/// under the name called, invoked by this event, and `tail` binds its output
/// back.
pub open spec fn call_compiled(
    exe: Executable,
    code: SourceCode,
    i: int,
    scope: KeyScope,
    id: Seq<char>,
    c: DefCallSub,
    head: EventKey,
    tail: EventKey,
) -> bool {
    &&& head matches EventKey::Bind(kh)
    &&& tail matches EventKey::Bind(kt)
    &&& exe.events.bind@[kh.0 as int].scope matches BindScope::Two { src, dst }
    &&& src == scope
    &&& exe.scope_ok(dst)
    &&& scope.0 < dst.0
    &&& exe.events.bind@[kt.0 as int].scope == (BindScope::Two { src: dst, dst: scope })
    &&& called(code, i, c.subroutine_name@) == Some(exe.scopes@[dst.0 as int].source_key)
    &&& exe.scopes@[dst.0 as int].invoked_as matches Some((s, n, m))
    &&& s == scope
    &&& n@ == id
    &&& m@ == c.subroutine_name@
    &&& boundary_compiled(c.input, exe.events.bind@[kh.0 as int])
    &&& boundary_compiled(c.output, exe.events.bind@[kt.0 as int])
}

/// In `exe`, the item `p` is one that `ev`, of the scope `scope`, names as
/// a prerequisite.
pub open spec fn named_prerequisite(exe: Executable, scope: KeyScope, ev: DefEvent, p: EventKey) -> bool {
    &&& exe.events.names.map()[p].0 == scope
    &&& exists|x: int| 0 <= x < ev.prerequisites@.len() && exe.events.names.map()[p].1@ == (#[trigger] ev.prerequisites@[x])@
}

/// The items of `ev`, in `exe`, without the edges between them.
pub open spec fn items_compiled(exe: Executable, code: SourceCode, i: int, scope: KeyScope, ev: DefEvent, head: EventKey, tail: EventKey) -> bool {
    &&& exe.valid_key(head)
    &&& exe.valid_key(tail)
    &&& exe.events.names.map()[tail].0 == scope
    &&& exe.events.names.map()[tail].1@ == ev.id@
    &&& exe.events.names.map()[head].0 == scope
    &&& exe.events.names.map()[head].1@ == head_name(ev)
    &&& match ev.kind {
        DefEventKind::Delay(d) => {
            &&& head == tail
            &&& tail matches EventKey::Delay(k)
            &&& exe.events.delay@[k.0 as int].delay_for == d.delay_for
            &&& exe.events.delay@[k.0 as int].delay_step == d.delay_step
        },
        DefEventKind::Bind(b) => {
            &&& head == tail
            &&& tail matches EventKey::Bind(k)
            &&& exe.events.bind@[k.0 as int].dst.0@ == b.dst.0@
            &&& exe.events.bind@[k.0 as int].src@ == b.src@
            &&& exe.events.bind@[k.0 as int].scope == BindScope::Same(scope)
        },
        DefEventKind::Recv(r) => {
            &&& head == tail
            &&& tail matches EventKey::Recv(k)
            &&& recv_compiled(exe, scope, aliases_view(code.sources@[i].scenario.types@), r, exe.events.recv@[k.0 as int])
        },
        DefEventKind::Send(s) => {
            &&& head == tail
            &&& tail matches EventKey::Send(k)
            &&& send_compiled(exe, scope, aliases_view(code.sources@[i].scenario.types@), s, exe.events.send@[k.0 as int])
        },
        DefEventKind::Respond(r) => {
            &&& head == tail
            &&& tail matches EventKey::Respond(k)
            &&& respond_compiled(exe, scope, r, exe.events.respond@[k.0 as int])
        },
        DefEventKind::Call(c) => call_compiled(exe, code, i, scope, ev.id@, c, head, tail),
    }
}

/// In `exe`, the event `ev` of the scenario `i`, defined in the scope
/// `scope`, is compiled into the items `head` (what waits for the
/// prerequisites) and `tail` (what the events that name it wait for): one
/// item, or for a call the items entering and leaving the subroutine. They
/// are named as the event in that scope and hold what the definition says,
/// with the names of message types, actors, dummies and events resolved in
/// that scope; of the items of that scope, `head` waits for each event the
/// definition names as a prerequisite, and for no other; of the items of
/// other scopes, it waits at most for the item entering the call that
/// invoked its scope, and only where the event names no prerequisites.
pub open spec fn compiled(exe: Executable, code: SourceCode, i: int, scope: KeyScope, ev: DefEvent, head: EventKey, tail: EventKey) -> bool {
    &&& items_compiled(exe, code, i, scope, ev, head, tail)
    &&& forall|p: EventKey| #[trigger] exe.unblocks(p).contains(head) && exe.events.names.map()[p].0 == scope ==> named_prerequisite(exe, scope, ev, p)
    &&& forall|x: int| 0 <= x < ev.prerequisites@.len() ==> #[trigger] waits_for(exe, scope, head, ev.prerequisites@[x]@)
    &&& forall|p: EventKey|
        #[trigger] exe.unblocks(p).contains(head) && exe.events.names.map()[p].0 != scope ==> ev.prerequisites@.len() == 0 && enters(exe, scope, p)
    &&& call_edges(exe, code, ev, head, tail)
}

/// In `exe`, `p` unblocks an item named `n` in the scope `s`.
pub open spec fn unblocks_named(exe: Executable, p: EventKey, s: KeyScope, n: Seq<char>) -> bool {
    exists|x: EventKey| #[trigger] exe.unblocks(p).contains(x) && exe.events.names.map()[x].0 == s && exe.events.names.map()[x].1@ == n
}

/// The edges of a call `ev` compiled into `head` and `tail`: entering the
/// called scope unblocks each of its events that names no prerequisites;
/// leaving it waits, of all items, exactly for the events of the called
/// scope that it requires to be reached.
pub open spec fn call_edges(exe: Executable, code: SourceCode, ev: DefEvent, head: EventKey, tail: EventKey) -> bool {
    match ev.kind {
        DefEventKind::Call(_) => match head {
            EventKey::Bind(kh) => match exe.events.bind@[kh.0 as int].scope {
                BindScope::Two { src, dst } => {
                    let evs = code.sources@[exe.scopes@[dst.0 as int].source_key.0 as int].scenario.events@;
                    &&& forall|f: int|
                        0 <= f < evs.len() && evs[f].prerequisites@.len() == 0 ==> #[trigger] unblocks_named(exe, head, dst, head_name(evs[f]))
                    &&& forall|f: int|
                        0 <= f < evs.len() && evs[f].require == Some(RequiredToBe::Reached) ==> #[trigger] waits_for(exe, dst, tail, evs[f].id@)
                    &&& forall|p: EventKey| #[trigger]
                        exe.unblocks(p).contains(tail) ==> exe.events.names.map()[p].0 == dst && exists|f: int|
                            0 <= f < evs.len() && evs[f].require == Some(RequiredToBe::Reached) && exe.events.names.map()[p].1@ == (#[trigger] evs[f]).id@
                },
                _ => true,
            },
            _ => true,
        },
        _ => true,
    }
}

/// In `exe`, `d` is an item leaving a call back into the scope `s`.
pub open spec fn leaves_into(exe: Executable, d: EventKey, s: KeyScope) -> bool {
    d matches EventKey::Bind(k) && exe.events.bind@[k.0 as int].scope matches BindScope::Two { src, dst } && dst == s
}

/// In `exe`, `p` is the item entering the call that invoked the scope `s`.
pub open spec fn enters(exe: Executable, s: KeyScope, p: EventKey) -> bool {
    &&& exe.scope_ok(s)
    &&& exe.scopes@[s.0 as int].invoked_as matches Some((c, n, m))
    &&& exe.events.names.map()[p].0 == c
    &&& exe.events.names.map()[p].1@ == n@ + "[ENTER SUB]"@
}

/// In `exe`, `head` waits for an item named `q` in the scope `scope`.
pub open spec fn waits_for(exe: Executable, scope: KeyScope, head: EventKey, q: Seq<char>) -> bool {
    exists|p: EventKey|
        #[trigger] exe.unblocks(p).contains(head) && exe.valid_key(p) && exe.events.names.map()[p].0 == scope
            && exe.events.names.map()[p].1@ == q
}

/// Each edge that `new` adds into an item `d` of `old` of the scope `s`
/// comes from the item entering the call that invoked `s`, into an item
/// that waited for nothing in `old` and leaves no call.
pub open spec fn edges_keep(old: Executable, new: Executable, s: KeyScope) -> bool {
    forall|p: EventKey, d: EventKey|
        #[trigger] new.unblocks(p).contains(d) && new.events.names.map()[d].0 == s ==> old.unblocks(p).contains(d)
            || !old.valid_key(d) || (new.events.names.map()[p].0 != s && enters(new, s, p) && !leaves_into(new, d, s) && forall|q: EventKey|
            !(#[trigger] old.unblocks(q)).contains(d))
}

/// `x` is the head of an event of the scenario `i` that names no
/// prerequisites, compiled in the scope `scope`.
pub open spec fn entry_of(exe: Executable, code: SourceCode, i: int, scope: KeyScope, x: EventKey) -> bool {
    exists|f: int, t: EventKey|
        0 <= f < code.sources@[i].scenario.events@.len() && code.sources@[i].scenario.events@[f].prerequisites@.len() == 0
            && #[trigger] compiled(exe, code, i, scope, code.sources@[i].scenario.events@[f], x, t)
}

/// The event `f` of the scenario `i` is compiled in the scope `s` of `exe`.
pub open spec fn event_compiled(exe: Executable, code: SourceCode, i: int, s: KeyScope, f: int) -> bool {
    exists|h: EventKey, t: EventKey| #[trigger] compiled(exe, code, i, s, code.sources@[i].scenario.events@[f], h, t)
}

/// Every event of the scope `s` of `exe` is compiled there, from the
/// scenario the scope holds.
pub open spec fn scope_compiled(exe: Executable, code: SourceCode, s: KeyScope) -> bool {
    let i = exe.scopes@[s.0 as int].source_key.0 as int;
    &&& 0 <= i < code.sources@.len()
    &&& forall|f: int| 0 <= f < code.sources@[i].scenario.events@.len() ==> #[trigger] event_compiled(exe, code, i, s, f)
}

/// Where several events of the scenario `i`, compiled in the scope `scope`
/// of `exe`, are ready, they fire in the order of their definition: their
/// items have priorities that rise from each event to the next, the head of
/// each no later than its tail.
pub open spec fn in_definition_order(exe: Executable, code: SourceCode, i: int, scope: KeyScope) -> bool {
    let evs = code.sources@[i].scenario.events@;
    let pr = exe.events.priority.map();
    exists|keys: Seq<(EventKey, EventKey)>|
        #![trigger keys.len()]
        {
            &&& keys.len() == evs.len()
            &&& forall|f: int| 0 <= f < evs.len() ==> #[trigger] compiled(exe, code, i, scope, evs[f], keys[f].0, keys[f].1)
            &&& forall|f: int|
                0 <= f < evs.len() ==> pr.contains_key(#[trigger] keys[f].0) && pr.contains_key(keys[f].1) && pr[keys[f].0] <= pr[keys[f].1]
            &&& forall|f: int, g: int| 0 <= f < g < evs.len() ==> pr[#[trigger] keys[f].1] < pr[#[trigger] keys[g].0]
        }
}

/// Some event of the scenario `i` calls the scenario `j`.
pub open spec fn calls(code: SourceCode, i: int, j: int) -> bool {
    exists|e: int|
        0 <= e < code.sources@[i].scenario.events@.len() && match (#[trigger] code.sources@[i].scenario.events@[e]).kind {
            DefEventKind::Call(c) => called(code, i, c.subroutine_name@) matches Some(k) && k.0 == j,
            _ => false,
        }
}

/// `path` is a chain of loaded scenarios, each calling the next.
pub open spec fn call_path(code: SourceCode, path: Seq<int>) -> bool {
    &&& path.len() > 0
    &&& forall|k: int| 0 <= k < path.len() ==> 0 <= #[trigger] path[k] < code.sources@.len()
    &&& forall|k: int| 0 <= k < path.len() - 1 ==> calls(code, #[trigger] path[k], path[k + 1])
}

/// Building the scenario `from` reaches the scenario `to`: through the
/// calls of subroutines, or as `from` itself.
pub open spec fn reaches(code: SourceCode, from: int, to: int) -> bool {
    exists|path: Seq<int>| #[trigger] call_path(code, path) && path[0] == from && path.last() == to
}

/// Some scenario that building the scenario `from` reaches is at fault as
/// `err` says.
pub open spec fn fault_from(code: SourceCode, marshalling: MarshallingRegistry, from: int, err: BuildError) -> bool {
    exists|i: int| 0 <= i < code.sources@.len() && reaches(code, from, i) && #[trigger] source_fault(code, marshalling, i, err)
}

/// A scenario at fault is a fault of building it.
proof fn lemma_fault(code: SourceCode, marshalling: MarshallingRegistry, i: int, err: BuildError)
    requires
        0 <= i < code.sources@.len(),
        source_fault(code, marshalling, i, err),
    ensures
        fault_from(code, marshalling, i, err),
{
    let path = seq![i];
    assert(call_path(code, path));
}

/// A fault of building a scenario that `i` calls is a fault of building
/// `i`.
proof fn lemma_fault_call(code: SourceCode, marshalling: MarshallingRegistry, i: int, j: int, err: BuildError)
    requires
        0 <= i < code.sources@.len(),
        calls(code, i, j),
        fault_from(code, marshalling, j, err),
    ensures
        fault_from(code, marshalling, i, err),
{
    let t = choose|t: int| 0 <= t < code.sources@.len() && reaches(code, j, t) && #[trigger] source_fault(code, marshalling, t, err);
    let p = choose|path: Seq<int>| #[trigger] call_path(code, path) && path[0] == j && path.last() == t;
    let q = seq![i] + p;
    assert forall|k: int| 0 <= k < q.len() implies 0 <= #[trigger] q[k] < code.sources@.len() by {
        if k > 0 {
            assert(q[k] == p[k - 1]);
        }
    }
    assert forall|k: int| 0 <= k < q.len() - 1 implies calls(code, #[trigger] q[k], q[k + 1]) by {
        if k > 0 {
            assert(q[k] == p[k - 1]);
            assert(q[k + 1] == p[k]);
        }
    }
    assert(call_path(code, q));
    assert(q.last() == t);
    assert(reaches(code, i, t));
}

/// A key that occurs gives a value.
proof fn lemma_lookup_some<V>(entries: Seq<(Seq<char>, V)>, k: Seq<char>, j: int)
    requires
        0 <= j < entries.len(),
        entries[j].0 == k,
    ensures
        lookup(entries, k) is Some,
    decreases j,
{
    if entries[0].0 != k {
        lemma_lookup_some(entries.drop_first(), k, j - 1);
    }
}

/// The imports of message types are valid: no alias twice, every FQN known.
pub open spec fn imports_ok(marshalling: MarshallingRegistry, types: Seq<DefTypeAlias>) -> bool {
    &&& forall|a: int, b: int| 0 <= a < b < types.len() ==> types[a].type_alias@ != types[b].type_alias@
    &&& forall|a: int| 0 <= a < types.len() ==> marshalling.kind_of((#[trigger] types[a]).type_fqn@) is Some
}

/// The aliases of message types that `types` import, each with its FQN:
/// the first alias that was imported before is an error, and so is an
/// unknown FQN.
fn type_aliases(marshalling: &MarshallingRegistry, types: &Vec<DefTypeAlias>) -> (r: Result<
    Vec<(MessageName, String)>,
    BuildError,
>)
    ensures
        r is Ok <==> imports_ok(*marshalling, types@),
        r matches Ok(v) ==> v@.len() == types@.len() && forall|i: int|
            0 <= i < v@.len() ==> (#[trigger] v@[i]).0@ == types@[i].type_alias@ && v@[i].1@
                == types@[i].type_fqn@,
        r matches Err(e) ==> match e {
            BuildError::DuplicateAlias(a) => exists|i: int, j: int|
                0 <= i < j < types@.len() && #[trigger] types@[i].type_alias@ == a@ && #[trigger] types@[j].type_alias@ == a@,
            BuildError::UnknownFqn(f) => exists|i: int|
                0 <= i < types@.len() && #[trigger] types@[i].type_fqn@ == f@ && marshalling.kind_of(f@) is None,
            _ => false,
        },
{
    let mut out: Vec<(MessageName, String)> = Vec::new();
    let mut i: usize = 0;
    while i < types.len()
        invariant
            i <= types@.len(),
            out@.len() == i,
            forall|a: int| 0 <= a < i ==> (#[trigger] out@[a]).0@ == types@[a].type_alias@ && out@[a].1@ == types@[a].type_fqn@,
            forall|a: int, b: int| 0 <= a < b < i ==> types@[a].type_alias@ != types@[b].type_alias@,
            forall|a: int| 0 <= a < i ==> marshalling.kind_of((#[trigger] types@[a]).type_fqn@) is Some,
        decreases types@.len() - i,
    {
        let t = &types[i];
        let mut j: usize = 0;
        while j < i
            invariant
                j <= i < types@.len(),
                *t == types@[i as int],
                out@.len() == i,
                forall|a: int| 0 <= a < i ==> (#[trigger] out@[a]).0@ == types@[a].type_alias@,
                forall|a: int| 0 <= a < j ==> types@[a].type_alias@ != t.type_alias@,
            decreases i - j,
        {
            if out[j].0.same_as(&t.type_alias) {
                return Err(BuildError::DuplicateAlias(t.type_alias.duplicate()));
            }
            j = j + 1;
        }
        if marshalling.resolve(t.type_fqn.as_str()).is_none() {
            return Err(BuildError::UnknownFqn(t.type_fqn.clone()));
        }
        out.push((t.type_alias.duplicate(), t.type_fqn.clone()));
        i = i + 1;
    }
    Ok(out)
}

/// The names of `names` are all different: the first name that occurs
/// before is an error.
fn ensure_unique_actors(names: &Vec<ActorName>) -> (r: Result<(), BuildError>)
    ensures
        r is Ok <==> forall|a: int, b: int| 0 <= a < b < names@.len() ==> names@[a]@ != names@[b]@,
        r matches Err(e) ==> e matches BuildError::DuplicateActorName(n) && exists|i: int, j: int|
            0 <= i < j < names@.len() && #[trigger] names@[i]@ == n@ && #[trigger] names@[j]@ == n@,
{
    let mut i: usize = 0;
    while i < names.len()
        invariant
            i <= names@.len(),
            forall|a: int, b: int| 0 <= a < b < i ==> names@[a]@ != names@[b]@,
        decreases names@.len() - i,
    {
        let mut j: usize = 0;
        while j < i
            invariant
                j <= i < names@.len(),
                forall|a: int| 0 <= a < j ==> names@[a]@ != names@[i as int]@,
            decreases i - j,
        {
            if names[j].same_as(&names[i]) {
                return Err(BuildError::DuplicateActorName(names[i].duplicate()));
            }
            j = j + 1;
        }
        i = i + 1;
    }
    Ok(())
}

/// The names of `names` are all different: the first name that occurs
/// before is an error.
fn ensure_unique_dummies(names: &Vec<DummyName>) -> (r: Result<(), BuildError>)
    ensures
        r is Ok <==> forall|a: int, b: int| 0 <= a < b < names@.len() ==> names@[a]@ != names@[b]@,
        r matches Err(e) ==> e matches BuildError::DuplicateDummyName(n) && exists|i: int, j: int|
            0 <= i < j < names@.len() && #[trigger] names@[i]@ == n@ && #[trigger] names@[j]@ == n@,
{
    let mut i: usize = 0;
    while i < names.len()
        invariant
            i <= names@.len(),
            forall|a: int, b: int| 0 <= a < b < i ==> names@[a]@ != names@[b]@,
        decreases names@.len() - i,
    {
        let mut j: usize = 0;
        while j < i
            invariant
                j <= i < names@.len(),
                forall|a: int| 0 <= a < j ==> names@[a]@ != names@[i as int]@,
            decreases i - j,
        {
            if names[j].same_as(&names[i]) {
                return Err(BuildError::DuplicateDummyName(names[i].duplicate()));
            }
            j = j + 1;
        }
        i = i + 1;
    }
    Ok(())
}

/// The events of a scope, by name.
pub open spec fn events_view(m: Seq<(EventName, EventKey)>) -> Seq<(Seq<char>, EventKey)> {
    m.map_values(|e: (EventName, EventKey)| (e.0@, e.1))
}

/// The event named `name` in `m`, if any.
fn find_event(m: &Vec<(EventName, EventKey)>, name: &EventName) -> (r: Option<EventKey>)
    ensures
        r == lookup(events_view(m@), name@),
{
    let ghost v = events_view(m@);
    let mut i: usize = 0;
    while i < m.len()
        invariant
            v == events_view(m@),
            i <= m@.len(),
            forall|j: int| 0 <= j < i ==> v[j].0 != name@,
        decreases m@.len() - i,
    {
        if m[i].0.same_as(name) {
            proof {
                lemma_lookup_first(v, name@, i as int);
            }
            return Some(m[i].1);
        }
        i = i + 1;
    }
    proof {
        lemma_lookup_none(v, name@);
    }
    None
}

/// The actors of a scope, by name.
pub open spec fn actors_view(m: Seq<(ActorName, KeyActor)>) -> Seq<(Seq<char>, KeyActor)> {
    m.map_values(|e: (ActorName, KeyActor)| (e.0@, e.1))
}

/// The actor named `name` in `m`, if any.
fn find_actor(m: &Vec<(ActorName, KeyActor)>, name: &ActorName) -> (r: Option<KeyActor>)
    ensures
        r == lookup(actors_view(m@), name@),
{
    let ghost v = actors_view(m@);
    let mut i: usize = 0;
    while i < m.len()
        invariant
            v == actors_view(m@),
            i <= m@.len(),
            forall|j: int| 0 <= j < i ==> v[j].0 != name@,
        decreases m@.len() - i,
    {
        if m[i].0.same_as(name) {
            proof {
                lemma_lookup_first(v, name@, i as int);
            }
            return Some(m[i].1);
        }
        i = i + 1;
    }
    proof {
        lemma_lookup_none(v, name@);
    }
    None
}

/// The dummies of a scope, by name.
pub open spec fn dummies_view(m: Seq<(DummyName, KeyDummy)>) -> Seq<(Seq<char>, KeyDummy)> {
    m.map_values(|e: (DummyName, KeyDummy)| (e.0@, e.1))
}

/// The dummy named `name` in `m`, if any.
fn find_dummy(m: &Vec<(DummyName, KeyDummy)>, name: &DummyName) -> (r: Option<KeyDummy>)
    ensures
        r == lookup(dummies_view(m@), name@),
{
    let ghost v = dummies_view(m@);
    let mut i: usize = 0;
    while i < m.len()
        invariant
            v == dummies_view(m@),
            i <= m@.len(),
            forall|j: int| 0 <= j < i ==> v[j].0 != name@,
        decreases m@.len() - i,
    {
        if m[i].0.same_as(name) {
            proof {
                lemma_lookup_first(v, name@, i as int);
            }
            return Some(m[i].1);
        }
        i = i + 1;
    }
    proof {
        lemma_lookup_none(v, name@);
    }
    None
}

/// The FQN of the message type imported as `alias` in `m`, if any.
fn find_alias(m: &Vec<(MessageName, String)>, alias: &MessageName) -> (r: Option<String>)
    ensures
        match r {
            Some(f) => lookup(m@.map_values(|e: (MessageName, String)| (e.0@, e.1@)), alias@) == Some(f@),
            None => lookup(m@.map_values(|e: (MessageName, String)| (e.0@, e.1@)), alias@) is None,
        },
{
    let ghost v = m@.map_values(|e: (MessageName, String)| (e.0@, e.1@));
    let mut i: usize = 0;
    while i < m.len()
        invariant
            v == m@.map_values(|e: (MessageName, String)| (e.0@, e.1@)),
            i <= m@.len(),
            forall|j: int| 0 <= j < i ==> v[j].0 != alias@,
        decreases m@.len() - i,
    {
        if m[i].0.same_as(alias) {
            proof {
                lemma_lookup_first(v, alias@, i as int);
            }
            return Some(m[i].1.clone());
        }
        i = i + 1;
    }
    proof {
        lemma_lookup_none(v, alias@);
    }
    None
}

/// The scenario declared as the subroutine `name` in `subs`, if any.
fn find_sub(subs: &Vec<(SubroutineName, KeyScenario)>, name: &SubroutineName) -> (r: Option<KeyScenario>)
    ensures
        r == lookup(subs_view(subs@), name@),
{
    let ghost v = subs_view(subs@);
    let mut i: usize = 0;
    while i < subs.len()
        invariant
            v == subs_view(subs@),
            i <= subs@.len(),
            forall|j: int| 0 <= j < i ==> v[j].0 != name@,
        decreases subs@.len() - i,
    {
        if subs[i].0.same_as(name) {
            proof {
                lemma_lookup_first(v, name@, i as int);
            }
            return Some(subs[i].1);
        }
        i = i + 1;
    }
    proof {
        lemma_lookup_none(v, name@);
    }
    None
}

/// The events named by `names`, in `m`: the first unknown name is an error.
fn resolve_events(m: &Vec<(EventName, EventKey)>, names: &Vec<EventName>) -> (r: Result<Vec<EventKey>, BuildError>)
    ensures
        r is Ok <==> forall|i: int| 0 <= i < names@.len() ==> lookup(events_view(m@), (#[trigger] names@[i])@) is Some,
        r matches Ok(v) ==> v@.len() == names@.len() && forall|i: int|
            0 <= i < v@.len() ==> Some(#[trigger] v@[i]) == lookup(events_view(m@), names@[i]@),
        r matches Err(e) ==> e matches BuildError::UnknownEvent(n) && exists|i: int|
            0 <= i < names@.len() && #[trigger] names@[i]@ == n@ && lookup(events_view(m@), n@) is None,
{
    let mut out: Vec<EventKey> = Vec::new();
    let mut i: usize = 0;
    while i < names.len()
        invariant
            i <= names@.len(),
            out@.len() == i,
            forall|a: int| 0 <= a < i ==> Some(#[trigger] out@[a]) == lookup(events_view(m@), names@[a]@),
        decreases names@.len() - i,
    {
        match find_event(m, &names[i]) {
            Some(k) => {
                out.push(k);
            },
            None => {
                return Err(BuildError::UnknownEvent(names[i].duplicate()));
            },
        }
        i = i + 1;
    }
    assert forall|a: int| 0 <= a < names@.len() implies lookup(events_view(m@), (#[trigger] names@[a])@) is Some by {
        assert(Some(out@[a]) == lookup(events_view(m@), names@[a]@));
    }
    Ok(out)
}

/// `new` holds the items that `old` holds, unchanged: the same message
/// types, the same scopes first, the same events first with the same
/// names, and each actor and dummy known by the names it was known by.
pub open spec fn keeps(old: Executable, new: Executable) -> bool {
    &&& new.marshalling == old.marshalling
    &&& old.scopes@.len() <= new.scopes@.len()
    &&& new.scopes@.take(old.scopes@.len() as int) == old.scopes@
    &&& forall|k: EventKey| #[trigger] old.valid_key(k) ==> new.events.names.map()[k] == old.events.names.map()[k]
    &&& old.actors@.len() <= new.actors@.len()
    &&& forall|a: int| 0 <= a < old.actors@.len() ==> grows(old.actors@[a].known_as@, #[trigger] new.actors@[a].known_as@)
    &&& old.dummies@.len() <= new.dummies@.len()
    &&& forall|a: int| 0 <= a < old.dummies@.len() ==> grows(old.dummies@[a].known_as@, #[trigger] new.dummies@[a].known_as@)
    &&& grows(old.events.bind@, new.events.bind@)
    &&& grows(old.events.send@, new.events.send@)
    &&& grows(old.events.recv@, new.events.recv@)
    &&& grows(old.events.respond@, new.events.respond@)
    &&& grows(old.events.delay@, new.events.delay@)
}

/// `new` holds what `old` holds (see [keeps]), and each event that an
/// event unblocks in `new` and not in `old` is an event that `old` does
/// not hold.
pub open spec fn extends(old: Executable, new: Executable) -> bool {
    &&& keeps(old, new)
    &&& forall|p: EventKey, d: EventKey| #[trigger] new.unblocks(p).contains(d) ==> old.unblocks(p).contains(d) || !old.valid_key(d)
    &&& forall|p: EventKey, d: EventKey| #[trigger] old.unblocks(p).contains(d) ==> new.unblocks(p).contains(d)
}

/// A prefix of a prefix is a prefix.
proof fn lemma_grows_trans<T>(a: Seq<T>, b: Seq<T>, c: Seq<T>)
    requires
        grows(a, b),
        grows(b, c),
    ensures
        grows(a, c),
{
    assert forall|i: int| 0 <= i < a.len() implies #[trigger] c[i] == a[i] by {
        assert(c[i] == b[i]);
    }
}

/// What an executable keeps of another, a third that keeps it keeps too.
proof fn lemma_keeps_trans(a: Executable, b: Executable, c: Executable)
    requires
        keeps(a, b),
        keeps(b, c),
    ensures
        keeps(a, c),
{
    assert(c.scopes@.take(a.scopes@.len() as int) =~= c.scopes@.take(b.scopes@.len() as int).take(a.scopes@.len() as int));
    assert forall|k: EventKey| #[trigger] a.valid_key(k) implies c.events.names.map()[k] == a.events.names.map()[k] by {
        assert(b.valid_key(k));
    }
    assert forall|x: int| 0 <= x < a.actors@.len() implies grows(a.actors@[x].known_as@, #[trigger] c.actors@[x].known_as@) by {
        lemma_grows_trans(a.actors@[x].known_as@, b.actors@[x].known_as@, c.actors@[x].known_as@);
    }
    assert forall|x: int| 0 <= x < a.dummies@.len() implies grows(a.dummies@[x].known_as@, #[trigger] c.dummies@[x].known_as@) by {
        lemma_grows_trans(a.dummies@[x].known_as@, b.dummies@[x].known_as@, c.dummies@[x].known_as@);
    }
    lemma_grows_trans(a.events.bind@, b.events.bind@, c.events.bind@);
    lemma_grows_trans(a.events.send@, b.events.send@, c.events.send@);
    lemma_grows_trans(a.events.recv@, b.events.recv@, c.events.recv@);
    lemma_grows_trans(a.events.respond@, b.events.respond@, c.events.respond@);
    lemma_grows_trans(a.events.delay@, b.events.delay@, c.events.delay@);
}

proof fn lemma_extends_trans(a: Executable, b: Executable, c: Executable)
    requires
        extends(a, b),
        extends(b, c),
    ensures
        extends(a, c),
{
    lemma_keeps_trans(a, b, c);
    assert forall|p: EventKey, d: EventKey| #[trigger] c.unblocks(p).contains(d) implies a.unblocks(p).contains(d) || !a.valid_key(d) by {
        if b.unblocks(p).contains(d) {
        } else {
            assert(!b.valid_key(d));
        }
    }
}

proof fn lemma_extends_refl(a: Executable)
    ensures
        extends(a, a),
{
    assert(a.scopes@.take(a.scopes@.len() as int) =~= a.scopes@);
}

/// An executable that differs from `a` only in its events, where a name is
/// given to a key that `a` does not hold, and items are added, extends `a`.
proof fn lemma_extends_named(a: Executable, b: Executable, ek: EventKey, v: (KeyScope, EventName))
    requires
        b.marshalling == a.marshalling,
        b.scopes == a.scopes,
        b.actors == a.actors,
        b.dummies == a.dummies,
        grows(a.events.bind@, b.events.bind@),
        grows(a.events.send@, b.events.send@),
        grows(a.events.recv@, b.events.recv@),
        grows(a.events.respond@, b.events.respond@),
        grows(a.events.delay@, b.events.delay@),
        !a.valid_key(ek),
        b.events.names.map() == a.events.names.map().insert(ek, v),
        b.events.key_unblocks_values == a.events.key_unblocks_values,
    ensures
        extends(a, b),
{
    assert(b.scopes@.take(a.scopes@.len() as int) =~= a.scopes@);
    assert forall|k: EventKey| #[trigger] a.valid_key(k) implies b.events.names.map()[k] == a.events.names.map()[k] by {
        assert(k != ek);
    }
}

/// An actor known by a name stays known by it as the executable grows.
proof fn lemma_actor_named_keep(a: Executable, b: Executable, k: KeyActor, scope: KeyScope, n: Seq<char>)
    requires
        actor_named(a, k, scope, n),
        a.actors@.len() <= b.actors@.len(),
        grows(a.actors@[k.0 as int].known_as@, b.actors@[k.0 as int].known_as@),
    ensures
        actor_named(b, k, scope, n),
{
    let j = choose|j: int|
        0 <= j < a.actors@[k.0 as int].known_as@.len() && (#[trigger] a.actors@[k.0 as int].known_as@[j]).0 == scope
            && a.actors@[k.0 as int].known_as@[j].1@ == n;
    assert(b.actors@[k.0 as int].known_as@[j] == a.actors@[k.0 as int].known_as@[j]);
}

/// A dummy known by a name stays known by it as the executable grows.
proof fn lemma_dummy_named_keep(a: Executable, b: Executable, k: KeyDummy, scope: KeyScope, n: Seq<char>)
    requires
        dummy_named(a, k, scope, n),
        a.dummies@.len() <= b.dummies@.len(),
        grows(a.dummies@[k.0 as int].known_as@, b.dummies@[k.0 as int].known_as@),
    ensures
        dummy_named(b, k, scope, n),
{
    let j = choose|j: int|
        0 <= j < a.dummies@[k.0 as int].known_as@.len() && (#[trigger] a.dummies@[k.0 as int].known_as@[j]).0 == scope
            && a.dummies@[k.0 as int].known_as@[j].1@ == n;
    assert(b.dummies@[k.0 as int].known_as@[j] == a.dummies@[k.0 as int].known_as@[j]);
}

/// The items of an event stay as they are as the executable grows.
proof fn lemma_items_keep(a: Executable, b: Executable, code: SourceCode, i: int, scope: KeyScope, ev: DefEvent, head: EventKey, tail: EventKey)
    requires
        items_compiled(a, code, i, scope, ev, head, tail),
        keeps(a, b),
    ensures
        items_compiled(b, code, i, scope, ev, head, tail),
{
    match ev.kind {
        DefEventKind::Delay(d) => {},
        DefEventKind::Bind(bd) => {},
        DefEventKind::Recv(r) => {
            let k = tail->Recv_0;
            let x = a.events.recv@[k.0 as int];
            assert(b.events.recv@[k.0 as int] == x);
            if let Some(f) = x.from {
                lemma_actor_named_keep(a, b, f, scope, r.from->0@);
            }
            if let Some(t) = x.to {
                lemma_dummy_named_keep(a, b, t, scope, r.to->0@);
            }
        },
        DefEventKind::Send(sd) => {
            let k = tail->Send_0;
            let x = a.events.send@[k.0 as int];
            assert(b.events.send@[k.0 as int] == x);
            lemma_dummy_named_keep(a, b, x.from, scope, sd.from@);
            if let Some(t) = x.to {
                lemma_actor_named_keep(a, b, t, scope, sd.to->0@);
            }
        },
        DefEventKind::Respond(r) => {
            let k = tail->Respond_0;
            let x = a.events.respond@[k.0 as int];
            assert(b.events.respond@[k.0 as int] == x);
            assert(b.events.recv@[x.respond_to.0 as int] == a.events.recv@[x.respond_to.0 as int]);
            if let Some(t) = x.respond_from {
                lemma_dummy_named_keep(a, b, t, scope, r.from->0@);
            }
        },
        DefEventKind::Call(c) => {
            let kh = head->Bind_0;
            let kt = tail->Bind_0;
            assert(b.events.bind@[kh.0 as int] == a.events.bind@[kh.0 as int]);
            assert(b.events.bind@[kt.0 as int] == a.events.bind@[kt.0 as int]);
            let dst = a.events.bind@[kh.0 as int].scope->dst;
            assert(b.scopes@[dst.0 as int] == b.scopes@.take(a.scopes@.len() as int)[dst.0 as int]);
        },
    }
}

/// The edges of a call stay as they are as the executable grows, where
/// nothing new waits for its leaving.
proof fn lemma_call_edges_keep(a: Executable, b: Executable, code: SourceCode, i: int, scope: KeyScope, ev: DefEvent, head: EventKey, tail: EventKey)
    requires
        call_edges(a, code, ev, head, tail),
        items_compiled(a, code, i, scope, ev, head, tail),
        a.wf_graph(),
        keeps(a, b),
        forall|p: EventKey, d: EventKey| #[trigger] a.unblocks(p).contains(d) ==> b.unblocks(p).contains(d),
        forall|p: EventKey| #[trigger] b.unblocks(p).contains(tail) ==> a.unblocks(p).contains(tail),
    ensures
        call_edges(b, code, ev, head, tail),
{
    if ev.kind is Call {
        let kh = head->Bind_0;
        assert(b.events.bind@[kh.0 as int] == a.events.bind@[kh.0 as int]);
        let dst = a.events.bind@[kh.0 as int].scope->dst;
        assert(b.scopes@[dst.0 as int] == b.scopes@.take(a.scopes@.len() as int)[dst.0 as int]);
        let evs = code.sources@[a.scopes@[dst.0 as int].source_key.0 as int].scenario.events@;
        assert forall|f: int|
            0 <= f < evs.len() && evs[f].prerequisites@.len() == 0 implies #[trigger] unblocks_named(b, head, dst, head_name(evs[f])) by {
            assert(unblocks_named(a, head, dst, head_name(evs[f])));
            let x = choose|x: EventKey|
                #[trigger] a.unblocks(head).contains(x) && a.events.names.map()[x].0 == dst && a.events.names.map()[x].1@ == head_name(evs[f]);
            assert(b.unblocks(head).contains(x));
            assert(a.valid_key(x));
        }
        assert forall|f: int|
            0 <= f < evs.len() && evs[f].require == Some(RequiredToBe::Reached) implies #[trigger] waits_for(b, dst, tail, evs[f].id@) by {
            assert(waits_for(a, dst, tail, evs[f].id@));
            let p = choose|p: EventKey|
                #[trigger] a.unblocks(p).contains(tail) && a.valid_key(p) && a.events.names.map()[p].0 == dst
                    && a.events.names.map()[p].1@ == evs[f].id@;
            assert(b.unblocks(p).contains(tail));
        }
        assert forall|p: EventKey| #[trigger] b.unblocks(p).contains(tail) implies b.events.names.map()[p].0 == dst && exists|f: int|
            0 <= f < evs.len() && evs[f].require == Some(RequiredToBe::Reached) && b.events.names.map()[p].1@ == (#[trigger] evs[f]).id@ by {
            assert(a.unblocks(p).contains(tail));
            assert(a.valid_key(p));
        }
    }
}

/// A compiled event stays compiled as the executable grows.
proof fn lemma_compiled_keep(a: Executable, b: Executable, code: SourceCode, i: int, scope: KeyScope, ev: DefEvent, head: EventKey, tail: EventKey)
    requires
        compiled(a, code, i, scope, ev, head, tail),
        a.wf_graph(),
        keeps(a, b),
        edges_keep(a, b, scope),
        forall|p: EventKey, d: EventKey| #[trigger] a.unblocks(p).contains(d) ==> b.unblocks(p).contains(d),
    ensures
        compiled(b, code, i, scope, ev, head, tail),
{
    lemma_items_keep(a, b, code, i, scope, ev, head, tail);
    if ev.kind is Call {
        assert forall|p: EventKey| #[trigger] b.unblocks(p).contains(tail) implies a.unblocks(p).contains(tail) by {
            assert(leaves_into(b, tail, scope));
        }
        lemma_call_edges_keep(a, b, code, i, scope, ev, head, tail);
    }
    assert forall|x: int| 0 <= x < ev.prerequisites@.len() implies #[trigger] waits_for(b, scope, head, ev.prerequisites@[x]@) by {
        assert(waits_for(a, scope, head, ev.prerequisites@[x]@));
        let p = choose|p: EventKey|
            #[trigger] a.unblocks(p).contains(head) && a.valid_key(p) && a.events.names.map()[p].0 == scope
                && a.events.names.map()[p].1@ == ev.prerequisites@[x]@;
        assert(b.unblocks(p).contains(head));
        assert(b.events.names.map()[p] == a.events.names.map()[p]);
    }
    assert forall|p: EventKey|
        #[trigger] b.unblocks(p).contains(head) && b.events.names.map()[p].0 != scope implies ev.prerequisites@.len() == 0 && enters(b, scope, p) by {
        if a.unblocks(p).contains(head) {
            assert(a.valid_key(p));
            assert(b.events.names.map()[p] == a.events.names.map()[p]);
            assert(b.scopes@[scope.0 as int] == b.scopes@.take(a.scopes@.len() as int)[scope.0 as int]);
        } else {
            if ev.prerequisites@.len() > 0 {
                assert(waits_for(a, scope, head, ev.prerequisites@[0]@));
            }
        }
    }
    assert forall|p: EventKey| #[trigger] b.unblocks(p).contains(head) && b.events.names.map()[p].0 == scope implies named_prerequisite(b, scope, ev, p) by {
        assert(a.unblocks(p).contains(head));
        assert(a.valid_key(p));
    }
}

/// A scope whose events are compiled stays so as the executable grows.
proof fn lemma_scope_compiled_keep(a: Executable, b: Executable, code: SourceCode, s: KeyScope)
    requires
        a.scope_ok(s),
        scope_compiled(a, code, s),
        a.wf_graph(),
        keeps(a, b),
        edges_keep(a, b, s),
        forall|p: EventKey, d: EventKey| #[trigger] a.unblocks(p).contains(d) ==> b.unblocks(p).contains(d),
    ensures
        scope_compiled(b, code, s),
{
    assert(b.scopes@[s.0 as int] == b.scopes@.take(a.scopes@.len() as int)[s.0 as int]);
    let i = b.scopes@[s.0 as int].source_key.0 as int;
    assert(i == a.scopes@[s.0 as int].source_key.0 as int);
    assert forall|f: int| 0 <= f < code.sources@[i].scenario.events@.len() implies #[trigger] event_compiled(b, code, i, s, f) by {
        assert(event_compiled(a, code, i, s, f));
        let (h, t) = choose|h: EventKey, t: EventKey| #[trigger] compiled(a, code, i, s, code.sources@[i].scenario.events@[f], h, t);
        lemma_compiled_keep(a, b, code, i, s, code.sources@[i].scenario.events@[f], h, t);
    }
}

/// In `order`, the items `keys` of the events come at the positions `pos`,
/// the head of each just before its tail, neither of them again later, and
/// each event after the one before it.
spec fn in_order(order: Seq<EventKey>, keys: Seq<(EventKey, EventKey)>, pos: Seq<int>) -> bool {
    &&& pos.len() == keys.len()
    &&& forall|f: int|
        0 <= f < keys.len() ==> 0 <= #[trigger] pos[f] && pos[f] + 1 < order.len() && order[pos[f]] == keys[f].0 && order[pos[f] + 1] == keys[f].1
    &&& forall|f: int, g: int| 0 <= f < g < keys.len() ==> #[trigger] pos[f] + 1 < #[trigger] pos[g]
    &&& forall|f: int, j: int|
        #![trigger keys[f], order[j]]
        0 <= f < keys.len() && pos[f] + 1 < j < order.len() ==> order[j] != keys[f].0 && order[j] != keys[f].1
}

/// The items of `order` from `from` on are not items of `exe`.
spec fn fresh_from(order: Seq<EventKey>, from: int, exe: Executable) -> bool {
    forall|j: int| from <= j < order.len() ==> !exe.valid_key(#[trigger] order[j])
}

/// The events of the scope `t` of `exe` are compiled into items that come
/// in `order` in the order of their definition.
spec fn scope_ordered(exe: Executable, order: Seq<EventKey>, code: SourceCode, t: KeyScope) -> bool {
    let i = exe.scopes@[t.0 as int].source_key.0 as int;
    exists|keys: Seq<(EventKey, EventKey)>, pos: Seq<int>|
        #![trigger in_order(order, keys, pos)]
        {
            &&& keys.len() == code.sources@[i].scenario.events@.len()
            &&& in_order(order, keys, pos)
            &&& forall|f: int| 0 <= f < keys.len() ==> #[trigger] compiled(exe, code, i, t, code.sources@[i].scenario.events@[f], keys[f].0, keys[f].1)
        }
}

/// A scope whose items come in order stays so as the executable and the
/// order grow, where what is added to the order is new or of another scope.
proof fn lemma_scope_ordered_keep(a: Executable, b: Executable, oa: Seq<EventKey>, ob: Seq<EventKey>, code: SourceCode, t: KeyScope)
    requires
        a.scope_ok(t),
        scope_ordered(a, oa, code, t),
        a.wf_graph(),
        keeps(a, b),
        edges_keep(a, b, t),
        grows(oa, ob),
        forall|j: int| oa.len() <= j < ob.len() ==> !a.valid_key(#[trigger] ob[j]) || a.events.names.map()[ob[j]].0 != t,
        forall|p: EventKey, d: EventKey| #[trigger] a.unblocks(p).contains(d) ==> b.unblocks(p).contains(d),
    ensures
        scope_ordered(b, ob, code, t),
{
    assert(b.scopes@[t.0 as int] == b.scopes@.take(a.scopes@.len() as int)[t.0 as int]);
    let i = b.scopes@[t.0 as int].source_key.0 as int;
    let (keys, pos) = choose|keys: Seq<(EventKey, EventKey)>, pos: Seq<int>|
        #![trigger in_order(oa, keys, pos)]
        {
            &&& keys.len() == code.sources@[i].scenario.events@.len()
            &&& in_order(oa, keys, pos)
            &&& forall|f: int| 0 <= f < keys.len() ==> #[trigger] compiled(a, code, i, t, code.sources@[i].scenario.events@[f], keys[f].0, keys[f].1)
        };
    assert forall|f: int| 0 <= f < keys.len() implies #[trigger] compiled(b, code, i, t, code.sources@[i].scenario.events@[f], keys[f].0, keys[f].1) by {
        lemma_compiled_keep(a, b, code, i, t, code.sources@[i].scenario.events@[f], keys[f].0, keys[f].1);
    }
    assert forall|f: int|
        0 <= f < keys.len() implies 0 <= #[trigger] pos[f] && pos[f] + 1 < ob.len() && ob[pos[f]] == keys[f].0 && ob[pos[f] + 1] == keys[f].1 by {
        assert(ob[pos[f]] == oa[pos[f]]);
        assert(ob[pos[f] + 1] == oa[pos[f] + 1]);
    }
    assert forall|f: int, j: int|
        #![trigger keys[f], ob[j]]
        0 <= f < keys.len() && pos[f] + 1 < j < ob.len() implies ob[j] != keys[f].0 && ob[j] != keys[f].1 by {
        assert(compiled(a, code, i, t, code.sources@[i].scenario.events@[f], keys[f].0, keys[f].1));
        if j < oa.len() {
            assert(ob[j] == oa[j]);
        }
    }
    assert(in_order(ob, keys, pos));
}

/// Where `pr` gives each item of `order` the last position it holds there,
/// items that come in order have rising priorities.
proof fn lemma_priority_rises(pr: Map<EventKey, usize>, order: Seq<EventKey>, keys: Seq<(EventKey, EventKey)>, pos: Seq<int>)
    requires
        in_order(order, keys, pos),
        forall|j: int| 0 <= j < order.len() ==> pr.contains_key(#[trigger] order[j]) && pr[order[j]] >= j,
        forall|k: EventKey| #[trigger] pr.contains_key(k) ==> pr[k] < order.len() && order[pr[k] as int] == k,
    ensures
        forall|f: int|
            0 <= f < keys.len() ==> pr.contains_key(#[trigger] keys[f].0) && pr.contains_key(keys[f].1) && pr[keys[f].0] <= pr[keys[f].1],
        forall|f: int, g: int| 0 <= f < g < keys.len() ==> pr[#[trigger] keys[f].1] < pr[#[trigger] keys[g].0],
{
    assert forall|f: int| 0 <= f < keys.len() implies pr.contains_key(#[trigger] keys[f].1) && pr[keys[f].1] == pos[f] + 1 by {
        assert(order[pos[f] + 1] == keys[f].1);
        let v = pr[keys[f].1];
        assert(order[v as int] == keys[f].1);
        if v > pos[f] + 1 {
            assert(order[v as int] != keys[f].1);
        }
    }
    assert forall|f: int| 0 <= f < keys.len() implies pr.contains_key(#[trigger] keys[f].0) && pr.contains_key(keys[f].1) && pr[keys[f].0] <= pr[keys[f].1] by {
        assert(pr[keys[f].1] == pos[f] + 1);
        assert(order[pos[f]] == keys[f].0);
        let v = pr[keys[f].0];
        assert(order[v as int] == keys[f].0);
        if v > pos[f] + 1 {
            assert(order[v as int] != keys[f].0);
        }
    }
    assert forall|f: int, g: int| 0 <= f < g < keys.len() implies pr[#[trigger] keys[f].1] < pr[#[trigger] keys[g].0] by {
        assert(pr[keys[f].1] == pos[f] + 1);
        assert(pos[f] + 1 < pos[g]);
        assert(pr[keys[g].0] >= pos[g]) by {
            assert(order[pos[g]] == keys[g].0);
        }
    }
}

/// What adding a scenario gives back: its scope, the events it starts with
/// and the events it requires.
struct SubgraphAdded {
    scope_key: KeyScope,
    entry_points: EventSet,
    required: EventMap<RequiredToBe>,
}

/// An executable being built, with the order in which its events were
/// defined.
struct Builder {
    exe: Executable,
    order: Vec<EventKey>,
}

/// The names of a scope: message type aliases with their FQNs, actors,
/// dummies and the events defined so far, each with its key.
struct Names {
    aliases: Vec<(MessageName, String)>,
    actors: Vec<(ActorName, KeyActor)>,
    dummies: Vec<(DummyName, KeyDummy)>,
    events: Vec<(EventName, EventKey)>,
}

impl Names {
    /// Every name of the scope refers to an item of `exe`.
    spec fn fits(&self, exe: Executable) -> bool {
        &&& forall|i: int| 0 <= i < self.aliases@.len() ==> exe.marshalling.kind_of((#[trigger] self.aliases@[i]).1@) is Some
        &&& forall|i: int| 0 <= i < self.actors@.len() ==> exe.actor_ok((#[trigger] self.actors@[i]).1)
        &&& forall|i: int| 0 <= i < self.dummies@.len() ==> exe.dummy_ok((#[trigger] self.dummies@[i]).1)
        &&& forall|i: int| 0 <= i < self.events@.len() ==> exe.valid_key((#[trigger] self.events@[i]).1)
    }
}

impl Names {
    /// The names are those that the scenario `s` declares, and the events
    /// are the first `e` events of `s`.
    spec fn declares(&self, s: Scenario, e: int) -> bool {
        &&& self.aliases@.len() == s.types@.len()
        &&& forall|j: int| 0 <= j < self.aliases@.len() ==> (#[trigger] self.aliases@[j]).0@ == s.types@[j].type_alias@
            && self.aliases@[j].1@ == s.types@[j].type_fqn@
        &&& self.actors@.len() == s.actors@.len()
        &&& forall|j: int| 0 <= j < self.actors@.len() ==> (#[trigger] self.actors@[j]).0@ == s.actors@[j]@
        &&& self.dummies@.len() == s.dummies@.len()
        &&& forall|j: int| 0 <= j < self.dummies@.len() ==> (#[trigger] self.dummies@[j]).0@ == s.dummies@[j]@
        &&& self.events@.len() == e
        &&& forall|j: int| 0 <= j < e ==> (#[trigger] self.events@[j]).0@ == s.events@[j].id@
    }
}

impl Names {
    /// In `exe`, each actor and dummy of the names is known by its name in
    /// `scope`, and each event is named by its name in `scope`.
    spec fn known_in(&self, exe: Executable, scope: KeyScope) -> bool {
        &&& forall|j: int| 0 <= j < self.actors@.len() ==> actor_named(exe, (#[trigger] self.actors@[j]).1, scope, self.actors@[j].0@)
        &&& forall|j: int| 0 <= j < self.dummies@.len() ==> dummy_named(exe, (#[trigger] self.dummies@[j]).1, scope, self.dummies@[j].0@)
        &&& forall|j: int| 0 <= j < self.events@.len() ==> {
            &&& (#[trigger] exe.events.names.map()[self.events@[j].1]).0 == scope
            &&& exe.events.names.map()[self.events@[j].1].1@ == self.events@[j].0@
        }
    }
}

/// What the names of a scope know stays known as the executable grows.
proof fn lemma_known_keep(n: &Names, a: Executable, b: Executable, scope: KeyScope)
    requires
        n.known_in(a, scope),
        n.fits(a),
        keeps(a, b),
    ensures
        n.known_in(b, scope),
{
    assert forall|j: int| 0 <= j < n.actors@.len() implies actor_named(b, (#[trigger] n.actors@[j]).1, scope, n.actors@[j].0@) by {
        let k = n.actors@[j].1;
        lemma_actor_named_keep(a, b, k, scope, n.actors@[j].0@);
    }
    assert forall|j: int| 0 <= j < n.dummies@.len() implies dummy_named(b, (#[trigger] n.dummies@[j]).1, scope, n.dummies@[j].0@) by {
        let k = n.dummies@[j].1;
        lemma_dummy_named_keep(a, b, k, scope, n.dummies@[j].0@);
    }
    assert forall|j: int| 0 <= j < n.events@.len() implies {
        &&& (#[trigger] b.events.names.map()[n.events@[j].1]).0 == scope
        &&& b.events.names.map()[n.events@[j].1].1@ == n.events@[j].0@
    } by {
        assert(a.valid_key(n.events@[j].1));
    }
}

/// The aliases of the names of a scope are those its scenario imports.
proof fn lemma_aliases_view(n: &Names, s: Scenario, e: int)
    requires
        n.declares(s, e),
    ensures
        n.aliases@.map_values(|x: (MessageName, String)| (x.0@, x.1@)) == aliases_view(s.types@),
{
    assert(n.aliases@.map_values(|x: (MessageName, String)| (x.0@, x.1@)) =~= aliases_view(s.types@));
}

/// The actor that the names of a scope give for `a` is known as `a` there.
proof fn lemma_actor_found(n: &Names, exe: Executable, scope: KeyScope, a: Seq<char>)
    requires
        n.known_in(exe, scope),
        lookup(actors_view(n.actors@), a) is Some,
    ensures
        actor_named(exe, lookup(actors_view(n.actors@), a)->0, scope, a),
{
    let t = lemma_lookup_in(actors_view(n.actors@), a);
    assert(actor_named(exe, n.actors@[t].1, scope, n.actors@[t].0@));
}

/// The dummy that the names of a scope give for `d` is known as `d` there.
proof fn lemma_dummy_found(n: &Names, exe: Executable, scope: KeyScope, d: Seq<char>)
    requires
        n.known_in(exe, scope),
        lookup(dummies_view(n.dummies@), d) is Some,
    ensures
        dummy_named(exe, lookup(dummies_view(n.dummies@), d)->0, scope, d),
{
    let t = lemma_lookup_in(dummies_view(n.dummies@), d);
    assert(dummy_named(exe, n.dummies@[t].1, scope, n.dummies@[t].0@));
}

/// The event that the names of a scope give for `q` is named `q` there.
proof fn lemma_event_found(n: &Names, exe: Executable, scope: KeyScope, q: Seq<char>)
    requires
        n.known_in(exe, scope),
        n.fits(exe),
        lookup(events_view(n.events@), q) is Some,
    ensures
        exe.valid_key(lookup(events_view(n.events@), q)->0),
        exe.events.names.map()[lookup(events_view(n.events@), q)->0].0 == scope,
        exe.events.names.map()[lookup(events_view(n.events@), q)->0].1@ == q,
{
    let t = lemma_lookup_in(events_view(n.events@), q);
    assert(exe.events.names.map()[n.events@[t].1].0 == scope);
}

/// An alias that the names of a scope lack, its scenario does not import.
proof fn lemma_alias_absent(n: &Names, s: Scenario, e: int, a: Seq<char>)
    requires
        n.declares(s, e),
        lookup(n.aliases@.map_values(|x: (MessageName, String)| (x.0@, x.1@)), a) is None,
    ensures
        forall|x: int| 0 <= x < s.types@.len() ==> s.types@[x].type_alias@ != a,
{
    let v = n.aliases@.map_values(|x: (MessageName, String)| (x.0@, x.1@));
    assert forall|x: int| 0 <= x < s.types@.len() implies s.types@[x].type_alias@ != a by {
        if s.types@[x].type_alias@ == a {
            assert(n.aliases@[x].0@ == a);
            lemma_lookup_some(v, a, x);
        }
    }
}

/// An actor that the names of a scope lack, its scenario does not declare.
proof fn lemma_actor_absent(n: &Names, s: Scenario, e: int, a: Seq<char>)
    requires
        n.declares(s, e),
        lookup(actors_view(n.actors@), a) is None,
    ensures
        forall|x: int| 0 <= x < s.actors@.len() ==> s.actors@[x]@ != a,
{
    assert forall|x: int| 0 <= x < s.actors@.len() implies s.actors@[x]@ != a by {
        if s.actors@[x]@ == a {
            assert(n.actors@[x].0@ == a);
            lemma_lookup_some(actors_view(n.actors@), a, x);
        }
    }
}

/// A dummy that the names of a scope lack, its scenario does not declare.
proof fn lemma_dummy_absent(n: &Names, s: Scenario, e: int, d: Seq<char>)
    requires
        n.declares(s, e),
        lookup(dummies_view(n.dummies@), d) is None,
    ensures
        forall|x: int| 0 <= x < s.dummies@.len() ==> s.dummies@[x]@ != d,
{
    assert forall|x: int| 0 <= x < s.dummies@.len() implies s.dummies@[x]@ != d by {
        if s.dummies@[x]@ == d {
            assert(n.dummies@[x].0@ == d);
            lemma_lookup_some(dummies_view(n.dummies@), d, x);
        }
    }
}

/// An event that the names of a scope lack is not among the first `e`
/// events of its scenario.
proof fn lemma_event_absent(n: &Names, s: Scenario, e: int, name: Seq<char>)
    requires
        n.declares(s, e),
        lookup(events_view(n.events@), name) is None,
    ensures
        forall|f: int| 0 <= f < e ==> s.events@[f].id@ != name,
{
    assert forall|f: int| 0 <= f < e implies s.events@[f].id@ != name by {
        if s.events@[f].id@ == name {
            assert(n.events@[f].0@ == name);
            lemma_lookup_some(events_view(n.events@), name, f);
        }
    }
}

/// An event that the names of a scope hold is among the first `e` events
/// of its scenario.
proof fn lemma_event_present(n: &Names, s: Scenario, e: int, name: Seq<char>)
    requires
        n.declares(s, e),
        lookup(events_view(n.events@), name) is Some,
    ensures
        exists|f: int| 0 <= f < e && s.events@[f].id@ == name,
{
    let j = lemma_lookup_in(events_view(n.events@), name);
    assert(n.events@[j].0@ == name);
    assert(s.events@[j].id@ == name);
}

/// The names of a scope stay valid as the executable grows.
proof fn lemma_names_grow(n: &Names, a: Executable, b: Executable)
    requires
        n.fits(a),
        extends(a, b),
    ensures
        n.fits(b),
{
    assert forall|i: int| 0 <= i < n.events@.len() implies b.valid_key((#[trigger] n.events@[i]).1) by {
        assert(a.valid_key(n.events@[i].1));
    }
}

/// The FQN that `alias` stands for, in `n`, is known.
proof fn lemma_alias_known(n: &Names, exe: Executable, alias: Seq<char>)
    requires
        n.fits(exe),
        lookup(n.aliases@.map_values(|e: (MessageName, String)| (e.0@, e.1@)), alias) is Some,
    ensures
        exe.marshalling.kind_of(lookup(n.aliases@.map_values(|e: (MessageName, String)| (e.0@, e.1@)), alias)->0) is Some,
{
    let v = n.aliases@.map_values(|e: (MessageName, String)| (e.0@, e.1@));
    let i = lemma_lookup_in(v, alias);
    assert(exe.marshalling.kind_of(n.aliases@[i].1@) is Some);
}

/// Every event of the loaded scenarios has bounded durations and names each
/// prerequisite once.
pub open spec fn events_ok(code: SourceCode) -> bool {
    forall|i: int, e: int|
        0 <= i < code.sources@.len() && 0 <= e < code.sources@[i].scenario.events@.len() ==> {
            &&& durations_ok(#[trigger] code.sources@[i].scenario.events@[e])
            &&& prerequisites_distinct(code.sources@[i].scenario.events@[e])
        }
}

/// An event that no event unblocks in `a` is unblocked by none in `b`.
proof fn lemma_untouched(a: Executable, b: Executable, x: EventKey)
    requires
        extends(a, b),
        a.valid_key(x),
        forall|p: EventKey| !(#[trigger] a.unblocks(p)).contains(x),
    ensures
        forall|p: EventKey| !(#[trigger] b.unblocks(p)).contains(x),
{
    assert forall|p: EventKey| !(#[trigger] b.unblocks(p)).contains(x) by {
        if b.unblocks(p).contains(x) {
            assert(a.unblocks(p).contains(x));
        }
    }
}

impl Builder {
    /// Makes `d` wait for `p`, where both are events of the executable.
    fn add_unblock(&mut self, p: EventKey, d: EventKey)
        requires
            old(self).exe.wf_graph(),
            old(self).exe.valid_key(p),
            old(self).exe.valid_key(d),
        ensures
            final(self).exe.wf_graph(),
            final(self).exe == (Executable {
                events: Events { key_unblocks_values: final(self).exe.events.key_unblocks_values, ..old(self).exe.events },
                ..old(self).exe
            }),
            final(self).order == old(self).order,
            forall|q: EventKey, x: EventKey| #[trigger] final(self).exe.unblocks(q).contains(x) <==> old(self).exe.unblocks(q).contains(x) || (q == p && x == d),
    {
        let ghost before = self.exe;
        insert_into(&mut self.exe.events.key_unblocks_values, p, d);
        proof {
            let exe = self.exe;
            assert forall|q: EventKey, x: EventKey| #[trigger] exe.unblocks(q).contains(x) <==> before.unblocks(q).contains(x) || (q == p && x == d) by {
                if q != p {
                    if before.events.key_unblocks_values.map().contains_key(q) {
                        assert(exe.events.key_unblocks_values.map()[q] == before.events.key_unblocks_values.map()[q]);
                    }
                }
            }
            assert forall|q: EventKey| #[trigger] exe.events.key_unblocks_values.map().contains_key(q) implies {
                &&& exe.valid_key(q)
                &&& exe.events.key_unblocks_values.map()[q].wf()
                &&& forall|x: EventKey| #[trigger] exe.events.key_unblocks_values.map()[q].set().contains(x) ==> exe.valid_key(x)
            } by {
                assert forall|x: EventKey| #[trigger] exe.events.key_unblocks_values.map()[q].set().contains(x) implies exe.valid_key(x) by {
                    assert(exe.unblocks(q).contains(x));
                    if !(q == p && x == d) {
                        assert(before.unblocks(q).contains(x));
                    }
                }
            }
        }
    }

    /// Adds the event `e` of the scenario `sk` to the scope `scope`, with
    /// the names `names` of the scope. Returns the key of its first item,
    /// which waits for its prerequisites, and of its last, which the events
    /// that wait for it wait for; the two differ for a call of a
    /// subroutine, which enters the subroutine and leaves it.
    #[verifier::rlimit(80)]
    #[verifier::spinoff_prover]
    fn add_event(
        &mut self,
        code: &SourceCode,
        sk: KeyScenario,
        e: usize,
        scope: KeyScope,
        names: &Names,
        Ghost(rank): Ghost<spec_fn(int) -> nat>,
    ) -> (r: Result<(EventKey, EventKey), BuildError>)
        requires
            old(self).exe.wf_graph(),
            ranked_by(*code, rank),
            events_ok(*code),
            sk.0 < code.sources@.len(),
            e < code.sources@[sk.0 as int].scenario.events@.len(),
            old(self).exe.scope_ok(scope),
            names.fits(old(self).exe),
            names.declares(code.sources@[sk.0 as int].scenario, e as int),
            names.known_in(old(self).exe, scope),
            forall|f: int| 0 <= f < e ==> #[trigger] recv_tail(old(self).exe, *code, sk.0 as int, scope, code.sources@[sk.0 as int].scenario.events@[f], names.events@[f].1),
        ensures
            r matches Err(err) ==> fault_from(*code, old(self).exe.marshalling, sk.0 as int, err),
            r matches Ok((head, tail)) ==> {
                &&& items_compiled(final(self).exe, *code, sk.0 as int, scope, code.sources@[sk.0 as int].scenario.events@[e as int], head, tail)
                &&& call_edges(final(self).exe, *code, code.sources@[sk.0 as int].scenario.events@[e as int], head, tail)
                &&& grows(old(self).order@, final(self).order@)
                &&& fresh_from(final(self).order@, old(self).order@.len() as int, old(self).exe)
                &&& forall|s: KeyScope| old(self).exe.scopes@.len() <= s.0 < final(self).exe.scopes@.len() ==> #[trigger] scope_compiled(final(self).exe, *code, s)
                &&& forall|s: KeyScope| old(self).exe.scopes@.len() <= s.0 < final(self).exe.scopes@.len() ==> #[trigger] scope_ordered(final(self).exe, final(self).order@, *code, s)
                &&& final(self).exe.wf_graph()
                &&& extends(old(self).exe, final(self).exe)
                &&& final(self).exe.valid_key(head)
                &&& !old(self).exe.valid_key(head)
                &&& final(self).exe.valid_key(tail)
                &&& !old(self).exe.valid_key(tail)
                &&& forall|p: EventKey| !(#[trigger] final(self).exe.unblocks(p)).contains(head)
                &&& final(self).exe.events.names.map()[tail].0 == scope
                &&& final(self).exe.events.names.map()[tail].1@ == code.sources@[sk.0 as int].scenario.events@[e as int].id@
                &&& final(self).exe.events.names.map()[head].0 == scope
                &&& final(self).exe.events.names.map()[head].1@ == head_name(code.sources@[sk.0 as int].scenario.events@[e as int])
            },
        decreases rank(sk.0 as int), 0int,
    {
        let ghost s0 = self.exe;
        let src: &Source = &code.sources[sk.0];
        let ev: &DefEvent = &src.scenario.events[e];
        proof {
            assert(durations_ok(*ev));
        }
        match &ev.kind {
            DefEventKind::Delay(d) => {
                let k = KeyDelay(self.exe.events.delay.len());
                self.exe.events.delay.push(EventDelay { delay_for: d.delay_for, delay_step: d.delay_step });
                let ek = EventKey::Delay(k);
                self.exe.events.names.insert(ek, (scope, ev.id.duplicate()));
                proof {
                    assert(grows(s0.events.delay@, self.exe.events.delay@));
                    lemma_extends_named(s0, self.exe, ek, self.exe.events.names.map()[ek]);
                    assert(self.exe.unblocks(ek) == s0.unblocks(ek));
                    assert forall|p: EventKey| !(#[trigger] self.exe.unblocks(p)).contains(ek) by {
                        if s0.unblocks(p).contains(ek) {
                            assert(s0.valid_key(ek));
                        }
                    }
                }
                Ok((ek, ek))
            },
            DefEventKind::Bind(b) => {
                let k = KeyBind(self.exe.events.bind.len());
                self.exe.events.bind.push(EventBind { dst: b.dst.duplicate(), src: b.src.duplicate(), scope: BindScope::Same(scope) });
                let ek = EventKey::Bind(k);
                self.exe.events.names.insert(ek, (scope, ev.id.duplicate()));
                proof {
                    assert(grows(s0.events.bind@, self.exe.events.bind@));
                    lemma_extends_named(s0, self.exe, ek, self.exe.events.names.map()[ek]);
                    assert forall|p: EventKey| !(#[trigger] self.exe.unblocks(p)).contains(ek) by {
                        if s0.unblocks(p).contains(ek) {
                            assert(s0.valid_key(ek));
                        }
                    }
                }
                Ok((ek, ek))
            },
            DefEventKind::Recv(rv) => {
                let fqn = match find_alias(&names.aliases, &rv.message_type) {
                    Some(f) => f,
                    None => {
                        let err = BuildError::UnknownAlias(rv.message_type.duplicate());
                        proof {
                            lemma_alias_absent(names, src.scenario, e as int, rv.message_type@);
                            assert(mentions_alias(src.scenario.events@[e as int], rv.message_type@));
                            lemma_fault(*code, s0.marshalling, sk.0 as int, err);
                        }
                        return Err(err);
                    },
                };
                proof {
                    lemma_alias_known(names, s0, rv.message_type@);
                }
                let from = match &rv.from {
                    Some(n) => match find_actor(&names.actors, n) {
                        Some(a) => {
                            proof {
                                let i = lemma_lookup_in(actors_view(names.actors@), n@);
                                assert(s0.actor_ok(names.actors@[i].1));
                            }
                            Some(a)
                        },
                        None => {
                            let err = BuildError::UnknownActor(n.duplicate());
                            proof {
                                lemma_actor_absent(names, src.scenario, e as int, n@);
                                assert(mentions_actor(src.scenario.events@[e as int], n@));
                                lemma_fault(*code, s0.marshalling, sk.0 as int, err);
                            }
                            return Err(err);
                        },
                    },
                    None => None,
                };
                let to = match &rv.to {
                    Some(n) => match find_dummy(&names.dummies, n) {
                        Some(a) => {
                            proof {
                                let i = lemma_lookup_in(dummies_view(names.dummies@), n@);
                                assert(s0.dummy_ok(names.dummies@[i].1));
                            }
                            Some(a)
                        },
                        None => {
                            let err = BuildError::UnknownDummy(n.duplicate());
                            proof {
                                lemma_dummy_absent(names, src.scenario, e as int, n@);
                                assert(mentions_dummy(src.scenario.events@[e as int], n@));
                                lemma_fault(*code, s0.marshalling, sk.0 as int, err);
                            }
                            return Err(err);
                        },
                    },
                    None => None,
                };
                let mut matchers: Vec<DstPattern> = Vec::new();
                matchers.push(rv.message_data.duplicate());
                let mut i: usize = 0;
                while i < rv.also_match_data.len()
                    invariant
                        i <= rv.also_match_data@.len(),
                        matchers@.len() == i + 1,
                        matchers@[0].0@ == rv.message_data.0@,
                        forall|j: int| 0 <= j < i ==> matchers@[j + 1].0@ == (#[trigger] rv.also_match_data@[j]).0@,
                    decreases rv.also_match_data@.len() - i,
                {
                    matchers.push(rv.also_match_data[i].duplicate());
                    i = i + 1;
                }
                proof {
                    lemma_aliases_view(names, src.scenario, e as int);
                    if rv.from is Some {
                        lemma_actor_found(names, s0, scope, rv.from->0@);
                    }
                    if rv.to is Some {
                        lemma_dummy_found(names, s0, scope, rv.to->0@);
                    }
                }
                let k = KeyRecv(self.exe.events.recv.len());
                self.exe.events.recv.push(EventRecv {
                    scope_key: scope,
                    from,
                    to,
                    fqn,
                    after_duration: rv.after_duration,
                    before_duration: rv.before_duration,
                    payload_matchers: matchers,
                });
                let ek = EventKey::Recv(k);
                self.exe.events.names.insert(ek, (scope, ev.id.duplicate()));
                proof {
                    assert(grows(s0.events.recv@, self.exe.events.recv@));
                    lemma_extends_named(s0, self.exe, ek, self.exe.events.names.map()[ek]);
                    assert forall|p: EventKey| !(#[trigger] self.exe.unblocks(p)).contains(ek) by {
                        if s0.unblocks(p).contains(ek) {
                            assert(s0.valid_key(ek));
                        }
                    }
                }
                Ok((ek, ek))
            },
            DefEventKind::Respond(rs) => {
                let cause = match find_event(&names.events, &rs.to_request) {
                    Some(c) => c,
                    None => {
                        let err = BuildError::UnknownEvent(rs.to_request.duplicate());
                        proof {
                            lemma_event_absent(names, src.scenario, e as int, rs.to_request@);
                            assert(mentions_event(src.scenario.events@[e as int], rs.to_request@));
                            lemma_fault(*code, s0.marshalling, sk.0 as int, err);
                        }
                        return Err(err);
                    },
                };
                let ghost t = lemma_lookup_in(events_view(names.events@), rs.to_request@);
                proof {
                    assert(s0.valid_key(names.events@[t].1));
                    lemma_event_found(names, s0, scope, rs.to_request@);
                    assert(recv_tail(s0, *code, sk.0 as int, scope, src.scenario.events@[t], names.events@[t].1));
                    assert forall|g: int| 0 <= g < t implies src.scenario.events@[g].id@ != rs.to_request@ by {
                        assert(events_view(names.events@)[g].0 != rs.to_request@);
                    }
                }
                let recv_key = match cause {
                    EventKey::Recv(k) => k,
                    _ => {
                        let err = BuildError::NotARequest(rs.to_request.duplicate());
                        proof {
                            assert(src.scenario.events@[e as int] == *ev);
                            assert(source_fault(*code, s0.marshalling, sk.0 as int, err)) by {
                                assert(src.scenario.events@[t].id@ == err->NotARequest_0@);
                            }
                            lemma_fault(*code, s0.marshalling, sk.0 as int, err);
                        }
                        return Err(err);
                    },
                };
                let request_type = self.exe.events.recv[recv_key.0].fqn.clone();
                match self.exe.marshalling.resolve(request_type.as_str()) {
                    Some(MarshallerKind::Request) => {},
                    _ => {
                        let err = BuildError::NotARequest(rs.to_request.duplicate());
                        proof {
                            assert(src.scenario.events@[e as int] == *ev);
                            assert(source_fault(*code, s0.marshalling, sk.0 as int, err)) by {
                                assert(src.scenario.events@[t].id@ == err->NotARequest_0@);
                            }
                            lemma_fault(*code, s0.marshalling, sk.0 as int, err);
                        }
                        return Err(err);
                    },
                }
                let respond_from = match &rs.from {
                    Some(n) => match find_dummy(&names.dummies, n) {
                        Some(a) => {
                            proof {
                                let i = lemma_lookup_in(dummies_view(names.dummies@), n@);
                                assert(s0.dummy_ok(names.dummies@[i].1));
                            }
                            Some(a)
                        },
                        None => {
                            let err = BuildError::UnknownDummy(n.duplicate());
                            proof {
                                lemma_dummy_absent(names, src.scenario, e as int, n@);
                                assert(mentions_dummy(src.scenario.events@[e as int], n@));
                                lemma_fault(*code, s0.marshalling, sk.0 as int, err);
                            }
                            return Err(err);
                        },
                    },
                    None => None,
                };
                proof {
                    if rs.from is Some {
                        lemma_dummy_found(names, s0, scope, rs.from->0@);
                    }
                }
                let k = KeyRespond(self.exe.events.respond.len());
                self.exe.events.respond.push(EventRespond {
                    scope_key: scope,
                    respond_to: recv_key,
                    request_type,
                    respond_from,
                    payload: rs.data.duplicate(),
                });
                let ek = EventKey::Respond(k);
                self.exe.events.names.insert(ek, (scope, ev.id.duplicate()));
                proof {
                    assert(grows(s0.events.respond@, self.exe.events.respond@));
                    lemma_extends_named(s0, self.exe, ek, self.exe.events.names.map()[ek]);
                    assert(self.exe.events.names.map()[EventKey::Recv(recv_key)] == s0.events.names.map()[EventKey::Recv(recv_key)]);
                    assert forall|p: EventKey| !(#[trigger] self.exe.unblocks(p)).contains(ek) by {
                        if s0.unblocks(p).contains(ek) {
                            assert(s0.valid_key(ek));
                        }
                    }
                }
                Ok((ek, ek))
            },
            DefEventKind::Send(sd) => {
                let fqn = match find_alias(&names.aliases, &sd.message_type) {
                    Some(f) => f,
                    None => {
                        let err = BuildError::UnknownAlias(sd.message_type.duplicate());
                        proof {
                            lemma_alias_absent(names, src.scenario, e as int, sd.message_type@);
                            assert(mentions_alias(src.scenario.events@[e as int], sd.message_type@));
                            lemma_fault(*code, s0.marshalling, sk.0 as int, err);
                        }
                        return Err(err);
                    },
                };
                proof {
                    lemma_alias_known(names, s0, sd.message_type@);
                }
                let to = match &sd.to {
                    Some(n) => match find_actor(&names.actors, n) {
                        Some(a) => {
                            proof {
                                let i = lemma_lookup_in(actors_view(names.actors@), n@);
                                assert(s0.actor_ok(names.actors@[i].1));
                            }
                            Some(a)
                        },
                        None => {
                            let err = BuildError::UnknownActor(n.duplicate());
                            proof {
                                lemma_actor_absent(names, src.scenario, e as int, n@);
                                assert(mentions_actor(src.scenario.events@[e as int], n@));
                                lemma_fault(*code, s0.marshalling, sk.0 as int, err);
                            }
                            return Err(err);
                        },
                    },
                    None => None,
                };
                let from = match find_dummy(&names.dummies, &sd.from) {
                    Some(a) => {
                        proof {
                            let i = lemma_lookup_in(dummies_view(names.dummies@), sd.from@);
                            assert(s0.dummy_ok(names.dummies@[i].1));
                        }
                        a
                    },
                    None => {
                        let err = BuildError::UnknownDummy(sd.from.duplicate());
                        proof {
                            lemma_dummy_absent(names, src.scenario, e as int, sd.from@);
                            assert(mentions_dummy(src.scenario.events@[e as int], sd.from@));
                            lemma_fault(*code, s0.marshalling, sk.0 as int, err);
                        }
                        return Err(err);
                    },
                };
                proof {
                    lemma_aliases_view(names, src.scenario, e as int);
                    lemma_dummy_found(names, s0, scope, sd.from@);
                    if sd.to is Some {
                        lemma_actor_found(names, s0, scope, sd.to->0@);
                    }
                }
                let k = KeySend(self.exe.events.send.len());
                self.exe.events.send.push(EventSend {
                    scope_key: scope,
                    from,
                    to,
                    fqn,
                    payload: sd.message_data.duplicate(),
                });
                let ek = EventKey::Send(k);
                self.exe.events.names.insert(ek, (scope, ev.id.duplicate()));
                proof {
                    assert(grows(s0.events.send@, self.exe.events.send@));
                    lemma_extends_named(s0, self.exe, ek, self.exe.events.names.map()[ek]);
                    assert forall|p: EventKey| !(#[trigger] self.exe.unblocks(p)).contains(ek) by {
                        if s0.unblocks(p).contains(ek) {
                            assert(s0.valid_key(ek));
                        }
                    }
                }
                Ok((ek, ek))
            },
            DefEventKind::Call(c) => {
                let sub = match find_sub(&src.subroutines, &c.subroutine_name) {
                    Some(k) => k,
                    None => {
                        let err = BuildError::UnknownSubroutine(c.subroutine_name.duplicate());
                        proof {
                            lemma_fault(*code, s0.marshalling, sk.0 as int, err);
                        }
                        return Err(err);
                    },
                };
                proof {
                    assert(called(*code, sk.0 as int, c.subroutine_name@) == Some(sub));
                }
                // the actors and the dummies of the caller, by their names in the subroutine
                let mut sub_actors: BiHashMap<String, u64> = bimap_new();
                let mut i: usize = 0;
                while i < c.actors.len()
                    invariant
                        self.exe == s0,
                        names.fits(s0),
                        names.declares(code.sources@[sk.0 as int].scenario, e as int),
                        sk.0 < code.sources@.len(),
                        e < code.sources@[sk.0 as int].scenario.events@.len(),
                        *src == code.sources@[sk.0 as int],
                        *ev == src.scenario.events@[e as int],
                        ev.kind == DefEventKind::Call(*c),
                        i <= c.actors@.len(),
                        forall|n: Seq<char>, a: u64| #[trigger] bimap_pairs(sub_actors).contains((n, a)) ==> a < s0.actors@.len(),
                    decreases c.actors@.len() - i,
                {
                    let (this_name, sub_name) = &c.actors[i];
                    match find_actor(&names.actors, this_name) {
                        Some(k) => {
                            proof {
                                let t = lemma_lookup_in(actors_view(names.actors@), this_name@);
                                assert(s0.actor_ok(names.actors@[t].1));
                            }
                            bimap_insert(&mut sub_actors, String::from_str(sub_name.as_str()), k.0 as u64);
                        },
                        None => {
                            let err = BuildError::UnknownActor(this_name.duplicate());
                            proof {
                                lemma_actor_absent(names, src.scenario, e as int, this_name@);
                                assert(c.actors@[i as int].0@ == this_name@);
                                assert(mentions_actor(src.scenario.events@[e as int], this_name@));
                                lemma_fault(*code, s0.marshalling, sk.0 as int, err);
                            }
                            return Err(err);
                        },
                    }
                    i = i + 1;
                }
                let mut sub_dummies: BiHashMap<String, u64> = bimap_new();
                let mut i: usize = 0;
                while i < c.dummies.len()
                    invariant
                        self.exe == s0,
                        names.fits(s0),
                        names.declares(code.sources@[sk.0 as int].scenario, e as int),
                        sk.0 < code.sources@.len(),
                        e < code.sources@[sk.0 as int].scenario.events@.len(),
                        *src == code.sources@[sk.0 as int],
                        *ev == src.scenario.events@[e as int],
                        ev.kind == DefEventKind::Call(*c),
                        i <= c.dummies@.len(),
                        forall|n: Seq<char>, a: u64| #[trigger] bimap_pairs(sub_dummies).contains((n, a)) ==> a < s0.dummies@.len(),
                    decreases c.dummies@.len() - i,
                {
                    let (this_name, sub_name) = &c.dummies[i];
                    match find_dummy(&names.dummies, this_name) {
                        Some(k) => {
                            proof {
                                let t = lemma_lookup_in(dummies_view(names.dummies@), this_name@);
                                assert(s0.dummy_ok(names.dummies@[t].1));
                            }
                            bimap_insert(&mut sub_dummies, String::from_str(sub_name.as_str()), k.0 as u64);
                        },
                        None => {
                            let err = BuildError::UnknownDummy(this_name.duplicate());
                            proof {
                                lemma_dummy_absent(names, src.scenario, e as int, this_name@);
                                assert(c.dummies@[i as int].0@ == this_name@);
                                assert(mentions_dummy(src.scenario.events@[e as int], this_name@));
                                lemma_fault(*code, s0.marshalling, sk.0 as int, err);
                            }
                            return Err(err);
                        },
                    }
                    i = i + 1;
                }
                let sg = match self.add_subgraph(
                    code,
                    sub,
                    Some((scope, ev.id.duplicate(), c.subroutine_name.duplicate())),
                    sub_actors,
                    sub_dummies,
                    Ghost(rank),
                ) {
                    Ok(sg) => sg,
                    Err(err) => {
                        proof {
                            assert(src.scenario.events@[e as int] == *ev);
                            assert(calls(*code, sk.0 as int, sub.0 as int));
                            lemma_fault_call(*code, s0.marshalling, sk.0 as int, sub.0 as int, err);
                        }
                        return Err(err);
                    },
                };
                let ghost s1 = self.exe;
                let ghost o1 = self.order@;

                // entering the subroutine binds its input, then its entry points may happen
                let (dst_in, src_in) = match &c.input {
                    Some(b) => (b.dst.duplicate(), Msg::Bind(b.src.deep_clone())),
                    None => (DstPattern(JsonValue::Null), Msg::Literal(JsonValue::Null)),
                };
                let k_in = KeyBind(self.exe.events.bind.len());
                self.exe.events.bind.push(EventBind { dst: dst_in, src: src_in, scope: BindScope::Two { src: scope, dst: sg.scope_key } });
                let ek_in = EventKey::Bind(k_in);
                self.exe.events.names.insert(ek_in, (scope, ev.id.with_suffix("[ENTER SUB]")));
                let ghost s2 = self.exe;
                proof {
                    assert(s2.events.names.map()[ek_in].1@ == head_name(*ev));
                    assert forall|k: EventKey| #[trigger] s1.valid_key(k) implies s2.events.names.map()[k] == s1.events.names.map()[k] by {
                        assert(k != ek_in);
                    }
                    assert forall|p: EventKey| !(#[trigger] s2.unblocks(p)).contains(ek_in) by {
                        if s1.unblocks(p).contains(ek_in) {
                            assert(s1.valid_key(ek_in));
                        }
                    }
                }
                proof {
                    sg.entry_points.lemma_seq();
                }
                let mut j: usize = 0;
                while j < sg.entry_points.len()
                    invariant
                        self.exe.wf_graph(),
                        self.exe.marshalling == s0.marshalling,
                        extends(s0, s1),
                        self.exe.events.bind@.len() == s2.events.bind@.len(),
                        self.exe.events.send@.len() == s2.events.send@.len(),
                        self.exe.events.recv@.len() == s2.events.recv@.len(),
                        self.exe.events.respond@.len() == s2.events.respond@.len(),
                        self.exe.events.delay@.len() == s2.events.delay@.len(),
                        self.exe.scopes@.len() == s2.scopes@.len(),
                        self.exe.actors@.len() == s2.actors@.len(),
                        self.exe.dummies@.len() == s2.dummies@.len(),
                        self.exe.scopes == s1.scopes,
                        forall|k: EventKey| #[trigger] s1.valid_key(k) ==> self.exe.events.names.map()[k] == s1.events.names.map()[k],
                        self.exe.events.names == s2.events.names,
                        s2.valid_key(ek_in),
                        !s1.valid_key(ek_in),
                        forall|x: EventKey| #[trigger] s1.valid_key(x) ==> self.exe.valid_key(x),
                        sg.entry_points.seq().to_set() == sg.entry_points.set(),
                        forall|x: EventKey| #[trigger] sg.entry_points.set().contains(x) ==> s1.valid_key(x) && !s0.valid_key(x),
                        forall|p: EventKey| !(#[trigger] self.exe.unblocks(p)).contains(ek_in),
                        forall|p: EventKey, x: EventKey| #[trigger] self.exe.unblocks(p).contains(x) ==> s1.unblocks(p).contains(x) || !s0.valid_key(x),
                        forall|p: EventKey, x: EventKey| #[trigger] s1.unblocks(p).contains(x) ==> self.exe.unblocks(p).contains(x),
                        forall|p: EventKey, x: EventKey| #[trigger] self.exe.unblocks(p).contains(x) ==> s1.unblocks(p).contains(x) || (p == ek_in && sg.entry_points.set().contains(x)),
                        self.exe == (Executable { events: Events { key_unblocks_values: self.exe.events.key_unblocks_values, ..s2.events }, ..s2 }),
                        self.order@ == o1,
                        forall|a: int| 0 <= a < j ==> self.exe.unblocks(ek_in).contains(#[trigger] sg.entry_points.seq()[a]),
                        j <= sg.entry_points.seq().len(),
                    decreases sg.entry_points.seq().len() - j,
                {
                    let x = sg.entry_points.at(j);
                    assert(sg.entry_points.set().contains(x)) by {
                        assert(sg.entry_points.seq().contains(x)) by {
                            assert(sg.entry_points.seq()[j as int] == x);
                        }
                    }
                    self.add_unblock(ek_in, x);
                    j = j + 1;
                }
                proof {
                    assert forall|x: EventKey| #[trigger] sg.entry_points.set().contains(x) implies self.exe.unblocks(ek_in).contains(x) by {
                        assert(sg.entry_points.seq().to_set().contains(x));
                        let a = choose|a: int| 0 <= a < sg.entry_points.seq().len() && sg.entry_points.seq()[a] == x;
                        assert(self.exe.unblocks(ek_in).contains(sg.entry_points.seq()[a]));
                    }
                }

                // leaving the subroutine waits for what it requires to be reached, then binds its output
                let (dst_out, src_out) = match &c.output {
                    Some(b) => (b.dst.duplicate(), Msg::Bind(b.src.deep_clone())),
                    None => (DstPattern(JsonValue::Null), Msg::Literal(JsonValue::Null)),
                };
                let ghost s3 = self.exe;
                let k_out = KeyBind(self.exe.events.bind.len());
                self.exe.events.bind.push(EventBind { dst: dst_out, src: src_out, scope: BindScope::Two { src: sg.scope_key, dst: scope } });
                let ek_out = EventKey::Bind(k_out);
                self.exe.events.names.insert(ek_out, (scope, ev.id.duplicate()));
                let ghost names_out = self.exe.events.names;
                let ghost s4 = self.exe;
                proof {
                    assert(names_out.map()[ek_in] == s2.events.names.map()[ek_in]) by {
                        assert(ek_in != ek_out);
                    }
                    assert forall|k: EventKey| #[trigger] s1.valid_key(k) implies self.exe.events.names.map()[k] == s1.events.names.map()[k] by {
                        assert(k != ek_out);
                    }
                    sg.required.lemma_keys();
                    assert(self.exe.events.key_unblocks_values == s3.events.key_unblocks_values);
                    assert forall|p: EventKey| #[trigger] self.exe.unblocks(p) == s3.unblocks(p) by {}
                    assert(!s3.valid_key(ek_out));
                    assert(!s0.valid_key(ek_out));
                }
                let mut j: usize = 0;
                while j < sg.required.len()
                    invariant
                        self.exe.wf_graph(),
                        self.exe.events.bind@.len() == s3.events.bind@.len() + 1,
                        self.exe.events.send@.len() == s3.events.send@.len(),
                        self.exe.events.recv@.len() == s3.events.recv@.len(),
                        self.exe.events.respond@.len() == s3.events.respond@.len(),
                        self.exe.events.delay@.len() == s3.events.delay@.len(),
                        self.exe.scopes@.len() == s3.scopes@.len(),
                        self.exe.actors@.len() == s3.actors@.len(),
                        self.exe.dummies@.len() == s3.dummies@.len(),
                        self.exe.scopes == s1.scopes,
                        forall|k: EventKey| #[trigger] s1.valid_key(k) ==> self.exe.events.names.map()[k] == s1.events.names.map()[k],
                        self.exe.events.names == names_out,
                        self.exe.marshalling == s0.marshalling,
                        self.exe.valid_key(ek_out),
                        !s0.valid_key(ek_out),
                        forall|x: EventKey| #[trigger] s1.valid_key(x) ==> self.exe.valid_key(x),
                        self.exe.valid_key(ek_in),
                        !s1.valid_key(ek_in),
                        ek_in != ek_out,
                        sg.required.wf(),
                        forall|x: EventKey| #[trigger] sg.required.map().contains_key(x) ==> s1.valid_key(x),
                        forall|p: EventKey| !(#[trigger] self.exe.unblocks(p)).contains(ek_in),
                        forall|p: EventKey, x: EventKey| #[trigger] self.exe.unblocks(p).contains(x) ==> s1.unblocks(p).contains(x) || !s0.valid_key(x),
                        forall|p: EventKey, x: EventKey| #[trigger] s1.unblocks(p).contains(x) ==> self.exe.unblocks(p).contains(x),
                        forall|p: EventKey, x: EventKey| #[trigger] self.exe.unblocks(p).contains(x) ==> s1.unblocks(p).contains(x) || (p == ek_in && sg.entry_points.set().contains(x)) || x == ek_out,
                        self.exe == (Executable { events: Events { key_unblocks_values: self.exe.events.key_unblocks_values, ..s4.events }, ..s4 }),
                        self.order@ == o1,
                        forall|x: EventKey| #[trigger] sg.entry_points.set().contains(x) ==> self.exe.unblocks(ek_in).contains(x),
                        forall|a: int|
                            0 <= a < j && sg.required.map()[#[trigger] sg.required.key_seq()[a]] == RequiredToBe::Reached ==> self.exe.unblocks(
                                sg.required.key_seq()[a],
                            ).contains(ek_out),
                        forall|p: EventKey| #[trigger]
                            self.exe.unblocks(p).contains(ek_out) ==> sg.required.map().contains_key(p) && sg.required.map()[p] == RequiredToBe::Reached,
                        j <= sg.required.key_seq().len(),
                    decreases sg.required.key_seq().len() - j,
                {
                    let (k, req) = sg.required.entry_at(j);
                    if *req == RequiredToBe::Reached {
                        self.add_unblock(k, ek_out);
                    }
                    j = j + 1;
                }
                proof {
                    lemma_extends_refl(s1);
                    lemma_extends_trans(s0, s1, s1);
                    assert(self.exe.scopes@.take(s0.scopes@.len() as int) == s0.scopes@) by {
                        assert(s1.scopes@.take(s0.scopes@.len() as int) == s0.scopes@);
                    }
                    assert forall|k: EventKey| #[trigger] s0.valid_key(k) implies self.exe.events.names.map()[k] == s0.events.names.map()[k] by {
                        assert(s1.valid_key(k));
                    }
                    let fin = self.exe;
                    assert(grows(s1.events.bind@, fin.events.bind@));
                    assert(fin.scopes@.take(s1.scopes@.len() as int) =~= s1.scopes@);
                    assert(keeps(s1, fin));
                    lemma_keeps_trans(s0, s1, fin);
                    assert(extends(s0, fin)) by {
                        assert forall|p: EventKey, x: EventKey| #[trigger] fin.unblocks(p).contains(x) implies s0.unblocks(p).contains(x) || !s0.valid_key(x) by {
                            if s1.unblocks(p).contains(x) {
                            }
                        }
                    }
                    assert forall|t: KeyScope| s0.scopes@.len() <= t.0 < fin.scopes@.len() implies #[trigger] scope_compiled(fin, *code, t) && scope_ordered(fin, o1, *code, t) by {
                        assert(edges_keep(s1, fin, t)) by {
                            assert forall|p: EventKey, x: EventKey|
                                #[trigger] fin.unblocks(p).contains(x) && fin.events.names.map()[x].0 == t implies s1.unblocks(p).contains(x) || !s1.valid_key(x)
                                || fin.events.names.map()[p].0 != t by {
                                if p == ek_in && sg.entry_points.set().contains(x) && !s1.unblocks(p).contains(x) {
                                    assert(fin.events.names.map()[x] == s1.events.names.map()[x]);
                                }
                            }
                        }
                        lemma_scope_compiled_keep(s1, fin, *code, t);
                        lemma_scope_ordered_keep(s1, fin, o1, o1, *code, t);
                    }
                    assert forall|t: KeyScope| s0.scopes@.len() <= t.0 < fin.scopes@.len() implies #[trigger] scope_ordered(fin, self.order@, *code, t) by {
                        assert(scope_compiled(fin, *code, t));
                        assert(self.order@ == o1);
                    }
                    assert(fin.events.bind@[k_in.0 as int] == s2.events.bind@[k_in.0 as int]);
                    assert(items_compiled(fin, *code, sk.0 as int, scope, *ev, ek_in, ek_out));
                    let dst = sg.scope_key;
                    let evs = code.sources@[sub.0 as int].scenario.events@;
                    assert(fin.scopes@[dst.0 as int].source_key == sub);
                    assert forall|f: int|
                        0 <= f < evs.len() && evs[f].prerequisites@.len() == 0 implies #[trigger] unblocks_named(fin, ek_in, dst, head_name(evs[f])) by {
                        assert(starts_in(s1, sg.entry_points, dst, evs[f]));
                        let k = choose|k: EventKey|
                            #[trigger] sg.entry_points.set().contains(k) && s1.valid_key(k) && s1.events.names.map()[k].0 == dst
                                && s1.events.names.map()[k].1@ == head_name(evs[f]);
                        assert(fin.unblocks(ek_in).contains(k));
                        assert(fin.events.names.map()[k] == s1.events.names.map()[k]);
                    }
                    assert forall|f: int|
                        0 <= f < evs.len() && evs[f].require == Some(RequiredToBe::Reached) implies #[trigger] waits_for(fin, dst, ek_out, evs[f].id@) by {
                        assert(required_in(s1, sg.required, dst, evs[f]));
                        let k = choose|k: EventKey|
                            #[trigger] sg.required.map().contains_key(k) && sg.required.map()[k] == RequiredToBe::Reached && s1.events.names.map()[k].0 == dst
                                && s1.events.names.map()[k].1@ == evs[f].id@;
                        assert(sg.required.key_seq().to_set().contains(k));
                        let a = choose|a: int| 0 <= a < sg.required.key_seq().len() && sg.required.key_seq()[a] == k;
                        assert(sg.required.map()[sg.required.key_seq()[a]] == RequiredToBe::Reached);
                        assert(fin.unblocks(k).contains(ek_out));
                        assert(fin.events.names.map()[k] == s1.events.names.map()[k]);
                    }
                    assert forall|p: EventKey| #[trigger] fin.unblocks(p).contains(ek_out) implies fin.events.names.map()[p].0 == dst && exists|f: int|
                        0 <= f < evs.len() && evs[f].require == Some(RequiredToBe::Reached) && fin.events.names.map()[p].1@ == (#[trigger] evs[f]).id@ by {
                        assert(sg.required.map().contains_key(p));
                        assert(fin.events.names.map()[p] == s1.events.names.map()[p]);
                        let f = choose|f: int|
                            0 <= f < evs.len() && s1.events.names.map()[p].1@ == (#[trigger] evs[f]).id@ && evs[f].require == Some(sg.required.map()[p]);
                        assert(evs[f].require == Some(RequiredToBe::Reached));
                    }
                    assert(call_edges(fin, *code, *ev, ek_in, ek_out));
                }
                Ok((ek_in, ek_out))
            },
        }
    }

    /// Adds the scenario `sk` as a new scope, invoked as `invoked_as`; its
    /// actors and dummies that `actor_mapping` and `dummy_mapping` name are
    /// those of the caller. Returns the scope, the events that wait for
    /// nothing within it, and the events it requires, with what they are
    /// required to be.
    #[verifier::rlimit(80)]
    #[verifier::spinoff_prover]
    fn add_subgraph(
        &mut self,
        code: &SourceCode,
        sk: KeyScenario,
        invoked_as: Option<(KeyScope, EventName, SubroutineName)>,
        actor_mapping: BiHashMap<String, u64>,
        dummy_mapping: BiHashMap<String, u64>,
        Ghost(rank): Ghost<spec_fn(int) -> nat>,
    ) -> (r: Result<SubgraphAdded, BuildError>)
        requires
            old(self).exe.wf_graph(),
            ranked_by(*code, rank),
            events_ok(*code),
            sk.0 < code.sources@.len(),
            forall|n: Seq<char>, a: u64| #[trigger] bimap_pairs(actor_mapping).contains((n, a)) ==> a < old(self).exe.actors@.len(),
            forall|n: Seq<char>, a: u64| #[trigger] bimap_pairs(dummy_mapping).contains((n, a)) ==> a < old(self).exe.dummies@.len(),
        ensures
            r matches Err(err) ==> fault_from(*code, old(self).exe.marshalling, sk.0 as int, err),
            r matches Ok(sg) ==> {
                &&& sg.scope_key.0 == old(self).exe.scopes@.len()
                &&& final(self).exe.scopes@[sg.scope_key.0 as int].source_key == sk
                &&& final(self).exe.scopes@[sg.scope_key.0 as int].invoked_as == invoked_as
                &&& forall|f: int| 0 <= f < code.sources@[sk.0 as int].scenario.events@.len() ==> named_in(
                    final(self).exe,
                    sg.scope_key,
                    (#[trigger] code.sources@[sk.0 as int].scenario.events@[f]).id@,
                )
                &&& forall|x: EventKey| #[trigger] sg.required.map().contains_key(x) ==> final(self).exe.events.names.map()[x].0 == sg.scope_key
                &&& forall|f: int, x: int|
                    0 <= f < code.sources@[sk.0 as int].scenario.events@.len() && 0 <= x
                        < code.sources@[sk.0 as int].scenario.events@[f].prerequisites@.len() ==> #[trigger] waits_in(
                        final(self).exe,
                        sg.scope_key,
                        code.sources@[sk.0 as int].scenario.events@[f],
                        code.sources@[sk.0 as int].scenario.events@[f].prerequisites@[x]@,
                    )
                &&& forall|f: int|
                    0 <= f < code.sources@[sk.0 as int].scenario.events@.len()
                        && code.sources@[sk.0 as int].scenario.events@[f].prerequisites@.len() == 0 ==> #[trigger] starts_in(
                        final(self).exe,
                        sg.entry_points,
                        sg.scope_key,
                        code.sources@[sk.0 as int].scenario.events@[f],
                    )
                &&& forall|f: int| 0 <= f < code.sources@[sk.0 as int].scenario.events@.len() ==> required_in(
                    final(self).exe,
                    sg.required,
                    sg.scope_key,
                    #[trigger] code.sources@[sk.0 as int].scenario.events@[f],
                )
                &&& forall|t: KeyScope| old(self).exe.scopes@.len() <= t.0 < final(self).exe.scopes@.len() ==> #[trigger] scope_compiled(final(self).exe, *code, t)
                &&& forall|t: KeyScope| old(self).exe.scopes@.len() <= t.0 < final(self).exe.scopes@.len() ==> #[trigger] scope_ordered(final(self).exe, final(self).order@, *code, t)
                &&& grows(old(self).order@, final(self).order@)
                &&& fresh_from(final(self).order@, old(self).order@.len() as int, old(self).exe)
                &&& final(self).exe.wf_graph()
                &&& extends(old(self).exe, final(self).exe)
                &&& final(self).exe.scope_ok(sg.scope_key)
                &&& sg.entry_points.wf()
                &&& sg.required.wf()
                &&& forall|x: EventKey| #[trigger] sg.entry_points.set().contains(x) ==> {
                    &&& final(self).exe.valid_key(x)
                    &&& !old(self).exe.valid_key(x)
                    &&& forall|p: EventKey| !(#[trigger] final(self).exe.unblocks(p)).contains(x)
                    &&& final(self).exe.events.names.map()[x].0 == sg.scope_key
                    &&& entry_of(final(self).exe, *code, sk.0 as int, sg.scope_key, x)
                }
                &&& forall|x: EventKey| #[trigger] sg.required.map().contains_key(x) ==> final(self).exe.valid_key(x) && !old(self).exe.valid_key(x)
                &&& forall|x: EventKey| #[trigger] sg.required.map().contains_key(x) ==> exists|f: int|
                    0 <= f < code.sources@[sk.0 as int].scenario.events@.len() && final(self).exe.events.names.map()[x].1@
                        == (#[trigger] code.sources@[sk.0 as int].scenario.events@[f]).id@ && code.sources@[sk.0 as int].scenario.events@[f].require
                        == Some(sg.required.map()[x])
            },
        decreases rank(sk.0 as int), 1int,
    {
        let ghost s0 = self.exe;
        let src: &Source = &code.sources[sk.0];
        let aliases = match type_aliases(&self.exe.marshalling, &src.scenario.types) {
            Ok(a) => a,
            Err(err) => {
                proof {
                    lemma_fault(*code, s0.marshalling, sk.0 as int, err);
                }
                return Err(err);
            },
        };
        let scope = KeyScope(self.exe.scopes.len());
        self.exe.scopes.push(ScopeInfo { source_key: sk, invoked_as });
        match ensure_unique_actors(&src.scenario.actors) {
            Ok(()) => {},
            Err(err) => {
                proof {
                    lemma_fault(*code, s0.marshalling, sk.0 as int, err);
                }
                return Err(err);
            },
        }
        match ensure_unique_dummies(&src.scenario.dummies) {
            Ok(()) => {},
            Err(err) => {
                proof {
                    lemma_fault(*code, s0.marshalling, sk.0 as int, err);
                }
                return Err(err);
            },
        }
        let ghost s1 = self.exe;
        proof {
            lemma_extends_refl(s1);
            assert(s1.scopes@.take(s0.scopes@.len() as int) =~= s0.scopes@);
        }

        // the actors of the scope: those of the caller, or new ones
        let mut actor_mapping = actor_mapping;
        let mut actors: Vec<(ActorName, KeyActor)> = Vec::new();
        let mut i: usize = 0;
        while i < src.scenario.actors.len()
            invariant
                self.exe.wf_graph(),
                extends(s1, self.exe),
                self.exe.events == s1.events,
                self.exe.scopes == s1.scopes,
                self.exe.dummies == s1.dummies,
                self.order == old(self).order,
                i <= src.scenario.actors@.len(),
                forall|n: Seq<char>, a: u64| #[trigger] bimap_pairs(actor_mapping).contains((n, a)) ==> a < self.exe.actors@.len(),
                forall|j: int| 0 <= j < actors@.len() ==> self.exe.actor_ok((#[trigger] actors@[j]).1),
                actors@.len() == i,
                forall|j: int| 0 <= j < i ==> (#[trigger] actors@[j]).0@ == src.scenario.actors@[j]@,
                forall|j: int| 0 <= j < actors@.len() ==> actor_named(self.exe, (#[trigger] actors@[j]).1, scope, actors@[j].0@),
            decreases src.scenario.actors@.len() - i,
        {
            let name: &ActorName = &src.scenario.actors[i];
            assert(self.exe.actors@.len() == self.exe.actors.len());
            let ghost before = self.exe;
            let k = match bimap_get_by_left(&actor_mapping, name.as_str()) {
                Some(a) => {
                    let k = KeyActor(a as usize);
                    let mut info = self.exe.actors.remove(k.0);
                    info.known_as.push((scope, name.duplicate()));
                    self.exe.actors.insert(k.0, info);
                    proof {
                        assert(self.exe.actors@ =~= before.actors@.update(k.0 as int, self.exe.actors@[k.0 as int]));
                    }
                    k
                },
                None => {
                    let k = KeyActor(self.exe.actors.len());
                    let mut known_as: Vec<(KeyScope, ActorName)> = Vec::new();
                    known_as.push((scope, name.duplicate()));
                    self.exe.actors.push(ActorInfo { known_as });
                    bimap_insert(&mut actor_mapping, String::from_str(name.as_str()), k.0 as u64);
                    k
                },
            };
            proof {
                let after = self.exe;
                let kn = after.actors@[k.0 as int].known_as@;
                assert(kn[kn.len() - 1].0 == scope && kn[kn.len() - 1].1@ == name@);
                assert(actor_named(after, k, scope, name@));
                assert forall|x: int| 0 <= x < before.actors@.len() implies grows(before.actors@[x].known_as@, #[trigger] after.actors@[x].known_as@) by {
                    if x == k.0 as int {
                        assert(grows(before.actors@[x].known_as@, after.actors@[x].known_as@));
                    } else {
                        assert(after.actors@[x] == before.actors@[x]);
                    }
                }
                assert(after.scopes@.take(before.scopes@.len() as int) =~= before.scopes@);
                assert(keeps(before, after));
                lemma_extends_trans(s1, before, after);
                assert forall|j: int| 0 <= j < actors@.len() implies actor_named(after, (#[trigger] actors@[j]).1, scope, actors@[j].0@) by {
                    lemma_actor_named_keep(before, after, actors@[j].1, scope, actors@[j].0@);
                }
            }
            actors.push((name.duplicate(), k));
            i = i + 1;
        }

        // the dummies of the scope: those of the caller, or new ones
        let mut dummy_mapping = dummy_mapping;
        let mut dummies: Vec<(DummyName, KeyDummy)> = Vec::new();
        let mut i: usize = 0;
        while i < src.scenario.dummies.len()
            invariant
                self.exe.wf_graph(),
                extends(s1, self.exe),
                self.exe.events == s1.events,
                self.exe.scopes == s1.scopes,
                self.order == old(self).order,
                i <= src.scenario.dummies@.len(),
                forall|n: Seq<char>, a: u64| #[trigger] bimap_pairs(dummy_mapping).contains((n, a)) ==> a < self.exe.dummies@.len(),
                forall|j: int| 0 <= j < dummies@.len() ==> self.exe.dummy_ok((#[trigger] dummies@[j]).1),
                forall|j: int| 0 <= j < actors@.len() ==> self.exe.actor_ok((#[trigger] actors@[j]).1),
                dummies@.len() == i,
                forall|j: int| 0 <= j < i ==> (#[trigger] dummies@[j]).0@ == src.scenario.dummies@[j]@,
                actors@.len() == src.scenario.actors@.len(),
                forall|j: int| 0 <= j < actors@.len() ==> (#[trigger] actors@[j]).0@ == src.scenario.actors@[j]@,
                forall|j: int| 0 <= j < actors@.len() ==> actor_named(self.exe, (#[trigger] actors@[j]).1, scope, actors@[j].0@),
                forall|j: int| 0 <= j < dummies@.len() ==> dummy_named(self.exe, (#[trigger] dummies@[j]).1, scope, dummies@[j].0@),
            decreases src.scenario.dummies@.len() - i,
        {
            let name: &DummyName = &src.scenario.dummies[i];
            assert(self.exe.dummies@.len() == self.exe.dummies.len());
            let ghost before = self.exe;
            let k = match bimap_get_by_left(&dummy_mapping, name.as_str()) {
                Some(a) => {
                    let k = KeyDummy(a as usize);
                    let mut info = self.exe.dummies.remove(k.0);
                    info.known_as.push((scope, name.duplicate()));
                    self.exe.dummies.insert(k.0, info);
                    proof {
                        assert(self.exe.dummies@ =~= before.dummies@.update(k.0 as int, self.exe.dummies@[k.0 as int]));
                    }
                    k
                },
                None => {
                    let k = KeyDummy(self.exe.dummies.len());
                    let mut known_as: Vec<(KeyScope, DummyName)> = Vec::new();
                    known_as.push((scope, name.duplicate()));
                    self.exe.dummies.push(DummyInfo { known_as });
                    bimap_insert(&mut dummy_mapping, String::from_str(name.as_str()), k.0 as u64);
                    k
                },
            };
            proof {
                let after = self.exe;
                let kn = after.dummies@[k.0 as int].known_as@;
                assert(kn[kn.len() - 1].0 == scope && kn[kn.len() - 1].1@ == name@);
                assert(dummy_named(after, k, scope, name@));
                assert forall|x: int| 0 <= x < before.dummies@.len() implies grows(before.dummies@[x].known_as@, #[trigger] after.dummies@[x].known_as@) by {
                    if x == k.0 as int {
                        assert(grows(before.dummies@[x].known_as@, after.dummies@[x].known_as@));
                    } else {
                        assert(after.dummies@[x] == before.dummies@[x]);
                    }
                }
                assert(after.scopes@.take(before.scopes@.len() as int) =~= before.scopes@);
                assert(keeps(before, after));
                lemma_extends_trans(s1, before, after);
                assert forall|j: int| 0 <= j < dummies@.len() implies dummy_named(after, (#[trigger] dummies@[j]).1, scope, dummies@[j].0@) by {
                    lemma_dummy_named_keep(before, after, dummies@[j].1, scope, dummies@[j].0@);
                }
            }
            dummies.push((name.duplicate(), k));
            i = i + 1;
        }
        let mut names = Names { aliases, actors, dummies, events: Vec::new() };
        proof {
            lemma_extends_trans(s0, s1, self.exe);
        }

        // the events of the scope
        let mut entry_points = EventSet::new();
        let mut required: EventMap<RequiredToBe> = EventMap::new();
        let ghost mut keys: Seq<(EventKey, EventKey)> = Seq::empty();
        let ghost mut pos: Seq<int> = Seq::empty();
        let ghost o0 = self.order@;
        let mut e: usize = 0;
        while e < src.scenario.events.len()
            invariant
                keys.len() == e,
                o0 == old(self).order@,
                grows(o0, self.order@),
                fresh_from(self.order@, o0.len() as int, s0),
                in_order(self.order@, keys, pos),
                names.known_in(self.exe, scope),
                forall|f: int| 0 <= f < e ==> #[trigger] compiled(self.exe, *code, sk.0 as int, scope, src.scenario.events@[f], keys[f].0, keys[f].1),
                forall|f: int| 0 <= f < e ==> (#[trigger] keys[f]).1 == names.events@[f].1,
                forall|x: EventKey| #[trigger] entry_points.set().contains(x) ==> exists|f: int|
                    0 <= f < e && (#[trigger] keys[f]).0 == x && src.scenario.events@[f].prerequisites@.len() == 0,
                forall|t: KeyScope| scope.0 < t.0 < self.exe.scopes@.len() ==> #[trigger] scope_compiled(self.exe, *code, t),
                forall|t: KeyScope| scope.0 < t.0 < self.exe.scopes@.len() ==> #[trigger] scope_ordered(self.exe, self.order@, *code, t),
                self.exe.wf_graph(),
                extends(s0, self.exe),
                ranked_by(*code, rank),
                events_ok(*code),
                sk.0 < code.sources@.len(),
                *src == code.sources@[sk.0 as int],
                self.exe.scope_ok(scope),
                names.fits(self.exe),
                names.declares(src.scenario, e as int),
                self.exe.marshalling == s0.marshalling,
                s0 == old(self).exe,
                scope.0 == s0.scopes@.len(),
                self.exe.scopes@[scope.0 as int].source_key == sk,
                self.exe.scopes@[scope.0 as int].invoked_as == invoked_as,
                forall|f: int| 0 <= f < e ==> {
                    &&& (#[trigger] self.exe.events.names.map()[names.events@[f].1]).0 == scope
                    &&& self.exe.events.names.map()[names.events@[f].1].1@ == src.scenario.events@[f].id@
                },
                forall|x: EventKey| #[trigger] required.map().contains_key(x) ==> self.exe.events.names.map()[x].0 == scope,
                forall|x: EventKey| #[trigger] required.map().contains_key(x) ==> exists|f: int|
                    0 <= f < e && self.exe.events.names.map()[x].1@ == (#[trigger] src.scenario.events@[f]).id@
                        && src.scenario.events@[f].require == Some(required.map()[x]),
                forall|f: int, x: int|
                    0 <= f < e && 0 <= x < src.scenario.events@[f].prerequisites@.len() ==> #[trigger] waits_in(
                        self.exe,
                        scope,
                        src.scenario.events@[f],
                        src.scenario.events@[f].prerequisites@[x]@,
                    ),
                forall|f: int|
                    0 <= f < e && src.scenario.events@[f].prerequisites@.len() == 0 ==> #[trigger] starts_in(
                        self.exe,
                        entry_points,
                        scope,
                        src.scenario.events@[f],
                    ),
                forall|f: int| 0 <= f < e && (#[trigger] src.scenario.events@[f]).require is Some ==> {
                    &&& required.map().contains_key(names.events@[f].1)
                    &&& required.map()[names.events@[f].1] == src.scenario.events@[f].require->0
                },
                entry_points.wf(),
                required.wf(),
                e <= src.scenario.events@.len(),
                forall|x: EventKey| #[trigger] entry_points.set().contains(x) ==> {
                    &&& self.exe.valid_key(x)
                    &&& !s0.valid_key(x)
                    &&& forall|p: EventKey| !(#[trigger] self.exe.unblocks(p)).contains(x)
                },
                forall|x: EventKey| #[trigger] required.map().contains_key(x) ==> self.exe.valid_key(x) && !s0.valid_key(x),
            decreases src.scenario.events@.len() - e,
        {
            let ev: &DefEvent = &src.scenario.events[e];
            let prerequisites = match resolve_events(&names.events, &ev.prerequisites) {
                Ok(p) => p,
                Err(err) => {
                    proof {
                        let n = err->UnknownEvent_0;
                        lemma_event_absent(&names, src.scenario, e as int, n@);
                        let j = choose|j: int| 0 <= j < ev.prerequisites@.len() && #[trigger] ev.prerequisites@[j]@ == n@ && lookup(events_view(names.events@), n@) is None;
                        assert(mentions_event(src.scenario.events@[e as int], n@));
                        lemma_fault(*code, s0.marshalling, sk.0 as int, err);
                    }
                    return Err(err);
                },
            };
            let ghost bi = self.exe;
            let ghost bo = self.order@;
            proof {
                assert forall|f: int| 0 <= f < e implies #[trigger] recv_tail(bi, *code, sk.0 as int, scope, src.scenario.events@[f], names.events@[f].1) by {
                    assert(compiled(bi, *code, sk.0 as int, scope, src.scenario.events@[f], keys[f].0, keys[f].1));
                }
            }
            let (head, tail) = self.add_event(code, sk, e, scope, &names, Ghost(rank))?;
            let ghost bh = self.exe;
            let ghost oh = self.order@;
            proof {
                lemma_names_grow(&names, bi, bh);
                lemma_extends_trans(s0, bi, bh);
                assert forall|x: EventKey| #[trigger] entry_points.set().contains(x) implies forall|p: EventKey| !(#[trigger] bh.unblocks(p)).contains(x) by {
                    lemma_untouched(bi, bh, x);
                }
            }
            let ghost req_before = required;
            match ev.require {
                Some(req) => {
                    required.insert(tail, req);
                },
                None => {},
            }
            proof {
                assert forall|a: int| 0 <= a < prerequisites@.len() implies bh.valid_key(#[trigger] prerequisites@[a]) by {
                    let t = lemma_lookup_in(events_view(names.events@), ev.prerequisites@[a]@);
                    assert(bi.valid_key(names.events@[t].1));
                }
            }
            let ghost entry_before = entry_points;
            if prerequisites.len() == 0 {
                entry_points.insert(head);
            } else {
                let mut j: usize = 0;
                while j < prerequisites.len()
                    invariant
                        self.exe.wf_graph(),
                        extends(bi, self.exe),
                        self.exe.events.bind@.len() == bh.events.bind@.len(),
                        self.exe.events.send@.len() == bh.events.send@.len(),
                        self.exe.events.recv@.len() == bh.events.recv@.len(),
                        self.exe.events.respond@.len() == bh.events.respond@.len(),
                        self.exe.events.delay@.len() == bh.events.delay@.len(),
                        bh.valid_key(head),
                        !bi.valid_key(head),
                        self.exe.events.names == bh.events.names,
                        self.exe.scopes == bh.scopes,
                        forall|p: EventKey, x: EventKey| #[trigger] bh.unblocks(p).contains(x) ==> self.exe.unblocks(p).contains(x),
                        j <= prerequisites@.len(),
                        forall|a: int| 0 <= a < prerequisites@.len() ==> bh.valid_key(#[trigger] prerequisites@[a]),
                        forall|p: EventKey, x: EventKey| #[trigger] self.exe.unblocks(p).contains(x) ==> bh.unblocks(p).contains(x) || x == head,
                        forall|p: EventKey, x: EventKey| #[trigger] self.exe.unblocks(p).contains(x) ==> bh.unblocks(p).contains(x)
                            || (x == head && exists|a: int| 0 <= a < j && #[trigger] prerequisites@[a] == p),
                        self.exe == (Executable { events: Events { key_unblocks_values: self.exe.events.key_unblocks_values, ..bh.events }, ..bh }),
                        self.order@ == oh,
                        forall|a: int| 0 <= a < j ==> self.exe.unblocks(#[trigger] prerequisites@[a]).contains(head),
                    decreases prerequisites@.len() - j,
                {
                    self.add_unblock(prerequisites[j], head);
                    j = j + 1;
                }
            }
            proof {
                lemma_extends_trans(s0, bi, self.exe);
                assert forall|x: EventKey| #[trigger] entry_points.set().contains(x) implies {
                    &&& self.exe.valid_key(x)
                    &&& !s0.valid_key(x)
                    &&& forall|p: EventKey| !(#[trigger] self.exe.unblocks(p)).contains(x)
                } by {
                    if x != head {
                        assert(bi.valid_key(x));
                        assert forall|p: EventKey| !(#[trigger] self.exe.unblocks(p)).contains(x) by {
                            if self.exe.unblocks(p).contains(x) {
                                assert(bh.unblocks(p).contains(x));
                            }
                        }
                    }
                }
                lemma_names_grow(&names, bi, self.exe);
            }
            if find_event(&names.events, &ev.id).is_some() {
                let err = BuildError::DuplicateEventName(ev.id.duplicate());
                proof {
                    lemma_event_present(&names, src.scenario, e as int, ev.id@);
                    let f = choose|f: int| 0 <= f < e && src.scenario.events@[f].id@ == ev.id@;
                    assert(src.scenario.events@[f].id@ == err->DuplicateEventName_0@);
                    lemma_fault(*code, s0.marshalling, sk.0 as int, err);
                }
                return Err(err);
            }
            proof {
                let s_e = src.scenario.events@[e as int];
                assert(entry_before.set().subset_of(entry_points.set()));
                assert forall|f: int, x: int|
                    0 <= f < e + 1 && 0 <= x < src.scenario.events@[f].prerequisites@.len() implies #[trigger] waits_in(
                    self.exe,
                    scope,
                    src.scenario.events@[f],
                    src.scenario.events@[f].prerequisites@[x]@,
                ) by {
                    if f < e {
                        assert(waits_in(bi, scope, src.scenario.events@[f], src.scenario.events@[f].prerequisites@[x]@));
                        lemma_waits_grow(bi, self.exe, scope, src.scenario.events@[f], src.scenario.events@[f].prerequisites@[x]@);
                    } else {
                        let q = s_e.prerequisites@[x]@;
                        let kq = prerequisites@[x];
                        assert(Some(kq) == lookup(events_view(names.events@), q));
                        let t = lemma_lookup_in(events_view(names.events@), q);
                        assert(names.events@[t].1 == kq);
                        assert(bi.events.names.map()[names.events@[t].1].1@ == src.scenario.events@[t].id@);
                        assert(bi.valid_key(kq));
                        assert(self.exe.unblocks(kq).contains(head));
                        assert(self.exe.events.names.map()[kq] == bi.events.names.map()[kq]);
                        assert(self.exe.events.names.map()[head] == bh.events.names.map()[head]);
                    }
                }
                assert forall|f: int|
                    0 <= f < e + 1 && src.scenario.events@[f].prerequisites@.len() == 0 implies #[trigger] starts_in(
                    self.exe,
                    entry_points,
                    scope,
                    src.scenario.events@[f],
                ) by {
                    if f < e {
                        assert(starts_in(bi, entry_before, scope, src.scenario.events@[f]));
                        lemma_starts_grow(bi, self.exe, entry_before, entry_points, scope, src.scenario.events@[f]);
                    } else {
                        assert(entry_points.set().contains(head));
                        assert(self.exe.events.names.map()[head] == bh.events.names.map()[head]);
                    }
                }
            }
            let ghost af = self.exe;
            proof {
                assert(keeps(bh, af)) by {
                    assert(af.scopes@.take(bh.scopes@.len() as int) =~= bh.scopes@);
                }
                lemma_items_keep(bh, af, *code, sk.0 as int, scope, *ev, head, tail);
                assert forall|p: EventKey| #[trigger] af.unblocks(p).contains(head) && af.events.names.map()[p].0 == scope implies named_prerequisite(af, scope, *ev, p) by {
                    assert(!bh.unblocks(p).contains(head));
                    let a = choose|a: int| 0 <= a < prerequisites@.len() && #[trigger] prerequisites@[a] == p;
                    lemma_event_found(&names, bi, scope, ev.prerequisites@[a]@);
                    assert(af.events.names.map()[p] == bi.events.names.map()[p]);
                }
                assert forall|x: int| 0 <= x < ev.prerequisites@.len() implies #[trigger] waits_for(af, scope, head, ev.prerequisites@[x]@) by {
                    let p = prerequisites@[x];
                    lemma_event_found(&names, bi, scope, ev.prerequisites@[x]@);
                    assert(af.unblocks(p).contains(head));
                    assert(af.events.names.map()[p] == bi.events.names.map()[p]);
                }
                assert forall|p: EventKey| #[trigger] af.unblocks(p).contains(head) implies af.events.names.map()[p].0 == scope by {
                    assert(!bh.unblocks(p).contains(head));
                    let a = choose|a: int| 0 <= a < prerequisites@.len() && #[trigger] prerequisites@[a] == p;
                    lemma_event_found(&names, bi, scope, ev.prerequisites@[a]@);
                    assert(af.events.names.map()[p] == bi.events.names.map()[p]);
                }
                if ev.kind is Call {
                    assert forall|p: EventKey| #[trigger] af.unblocks(p).contains(tail) implies bh.unblocks(p).contains(tail) by {
                        reveal_strlit("[ENTER SUB]");
                        assert(head_name(*ev).len() != ev.id@.len());
                    }
                    lemma_call_edges_keep(bh, af, *code, sk.0 as int, scope, *ev, head, tail);
                }
                assert(compiled(af, *code, sk.0 as int, scope, *ev, head, tail));
                assert forall|f: int| 0 <= f < e implies #[trigger] compiled(af, *code, sk.0 as int, scope, src.scenario.events@[f], keys[f].0, keys[f].1) by {
                    lemma_compiled_keep(bi, af, *code, sk.0 as int, scope, src.scenario.events@[f], keys[f].0, keys[f].1);
                }
                assert forall|t: KeyScope| scope.0 < t.0 < af.scopes@.len() implies #[trigger] scope_compiled(af, *code, t) by {
                    if t.0 < bi.scopes@.len() {
                        lemma_scope_compiled_keep(bi, af, *code, t);
                    } else {
                        assert(scope_compiled(bh, *code, t));
                        lemma_scope_compiled_keep(bh, af, *code, t);
                    }
                }
                lemma_known_keep(&names, bi, af, scope);
            }
            names.events.push((ev.id.duplicate(), tail));
            proof {
                assert forall|x: EventKey| #[trigger] required.map().contains_key(x) implies exists|f: int|
                    0 <= f < e + 1 && af.events.names.map()[x].1@ == (#[trigger] src.scenario.events@[f]).id@
                        && src.scenario.events@[f].require == Some(required.map()[x]) by {
                    if req_before.map().contains_key(x) && !(x == tail && ev.require is Some) {
                        let f = choose|f: int|
                            0 <= f < e && bi.events.names.map()[x].1@ == (#[trigger] src.scenario.events@[f]).id@
                                && src.scenario.events@[f].require == Some(req_before.map()[x]);
                        assert(bi.valid_key(x));
                        assert(af.events.names.map()[x] == bi.events.names.map()[x]);
                        assert(src.scenario.events@[f].id@ == af.events.names.map()[x].1@);
                    } else {
                        assert(x == tail);
                        assert(src.scenario.events@[e as int].id@ == af.events.names.map()[x].1@);
                    }
                }
                let prev = keys;
                keys = keys.push((head, tail));
                assert forall|x: EventKey| #[trigger] entry_points.set().contains(x) implies exists|f: int|
                    0 <= f < e + 1 && (#[trigger] keys[f]).0 == x && src.scenario.events@[f].prerequisites@.len() == 0 by {
                    if x == head && prerequisites@.len() == 0 {
                        assert(keys[e as int].0 == x);
                    } else {
                        assert(entry_before.set().contains(x));
                        let f = choose|f: int| 0 <= f < e && (#[trigger] prev[f]).0 == x && src.scenario.events@[f].prerequisites@.len() == 0;
                        assert(keys[f] == prev[f]);
                    }
                }
            }
            let ghost ob = self.order@;
            self.order.push(head);
            self.order.push(tail);
            proof {
                let o = self.order@;
                let prev_pos = pos;
                pos = pos.push(ob.len() as int);
                assert(o[ob.len() as int] == head && o[ob.len() as int + 1] == tail);
                assert forall|f: int| 0 <= f < e implies bi.valid_key(#[trigger] keys[f].0) && bi.valid_key(keys[f].1) by {
                    assert(compiled(bi, *code, sk.0 as int, scope, src.scenario.events@[f], keys[f].0, keys[f].1));
                }
                assert forall|f: int|
                    0 <= f < keys.len() implies 0 <= #[trigger] pos[f] && pos[f] + 1 < o.len() && o[pos[f]] == keys[f].0 && o[pos[f] + 1] == keys[f].1 by {
                    if f < e {
                        assert(pos[f] == prev_pos[f]);
                        assert(ob[pos[f]] == bo[pos[f]]);
                        assert(ob[pos[f] + 1] == bo[pos[f] + 1]);
                        assert(o[pos[f]] == ob[pos[f]]);
                        assert(o[pos[f] + 1] == ob[pos[f] + 1]);
                    }
                }
                assert forall|f: int, g: int| 0 <= f < g < keys.len() implies #[trigger] pos[f] + 1 < #[trigger] pos[g] by {
                    assert(pos[f] == prev_pos[f]);
                    if g < e {
                        assert(pos[g] == prev_pos[g]);
                    }
                }
                assert forall|f: int, j: int|
                    #![trigger keys[f], o[j]]
                    0 <= f < keys.len() && pos[f] + 1 < j < o.len() implies o[j] != keys[f].0 && o[j] != keys[f].1 by {
                    if f < e {
                        assert(pos[f] == prev_pos[f]);
                        if j < ob.len() {
                            assert(o[j] == ob[j]);
                            if j >= bo.len() {
                                assert(!bi.valid_key(ob[j]));
                            } else {
                                assert(ob[j] == bo[j]);
                            }
                        }
                    }
                }
                assert(in_order(o, keys, pos));
                assert forall|j: int| o0.len() <= j < o.len() implies !s0.valid_key(#[trigger] o[j]) by {
                    if j < ob.len() {
                        assert(o[j] == ob[j]);
                        if j >= bo.len() {
                            assert(!bi.valid_key(ob[j]));
                        }
                    }
                }
                assert forall|j: int| 0 <= j < o0.len() implies #[trigger] o[j] == o0[j] by {
                    assert(o[j] == ob[j]);
                    assert(ob[j] == bo[j]);
                }
                assert(grows(bo, o)) by {
                    assert forall|j: int| 0 <= j < bo.len() implies #[trigger] o[j] == bo[j] by {
                        assert(o[j] == ob[j]);
                    }
                }
                assert(grows(oh, o));
                assert forall|t: KeyScope| scope.0 < t.0 < af.scopes@.len() implies #[trigger] scope_ordered(af, o, *code, t) by {
                    if t.0 < bi.scopes@.len() {
                        assert forall|j: int| bo.len() <= j < o.len() implies !bi.valid_key(#[trigger] o[j]) || bi.events.names.map()[o[j]].0 != t by {
                            if j < ob.len() {
                                assert(o[j] == ob[j]);
                            }
                        }
                        lemma_scope_ordered_keep(bi, af, bo, o, *code, t);
                    } else {
                        assert(scope_ordered(bh, oh, *code, t));
                        assert forall|j: int| oh.len() <= j < o.len() implies !bh.valid_key(#[trigger] o[j]) || bh.events.names.map()[o[j]].0 != t by {
                            assert(o[j] == head || o[j] == tail);
                        }
                        lemma_scope_ordered_keep(bh, af, oh, o, *code, t);
                    }
                }
            }
            e = e + 1;
        }
        proof {
            assert forall|f: int| 0 <= f < code.sources@[sk.0 as int].scenario.events@.len() implies named_in(
                self.exe,
                scope,
                (#[trigger] code.sources@[sk.0 as int].scenario.events@[f]).id@,
            ) by {
                let k = names.events@[f].1;
                assert(self.exe.valid_key(k));
                assert(self.exe.events.names.map()[k].0 == scope);
            }
            assert forall|f: int| 0 <= f < code.sources@[sk.0 as int].scenario.events@.len() implies required_in(
                self.exe,
                required,
                scope,
                #[trigger] code.sources@[sk.0 as int].scenario.events@[f],
            ) by {
                let k = names.events@[f].1;
                if src.scenario.events@[f].require is Some {
                    assert(required.map().contains_key(k));
                    assert(self.exe.events.names.map()[k].0 == scope);
                }
            }
        }
        proof {
            let fin = self.exe;
            let n = src.scenario.events@.len();
            assert forall|f: int| 0 <= f < n implies #[trigger] event_compiled(fin, *code, sk.0 as int, scope, f) by {
                assert(compiled(fin, *code, sk.0 as int, scope, src.scenario.events@[f], keys[f].0, keys[f].1));
            }
            assert(scope_compiled(fin, *code, scope));
            assert(scope_ordered(fin, self.order@, *code, scope)) by {
                assert(in_order(self.order@, keys, pos));
            }
            assert forall|x: EventKey| #[trigger] entry_points.set().contains(x) implies {
                &&& fin.events.names.map()[x].0 == scope
                &&& entry_of(fin, *code, sk.0 as int, scope, x)
            } by {
                let f = choose|f: int| 0 <= f < n && (#[trigger] keys[f]).0 == x && src.scenario.events@[f].prerequisites@.len() == 0;
                assert(compiled(fin, *code, sk.0 as int, scope, src.scenario.events@[f], keys[f].0, keys[f].1));
            }
        }
        Ok(SubgraphAdded { scope_key: scope, entry_points, required })
    }
}

impl Executable {
    /// Builds the executable of the scenario `entry` of `code`, with the
    /// message types of `marshalling`: the root scope holds the events of
    /// `entry`; each call of a subroutine adds a scope. Only `entry` and the
    /// scenarios its calls reach are built.
    ///
    /// Every scope holds each event of its scenario compiled as its
    /// definition says (see [compiled]): named in the scope, with message
    /// types, actors, dummies and requests resolved there, waiting for
    /// exactly the events it names as prerequisites, and for nothing else
    /// but, in a called scope, the entering of the call; entering a call
    /// unblocks the events of the called scope that name no prerequisites,
    /// and leaving it waits for exactly the events that scope requires to be
    /// reached (see [call_edges]). In the root scope,
    /// which no call invoked, each event waits for those it names (see
    /// [waits_in]) and for nothing else; the entry points are exactly the
    /// events of `entry` that name none (see [starts_in] and [entry_of]);
    /// the required events
    /// are those `entry` requires to be reached or unreached; and when
    /// several events are ready they fire in the order of their definition
    /// (see [in_definition_order]). It fails only where a scenario that it
    /// reaches is at fault as the error says (see [fault_from]).
    pub fn build(marshalling: MarshallingRegistry, code: &SourceCode, entry: KeyScenario) -> (r: Result<
        Executable,
        BuildError,
    >)
        requires
            code.buildable(),
            entry.0 < code.sources@.len(),
        ensures
            r matches Ok(exe) ==> {
                &&& exe.wf()
                &&& exe.marshalling == marshalling
                &&& exe.scopes@[exe.root_scope_key.0 as int].source_key == entry
                &&& exe.scopes@[exe.root_scope_key.0 as int].invoked_as is None
                &&& forall|f: int| 0 <= f < code.sources@[entry.0 as int].scenario.events@.len() ==> named_in(
                    exe,
                    exe.root_scope_key,
                    (#[trigger] code.sources@[entry.0 as int].scenario.events@[f]).id@,
                )
                &&& forall|x: EventKey| #[trigger] exe.events.required.map().contains_key(x) ==> exe.events.names.map()[x].0 == exe.root_scope_key
                &&& forall|x: EventKey| #[trigger] exe.events.required.map().contains_key(x) ==> exists|f: int|
                    0 <= f < code.sources@[entry.0 as int].scenario.events@.len() && exe.events.names.map()[x].1@
                        == (#[trigger] code.sources@[entry.0 as int].scenario.events@[f]).id@ && code.sources@[entry.0 as int].scenario.events@[f].require
                        == Some(exe.events.required.map()[x])
                &&& forall|f: int, x: int|
                    0 <= f < code.sources@[entry.0 as int].scenario.events@.len() && 0 <= x
                        < code.sources@[entry.0 as int].scenario.events@[f].prerequisites@.len() ==> #[trigger] waits_in(
                        exe,
                        exe.root_scope_key,
                        code.sources@[entry.0 as int].scenario.events@[f],
                        code.sources@[entry.0 as int].scenario.events@[f].prerequisites@[x]@,
                    )
                &&& forall|f: int|
                    0 <= f < code.sources@[entry.0 as int].scenario.events@.len()
                        && code.sources@[entry.0 as int].scenario.events@[f].prerequisites@.len() == 0 ==> #[trigger] starts_in(
                        exe,
                        exe.events.entry_points,
                        exe.root_scope_key,
                        code.sources@[entry.0 as int].scenario.events@[f],
                    )
                &&& forall|f: int| 0 <= f < code.sources@[entry.0 as int].scenario.events@.len() ==> required_in(
                    exe,
                    exe.events.required,
                    exe.root_scope_key,
                    #[trigger] code.sources@[entry.0 as int].scenario.events@[f],
                )
                &&& forall|t: KeyScope| exe.scope_ok(t) ==> #[trigger] scope_compiled(exe, *code, t)
                &&& forall|x: EventKey| #[trigger] exe.events.entry_points.set().contains(x) ==> entry_of(exe, *code, entry.0 as int, exe.root_scope_key, x)
                &&& in_definition_order(exe, *code, entry.0 as int, exe.root_scope_key)
                &&& forall|t: KeyScope| exe.scope_ok(t) ==> #[trigger] in_definition_order(exe, *code, exe.scopes@[t.0 as int].source_key.0 as int, t)
            },
            r matches Err(err) ==> fault_from(*code, marshalling, entry.0 as int, err),
    {
        let mut builder = Builder {
            exe: Executable {
                marshalling,
                actors: Vec::new(),
                dummies: Vec::new(),
                events: Events {
                    priority: EventMap::new(),
                    required: EventMap::new(),
                    names: EventMap::new(),
                    bind: Vec::new(),
                    send: Vec::new(),
                    recv: Vec::new(),
                    respond: Vec::new(),
                    delay: Vec::new(),
                    entry_points: EventSet::new(),
                    key_unblocks_values: EventMap::new(),
                },
                root_scope_key: KeyScope(0),
                scopes: Vec::new(),
            },
            order: Vec::new(),
        };
        let ghost rank = choose|rank: spec_fn(int) -> nat| ranked_by(*code, rank);
        proof {
            let exe = builder.exe;
            assert(exe.events.key_unblocks_values.map() =~= Map::<EventKey, EventSet>::empty());
            assert forall|k: EventKey| !exe.valid_key(k) by {}
            assert(exe.wf_graph());
            assert(events_ok(*code));
        }
        let sg = builder.add_subgraph(code, entry, None, bimap_new(), bimap_new(), Ghost(rank))?;
        let ghost bexe = builder.exe;
        let ghost sg_entry = sg.entry_points;
        let Builder { exe, order } = builder;
        let mut exe = exe;
        let mut priority: EventMap<usize> = EventMap::new();
        let mut i: usize = 0;
        while i < order.len()
            invariant
                priority.wf(),
                i <= order@.len(),
                forall|j: int| 0 <= j < i ==> priority.map().contains_key(#[trigger] order@[j]) && priority.map()[order@[j]] >= j,
                forall|k: EventKey| #[trigger] priority.map().contains_key(k) ==> priority.map()[k] < i && order@[priority.map()[k] as int] == k,
            decreases order@.len() - i,
        {
            priority.insert(order[i], i);
            i = i + 1;
        }
        exe.events.priority = priority;
        exe.events.required = sg.required;
        exe.events.entry_points = sg.entry_points;
        exe.root_scope_key = sg.scope_key;
        proof {
            assert forall|p: EventKey| #[trigger] exe.unblocks(p) == bexe.unblocks(p) by {}
            assert forall|k: EventKey| #[trigger] exe.events.entry_points.set().contains(k) implies exe.prerequisites(k).is_empty() by {
                assert forall|p: EventKey| !exe.prerequisites(k).contains(p) by {
                    assert(!bexe.unblocks(p).contains(k));
                }
                assert(exe.prerequisites(k) =~= Set::<EventKey>::empty());
            }
            assert(exe.scopes@.take(bexe.scopes@.len() as int) =~= bexe.scopes@);
            assert(extends(bexe, exe));
            assert forall|t: KeyScope| exe.scope_ok(t) implies #[trigger] scope_compiled(exe, *code, t) by {
                lemma_scope_compiled_keep(bexe, exe, *code, t);
            }
            let pr = exe.events.priority.map();
            assert forall|t: KeyScope| exe.scope_ok(t) implies #[trigger] in_definition_order(exe, *code, exe.scopes@[t.0 as int].source_key.0 as int, t) by {
                let i = exe.scopes@[t.0 as int].source_key.0 as int;
                assert(scope_ordered(bexe, order@, *code, t));
                let (ks, ps) = choose|ks: Seq<(EventKey, EventKey)>, ps: Seq<int>|
                    #![trigger in_order(order@, ks, ps)]
                    {
                        &&& ks.len() == code.sources@[i].scenario.events@.len()
                        &&& in_order(order@, ks, ps)
                        &&& forall|f: int| 0 <= f < ks.len() ==> #[trigger] compiled(bexe, *code, i, t, code.sources@[i].scenario.events@[f], ks[f].0, ks[f].1)
                    };
                assert forall|f: int| 0 <= f < ks.len() implies #[trigger] compiled(exe, *code, i, t, code.sources@[i].scenario.events@[f], ks[f].0, ks[f].1) by {
                    lemma_compiled_keep(bexe, exe, *code, i, t, code.sources@[i].scenario.events@[f], ks[f].0, ks[f].1);
                }
                lemma_priority_rises(pr, order@, ks, ps);
                assert(ks.len() == code.sources@[i].scenario.events@.len());
            }
            assert(in_definition_order(exe, *code, entry.0 as int, exe.root_scope_key)) by {
                assert(exe.scope_ok(exe.root_scope_key));
            }
            assert forall|x: EventKey| #[trigger] exe.events.entry_points.set().contains(x) implies entry_of(exe, *code, entry.0 as int, exe.root_scope_key, x) by {
                let (f, t) = choose|f: int, t: EventKey|
                    0 <= f < code.sources@[entry.0 as int].scenario.events@.len() && code.sources@[entry.0 as int].scenario.events@[f].prerequisites@.len() == 0
                        && #[trigger] compiled(bexe, *code, entry.0 as int, exe.root_scope_key, code.sources@[entry.0 as int].scenario.events@[f], x, t);
                lemma_compiled_keep(bexe, exe, *code, entry.0 as int, exe.root_scope_key, code.sources@[entry.0 as int].scenario.events@[f], x, t);
            }
            let evs = code.sources@[entry.0 as int].scenario.events@;
            assert forall|f: int, x: int| 0 <= f < evs.len() && 0 <= x < evs[f].prerequisites@.len() implies #[trigger] waits_in(
                exe,
                exe.root_scope_key,
                code.sources@[entry.0 as int].scenario.events@[f],
                code.sources@[entry.0 as int].scenario.events@[f].prerequisites@[x]@,
            ) by {
                lemma_waits_grow(bexe, exe, exe.root_scope_key, evs[f], evs[f].prerequisites@[x]@);
            }
            assert forall|f: int| 0 <= f < evs.len() && evs[f].prerequisites@.len() == 0 implies #[trigger] starts_in(
                exe,
                exe.events.entry_points,
                exe.root_scope_key,
                code.sources@[entry.0 as int].scenario.events@[f],
            ) by {
                lemma_starts_grow(bexe, exe, sg_entry, exe.events.entry_points, exe.root_scope_key, evs[f]);
            }
        }
        Ok(exe)
    }
}

/// The smaller of `h` and `r`.
pub open spec fn low(h: nat, r: int) -> int {
    if h < r {
        h as int
    } else {
        r
    }
}

/// The scenario that the event `e` of the scenario `i` calls, if it calls a
/// loaded scenario of lower rank.
pub open spec fn call_of(code: SourceCode, rank: spec_fn(int) -> nat, i: int, e: int) -> Option<int> {
    match code.sources@[i].scenario.events@[e].kind {
        DefEventKind::Call(c) => match called(code, i, c.subroutine_name@) {
            Some(j) => if 0 <= j.0 < code.sources@.len() && rank(j.0 as int) < rank(i) {
                Some(j.0 as int)
            } else {
                None
            },
            None => None,
        },
        _ => None,
    }
}

/// The number of calls in the longest chain of calls that starts at one of
/// the first `e` events of the scenario `i`, each call going to a scenario
/// of lower rank.
pub open spec fn height_upto(code: SourceCode, rank: spec_fn(int) -> nat, i: int, e: int) -> nat
    decreases rank(i), e,
{
    if i < 0 || i >= code.sources@.len() || e <= 0 || e > code.sources@[i].scenario.events@.len() {
        0
    } else {
        let prev = height_upto(code, rank, i, e - 1);
        match call_of(code, rank, i, e - 1) {
            Some(j) => {
                let here = height_upto(code, rank, j, code.sources@[j].scenario.events@.len() as int) + 1;
                if here > prev {
                    here
                } else {
                    prev
                }
            },
            None => prev,
        }
    }
}

/// The number of calls in the longest chain of calls from the scenario `i`.
pub open spec fn height(code: SourceCode, rank: spec_fn(int) -> nat, i: int) -> nat {
    height_upto(code, rank, i, code.sources@[i].scenario.events@.len() as int)
}

/// A call from an event among the first `e` makes the chains from `i`
/// longer than those from the scenario it calls.
proof fn lemma_height_ge(code: SourceCode, rank: spec_fn(int) -> nat, i: int, e: int, f: int)
    requires
        0 <= i < code.sources@.len(),
        0 <= f < e <= code.sources@[i].scenario.events@.len(),
        call_of(code, rank, i, f) is Some,
    ensures
        height_upto(code, rank, i, e) >= height(code, rank, call_of(code, rank, i, f)->0) + 1,
    decreases e,
{
    if f < e - 1 {
        lemma_height_ge(code, rank, i, e - 1, f);
    }
}

/// A chain from `i` that is not empty starts with a call.
proof fn lemma_height_witness(code: SourceCode, rank: spec_fn(int) -> nat, i: int, e: int) -> (f: int)
    requires
        0 <= i < code.sources@.len(),
        0 <= e <= code.sources@[i].scenario.events@.len(),
        height_upto(code, rank, i, e) > 0,
    ensures
        0 <= f < e,
        call_of(code, rank, i, f) is Some,
        height_upto(code, rank, i, e) == height(code, rank, call_of(code, rank, i, f)->0) + 1,
    decreases e,
{
    let prev = height_upto(code, rank, i, e - 1);
    match call_of(code, rank, i, e - 1) {
        Some(j) => {
            if height(code, rank, j) + 1 > prev {
                e - 1
            } else {
                lemma_height_witness(code, rank, i, e - 1)
            }
        },
        None => lemma_height_witness(code, rank, i, e - 1),
    }
}

/// A chain from `i` visits distinct scenarios of rank at most that of `i`,
/// one more than it has calls.
proof fn lemma_height_chain(code: SourceCode, rank: spec_fn(int) -> nat, i: int) -> (chain: Set<int>)
    requires
        0 <= i < code.sources@.len(),
    ensures
        chain.finite(),
        chain.len() == height(code, rank, i) + 1,
        chain.subset_of(vstd::set_lib::set_int_range(0, code.sources@.len() as int)),
        forall|x: int| #[trigger] chain.contains(x) ==> rank(x) <= rank(i),
    decreases rank(i),
{
    let n = code.sources@[i].scenario.events@.len() as int;
    if height(code, rank, i) == 0 {
        let chain = Set::<int>::empty().insert(i);
        assert(chain.len() == 1);
        chain
    } else {
        let f = lemma_height_witness(code, rank, i, n);
        let j = call_of(code, rank, i, f)->0;
        let sub = lemma_height_chain(code, rank, j);
        assert(!sub.contains(i));
        sub.insert(i)
    }
}

/// No chain of calls has as many calls as there are scenarios.
proof fn lemma_height_bound(code: SourceCode, rank: spec_fn(int) -> nat, i: int)
    requires
        0 <= i < code.sources@.len(),
    ensures
        height(code, rank, i) < code.sources@.len(),
{
    let chain = lemma_height_chain(code, rank, i);
    vstd::set_lib::lemma_int_range(0, code.sources@.len() as int);
    vstd::set_lib::lemma_len_subset(chain, vstd::set_lib::set_int_range(0, code.sources@.len() as int));
}

impl SourceCode {
    /// Whether the event `e` of the source `i` has bounded durations and
    /// names each prerequisite once.
    #[verifier::loop_isolation(false)]
    fn event_ok(&self, i: usize, e: usize) -> (r: bool)
        requires
            i < self.sources@.len(),
            e < self.sources@[i as int].scenario.events@.len(),
        ensures
            r == (durations_ok(self.sources@[i as int].scenario.events@[e as int]) && prerequisites_distinct(
                self.sources@[i as int].scenario.events@[e as int],
            )),
    {
        let ev: &DefEvent = &self.sources[i].scenario.events[e];
        let durations = match &ev.kind {
            DefEventKind::Delay(d) => d.delay_for <= MAX_DURATION && d.delay_step <= MAX_DURATION,
            DefEventKind::Recv(rv) => rv.after_duration <= MAX_DURATION && match rv.before_duration {
                Some(b) => b <= MAX_DURATION,
                None => true,
            },
            _ => true,
        };
        if !durations {
            return false;
        }
        let ps = &ev.prerequisites;
        let mut a: usize = 0;
        while a < ps.len()
            invariant
                a <= ps@.len(),
                forall|x: int, y: int| 0 <= x < y < ps@.len() && x < a ==> ps@[x]@ != ps@[y]@,
            decreases ps@.len() - a,
        {
            let mut b: usize = a + 1;
            while b < ps.len()
                invariant
                    a < b <= ps@.len(),
                    forall|y: int| a < y < b ==> ps@[a as int]@ != ps@[y]@,
                decreases ps@.len() - b,
            {
                if ps[a].same_as(&ps[b]) {
                    assert(ps@[a as int]@ == ps@[b as int]@);
                    return false;
                }
                b = b + 1;
            }
            a = a + 1;
        }
        true
    }

    /// Whether an executable can be built from these scenarios: whether
    /// calls of subroutines do not go round in circles and lead to loaded
    /// scenarios, durations are bounded, and no event names a prerequisite
    /// twice. Each scenario gets the length of the longest chain of calls
    /// from it, by relaxing the calls once per scenario; the calls go round
    /// in circles exactly when some call does not lead to a shorter chain.
    pub fn check(&self) -> (r: bool)
        ensures
            r == self.buildable(),
    {
        let n = self.sources.len();
        let ghost b = self.buildable();
        let ghost hr = choose|rank: spec_fn(int) -> nat| ranked_by(*self, rank);
        proof {
            if b {
                assert forall|x: int| 0 <= x < n implies height(*self, hr, x) < n by {
                    lemma_height_bound(*self, hr, x);
                }
            }
        }
        // the depth of each scenario: one more than that of any scenario it calls
        let mut depth: Vec<usize> = Vec::new();
        while depth.len() < n
            invariant
                depth@.len() <= n,
                forall|x: int| 0 <= x < depth@.len() ==> depth@[x] == 0,
            decreases n - depth@.len(),
        {
            depth.push(0);
        }
        let mut round: usize = 0;
        while round < n
            invariant
                depth@.len() == n,
                n == self.sources@.len(),
                round <= n,
                b == self.buildable(),
                b ==> ranked_by(*self, hr),
                b ==> forall|x: int| 0 <= x < n ==> height(*self, hr, x) < n,
                b ==> forall|x: int| 0 <= x < n ==> #[trigger] depth@[x] <= height(*self, hr, x),
                b ==> forall|x: int| 0 <= x < n ==> #[trigger] depth@[x] >= low(height(*self, hr, x), round as int),
            decreases n - round,
        {
            let mut i: usize = 0;
            while i < n
                invariant
                    depth@.len() == n,
                    n == self.sources@.len(),
                    i <= n,
                    round < n,
                    b ==> ranked_by(*self, hr),
                    b ==> forall|x: int| 0 <= x < n ==> height(*self, hr, x) < n,
                    b ==> forall|x: int| 0 <= x < n ==> #[trigger] depth@[x] <= height(*self, hr, x),
                    b ==> forall|x: int| 0 <= x < n ==> #[trigger] depth@[x] >= low(height(*self, hr, x), round as int),
                    b ==> forall|x: int| 0 <= x < i ==> #[trigger] depth@[x] >= low(height(*self, hr, x), round + 1),
                decreases n - i,
            {
                let src: &Source = &self.sources[i];
                let mut e: usize = 0;
                while e < src.scenario.events.len()
                    invariant
                        depth@.len() == n,
                        n == self.sources@.len(),
                        i < n,
                        round < n,
                        *src == self.sources@[i as int],
                        e <= src.scenario.events@.len(),
                        b ==> ranked_by(*self, hr),
                        b ==> forall|x: int| 0 <= x < n ==> height(*self, hr, x) < n,
                        b ==> forall|x: int| 0 <= x < n ==> #[trigger] depth@[x] <= height(*self, hr, x),
                        b ==> forall|x: int| 0 <= x < n ==> #[trigger] depth@[x] >= low(height(*self, hr, x), round as int),
                        b ==> forall|x: int| 0 <= x < i ==> #[trigger] depth@[x] >= low(height(*self, hr, x), round + 1),
                        b ==> depth@[i as int] >= low(height_upto(*self, hr, i as int, e as int), round + 1),
                    decreases src.scenario.events@.len() - e,
                {
                    let ghost d0 = depth@;
                    match &src.scenario.events[e].kind {
                        DefEventKind::Call(c) => match find_sub(&src.subroutines, &c.subroutine_name) {
                            Some(j) => {
                                proof {
                                    if b {
                                        assert(called(*self, i as int, c.subroutine_name@) == Some(j));
                                        assert(call_of(*self, hr, i as int, e as int) == Some(j.0 as int));
                                        lemma_height_ge(
                                            *self,
                                            hr,
                                            i as int,
                                            src.scenario.events@.len() as int,
                                            e as int,
                                        );
                                        assert(j.0 != i);
                                        assert(depth@[j.0 as int] <= height(*self, hr, j.0 as int));
                                    }
                                }
                                if j.0 < n && depth[j.0] < n && depth[i] <= depth[j.0] {
                                    depth.set(i, depth[j.0] + 1);
                                }
                            },
                            None => {
                                proof {
                                    if b {
                                        assert(called(*self, i as int, c.subroutine_name@) is None);
                                        assert(call_of(*self, hr, i as int, e as int) is None);
                                    }
                                }
                            },
                        },
                        _ => {
                            assert(call_of(*self, hr, i as int, e as int) is None);
                        },
                    }
                    proof {
                        if b {
                            assert forall|x: int| 0 <= x < n && x != i implies depth@[x] == d0[x] by {}
                        }
                    }
                    e = e + 1;
                }
                i = i + 1;
            }
            round = round + 1;
        }
        proof {
            if b {
                assert forall|x: int| 0 <= x < n implies #[trigger] depth@[x] == height(*self, hr, x) by {
                    assert(depth@[x] >= low(height(*self, hr, x), n as int));
                }
            }
        }
        // the depths must order the calls
        let ghost rank = |x: int| depth@[x] as nat;
        let mut i: usize = 0;
        while i < n
            invariant
                depth@.len() == n,
                n == self.sources@.len(),
                i <= n,
                rank == |x: int| depth@[x] as nat,
                b == self.buildable(),
                b ==> ranked_by(*self, hr),
                b ==> forall|x: int| 0 <= x < n ==> #[trigger] depth@[x] == height(*self, hr, x),
                forall|a: int, e: int|
                    0 <= a < i && 0 <= e < self.sources@[a].scenario.events@.len() ==> {
                        &&& durations_ok(#[trigger] self.sources@[a].scenario.events@[e])
                        &&& prerequisites_distinct(self.sources@[a].scenario.events@[e])
                        &&& match self.sources@[a].scenario.events@[e].kind {
                            DefEventKind::Call(c) => match called(*self, a, c.subroutine_name@) {
                                Some(j) => j.0 < self.sources@.len() && rank(j.0 as int) < rank(a),
                                None => true,
                            },
                            _ => true,
                        }
                    },
            decreases n - i,
        {
            let src: &Source = &self.sources[i];
            let mut e: usize = 0;
            while e < src.scenario.events.len()
                invariant
                    depth@.len() == n,
                    n == self.sources@.len(),
                    i < n,
                    *src == self.sources@[i as int],
                    e <= src.scenario.events@.len(),
                    rank == |x: int| depth@[x] as nat,
                    b == self.buildable(),
                    b ==> ranked_by(*self, hr),
                    b ==> forall|x: int| 0 <= x < n ==> #[trigger] depth@[x] == height(*self, hr, x),
                    forall|a: int, f: int|
                        0 <= a < i && 0 <= f < self.sources@[a].scenario.events@.len() ==> {
                            &&& durations_ok(#[trigger] self.sources@[a].scenario.events@[f])
                            &&& prerequisites_distinct(self.sources@[a].scenario.events@[f])
                            &&& match self.sources@[a].scenario.events@[f].kind {
                                DefEventKind::Call(c) => match called(*self, a, c.subroutine_name@) {
                                    Some(j) => j.0 < self.sources@.len() && rank(j.0 as int) < rank(a),
                                    None => true,
                                },
                                _ => true,
                            }
                        },
                    forall|f: int|
                        0 <= f < e ==> {
                            &&& durations_ok(#[trigger] self.sources@[i as int].scenario.events@[f])
                            &&& prerequisites_distinct(self.sources@[i as int].scenario.events@[f])
                            &&& match self.sources@[i as int].scenario.events@[f].kind {
                                DefEventKind::Call(c) => match called(*self, i as int, c.subroutine_name@) {
                                    Some(j) => j.0 < self.sources@.len() && rank(j.0 as int) < rank(i as int),
                                    None => true,
                                },
                                _ => true,
                            }
                        },
                decreases src.scenario.events@.len() - e,
            {
                if !self.event_ok(i, e) {
                    return false;
                }
                match &src.scenario.events[e].kind {
                    DefEventKind::Call(c) => match find_sub(&src.subroutines, &c.subroutine_name) {
                        Some(j) => {
                            proof {
                                if b {
                                    assert(called(*self, i as int, c.subroutine_name@) == Some(j));
                                    assert(call_of(*self, hr, i as int, e as int) == Some(j.0 as int));
                                    lemma_height_ge(*self, hr, i as int, src.scenario.events@.len() as int, e as int);
                                    assert(depth@[j.0 as int] == height(*self, hr, j.0 as int));
                                    assert(depth@[i as int] == height(*self, hr, i as int));
                                }
                            }
                            if !(j.0 < n && depth[j.0] < depth[i]) {
                                return false;
                            }
                        },
                        None => {},
                    },
                    _ => {},
                }
                e = e + 1;
            }
            i = i + 1;
        }
        proof {
            assert(ranked_by(*self, rank));
        }
        true
    }
}

} // verus!
