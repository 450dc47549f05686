use luci::execution::builder::{BuildError, Source, SourceCode};
use luci::execution::{EventKey, Executable, KeyScenario, KeyScope};
use luci::json::JsonValue;
use luci::marshalling::{MarshallingRegistry, Mock};
use luci::names::{ActorName, DummyName, EventName, MessageName, SubroutineName};
use luci::scenario::{
    DefCallSub, DefEvent, DefEventBind, DefEventKind, DefEventRecv, DefEventRespond, DefEventSend,
    DefSubBind, DefTypeAlias, DstPattern, Msg, NoExtra, RequiredToBe, Scenario,
};

fn s(x: &str) -> JsonValue {
    JsonValue::String(x.to_string())
}

fn bind(id: &str, after: &[&str]) -> DefEvent {
    DefEvent {
        id: EventName::new(id),
        require: None,
        prerequisites: after.iter().map(|n| EventName::new(n)).collect(),
        kind: DefEventKind::Bind(DefEventBind {
            dst: DstPattern(s("$_")),
            src: Msg::Literal(JsonValue::Null),
            no_extra: NoExtra,
        }),
        no_extra: NoExtra,
    }
}

fn with_kind(id: &str, kind: DefEventKind) -> DefEvent {
    DefEvent { id: EventName::new(id), require: None, prerequisites: vec![], kind, no_extra: NoExtra }
}

fn scenario(types: Vec<(&str, &str)>, actors: &[&str], dummies: &[&str], events: Vec<DefEvent>) -> Scenario {
    Scenario {
        types: types
            .into_iter()
            .map(|(f, a)| DefTypeAlias { type_fqn: f.to_string(), type_alias: MessageName::new(a) })
            .collect(),
        actors: actors.iter().map(|a| ActorName::new(a)).collect(),
        dummies: dummies.iter().map(|d| DummyName::new(d)).collect(),
        subs: vec![],
        events,
        no_extra: NoExtra,
    }
}

fn one(sc: Scenario) -> SourceCode {
    SourceCode { sources: vec![Source { scenario: sc, subroutines: vec![] }] }
}

fn registry() -> MarshallingRegistry {
    MarshallingRegistry::new().with(Mock::regular("m::Msg")).with(Mock::request("m::Req"))
}

fn build(code: &SourceCode) -> Result<Executable, BuildError> {
    assert!(code.check());
    Executable::build(registry(), code, KeyScenario(0))
}

fn recv_kind(ty: &str) -> DefEventKind {
    DefEventKind::Recv(DefEventRecv {
        message_type: MessageName::new(ty),
        message_data: DstPattern(s("$_")),
        also_match_data: vec![],
        from: None,
        to: None,
        after_duration: 0,
        before_duration: None,
        no_extra: NoExtra,
    })
}

#[test]
fn events_without_prerequisites_are_entry_points() {
    let code = one(scenario(vec![], &[], &[], vec![bind("a", &[]), bind("b", &["a"]), bind("c", &[])]));
    let exe = build(&code).ok().unwrap();
    assert_eq!(exe.events.bind.len(), 3);
    assert_eq!(exe.events.entry_points.len(), 2);
    assert!(exe.events.entry_points.contains(EventKey::Bind(luci::execution::KeyBind(0))));
    assert!(!exe.events.entry_points.contains(EventKey::Bind(luci::execution::KeyBind(1))));
    assert!(exe.events.entry_points.contains(EventKey::Bind(luci::execution::KeyBind(2))));
    let (scope, name) = exe.event_name(EventKey::Bind(luci::execution::KeyBind(1))).unwrap();
    assert_eq!(scope, KeyScope(0));
    assert_eq!(name.as_str(), "b");
}

#[test]
fn unknown_prerequisite_is_an_error() {
    // prerequisites must be defined before the event that names them
    let code = one(scenario(vec![], &[], &[], vec![bind("b", &["a"]), bind("a", &[])]));
    match build(&code) {
        Err(BuildError::UnknownEvent(n)) => assert_eq!(n.as_str(), "a"),
        other => panic!("unexpected: {:?}", other.map(|_| ())),
    }
}

#[test]
fn duplicate_event_name_is_an_error() {
    let code = one(scenario(vec![], &[], &[], vec![bind("a", &[]), bind("a", &[])]));
    match build(&code) {
        Err(BuildError::DuplicateEventName(n)) => assert_eq!(n.as_str(), "a"),
        other => panic!("unexpected: {:?}", other.map(|_| ())),
    }
}

#[test]
fn duplicate_alias_is_an_error() {
    let code = one(scenario(vec![("m::Msg", "M"), ("m::Req", "M")], &[], &[], vec![]));
    match build(&code) {
        Err(BuildError::DuplicateAlias(a)) => assert_eq!(a.as_str(), "M"),
        other => panic!("unexpected: {:?}", other.map(|_| ())),
    }
}

#[test]
fn unknown_fqn_is_an_error() {
    let code = one(scenario(vec![("m::Nope", "N")], &[], &[], vec![]));
    match build(&code) {
        Err(BuildError::UnknownFqn(f)) => assert_eq!(f, "m::Nope"),
        other => panic!("unexpected: {:?}", other.map(|_| ())),
    }
}

#[test]
fn unknown_alias_is_an_error() {
    let code = one(scenario(vec![], &[], &[], vec![with_kind("r", recv_kind("M"))]));
    match build(&code) {
        Err(BuildError::UnknownAlias(a)) => assert_eq!(a.as_str(), "M"),
        other => panic!("unexpected: {:?}", other.map(|_| ())),
    }
}

#[test]
fn duplicate_actor_and_dummy_names_are_errors() {
    let code = one(scenario(vec![], &["x", "x"], &[], vec![]));
    assert!(matches!(build(&code), Err(BuildError::DuplicateActorName(_))));
    let code = one(scenario(vec![], &[], &["d", "d"], vec![]));
    assert!(matches!(build(&code), Err(BuildError::DuplicateDummyName(_))));
}

#[test]
fn unknown_actor_and_dummy_are_errors() {
    let send = |from: &str, to: Option<&str>| {
        with_kind(
            "s",
            DefEventKind::Send(DefEventSend {
                from: DummyName::new(from),
                to: to.map(ActorName::new),
                message_type: MessageName::new("M"),
                message_data: Msg::Literal(JsonValue::Null),
                no_extra: NoExtra,
            }),
        )
    };
    let code = one(scenario(vec![("m::Msg", "M")], &["a"], &["d"], vec![send("d", Some("b"))]));
    match build(&code) {
        Err(BuildError::UnknownActor(n)) => assert_eq!(n.as_str(), "b"),
        other => panic!("unexpected: {:?}", other.map(|_| ())),
    }
    let code = one(scenario(vec![("m::Msg", "M")], &["a"], &["d"], vec![send("e", Some("a"))]));
    match build(&code) {
        Err(BuildError::UnknownDummy(n)) => assert_eq!(n.as_str(), "e"),
        other => panic!("unexpected: {:?}", other.map(|_| ())),
    }
}

#[test]
fn responding_to_a_regular_message_is_an_error() {
    let respond = with_kind(
        "answer",
        DefEventKind::Respond(DefEventRespond {
            from: None,
            to_request: EventName::new("got"),
            data: Msg::Literal(JsonValue::Null),
            no_extra: NoExtra,
        }),
    );
    let code = one(scenario(vec![("m::Msg", "M")], &[], &[], vec![with_kind("got", recv_kind("M")), respond]));
    match build(&code) {
        Err(BuildError::NotARequest(n)) => assert_eq!(n.as_str(), "got"),
        other => panic!("unexpected: {:?}", other.map(|_| ())),
    }
}

fn call(sub: &str) -> DefEvent {
    DefEvent {
        id: EventName::new("call"),
        require: Some(RequiredToBe::Reached),
        prerequisites: vec![],
        kind: DefEventKind::Call(DefCallSub {
            subroutine_name: SubroutineName::new(sub),
            input: Some(DefSubBind { dst: DstPattern(s("$in")), src: s("$out"), no_extra: NoExtra }),
            output: None,
            actors: vec![(ActorName::new("a"), ActorName::new("sub-a"))],
            dummies: vec![],
            no_extra: NoExtra,
        }),
        no_extra: NoExtra,
    }
}

#[test]
fn unknown_subroutine_is_an_error() {
    let code = one(scenario(vec![], &["a"], &[], vec![call("nope")]));
    match build(&code) {
        Err(BuildError::UnknownSubroutine(n)) => assert_eq!(n.as_str(), "nope"),
        other => panic!("unexpected: {:?}", other.map(|_| ())),
    }
}

#[test]
fn a_call_enters_and_leaves_the_subroutine() {
    let mut sub_done = bind("done", &[]);
    sub_done.require = Some(RequiredToBe::Reached);
    let code = SourceCode {
        sources: vec![
            Source { scenario: scenario(vec![], &["a"], &[], vec![call("sub"), bind("after", &["call"])]), subroutines: vec![(SubroutineName::new("sub"), KeyScenario(1))] },
            Source { scenario: scenario(vec![], &["sub-a"], &[], vec![sub_done]), subroutines: vec![] },
        ],
    };
    let exe = build(&code).ok().unwrap();
    // two scopes; the actor is shared
    assert_eq!(exe.scopes.len(), 2);
    assert_eq!(exe.actors.len(), 1);
    assert_eq!(exe.actors[0].known_as.len(), 2);
    // binds: the subroutine's, entering, leaving, and `after`
    assert_eq!(exe.events.bind.len(), 4);
    // only entering the subroutine is an entry point of the root scope
    assert_eq!(exe.events.entry_points.len(), 1);
    let entry = exe.events.entry_points.at(0);
    let (_, name) = exe.event_name(entry).unwrap();
    assert_eq!(name.as_str(), "call[ENTER SUB]");
    // the call is required to be reached
    assert_eq!(exe.events.required.len(), 1);
}

#[test]
fn calls_that_go_round_in_circles_are_refused() {
    let code = SourceCode {
        sources: vec![Source { scenario: scenario(vec![], &["a"], &[], vec![call("me")]), subroutines: vec![(SubroutineName::new("me"), KeyScenario(0))] }],
    };
    assert!(!code.check());
}

#[test]
fn required_events_are_those_of_the_root_scope() {
    let mut reached = bind("reached", &[]);
    reached.require = Some(RequiredToBe::Reached);
    let mut never = bind("never", &["reached"]);
    never.require = Some(RequiredToBe::Unreached);
    let code = one(scenario(vec![], &[], &[], vec![reached, bind("other", &[]), never]));
    let exe = build(&code).ok().unwrap();
    let root = exe.root_scope_key;
    assert_eq!(exe.scopes[root.0].source_key, KeyScenario(0));
    assert!(exe.scopes[root.0].invoked_as.is_none());
    assert_eq!(exe.events.required.len(), 2);
    let mut seen = vec![];
    for i in 0..exe.events.required.len() {
        let (k, req) = exe.events.required.entry_at(i);
        let (scope, name) = exe.event_name(k).unwrap();
        assert_eq!(scope, root);
        seen.push((name.as_str().to_string(), *req));
    }
    seen.sort_by(|a, b| a.0.cmp(&b.0));
    assert_eq!(
        seen,
        vec![("never".to_string(), RequiredToBe::Unreached), ("reached".to_string(), RequiredToBe::Reached)]
    );
    // every event of the scenario is named in the root scope
    for n in ["reached", "other", "never"] {
        let found = (0..exe.events.names.len()).any(|i| {
            let (_, (scope, name)) = exe.events.names.entry_at(i);
            *scope == root && name.as_str() == n
        });
        assert!(found, "{n}");
    }
}

#[test]
fn executable_graph_draws_each_event_and_each_dependency_once() {
    let code = one(scenario(vec![], &[], &[], vec![bind("a", &[]), bind("b", &["a"]), bind("c", &["a", "b"])]));
    let exe = build(&code).ok().unwrap();
    let g = luci::visualization::executable_graph(&exe);
    let name = |k: EventKey| exe.event_name(k).unwrap().1.as_str().to_string();
    let mut nodes: Vec<String> = (0..g.nodes.len()).map(|i| name(g.nodes.at(i))).collect();
    nodes.sort();
    assert_eq!(nodes, vec!["a", "b", "c"]);
    let mut edges: Vec<(String, String)> = g.edges.iter().map(|(p, c)| (name(*p), name(*c))).collect();
    edges.sort();
    assert_eq!(
        edges,
        vec![
            ("a".to_string(), "b".to_string()),
            ("a".to_string(), "c".to_string()),
            ("b".to_string(), "c".to_string()),
        ]
    );
}

#[test]
fn check_accepts_chains_of_calls_and_refuses_repeated_prerequisites() {
    // the root calls `a`, which calls `b`; `b` calls nothing
    let code = SourceCode {
        sources: vec![
            Source { scenario: scenario(vec![], &[], &[], vec![call("a")]), subroutines: vec![(SubroutineName::new("a"), KeyScenario(1))] },
            Source { scenario: scenario(vec![], &[], &[], vec![call("b")]), subroutines: vec![(SubroutineName::new("b"), KeyScenario(2))] },
            Source { scenario: scenario(vec![], &[], &[], vec![bind("x", &[])]), subroutines: vec![] },
        ],
    };
    assert!(code.check());
    // the same scenarios listed the other way round
    let code = SourceCode {
        sources: vec![
            Source { scenario: scenario(vec![], &[], &[], vec![bind("x", &[])]), subroutines: vec![] },
            Source { scenario: scenario(vec![], &[], &[], vec![call("b")]), subroutines: vec![(SubroutineName::new("b"), KeyScenario(0))] },
            Source { scenario: scenario(vec![], &[], &[], vec![call("a")]), subroutines: vec![(SubroutineName::new("a"), KeyScenario(1))] },
        ],
    };
    assert!(code.check());
    let code = one(scenario(vec![], &[], &[], vec![bind("x", &[]), bind("y", &["x", "x"])]));
    assert!(!code.check());
}

#[test]
fn a_fault_in_a_scenario_that_is_not_reached_does_not_matter() {
    let code = SourceCode {
        sources: vec![
            Source { scenario: scenario(vec![], &[], &[], vec![bind("x", &[])]), subroutines: vec![] },
            Source { scenario: scenario(vec![], &[], &[], vec![bind("y", &["nope"])]), subroutines: vec![] },
        ],
    };
    assert!(build(&code).is_ok());
    match Executable::build(registry(), &code, KeyScenario(1)) {
        Err(BuildError::UnknownEvent(n)) => assert_eq!(n.as_str(), "nope"),
        other => panic!("unexpected: {:?}", other.map(|_| ())),
    }
}

#[test]
fn events_are_prioritised_in_the_order_they_are_defined() {
    let code = one(scenario(vec![], &[], &[], vec![bind("a", &[]), bind("b", &["a"]), bind("c", &[])]));
    let exe = build(&code).ok().unwrap();
    let p = |i: usize| *exe.events.priority.get(EventKey::Bind(luci::execution::KeyBind(i))).unwrap();
    assert!(p(0) < p(1));
    assert!(p(1) < p(2));
}

#[test]
fn a_send_is_compiled_with_its_resolved_type_and_actors() {
    let send = DefEventKind::Send(DefEventSend {
        from: DummyName::new("me"),
        to: Some(ActorName::new("them")),
        message_type: MessageName::new("M"),
        message_data: Msg::Literal(s("hi")),
        no_extra: NoExtra,
    });
    let code = one(scenario(vec![("m::Msg", "M")], &["them"], &["me"], vec![with_kind("go", send)]));
    let exe = build(&code).ok().unwrap();
    assert_eq!(exe.events.send.len(), 1);
    let ev = &exe.events.send[0];
    assert_eq!(ev.fqn, "m::Msg");
    assert_eq!(ev.from.0, 0);
    assert_eq!(ev.to.map(|a| a.0), Some(0));
    assert_eq!(exe.actors[0].known_as.len(), 1);
    assert_eq!(exe.dummies[0].known_as.len(), 1);
}
