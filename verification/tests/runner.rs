use luci::execution::builder::{Source, SourceCode};
use luci::execution::runner::send::{Outbound, Payload};
use luci::execution::runner::timers::RoundEnd;
use luci::execution::runner::{Envelope, ReadyEventKey, RunError, Runner};
use luci::execution::{EventKey, Executable, KeyDummy, KeyScenario, Report};
use luci::json::JsonValue;
use luci::marshalling::{MarshallingRegistry, Mock};
use luci::names::{ActorName, DummyName, EventName, MessageName};
use luci::scenario::{
    DefEvent, DefEventBind, DefEventDelay, DefEventKind, DefEventRecv, DefEventRespond,
    DefEventSend, DefTypeAlias, DstPattern, Msg, NoExtra, RequiredToBe, Scenario,
};

fn s(x: &str) -> JsonValue {
    JsonValue::String(x.to_string())
}

fn obj(entries: Vec<(&str, JsonValue)>) -> JsonValue {
    JsonValue::Object(entries.into_iter().map(|(k, v)| (k.to_string(), v)).collect())
}

fn event(id: &str, after: &[&str], require: Option<RequiredToBe>, kind: DefEventKind) -> DefEvent {
    DefEvent {
        id: EventName::new(id),
        require,
        prerequisites: after.iter().map(|n| EventName::new(n)).collect(),
        kind,
        no_extra: NoExtra,
    }
}

fn alias(fqn: &str, alias: &str) -> DefTypeAlias {
    DefTypeAlias { type_fqn: fqn.to_string(), type_alias: MessageName::new(alias) }
}

fn recv(ty: &str, data: JsonValue, from: Option<&str>, to: Option<&str>) -> DefEventKind {
    DefEventKind::Recv(DefEventRecv {
        message_type: MessageName::new(ty),
        message_data: DstPattern(data),
        also_match_data: vec![],
        from: from.map(ActorName::new),
        to: to.map(DummyName::new),
        after_duration: 0,
        before_duration: None,
        no_extra: NoExtra,
    })
}

fn send(ty: &str, data: Msg, from: &str, to: Option<&str>) -> DefEventKind {
    DefEventKind::Send(DefEventSend {
        from: DummyName::new(from),
        to: to.map(ActorName::new),
        message_type: MessageName::new(ty),
        message_data: data,
        no_extra: NoExtra,
    })
}

fn registry() -> MarshallingRegistry {
    MarshallingRegistry::new()
        .with(Mock::regular("echo::Ping"))
        .with(Mock::regular("echo::Pong"))
        .with(Mock::request("echo::Ask"))
}

fn echo_scenario(events: Vec<DefEvent>) -> SourceCode {
    SourceCode {
        sources: vec![Source {
            scenario: Scenario {
                types: vec![
                    alias("echo::Ping", "Ping"),
                    alias("echo::Pong", "Pong"),
                    alias("echo::Ask", "Ask"),
                ],
                actors: vec![ActorName::new("echo")],
                dummies: vec![DummyName::new("tester")],
                subs: vec![],
                events,
                no_extra: NoExtra,
            },
            subroutines: vec![],
        }],
    }
}

/// The system under test: an actor at address 42 that answers each `Ping`
/// with a `Pong` holding the same payload, sent to the dummy that pinged.
struct EchoSystem {
    inbox: Vec<Envelope>,
    sent: Vec<Outbound>,
}

impl EchoSystem {
    fn deliver(&mut self, out: Outbound) {
        if out.fqn == "echo::Ping" {
            if let Payload::Value(v) = &out.payload {
                self.inbox.push(Envelope {
                    sender: 42,
                    to_dummy: Some(out.from),
                    fqn: Some("echo::Pong".to_string()),
                    is_request: false,
                    payload: v.deep_clone(),
                });
            }
        }
        self.sent.push(out);
    }
}

/// Runs `exe` against the echo system, with a clock that starts at zero and
/// moves only when the runner sleeps.
fn run(exe: &Executable, extra_inbox: Vec<Envelope>) -> Result<(Report, EchoSystem), RunError> {
    let mut system = EchoSystem { inbox: extra_inbox, sent: vec![] };
    let mut now: u128 = 0;
    let mut runner = Runner::new(exe, now, vec![]);
    while let Some(r) = runner.next_ready_event() {
        runner.begin_fire(r)?;
        let fired = match r {
            ReadyEventKey::Bind => runner.fire_binds()?,
            ReadyEventKey::Send(k) => {
                let out = runner.prepare_send(k)?;
                system.deliver(out);
                vec![EventKey::Send(k)]
            },
            ReadyEventKey::Respond(k) => {
                let _reply = runner.prepare_respond(k)?;
                vec![EventKey::Respond(k)]
            },
            ReadyEventKey::RecvOrDelay => {
                let mut fired = vec![];
                loop {
                    runner.expire_receives(now);
                    let mut unmatched = 0;
                    for m in std::mem::take(&mut system.inbox) {
                        match runner.match_envelope(&m, now) {
                            Some(k) => fired.push(EventKey::Recv(k)),
                            None => unmatched += 1,
                        }
                    }
                    match runner.end_round(!fired.is_empty(), unmatched, now) {
                        RoundEnd::Done => break,
                        RoundEnd::Again => {
                            if system.inbox.is_empty() {
                                break;
                            }
                        },
                        RoundEnd::Sleep { until, expired, done } => {
                            now = until;
                            fired.extend(expired.into_iter().map(EventKey::Delay));
                            if done {
                                break;
                            }
                        },
                    }
                }
                fired
            },
        };
        assert!(runner.can_release_now(&fired));
        if !runner.settle(&fired, now) {
            break;
        }
    }
    Ok((runner.finish(), system))
}

fn names(entries: &[(EventName, RequiredToBe)]) -> Vec<String> {
    let mut v: Vec<String> = entries.iter().map(|(n, _)| n.as_str().to_string()).collect();
    v.sort();
    v
}

fn ping_pong() -> Vec<DefEvent> {
    vec![
        event(
            "bind-x",
            &[],
            None,
            DefEventKind::Bind(DefEventBind {
                dst: DstPattern(s("$x")),
                src: Msg::Literal(s("hello")),
                no_extra: NoExtra,
            }),
        ),
        event(
            "send-ping",
            &["bind-x"],
            None,
            send("Ping", Msg::Bind(obj(vec![("text", s("$x"))])), "tester", None),
        ),
        event(
            "recv-pong",
            &["send-ping"],
            Some(RequiredToBe::Reached),
            recv("Pong", obj(vec![("text", s("$y"))]), Some("echo"), Some("tester")),
        ),
        event(
            "never",
            &["recv-pong"],
            Some(RequiredToBe::Unreached),
            recv("Ping", s("$_"), None, None),
        ),
    ]
}

#[test]
fn ping_is_echoed_and_the_report_is_ok() {
    let code = echo_scenario(ping_pong());
    assert!(code.check());
    let exe = Executable::build(registry(), &code, KeyScenario(0)).ok().unwrap();
    let (report, system) = run(&exe, vec![]).ok().unwrap();
    assert_eq!(names(&report.reached), vec!["recv-pong".to_string()]);
    assert_eq!(names(&report.unreached), vec!["never".to_string()]);
    assert!(report.is_ok());
    assert_eq!(
        report.message(),
        "\nReached:\n    Ok:  1\n    Err: 0\nUnreached:\n    Ok:  1\n    Err: 0\n"
    );
    // the ping carried the value bound by the bind event
    assert_eq!(system.sent.len(), 1);
    match &system.sent[0].payload {
        Payload::Value(v) => assert!(v.equals(&obj(vec![("text", s("hello"))]))),
        Payload::Injected(_) => panic!("expected a value"),
    }
    assert_eq!(system.sent[0].from, KeyDummy(0));
    assert_eq!(system.sent[0].to, None);
}

#[test]
fn a_message_from_another_actor_is_not_accepted() {
    // the pong is expected from `echo`, first seen at address 7: the echo at
    // 42 then does not match
    let mut events = ping_pong();
    events.insert(
        0,
        event(
            "meet-echo",
            &[],
            None,
            recv("Pong", s("$_"), Some("echo"), None),
        ),
    );
    events[2].prerequisites.push(EventName::new("meet-echo"));
    let code = echo_scenario(events);
    let exe = Executable::build(registry(), &code, KeyScenario(0)).ok().unwrap();
    let first = Envelope {
        sender: 7,
        to_dummy: None,
        fqn: Some("echo::Pong".to_string()),
        is_request: false,
        payload: s("hi"),
    };
    let (report, _) = run(&exe, vec![first]).ok().unwrap();
    assert!(names(&report.reached).is_empty());
    assert_eq!(names(&report.unreached), vec!["never".to_string(), "recv-pong".to_string()]);
    assert!(!report.is_ok());
    assert_eq!(
        report.message(),
        "\nReached:\n    Ok:  0\n    Err: 0\nUnreached:\n    Ok:  1\n    Err: 1\n! unreached E:recv-pong\n"
    );
}

#[test]
fn sending_to_an_unbound_actor_fails() {
    let code = echo_scenario(vec![event(
        "send-ping",
        &[],
        None,
        send("Ping", Msg::Literal(s("x")), "tester", Some("echo")),
    )]);
    let exe = Executable::build(registry(), &code, KeyScenario(0)).ok().unwrap();
    match run(&exe, vec![]) {
        Err(RunError::UnboundName(_)) => {},
        other => panic!("unexpected outcome: {:?}", other.map(|_| ())),
    }
}

#[test]
fn rendering_an_unbound_variable_fails_a_send() {
    let code = echo_scenario(vec![event(
        "send-ping",
        &[],
        None,
        send("Ping", Msg::Bind(s("$nope")), "tester", None),
    )]);
    let exe = Executable::build(registry(), &code, KeyScenario(0)).ok().unwrap();
    match run(&exe, vec![]) {
        Err(RunError::Marshalling(m)) => assert_eq!(m, "unbound value: $nope"),
        other => panic!("unexpected outcome: {:?}", other.map(|_| ())),
    }
}

#[test]
fn injecting_an_unknown_value_fails_a_bind() {
    let code = echo_scenario(vec![event(
        "bind",
        &[],
        None,
        DefEventKind::Bind(DefEventBind {
            dst: DstPattern(s("$x")),
            src: Msg::Inject("missing".to_string()),
            no_extra: NoExtra,
        }),
    )]);
    let exe = Executable::build(registry(), &code, KeyScenario(0)).ok().unwrap();
    match run(&exe, vec![]) {
        Err(RunError::Marshalling(m)) => assert_eq!(m, format!("no such key: {:?}", "missing")),
        other => panic!("unexpected outcome: {:?}", other.map(|_| ())),
    }
}

#[test]
fn the_missing_key_is_quoted_and_escaped() {
    let code = echo_scenario(vec![event(
        "bind",
        &[],
        None,
        DefEventKind::Bind(DefEventBind {
            dst: DstPattern(s("$x")),
            src: Msg::Inject("a\"b\\c\n".to_string()),
            no_extra: NoExtra,
        }),
    )]);
    let exe = Executable::build(registry(), &code, KeyScenario(0)).ok().unwrap();
    match run(&exe, vec![]) {
        Err(RunError::Marshalling(m)) => assert_eq!(m, "no such key: \"a\\\"b\\\\c\\n\""),
        other => panic!("unexpected outcome: {:?}", other.map(|_| ())),
    }
}

#[test]
fn responding_without_a_request_fails() {
    // the receive accepted a message that is not a request
    let code = echo_scenario(vec![
        event("ask", &[], None, recv("Ask", s("$_"), None, None)),
        event(
            "answer",
            &["ask"],
            None,
            DefEventKind::Respond(DefEventRespond {
                from: None,
                to_request: EventName::new("ask"),
                data: Msg::Literal(s("ok")),
                no_extra: NoExtra,
            }),
        ),
    ]);
    let exe = Executable::build(registry(), &code, KeyScenario(0)).ok().unwrap();
    let not_a_request = Envelope {
        sender: 9,
        to_dummy: None,
        fqn: Some("echo::Ask".to_string()),
        is_request: false,
        payload: s("q"),
    };
    match run(&exe, vec![not_a_request]) {
        Err(RunError::NoRequest) => {},
        other => panic!("unexpected outcome: {:?}", other.map(|_| ())),
    }
}

#[test]
fn a_request_is_responded_to() {
    let code = echo_scenario(vec![
        event("ask", &[], None, recv("Ask", obj(vec![("q", s("$q"))]), None, None)),
        event(
            "answer",
            &["ask"],
            Some(RequiredToBe::Reached),
            DefEventKind::Respond(DefEventRespond {
                from: None,
                to_request: EventName::new("ask"),
                data: Msg::Bind(obj(vec![("a", s("$q"))])),
                no_extra: NoExtra,
            }),
        ),
    ]);
    let exe = Executable::build(registry(), &code, KeyScenario(0)).ok().unwrap();
    let mut runner = Runner::new(&exe, 0, vec![]);
    assert_eq!(runner.next_ready_event(), Some(ReadyEventKey::RecvOrDelay));
    runner.begin_fire(ReadyEventKey::RecvOrDelay).ok().unwrap();
    let request = Envelope {
        sender: 9,
        to_dummy: None,
        fqn: Some("echo::Ask".to_string()),
        is_request: true,
        payload: obj(vec![("q", s("why"))]),
    };
    let k = runner.match_envelope(&request, 0).unwrap();
    assert!(runner.settle(&vec![EventKey::Recv(k)], 0));
    let r = runner.next_ready_event().unwrap();
    let ReadyEventKey::Respond(rk) = r else { panic!("expected a respond event") };
    runner.begin_fire(r).ok().unwrap();
    let reply = runner.prepare_respond(rk).ok().unwrap();
    assert_eq!(reply.request, k);
    match &reply.payload {
        Payload::Value(v) => assert!(v.equals(&obj(vec![("a", s("why"))]))),
        Payload::Injected(_) => panic!("expected a value"),
    }
    // the request is used up
    assert!(matches!(runner.prepare_respond(rk), Err(RunError::NoRequest)));
}

#[test]
fn a_delay_fires_once_its_time_has_passed() {
    let code = echo_scenario(vec![event(
        "wait",
        &[],
        Some(RequiredToBe::Reached),
        DefEventKind::Delay(DefEventDelay { delay_for: 100, delay_step: 30, no_extra: NoExtra }),
    )]);
    let exe = Executable::build(registry(), &code, KeyScenario(0)).ok().unwrap();
    let mut runner = Runner::new(&exe, 0, vec![]);
    runner.begin_fire(ReadyEventKey::RecvOrDelay).ok().unwrap();
    // at 0 nothing is due: sleep one step
    match runner.end_round(false, 0, 0) {
        RoundEnd::Sleep { until, expired, done } => {
            assert_eq!(until, 30);
            assert!(expired.is_empty());
            assert!(!done);
        },
        _ => panic!("expected to sleep"),
    }
    // at 90 the deadline is nearer than a step
    match runner.end_round(false, 0, 90) {
        RoundEnd::Sleep { until, .. } => assert_eq!(until, 100),
        _ => panic!("expected to sleep"),
    }
    // after 100 the delay fires
    match runner.end_round(false, 0, 101) {
        RoundEnd::Sleep { until, expired, done } => {
            assert_eq!(until, 101);
            assert_eq!(expired.len(), 1);
            assert!(done);
        },
        _ => panic!("expected to sleep"),
    }
}

#[test]
fn a_receive_times_out() {
    let code = echo_scenario(vec![event(
        "pong",
        &[],
        Some(RequiredToBe::Unreached),
        DefEventKind::Recv(DefEventRecv {
            message_type: MessageName::new("Pong"),
            message_data: DstPattern(s("$_")),
            also_match_data: vec![],
            from: None,
            to: None,
            after_duration: 10,
            before_duration: Some(50),
            no_extra: NoExtra,
        }),
    )]);
    let exe = Executable::build(registry(), &code, KeyScenario(0)).ok().unwrap();
    let mut runner = Runner::new(&exe, 0, vec![]);
    let late = Envelope {
        sender: 1,
        to_dummy: None,
        fqn: Some("echo::Pong".to_string()),
        is_request: false,
        payload: s("x"),
    };
    // too early: the window opens at 10
    assert_eq!(runner.match_envelope(&late, 5), None);
    // the window closes at 50
    let expired = runner.expire_receives(51);
    assert_eq!(expired.len(), 1);
    assert_eq!(runner.next_ready_event(), None);
    assert_eq!(runner.match_envelope(&late, 51), None);
    let report = runner.finish();
    assert!(report.is_ok());
}

#[test]
fn binds_fire_in_order_of_definition() {
    // both binds are ready at once; the first defined binds `$x` first
    let code = echo_scenario(vec![
        event(
            "first",
            &[],
            None,
            DefEventKind::Bind(DefEventBind {
                dst: DstPattern(s("$x")),
                src: Msg::Literal(s("one")),
                no_extra: NoExtra,
            }),
        ),
        event(
            "second",
            &[],
            Some(RequiredToBe::Unreached),
            DefEventKind::Bind(DefEventBind {
                dst: DstPattern(s("$x")),
                src: Msg::Literal(s("two")),
                no_extra: NoExtra,
            }),
        ),
    ]);
    let exe = Executable::build(registry(), &code, KeyScenario(0)).ok().unwrap();
    let mut runner = Runner::new(&exe, 0, vec![]);
    assert_eq!(runner.next_ready_event(), Some(ReadyEventKey::Bind));
    runner.begin_fire(ReadyEventKey::Bind).ok().unwrap();
    let fired = runner.fire_binds().ok().unwrap();
    assert_eq!(fired.len(), 1);
    assert!(runner.settle(&fired, 0));
    assert_eq!(runner.next_ready_event(), None);
    let report = runner.finish();
    assert!(report.is_ok());
    assert_eq!(names(&report.unreached), vec!["second".to_string()]);
}

#[test]
fn an_event_cannot_fire_twice() {
    let code = echo_scenario(vec![event(
        "send-ping",
        &[],
        None,
        send("Ping", Msg::Literal(s("x")), "tester", None),
    )]);
    let exe = Executable::build(registry(), &code, KeyScenario(0)).ok().unwrap();
    let mut runner = Runner::new(&exe, 0, vec![]);
    let r = runner.next_ready_event().unwrap();
    runner.begin_fire(r).ok().unwrap();
    let ReadyEventKey::Send(k) = r else { panic!("expected a send") };
    let fired = vec![EventKey::Send(k)];
    assert!(runner.can_release_now(&fired));
    assert!(runner.settle(&fired, 0));
    assert!(!runner.can_release_now(&fired));
    assert!(matches!(runner.begin_fire(r), Err(RunError::EventIsNotReady(_))));
}

#[test]
fn root_scope_values_are_bound() {
    let code = echo_scenario(vec![event(
        "send-ping",
        &[],
        None,
        send("Ping", Msg::Bind(s("$ARG")), "tester", None),
    )]);
    let exe = Executable::build(registry(), &code, KeyScenario(0)).ok().unwrap();
    let mut runner = Runner::new(&exe, 0, vec![("$ARG".to_string(), s("given"))]);
    let r = runner.next_ready_event().unwrap();
    runner.begin_fire(r).ok().unwrap();
    let ReadyEventKey::Send(k) = r else { panic!("expected a send") };
    let out = runner.prepare_send(k).ok().unwrap();
    match out.payload {
        Payload::Value(v) => assert!(v.equals(&s("given"))),
        Payload::Injected(_) => panic!("expected a value"),
    }
}

#[test]
fn delays_that_expire_together_come_in_the_order_they_fell_due() {
    let code = echo_scenario(vec![
        event("late", &[], None, DefEventKind::Delay(DefEventDelay { delay_for: 50, delay_step: 1000, no_extra: NoExtra })),
        event("early", &[], None, DefEventKind::Delay(DefEventDelay { delay_for: 10, delay_step: 1000, no_extra: NoExtra })),
        event("middle", &[], None, DefEventKind::Delay(DefEventDelay { delay_for: 30, delay_step: 1000, no_extra: NoExtra })),
    ]);
    let exe = Executable::build(registry(), &code, KeyScenario(0)).ok().unwrap();
    let mut runner = Runner::new(&exe, 0, vec![]);
    let (_, expired) = runner.next_delays(100);
    let names: Vec<String> = expired
        .iter()
        .map(|k| exe.event_name(EventKey::Delay(*k)).unwrap().1.as_str().to_string())
        .collect();
    assert_eq!(names, vec!["early", "middle", "late"]);
}

#[test]
fn ready_classes_come_binds_first_then_sends_by_key_then_receives() {
    // two sends, a bind and a delay are ready at once
    let code = echo_scenario(vec![
        event("ping_a", &[], None, send("Ping", Msg::Literal(s("a")), "tester", Some("echo"))),
        event(
            "wait",
            &[],
            None,
            DefEventKind::Delay(DefEventDelay { delay_for: 5, delay_step: 1, no_extra: NoExtra }),
        ),
        event(
            "bind",
            &[],
            None,
            DefEventKind::Bind(DefEventBind {
                dst: DstPattern(s("$x")),
                src: Msg::Literal(s("one")),
                no_extra: NoExtra,
            }),
        ),
        event("ping_b", &[], None, send("Ping", Msg::Literal(s("b")), "tester", Some("echo"))),
    ]);
    let exe = Executable::build(registry(), &code, KeyScenario(0)).ok().unwrap();
    let runner = Runner::new(&exe, 0, vec![]);
    let classes = runner.ready_events();
    assert_eq!(classes.len(), 4);
    assert_eq!(classes[0], ReadyEventKey::Bind);
    assert!(matches!(classes[1], ReadyEventKey::Send(k) if k.0 == 0));
    assert!(matches!(classes[2], ReadyEventKey::Send(k) if k.0 == 1));
    assert_eq!(classes[3], ReadyEventKey::RecvOrDelay);
    assert_eq!(runner.next_ready_event(), Some(classes[0]));
}

#[test]
fn a_delay_is_compiled_with_its_own_durations() {
    let code = echo_scenario(vec![event(
        "wait",
        &[],
        None,
        DefEventKind::Delay(DefEventDelay { delay_for: 700, delay_step: 30, no_extra: NoExtra }),
    )]);
    let exe = Executable::build(registry(), &code, KeyScenario(0)).ok().unwrap();
    assert_eq!(exe.events.delay.len(), 1);
    assert_eq!(exe.events.delay[0].delay_for, 700);
    assert_eq!(exe.events.delay[0].delay_step, 30);
}
