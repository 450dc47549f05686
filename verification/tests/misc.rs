use luci::execution::report::decimal_string;
use luci::execution::Report;
use luci::json::{JsonNumber, JsonValue};
use luci::marshalling::{MarshallerKind, MarshallingRegistry, Mock};
use luci::names::{ActorName, DummyName, EventName, MessageName, SubroutineName};
use luci::scenario::{
    default_delay_step, DefEvent, DefEventBind, DefEventKind, DstPattern, Msg, NoExtra, RequiredToBe,
    Scenario,
};

#[test]
fn names_display_with_their_kind() {
    assert_eq!(ActorName::new("a").display(), "A:a");
    assert_eq!(DummyName::new("d").display(), "D:d");
    assert_eq!(EventName::new("e").display(), "E:e");
    assert_eq!(MessageName::new("m").display(), "M:m");
    assert_eq!(SubroutineName::new("s").display(), "S:s");
}

#[test]
fn event_name_with_suffix() {
    assert_eq!(EventName::new("call").with_suffix("[ENTER SUB]").as_str(), "call[ENTER SUB]");
}

#[test]
fn default_step_is_25_ms() {
    assert_eq!(default_delay_step(), 25_000_000);
}

#[test]
fn mocks_register_their_kind() {
    let m = MarshallingRegistry::new().with(Mock::regular("a::A")).with(Mock::request("b::B"));
    assert_eq!(m.resolve("a::A"), Some(MarshallerKind::Regular));
    assert_eq!(m.resolve("b::B"), Some(MarshallerKind::Request));
    assert_eq!(m.resolve("c::C"), None);
}

#[test]
fn injected_value_reads_back() {
    let mut m = MarshallingRegistry::new();
    m.insert_value("k".to_string(), JsonValue::Bool(true));
    assert!(m.value("k").unwrap().equals(&JsonValue::Bool(true)));
    m.insert_value("k".to_string(), JsonValue::Null);
    assert!(m.value("k").unwrap().equals(&JsonValue::Null));
    assert!(m.value("other").is_none());
}

#[test]
fn json_equality_is_structural() {
    let a = JsonValue::Array(vec![JsonValue::Number(JsonNumber::PosInt(1)), JsonValue::String("x".into())]);
    let b = a.deep_clone();
    assert!(a.equals(&b));
    let c = JsonValue::Array(vec![JsonValue::Number(JsonNumber::NegInt(-1)), JsonValue::String("x".into())]);
    assert!(!a.equals(&c));
}

#[test]
fn decimals() {
    assert_eq!(decimal_string(0), "0");
    assert_eq!(decimal_string(7), "7");
    assert_eq!(decimal_string(1234), "1234");
}

#[test]
fn report_message_names_what_went_wrong() {
    let report = Report {
        reached: vec![(EventName::new("a"), RequiredToBe::Reached), (EventName::new("b"), RequiredToBe::Unreached)],
        unreached: vec![(EventName::new("c"), RequiredToBe::Reached), (EventName::new("d"), RequiredToBe::Unreached)],
    };
    assert!(!report.is_ok());
    assert_eq!(
        report.message(),
        "\nReached:\n    Ok:  1\n    Err: 1\nUnreached:\n    Ok:  1\n    Err: 1\n! unreached E:c\n! reached   E:b\n"
    );
}

#[test]
fn ok_report_names_no_event() {
    let report = Report {
        reached: vec![(EventName::new("a"), RequiredToBe::Reached)],
        unreached: vec![(EventName::new("d"), RequiredToBe::Unreached)],
    };
    assert!(report.is_ok());
    assert_eq!(report.message(), "\nReached:\n    Ok:  1\n    Err: 0\nUnreached:\n    Ok:  1\n    Err: 0\n");
}

#[test]
fn quote_names_the_event() {
    assert_eq!(luci::visualization::quote(&EventName::new("x")), "\"E:x\"");
}

#[test]
fn scenario_graph_has_a_node_per_name_and_an_edge_per_prerequisite() {
    let ev = |id: &str, after: &[&str]| DefEvent {
        id: EventName::new(id),
        require: None,
        prerequisites: after.iter().map(|n| EventName::new(n)).collect(),
        kind: DefEventKind::Bind(DefEventBind {
            dst: DstPattern(JsonValue::Null),
            src: Msg::Literal(JsonValue::Null),
            no_extra: NoExtra,
        }),
        no_extra: NoExtra,
    };
    let sc = Scenario {
        types: vec![],
        actors: vec![],
        dummies: vec![],
        subs: vec![],
        events: vec![ev("a", &[]), ev("b", &["a"]), ev("a", &["b"])],
        no_extra: NoExtra,
    };
    let g = luci::visualization::scenario_graph(&sc);
    assert_eq!(g.nodes, vec![0, 1]);
    assert_eq!(
        g.edges,
        vec![
            ("\"E:a\"".to_string(), "\"E:b\"".to_string()),
            ("\"E:b\"".to_string(), "\"E:a\"".to_string())
        ]
    );
}

#[test]
fn a_report_is_ok_exactly_when_its_text_is_the_bare_counts() {
    let bare = |r: usize, u: usize| format!("\nReached:\n    Ok:  {r}\n    Err: 0\nUnreached:\n    Ok:  {u}\n    Err: 0\n");
    let ok = Report {
        reached: vec![(EventName::new("a"), RequiredToBe::Reached), (EventName::new("b"), RequiredToBe::Reached)],
        unreached: vec![(EventName::new("d"), RequiredToBe::Unreached)],
    };
    assert!(ok.is_ok());
    assert_eq!(ok.message(), bare(2, 1));
    let not_ok = Report {
        reached: vec![(EventName::new("a"), RequiredToBe::Reached), (EventName::new("b"), RequiredToBe::Unreached)],
        unreached: vec![(EventName::new("d"), RequiredToBe::Unreached)],
    };
    assert!(!not_ok.is_ok());
    assert_ne!(not_ok.message(), bare(2, 1));
}
