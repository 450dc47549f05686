use luci::bindings::{bind_to_pattern, render, BindError, Scope};
use luci::json::{JsonNumber, JsonValue};

fn s(x: &str) -> JsonValue {
    JsonValue::String(x.to_string())
}

fn obj(entries: Vec<(&str, JsonValue)>) -> JsonValue {
    JsonValue::Object(entries.into_iter().map(|(k, v)| (k.to_string(), v)).collect())
}

#[test]
fn test_01() {
    let mut scope = Scope::new();
    assert!(scope.value_of("a").is_none());
    assert!(scope.value_of("b").is_none());

    {
        let mut txn = scope.txn();

        assert!(txn.bind_value(&scope, "a", &s("a")));
        assert!(txn.bind_value(&scope, "a", &s("a")));
        assert!(!txn.bind_value(&scope, "a", &s("b")));
    }

    assert!(scope.value_of("a").is_none());
    assert!(scope.value_of("b").is_none());

    {
        let mut txn = scope.txn();

        assert!(txn.bind_value(&scope, "a", &s("a")));
        assert!(txn.bind_value(&scope, "a", &s("a")));
        assert!(!txn.bind_value(&scope, "a", &s("b")));

        txn.commit(&mut scope);
    }

    assert!(scope.value_of("a").unwrap().equals(&s("a")));
    assert!(scope.value_of("b").is_none());
}

#[test]
fn pattern_binds_variables_of_an_object() {
    let scope = Scope::new();
    let mut txn = scope.txn();
    let value = obj(vec![("x", JsonValue::Number(JsonNumber::PosInt(1))), ("y", s("why"))]);
    let pattern = obj(vec![("x", s("$x"))]);
    assert!(bind_to_pattern(&value, &pattern, &scope, &mut txn));
    let mut scope = scope;
    txn.commit(&mut scope);
    assert!(scope.value_of("$x").unwrap().equals(&JsonValue::Number(JsonNumber::PosInt(1))));
}

#[test]
fn pattern_with_a_missing_key_does_not_match() {
    let scope = Scope::new();
    let mut txn = scope.txn();
    let value = obj(vec![("y", s("why"))]);
    let pattern = obj(vec![("x", s("$x"))]);
    assert!(!bind_to_pattern(&value, &pattern, &scope, &mut txn));
}

#[test]
fn wildcard_matches_anything_and_binds_nothing() {
    let scope = Scope::new();
    let mut txn = scope.txn();
    assert!(bind_to_pattern(&JsonValue::Bool(true), &s("$_"), &scope, &mut txn));
    let mut scope = scope;
    txn.commit(&mut scope);
    assert!(scope.value_of("$_").is_none());
}

#[test]
fn array_pattern_needs_the_same_length() {
    let scope = Scope::new();
    let mut txn = scope.txn();
    let value = JsonValue::Array(vec![s("a"), s("b")]);
    let pattern = JsonValue::Array(vec![s("$a")]);
    assert!(!bind_to_pattern(&value, &pattern, &scope, &mut txn));
}

#[test]
fn bound_variable_renders_back() {
    // a variable bound by a pattern renders to the value it matched
    let mut scope = Scope::new();
    let mut txn = scope.txn();
    assert!(bind_to_pattern(&s("value"), &s("$v"), &scope, &mut txn));
    txn.commit(&mut scope);
    let out = render(&s("$v"), &scope).ok().unwrap();
    assert!(out.equals(&s("value")));
}

#[test]
fn plain_template_renders_to_itself() {
    let scope = Scope::new();
    let t = obj(vec![("k", JsonValue::Array(vec![s("plain"), JsonValue::Null]))]);
    let out = render(&t, &scope).ok().unwrap();
    assert!(out.equals(&t));
}

#[test]
fn render_reports_the_first_unbound_variable() {
    let scope = Scope::new();
    let t = JsonValue::Array(vec![s("$first"), s("$second")]);
    match render(&t, &scope) {
        Err(BindError::UnboundValue(n)) => assert_eq!(n, "$first"),
        Ok(_) => panic!("rendered an unbound variable"),
    }
}

#[test]
fn wildcard_does_not_render() {
    let scope = Scope::new();
    match render(&s("$_"), &scope) {
        Err(e) => assert_eq!(e.message(), "unbound value: $_"),
        Ok(_) => panic!("rendered the wildcard"),
    }
}

#[test]
fn matching_keeps_earlier_bindings() {
    // a later pattern cannot rebind a variable to another value
    let mut scope = Scope::from_values(vec![("$a".to_string(), s("one"))]);
    let mut txn = scope.txn();
    assert!(!bind_to_pattern(&s("two"), &s("$a"), &scope, &mut txn));
    assert!(bind_to_pattern(&s("one"), &s("$a"), &scope, &mut txn));
    txn.commit(&mut scope);
    assert!(scope.value_of("$a").unwrap().equals(&s("one")));
}

#[test]
fn actors_are_bound_one_to_one() {
    let mut scope = Scope::new();
    let mut txn = scope.txn();
    assert!(txn.bind_actor(&scope, "alice", 1));
    assert!(txn.bind_actor(&scope, "alice", 1));
    assert!(!txn.bind_actor(&scope, "alice", 2));
    assert!(!txn.bind_actor(&scope, "bob", 1));
    txn.commit(&mut scope);
    assert_eq!(scope.address_of("alice"), Some(1));
    assert_eq!(scope.address_of("bob"), None);
}

#[test]
fn bound_array_pattern_renders_back() {
    // a pattern with arrays and no object renders back to the value it matched
    let value = JsonValue::Array(vec![
        s("one"),
        JsonValue::Number(JsonNumber::PosInt(2)),
        JsonValue::Array(vec![s("three"), s("x"), s("one")]),
    ]);
    let pattern = JsonValue::Array(vec![
        s("$a"),
        s("$b"),
        JsonValue::Array(vec![s("$c"), s("x"), s("$a")]),
    ]);
    let mut scope = Scope::new();
    let mut txn = scope.txn();
    assert!(bind_to_pattern(&value, &pattern, &scope, &mut txn));
    txn.commit(&mut scope);
    let out = render(&pattern, &scope).ok().unwrap();
    assert!(out.equals(&value));
}
