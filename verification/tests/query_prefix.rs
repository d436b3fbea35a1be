use mical::config::{Config, Value};

fn kv(items: Vec<(&str, Value)>) -> Config {
    let owned: Vec<(String, Value)> = items.into_iter().map(|(k, v)| (k.to_string(), v)).collect();
    Config::from_kv_entries(owned)
}

fn vs(x: &str) -> Value {
    Value::String(x.to_string())
}

fn vi(x: &str) -> Value {
    Value::Integer(x.to_string())
}

fn pe(k: &str, v: Value) -> (String, Value) {
    (k.to_string(), v)
}

fn qp(config: &Config, prefix: &str) -> Vec<(String, Value)> {
    config.query_prefix(prefix)
}

#[test]
fn query_prefix_empty_config_returns_nothing() {
    let config = kv(vec![]);
    assert!(qp(&config, "any").is_empty());
    assert!(qp(&config, "").is_empty());
}

#[test]
fn single_entry_prefix_match() {
    let config = kv(vec![("key", vs("v"))]);
    assert_eq!(qp(&config, "k"), vec![pe("key", vs("v"))]);
}

#[test]
fn single_entry_exact_key_as_prefix() {
    let config = kv(vec![("key", vs("v"))]);
    assert_eq!(qp(&config, "key"), vec![pe("key", vs("v"))]);
}

#[test]
fn no_match() {
    let config = kv(vec![("apple", vs("a")), ("banana", vs("b"))]);
    assert!(qp(&config, "cherry").is_empty());
    assert!(qp(&config, "c").is_empty());
    assert!(qp(&config, "apples").is_empty());
}

#[test]
fn empty_prefix_returns_all_in_first_occurrence_order() {
    let config = kv(vec![("b", vs("1")), ("a", vs("2")), ("c", vs("3"))]);
    assert_eq!(
        qp(&config, ""),
        vec![pe("b", vs("1")), pe("a", vs("2")), pe("c", vs("3"))]
    );
}

#[test]
fn groups_ordered_by_first_occurrence() {
    let config = kv(vec![("x", vs("x1")), ("y", vs("y1")), ("x", vs("x2"))]);
    assert_eq!(
        qp(&config, ""),
        vec![pe("x", vs("x1")), pe("x", vs("x2")), pe("y", vs("y1"))]
    );
}

#[test]
fn hierarchical_keys_with_shared_prefix() {
    let config = kv(vec![
        ("app.name", vs("MyApp")),
        ("app.version", vs("1.0")),
        ("db.host", vs("localhost")),
        ("app.name", vs("Renamed")),
    ]);
    assert_eq!(
        qp(&config, "app."),
        vec![
            pe("app.name", vs("MyApp")),
            pe("app.name", vs("Renamed")),
            pe("app.version", vs("1.0")),
        ]
    );
    assert_eq!(qp(&config, "db."), vec![pe("db.host", vs("localhost"))]);
}

#[test]
fn prefix_longer_than_any_key() {
    let config = kv(vec![("a", vs("1")), ("ab", vs("2"))]);
    assert!(qp(&config, "abc").is_empty());
}

#[test]
fn mixed_value_types() {
    let config = kv(vec![
        ("s.flag", Value::Bool(true)),
        ("s.count", vi("42")),
        ("s.name", vs("test")),
    ]);
    assert_eq!(
        qp(&config, "s."),
        vec![
            pe("s.flag", Value::Bool(true)),
            pe("s.count", vi("42")),
            pe("s.name", vs("test")),
        ]
    );
}

#[test]
fn complex_interleaving_with_prefix_filter() {
    let config = kv(vec![
        ("b.x", vs("b.x-1")),
        ("a.x", vs("a.x-1")),
        ("b.y", vs("b.y-1")),
        ("a.y", vs("a.y-1")),
        ("b.x", vs("b.x-2")),
    ]);
    assert_eq!(
        qp(&config, "a."),
        vec![pe("a.x", vs("a.x-1")), pe("a.y", vs("a.y-1"))]
    );
    assert_eq!(
        qp(&config, "b."),
        vec![pe("b.x", vs("b.x-1")), pe("b.x", vs("b.x-2")), pe("b.y", vs("b.y-1"))]
    );
    assert_eq!(
        qp(&config, ""),
        vec![
            pe("b.x", vs("b.x-1")),
            pe("b.x", vs("b.x-2")),
            pe("a.x", vs("a.x-1")),
            pe("b.y", vs("b.y-1")),
            pe("a.y", vs("a.y-1")),
        ]
    );
}

#[test]
fn prefix_distinguishes_similar_keys() {
    let config = kv(vec![("a", vs("1")), ("ab", vs("2")), ("abc", vs("3")), ("b", vs("4"))]);
    assert_eq!(qp(&config, "ab"), vec![pe("ab", vs("2")), pe("abc", vs("3"))]);
}

#[test]
fn many_keys_interleaved() {
    let keys = ["ui.theme", "ui.font", "net.host", "net.port"];
    let mut items: Vec<(&str, Value)> = Vec::new();
    for i in 0..100 {
        items.push((keys[i % keys.len()], vi("1")));
    }
    let config = kv(items);

    let ui = qp(&config, "ui.");
    let ui_keys: Vec<&str> = ui.iter().map(|(k, _)| k.as_str()).collect();
    let first_font = ui_keys.iter().position(|k| *k == "ui.font").unwrap();
    assert!(ui_keys[..first_font].iter().all(|k| *k == "ui.theme"));
    assert_eq!(ui.iter().filter(|(k, _)| k == "ui.theme").count(), 25);
    assert_eq!(ui.iter().filter(|(k, _)| k == "ui.font").count(), 25);

    let all = qp(&config, "");
    let mut seen_order: Vec<String> = Vec::new();
    for (k, _) in &all {
        if !seen_order.contains(k) {
            seen_order.push(k.clone());
        }
    }
    assert_eq!(seen_order, vec!["ui.theme", "ui.font", "net.host", "net.port"]);
    assert_eq!(all.len(), 100);
}

#[test]
fn many_overrides_of_single_key_among_others() {
    let mut items: Vec<(&str, Value)> = Vec::new();
    items.push(("server.port", vi("8080")));
    for i in 0..50 {
        items.push(("server.log", vs(if i % 2 == 0 { "info" } else { "debug" })));
        items.push(("server.port", vi("9090")));
    }
    let config = kv(items);

    let result = qp(&config, "server.");
    let mut seen_order: Vec<String> = Vec::new();
    for (k, _) in &result {
        if !seen_order.contains(k) {
            seen_order.push(k.clone());
        }
    }
    assert_eq!(seen_order, vec!["server.port", "server.log"]);
    assert_eq!(result.iter().filter(|(k, _)| k == "server.port").count(), 51);
    assert_eq!(result.iter().filter(|(k, _)| k == "server.log").count(), 50);
}

#[test]
fn grouped_prefix_query_collects_values_per_key() {
    let config = kv(vec![("a", vs("1")), ("b", vs("2")), ("a", vs("3"))]);
    assert_eq!(
        config.query_prefix_grouped(""),
        vec![
            ("a".to_string(), vec![vs("1"), vs("3")]),
            ("b".to_string(), vec![vs("2")]),
        ]
    );
    assert_eq!(
        config.query_prefix_grouped("a"),
        vec![("a".to_string(), vec![vs("1"), vs("3")])]
    );
    assert!(config.query_prefix_grouped("c").is_empty());
}

#[test]
fn entries_matches_empty_prefix() {
    let config = kv(vec![("m", vs("1")), ("k", vs("2")), ("m", vs("3"))]);
    assert_eq!(config.entries(), qp(&config, ""));
}
