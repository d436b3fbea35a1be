use mical::config::{Config, Value};

fn kv(items: Vec<(&str, Value)>) -> Config {
    let owned: Vec<(String, Value)> = items.into_iter().map(|(k, v)| (k.to_string(), v)).collect();
    Config::from_kv_entries(owned)
}

fn vs(x: &str) -> Value {
    Value::String(x.to_string())
}

fn vi(x: &str) -> Value {
    Value::Integer(x.to_string())
}

fn q(config: &Config, key: &str) -> Vec<Value> {
    config.query(key)
}

#[test]
fn query_empty_config_returns_nothing() {
    let config = kv(vec![]);
    assert!(q(&config, "any").is_empty());
    assert!(q(&config, "").is_empty());
}

#[test]
fn single_entry_exact_match() {
    let config = kv(vec![("key", vs("val"))]);
    assert_eq!(q(&config, "key"), vec![vs("val")]);
}

#[test]
fn single_entry_no_match() {
    let config = kv(vec![("key", vs("val"))]);
    assert!(q(&config, "other").is_empty());
    assert!(q(&config, "ke").is_empty());
    assert!(q(&config, "keys").is_empty());
}

#[test]
fn multiple_distinct_keys() {
    let config = kv(vec![("a", vs("1")), ("b", vi("2")), ("c", Value::Bool(true))]);
    assert_eq!(q(&config, "a"), vec![vs("1")]);
    assert_eq!(q(&config, "b"), vec![vi("2")]);
    assert_eq!(q(&config, "c"), vec![Value::Bool(true)]);
}

#[test]
fn duplicate_keys_return_in_insertion_order() {
    let config = kv(vec![
        ("k", vs("first")),
        ("other", Value::Bool(false)),
        ("k", vs("second")),
        ("k", vs("third")),
    ]);
    assert_eq!(q(&config, "k"), vec![vs("first"), vs("second"), vs("third")]);
    assert_eq!(q(&config, "other"), vec![Value::Bool(false)]);
}

#[test]
fn interleaved_duplicates_preserve_per_key_order() {
    let config = kv(vec![
        ("x", vs("x1")),
        ("y", vs("y1")),
        ("x", vs("x2")),
        ("y", vs("y2")),
        ("x", vs("x3")),
    ]);
    assert_eq!(q(&config, "x"), vec![vs("x1"), vs("x2"), vs("x3")]);
    assert_eq!(q(&config, "y"), vec![vs("y1"), vs("y2")]);
}

#[test]
fn empty_string_key() {
    let config = kv(vec![("", vs("empty_key")), ("a", vs("a")), ("", vi("42"))]);
    assert_eq!(q(&config, ""), vec![vs("empty_key"), vi("42")]);
}

#[test]
fn all_value_types() {
    let config = kv(vec![
        ("b", Value::Bool(true)),
        ("b", Value::Bool(false)),
        ("i", vi("0")),
        ("i", vi("-99")),
        ("s", vs("")),
        ("s", vs("hello world")),
    ]);
    assert_eq!(q(&config, "b"), vec![Value::Bool(true), Value::Bool(false)]);
    assert_eq!(q(&config, "i"), vec![vi("0"), vi("-99")]);
    assert_eq!(q(&config, "s"), vec![vs(""), vs("hello world")]);
}

#[test]
fn prefix_of_key_does_not_match() {
    let config = kv(vec![("abc", vs("1")), ("ab", vs("2"))]);
    assert!(q(&config, "a").is_empty());
    assert_eq!(q(&config, "ab"), vec![vs("2")]);
    assert_eq!(q(&config, "abc"), vec![vs("1")]);
}

#[test]
fn many_duplicates_preserve_insertion_order() {
    let mut items: Vec<(&str, Value)> = Vec::new();
    for i in 0..100 {
        items.push(("key", vi(if i % 2 == 0 { "even" } else { "odd" })));
    }
    let config = kv(items);
    let result = q(&config, "key");
    assert_eq!(result.len(), 100);
    for (i, v) in result.iter().enumerate() {
        let expected = if i % 2 == 0 { vi("even") } else { vi("odd") };
        assert_eq!(*v, expected, "mismatch at index {}", i);
    }
}

#[test]
fn many_keys_interleaved_query_each() {
    let keys = ["alpha", "beta", "gamma"];
    let mut items: Vec<(&str, Value)> = Vec::new();
    for i in 0..90 {
        let k = keys[i % 3];
        items.push((k, vs(k)));
    }
    let config = kv(items);
    for k in &keys {
        let result = q(&config, k);
        assert_eq!(result.len(), 30);
        assert!(result.iter().all(|v| *v == vs(k)));
    }
    assert!(q(&config, "delta").is_empty());
}
