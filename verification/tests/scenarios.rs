use mical::config::{Config, Value};
use mical::cst::parse;
use mical::error::ConfigError;
use mical::lexer::tokenize;

fn eval_source(src: &str) -> (Config, Vec<ConfigError>) {
    let ts = tokenize(src);
    let (root, _) = parse(&ts);
    Config::from_source_file(&root)
}

fn vs(x: &str) -> Value {
    Value::String(x.to_string())
}

fn pe(k: &str, v: Value) -> (String, Value) {
    (k.to_string(), v)
}

#[test]
fn empty_source_yields_empty_config() {
    let (config, errors) = eval_source("");
    assert!(config.entries().is_empty());
    assert!(config.query("x").is_empty());
    assert!(config.query_prefix("").is_empty());
    assert!(errors.is_empty());
}

#[test]
fn duplicates_preserve_insertion_order_from_source() {
    let (config, _) = eval_source("k first\nother false\nk second\nk third\n");
    assert_eq!(config.query("k"), vec![vs("first"), vs("second"), vs("third")]);
}

#[test]
fn prefix_blocks_compose_prefixes() {
    let (config, _) = eval_source("a {\n  b 10\n  c {\n    d 20\n  }\n}\n");
    assert_eq!(
        config.entries(),
        vec![pe("ab", Value::Integer("10".to_string())), pe("acd", Value::Integer("20".to_string()))]
    );
    assert_eq!(
        config.query_prefix("a"),
        vec![pe("ab", Value::Integer("10".to_string())), pe("acd", Value::Integer("20".to_string()))]
    );
}

#[test]
fn block_string_literal_with_clip() {
    let (config, _) = eval_source("k |\n  hello\n  world\n\n");
    assert_eq!(config.query("k"), vec![vs("hello\nworld\n")]);
}

#[test]
fn block_string_folded_with_strip() {
    let (config, _) = eval_source("k >-\n  one\n  two\n\n  three\n");
    assert_eq!(config.query("k"), vec![vs("one two\nthree")]);
}

#[test]
fn invalid_escape_decodes_best_effort() {
    let (config, errors) = eval_source("\"ab\\xcd\" v\n");
    assert_eq!(errors.len(), 1);
    assert!(
        matches!(&errors[0], ConfigError::InvalidEscape { sequence, .. } if sequence == "\\x")
    );
    // evaluation proceeded: the decoded key keeps the offending character
    assert_eq!(config.query("abxcd"), vec![vs("v")]);
}

#[test]
fn round_trip_via_kv_entries() {
    let (config, _) = eval_source("x 1x\ny 2y\nx 3x\n");
    let rebuilt = Config::from_kv_entries(config.entries());
    assert_eq!(rebuilt.entries(), config.entries());
    assert_eq!(rebuilt.query("x"), config.query("x"));
    assert_eq!(rebuilt.query_prefix(""), config.query_prefix(""));
}

#[test]
fn prefix_query_keys_carry_the_prefix() {
    let (config, _) = eval_source("aa 1a\nab 2b\nb 3c\n");
    for (k, _) in config.query_prefix("a") {
        assert!(k.starts_with("a"));
    }
}

#[test]
fn missing_value_reports_syntax_error() {
    let ts = tokenize("k\n");
    let (_, syntax_errors) = parse(&ts);
    assert!(syntax_errors.len() > 0);
}

#[test]
fn tab_indent_reports_syntax_error() {
    let ts = tokenize("\tk v\n");
    let (_, syntax_errors) = parse(&ts);
    assert!(syntax_errors.len() > 0);
}
