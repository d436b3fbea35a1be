use mical::config::{Config, Value};
use mical::cst::parse;
use mical::error::ConfigError;
use mical::lexer::tokenize;
use mical::syntax::SyntaxError;

fn eval_source(src: &str) -> (Config, Vec<ConfigError>, Vec<SyntaxError>) {
    let ts = tokenize(src);
    let (root, syntax_errors) = parse(&ts);
    let (config, config_errors) = Config::from_source_file(&root);
    (config, config_errors, syntax_errors)
}

fn entries_of(src: &str) -> Vec<(String, Value)> {
    eval_source(src).0.entries()
}

fn vs(x: &str) -> Value {
    Value::String(x.to_string())
}

fn vi(x: &str) -> Value {
    Value::Integer(x.to_string())
}

fn pe(k: &str, v: Value) -> (String, Value) {
    (k.to_string(), v)
}

#[test]
fn basic_entries() {
    assert_eq!(
        entries_of("name value\nhost example\n"),
        vec![pe("name", vs("value")), pe("host", vs("example"))]
    );
}

#[test]
fn typed_values() {
    assert_eq!(
        entries_of("flag true\ncount 42\nneg -77\nmsg hello world\n"),
        vec![
            pe("flag", Value::Bool(true)),
            pe("count", vi("42")),
            pe("neg", vi("-77")),
            pe("msg", vs("hello world")),
        ]
    );
}

#[test]
fn quoted_strings() {
    assert_eq!(
        entries_of("a \"hello world\"\nb 'it\\'s'\n"),
        vec![pe("a", vs("hello world")), pe("b", vs("it's"))]
    );
}

#[test]
fn quoted_keys() {
    assert_eq!(
        entries_of("\"my key\" v\n\"a\\\"b\" w\n"),
        vec![pe("my key", vs("v")), pe("a\"b", vs("w"))]
    );
}

#[test]
fn prefix_block() {
    assert_eq!(entries_of("a {\n  b 10\n}\n"), vec![pe("ab", vi("10"))]);
}

#[test]
fn nested_prefix_block() {
    assert_eq!(
        entries_of("a {\n  b 10\n  c {\n    d 20\n  }\n}\n"),
        vec![pe("ab", vi("10")), pe("acd", vi("20"))]
    );
}

#[test]
fn prefix_block_values() {
    assert_eq!(
        entries_of("s {\n  flag true\n  name test\n}\n"),
        vec![pe("sflag", Value::Bool(true)), pe("sname", vs("test"))]
    );
}

#[test]
fn block_string_literal() {
    assert_eq!(
        entries_of("text |\n  hello\n  world\n"),
        vec![pe("text", vs("hello\nworld\n"))]
    );
}

#[test]
fn block_string_strip() {
    assert_eq!(entries_of("text |-\n  a\n  b\n"), vec![pe("text", vs("a\nb"))]);
}

#[test]
fn block_string_keep() {
    assert_eq!(entries_of("text |+\n  a\n  b\n"), vec![pe("text", vs("a\nb\n"))]);
}

#[test]
fn block_string_keep_multi_trailing() {
    assert_eq!(entries_of("text |+\n  a\n\n\n"), vec![pe("text", vs("a\n\n\n"))]);
}

#[test]
fn block_string_clip_trailing() {
    assert_eq!(entries_of("text |\n  a\n\n\n"), vec![pe("text", vs("a\n"))]);
}

#[test]
fn block_string_empty_body() {
    assert_eq!(entries_of("text |\n"), vec![pe("text", vs(""))]);
}

#[test]
fn block_string_empty_lines_inside() {
    assert_eq!(
        entries_of("text |\n  a\n\n  b\n"),
        vec![pe("text", vs("a\n\nb\n"))]
    );
}

#[test]
fn block_string_extra_indent() {
    assert_eq!(
        entries_of("text |\n  a\n    b\n"),
        vec![pe("text", vs("a\n  b\n"))]
    );
}

#[test]
fn block_string_folded() {
    assert_eq!(
        entries_of("text >\n  one\n  two\n\n  three\n"),
        vec![pe("text", vs("one two\nthree\n"))]
    );
}

#[test]
fn block_string_folded_strip() {
    assert_eq!(
        entries_of("text >-\n  one\n  two\n\n  three\n"),
        vec![pe("text", vs("one two\nthree"))]
    );
}

#[test]
fn block_string_folded_keep() {
    assert_eq!(entries_of("text >+\n  a\n\n\n"), vec![pe("text", vs("a\n\n\n"))]);
}

#[test]
fn block_string_in_prefix() {
    assert_eq!(
        entries_of("p {\n  t |\n    x\n}\n"),
        vec![pe("pt", vs("x\n"))]
    );
}

#[test]
fn duplicate_keys() {
    let (config, _, _) = eval_source("k a\nk b\nm c\n");
    assert_eq!(config.query("k"), vec![vs("a"), vs("b")]);
    assert_eq!(config.query("m"), vec![vs("c")]);
    assert_eq!(
        config.entries(),
        vec![pe("k", vs("a")), pe("k", vs("b")), pe("m", vs("c"))]
    );
}

#[test]
fn comments_directives() {
    let (config, config_errors, _) = eval_source("# a comment line\n#meta info here\nk v\n");
    assert_eq!(config.entries(), vec![pe("k", vs("v"))]);
    assert!(config_errors.is_empty());
}

#[test]
fn shebang() {
    assert_eq!(entries_of("#!/bin/mical\nk v\n"), vec![pe("k", vs("v"))]);
}

#[test]
fn invalid_escape() {
    let (config, config_errors, _) = eval_source("k \"a\\qb\"\n");
    assert_eq!(config.entries(), vec![pe("k", vs("aqb"))]);
    assert_eq!(config_errors.len(), 1);
    assert!(
        matches!(&config_errors[0], ConfigError::InvalidEscape { sequence, .. } if sequence == "\\q")
    );
}
