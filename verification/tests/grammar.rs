//! Tests of the config grammar: parameters, plugins, conditionals,
//! sections, plugin resolution and pipeline assembly.

use pipeconf::config::{
    param_entry, plugin, condition, statement, read_config, Plugin, Condition, ElseIf, Statement,
    Parser,
};
use pipeconf::parsers::Parsed;
use pipeconf::registry::Registry;
use pipeconf::types::{Value, ParseError};

fn cs(s: &str) -> Vec<char> {
    s.chars().collect()
}

fn reg_with(names: &[&str]) -> Registry {
    let mut r = Registry::new();
    let mut handle = 1u64;
    for n in names {
        r.register(cs(n), handle);
        handle += 1;
    }
    r
}

#[test]
fn test_param_entry() {
    let s = cs(
        "\n      add_field => {\n        \"mt_full_date\" => \"%{mt_date} %{mt_time}\"\n      }\n    ",
    );
    let inner = Value::Hash(vec![(cs("mt_full_date"), Value::Str(cs("%{mt_date} %{mt_time}")))]);
    match param_entry(&s, 0) {
        Parsed::Found((name, v), _) => {
            assert_eq!(name, cs("add_field"));
            assert_eq!(v, inner);
        }
        _ => panic!("parameter entry did not parse"),
    }
}

#[test]
fn mod_test_param_entry() {
    let s = cs(
        "\n      add_field => {\n        \"mt_full_date\" => \"%{mt_date} %{mt_time}\"\n      }\n    ",
    );
    let expected = (
        cs("add_field"),
        Value::Hash(vec![(cs("mt_full_date"), Value::Str(cs("%{mt_date} %{mt_time}")))]),
    );
    match param_entry(&s, 0) {
        Parsed::Found(pv, _) => assert_eq!(pv, expected),
        _ => panic!("parameter entry did not parse"),
    }
}

#[test]
fn test_plugin() {
    let s = cs(
        "\ngrok {\n    match => {\n        \"message\" => \"max. memory block: %{INT:mt_mon_max_memory_block} kb process cpu: %{INT:mt_mon_process_cpu}\\%  net in: %{INT:mt_mon_network_in} Kbyte/s  net out: %{INT:mt_mon_network_out} Kbyte/s\"\n    }\n    overwrite => \"message\"\n}\n",
    );
    let r = reg_with(&["grok"]);
    let inner = Value::Hash(vec![(
        cs("message"),
        Value::Str(cs(
            "max. memory block: %{INT:mt_mon_max_memory_block} kb process cpu: %{INT:mt_mon_process_cpu}\\%  net in: %{INT:mt_mon_network_in} Kbyte/s  net out: %{INT:mt_mon_network_out} Kbyte/s",
        )),
    )]);
    let expected = Plugin::new(
        cs("grok"),
        vec![(cs("match"), inner), (cs("overwrite"), Value::Str(cs("message")))],
    );
    match plugin(&s, 0, &r) {
        Parsed::Found(p, _) => assert_eq!(p, expected),
        _ => panic!("plugin did not parse"),
    }
}

#[test]
fn mod_test_plugin() {
    let s = cs(
        "\ngrok {\n    match => {\n        \"message\" => \"max. memory block: %{INT:mt_mon_max_memory_block} kb process cpu: %{INT:mt_mon_process_cpu}\\%  net in: %{INT:mt_mon_network_in} Kbyte/s  net out: %{INT:mt_mon_network_out} Kbyte/s\"\n    }\n    overwrite => \"message\"\n}\n",
    );
    let r = reg_with(&["grok"]);
    match plugin(&s, 0, &r) {
        Parsed::Found(p, _) => assert_eq!(p.kind(), &cs("grok")),
        _ => panic!("plugin did not parse"),
    }
}

const IF_BLOCK: &str = "\nif EXPRESSION1 {\n    mutate {\n        convert => {\n            \"dl_exec_time_ms1\" => \"integer\"\n        }\n    }\n} else if EXPRESSION2 {\n    mutate {\n        convert => {\n            \"dl_exec_time_ms2\" => \"integer\"\n        }\n    }\n    if Expression4 {\n        mutate {\n            convert => {\n                \"folded_if\" => \"integer\"\n            }\n        }\n\n\n    }\n} else {\n    mutate {\n        convert => {\n            \"dl_exec_time_ms3\" => \"integer\"\n        }\n    }\n}\n";

#[test]
fn test_if_block() {
    let s = cs(IF_BLOCK);
    let r = reg_with(&["mutate"]);
    match condition(&s, 0, &r) {
        Parsed::Found(_, _) => {}
        _ => panic!("nested conditional did not parse"),
    }
}

#[test]
fn mod_test_if_block() {
    let s = cs(IF_BLOCK);
    let r = reg_with(&["mutate"]);
    match condition(&s, 0, &r) {
        Parsed::Found(_, _) => {}
        _ => panic!("nested conditional did not parse"),
    }
}

#[test]
fn test_scenario_grok_params() {
    let s = cs("grok { match => { \"message\" => \"pattern\" } overwrite => \"message\" }");
    let r = reg_with(&["grok"]);
    match statement(&s, 0, &r) {
        Parsed::Found(Statement::Plugin(p), _) => {
            assert_eq!(p.kind(), &cs("grok"));
            let expected = vec![
                (cs("match"), Value::Hash(vec![(cs("message"), Value::Str(cs("pattern")))])),
                (cs("overwrite"), Value::Str(cs("message"))),
            ];
            assert_eq!(p.params(), &expected);
        }
        _ => panic!("grok statement did not parse as a plugin"),
    }
}

#[test]
fn test_scenario_else_chain() {
    let s = cs("if a { p1 {} } else if b { p2 {} } else { p3 {} }");
    let r = reg_with(&["p1", "p2", "p3"]);
    let p = |name: &str| Statement::Plugin(Plugin::new(cs(name), vec![]));
    let expected = Condition::new(
        cs("a "),
        vec![p("p1")],
        vec![ElseIf::new(cs("b "), vec![p("p2")])],
        vec![p("p3")],
    );
    match condition(&s, 0, &r) {
        Parsed::Found(c, _) => assert_eq!(c, expected),
        _ => panic!("if/else-if/else did not parse"),
    }
}

#[test]
fn test_unknown_plugin_aborts_parse() {
    let s = cs("filter { nosuch { } }");
    let r = reg_with(&["mutate"]);
    match read_config(&s, &r) {
        Err(ParseError::UnknownPlugin(name)) => assert_eq!(name, cs("nosuch")),
        other => panic!("unknown plugin was not fatal: {:?}", other),
    }
}

#[test]
fn test_sections_append_in_order() {
    let s = cs("input { a {} }\nfilter { b {} }\ninput { a {} c {} }\noutput { d {} }");
    let r = reg_with(&["a", "b", "c", "d"]);
    let pipeline = read_config(&s, &r).unwrap();
    assert_eq!(pipeline.input().len(), 3);
    assert_eq!(pipeline.filter().len(), 1);
    assert_eq!(pipeline.output().len(), 1);
}

#[test]
fn test_parse_idempotent() {
    let s = cs("input { a {} }\nfilter { if [x] == 1 { b {} } }\n# comment\n");
    let r = reg_with(&["a", "b"]);
    let p1 = read_config(&s, &r).unwrap();
    let p2 = read_config(&s, &r).unwrap();
    assert_eq!(p1, p2);
}

#[test]
fn test_empty_config() {
    let s = cs("  # only a comment\n");
    let r = Registry::new();
    let pipeline = read_config(&s, &r).unwrap();
    assert_eq!(pipeline, Parser::new());
}

#[test]
fn test_leftover_text_is_syntax_error() {
    let s = cs("input { } garbage");
    let r = Registry::new();
    match read_config(&s, &r) {
        Err(ParseError::Syntax { .. }) => {}
        other => panic!("leftover text was accepted: {:?}", other),
    }
}

#[test]
fn test_identifier_digits_after_first() {
    // digits are identifier characters after the first, so names like p1
    // or a key k2 parse whole
    let s = cs("k2 => true");
    match param_entry(&s, 0) {
        Parsed::Found((name, v), _) => {
            assert_eq!(name, cs("k2"));
            assert_eq!(v, Value::Boolean(true));
        }
        _ => panic!("name with a trailing digit did not parse"),
    }
}

#[test]
fn test_identifier_no_leading_digit() {
    // an identifier may not begin with a digit: `1 => ...` is no
    // parameter entry
    let s = cs("1 => true");
    match param_entry(&s, 0) {
        Parsed::NoMatch => {}
        other => panic!("leading-digit name was accepted: {:?}", other),
    }
    let conf = cs("filter { 2fast {} }");
    let r = reg_with(&["mutate"]);
    match read_config(&conf, &r) {
        Err(ParseError::Syntax { .. }) => {}
        other => panic!("leading-digit plugin name was accepted: {:?}", other),
    }
}

#[test]
fn test_registry_overwrite_and_lookup() {
    let mut r = Registry::new();
    r.register(cs("grok"), 1);
    r.register(cs("date"), 2);
    r.register(cs("grok"), 7);
    assert_eq!(r.lookup(&cs("grok")), Some(7));
    assert_eq!(r.lookup(&cs("date")), Some(2));
    assert_eq!(r.lookup(&cs("mutate")), None);
    assert!(r.construct(cs("grok"), vec![]).is_some());
    assert!(r.construct(cs("mutate"), vec![]).is_none());
}

#[test]
fn test_full_pipeline() {
    let text = "\n# ingestion\ninput {\n  stdin { tag => \"raw\" }\n}\nfilter {\n  if [level] == \"error\" {\n    grok {\n      match => { \"message\" => \"%{INT:code}\" }\n      keep => [ \"code\", true, 2 ]\n    }\n  } else {\n    drop {}\n  }\n}\noutput {\n  stdout {}\n}\n";
    let s = cs(text);
    let r = reg_with(&["stdin", "grok", "drop", "stdout"]);
    let pipeline = read_config(&s, &r).unwrap();
    assert_eq!(pipeline.input().len(), 1);
    assert_eq!(pipeline.filter().len(), 1);
    assert_eq!(pipeline.output().len(), 1);
    match &pipeline.filter()[0] {
        Statement::Condition(c) => {
            let rpn = c.condition().compile().unwrap();
            assert_eq!(rpn.len(), 3);
        }
        _ => panic!("filter chain should hold the conditional"),
    }
}

#[test]
fn test_guard_compiles_from_condition() {
    let s = cs("if [a][b] == 1 { p {} }");
    let r = reg_with(&["p"]);
    match condition(&s, 0, &r) {
        Parsed::Found(c, _) => {
            let rpn = c.condition().compile().unwrap();
            assert_eq!(rpn.len(), 3);
        }
        _ => panic!("conditional did not parse"),
    }
}
