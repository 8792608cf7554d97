//! Byte-exact checks of the stored forms: config.json, trace files,
//! decimal fields, and the JSON blob scanner.

use runstore::config::{parse_config, serialize_config, RunConfig};
use runstore::dec::{dec_to_u64, u64_to_dec};
use runstore::scan::json_value_check;
use runstore::trace::{parse_execs, serialize_execs, BlockExecution};

fn b(s: &str) -> Vec<u8> {
    s.as_bytes().to_vec()
}

fn cfg(start_time: u64, app_hash: &str, blocks: Vec<(&str, &str)>) -> RunConfig {
    RunConfig {
        start_time,
        app_hash: b(app_hash),
        blocks: blocks.into_iter().map(|(k, v)| (b(k), b(v))).collect(),
    }
}

#[test]
fn serialize_config_exact_bytes() {
    let c = cfg(7, "h", vec![("a", "null")]);
    let s = serialize_config(&c);
    assert_eq!(s, b(r#"{"start_time":7,"app_hash":"h","blocks":{"a":null}}"#));
}

#[test]
fn serialize_config_empty_blocks_exact_bytes() {
    let c = cfg(0, "deadbeef", vec![]);
    let s = serialize_config(&c);
    assert_eq!(s, b(r#"{"start_time":0,"app_hash":"deadbeef","blocks":{}}"#));
}

#[test]
fn config_round_trip() {
    let c = cfg(
        1234567890,
        "5ab1f240ccbb2f",
        vec![("INPUT", r#"{"dataset":"dev"}"#), ("MODEL", r#"{"temp":0.7,"k":[1,2]}"#)],
    );
    let s = serialize_config(&c);
    let back = parse_config(&s).expect("stored config must read back");
    assert_eq!(back, c);
}

#[test]
fn config_round_trip_nested_blob() {
    let c = cfg(42, "x", vec![("b", r#"{"a":[true,false,null,{"s":"t"},-1.5e3],"e":{}}"#)]);
    let s = serialize_config(&c);
    assert_eq!(parse_config(&s).unwrap(), c);
}

#[test]
fn parse_config_rejects_garbage() {
    assert_eq!(parse_config(&b("garbage")), None);
    assert_eq!(parse_config(&b("")), None);
    assert_eq!(parse_config(&b(r#"{"start_time":1}"#)), None);
}

#[test]
fn parse_config_rejects_duplicate_block_names() {
    let s = b(r#"{"start_time":1,"app_hash":"h","blocks":{"a":1,"a":2}}"#);
    assert_eq!(parse_config(&s), None);
}

#[test]
fn parse_config_rejects_truncation() {
    let c = cfg(99, "hh", vec![("a", "1")]);
    let mut s = serialize_config(&c);
    s.pop();
    assert_eq!(parse_config(&s), None);
}

#[test]
fn parse_config_rejects_oversized_start_time() {
    let s = b(r#"{"start_time":18446744073709551616,"app_hash":"h","blocks":{}}"#);
    assert_eq!(parse_config(&s), None);
}

#[test]
fn skipped_branch_serializes_with_neither_side() {
    let s = serialize_execs(&vec![BlockExecution::Skipped]);
    assert_eq!(s, b(r#"[{"value":null,"error":null}]"#));
}

#[test]
fn execs_exact_bytes() {
    let xs = vec![
        BlockExecution::Success(b(r#"{"x":1}"#)),
        BlockExecution::Failure(b("boom")),
        BlockExecution::Skipped,
    ];
    let s = serialize_execs(&xs);
    let want = r#"[{"value":{"x":1},"error":null},{"value":null,"error":"boom"},{"value":null,"error":null}]"#;
    assert_eq!(s, b(want));
}

#[test]
fn execs_round_trip() {
    let xs = vec![
        BlockExecution::Success(b(r#"[1,2,"three"]"#)),
        BlockExecution::Failure(b("model refused")),
        BlockExecution::Skipped,
        BlockExecution::Success(b("true")),
    ];
    let s = serialize_execs(&xs);
    assert_eq!(parse_execs(&s).unwrap(), xs);
}

#[test]
fn execs_round_trip_empty() {
    let xs: Vec<BlockExecution> = vec![];
    let s = serialize_execs(&xs);
    assert_eq!(s, b("[]"));
    assert_eq!(parse_execs(&s).unwrap(), xs);
}

#[test]
fn parse_execs_rejects_value_and_error_together() {
    let s = b(r#"[{"value":1,"error":"x"}]"#);
    assert_eq!(parse_execs(&s), None);
}

#[test]
fn parse_execs_rejects_garbage() {
    assert_eq!(parse_execs(&b("not json")), None);
    assert_eq!(parse_execs(&b("[")), None);
}

#[test]
fn decimal_exact() {
    assert_eq!(u64_to_dec(0), b("0"));
    assert_eq!(u64_to_dec(1234567890), b("1234567890"));
    assert_eq!(u64_to_dec(u64::MAX), b("18446744073709551615"));
    assert_eq!(dec_to_u64(&b("0")), Some(0));
    assert_eq!(dec_to_u64(&b("18446744073709551615")), Some(u64::MAX));
    assert_eq!(dec_to_u64(&b("18446744073709551616")), None);
    assert_eq!(dec_to_u64(&b("")), None);
    assert_eq!(dec_to_u64(&b("12a")), None);
}

#[test]
fn wf_check_accepts_storable_configs() {
    assert!(cfg(1, "abc", vec![("a", "1"), ("b", "{}")]).wf_check());
    assert!(cfg(0, "", vec![]).wf_check());
    // strings never block storability: quotes, backslashes, control
    // bytes all travel escaped
    let mut c = cfg(1, "a\"b\\c", vec![("na\nme", "null")]);
    c.app_hash.push(0x07);
    assert!(c.wf_check());
}

#[test]
fn wf_check_rejects_bad_configs() {
    // duplicate block names
    assert!(!cfg(1, "h", vec![("dup", "1"), ("dup", "2")]).wf_check());
    // a block value that is not one whole JSON value
    assert!(!cfg(1, "h", vec![("a", "{broken")]).wf_check());
}

#[test]
fn escaped_strings_exact_bytes() {
    let mut c = cfg(3, "a\"b\\c", vec![]);
    c.app_hash.push(0x0a);
    let s = serialize_config(&c);
    assert_eq!(s, b(r#"{"start_time":3,"app_hash":"a\"b\\c\u000a","blocks":{}}"#));
}

#[test]
fn escaped_strings_round_trip() {
    let mut c = cfg(9, "hash with \"quotes\" and \\slashes\\", vec![
        ("name\twith\ttabs", r#"{"s":"already \"escaped\" inside the blob"}"#),
    ]);
    c.app_hash.push(0x01);
    c.blocks[0].0.push(0x1f);
    let s = serialize_config(&c);
    assert_eq!(parse_config(&s).unwrap(), c);
}

#[test]
fn escaped_failure_message_round_trip() {
    let mut m = b("panic: \"boom\"\nat line 3\\");
    m.push(0x00);
    let xs = vec![BlockExecution::Failure(m)];
    let s = serialize_execs(&xs);
    assert_eq!(parse_execs(&s).unwrap(), xs);
}

#[test]
fn escaped_failure_message_exact_bytes() {
    let xs = vec![BlockExecution::Failure(b("a\"b"))];
    let s = serialize_execs(&xs);
    assert_eq!(s, b(r#"[{"value":null,"error":"a\"b"}]"#));
}

#[test]
fn blob_check_accepts_whole_json_values() {
    assert!(json_value_check(&b(r#"{"a":[1,2,"s"],"b":{"c":null}}"#)));
    assert!(json_value_check(&b("-12.5e-3")));
    assert!(json_value_check(&b(r#""plain string""#)));
    assert!(json_value_check(&b("[]")));
}

#[test]
fn blob_check_rejects_partial_or_broken_values() {
    assert!(!json_value_check(&b("{bad")));
    assert!(!json_value_check(&b("1,2")));
    assert!(!json_value_check(&b("")));
    assert!(!json_value_check(&b("[1,2")));
}

#[test]
fn blob_check_holds_numbers_to_the_grammar() {
    assert!(json_value_check(&b("0")));
    assert!(json_value_check(&b("-0.5e+10")));
    assert!(json_value_check(&b("120")));
    assert!(json_value_check(&b("1E8")));
    // not JSON numbers: dangling exponent, double sign, leading zero,
    // bare fraction point
    assert!(!json_value_check(&b("1e")));
    assert!(!json_value_check(&b("--2")));
    assert!(!json_value_check(&b("01")));
    assert!(!json_value_check(&b("1.")));
    assert!(!json_value_check(&b("-")));
}
