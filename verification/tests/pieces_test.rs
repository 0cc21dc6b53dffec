use indexmap::IndexMap;
use vmf_ledger::diff::{diff_key_values, entity_id, parse_u64};
use vmf_ledger::model::Connection;
use vmf_ledger::ops::{as_written, Op};
use vmf_ledger::sidecar::{format_action, FormatAction};
use vmf_ledger::text::{decimal_string, hex16, join, split, split_words};
use vmf_ledger::{LedgerError, LedgerOptions};

fn kvs(pairs: &[(&str, &str)]) -> IndexMap<String, String> {
    pairs.iter().map(|(k, v)| (k.to_string(), v.to_string())).collect()
}

#[test]
fn options_derive_the_marker_from_the_safe_name() {
    let o = LedgerOptions::new("My Tool", "1.0".to_string());
    assert_eq!(o.name, "My_Tool");
    assert_eq!(o.marker_key, "_vl_My_Tool");
    assert_eq!(o.world_key, "vmf_ledger");
    assert!(o.visgroup.is_none());
    let o = o.with_world_key("reg".to_string()).with_visgroup("gen".to_string());
    assert_eq!(o.world_key, "reg");
    assert_eq!(o.visgroup.as_deref(), Some("gen"));
}

#[test]
fn numbers_read_as_the_standard_library_reads_them() {
    assert_eq!(parse_u64("42"), Some(42));
    assert_eq!(parse_u64("+7"), Some(7));
    assert_eq!(parse_u64("007"), Some(7));
    assert_eq!(parse_u64("18446744073709551615"), Some(u64::MAX));
    assert_eq!(parse_u64("18446744073709551616"), None);
    assert_eq!(parse_u64(""), None);
    assert_eq!(parse_u64("+"), None);
    assert_eq!(parse_u64("-1"), None);
    assert_eq!(parse_u64(" 1"), None);
    assert_eq!(parse_u64("1a"), None);
    for s in ["0", "+12", "99999", "12x", "", "+-1"] {
        assert_eq!(parse_u64(s), s.parse::<u64>().ok(), "{s}");
    }
}

#[test]
fn an_entity_without_a_numeric_id_has_id_zero() {
    assert_eq!(entity_id(&kvs(&[("id", "12")])), 12);
    assert_eq!(entity_id(&kvs(&[("id", "x")])), 0);
    assert_eq!(entity_id(&kvs(&[("classname", "a")])), 0);
}

#[test]
fn keyvalue_changes_turn_into_their_inverses() {
    let before = kvs(&[("a", "1"), ("b", "2"), ("c", "3")]);
    let after = kvs(&[("a", "1"), ("c", "4"), ("d", "5")]);
    let mut ops = Vec::new();
    diff_key_values(&before, &after, &mut ops);
    assert_eq!(ops.len(), 3);
    assert!(matches!(&ops[0], Op::Remove { idx: 1, key, old, .. } if key == "b" && old == "2"));
    assert!(matches!(&ops[1], Op::Change { key, old, new, .. } if key == "c" && old == "3" && new == "4"));
    assert!(matches!(&ops[2], Op::Add { key, new, .. } if key == "d" && new == "5"));

    let mut none = Vec::new();
    diff_key_values(&before, &before, &mut none);
    assert!(none.is_empty());
}

fn conn(output: &str, target: &str) -> Connection {
    Connection {
        output: output.to_string(),
        target: target.to_string(),
        input: "Go".to_string(),
        params: String::new(),
        delay: "0".to_string(),
        fire_limit: -1,
    }
}

#[test]
fn connections_are_grouped_by_output_as_written() {
    let list = vec![conn("A", "1"), conn("B", "2"), conn("A", "3")];
    let w = as_written(Some(&list)).unwrap();
    let order: Vec<(&str, &str)> = w.iter().map(|c| (c.output.as_str(), c.target.as_str())).collect();
    assert_eq!(order, [("A", "1"), ("A", "3"), ("B", "2")]);
    assert!(as_written(Some(&Vec::new())).is_none());
    assert!(as_written(None).is_none());
}

#[test]
fn formats_are_recognised_or_refused() {
    assert!(matches!(format_action(1), Ok(FormatAction::Lift)));
    assert!(matches!(format_action(2), Ok(FormatAction::Read)));
    assert!(matches!(format_action(7), Err(LedgerError::SidecarVersion { found: 7, expected: 2 })));
}

#[test]
fn text_helpers_behave_like_the_standard_library() {
    assert_eq!(decimal_string(0), "0");
    assert_eq!(decimal_string(1234567890), 1234567890u64.to_string());
    assert_eq!(hex16(0xab), format!("{:016x}", 0xabu64));
    assert_eq!(split("a;;b", ';'), "a;;b".split(';').collect::<Vec<_>>());
    assert_eq!(split_words("  a  b\tc "), ["a", "b", "c"]);
    let parts = vec!["x".to_string(), "y".to_string(), "z".to_string()];
    assert_eq!(join(&parts, 2, "; "), "x; y");
}
