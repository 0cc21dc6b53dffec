use vmf_ledger::marker::{find, parse_record, read, remove, slug, upsert, Record};

fn rec(name: &str, version: &str, fingerprint: &str) -> Record {
    Record {
        name: name.to_string(),
        version: version.to_string(),
        fingerprint: fingerprint.to_string(),
    }
}

#[test]
fn slug_folds_separators_into_underscores() {
    assert_eq!(slug("My Tool;v\"2\""), "My_Tool_v_2_");
    assert_eq!(slug(""), "unnamed");
    assert_eq!(slug("pseudo-ents"), "pseudo-ents");
}

#[test]
fn a_record_reads_from_the_right() {
    let r = parse_record("  my tool 1.0 abcdef  ").unwrap();
    assert_eq!(r, rec("my tool", "1.0", "abcdef"));
    let r = parse_record("tool abcdef").unwrap();
    assert_eq!(r, rec("tool", "", "abcdef"));
    assert!(parse_record("lonely").is_none());
    assert!(parse_record("   ").is_none());
}

#[test]
fn upsert_replaces_the_first_record_of_the_tool() {
    let mut marks = vec![rec("a", "1", "f1"), rec("b", "1", "f2")];
    upsert(&mut marks, rec("a", "2", "f3"));
    assert_eq!(marks, vec![rec("a", "2", "f3"), rec("b", "1", "f2")]);
    upsert(&mut marks, rec("c", "1", "f4"));
    assert_eq!(marks.len(), 3);
    assert_eq!(find(&marks, "c").unwrap().fingerprint, "f4");
    remove(&mut marks, "a");
    assert_eq!(marks, vec![rec("b", "1", "f2"), rec("c", "1", "f4")]);
    assert!(find(&marks, "a").is_none());
}

#[test]
fn a_registry_with_a_spaced_name_reads_back_as_written() {
    let marks = vec![rec("old tool", "2.1", "00ff"), rec("pseudo-ents", "", "abcd")];
    let mut world: indexmap::IndexMap<String, String> = indexmap::IndexMap::new();
    world.insert("classname".to_string(), "worldspawn".to_string());
    vmf_ledger::marker::write(&mut world, "vmf_ledger", &marks);
    assert_eq!(world.get("vmf_ledger").unwrap(), "old tool 2.1 00ff; pseudo-ents abcd");
    assert_eq!(read(&world, "vmf_ledger"), marks);
    assert_eq!(parse_record(&marks[0].to_text()), Some(marks[0].clone()));
    vmf_ledger::marker::write(&mut world, "vmf_ledger", &[]);
    assert!(world.get("vmf_ledger").is_none());
}
