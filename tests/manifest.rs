use dirhash::manifest::{
    manifest_line, parse_manifest_line, reconcile, report_line, Manifest, Reconciliation,
};

fn manifest(entries: &[(&str, &str)]) -> Manifest {
    let lines: Vec<String> = entries.iter().map(|(p, h)| manifest_line(p, h)).collect();
    Manifest::from_lines(&lines).unwrap()
}

fn reports(a: &Manifest, b: &Manifest) -> Vec<String> {
    reconcile(a, b)
        .iter()
        .filter_map(|(p, r)| report_line(p, r))
        .collect()
}

#[test]
fn reconciliation_scenario() {
    let a = manifest(&[("a.txt", "aa"), ("b.txt", "bb")]);
    let b = manifest(&[("a.txt", "aa"), ("b.txt", "cc"), ("c.txt", "dd")]);
    let out = reports(&a, &b);
    assert_eq!(out, vec!["b.txt: MISMATCH".to_string(), "c.txt: NO EXIST".to_string()]);
}

#[test]
fn reconciliation_ignores_entries_only_in_reference() {
    let a = manifest(&[("a.txt", "aa"), ("gone.txt", "ee")]);
    let b = manifest(&[("a.txt", "aa")]);
    assert!(reports(&a, &b).is_empty());
}

#[test]
fn mismatch_carries_both_digests() {
    let a = manifest(&[("x", "11")]);
    let b = manifest(&[("x", "22")]);
    let r = reconcile(&a, &b);
    assert_eq!(r.len(), 1);
    match &r[0].1 {
        Reconciliation::Mismatched { expected, found } => {
            assert_eq!(expected, "11");
            assert_eq!(found, "22");
        }
        _ => panic!("expected a mismatch"),
    }
    assert!(matches!(reconcile(&a, &a)[0].1, Reconciliation::Consistent));
}

#[test]
fn manifest_lines_split_at_first_colon() {
    assert_eq!(manifest_line("dir/a", "ff00"), "dir/a:ff00");
    assert_eq!(
        parse_manifest_line("dir/a:ff00"),
        Some(("dir/a".to_string(), "ff00".to_string()))
    );
    assert_eq!(
        parse_manifest_line("c:x:y"),
        Some(("c".to_string(), "x:y".to_string()))
    );
    assert_eq!(parse_manifest_line("no colon"), None);
    assert_eq!(parse_manifest_line(":"), Some((String::new(), String::new())));
}

#[test]
fn later_entries_win() {
    let lines = vec!["p:1".to_string(), "q:2".to_string(), "p:3".to_string()];
    let m = Manifest::from_lines(&lines).unwrap();
    assert_eq!(m.len(), 2);
    assert_eq!(m.get(&"p".to_string()), Some("3".to_string()));
    assert_eq!(m.get(&"q".to_string()), Some("2".to_string()));
    assert_eq!(m.get(&"r".to_string()), None);
}

#[test]
fn unreadable_manifest_line() {
    let lines = vec!["p:1".to_string(), "broken".to_string()];
    assert!(Manifest::from_lines(&lines).is_none());
}

#[test]
fn insert_replaces() {
    let mut m = Manifest::new();
    m.insert("k".to_string(), "1".to_string());
    m.insert("k".to_string(), "2".to_string());
    assert_eq!(m.len(), 1);
    assert_eq!(m.entry(0), ("k".to_string(), "2".to_string()));
}

#[test]
fn unreadable_lines_are_reported_and_skipped() {
    let lines = vec![
        "p:1".to_string(),
        "broken".to_string(),
        "q:2".to_string(),
        "also broken".to_string(),
    ];
    let (m, bad) = Manifest::from_lines_reporting(&lines);
    assert_eq!(bad, vec![1, 3]);
    assert_eq!(m.len(), 2);
    assert_eq!(m.get(&"q".to_string()), Some("2".to_string()));
}
