use defaults_rs::Domain;
use defaults_rs::LoadedPlist;
use defaults_rs::PrefError;
use defaults_rs::PrefValue;
use defaults_rs::Preferences;
use defaults_rs::ReadResult;

fn user(name: &str) -> Domain {
    Domain::User(name.to_string())
}

fn attach_dict(prefs: &mut Preferences, name: &str, entries: Vec<(&str, PrefValue)>) {
    let doc = LoadedPlist {
        plist: PrefValue::Dictionary(
            entries.into_iter().map(|(k, v)| (k.to_string(), v)).collect(),
        ),
        orig_owner: None,
        is_binary: false,
    };
    prefs.attach_domain(user(name), doc);
}

#[test]
fn absent_key_is_distinct_from_empty_string() {
    let mut prefs = Preferences::new();
    attach_dict(
        &mut prefs,
        "com.example.app",
        vec![("empty", PrefValue::String(String::new()))],
    );
    let d = user("com.example.app");
    assert!(matches!(prefs.read(&d, "never-written"), Err(PrefError::KeyNotFound)));
    match prefs.read(&d, "empty") {
        Ok(PrefValue::String(s)) => assert_eq!(s, ""),
        other => panic!("expected the empty string, got {:?}", other),
    }
}

#[test]
fn read_domain_on_missing_domain_is_an_empty_dictionary() {
    let prefs = Preferences::new();
    let v = prefs.read_domain(&user("com.absent")).unwrap();
    assert!(matches!(v, PrefValue::Dictionary(es) if es.is_empty()));
}

#[test]
fn write_creates_the_domain_and_overwrites_keys() {
    let mut prefs = Preferences::new();
    let d = user("com.example.new");
    prefs.write(&d, "k", PrefValue::Integer(1)).unwrap();
    prefs.write(&d, "k", PrefValue::Integer(2)).unwrap();
    assert!(matches!(prefs.read(&d, "k"), Ok(PrefValue::Integer(2))));
}

#[test]
fn writing_the_same_value_twice_changes_nothing_more() {
    let mut prefs = Preferences::new();
    let d = user("com.example.twice");
    prefs.write(&d, "k", PrefValue::String("v".to_string())).unwrap();
    let once = prefs.read_domain(&d).unwrap().to_text();
    prefs.write(&d, "k", PrefValue::String("v".to_string())).unwrap();
    let twice = prefs.read_domain(&d).unwrap().to_text();
    assert_eq!(once, twice);
}

#[test]
fn delete_requires_the_key_and_delete_domain_requires_the_domain() {
    let mut prefs = Preferences::new();
    attach_dict(&mut prefs, "com.example.app", vec![("k", PrefValue::Integer(1))]);
    let d = user("com.example.app");
    assert!(matches!(prefs.delete(&d, "missing"), Err(PrefError::KeyNotFound)));
    assert!(prefs.delete(&d, "k").is_ok());
    assert!(matches!(prefs.read(&d, "k"), Err(PrefError::KeyNotFound)));
    assert!(prefs.delete_domain(&d).is_ok());
    assert!(matches!(prefs.delete_domain(&d), Err(PrefError::KeyNotFound)));
}

#[test]
fn read_type_names_the_stored_kind() {
    let mut prefs = Preferences::new();
    attach_dict(&mut prefs, "com.example.app", vec![("flag", PrefValue::Boolean(true))]);
    let d = user("com.example.app");
    assert_eq!(prefs.read_type(&d, "flag").unwrap(), "boolean");
    assert!(matches!(prefs.read_type(&d, "nope"), Err(PrefError::KeyNotFound)));
}

#[test]
fn rename_moves_within_the_domain() {
    let mut prefs = Preferences::new();
    attach_dict(&mut prefs, "com.example.app", vec![("old", PrefValue::Integer(9))]);
    let d = user("com.example.app");
    prefs.rename(&d, "old", "new").unwrap();
    assert!(matches!(prefs.read(&d, "old"), Err(PrefError::KeyNotFound)));
    assert!(matches!(prefs.read(&d, "new"), Ok(PrefValue::Integer(9))));
    assert!(matches!(prefs.rename(&d, "old", "x"), Err(PrefError::KeyNotFound)));
}

#[test]
fn non_dictionary_roots_fail_key_operations() {
    let mut prefs = Preferences::new();
    prefs.attach_domain(
        user("com.example.odd"),
        LoadedPlist { plist: PrefValue::Integer(5), orig_owner: None, is_binary: false },
    );
    let d = user("com.example.odd");
    assert!(matches!(prefs.read(&d, "k"), Err(PrefError::InvalidType)));
    assert!(matches!(
        prefs.write(&d, "k", PrefValue::Integer(1)),
        Err(PrefError::InvalidType)
    ));
    assert!(matches!(prefs.read_domain(&d), Err(PrefError::InvalidType)));
}

#[test]
fn write_batch_saves_each_domain_once() {
    let mut prefs = Preferences::new();
    let d = user("com.example.batch");
    let batch = vec![
        (user("com.example.batch"), "k1".to_string(), PrefValue::Integer(1)),
        (user("com.example.batch"), "k2".to_string(), PrefValue::Integer(2)),
    ];
    let dirty = prefs.write_batch(batch).unwrap();
    assert_eq!(dirty.len(), 1);
    assert_eq!(dirty[0], d);
    assert!(matches!(prefs.read(&d, "k1"), Ok(PrefValue::Integer(1))));
    assert!(matches!(prefs.read(&d, "k2"), Ok(PrefValue::Integer(2))));
}

#[test]
fn write_batch_lists_distinct_domains_in_first_occurrence_order() {
    let mut prefs = Preferences::new();
    let batch = vec![
        (user("com.b"), "k".to_string(), PrefValue::Integer(1)),
        (user("com.a"), "k".to_string(), PrefValue::Integer(2)),
        (user("com.b"), "j".to_string(), PrefValue::Integer(3)),
    ];
    let dirty = prefs.write_batch(batch).unwrap();
    assert_eq!(dirty, vec![user("com.b"), user("com.a")]);
}

#[test]
fn read_batch_returns_entries_in_order() {
    let mut prefs = Preferences::new();
    attach_dict(&mut prefs, "com.example.app", vec![("k", PrefValue::Integer(7))]);
    let batch = vec![
        (user("com.example.app"), Some("k".to_string())),
        (user("com.example.app"), None),
    ];
    let out = prefs.read_batch(batch).unwrap();
    assert_eq!(out.len(), 2);
    assert!(matches!(&out[0].2, ReadResult::Value(PrefValue::Integer(7))));
    assert!(matches!(&out[1].2, ReadResult::Plist(PrefValue::Dictionary(_))));
}

#[test]
fn read_batch_fails_on_the_first_unresolved_entry() {
    let mut prefs = Preferences::new();
    attach_dict(&mut prefs, "com.example.app", vec![("k", PrefValue::Integer(7))]);
    let batch = vec![
        (user("com.example.app"), Some("k".to_string())),
        (user("com.example.app"), Some("missing".to_string())),
    ];
    assert!(matches!(prefs.read_batch(batch), Err(PrefError::KeyNotFound)));
}

#[test]
fn delete_batch_applies_as_a_unit() {
    let mut prefs = Preferences::new();
    attach_dict(
        &mut prefs,
        "com.example.app",
        vec![("k1", PrefValue::Integer(1)), ("k2", PrefValue::Integer(2))],
    );
    let d = user("com.example.app");
    // One entry cannot resolve: nothing at all is deleted.
    let bad = vec![
        (user("com.example.app"), Some("k1".to_string())),
        (user("com.example.app"), Some("missing".to_string())),
    ];
    assert!(matches!(prefs.delete_batch(bad), Err(PrefError::KeyNotFound)));
    assert!(matches!(prefs.read(&d, "k1"), Ok(PrefValue::Integer(1))));
    // A resolvable batch deletes a key and a whole domain together.
    attach_dict(&mut prefs, "com.other", vec![("x", PrefValue::Integer(9))]);
    let good = vec![
        (user("com.example.app"), Some("k1".to_string())),
        (user("com.other"), None),
    ];
    prefs.delete_batch(good).unwrap();
    assert!(matches!(prefs.read(&d, "k1"), Err(PrefError::KeyNotFound)));
    assert!(matches!(prefs.read(&d, "k2"), Ok(PrefValue::Integer(2))));
    assert!(matches!(prefs.delete_domain(&user("com.other")), Err(PrefError::KeyNotFound)));
}

#[test]
fn delete_batch_drops_an_absent_domain_quietly() {
    let mut prefs = Preferences::new();
    let batch = vec![(user("com.never.loaded"), None)];
    assert!(prefs.delete_batch(batch).is_ok());
}

#[test]
fn find_reports_the_dotted_path_and_value() {
    let mut prefs = Preferences::new();
    attach_dict(
        &mut prefs,
        "com.example.app",
        vec![(
            "a",
            PrefValue::Dictionary(vec![(
                "b".to_string(),
                PrefValue::String("needle123".to_string()),
            )]),
        )],
    );
    let results = prefs.find("needle");
    assert_eq!(results.len(), 1);
    assert_eq!(results[0].0, "com.example.app");
    assert_eq!(results[0].1.len(), 1);
    assert_eq!(results[0].1[0].key_path, "a.b");
    assert_eq!(results[0].1[0].value, "needle123");
}

#[test]
fn find_is_case_insensitive() {
    let mut prefs = Preferences::new();
    attach_dict(
        &mut prefs,
        "com.example.app",
        vec![("k", PrefValue::String("NEEDLE123".to_string()))],
    );
    let results = prefs.find("needle");
    assert_eq!(results.len(), 1);
    assert_eq!(results[0].1[0].key_path, "k");
}

#[test]
fn find_matches_keys_and_array_positions() {
    let mut prefs = Preferences::new();
    attach_dict(
        &mut prefs,
        "com.example.app",
        vec![
            ("needleKey", PrefValue::Integer(1)),
            (
                "list",
                PrefValue::Array(vec![PrefValue::String("a needle here".to_string())]),
            ),
        ],
    );
    let results = prefs.find("needle");
    let matches = &results[0].1;
    assert_eq!(matches.len(), 2);
    assert_eq!(matches[0].key_path, "needleKey");
    assert_eq!(matches[0].value, "1");
    assert_eq!(matches[1].key_path, "list[0]");
    assert_eq!(matches[1].value, "a needle here");
}

#[test]
fn list_domains_maps_and_sorts_the_listing() {
    let names = vec![
        "com.zeta.plist".to_string(),
        ".GlobalPreferences.plist".to_string(),
        "com.alpha.plist".to_string(),
        ".hidden.plist".to_string(),
        "notes.txt".to_string(),
    ];
    let domains = Preferences::list_domains(&names);
    assert_eq!(
        domains,
        vec!["NSGlobalDomain".to_string(), "com.alpha".to_string(), "com.zeta".to_string()]
    );
}

#[test]
fn import_preserves_the_destination_ownership() {
    let mut prefs = Preferences::new();
    prefs.attach_domain(
        user("com.example.app"),
        LoadedPlist {
            plist: PrefValue::Dictionary(vec![]),
            orig_owner: Some((501, 20)),
            is_binary: false,
        },
    );
    let incoming = LoadedPlist {
        plist: PrefValue::Dictionary(vec![("k".to_string(), PrefValue::Integer(1))]),
        orig_owner: Some((0, 0)),
        is_binary: true,
    };
    prefs.import(&user("com.example.app"), incoming);
    let doc = prefs.document_of(&user("com.example.app")).unwrap();
    assert_eq!(doc.orig_owner, Some((501, 20)));
    assert!(doc.is_binary);
}

#[test]
fn export_hands_back_the_domain_as_a_save_plan() {
    let mut prefs = Preferences::new();
    attach_dict(&mut prefs, "com.example.app", vec![("k", PrefValue::Integer(1))]);
    let plan = prefs.export(&user("com.example.app")).unwrap();
    assert!(!plan.binary);
    assert!(matches!(prefs.export(&user("com.absent")), Err(PrefError::KeyNotFound)));
}

#[test]
fn write_batch_rejects_a_non_dictionary_domain_untouched() {
    let mut prefs = Preferences::new();
    prefs.attach_domain(
        user("com.example.odd"),
        LoadedPlist { plist: PrefValue::Integer(5), orig_owner: None, is_binary: false },
    );
    let batch = vec![
        (user("com.example.good"), "k".to_string(), PrefValue::Integer(1)),
        (user("com.example.odd"), "k".to_string(), PrefValue::Integer(2)),
    ];
    assert!(matches!(prefs.write_batch(batch), Err(PrefError::InvalidType)));
    // Nothing was applied, not even to the sound domain.
    assert!(matches!(
        prefs.read(&user("com.example.good"), "k"),
        Err(PrefError::KeyNotFound)
    ));
}

#[test]
fn read_batch_reads_a_missing_domain_as_empty() {
    let prefs = Preferences::new();
    let out = prefs.read_batch(vec![(user("com.absent"), None)]).unwrap();
    assert!(matches!(&out[0].2, ReadResult::Plist(PrefValue::Dictionary(es)) if es.is_empty()));
}

#[test]
fn list_domains_of_an_empty_directory_is_empty() {
    let names: Vec<String> = vec![];
    assert!(Preferences::list_domains(&names).is_empty());
}
