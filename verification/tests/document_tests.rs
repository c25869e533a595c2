use defaults_rs::LoadedPlist;
use defaults_rs::PlistNode;
use defaults_rs::PrefError;
use defaults_rs::PrefValue;
use defaults_rs::interpret_load;
use defaults_rs::save_plan;

fn dict_doc() -> LoadedPlist {
    LoadedPlist {
        plist: PrefValue::Dictionary(vec![(
            "greeting".to_string(),
            PrefValue::String("hello".to_string()),
        )]),
        orig_owner: Some((501, 20)),
        is_binary: true,
    }
}

#[test]
fn missing_file_loads_as_empty_dictionary() {
    let doc = interpret_load(false, None, None, None, "").unwrap();
    assert!(matches!(&doc.plist, PrefValue::Dictionary(es) if es.is_empty()));
    assert_eq!(doc.orig_owner, None);
    assert!(!doc.is_binary);
}

#[test]
fn textual_parse_wins_and_records_textual_encoding() {
    let xml = PlistNode::Dictionary(vec![("k".to_string(), PlistNode::Integer(1))]);
    let bin = PlistNode::Dictionary(vec![("other".to_string(), PlistNode::Integer(2))]);
    let doc = interpret_load(true, Some(xml), Some(bin), Some((0, 0)), "").unwrap();
    assert!(!doc.is_binary);
    assert_eq!(doc.orig_owner, Some((0, 0)));
    assert!(matches!(&doc.plist, PrefValue::Dictionary(es) if es[0].0 == "k"));
}

#[test]
fn binary_parse_is_the_fallback_and_records_binary_encoding() {
    let bin = PlistNode::Dictionary(vec![("k".to_string(), PlistNode::Boolean(true))]);
    let doc = interpret_load(true, None, Some(bin), None, "").unwrap();
    assert!(doc.is_binary);
}

#[test]
fn unparseable_file_reports_a_parse_error() {
    let err = interpret_load(true, None, None, None, "bad magic").unwrap_err();
    match err {
        PrefError::Other(m) => assert_eq!(m, "Plist parse error: bad magic"),
        _ => panic!("expected a parse error"),
    }
}

#[test]
fn write_key_overwrites_and_creates() {
    let mut doc = dict_doc();
    doc.write_key("greeting", PrefValue::String("hi".to_string())).unwrap();
    doc.write_key("count", PrefValue::Integer(2)).unwrap();
    match &doc.plist {
        PrefValue::Dictionary(es) => {
            assert_eq!(es.len(), 2);
            assert!(matches!(&es[0].1, PrefValue::String(s) if s == "hi"));
            assert_eq!(es[1].0, "count");
        }
        _ => panic!("expected a dictionary"),
    }
}

#[test]
fn mutations_preserve_owner_and_encoding() {
    let mut doc = dict_doc();
    doc.write_key("x", PrefValue::Integer(1)).unwrap();
    doc.delete_key("greeting").unwrap();
    assert_eq!(doc.orig_owner, Some((501, 20)));
    assert!(doc.is_binary);
    let plan = save_plan(&doc);
    assert!(plan.binary);
    assert_eq!(plan.chown, Some((501, 20)));
}

#[test]
fn delete_key_requires_presence() {
    let mut doc = dict_doc();
    assert!(matches!(doc.delete_key("absent"), Err(PrefError::KeyNotFound)));
    assert!(doc.delete_key("greeting").is_ok());
    assert!(matches!(&doc.plist, PrefValue::Dictionary(es) if es.is_empty()));
}

#[test]
fn key_operations_reject_non_dictionary_roots() {
    let mut doc = LoadedPlist {
        plist: PrefValue::Integer(5),
        orig_owner: None,
        is_binary: false,
    };
    assert!(matches!(doc.read_key("k"), Err(PrefError::InvalidType)));
    assert!(matches!(
        doc.write_key("k", PrefValue::Integer(1)),
        Err(PrefError::InvalidType)
    ));
    assert!(matches!(doc.delete_key("k"), Err(PrefError::InvalidType)));
    assert!(matches!(doc.rename_key("k", "j"), Err(PrefError::InvalidType)));
}

#[test]
fn rename_moves_the_value() {
    let mut doc = dict_doc();
    doc.rename_key("greeting", "salute").unwrap();
    match &doc.plist {
        PrefValue::Dictionary(es) => {
            assert_eq!(es.len(), 1);
            assert_eq!(es[0].0, "salute");
            assert!(matches!(&es[0].1, PrefValue::String(s) if s == "hello"));
        }
        _ => panic!("expected a dictionary"),
    }
    assert!(matches!(doc.rename_key("absent", "x"), Err(PrefError::KeyNotFound)));
}

#[test]
fn save_plan_serializes_the_root() {
    let doc = dict_doc();
    let plan = save_plan(&doc);
    match &plan.tree {
        PlistNode::Dictionary(es) => {
            assert_eq!(es.len(), 1);
            assert_eq!(es[0].0, "greeting");
        }
        _ => panic!("expected a dictionary node"),
    }
}
