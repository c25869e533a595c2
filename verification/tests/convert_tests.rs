use defaults_rs::CfNumber;
use defaults_rs::CfObject;
use defaults_rs::PlistNode;
use defaults_rs::PrefValue;
use defaults_rs::Real64;
use defaults_rs::cf_to_pref;
use defaults_rs::cfnumber_to_pref;
use defaults_rs::plist_to_prefvalue;
use defaults_rs::pref_to_cf;
use defaults_rs::prefvalue_to_plist;

fn mk_float(x: f64) -> Real64 {
    Real64 { bits: x.to_bits(), text: x.to_string() }
}

fn sample_tree() -> PrefValue {
    PrefValue::Dictionary(vec![
        ("name".to_string(), PrefValue::String("app".to_string())),
        ("count".to_string(), PrefValue::Integer(3)),
        ("ratio".to_string(), PrefValue::Float(mk_float(0.25))),
        ("on".to_string(), PrefValue::Boolean(true)),
        (
            "list".to_string(),
            PrefValue::Array(vec![PrefValue::Integer(1), PrefValue::String("two".to_string())]),
        ),
        ("blob".to_string(), PrefValue::Data(vec![0, 255, 16])),
        ("stamp".to_string(), PrefValue::Date(mk_float(12.5))),
        ("ref".to_string(), PrefValue::Uid(7)),
    ])
}

#[test]
fn plist_round_trip_preserves_convertible_values() {
    let v = sample_tree();
    let back = plist_to_prefvalue(&prefvalue_to_plist(&v));
    assert_eq!(v.to_text(), back.to_text());
    assert_eq!(back.get_type(), "dictionary");
}

#[test]
fn plist_writes_url_and_uuid_as_strings() {
    let url = PrefValue::Url("https://e.example".to_string());
    let node = prefvalue_to_plist(&url);
    assert!(matches!(&node, PlistNode::String(s) if s == "https://e.example"));
    let uuid = PrefValue::Uuid("AB-12".to_string());
    let node = prefvalue_to_plist(&uuid);
    assert!(matches!(&node, PlistNode::String(s) if s == "AB-12"));
}

#[test]
fn plist_keeps_uid_distinct_from_integer() {
    let v = PrefValue::Uid(501);
    let node = prefvalue_to_plist(&v);
    assert!(matches!(node, PlistNode::Uid(501)));
    let back = plist_to_prefvalue(&prefvalue_to_plist(&v));
    assert!(matches!(back, PrefValue::Uid(501)));
}

#[test]
fn native_round_trip_preserves_core_kinds() {
    let v = PrefValue::Dictionary(vec![
        ("s".to_string(), PrefValue::String("x".to_string())),
        ("i".to_string(), PrefValue::Integer(-9)),
        ("f".to_string(), PrefValue::Float(mk_float(2.75))),
        ("b".to_string(), PrefValue::Boolean(false)),
        (
            "a".to_string(),
            PrefValue::Array(vec![PrefValue::Boolean(true), PrefValue::Integer(0)]),
        ),
    ]);
    let back = cf_to_pref(&pref_to_cf(&v));
    assert_eq!(v.to_text(), back.to_text());
}

#[test]
fn native_number_probe_requires_integral_tag() {
    // An integral reading with an integral tag reads as an integer.
    let n = CfNumber { is_int_type: true, as_int: Some(11), as_float: None };
    assert!(matches!(cfnumber_to_pref(&n), Some(PrefValue::Integer(11))));
    // An integral reading without the integral tag falls to the float reading.
    let n = CfNumber { is_int_type: false, as_int: Some(11), as_float: Some(mk_float(11.0)) };
    assert!(matches!(cfnumber_to_pref(&n), Some(PrefValue::Float(_))));
    // No successful probe at all.
    let n = CfNumber { is_int_type: true, as_int: None, as_float: None };
    assert!(cfnumber_to_pref(&n).is_none());
}

#[test]
fn native_degrades_unreadable_leaves_to_placeholders() {
    let v = cf_to_pref(&CfObject::Unsupported);
    assert!(matches!(&v, PrefValue::String(s) if s == "<unsupported CF type>"));
    let bad = CfObject::Number(CfNumber { is_int_type: false, as_int: None, as_float: None });
    let v = cf_to_pref(&bad);
    assert!(matches!(&v, PrefValue::String(s) if s == "<invalid number>"));
}

#[test]
fn native_placeholder_does_not_abort_tree_conversion() {
    let tree = CfObject::Dictionary(vec![
        ("good".to_string(), CfObject::String("kept".to_string())),
        ("odd".to_string(), CfObject::Unsupported),
    ]);
    let v = cf_to_pref(&tree);
    match v {
        PrefValue::Dictionary(entries) => {
            assert_eq!(entries.len(), 2);
            assert!(matches!(&entries[0].1, PrefValue::String(s) if s == "kept"));
            assert!(matches!(&entries[1].1, PrefValue::String(s) if s == "<unsupported CF type>"));
        }
        _ => panic!("expected a dictionary"),
    }
}

#[test]
fn native_booleans_cross_by_tag() {
    assert!(matches!(pref_to_cf(&PrefValue::Boolean(true)), CfObject::Boolean(true)));
    assert!(matches!(cf_to_pref(&CfObject::Boolean(false)), PrefValue::Boolean(false)));
}

#[test]
fn reencoding_a_read_tree_reproduces_it() {
    let node = PlistNode::Dictionary(vec![
        ("n".to_string(), PlistNode::Integer(-3)),
        ("r".to_string(), PlistNode::Real(mk_float(0.5))),
        ("u".to_string(), PlistNode::Uid(9)),
        (
            "inner".to_string(),
            PlistNode::Array(vec![PlistNode::Boolean(true), PlistNode::Data(vec![7])]),
        ),
    ]);
    let back = prefvalue_to_plist(&plist_to_prefvalue(&node));
    match back {
        PlistNode::Dictionary(es) => {
            assert_eq!(es.len(), 4);
            assert!(matches!(es[0].1, PlistNode::Integer(-3)));
            assert!(matches!(&es[1].1, PlistNode::Real(r) if r.bits == 0.5f64.to_bits()));
            assert!(matches!(es[2].1, PlistNode::Uid(9)));
            assert!(matches!(&es[3].1, PlistNode::Array(items) if items.len() == 2));
        }
        _ => panic!("expected a dictionary node"),
    }
}
