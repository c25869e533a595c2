use defaults_rs::PrefValue;
use defaults_rs::Real64;

fn mk_float(x: f64) -> Real64 {
    Real64 { bits: x.to_bits(), text: x.to_string() }
}

#[test]
fn type_tags_cover_every_kind() {
    assert_eq!(PrefValue::String("x".to_string()).get_type(), "string");
    assert_eq!(PrefValue::Integer(3).get_type(), "integer");
    assert_eq!(PrefValue::Float(mk_float(1.5)).get_type(), "float");
    assert_eq!(PrefValue::Boolean(true).get_type(), "boolean");
    assert_eq!(PrefValue::Array(vec![]).get_type(), "array");
    assert_eq!(PrefValue::Dictionary(vec![]).get_type(), "dictionary");
    assert_eq!(PrefValue::Data(vec![1, 2]).get_type(), "data");
    assert_eq!(PrefValue::Date(mk_float(0.0)).get_type(), "date");
    assert_eq!(PrefValue::Url("u".to_string()).get_type(), "url");
    assert_eq!(PrefValue::Uuid("i".to_string()).get_type(), "uuid");
    assert_eq!(PrefValue::Uid(501).get_type(), "uid");
}

#[test]
fn kind_name_matches_get_type() {
    let v = PrefValue::Uid(0);
    assert_eq!(v.kind_name(), v.get_type());
}

#[test]
fn default_is_empty_string() {
    let v: PrefValue = Default::default();
    assert!(matches!(v, PrefValue::String(s) if s.is_empty()));
}

#[test]
fn deep_clone_renders_identically() {
    let v = PrefValue::Dictionary(vec![
        (
            "outer".to_string(),
            PrefValue::Array(vec![
                PrefValue::Integer(-4),
                PrefValue::String("hi".to_string()),
            ]),
        ),
        ("flag".to_string(), PrefValue::Boolean(false)),
    ]);
    let c = v.deep_clone();
    assert_eq!(v.to_text(), c.to_text());
}

#[test]
fn to_text_renders_each_kind() {
    assert_eq!(PrefValue::String("plain".to_string()).to_text(), "plain");
    assert_eq!(PrefValue::Integer(42).to_text(), "42");
    assert_eq!(PrefValue::Integer(-7).to_text(), "-7");
    assert_eq!(PrefValue::Integer(0).to_text(), "0");
    assert_eq!(PrefValue::Integer(i64::MIN).to_text(), "-9223372036854775808");
    assert_eq!(PrefValue::Float(mk_float(1.5)).to_text(), "1.5");
    assert_eq!(PrefValue::Boolean(true).to_text(), "true");
    assert_eq!(PrefValue::Boolean(false).to_text(), "false");
    assert_eq!(
        PrefValue::Array(vec![PrefValue::Integer(1), PrefValue::Integer(2)]).to_text(),
        "[1, 2]"
    );
    assert_eq!(
        PrefValue::Dictionary(vec![("a".to_string(), PrefValue::Integer(1))]).to_text(),
        "{a: 1}"
    );
    assert_eq!(PrefValue::Data(vec![9, 9, 9]).to_text(), "<Data: length 3 bytes>");
    assert_eq!(PrefValue::Date(mk_float(0.0)).to_text(), "<Date: 0>");
    assert_eq!(PrefValue::Url("https://e.example".to_string()).to_text(), "<Url: https://e.example>");
    assert_eq!(PrefValue::Uuid("AB-12".to_string()).to_text(), "<Uuid: AB-12>");
    assert_eq!(PrefValue::Uid(501).to_text(), "<Uid: 501>");
}

#[test]
fn to_text_renders_empty_containers() {
    assert_eq!(PrefValue::Array(vec![]).to_text(), "[]");
    assert_eq!(PrefValue::Dictionary(vec![]).to_text(), "{}");
}

#[test]
fn well_formedness_sees_duplicate_keys_at_any_depth() {
    let ok = PrefValue::Dictionary(vec![
        ("a".to_string(), PrefValue::Integer(1)),
        ("b".to_string(), PrefValue::Integer(2)),
    ]);
    assert!(ok.is_wf());
    let dup = PrefValue::Dictionary(vec![
        ("a".to_string(), PrefValue::Integer(1)),
        ("a".to_string(), PrefValue::Integer(2)),
    ]);
    assert!(!dup.is_wf());
    let nested = PrefValue::Array(vec![PrefValue::Dictionary(vec![
        ("x".to_string(), PrefValue::Integer(1)),
        ("x".to_string(), PrefValue::Integer(2)),
    ])]);
    assert!(!nested.is_wf());
    assert!(PrefValue::Integer(3).is_wf());
}
