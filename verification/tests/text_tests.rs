use defaults_rs::ActiveBackend;
use defaults_rs::Domain;
use defaults_rs::PrefError;
use defaults_rs::PrefValue;
use defaults_rs::Real64;
use defaults_rs::contains_sub;
use defaults_rs::contains_word;
use defaults_rs::i64_to_string;
use defaults_rs::parse_domain_arg;
use defaults_rs::prettify;
use defaults_rs::quote_key;
use defaults_rs::quote_string;
use defaults_rs::select_backend;
use defaults_rs::u64_to_string;

#[test]
fn substring_search_finds_and_misses() {
    assert!(contains_sub("hello world", "lo wo"));
    assert!(contains_sub("abc", ""));
    assert!(contains_sub("abc", "abc"));
    assert!(!contains_sub("abc", "abcd"));
    assert!(!contains_sub("abc", "ac"));
}

#[test]
fn case_folding_reaches_the_search() {
    assert!(contains_word("NEEDLE123", "needle"));
    assert!(contains_word("Needle", "needle"));
    assert!(!contains_word("nothing here", "needle"));
}

#[test]
fn decimal_rendering_is_exact() {
    assert_eq!(u64_to_string(0), "0");
    assert_eq!(u64_to_string(10), "10");
    assert_eq!(u64_to_string(18446744073709551615), "18446744073709551615");
    assert_eq!(i64_to_string(-1), "-1");
    assert_eq!(i64_to_string(i64::MIN), "-9223372036854775808");
    assert_eq!(i64_to_string(i64::MAX), "9223372036854775807");
}

#[test]
fn plain_names_stand_bare_and_others_are_quoted() {
    assert_eq!(quote_key("simple-name_1"), "simple-name_1");
    assert_eq!(quote_key("has space"), "\"has space\"");
    assert_eq!(quote_key("say \"hi\""), "\"say \\\"hi\\\"\"");
    assert_eq!(quote_string("héllo"), "héllo");
    assert_eq!(quote_string("a/b"), "\"a/b\"");
}

#[test]
fn prettify_renders_the_apple_style_form() {
    let v = PrefValue::Dictionary(vec![
        ("flag".to_string(), PrefValue::Boolean(true)),
        (
            "list".to_string(),
            PrefValue::Array(vec![PrefValue::Integer(3), PrefValue::String("two words".to_string())]),
        ),
    ]);
    let expected = "{\n    flag = 1;\n    list = (\n        3,\n        \"two words\",\n    );\n}";
    assert_eq!(prettify(&v, 0), expected);
}

#[test]
fn prettify_previews_data_bytes() {
    let v = PrefValue::Data(vec![0x00, 0xFF, 0x10, 0x20, 0x30, 0x40, 0x50]);
    assert_eq!(
        prettify(&v, 0),
        "<length = 7, bytes = [0x00, 0xFF, 0x10, 0x20, 0x30...]>"
    );
    let small = PrefValue::Data(vec![0xAB]);
    assert_eq!(prettify(&small, 0), "<length = 1, bytes = [0xAB...]>");
}

#[test]
fn prettify_tags_payload_kinds() {
    let r = Real64 { bits: 2.5f64.to_bits(), text: "2.5".to_string() };
    assert_eq!(prettify(&PrefValue::Float(r), 0), "2.5");
    assert_eq!(
        prettify(&PrefValue::Url("https://e.example".to_string()), 0),
        "<URL: https://e.example>"
    );
    assert_eq!(prettify(&PrefValue::Uuid("AB".to_string()), 0), "<UUID: AB>");
    assert_eq!(prettify(&PrefValue::Uid(12), 0), "<UID: 12>");
}

#[test]
fn backend_selection_routes_paths_to_files() {
    let p = Domain::Path("/tmp/x.plist".to_string());
    assert_eq!(select_backend(&p, true), ActiveBackend::File);
    let u = Domain::User("com.example.app".to_string());
    assert_eq!(select_backend(&u, true), ActiveBackend::CoreFoundation);
    assert_eq!(select_backend(&u, false), ActiveBackend::File);
    assert_eq!(select_backend(&Domain::Global, false), ActiveBackend::File);
}

#[test]
fn domain_names_and_paths_are_exact() {
    let u = Domain::User("com.example.app".to_string());
    assert_eq!(u.get_cf_name(), "com.example.app");
    assert_eq!(u.display_name(), "com.example.app");
    assert_eq!(
        u.domain_path("/home/me"),
        "/home/me/Library/Preferences/com.example.app.plist"
    );
    assert_eq!(Domain::Global.get_cf_name(), ".GlobalPreferences");
    assert_eq!(Domain::Global.display_name(), "NSGlobalDomain");
    assert_eq!(
        Domain::Global.domain_path("/home/me"),
        "/home/me/Library/Preferences/.GlobalPreferences.plist"
    );
    let p = Domain::Path("/tmp/odd.plist".to_string());
    assert_eq!(p.domain_path("/home/me"), "/tmp/odd.plist");
}

#[test]
fn parse_domain_arg_recognizes_the_global_spellings() {
    let known: Vec<String> = vec![];
    for spelling in ["-g", "NSGlobalDomain", "-globalDomain", "NSGlobalDomain.plist"] {
        let d = parse_domain_arg(spelling, &known, true).unwrap();
        assert_eq!(d, Domain::Global);
    }
}

#[test]
fn parse_domain_arg_strips_the_suffix_and_checks_membership() {
    let known = vec!["com.example.app".to_string()];
    let d = parse_domain_arg("com.example.app.plist", &known, false).unwrap();
    assert_eq!(d, Domain::User("com.example.app".to_string()));
    let err = parse_domain_arg("com.unknown", &known, false).unwrap_err();
    match err {
        PrefError::Other(m) => assert_eq!(m, "Domain 'com.unknown' not found!."),
        _ => panic!("expected a not-found error"),
    }
    let forced = parse_domain_arg("com.unknown", &known, true).unwrap();
    assert_eq!(forced, Domain::User("com.unknown".to_string()));
}

#[test]
fn parse_domain_arg_rejects_path_like_names() {
    let known: Vec<String> = vec![];
    for bad in ["../etc/passwd", "a/b", "a\\b", "sp ace"] {
        let err = parse_domain_arg(bad, &known, true).unwrap_err();
        match err {
            PrefError::Other(m) => {
                assert!(m.starts_with("Invalid domain or plist path: "), "{}", m)
            }
            _ => panic!("expected an invalid-domain error"),
        }
    }
}

#[test]
fn error_messages_are_exact() {
    assert_eq!(PrefError::KeyNotFound.message(), "Key not found");
    assert_eq!(PrefError::InvalidType.message(), "Invalid type");
    assert_eq!(PrefError::Io("disk gone".to_string()).message(), "IO error: disk gone");
    assert_eq!(PrefError::Other("boom".to_string()).message(), "boom");
}
