use role_registry::Config;

fn sorted_aliases(cfg: &Config) -> Vec<(String, u64)> {
    let mut v = cfg.get_aliases().clone();
    v.sort();
    v
}

#[test]
fn to_json_of_empty_registry_is_the_expected_document() {
    let cfg = Config::create();
    assert_eq!(
        cfg.to_json(),
        "{\n  \"allowed_roles\": [],\n  \"aliases\": {}\n}"
    );
}

#[test]
fn to_json_renders_pretty_document() {
    let mut cfg = Config::create();
    cfg.add_role(1);
    cfg.add_role(42);
    cfg.add_alias(42, "vip".to_string());
    let expected = "{\n  \"allowed_roles\": [\n    1,\n    42\n  ],\n  \"aliases\": {\n    \"vip\": 42\n  }\n}";
    assert_eq!(cfg.to_json(), expected);
}

#[test]
fn round_trip_reproduces_roles_and_aliases() {
    let mut cfg = Config::create();
    cfg.add_role(1);
    cfg.add_role(u64::MAX);
    cfg.add_role(1000);
    cfg.add_alias(1, "one".to_string());
    cfg.add_alias(1000, "k".to_string());
    cfg.add_alias(u64::MAX, "max".to_string());
    let text = cfg.to_json();
    let back = Config::from_json(&text).expect("rendered document should load");
    assert_eq!(back.get_roles(), cfg.get_roles());
    assert_eq!(sorted_aliases(&back), sorted_aliases(&cfg));
}

#[test]
fn round_trip_keeps_special_characters_in_aliases() {
    let mut cfg = Config::create();
    cfg.add_role(8);
    cfg.add_alias(8, "with \"quotes\"".to_string());
    cfg.add_role(9);
    cfg.add_alias(9, "back\\slash".to_string());
    cfg.add_role(10);
    cfg.add_alias(10, "tab\tand\nnewline".to_string());
    cfg.add_role(11);
    cfg.add_alias(11, "unicode: héllo ☃".to_string());
    let text = cfg.to_json();
    let back = Config::from_json(&text).expect("rendered document should load");
    assert_eq!(back.resolve_alias(&"with \"quotes\"".to_string()), Some(8));
    assert_eq!(back.resolve_alias(&"back\\slash".to_string()), Some(9));
    assert_eq!(back.resolve_alias(&"tab\tand\nnewline".to_string()), Some(10));
    assert_eq!(back.resolve_alias(&"unicode: héllo ☃".to_string()), Some(11));
    assert_eq!(sorted_aliases(&back), sorted_aliases(&cfg));
}

#[test]
fn rendered_document_is_valid_json_for_serde() {
    let mut cfg = Config::create();
    cfg.add_role(3);
    cfg.add_role(77);
    cfg.add_alias(77, "mod \"x\"\n".to_string());
    let text = cfg.to_json();
    let v: serde_json::Value = serde_json::from_str(&text).expect("serde should parse it");
    let roles: Vec<u64> = v["allowed_roles"]
        .as_array()
        .unwrap()
        .iter()
        .map(|x| x.as_u64().unwrap())
        .collect();
    assert_eq!(roles, vec![3, 77]);
    assert_eq!(v["aliases"]["mod \"x\"\n"].as_u64(), Some(77));
    assert_eq!(v["aliases"].as_object().unwrap().len(), 1);
}

#[test]
fn parser_accepts_serde_style_compact_document() {
    let text = "{\"aliases\":{\"vip\":42,\"ops\":7},\"allowed_roles\":[42,7]}";
    let cfg = Config::from_json(text).expect("compact document with swapped fields should load");
    assert_eq!(cfg.get_roles(), &vec![42, 7]);
    assert_eq!(cfg.resolve_alias(&"vip".to_string()), Some(42));
    assert_eq!(cfg.resolve_alias(&"ops".to_string()), Some(7));
}

#[test]
fn parser_accepts_escapes_in_keys() {
    let text = "{\"allowed_roles\":[1],\"aliases\":{\"a\\u0041b\\n\\t\\\\\\\"\\/\":1}}";
    let cfg = Config::from_json(text).expect("escaped key should load");
    assert_eq!(cfg.resolve_alias(&"aAb\n\t\\\"/".to_string()), Some(1));
}

#[test]
fn parser_rejects_unknown_fields() {
    let text = "{\"allowed_roles\":[],\"aliases\":{},\"extra\":1}";
    assert!(Config::from_json(text).is_none());
}

#[test]
fn parser_rejects_number_overflow() {
    let text = "{\"allowed_roles\":[18446744073709551616],\"aliases\":{}}";
    assert!(Config::from_json(text).is_none());
    let max = "{\"allowed_roles\":[18446744073709551615],\"aliases\":{}}";
    let cfg = Config::from_json(max).unwrap();
    assert_eq!(cfg.get_roles(), &vec![u64::MAX]);
}

#[test]
fn parser_rejects_duplicate_role_ids() {
    let text = "{\"allowed_roles\":[1,2,1],\"aliases\":{}}";
    assert!(Config::from_json(text).is_none());
}

#[test]
fn parser_rejects_trailing_garbage() {
    let text = "{\"allowed_roles\":[],\"aliases\":{}} tail";
    assert!(Config::from_json(text).is_none());
}

#[test]
fn load_or_create_falls_back_to_fresh_on_corrupt_content() {
    for bad in [
        "",
        "not json at all",
        "{",
        "[1,2,3]",
        "{\"allowed_roles\":[]}",
        "{\"aliases\":{}}",
        "{\"allowed_roles\":[-1],\"aliases\":{}}",
        "{\"allowed_roles\":[1.5],\"aliases\":{}}",
        "\u{0}\u{1}\u{2}",
    ] {
        let (cfg, fresh) = Config::load_or_create(Some(bad));
        assert!(fresh, "content {:?} should be treated as first run", bad);
        assert!(cfg.get_roles().is_empty());
        assert!(cfg.get_aliases().is_empty());
    }
}

#[test]
fn load_or_create_without_file_creates_fresh() {
    let (cfg, fresh) = Config::load_or_create(None);
    assert!(fresh);
    assert!(cfg.get_roles().is_empty());
    assert!(cfg.get_aliases().is_empty());
}

#[test]
fn load_or_create_reads_good_content_without_flagging_fresh() {
    let mut cfg = Config::create();
    cfg.add_role(12);
    cfg.add_alias(12, "dj".to_string());
    let text = cfg.to_json();
    let (back, fresh) = Config::load_or_create(Some(&text));
    assert!(!fresh);
    assert_eq!(back.get_roles(), &vec![12]);
    assert_eq!(back.resolve_alias(&"dj".to_string()), Some(12));
}
