use mbse_testlib::content::{BlockKind, ContentSpec};

fn get(key: &str) -> Option<String> {
    match key {
        "项目代号" => Some("RT25046001".into()),
        "密级" => Some("秘密★10年".into()),
        _ => None,
    }
}

fn nothing(_key: &str) -> Option<String> {
    None
}

#[test]
fn interpolate_replaces_known_fields_and_keeps_unknown() {
    let text = "标识：{项目代号}，密级：{密级}，缺项：{未填字段}";
    assert_eq!(
        ContentSpec::interpolate(text, &get),
        "标识：RT25046001，密级：秘密★10年，缺项：{未填字段}"
    );
}

#[test]
fn interpolate_handles_no_braces_and_empty_braces() {
    assert_eq!(ContentSpec::interpolate("纯套话", &get), "纯套话");
    assert_eq!(ContentSpec::interpolate("a{}b", &get), "a{}b");
}

#[test]
fn interpolate_keeps_unclosed_brace_and_text_around() {
    assert_eq!(ContentSpec::interpolate("x{密级", &get), "x{密级");
    assert_eq!(ContentSpec::interpolate("{{密级}}", &get), "{{密级}}");
    assert_eq!(ContentSpec::interpolate("{{}{密级}", &get), "{{}秘密★10年");
    assert_eq!(ContentSpec::interpolate("{}{密级}", &get), "{}秘密★10年");
}

#[test]
fn interpolate_with_nothing_found_is_identity() {
    let texts = ["", "{a}{b}", "前{x}中{}后{", "{{}}", "纯文本"];
    for t in texts {
        assert_eq!(ContentSpec::interpolate(t, &nothing), t);
    }
}

#[test]
fn block_kind_from_spec_maps_known_and_falls_back() {
    let mut text = serde_json::Map::new();
    text.insert("kind".to_string(), serde_json::Value::String("text".into()));
    assert_eq!(BlockKind::from_spec(&serde_json::Value::Object(text)), BlockKind::Text);
    let mut slot = serde_json::Map::new();
    slot.insert("kind".to_string(), serde_json::Value::String("slot".into()));
    assert_eq!(BlockKind::from_spec(&serde_json::Value::Object(slot)), BlockKind::Slot);
    assert_eq!(
        BlockKind::from_spec(&serde_json::Value::Object(serde_json::Map::new())),
        BlockKind::Empty
    );
    let mut x = serde_json::Map::new();
    x.insert("kind".to_string(), serde_json::Value::String("x".into()));
    assert_eq!(BlockKind::from_spec(&serde_json::Value::Object(x)), BlockKind::Empty);
}

#[test]
fn block_kind_from_spec_needs_a_string_kind() {
    let mut n = serde_json::Map::new();
    n.insert("kind".to_string(), serde_json::Value::from(3));
    assert_eq!(BlockKind::from_spec(&serde_json::Value::Object(n)), BlockKind::Empty);
    assert_eq!(BlockKind::from_spec(&serde_json::Value::String("text".into())), BlockKind::Empty);
    let mut t = serde_json::Map::new();
    for (k, want) in [
        ("field", BlockKind::Field),
        ("table", BlockKind::Table),
        ("trace", BlockKind::Trace),
    ] {
        t.insert("kind".to_string(), serde_json::Value::String(k.into()));
        assert_eq!(BlockKind::from_spec(&serde_json::Value::Object(t.clone())), want);
    }
}

fn braces(key: &str) -> Option<String> {
    match key {
        "a" => Some("{b}".into()),
        "b" => Some("B".into()),
        _ => None,
    }
}

#[test]
fn interpolate_inserts_a_found_value_verbatim() {
    assert_eq!(ContentSpec::interpolate("x{a}y{b}", &braces), "x{b}yB");
    assert_eq!(ContentSpec::interpolate("{a}", &braces), "{b}");
}
