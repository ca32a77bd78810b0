use prosmotr_core::doc::Doc;
use prosmotr_core::formats::data::{from_toml, from_xml, from_yaml};
use prosmotr_core::formats::markdown::render;
use prosmotr_core::formats::tree::from_json;
use serde_json::Value;

fn html_of(src: &str) -> String {
    match render(src) {
        Doc::Html { html } => html,
        other => panic!("expected Html, got {other:?}"),
    }
}

fn tree(d: Doc) -> Value {
    match d {
        Doc::Tree { json } => json,
        other => panic!("expected Tree, got {other:?}"),
    }
}

#[test]
fn renders_tables() {
    let h = html_of("| a | b |\n| --- | --- |\n| 1 | 2 |");
    assert!(h.contains("<table>"));
    assert!(h.contains("<td>1</td>"));
}

#[test]
fn renders_task_lists() {
    let h = html_of("- [x] сделано\n- [ ] нет");
    assert!(h.contains("type=\"checkbox\""));
}

#[test]
fn keeps_cyrillic() {
    let h = html_of("# План");
    assert!(h.contains("План"));
}

#[test]
fn escapes_raw_script() {
    // markdown allows raw html; safety is up to the window's CSP
    let h = html_of("текст <b>жирный</b>");
    assert!(h.contains("<b>жирный</b>"));
}

#[test]
fn parses_object() {
    let json = tree(from_json(r#"{"имя":"Алфер","часы":[475,800]}"#));
    assert_eq!(json["имя"], "Алфер");
    assert_eq!(json["часы"][1], 800);
}

#[test]
fn broken_json_reports_position() {
    match from_json("{\n  \"a\": ,\n}") {
        Doc::Unsupported { message, .. } => assert!(message.contains("строка 2")),
        other => panic!("expected Unsupported, got {other:?}"),
    }
}

#[test]
fn broken_json_message_shape() {
    match from_json("[1,") {
        Doc::Unsupported { ext, message } => {
            assert_eq!(ext, "json");
            assert!(message.starts_with("Битый JSON: строка 1, столбец 3 — "), "{message}");
        }
        other => panic!("expected Unsupported, got {other:?}"),
    }
}

#[test]
fn yaml_becomes_tree() {
    let v = tree(from_yaml("имя: Алфер\nчасы:\n  - 475\n  - 800\n"));
    assert_eq!(v["имя"], "Алфер");
    assert_eq!(v["часы"][1], 800);
}

#[test]
fn toml_becomes_tree() {
    let v = tree(from_toml("[package]\nname = \"prosmotr\"\nyear = 2026\n"));
    assert_eq!(v["package"]["name"], "prosmotr");
    assert_eq!(v["package"]["year"], 2026);
}

#[test]
fn toml_cyrillic_keys_need_quotes() {
    assert!(matches!(from_toml("[план]\n"), Doc::Unsupported { .. }));
    let v = tree(from_toml("[\"план\"]\n\"вуз\" = \"METU\"\n"));
    assert_eq!(v["план"]["вуз"], "METU");
}

#[test]
fn toml_error_message_prefix() {
    match from_toml("[план]\n") {
        Doc::Unsupported { ext, message } => {
            assert_eq!(ext, "toml");
            assert!(message.starts_with("Не разобрался в toml: "));
        }
        other => panic!("expected Unsupported, got {other:?}"),
    }
}

#[test]
fn xml_keeps_attributes_and_text() {
    let v = tree(from_xml(r#"<план год="2026"><вуз>METU</вуз></план>"#));
    assert_eq!(v["план"]["@год"], "2026");
    assert_eq!(v["план"]["вуз"], "METU");
}

#[test]
fn xml_repeated_tags_become_array() {
    let v = tree(from_xml("<root><a>1</a><a>2</a><a>3</a></root>"));
    assert!(v["root"]["a"].is_array());
    assert_eq!(v["root"]["a"][2], "3");
}

#[test]
fn self_closing_tags_are_siblings_not_children() {
    let v = tree(from_xml(r#"<root><a x="1"/><b y="2"/></root>"#));
    assert_eq!(v["root"]["a"]["@x"], "1");
    assert_eq!(v["root"]["b"]["@y"], "2");
}

#[test]
fn xml_text_beside_children() {
    let v = tree(from_xml("<r>  hello <k>1</k></r>"));
    assert_eq!(v["r"]["#текст"], "hello");
    assert_eq!(v["r"]["k"], "1");
}

#[test]
fn xml_unclosed_tags_are_folded() {
    let v = tree(from_xml("<a><b>x</b>"));
    assert_eq!(v["a"]["b"], "x");
}

#[test]
fn xml_without_tags_is_refused() {
    match from_xml("just text") {
        Doc::Unsupported { ext, message } => {
            assert_eq!(ext, "xml");
            assert_eq!(message, "В файле нет ни одного тега");
        }
        other => panic!("expected Unsupported, got {other:?}"),
    }
}

#[test]
fn broken_xml_is_reported() {
    match from_xml("<a></b>") {
        Doc::Unsupported { message, .. } => assert!(message.starts_with("Битый xml: ")),
        other => panic!("expected Unsupported, got {other:?}"),
    }
}

#[test]
fn broken_yaml_is_reported() {
    assert!(matches!(from_yaml("a:\n  - b\n c: ["), Doc::Unsupported { .. }));
}
