use serde_json::Value;
use usfm_core::parsed::Document;
use usfm_core::usj::{to_usj, Usj};

fn value(u: &Usj) -> Value {
    match u {
        Usj::Text(t) => Value::String(t.clone()),
        Usj::List(items) => Value::Array(items.iter().map(value).collect()),
        Usj::Object(fields) => {
            let mut map = serde_json::Map::new();
            for (key, v) in fields {
                map.insert(key.clone(), value(v));
            }
            Value::Object(map)
        }
    }
}

fn usj_of(source: &str) -> Value {
    let (content, _) = Document::parse(source).into_parts();
    value(&to_usj(&content))
}

#[test]
fn the_root_declares_the_model() {
    let usj = usj_of("\\id GEN\n");
    assert_eq!(usj["type"], "USJ");
    assert_eq!(usj["version"], "3.1");
    assert!(usj["content"].is_array());
}

#[test]
fn text_is_a_bare_string() {
    let usj = usj_of("\\id GEN Genesis\n");
    let book = &usj["content"][0];
    assert_eq!(book["type"], "book");
    assert_eq!(book["code"], "GEN");
    assert_eq!(book["content"][0], "Genesis");
}

#[test]
fn chapter_and_verse_properties_are_top_level() {
    let usj = usj_of("\\id GEN\n\\c 1\n\\p\n\\v 1 text\n");
    let chapter = usj["content"]
        .as_array()
        .unwrap()
        .iter()
        .find(|node| node["type"] == "chapter")
        .expect("a chapter");

    assert_eq!(chapter["number"], "1");
    assert_eq!(chapter["marker"], "c");
}

#[test]
fn a_node_with_no_children_omits_content() {
    let usj = usj_of("\\id GEN\n\\c 1\n");
    let chapter = usj["content"]
        .as_array()
        .unwrap()
        .iter()
        .find(|node| node["type"] == "chapter")
        .expect("a chapter");

    assert!(chapter.get("content").is_none());
}

#[test]
fn attributes_become_properties() {
    let usj = usj_of("\\id GEN\n\\c 1\n\\p\n\\v 1 \\w grace|lemma=\"grace\"\\w*\n");
    let json = usj.to_string();
    assert!(json.contains("\"lemma\":\"grace\""), "{json}");
}
