use zuzu_designer::props::PropertyMap;
use zuzu_designer::text::{
    chars_of, escape_xml, is_white_space_exec, same_text, starts_with_text, string_from_chars,
    text_less_exec, trim_text,
};

fn entries(m: &PropertyMap) -> Vec<(String, String)> {
    let mut out = Vec::new();
    for i in 0..m.len() {
        let p = m.entry(i);
        out.push((p.name.clone(), p.value.clone()));
    }
    out
}

#[test]
fn same_text_compares_characters() {
    assert!(same_text("Window", "Window"));
    assert!(!same_text("Window", "window"));
    assert!(!same_text("Win", "Window"));
    assert!(same_text("", ""));
}

#[test]
fn starts_with_text_checks_prefix() {
    assert!(starts_with_text("xmlns:x", "xmlns:"));
    assert!(starts_with_text("meta.note", "meta."));
    assert!(!starts_with_text("meta", "meta."));
    assert!(starts_with_text("anything", ""));
}

#[test]
fn text_less_orders_like_strings() {
    assert!(text_less_exec("height", "title"));
    assert!(text_less_exec("title", "width"));
    assert!(!text_less_exec("width", "title"));
    assert!(!text_less_exec("gap", "gap"));
    assert!(text_less_exec("gap", "gapx"));
    assert!(text_less_exec("", "a"));
}

#[test]
fn white_space_matches_std() {
    for c in [' ', '\t', '\n', '\r', '\u{a0}', '\u{3000}', 'a', '0', '\u{200b}'] {
        assert_eq!(is_white_space_exec(c), c.is_whitespace());
    }
}

#[test]
fn trim_text_matches_str_trim() {
    for s in ["  hello ", "\t\n", "", "a", " a b ", "\u{3000}x\u{a0}", "x  "] {
        assert_eq!(trim_text(s), s.trim());
    }
}

#[test]
fn chars_round_trip() {
    let v = chars_of("héllo");
    assert_eq!(v, vec!['h', 'é', 'l', 'l', 'o']);
    assert_eq!(string_from_chars(&v, 1, 4), "éll");
    assert_eq!(string_from_chars(&v, 2, 2), "");
}

#[test]
fn escape_xml_replaces_markup() {
    assert_eq!(escape_xml("a & b"), "a &amp; b");
    assert_eq!(escape_xml("say \"hi\""), "say &quot;hi&quot;");
    assert_eq!(escape_xml("<tag>"), "&lt;tag&gt;");
    assert_eq!(escape_xml("plain"), "plain");
    assert_eq!(escape_xml("&amp;"), "&amp;amp;");
}

#[test]
fn property_map_keeps_names_in_order() {
    let mut m = PropertyMap::new();
    m.insert("width".to_owned(), "800".to_owned());
    m.insert("title".to_owned(), "Untitled Window".to_owned());
    m.insert("height".to_owned(), "600".to_owned());
    assert_eq!(
        entries(&m),
        vec![
            ("height".to_owned(), "600".to_owned()),
            ("title".to_owned(), "Untitled Window".to_owned()),
            ("width".to_owned(), "800".to_owned()),
        ]
    );
    assert_eq!(m.get("title").map(String::as_str), Some("Untitled Window"));
    assert_eq!(m.get("missing"), None);
}

#[test]
fn property_map_insert_replaces_value() {
    let mut m = PropertyMap::new();
    m.insert("text".to_owned(), "one".to_owned());
    m.insert("text".to_owned(), "two".to_owned());
    assert_eq!(m.len(), 1);
    assert_eq!(m.get("text").map(String::as_str), Some("two"));
}

#[test]
fn property_map_clear_and_duplicate() {
    let mut m = PropertyMap::new();
    m.insert("b".to_owned(), "2".to_owned());
    m.insert("a".to_owned(), "1".to_owned());
    let copy = m.duplicate();
    m.clear();
    assert_eq!(m.len(), 0);
    assert_eq!(
        entries(&copy),
        vec![("a".to_owned(), "1".to_owned()), ("b".to_owned(), "2".to_owned())]
    );
}
