use zuzu_designer::catalog::{
    apply_initial_props, attrs_for, element_names, element_specs, is_supported_element,
};
use zuzu_designer::document::Document;
use zuzu_designer::element::Element;
use zuzu_designer::xml_read::{parse_gui_xml, parse_widget_xml};
use zuzu_designer::xml_write::{to_xml, write_node_xml, GUI_XML_NS};

fn entries(e: &Element) -> Vec<(String, String)> {
    let mut out = Vec::new();
    for i in 0..e.props.len() {
        let p = e.props.entry(i);
        out.push((p.name.clone(), p.value.clone()));
    }
    out
}

fn pair(a: &str, b: &str) -> (String, String) {
    (a.to_owned(), b.to_owned())
}

/// Tags and identifiers of a tree in document order.
fn shape(e: &Element, out: &mut Vec<(u32, String)>) {
    out.push((e.id, e.tag.clone()));
    for c in &e.children {
        shape(c, out);
    }
}

const DEFAULT_XML: &str = "<Window xmlns=\"https://zuzulang.org/ns/std/gui\" height=\"600\" title=\"Untitled Window\" width=\"800\">\n\t<VBox padding=\"12\">\n\t\t<Label text=\"Hello Zuzu\" />\n\t\t<Button text=\"OK\" />\n\t</VBox>\n</Window>\n";

#[test]
fn catalog_lists_all_elements() {
    let specs = element_specs();
    assert_eq!(specs.len(), 24);
    assert_eq!(specs[0].name, "Window");
    assert_eq!(specs[23].name, "TreeView");
    let names = element_names();
    assert_eq!(names.len(), 24);
    assert_eq!(names[1], "VBox");
    assert_eq!(names[16], "Button");
}

#[test]
fn attrs_for_known_and_unknown_tags() {
    assert_eq!(
        attrs_for("Window"),
        &["id", "title", "width", "height", "resizable", "modal", "visible", "enabled", "disabled"]
    );
    assert_eq!(attrs_for("Menu"), &["id", "text", "visible", "enabled", "disabled"]);
    assert_eq!(attrs_for("Nope"), &["id", "visible", "enabled", "disabled"]);
}

#[test]
fn supported_elements() {
    assert!(is_supported_element("Window"));
    assert!(is_supported_element("TreeView"));
    assert!(!is_supported_element("window"));
    assert!(!is_supported_element("Canvas"));
}

#[test]
fn initial_props_by_tag() {
    let mut tab = Element::new(9, "Tab");
    apply_initial_props(&mut tab);
    assert_eq!(entries(&tab), vec![pair("title", "Tab"), pair("value", "tab1")]);
    let mut check = Element::new(9, "Checkbox");
    apply_initial_props(&mut check);
    assert_eq!(entries(&check), vec![pair("label", "Checkbox")]);
    let mut hbox = Element::new(9, "HBox");
    apply_initial_props(&mut hbox);
    assert_eq!(entries(&hbox), vec![pair("gap", "6"), pair("padding", "8")]);
    let mut window = Element::new(9, "Window");
    apply_initial_props(&mut window);
    assert_eq!(
        entries(&window),
        vec![pair("height", "600"), pair("title", "Untitled Window"), pair("width", "800")]
    );
    let mut sep = Element::new(9, "Separator");
    apply_initial_props(&mut sep);
    assert_eq!(entries(&sep), vec![]);
}

#[test]
fn default_document_xml_text() {
    let doc = Document::new();
    assert_eq!(to_xml(doc.root()), DEFAULT_XML);
}

#[test]
fn nested_element_written_without_namespace() {
    let doc = Document::new();
    let mut out = String::new();
    write_node_xml(&doc.root().children[0], 1, &mut out);
    assert_eq!(
        out,
        "\t<VBox padding=\"12\">\n\t\t<Label text=\"Hello Zuzu\" />\n\t\t<Button text=\"OK\" />\n\t</VBox>\n"
    );
    assert!(!out.contains(GUI_XML_NS));
}

#[test]
fn written_values_are_escaped() {
    let mut label = Element::new(1, "Label");
    label.props.insert("text".to_owned(), "a < b & \"c\"".to_owned());
    assert_eq!(
        to_xml(&label),
        "<Label xmlns=\"https://zuzulang.org/ns/std/gui\" text=\"a &lt; b &amp; &quot;c&quot;\" />\n"
    );
}

#[test]
fn reading_written_document_gives_it_back() {
    let doc = Document::new();
    let text = to_xml(doc.root());
    let back = parse_gui_xml(&text).expect("written XML reads back");
    let mut a = Vec::new();
    shape(doc.root(), &mut a);
    let mut b = Vec::new();
    shape(&back, &mut b);
    assert_eq!(a, b);
    assert_eq!(entries(&back), entries(doc.root()));
    assert_eq!(entries(&back.children[0].children[0]), vec![pair("text", "Hello Zuzu")]);
    assert_eq!(to_xml(&back), text);
}

#[test]
fn reading_back_escaped_values() {
    let mut label = Element::new(1, "Label");
    label.props.insert("text".to_owned(), "a < b & \"c\" > d".to_owned());
    let back = parse_widget_xml(&to_xml(&label)).expect("reads back");
    assert_eq!(entries(&back), vec![pair("text", "a < b & \"c\" > d")]);
}

#[test]
fn parsed_elements_numbered_in_document_order() {
    let xml = "<Window><VBox><Label/><Button/></VBox><HBox><Input/></HBox></Window>";
    let root = parse_gui_xml(xml).expect("parses");
    let mut s = Vec::new();
    shape(&root, &mut s);
    let ids: Vec<u32> = s.iter().map(|(id, _)| *id).collect();
    assert_eq!(ids, vec![1, 2, 3, 4, 5, 6]);
    assert_eq!(s[5].1, "Input");
}

#[test]
fn parse_skips_text_and_comments() {
    let xml = "<Window>hello<!-- note --><Label text=\"x\"/> tail </Window>";
    let root = parse_gui_xml(xml).expect("parses");
    assert_eq!(root.children.len(), 1);
    assert_eq!(root.children[0].tag, "Label");
    assert_eq!(root.children[0].id, 2);
}

#[test]
fn parse_rejects_non_window_root() {
    let err = parse_gui_xml("<VBox/>").err().expect("rejected");
    assert_eq!(err, "GUI XML root element must be Window");
    let widget = parse_widget_xml("<VBox gap=\"4\"/>").expect("a widget parses");
    assert_eq!(widget.tag, "VBox");
    assert_eq!(entries(&widget), vec![pair("gap", "4")]);
}

#[test]
fn parse_rejects_foreign_namespace() {
    let err = parse_gui_xml("<Window xmlns=\"urn:other\"/>").err().expect("rejected");
    assert_eq!(err, "unsupported GUI XML namespace 'urn:other'");
}

#[test]
fn parse_accepts_gui_namespace_and_none() {
    assert!(parse_gui_xml("<Window xmlns=\"https://zuzulang.org/ns/std/gui\"/>").is_ok());
    assert!(parse_gui_xml("<Window/>").is_ok());
}

#[test]
fn parse_rejects_unknown_element() {
    let err = parse_gui_xml("<Window><Canvas/></Window>").err().expect("rejected");
    assert_eq!(err, "unsupported GUI XML element 'Canvas'");
}

#[test]
fn parse_rejects_namespaced_attribute() {
    let err = parse_gui_xml("<Window xmlns:x=\"urn:x\" x:title=\"a\"/>").err().expect("rejected");
    assert_eq!(err, "Window does not accept namespaced XML attribute 'title'");
}

#[test]
fn parse_rejects_unknown_attribute() {
    let err = parse_gui_xml("<Window><Label color=\"red\"/></Window>").err().expect("rejected");
    assert_eq!(err, "Label does not accept XML attribute 'color'");
}

#[test]
fn parse_reports_first_error_in_document_order() {
    let xml = "<Window><Label color=\"red\"/><Canvas/></Window>";
    let err = parse_gui_xml(xml).err().expect("rejected");
    assert_eq!(err, "Label does not accept XML attribute 'color'");
}

#[test]
fn parse_accepts_meta_attributes_and_declarations() {
    let xml = "<Window xmlns:x=\"urn:x\" meta.note=\"n\" title=\"T\"/>";
    let root = parse_gui_xml(xml).expect("parses");
    assert_eq!(entries(&root), vec![pair("meta.note", "n"), pair("title", "T")]);
}

#[test]
fn parse_reports_parser_error() {
    let err = parse_gui_xml("<Window>").err().expect("rejected");
    assert!(!err.is_empty());
    assert!(!err.starts_with("unsupported"));
    assert!(parse_gui_xml("").is_err());
}

#[test]
fn line_breaks_in_values_read_back_as_spaces() {
    let mut label = Element::new(1, "Label");
    label.props.insert("text".to_owned(), "one\ntwo\tthree".to_owned());
    let text = to_xml(&label);
    assert!(text.contains("text=\"one\ntwo\tthree\""));
    let back = parse_widget_xml(&text).expect("reads back");
    assert_eq!(entries(&back), vec![pair("text", "one two three")]);
}
