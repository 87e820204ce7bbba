use zuzu_designer::document::{room_left, Document, TreeLayout};
use zuzu_designer::element::{assign_new_ids, find_parent, locate, reindex_node, Element};
use zuzu_designer::outline::{node_label, tree_rows, window_title};
use zuzu_designer::xml_read::{parse_gui_xml, parse_widget_xml};
use zuzu_designer::xml_write::to_xml;

/// Identifiers and tags of a tree, in document order, with nesting depth.
fn outline(e: &Element) -> Vec<(usize, u32, String)> {
    fn walk(e: &Element, depth: usize, out: &mut Vec<(usize, u32, String)>) {
        out.push((depth, e.id, e.tag.clone()));
        for c in &e.children {
            walk(c, depth + 1, out);
        }
    }
    let mut out = Vec::new();
    walk(e, 0, &mut out);
    out
}

fn entries(e: &Element) -> Vec<(String, String)> {
    let mut out = Vec::new();
    for i in 0..e.props.len() {
        let p = e.props.entry(i);
        out.push((p.name.clone(), p.value.clone()));
    }
    out
}

fn pair(a: &str, b: &str) -> (String, String) {
    (a.to_owned(), b.to_owned())
}

fn row(depth: usize, id: u32, tag: &str) -> (usize, u32, String) {
    (depth, id, tag.to_owned())
}

fn layout(id: u32, children: Vec<TreeLayout>) -> TreeLayout {
    TreeLayout { id, children }
}

#[test]
fn new_document_shape() {
    let doc = Document::new();
    assert_eq!(doc.next_id(), 5);
    assert_eq!(
        outline(doc.root()),
        vec![row(0, 1, "Window"), row(1, 2, "VBox"), row(2, 3, "Label"), row(2, 4, "Button")]
    );
}

#[test]
fn rows_and_labels() {
    let doc = Document::new();
    let rows = doc.rows();
    let labels: Vec<&str> = rows.iter().map(|r| r.label.as_str()).collect();
    assert_eq!(
        labels,
        vec!["Window (title=Untitled Window)", "VBox", "Label (text=Hello Zuzu)", "Button (text=OK)"]
    );
    let parents: Vec<Option<usize>> = rows.iter().map(|r| r.parent).collect();
    assert_eq!(parents, vec![None, Some(0), Some(1), Some(1)]);
    let ids: Vec<u32> = tree_rows(doc.root()).iter().map(|r| r.id).collect();
    assert_eq!(ids, vec![1, 2, 3, 4]);
}

#[test]
fn node_label_prefers_id() {
    let mut e = Element::new(7, "Input");
    assert_eq!(node_label(&e), "Input");
    e.props.insert("value".to_owned(), "v".to_owned());
    e.props.insert("text".to_owned(), "t".to_owned());
    assert_eq!(node_label(&e), "Input (text=t)");
    e.props.insert("id".to_owned(), "name".to_owned());
    assert_eq!(node_label(&e), "Input (id=name)");
}

#[test]
fn window_titles() {
    assert_eq!(window_title(None), "Zuzu Designer");
    assert_eq!(window_title(Some("form.xml")), "Zuzu Designer - form.xml");
}

#[test]
fn add_child_to_window_and_to_selection() {
    let mut doc = Document::new();
    doc.add_child(None, "Input");
    assert_eq!(doc.next_id(), 6);
    let input = doc.node(5).expect("added");
    assert_eq!(input.tag, "Input");
    assert_eq!(entries(input), vec![pair("placeholder", "Input")]);
    doc.add_child(Some(2), "Separator");
    doc.add_child(Some(99), "Label");
    assert_eq!(
        outline(doc.root()),
        vec![
            row(0, 1, "Window"),
            row(1, 2, "VBox"),
            row(2, 3, "Label"),
            row(2, 4, "Button"),
            row(2, 6, "Separator"),
            row(1, 5, "Input"),
            row(1, 7, "Label"),
        ]
    );
}

#[test]
fn remove_element_and_refuse_window() {
    let mut doc = Document::new();
    assert!(!doc.remove(1));
    assert!(!doc.remove(42));
    assert!(doc.remove(3));
    assert_eq!(
        outline(doc.root()),
        vec![row(0, 1, "Window"), row(1, 2, "VBox"), row(2, 4, "Button")]
    );
    assert!(doc.remove(2));
    assert_eq!(outline(doc.root()), vec![row(0, 1, "Window")]);
    assert_eq!(doc.next_id(), 5);
}

#[test]
fn remove_undoes_add_child_on_values() {
    let mut doc = Document::new();
    let before = to_xml(doc.root());
    let fresh = doc.next_id();
    doc.add_child(Some(2), "Slider");
    assert!(doc.remove(fresh));
    assert_eq!(to_xml(doc.root()), before);
    assert_eq!(doc.next_id(), fresh + 1);
}

#[test]
fn remove_undoes_add_sibling_on_values() {
    let mut doc = Document::new();
    let before = to_xml(doc.root());
    let fresh = doc.next_id();
    assert!(doc.add_sibling(3, "Image"));
    assert_eq!(
        outline(doc.root()),
        vec![
            row(0, 1, "Window"),
            row(1, 2, "VBox"),
            row(2, 3, "Label"),
            row(2, 5, "Image"),
            row(2, 4, "Button"),
        ]
    );
    assert!(doc.remove(fresh));
    assert_eq!(to_xml(doc.root()), before);
}

#[test]
fn add_sibling_without_target_still_takes_identifier() {
    let mut doc = Document::new();
    assert!(!doc.add_sibling(77, "Label"));
    assert_eq!(doc.next_id(), 6);
    assert_eq!(outline(doc.root()).len(), 4);
    assert!(doc.can_add_sibling(3));
    assert!(!doc.can_add_sibling(1));
    assert!(!doc.can_add_sibling(77));
}

#[test]
fn move_up_and_down() {
    let mut doc = Document::new();
    let before = to_xml(doc.root());
    assert!(!doc.move_selected(3, -1));
    assert!(!doc.move_selected(4, 1));
    assert!(!doc.move_selected(1, 1));
    assert!(doc.move_selected(4, -1));
    assert_eq!(
        outline(doc.root()),
        vec![row(0, 1, "Window"), row(1, 2, "VBox"), row(2, 4, "Button"), row(2, 3, "Label")]
    );
    assert!(doc.move_selected(4, 1));
    assert_eq!(to_xml(doc.root()), before);
}

#[test]
fn move_back_after_move_down() {
    let mut doc = Document::new();
    doc.add_child(Some(2), "Label");
    let before = to_xml(doc.root());
    assert!(doc.move_selected(3, 2));
    assert_eq!(
        outline(doc.root()),
        vec![
            row(0, 1, "Window"),
            row(1, 2, "VBox"),
            row(2, 5, "Label"),
            row(2, 4, "Button"),
            row(2, 3, "Label"),
        ]
    );
    assert!(doc.move_selected(3, -2));
    assert_eq!(to_xml(doc.root()), before);
}

#[test]
fn edit_form_and_apply() {
    let mut doc = Document::new();
    let fields = doc.edit_fields(1).expect("window exists");
    let names: Vec<&str> = fields.iter().map(|(n, _)| n.as_str()).collect();
    assert_eq!(
        names,
        vec!["id", "title", "width", "height", "resizable", "modal", "visible", "enabled", "disabled"]
    );
    assert_eq!(fields[1], pair("title", "Untitled Window"));
    assert_eq!(fields[0], pair("id", ""));
    assert!(doc.edit_fields(50).is_none());

    let mut edited = fields.clone();
    edited[0].1 = "  main  ".to_owned();
    edited[1].1 = "   ".to_owned();
    assert!(doc.apply_edit(1, &edited));
    assert_eq!(
        entries(doc.root()),
        vec![pair("height", "600"), pair("id", "main"), pair("width", "800")]
    );
    assert!(!doc.apply_edit(50, &edited));
}

#[test]
fn applying_unchanged_form_keeps_attributes() {
    let mut doc = Document::new();
    let before = to_xml(doc.root());
    for id in 1..5 {
        let fields = doc.edit_fields(id).expect("exists");
        assert!(doc.apply_edit(id, &fields));
    }
    assert_eq!(to_xml(doc.root()), before);
}

#[test]
fn paste_child_renumbers_and_refuses_window() {
    let mut doc = Document::new();
    let pasted = parse_widget_xml("<HBox><Button text=\"A\"/><Button text=\"B\"/></HBox>")
        .expect("parses");
    assert!(doc.has_room_for(&pasted));
    assert_eq!(doc.paste_child(Some(2), pasted), Ok(()));
    assert_eq!(doc.next_id(), 8);
    assert_eq!(
        outline(doc.root()),
        vec![
            row(0, 1, "Window"),
            row(1, 2, "VBox"),
            row(2, 3, "Label"),
            row(2, 4, "Button"),
            row(2, 5, "HBox"),
            row(3, 6, "Button"),
            row(3, 7, "Button"),
        ]
    );
    let window = parse_gui_xml("<Window/>").expect("parses");
    let before = to_xml(doc.root());
    assert_eq!(
        doc.paste_child(None, window),
        Err("Window XML cannot be pasted as a child widget.".to_owned())
    );
    assert_eq!(to_xml(doc.root()), before);
    assert_eq!(doc.next_id(), 8);
}

#[test]
fn replace_document_sets_next_identifier() {
    let mut doc = Document::new();
    let mut root = parse_gui_xml("<Window><Label/><Label/></Window>").expect("parses");
    root.children[1].id = 40;
    doc.replace_document(root);
    assert_eq!(doc.next_id(), 41);
    doc.add_child(None, "Button");
    assert_eq!(doc.node(41).expect("added").tag, "Button");
}

#[test]
fn sync_with_unchanged_layout_keeps_document() {
    let mut doc = Document::new();
    let before = to_xml(doc.root());
    let roots = vec![layout(1, vec![layout(2, vec![layout(3, vec![]), layout(4, vec![])])])];
    assert!(doc.sync_from_layout(&roots));
    assert_eq!(to_xml(doc.root()), before);
    assert_eq!(doc.next_id(), 5);
}

#[test]
fn sync_after_drag_moves_element() {
    let mut doc = Document::new();
    doc.add_child(None, "Input");
    let roots = vec![layout(1, vec![layout(2, vec![layout(3, vec![])]), layout(4, vec![])])];
    assert!(doc.sync_from_layout(&roots));
    assert_eq!(
        outline(doc.root()),
        vec![row(0, 1, "Window"), row(1, 2, "VBox"), row(2, 3, "Label"), row(1, 4, "Button")]
    );
    assert_eq!(doc.next_id(), 5);
}

#[test]
fn sync_refused_cases() {
    let mut doc = Document::new();
    let before = to_xml(doc.root());
    assert!(!doc.sync_from_layout(&vec![]));
    assert!(!doc.sync_from_layout(&vec![layout(1, vec![]), layout(2, vec![])]));
    assert!(!doc.sync_from_layout(&vec![layout(2, vec![layout(1, vec![])])]));
    assert!(!doc.sync_from_layout(&vec![layout(9, vec![])]));
    assert_eq!(to_xml(doc.root()), before);
}

#[test]
fn layout_drops_unknown_identifiers() {
    let doc = Document::new();
    let tree = doc
        .tree_from_layout(&layout(2, vec![layout(8, vec![layout(3, vec![])]), layout(4, vec![])]))
        .expect("known root");
    assert_eq!(outline(&tree), vec![row(0, 2, "VBox"), row(1, 4, "Button")]);
}

#[test]
fn tree_searches() {
    let doc = Document::new();
    assert_eq!(find_parent(doc.root(), 4), Some((vec![0], 1)));
    assert_eq!(find_parent(doc.root(), 2), Some((vec![], 0)));
    assert_eq!(find_parent(doc.root(), 1), None);
    assert_eq!(locate(doc.root(), 1), Some(vec![]));
    assert_eq!(locate(doc.root(), 3), Some(vec![0, 0]));
    assert_eq!(locate(doc.root(), 9), None);
}

#[test]
fn searches_with_repeated_identifiers() {
    let mut root = Element::new(1, "Window");
    let mut a = Element::new(2, "VBox");
    a.children.push(Element::new(3, "Label"));
    root.children.push(a);
    root.children.push(Element::new(3, "Button"));
    assert_eq!(find_parent(&root, 3), Some((vec![0], 0)));
    assert_eq!(locate(&root, 3), Some(vec![1]));
}

#[test]
fn renumbering_and_maximum() {
    let doc = Document::new();
    let mut copy = doc.root().duplicate();
    let mut next = 10;
    assign_new_ids(&mut copy, &mut next);
    assert_eq!(next, 14);
    let ids: Vec<u32> = outline(&copy).iter().map(|r| r.1).collect();
    assert_eq!(ids, vec![10, 11, 12, 13]);
    let mut max_id = 0;
    reindex_node(&copy, &mut max_id);
    assert_eq!(max_id, 13);
    let mut high = 20;
    reindex_node(&copy, &mut high);
    assert_eq!(high, 20);
}

#[test]
fn document_assigns_fresh_identifiers() {
    let mut doc = Document::new();
    let mut node = parse_widget_xml("<VBox><Label/></VBox>").expect("parses");
    doc.assign_new_ids(&mut node);
    assert_eq!(node.id, 5);
    assert_eq!(node.children[0].id, 6);
    assert_eq!(doc.next_id(), 7);
    assert_eq!(doc.allocate_id(), 7);
    assert_eq!(doc.next_id(), 8);
}

#[test]
fn room_for_trees() {
    let doc = Document::new();
    assert_eq!(room_left(doc.root(), 10), Some(6));
    assert_eq!(room_left(doc.root(), 4), Some(0));
    assert_eq!(room_left(doc.root(), 3), None);
    assert!(doc.has_room_for(doc.root()));
}

#[test]
fn identifiers_stay_unique_through_edits() {
    let mut doc = Document::new();
    doc.add_child(Some(2), "Label");
    assert!(doc.add_sibling(3, "Button"));
    assert!(doc.move_selected(3, 1));
    let pasted = parse_widget_xml("<HBox><Label/></HBox>").expect("parses");
    assert_eq!(doc.paste_child(Some(2), pasted), Ok(()));
    assert!(doc.remove(4));
    let fields = vec![("text".to_owned(), " hi ".to_owned())];
    assert!(doc.apply_edit(3, &fields));
    let mut ids: Vec<u32> = outline(doc.root()).iter().map(|r| r.1).collect();
    let n = ids.len();
    ids.sort();
    ids.dedup();
    assert_eq!(ids.len(), n);
    assert!(ids.iter().all(|id| *id < doc.next_id()));
}

#[test]
fn copied_widget_pastes_as_renumbered_copy() {
    let mut doc = Document::new();
    let copied = to_xml(doc.node(2).expect("vbox"));
    let widget = parse_widget_xml(&copied).expect("reads back");
    assert_eq!(doc.paste_child(None, widget), Ok(()));
    assert_eq!(
        outline(doc.root()),
        vec![
            row(0, 1, "Window"),
            row(1, 2, "VBox"),
            row(2, 3, "Label"),
            row(2, 4, "Button"),
            row(1, 5, "VBox"),
            row(2, 6, "Label"),
            row(2, 7, "Button"),
        ]
    );
    assert_eq!(entries(doc.node(6).expect("copy")), vec![pair("text", "Hello Zuzu")]);
    assert_eq!(doc.next_id(), 8);
}
