//! The elements that Zuzu GUI XML knows, the attributes each accepts, and
//! the attributes a new element starts with.

use vstd::prelude::*;

use crate::element::{Element, ElementView};
use crate::props::{insert_all, lemma_insert_all_short, names_ascend};
use crate::text::same_text;

verus! {

/// An element that Zuzu GUI XML knows and the attributes it accepts.
pub struct ElementSpec {
    pub name: &'static str,
    pub attrs: &'static [&'static str],
}

/// Names and attribute lists of a catalog, as characters.
pub open spec fn catalog_view(specs: Seq<ElementSpec>) -> Seq<(Seq<char>, Seq<Seq<char>>)> {
    specs.map_values(|s: ElementSpec| (s.name@, s.attrs@.map_values(|a: &str| a@)))
}

/// The elements of Zuzu GUI XML, in the order the designer offers them, each
/// with the attributes it accepts.
pub open spec fn element_table() -> Seq<(Seq<char>, Seq<Seq<char>>)> {
    seq![
        ("Window"@, seq!["id"@, "title"@, "width"@, "height"@, "resizable"@, "modal"@, "visible"@, "enabled"@, "disabled"@]),
        ("VBox"@, seq!["id"@, "align"@, "gap"@, "padding"@, "visible"@, "enabled"@, "disabled"@, "width"@, "height"@]),
        ("HBox"@, seq!["id"@, "align"@, "gap"@, "padding"@, "visible"@, "enabled"@, "disabled"@, "width"@, "height"@]),
        ("Frame"@, seq!["id"@, "label"@, "collapsible"@, "collapsed"@, "visible"@, "enabled"@, "disabled"@, "width"@, "height"@]),
        ("Menu"@, seq!["id"@, "text"@, "visible"@, "enabled"@, "disabled"@]),
        ("MenuItem"@, seq!["id"@, "text"@, "visible"@, "enabled"@, "disabled"@]),
        ("Label"@, seq!["id"@, "text"@, "for"@, "visible"@, "enabled"@, "disabled"@, "width"@, "height"@]),
        ("Text"@, seq!["id"@, "value"@, "multiline"@, "readonly"@, "wrap"@, "visible"@, "enabled"@, "disabled"@, "width"@, "height"@]),
        ("RichText"@, seq!["id"@, "value"@, "format"@, "multiline"@, "readonly"@, "visible"@, "enabled"@, "disabled"@, "width"@, "height"@]),
        ("Image"@, seq!["id"@, "src"@, "alt"@, "fit"@, "visible"@, "enabled"@, "disabled"@, "width"@, "height"@]),
        ("Input"@, seq!["id"@, "value"@, "placeholder"@, "multiline"@, "readonly"@, "password"@, "required"@, "visible"@, "enabled"@, "disabled"@, "width"@, "height"@]),
        ("DatePicker"@, seq!["id"@, "value"@, "min"@, "max"@, "first_day_of_week"@, "visible"@, "enabled"@, "disabled"@, "width"@, "height"@]),
        ("Checkbox"@, seq!["id"@, "label"@, "checked"@, "indeterminate"@, "visible"@, "enabled"@, "disabled"@, "width"@, "height"@]),
        ("Radio"@, seq!["id"@, "label"@, "value"@, "group"@, "checked"@, "visible"@, "enabled"@, "disabled"@, "width"@, "height"@]),
        ("RadioGroup"@, seq!["id"@, "name"@, "value"@, "visible"@, "enabled"@, "disabled"@, "width"@, "height"@]),
        ("Select"@, seq!["id"@, "value"@, "multiple"@, "visible"@, "enabled"@, "disabled"@, "width"@, "height"@]),
        ("Button"@, seq!["id"@, "text"@, "variant"@, "visible"@, "enabled"@, "disabled"@, "width"@, "height"@]),
        ("Separator"@, seq!["id"@, "orientation"@, "visible"@, "enabled"@, "disabled"@, "width"@, "height"@]),
        ("Slider"@, seq!["id"@, "value"@, "min"@, "max"@, "step"@, "orientation"@, "readonly"@, "visible"@, "enabled"@, "disabled"@, "width"@, "height"@]),
        ("Progress"@, seq!["id"@, "value"@, "min"@, "max"@, "indeterminate"@, "show_text"@, "visible"@, "enabled"@, "disabled"@, "width"@, "height"@]),
        ("Tabs"@, seq!["id"@, "selected"@, "placement"@, "visible"@, "enabled"@, "disabled"@, "width"@, "height"@]),
        ("Tab"@, seq!["id"@, "title"@, "value"@, "selected"@, "closable"@, "icon"@, "visible"@, "enabled"@, "disabled"@, "width"@, "height"@]),
        ("ListView"@, seq!["id"@, "selected_index"@, "multiple"@, "visible"@, "enabled"@, "disabled"@, "width"@, "height"@]),
        ("TreeView"@, seq!["id"@, "selected_path"@, "multiple"@, "visible"@, "enabled"@, "disabled"@, "width"@, "height"@]),
    ]
}

/// The attributes that an element not in the table accepts.
pub open spec fn fallback_attrs() -> Seq<Seq<char>> {
    seq!["id"@, "visible"@, "enabled"@, "disabled"@]
}

/// The attribute list of the first entry of `table` named `tag`, if any.
pub open spec fn table_attrs(table: Seq<(Seq<char>, Seq<Seq<char>>)>, tag: Seq<char>) -> Option<
    Seq<Seq<char>>,
>
    decreases table.len(),
{
    if table.len() == 0 {
        None
    } else if table[0].0 == tag {
        Some(table[0].1)
    } else {
        table_attrs(table.drop_first(), tag)
    }
}

/// The attributes that an element with tag `tag` accepts.
pub open spec fn allowed_attrs(tag: Seq<char>) -> Seq<Seq<char>> {
    match table_attrs(element_table(), tag) {
        Some(attrs) => attrs,
        None => fallback_attrs(),
    }
}

/// Whether `tag` names an element of the table.
pub open spec fn is_known_element(tag: Seq<char>) -> bool {
    table_attrs(element_table(), tag) is Some
}

/// The elements of Zuzu GUI XML and the attributes each accepts.
pub fn element_specs() -> (r: Vec<ElementSpec>)
    ensures
        catalog_view(r@) == element_table(),
{
    let r = vec![
        ElementSpec {
            name: "Window",
            attrs: &["id", "title", "width", "height", "resizable", "modal", "visible", "enabled", "disabled"],
        },
        ElementSpec {
            name: "VBox",
            attrs: &["id", "align", "gap", "padding", "visible", "enabled", "disabled", "width", "height"],
        },
        ElementSpec {
            name: "HBox",
            attrs: &["id", "align", "gap", "padding", "visible", "enabled", "disabled", "width", "height"],
        },
        ElementSpec {
            name: "Frame",
            attrs: &["id", "label", "collapsible", "collapsed", "visible", "enabled", "disabled", "width", "height"],
        },
        ElementSpec {
            name: "Menu",
            attrs: &["id", "text", "visible", "enabled", "disabled"],
        },
        ElementSpec {
            name: "MenuItem",
            attrs: &["id", "text", "visible", "enabled", "disabled"],
        },
        ElementSpec {
            name: "Label",
            attrs: &["id", "text", "for", "visible", "enabled", "disabled", "width", "height"],
        },
        ElementSpec {
            name: "Text",
            attrs: &["id", "value", "multiline", "readonly", "wrap", "visible", "enabled", "disabled", "width", "height"],
        },
        ElementSpec {
            name: "RichText",
            attrs: &["id", "value", "format", "multiline", "readonly", "visible", "enabled", "disabled", "width", "height"],
        },
        ElementSpec {
            name: "Image",
            attrs: &["id", "src", "alt", "fit", "visible", "enabled", "disabled", "width", "height"],
        },
        ElementSpec {
            name: "Input",
            attrs: &["id", "value", "placeholder", "multiline", "readonly", "password", "required", "visible", "enabled", "disabled", "width", "height"],
        },
        ElementSpec {
            name: "DatePicker",
            attrs: &["id", "value", "min", "max", "first_day_of_week", "visible", "enabled", "disabled", "width", "height"],
        },
        ElementSpec {
            name: "Checkbox",
            attrs: &["id", "label", "checked", "indeterminate", "visible", "enabled", "disabled", "width", "height"],
        },
        ElementSpec {
            name: "Radio",
            attrs: &["id", "label", "value", "group", "checked", "visible", "enabled", "disabled", "width", "height"],
        },
        ElementSpec {
            name: "RadioGroup",
            attrs: &["id", "name", "value", "visible", "enabled", "disabled", "width", "height"],
        },
        ElementSpec {
            name: "Select",
            attrs: &["id", "value", "multiple", "visible", "enabled", "disabled", "width", "height"],
        },
        ElementSpec {
            name: "Button",
            attrs: &["id", "text", "variant", "visible", "enabled", "disabled", "width", "height"],
        },
        ElementSpec {
            name: "Separator",
            attrs: &["id", "orientation", "visible", "enabled", "disabled", "width", "height"],
        },
        ElementSpec {
            name: "Slider",
            attrs: &["id", "value", "min", "max", "step", "orientation", "readonly", "visible", "enabled", "disabled", "width", "height"],
        },
        ElementSpec {
            name: "Progress",
            attrs: &["id", "value", "min", "max", "indeterminate", "show_text", "visible", "enabled", "disabled", "width", "height"],
        },
        ElementSpec {
            name: "Tabs",
            attrs: &["id", "selected", "placement", "visible", "enabled", "disabled", "width", "height"],
        },
        ElementSpec {
            name: "Tab",
            attrs: &["id", "title", "value", "selected", "closable", "icon", "visible", "enabled", "disabled", "width", "height"],
        },
        ElementSpec {
            name: "ListView",
            attrs: &["id", "selected_index", "multiple", "visible", "enabled", "disabled", "width", "height"],
        },
        ElementSpec {
            name: "TreeView",
            attrs: &["id", "selected_path", "multiple", "visible", "enabled", "disabled", "width", "height"],
        },
    ];
    assert(catalog_view(r@) =~~= element_table());
    r
}

/// Looking past an entry of another name finds the same attribute list.
proof fn lemma_table_attrs_step(table: Seq<(Seq<char>, Seq<Seq<char>>)>, i: int, tag: Seq<char>)
    requires
        0 <= i < table.len(),
        table[i].0 != tag,
    ensures
        table_attrs(table.skip(i), tag) == table_attrs(table.skip(i + 1), tag),
{
    assert(table.skip(i).drop_first() =~= table.skip(i + 1));
}

/// The attributes that an element with tag `tag` accepts.
pub fn attrs_for(tag: &str) -> (r: &'static [&'static str])
    ensures
        r@.map_values(|a: &str| a@) == allowed_attrs(tag@),
{
    let specs = element_specs();
    let ghost table = element_table();
    let mut i: usize = 0;
    assert(table.skip(0) =~= table);
    while i < specs.len()
        invariant
            i <= specs.len(),
            catalog_view(specs@) == table,
            table == element_table(),
            table_attrs(table, tag@) == table_attrs(table.skip(i as int), tag@),
        decreases specs.len() - i,
    {
        assert(table[i as int] == (specs@[i as int].name@, specs@[i as int].attrs@.map_values(|a: &str| a@)));
        if same_text(specs[i].name, tag) {
            assert(table.skip(i as int)[0] == table[i as int]);
            return specs[i].attrs;
        }
        proof {
            lemma_table_attrs_step(table, i as int, tag@);
        }
        i = i + 1;
    }
    assert(table.skip(i as int).len() == 0);
    let fallback: &'static [&'static str] = &["id", "visible", "enabled", "disabled"];
    assert(fallback@.map_values(|a: &str| a@) =~= fallback_attrs());
    fallback
}

/// Whether `tag` names an element of Zuzu GUI XML.
pub fn is_supported_element(tag: &str) -> (r: bool)
    ensures
        r == is_known_element(tag@),
{
    let specs = element_specs();
    let ghost table = element_table();
    let mut i: usize = 0;
    assert(table.skip(0) =~= table);
    while i < specs.len()
        invariant
            i <= specs.len(),
            catalog_view(specs@) == table,
            table == element_table(),
            table_attrs(table, tag@) == table_attrs(table.skip(i as int), tag@),
        decreases specs.len() - i,
    {
        assert(table[i as int].0 == specs@[i as int].name@);
        if same_text(specs[i].name, tag) {
            assert(table.skip(i as int)[0] == table[i as int]);
            return true;
        }
        proof {
            lemma_table_attrs_step(table, i as int, tag@);
        }
        i = i + 1;
    }
    assert(table.skip(i as int).len() == 0);
    false
}

/// The names of the elements, in the order of the table.
pub fn element_names() -> (r: Vec<&'static str>)
    ensures
        r@.map_values(|n: &str| n@) == element_table().map_values(
            |e: (Seq<char>, Seq<Seq<char>>)| e.0,
        ),
{
    let specs = element_specs();
    let mut names: Vec<&'static str> = Vec::new();
    let mut i: usize = 0;
    while i < specs.len()
        invariant
            i <= specs.len(),
            catalog_view(specs@) == element_table(),
            names@.map_values(|n: &str| n@) == element_table().take(i as int).map_values(
                |e: (Seq<char>, Seq<Seq<char>>)| e.0,
            ),
        decreases specs.len() - i,
    {
        assert(element_table()[i as int].0 == specs@[i as int].name@);
        let ghost before = names@;
        names.push(specs[i].name);
        assert(names@ == before.push(specs@[i as int].name));
        assert(before.map_values(|n: &str| n@).len() == i);
        assert forall|k: int| 0 <= k <= i implies #[trigger] names@[k]@ == element_table()[k].0 by {
            if k < i {
                assert(names@[k] == before[k]);
                assert(before.map_values(|n: &str| n@)[k] == element_table().take(i as int).map_values(
                    |e: (Seq<char>, Seq<Seq<char>>)| e.0)[k]);
            }
        }
        assert(names@.map_values(|n: &str| n@) =~= element_table().take(i + 1).map_values(
            |e: (Seq<char>, Seq<Seq<char>>)| e.0,
        ));
        i = i + 1;
    }
    assert(element_table().take(i as int) =~= element_table());
    names
}

/// The attributes, in the order they are stored, that a new element with
/// tag `tag` starts with.
pub open spec fn initial_props(tag: Seq<char>) -> Seq<(Seq<char>, Seq<char>)> {
    if tag == "Window"@ {
        seq![("title"@, "Untitled Window"@), ("width"@, "800"@), ("height"@, "600"@)]
    } else if tag == "VBox"@ || tag == "HBox"@ {
        seq![("gap"@, "6"@), ("padding"@, "8"@)]
    } else if tag == "Frame"@ {
        seq![("label"@, "Frame"@)]
    } else if tag == "Label"@ {
        seq![("text"@, "Label"@)]
    } else if tag == "Text"@ || tag == "RichText"@ {
        seq![("value"@, "Text"@)]
    } else if tag == "Image"@ {
        seq![("alt"@, "Image"@)]
    } else if tag == "Input"@ {
        seq![("placeholder"@, "Input"@)]
    } else if tag == "DatePicker"@ {
        seq![("value"@, "2026-04-27"@)]
    } else if tag == "Checkbox"@ || tag == "Radio"@ {
        seq![("label"@, tag)]
    } else if tag == "RadioGroup"@ {
        seq![("name"@, "choice"@)]
    } else if tag == "Menu"@ {
        seq![("text"@, "Menu"@)]
    } else if tag == "MenuItem"@ {
        seq![("text"@, "Item"@)]
    } else if tag == "Button"@ {
        seq![("text"@, "Button"@)]
    } else if tag == "Slider"@ || tag == "Progress"@ {
        seq![("value"@, "50"@)]
    } else if tag == "Tabs"@ {
        seq![("selected"@, "tab1"@)]
    } else if tag == "Tab"@ {
        seq![("title"@, "Tab"@), ("value"@, "tab1"@)]
    } else {
        Seq::empty()
    }
}

/// Stores the attributes that a new element of its tag starts with.
pub fn apply_initial_props(node: &mut Element)
    ensures
        final(node)@ == (ElementView { props: final(node)@.props, ..old(node)@ }),
        final(node)@.props == insert_all(old(node)@.props, initial_props(old(node)@.tag)),
        names_ascend(final(node)@.props),
{
    proof {
        use_type_invariant(&node.props);
    }
    let ghost start = node@;
    let tag = node.tag.as_str();
    if same_text(tag, "Window") {
        node.props.insert("title".to_owned(), "Untitled Window".to_owned());
        node.props.insert("width".to_owned(), "800".to_owned());
        node.props.insert("height".to_owned(), "600".to_owned());
    } else if same_text(tag, "VBox") || same_text(tag, "HBox") {
        node.props.insert("gap".to_owned(), "6".to_owned());
        node.props.insert("padding".to_owned(), "8".to_owned());
    } else if same_text(tag, "Frame") {
        node.props.insert("label".to_owned(), "Frame".to_owned());
    } else if same_text(tag, "Label") {
        node.props.insert("text".to_owned(), "Label".to_owned());
    } else if same_text(tag, "Text") || same_text(tag, "RichText") {
        node.props.insert("value".to_owned(), "Text".to_owned());
    } else if same_text(tag, "Image") {
        node.props.insert("alt".to_owned(), "Image".to_owned());
    } else if same_text(tag, "Input") {
        node.props.insert("placeholder".to_owned(), "Input".to_owned());
    } else if same_text(tag, "DatePicker") {
        node.props.insert("value".to_owned(), "2026-04-27".to_owned());
    } else if same_text(tag, "Checkbox") || same_text(tag, "Radio") {
        let label = node.tag.clone();
        node.props.insert("label".to_owned(), label);
    } else if same_text(tag, "RadioGroup") {
        node.props.insert("name".to_owned(), "choice".to_owned());
    } else if same_text(tag, "Menu") {
        node.props.insert("text".to_owned(), "Menu".to_owned());
    } else if same_text(tag, "MenuItem") {
        node.props.insert("text".to_owned(), "Item".to_owned());
    } else if same_text(tag, "Button") {
        node.props.insert("text".to_owned(), "Button".to_owned());
    } else if same_text(tag, "Slider") || same_text(tag, "Progress") {
        node.props.insert("value".to_owned(), "50".to_owned());
    } else if same_text(tag, "Tabs") {
        node.props.insert("selected".to_owned(), "tab1".to_owned());
    } else if same_text(tag, "Tab") {
        node.props.insert("title".to_owned(), "Tab".to_owned());
        node.props.insert("value".to_owned(), "tab1".to_owned());
    }
    proof {
        use_type_invariant(&node.props);
        lemma_insert_all_short(start.props, initial_props(start.tag));
    }
}

/// The first entry of `table` named `tag` gives its attribute list.
proof fn lemma_table_index(table: Seq<(Seq<char>, Seq<Seq<char>>)>, i: int, tag: Seq<char>)
    requires
        0 <= i < table.len(),
        table[i].0 == tag,
        forall|j: int| 0 <= j < i ==> #[trigger] table[j].0 != tag,
    ensures
        table_attrs(table, tag) == Some(table[i].1),
    decreases i,
{
    if i > 0 {
        let rest = table.drop_first();
        assert forall|j: int| 0 <= j < i - 1 implies #[trigger] rest[j].0 != tag by {
            assert(rest[j] == table[j + 1]);
        }
        lemma_table_index(rest, i - 1, tag);
        assert(table[0].0 != tag);
    }
}

/// The names of the table, told apart by their lengths and first two
/// characters.
proof fn lemma_table_names()
    ensures
        "Window"@.len() == 6 && "Window"@[0] == 'W' && "Window"@[1] == 'i',
        "VBox"@.len() == 4 && "VBox"@[0] == 'V' && "VBox"@[1] == 'B',
        "HBox"@.len() == 4 && "HBox"@[0] == 'H' && "HBox"@[1] == 'B',
        "Frame"@.len() == 5 && "Frame"@[0] == 'F' && "Frame"@[1] == 'r',
        "Menu"@.len() == 4 && "Menu"@[0] == 'M' && "Menu"@[1] == 'e',
        "MenuItem"@.len() == 8 && "MenuItem"@[0] == 'M' && "MenuItem"@[1] == 'e',
        "Label"@.len() == 5 && "Label"@[0] == 'L' && "Label"@[1] == 'a',
        "Text"@.len() == 4 && "Text"@[0] == 'T' && "Text"@[1] == 'e',
        "RichText"@.len() == 8 && "RichText"@[0] == 'R' && "RichText"@[1] == 'i',
        "Image"@.len() == 5 && "Image"@[0] == 'I' && "Image"@[1] == 'm',
        "Input"@.len() == 5 && "Input"@[0] == 'I' && "Input"@[1] == 'n',
        "DatePicker"@.len() == 10 && "DatePicker"@[0] == 'D' && "DatePicker"@[1] == 'a',
        "Checkbox"@.len() == 8 && "Checkbox"@[0] == 'C' && "Checkbox"@[1] == 'h',
        "Radio"@.len() == 5 && "Radio"@[0] == 'R' && "Radio"@[1] == 'a',
        "RadioGroup"@.len() == 10 && "RadioGroup"@[0] == 'R' && "RadioGroup"@[1] == 'a',
        "Select"@.len() == 6 && "Select"@[0] == 'S' && "Select"@[1] == 'e',
        "Button"@.len() == 6 && "Button"@[0] == 'B' && "Button"@[1] == 'u',
        "Separator"@.len() == 9 && "Separator"@[0] == 'S' && "Separator"@[1] == 'e',
        "Slider"@.len() == 6 && "Slider"@[0] == 'S' && "Slider"@[1] == 'l',
        "Progress"@.len() == 8 && "Progress"@[0] == 'P' && "Progress"@[1] == 'r',
        "Tabs"@.len() == 4 && "Tabs"@[0] == 'T' && "Tabs"@[1] == 'a',
        "Tab"@.len() == 3 && "Tab"@[0] == 'T' && "Tab"@[1] == 'a',
        "ListView"@.len() == 8 && "ListView"@[0] == 'L' && "ListView"@[1] == 'i',
        "TreeView"@.len() == 8 && "TreeView"@[0] == 'T' && "TreeView"@[1] == 'r',
{
    reveal_strlit("Window");
    reveal_strlit("VBox");
    reveal_strlit("HBox");
    reveal_strlit("Frame");
    reveal_strlit("Menu");
    reveal_strlit("MenuItem");
    reveal_strlit("Label");
    reveal_strlit("Text");
    reveal_strlit("RichText");
    reveal_strlit("Image");
    reveal_strlit("Input");
    reveal_strlit("DatePicker");
    reveal_strlit("Checkbox");
    reveal_strlit("Radio");
    reveal_strlit("RadioGroup");
    reveal_strlit("Select");
    reveal_strlit("Button");
    reveal_strlit("Separator");
    reveal_strlit("Slider");
    reveal_strlit("Progress");
    reveal_strlit("Tabs");
    reveal_strlit("Tab");
    reveal_strlit("ListView");
    reveal_strlit("TreeView");
}

/// Each element of the table is known and accepts the attributes listed
/// with it: no two entries share a name.
proof fn lemma_table_entry(i: int)
    requires
        0 <= i < element_table().len(),
    ensures
        is_known_element(element_table()[i].0),
        allowed_attrs(element_table()[i].0) == element_table()[i].1,
{
    lemma_table_names();
    let t = element_table();
    assert forall|j: int| 0 <= j < i implies #[trigger] t[j].0 != t[i].0 by {
        if i == 1 {
            if j == 0 {}
        } else if i == 2 {
            if j == 0 {} else if j == 1 {}
        } else if i == 3 {
            if j == 0 {} else if j == 1 {} else if j == 2 {}
        } else if i == 4 {
            if j == 0 {} else if j == 1 {} else if j == 2 {} else if j == 3 {}
        } else if i == 5 {
            if j == 0 {} else if j == 1 {} else if j == 2 {} else if j == 3 {} else if j == 4 {}
        } else if i == 6 {
            if j == 0 {} else if j == 1 {} else if j == 2 {} else if j == 3 {} else if j == 4 {} else if j == 5 {}
        } else if i == 7 {
            if j == 0 {} else if j == 1 {} else if j == 2 {} else if j == 3 {} else if j == 4 {} else if j == 5 {} else if j == 6 {}
        } else if i == 8 {
            if j == 0 {} else if j == 1 {} else if j == 2 {} else if j == 3 {} else if j == 4 {} else if j == 5 {} else if j == 6 {} else if j == 7 {}
        } else if i == 9 {
            if j == 0 {} else if j == 1 {} else if j == 2 {} else if j == 3 {} else if j == 4 {} else if j == 5 {} else if j == 6 {} else if j == 7 {} else if j == 8 {}
        } else if i == 10 {
            if j == 0 {} else if j == 1 {} else if j == 2 {} else if j == 3 {} else if j == 4 {} else if j == 5 {} else if j == 6 {} else if j == 7 {} else if j == 8 {} else if j == 9 {}
        } else if i == 11 {
            if j == 0 {} else if j == 1 {} else if j == 2 {} else if j == 3 {} else if j == 4 {} else if j == 5 {} else if j == 6 {} else if j == 7 {} else if j == 8 {} else if j == 9 {} else if j == 10 {}
        } else if i == 12 {
            if j == 0 {} else if j == 1 {} else if j == 2 {} else if j == 3 {} else if j == 4 {} else if j == 5 {} else if j == 6 {} else if j == 7 {} else if j == 8 {} else if j == 9 {} else if j == 10 {} else if j == 11 {}
        } else if i == 13 {
            if j == 0 {} else if j == 1 {} else if j == 2 {} else if j == 3 {} else if j == 4 {} else if j == 5 {} else if j == 6 {} else if j == 7 {} else if j == 8 {} else if j == 9 {} else if j == 10 {} else if j == 11 {} else if j == 12 {}
        } else if i == 14 {
            if j == 0 {} else if j == 1 {} else if j == 2 {} else if j == 3 {} else if j == 4 {} else if j == 5 {} else if j == 6 {} else if j == 7 {} else if j == 8 {} else if j == 9 {} else if j == 10 {} else if j == 11 {} else if j == 12 {} else if j == 13 {}
        } else if i == 15 {
            if j == 0 {} else if j == 1 {} else if j == 2 {} else if j == 3 {} else if j == 4 {} else if j == 5 {} else if j == 6 {} else if j == 7 {} else if j == 8 {} else if j == 9 {} else if j == 10 {} else if j == 11 {} else if j == 12 {} else if j == 13 {} else if j == 14 {}
        } else if i == 16 {
            if j == 0 {} else if j == 1 {} else if j == 2 {} else if j == 3 {} else if j == 4 {} else if j == 5 {} else if j == 6 {} else if j == 7 {} else if j == 8 {} else if j == 9 {} else if j == 10 {} else if j == 11 {} else if j == 12 {} else if j == 13 {} else if j == 14 {} else if j == 15 {}
        } else if i == 17 {
            if j == 0 {} else if j == 1 {} else if j == 2 {} else if j == 3 {} else if j == 4 {} else if j == 5 {} else if j == 6 {} else if j == 7 {} else if j == 8 {} else if j == 9 {} else if j == 10 {} else if j == 11 {} else if j == 12 {} else if j == 13 {} else if j == 14 {} else if j == 15 {} else if j == 16 {}
        } else if i == 18 {
            if j == 0 {} else if j == 1 {} else if j == 2 {} else if j == 3 {} else if j == 4 {} else if j == 5 {} else if j == 6 {} else if j == 7 {} else if j == 8 {} else if j == 9 {} else if j == 10 {} else if j == 11 {} else if j == 12 {} else if j == 13 {} else if j == 14 {} else if j == 15 {} else if j == 16 {} else if j == 17 {}
        } else if i == 19 {
            if j == 0 {} else if j == 1 {} else if j == 2 {} else if j == 3 {} else if j == 4 {} else if j == 5 {} else if j == 6 {} else if j == 7 {} else if j == 8 {} else if j == 9 {} else if j == 10 {} else if j == 11 {} else if j == 12 {} else if j == 13 {} else if j == 14 {} else if j == 15 {} else if j == 16 {} else if j == 17 {} else if j == 18 {}
        } else if i == 20 {
            if j == 0 {} else if j == 1 {} else if j == 2 {} else if j == 3 {} else if j == 4 {} else if j == 5 {} else if j == 6 {} else if j == 7 {} else if j == 8 {} else if j == 9 {} else if j == 10 {} else if j == 11 {} else if j == 12 {} else if j == 13 {} else if j == 14 {} else if j == 15 {} else if j == 16 {} else if j == 17 {} else if j == 18 {} else if j == 19 {}
        } else if i == 21 {
            if j == 0 {} else if j == 1 {} else if j == 2 {} else if j == 3 {} else if j == 4 {} else if j == 5 {} else if j == 6 {} else if j == 7 {} else if j == 8 {} else if j == 9 {} else if j == 10 {} else if j == 11 {} else if j == 12 {} else if j == 13 {} else if j == 14 {} else if j == 15 {} else if j == 16 {} else if j == 17 {} else if j == 18 {} else if j == 19 {} else if j == 20 {}
        } else if i == 22 {
            if j == 0 {} else if j == 1 {} else if j == 2 {} else if j == 3 {} else if j == 4 {} else if j == 5 {} else if j == 6 {} else if j == 7 {} else if j == 8 {} else if j == 9 {} else if j == 10 {} else if j == 11 {} else if j == 12 {} else if j == 13 {} else if j == 14 {} else if j == 15 {} else if j == 16 {} else if j == 17 {} else if j == 18 {} else if j == 19 {} else if j == 20 {} else if j == 21 {}
        } else if i == 23 {
            if j == 0 {} else if j == 1 {} else if j == 2 {} else if j == 3 {} else if j == 4 {} else if j == 5 {} else if j == 6 {} else if j == 7 {} else if j == 8 {} else if j == 9 {} else if j == 10 {} else if j == 11 {} else if j == 12 {} else if j == 13 {} else if j == 14 {} else if j == 15 {} else if j == 16 {} else if j == 17 {} else if j == 18 {} else if j == 19 {} else if j == 20 {} else if j == 21 {} else if j == 22 {}
        }
    }
    lemma_table_index(t, i, t[i].0);
}

/// Every attribute that a new element starts with is one that its tag
/// accepts, so the edit form shows it and reading it back accepts it.
pub proof fn initial_attributes_accepted(tag: Seq<char>)
    ensures
        forall|k: int|
            0 <= k < initial_props(tag).len() ==> allowed_attrs(tag).contains(
                #[trigger] initial_props(tag)[k].0,
            ),
{
    lemma_table_names();
    let t = element_table();
    let props = initial_props(tag);
    let allowed = allowed_attrs(tag);
    if tag == "Window"@ {
        lemma_table_entry(0);
        assert(allowed[1] == props[0].0 && allowed[2] == props[1].0 && allowed[3] == props[2].0);
    } else if tag == "VBox"@ {
        lemma_table_entry(1);
        assert(allowed[2] == props[0].0 && allowed[3] == props[1].0);
    } else if tag == "HBox"@ {
        lemma_table_entry(2);
        assert(allowed[2] == props[0].0 && allowed[3] == props[1].0);
    } else if tag == "Frame"@ {
        lemma_table_entry(3);
        assert(allowed[1] == props[0].0);
    } else if tag == "Label"@ {
        lemma_table_entry(6);
        assert(allowed[1] == props[0].0);
    } else if tag == "Text"@ {
        lemma_table_entry(7);
        assert(allowed[1] == props[0].0);
    } else if tag == "RichText"@ {
        lemma_table_entry(8);
        assert(allowed[1] == props[0].0);
    } else if tag == "Image"@ {
        lemma_table_entry(9);
        assert(allowed[2] == props[0].0);
    } else if tag == "Input"@ {
        lemma_table_entry(10);
        assert(allowed[2] == props[0].0);
    } else if tag == "DatePicker"@ {
        lemma_table_entry(11);
        assert(allowed[1] == props[0].0);
    } else if tag == "Checkbox"@ {
        lemma_table_entry(12);
        assert(allowed[1] == props[0].0);
    } else if tag == "Radio"@ {
        lemma_table_entry(13);
        assert(allowed[1] == props[0].0);
    } else if tag == "RadioGroup"@ {
        lemma_table_entry(14);
        assert(allowed[1] == props[0].0);
    } else if tag == "Menu"@ {
        lemma_table_entry(4);
        assert(allowed[1] == props[0].0);
    } else if tag == "MenuItem"@ {
        lemma_table_entry(5);
        assert(allowed[1] == props[0].0);
    } else if tag == "Button"@ {
        lemma_table_entry(16);
        assert(allowed[1] == props[0].0);
    } else if tag == "Slider"@ {
        lemma_table_entry(18);
        assert(allowed[1] == props[0].0);
    } else if tag == "Progress"@ {
        lemma_table_entry(19);
        assert(allowed[1] == props[0].0);
    } else if tag == "Tabs"@ {
        lemma_table_entry(20);
        assert(allowed[1] == props[0].0);
    } else if tag == "Tab"@ {
        lemma_table_entry(21);
        assert(allowed[1] == props[0].0 && allowed[2] == props[1].0);
    }
}

} // verus!
