//! What reading back written XML gives: the XML element tree that the
//! writer's text describes, checked and converted, is the element tree that
//! was written, with its identifiers renumbered in document order.

use vstd::prelude::*;

use crate::catalog::{allowed_attrs, is_known_element};
use crate::document::{doc_wf, DocumentView};
use crate::element::{
    count, count_all, id_range, ids, ids_all, lemma_renumbered_ids, lemma_renumbered_twice,
    max_in, node_at, renumbered, renumbered_all, valid_path, ElementView,
};
use crate::props::{
    last_value, lemma_insert_all_ascending, lemma_insert_all_lookup, lookup, names_ascend,
};
use crate::text::has_prefix;
use crate::xml_read::{
    attribute_error, is_namespace_declaration, parse_children, parse_element, stored_attributes,
    XmlAttributeView, XmlElementView,
};
use crate::xml_write::GUI_XML_NS;

verus! {

/// The attributes of a start tag as an XML parser reads them back: each
/// entry as an attribute without a namespace.
pub open spec fn written_attributes(props: Seq<(Seq<char>, Seq<char>)>) -> Seq<XmlAttributeView> {
    props.map_values(
        |pr: (Seq<char>, Seq<char>)| XmlAttributeView { namespace: None, name: pr.0, value: pr.1 },
    )
}

/// The XML element tree of the text that `node_xml(e, 0)` writes, as an XML
/// parser reads it: the outermost start tag declares the Zuzu GUI namespace
/// as the default one, so every element is in it; each element has the
/// attributes of its entries, whose escaped values read back as written
/// (`lemma_unescape_escaped`), where the values hold no tab, line feed or
/// carriage return, which a parser reads as spaces.
pub open spec fn written_tree(e: ElementView) -> XmlElementView
    decreases e,
{
    XmlElementView {
        namespace: Some(GUI_XML_NS@),
        name: e.tag,
        attributes: written_attributes(e.props),
        children: written_all(e.children),
    }
}

/// The XML element trees of the elements of `s`, in order.
pub open spec fn written_all(s: Seq<ElementView>) -> Seq<XmlElementView>
    decreases s,
{
    if s.len() == 0 {
        Seq::empty()
    } else {
        written_all(s.drop_last()).push(written_tree(s.last()))
    }
}

/// Whether an element with tag `tag` may carry an attribute named `name`
/// when read back: the name declares no namespace, and it starts with
/// `meta.` or the tag accepts it.
pub open spec fn accepted_name(tag: Seq<char>, name: Seq<char>) -> bool {
    &&& !is_namespace_declaration(name)
    &&& has_prefix(name, "meta."@) || allowed_attrs(tag).contains(name)
}

/// Whether every attribute name in `props` is accepted for `tag`.
pub open spec fn props_accepted(tag: Seq<char>, props: Seq<(Seq<char>, Seq<char>)>) -> bool {
    forall|i: int| 0 <= i < props.len() ==> accepted_name(tag, #[trigger] props[i].0)
}

/// Whether the tree of `e` reads back: every tag is known, and every
/// element's attribute names ascend and are accepted for its tag.
pub open spec fn writable(e: ElementView) -> bool
    decreases e,
{
    &&& is_known_element(e.tag)
    &&& names_ascend(e.props)
    &&& props_accepted(e.tag, e.props)
    &&& writable_all(e.children)
}

/// Whether the trees of all elements of `s` read back.
pub open spec fn writable_all(s: Seq<ElementView>) -> bool
    decreases s,
{
    s.len() == 0 || (writable_all(s.drop_last()) && writable(s.last()))
}

/// Accepted attributes raise no error.
proof fn lemma_written_attributes_accepted(tag: Seq<char>, props: Seq<(Seq<char>, Seq<char>)>)
    requires
        props_accepted(tag, props),
    ensures
        attribute_error(tag, written_attributes(props)) is None,
    decreases props.len(),
{
    if props.len() > 0 {
        let rest = props.drop_first();
        assert(accepted_name(tag, props[0].0));
        assert forall|i: int| 0 <= i < rest.len() implies accepted_name(
            tag,
            #[trigger] rest[i].0,
        ) by {
            assert(rest[i] == props[i + 1]);
        }
        lemma_written_attributes_accepted(tag, rest);
        assert(written_attributes(props).drop_first() =~= written_attributes(rest));
    }
}

/// Attributes that declare no namespace are all stored, in order.
proof fn lemma_written_attributes_stored(tag: Seq<char>, props: Seq<(Seq<char>, Seq<char>)>)
    requires
        props_accepted(tag, props),
    ensures
        stored_attributes(written_attributes(props)) == props,
    decreases props.len(),
{
    if props.len() > 0 {
        let front = props.drop_last();
        assert forall|i: int| 0 <= i < front.len() implies accepted_name(
            tag,
            #[trigger] front[i].0,
        ) by {
            assert(front[i] == props[i]);
        }
        lemma_written_attributes_stored(tag, front);
        assert(written_attributes(props).drop_last() =~= written_attributes(front));
        assert(accepted_name(tag, props[props.len() - 1].0));
        assert(front.push(props.last()) =~= props);
    }
}

/// Reading back the XML element tree that writing `e` gives yields `e` with
/// its elements renumbered from `next` in document order, and hands out one
/// identifier per element.
pub proof fn read_back_written(e: ElementView, next: int)
    requires
        writable(e),
    ensures
        parse_element(written_tree(e), next) == (
            Ok::<ElementView, Seq<char>>(renumbered(e, next)),
            next + count(e),
        ),
    decreases e,
{
    let x = written_tree(e);
    assert(GUI_XML_NS@.len() > 0) by {
        reveal_strlit("https://zuzulang.org/ns/std/gui");
    }
    lemma_written_attributes_accepted(e.tag, e.props);
    lemma_written_attributes_stored(e.tag, e.props);
    lemma_insert_all_ascending(e.props);
    read_back_written_all(e.children, next + 1);
    assert(count(e) == 1 + count_all(e.children));
}

/// Reading back the XML element trees that writing the elements of `s`
/// gives yields them renumbered from `next` in document order.
pub proof fn read_back_written_all(s: Seq<ElementView>, next: int)
    requires
        writable_all(s),
    ensures
        parse_children(written_all(s), next) == (
            Ok::<Seq<ElementView>, Seq<char>>(renumbered_all(s, next)),
            next + count_all(s),
        ),
    decreases s,
{
    if s.len() > 0 {
        let w = written_all(s);
        assert(w.drop_last() =~= written_all(s.drop_last()));
        assert(w.last() == written_tree(s.last()));
        read_back_written_all(s.drop_last(), next);
        read_back_written(s.last(), next + count_all(s.drop_last()));
        assert(ids_all(s).len() == ids_all(s.drop_last()).len() + ids(s.last()).len());
    } else {
        assert(ids_all(s).len() == 0);
    }
}

/// Pasting a widget whose written XML was read back gives the widget with
/// its elements renumbered from the next identifier in document order,
/// whatever numbering reading it back gave.
pub proof fn paste_of_copied_widget(e: ElementView, next: int)
    requires
        writable(e),
    ensures
        parse_element(written_tree(e), 1).0 matches Ok(r) && renumbered(r, next) == renumbered(
            e,
            next,
        ),
{
    read_back_written(e, 1);
    lemma_renumbered_twice(e, 1, next);
}

/// The largest of the identifiers `1..=n` is `n`.
proof fn lemma_max_of_range(n: nat)
    requires
        1 <= n < u32::MAX,
    ensures
        max_in(id_range(1, n), 0) == n,
    decreases n,
{
    let r = id_range(1, n);
    assert(r.last() == r[n - 1]);
    assert(r[n - 1] == n);
    if n == 1 {
        assert(r.drop_last() =~= Seq::<u32>::empty());
        assert(max_in(r.drop_last(), 0) == 0);
    } else {
        assert(r.drop_last() =~= id_range(1, (n - 1) as nat));
        lemma_max_of_range((n - 1) as nat);
    }
    assert(max_in(r.drop_last(), 0) < r.last());
}

/// Opening what saving a well-formed document writes, where the XML
/// parser reads it as written, gives its window with the elements
/// renumbered from 1 in document order, and a next identifier one past
/// the number of elements.
pub proof fn open_after_save(d: DocumentView)
    requires
        doc_wf(d),
        writable(d.root),
        count(d.root) < u32::MAX,
    ensures
        parse_element(written_tree(d.root), 1).0 == Ok::<ElementView, Seq<char>>(
            renumbered(d.root, 1),
        ),
        renumbered(d.root, 1).tag == "Window"@,
        max_in(ids(renumbered(d.root, 1)), 0) + 1 == count(d.root) + 1,
{
    read_back_written(d.root, 1);
    lemma_renumbered_ids(d.root, 1);
    lemma_max_of_range(count(d.root));
}

/// Whether `path`, a list of child positions, leads from the XML element
/// `x` to an element.
pub open spec fn xml_valid_path(x: XmlElementView, path: Seq<int>) -> bool
    decreases path.len(),
{
    path.len() == 0 || (0 <= path[0] < x.children.len() && xml_valid_path(
        x.children[path[0]],
        path.drop_first(),
    ))
}

/// The XML element that `path` leads to from `x`.
pub open spec fn xml_node_at(x: XmlElementView, path: Seq<int>) -> XmlElementView
    decreases path.len(),
{
    if path.len() == 0 {
        x
    } else {
        xml_node_at(x.children[path[0]], path.drop_first())
    }
}

/// The value of the last of `attrs` named `name`, unless that name declares
/// a namespace.
pub open spec fn attribute_value(attrs: Seq<XmlAttributeView>, name: Seq<char>) -> Option<
    Seq<char>,
>
    decreases attrs.len(),
{
    if attrs.len() == 0 {
        None
    } else if attrs.last().name == name && !is_namespace_declaration(name) {
        Some(attrs.last().value)
    } else {
        attribute_value(attrs.drop_last(), name)
    }
}

/// The stored attributes give each name the value of its last attribute.
proof fn lemma_stored_last_value(attrs: Seq<XmlAttributeView>, k: Seq<char>)
    ensures
        last_value(stored_attributes(attrs), k) == attribute_value(attrs, k),
    decreases attrs.len(),
{
    if attrs.len() > 0 {
        lemma_stored_last_value(attrs.drop_last(), k);
        if !is_namespace_declaration(attrs.last().name) {
            let front = stored_attributes(attrs.drop_last());
            let grown = front.push((attrs.last().name, attrs.last().value));
            assert(grown.drop_last() =~= front);
        }
    }
}

/// A successful conversion of a sequence gives one element per XML
/// element, each converted with the identifiers that follow those of the
/// elements before it.
proof fn lemma_parse_children_each(s: Seq<XmlElementView>, next: int)
    ensures
        parse_children(s, next).0 matches Ok(cs) ==> {
            &&& cs.len() == s.len()
            &&& forall|i: int|
                0 <= i < s.len() ==> parse_element(
                    #[trigger] s[i],
                    parse_children(s.take(i), next).1,
                ).0 == Ok::<ElementView, Seq<char>>(cs[i])
        },
    decreases s.len(),
{
    if s.len() > 0 {
        let front = s.drop_last();
        lemma_parse_children_each(front, next);
        if let (Ok(cs), _) = parse_children(s, next) {
            let done = parse_children(front, next).0->Ok_0;
            assert(cs.drop_last() =~= done);
            assert forall|i: int| 0 <= i < s.len() implies parse_element(
                #[trigger] s[i],
                parse_children(s.take(i), next).1,
            ).0 == Ok::<ElementView, Seq<char>>(cs[i]) by {
                if i < s.len() - 1 {
                    assert(s.take(i) =~= front.take(i));
                    assert(s[i] == front[i]);
                    assert(cs[i] == done[i]);
                } else {
                    assert(s.take(i) =~= front);
                }
            }
        }
    }
}

/// Reading XML converts every element, at every depth and whatever
/// identifier it receives, into an element with the same tag and number of
/// children whose attributes are those of the XML element: each name has
/// the value of its last attribute, and declarations of namespaces are left
/// out.
pub proof fn parsed_attributes_at_every_depth(
    x: XmlElementView,
    next: int,
    p: Seq<int>,
    k: Seq<char>,
)
    requires
        xml_valid_path(x, p),
    ensures
        parse_element(x, next).0 matches Ok(e) ==> {
            &&& valid_path(e, p)
            &&& node_at(e, p).tag == xml_node_at(x, p).name
            &&& node_at(e, p).children.len() == xml_node_at(x, p).children.len()
            &&& lookup(node_at(e, p).props, k) == attribute_value(xml_node_at(x, p).attributes, k)
        },
    decreases p.len(),
{
    if let Ok(e) = parse_element(x, next).0 {
        lemma_parse_children_each(x.children, next + 1);
        if p.len() == 0 {
            lemma_insert_all_lookup(stored_attributes(x.attributes));
            lemma_stored_last_value(x.attributes, k);
        } else {
            let i = p[0];
            let m = parse_children(x.children.take(i), next + 1).1;
            parsed_attributes_at_every_depth(x.children[i], m, p.drop_first(), k);
        }
    }
}

} // verus!
