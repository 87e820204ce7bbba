//! Reading Zuzu GUI XML text into an element tree: the XML parser gives the
//! nodes of the document, which are assembled into a tree of XML elements
//! and then checked and converted into designer elements.

use vstd::prelude::*;

use crate::catalog::{allowed_attrs, attrs_for, is_known_element, is_supported_element};
use crate::element::{count, count_all, id_range, ids, ids_all, Element, ElementView};
use crate::props::{insert_all, insert_entry};
use crate::text::{has_prefix, same_text, starts_with_text};
use crate::unique::{lemma_id_range_unique, unique_ids};
use crate::xml_write::GUI_XML_NS;

verus! {

/// An attribute of an XML element as the parser reports it.
pub struct XmlAttribute {
    pub namespace: Option<String>,
    pub name: String,
    pub value: String,
}

/// An attribute as characters.
pub struct XmlAttributeView {
    pub namespace: Option<Seq<char>>,
    pub name: Seq<char>,
    pub value: Seq<char>,
}

/// The characters of an optional string.
pub open spec fn option_view(o: Option<String>) -> Option<Seq<char>> {
    match o {
        Some(s) => Some(s@),
        None => None,
    }
}

impl View for XmlAttribute {
    type V = XmlAttributeView;

    open spec fn view(&self) -> XmlAttributeView {
        XmlAttributeView {
            namespace: option_view(self.namespace),
            name: self.name@,
            value: self.value@,
        }
    }
}

/// One node of a parsed XML document, in document order: its identifier in
/// the document, the identifier of its parent, whether it is an element,
/// and, for an element, its namespace, local name and attributes.
pub struct XmlNodeRecord {
    pub id: u32,
    pub parent: Option<u32>,
    pub is_element: bool,
    pub namespace: Option<String>,
    pub name: String,
    pub attributes: Vec<XmlAttribute>,
}

/// A node record as characters.
pub struct XmlRecordView {
    pub id: u32,
    pub parent: Option<u32>,
    pub is_element: bool,
    pub namespace: Option<Seq<char>>,
    pub name: Seq<char>,
    pub attributes: Seq<XmlAttributeView>,
}

/// The attributes of a sequence as characters.
pub open spec fn attributes_view(a: Seq<XmlAttribute>) -> Seq<XmlAttributeView> {
    a.map_values(|x: XmlAttribute| x@)
}

impl View for XmlNodeRecord {
    type V = XmlRecordView;

    open spec fn view(&self) -> XmlRecordView {
        XmlRecordView {
            id: self.id,
            parent: self.parent,
            is_element: self.is_element,
            namespace: option_view(self.namespace),
            name: self.name@,
            attributes: attributes_view(self.attributes@),
        }
    }
}

/// The records of a sequence as characters.
pub open spec fn records_view(r: Seq<XmlNodeRecord>) -> Seq<XmlRecordView> {
    r.map_values(|x: XmlNodeRecord| x@)
}

/// What the XML parser gives for `text`: the nodes of the root element's
/// tree in document order, or the message of the error it reports.
pub uninterp spec fn xml_document_nodes(text: Seq<char>) -> Result<Seq<XmlRecordView>, Seq<char>>;

/// Parses `xml` with `roxmltree::Document::parse` and lists the root
/// element and its descendants (`Node::descendants`) in document order, each
/// with its identifier, its parent's identifier, whether it is an element,
/// its namespace and local name (`Node::tag_name`) and its attributes
/// (`Node::attributes`); a parse error gives its message (`to_string`).
/// Claimed: the outcome is `xml_document_nodes(xml)`; on success the list
/// starts with the root element and has fewer than `u32::MAX` entries
/// (roxmltree refuses documents of `u32::MAX` nodes or more).
#[verifier::external_body]
fn read_xml_nodes(xml: &str) -> (r: Result<Vec<XmlNodeRecord>, String>)
    ensures
        match r {
            Ok(nodes) => {
                &&& xml_document_nodes(xml@) == Ok::<Seq<XmlRecordView>, Seq<char>>(records_view(nodes@))
                &&& 0 < nodes@.len() < u32::MAX
                &&& nodes@[0].is_element
            },
            Err(message) => xml_document_nodes(xml@) == Err::<Seq<XmlRecordView>, Seq<char>>(message@),
        },
{
    let doc = roxmltree::Document::parse(xml).map_err(|err| err.to_string())?;
    let nodes = doc.root_element().descendants().map(|n| XmlNodeRecord {
        id: n.id().get(),
        parent: n.parent().map(|p| p.id().get()),
        is_element: n.is_element(),
        namespace: n.tag_name().namespace().map(String::from),
        name: n.tag_name().name().to_string(),
        attributes: n.attributes().map(|a| XmlAttribute {
            namespace: a.namespace().map(String::from),
            name: a.name().to_string(),
            value: a.value().to_string(),
        }).collect(),
    }).collect();
    Ok(nodes)
}

/// An XML element with its element children, as the validation reads it.
pub struct XmlElement {
    pub namespace: Option<String>,
    pub name: String,
    pub attributes: Vec<XmlAttribute>,
    pub children: Vec<XmlElement>,
}

/// An XML element as characters.
pub struct XmlElementView {
    pub namespace: Option<Seq<char>>,
    pub name: Seq<char>,
    pub attributes: Seq<XmlAttributeView>,
    pub children: Seq<XmlElementView>,
}

impl XmlElement {
    /// The models of a sequence of XML elements.
    pub open spec fn models(children: Seq<XmlElement>) -> Seq<XmlElementView>
        decreases children,
    {
        Seq::new(
            children.len(),
            |i: int|
                if 0 <= i < children.len() {
                    children[i].model()
                } else {
                    arbitrary()
                },
        )
    }

    /// The model of this XML element.
    pub open spec fn model(self) -> XmlElementView
        decreases self,
    {
        XmlElementView {
            namespace: option_view(self.namespace),
            name: self.name@,
            attributes: attributes_view(self.attributes@),
            children: Self::models(self.children@),
        }
    }
}

impl View for XmlElement {
    type V = XmlElementView;

    open spec fn view(&self) -> XmlElementView {
        self.model()
    }
}

/// The XML element whose node record is at `pos`, with the element children
/// that follow it, and the position after its last descendant.
pub open spec fn tree_at(nodes: Seq<XmlRecordView>, pos: int) -> (XmlElementView, int)
    decreases (nodes.len() - pos) as nat, 1nat,
{
    if 0 <= pos < nodes.len() {
        let r = nodes[pos];
        let (children, next) = children_from(nodes, r.id, pos + 1, Seq::empty());
        (
            XmlElementView {
                namespace: r.namespace,
                name: r.name,
                attributes: r.attributes,
                children: children,
            },
            next,
        )
    } else {
        (arbitrary(), pos)
    }
}

/// The element children, appended to `found`, of the node `parent` whose
/// children start at `pos`: the nodes whose parent is `parent`, each
/// followed by its descendants; nodes other than elements are skipped.
/// Also the position after the last of them.
pub open spec fn children_from(
    nodes: Seq<XmlRecordView>,
    parent: u32,
    pos: int,
    found: Seq<XmlElementView>,
) -> (Seq<XmlElementView>, int)
    decreases (nodes.len() - pos) as nat, 2nat,
{
    if 0 <= pos < nodes.len() && nodes[pos].parent == Some(parent) {
        let (child, next) = tree_at(nodes, pos);
        if pos < next <= nodes.len() {
            children_from(
                nodes,
                parent,
                next,
                if nodes[pos].is_element {
                    found.push(child)
                } else {
                    found
                },
            )
        } else {
            (found, pos)
        }
    } else {
        (found, pos)
    }
}

/// The XML element tree that a list of node records describes, its root
/// being the first record.
pub open spec fn tree_of(nodes: Seq<XmlRecordView>) -> XmlElementView {
    tree_at(nodes, 0).0
}

/// Number of elements in the tree of `x`.
pub open spec fn xml_count(x: XmlElementView) -> nat
    decreases x,
{
    1 + xml_count_all(x.children)
}

/// Number of elements in the trees of `s`.
pub open spec fn xml_count_all(s: Seq<XmlElementView>) -> nat
    decreases s,
{
    if s.len() == 0 {
        0
    } else {
        xml_count_all(s.drop_last()) + xml_count(s.last())
    }
}

/// Assembling a tree consumes at least its own record and at most the rest,
/// and the tree has no more elements than the records it consumed.
pub proof fn lemma_tree_at(nodes: Seq<XmlRecordView>, pos: int)
    requires
        0 <= pos < nodes.len(),
    ensures
        pos < tree_at(nodes, pos).1 <= nodes.len(),
        xml_count(tree_at(nodes, pos).0) <= tree_at(nodes, pos).1 - pos,
    decreases (nodes.len() - pos) as nat, 1nat,
{
    lemma_children_from(nodes, nodes[pos].id, pos + 1, Seq::empty());
}

/// Gathering children moves forward, to at most the end, and adds no more
/// elements than the records it passes.
pub proof fn lemma_children_from(
    nodes: Seq<XmlRecordView>,
    parent: u32,
    pos: int,
    found: Seq<XmlElementView>,
)
    requires
        0 <= pos <= nodes.len(),
    ensures
        pos <= children_from(nodes, parent, pos, found).1 <= nodes.len(),
        xml_count_all(children_from(nodes, parent, pos, found).0) <= xml_count_all(found) + (
        children_from(nodes, parent, pos, found).1 - pos),
    decreases (nodes.len() - pos) as nat, 2nat,
{
    if 0 <= pos < nodes.len() && nodes[pos].parent == Some(parent) {
        lemma_tree_at(nodes, pos);
        let (child, next) = tree_at(nodes, pos);
        let more = if nodes[pos].is_element {
            found.push(child)
        } else {
            found
        };
        if nodes[pos].is_element {
            assert(more.drop_last() =~= found);
        }
        lemma_children_from(nodes, parent, next, more);
    }
}

/// A copy of an optional string.
fn copy_option(o: &Option<String>) -> (r: Option<String>)
    ensures
        option_view(r) == option_view(*o),
{
    match o {
        Some(s) => Some(s.clone()),
        None => None,
    }
}

/// A copy of a list of attributes.
fn copy_attributes(a: &Vec<XmlAttribute>) -> (r: Vec<XmlAttribute>)
    ensures
        attributes_view(r@) == attributes_view(a@),
{
    let mut r: Vec<XmlAttribute> = Vec::new();
    let mut i: usize = 0;
    while i < a.len()
        invariant
            i <= a.len(),
            attributes_view(r@) == attributes_view(a@.take(i as int)),
        decreases a.len() - i,
    {
        let x = &a[i];
        let ghost before = r@;
        r.push(XmlAttribute { namespace: copy_option(&x.namespace), name: x.name.clone(), value: x.value.clone() });
        assert(r@ == before.push(r@.last()));
        assert(r@.last()@ == a@[i as int]@);
        assert(attributes_view(r@) =~= attributes_view(before).push(a@[i as int]@));
        assert(attributes_view(a@.take(i + 1)) =~= attributes_view(a@.take(i as int)).push(a@[i as int]@));
        i = i + 1;
    }
    assert(a@.take(i as int) =~= a@);
    r
}

/// Appending an XML element appends its model.
proof fn lemma_xml_models_push(v: Seq<XmlElement>, x: XmlElement)
    ensures
        XmlElement::models(v.push(x)) == XmlElement::models(v).push(x@),
{
    assert(XmlElement::models(v.push(x)) =~= XmlElement::models(v).push(x@));
}

/// The XML element whose record is `nodes[pos]`, with its element children,
/// and the position after its last descendant.
fn tree_from(nodes: &Vec<XmlNodeRecord>, pos: usize) -> (r: (XmlElement, usize))
    requires
        pos < nodes.len(),
    ensures
        (r.0@, r.1 as int) == tree_at(records_view(nodes@), pos as int),
    decreases nodes.len() - pos, 1nat,
{
    let ghost v = records_view(nodes@);
    let rec = &nodes[pos];
    assert(v[pos as int] == rec@);
    let (children, next) = children_after(nodes, rec.id, pos + 1);
    let x = XmlElement {
        namespace: copy_option(&rec.namespace),
        name: rec.name.clone(),
        attributes: copy_attributes(&rec.attributes),
        children,
    };
    (x, next)
}

/// The element children of the node `parent` whose children start at `pos`,
/// and the position after the last of them.
fn children_after(nodes: &Vec<XmlNodeRecord>, parent: u32, pos: usize) -> (r: (
    Vec<XmlElement>,
    usize,
))
    requires
        pos <= nodes.len(),
    ensures
        (XmlElement::models(r.0@), r.1 as int) == children_from(
            records_view(nodes@),
            parent,
            pos as int,
            Seq::empty(),
        ),
    decreases nodes.len() - pos, 2nat,
{
    let ghost v = records_view(nodes@);
    let mut found: Vec<XmlElement> = Vec::new();
    let mut at = pos;
    assert(XmlElement::models(found@) =~= Seq::<XmlElementView>::empty());
    while at < nodes.len() && nodes[at].parent == Some(parent)
        invariant
            pos <= at <= nodes.len(),
            v == records_view(nodes@),
            children_from(v, parent, pos as int, Seq::empty()) == children_from(
                v,
                parent,
                at as int,
                XmlElement::models(found@),
            ),
        decreases nodes.len() - at,
    {
        assert(v[at as int] == nodes@[at as int]@);
        proof {
            lemma_tree_at(v, at as int);
        }
        let (child, next) = tree_from(nodes, at);
        if nodes[at].is_element {
            proof {
                lemma_xml_models_push(found@, child);
            }
            found.push(child);
        }
        at = next;
    }
    (found, at)
}

/// The XML element tree of the root element of a non-empty node list.
pub fn xml_tree(nodes: &Vec<XmlNodeRecord>) -> (r: XmlElement)
    requires
        nodes.len() > 0,
    ensures
        r@ == tree_of(records_view(nodes@)),
        xml_count(r@) <= nodes.len(),
{
    proof {
        lemma_tree_at(records_view(nodes@), 0);
    }
    tree_from(nodes, 0).0
}

/// The namespace of `x`, empty where it has none.
pub open spec fn namespace_of(x: XmlElementView) -> Seq<char> {
    match x.namespace {
        Some(ns) => ns,
        None => Seq::empty(),
    }
}

/// Whether an attribute name declares a namespace.
pub open spec fn is_namespace_declaration(name: Seq<char>) -> bool {
    name == "xmlns"@ || has_prefix(name, "xmlns:"@)
}

/// The apostrophe, which quotes names in messages.
pub open spec fn apostrophe() -> Seq<char> {
    "'"@
}

/// The message for an element in a foreign namespace.
pub open spec fn namespace_message(ns: Seq<char>) -> Seq<char> {
    "unsupported GUI XML namespace "@ + apostrophe() + ns + apostrophe()
}

/// The message for an element that Zuzu GUI XML does not know.
pub open spec fn element_message(tag: Seq<char>) -> Seq<char> {
    "unsupported GUI XML element "@ + apostrophe() + tag + apostrophe()
}

/// The message for an attribute in a namespace.
pub open spec fn namespaced_attribute_message(tag: Seq<char>, name: Seq<char>) -> Seq<char> {
    tag + " does not accept namespaced XML attribute "@ + apostrophe() + name + apostrophe()
}

/// The message for an attribute that the element does not accept.
pub open spec fn attribute_message(tag: Seq<char>, name: Seq<char>) -> Seq<char> {
    tag + " does not accept XML attribute "@ + apostrophe() + name + apostrophe()
}

/// The first error, in order, among the attributes `attrs` of an element
/// with tag `tag`: a namespaced attribute, or one that is neither a
/// namespace declaration, nor named `meta.` something, nor accepted by the
/// element.
pub open spec fn attribute_error(tag: Seq<char>, attrs: Seq<XmlAttributeView>) -> Option<
    Seq<char>,
>
    decreases attrs.len(),
{
    if attrs.len() == 0 {
        None
    } else if attrs[0].namespace is Some {
        Some(namespaced_attribute_message(tag, attrs[0].name))
    } else if is_namespace_declaration(attrs[0].name) {
        attribute_error(tag, attrs.drop_first())
    } else if !has_prefix(attrs[0].name, "meta."@) && !allowed_attrs(tag).contains(
        attrs[0].name,
    ) {
        Some(attribute_message(tag, attrs[0].name))
    } else {
        attribute_error(tag, attrs.drop_first())
    }
}

/// The names and values of the attributes that are stored, in order: all
/// but namespace declarations.
pub open spec fn stored_attributes(attrs: Seq<XmlAttributeView>) -> Seq<(Seq<char>, Seq<char>)>
    decreases attrs.len(),
{
    if attrs.len() == 0 {
        Seq::empty()
    } else if is_namespace_declaration(attrs.last().name) {
        stored_attributes(attrs.drop_last())
    } else {
        stored_attributes(attrs.drop_last()).push((attrs.last().name, attrs.last().value))
    }
}

/// Checking and converting the XML element `x` whose identifier is to be
/// `next`: the element or the first error, in document order, and the next
/// identifier to hand out.
pub open spec fn parse_element(x: XmlElementView, next: int) -> (Result<ElementView, Seq<char>>, int)
    decreases x,
{
    let ns = namespace_of(x);
    if ns.len() > 0 && ns != GUI_XML_NS@ {
        (Err(namespace_message(ns)), next)
    } else if !is_known_element(x.name) {
        (Err(element_message(x.name)), next)
    } else {
        match attribute_error(x.name, x.attributes) {
            Some(message) => (Err(message), next + 1),
            None => match parse_children(x.children, next + 1) {
                (Ok(children), after) => (
                    Ok(
                        ElementView {
                            id: next as u32,
                            tag: x.name,
                            props: insert_all(Seq::empty(), stored_attributes(x.attributes)),
                            children: children,
                        },
                    ),
                    after,
                ),
                (Err(message), after) => (Err(message), after),
            },
        }
    }
}

/// Checking and converting a sequence of XML elements in order, with
/// identifiers from `next` on.
pub open spec fn parse_children(s: Seq<XmlElementView>, next: int) -> (
    Result<Seq<ElementView>, Seq<char>>,
    int,
)
    decreases s,
{
    if s.len() == 0 {
        (Ok(Seq::empty()), next)
    } else {
        match parse_children(s.drop_last(), next) {
            (Ok(done), after) => match parse_element(s.last(), after) {
                (Ok(e), last) => (Ok(done.push(e)), last),
                (Err(message), last) => (Err(message), last),
            },
            (Err(message), after) => (Err(message), after),
        }
    }
}

/// Converting hands out at most one identifier per element.
pub proof fn lemma_parse_element_bounds(x: XmlElementView, next: int)
    ensures
        next <= parse_element(x, next).1 <= next + xml_count(x),
    decreases x,
{
    lemma_parse_children_bounds(x.children, next + 1);
}

/// Converting a sequence hands out at most one identifier per element.
pub proof fn lemma_parse_children_bounds(s: Seq<XmlElementView>, next: int)
    ensures
        next <= parse_children(s, next).1 <= next + xml_count_all(s),
    decreases s,
{
    if s.len() > 0 {
        lemma_parse_children_bounds(s.drop_last(), next);
        lemma_parse_element_bounds(s.last(), parse_children(s.drop_last(), next).1);
    }
}

/// The elements of a prefix are no more than those of the whole.
pub proof fn lemma_xml_count_prefix(s: Seq<XmlElementView>, k: int)
    requires
        0 <= k < s.len(),
    ensures
        xml_count_all(s.take(k + 1)) == xml_count_all(s.take(k)) + xml_count(s[k]),
        xml_count_all(s.take(k + 1)) <= xml_count_all(s),
    decreases s.len() - k,
{
    assert(s.take(k + 1).drop_last() =~= s.take(k));
    assert(s.take(k + 1).last() == s[k]);
    if k + 1 < s.len() {
        lemma_xml_count_prefix(s, k + 1);
    } else {
        assert(s.take(k + 1) =~= s);
    }
}

/// Once converting a prefix fails, converting the whole fails the same way.
pub proof fn lemma_parse_children_error(s: Seq<XmlElementView>, j: int, next: int)
    requires
        0 <= j <= s.len(),
        parse_children(s.take(j), next).0 is Err,
    ensures
        parse_children(s, next) == parse_children(s.take(j), next),
    decreases s.len() - j,
{
    if j < s.len() {
        assert(s.take(j + 1).drop_last() =~= s.take(j));
        lemma_parse_children_error(s, j + 1, next);
    } else {
        assert(s.take(j) =~= s);
    }
}

/// The outcome of a conversion as characters.
pub open spec fn outcome_view(r: Result<Element, String>) -> Result<ElementView, Seq<char>> {
    match r {
        Ok(e) => Ok(e@),
        Err(m) => Err(m@),
    }
}

/// Whether `name` is one of `list`.
fn contains_name(list: &[&str], name: &str) -> (r: bool)
    ensures
        r == list@.map_values(|a: &str| a@).contains(name@),
{
    let ghost names = list@.map_values(|a: &str| a@);
    let mut i: usize = 0;
    while i < list.len()
        invariant
            i <= list@.len(),
            names == list@.map_values(|a: &str| a@),
            forall|k: int| 0 <= k < i ==> names[k] != name@,
        decreases list.len() - i,
    {
        assert(names[i as int] == list@[i as int]@);
        if same_text(list[i], name) {
            return true;
        }
        i = i + 1;
    }
    false
}

/// A message made of `a`, then `b` between apostrophes.
fn quoted_message(a: &str, b: &str) -> (r: String)
    ensures
        r@ == a@ + apostrophe() + b@ + apostrophe(),
{
    let mut m = String::new();
    m.append(a);
    m.append("'");
    m.append(b);
    m.append("'");
    assert(m@ =~= a@ + apostrophe() + b@ + apostrophe());
    m
}

/// Checks the XML element `node` and its descendants and converts them into
/// designer elements, handing out identifiers from `next_id` in document
/// order. The first error in document order ends the conversion.
pub fn parse_xml_node(node: &XmlElement, next_id: &mut u32) -> (r: Result<Element, String>)
    requires
        *old(next_id) + xml_count(node@) <= u32::MAX,
    ensures
        (outcome_view(r), *final(next_id) as int) == parse_element(node@, *old(next_id) as int),
    decreases node@,
{
    let ns: &str = match &node.namespace {
        Some(n) => n.as_str(),
        None => "",
    };
    assert(ns@ == namespace_of(node@)) by {
        reveal_strlit("");
    }
    if !ns.is_empty() && !same_text(ns, GUI_XML_NS) {
        return Err(quoted_message("unsupported GUI XML namespace ", ns));
    }
    let tag = node.name.as_str();
    if !is_supported_element(tag) {
        return Err(quoted_message("unsupported GUI XML element ", tag));
    }
    let start = *next_id;
    let mut parsed = Element::new(start, tag);
    *next_id = start + 1;
    let allowed = attrs_for(tag);
    let ghost attrs = node@.attributes;
    let mut i: usize = 0;
    assert(attrs.skip(0) =~= attrs);
    assert(attrs.take(0) =~= Seq::<XmlAttributeView>::empty());
    while i < node.attributes.len()
        invariant
            i <= node.attributes.len(),
            attrs == attributes_view(node.attributes@),
            attrs.len() == node.attributes.len(),
            allowed@.map_values(|a: &str| a@) == allowed_attrs(tag@),
            tag@ == node@.name,
            start == *old(next_id),
            *next_id == start + 1,
            namespace_of(node@).len() == 0 || namespace_of(node@) == GUI_XML_NS@,
            is_known_element(node@.name),
            attribute_error(tag@, attrs) == attribute_error(tag@, attrs.skip(i as int)),
            parsed@ == (ElementView {
                id: start,
                tag: tag@,
                props: insert_all(Seq::empty(), stored_attributes(attrs.take(i as int))),
                children: Seq::empty(),
            }),
        decreases node.attributes.len() - i,
    {
        let attr = &node.attributes[i];
        let ghost rest = attrs.skip(i as int);
        assert(rest[0] == attr@);
        assert(rest.drop_first() =~= attrs.skip(i + 1));
        let ghost t = attrs.take(i + 1);
        assert(t.drop_last() =~= attrs.take(i as int));
        assert(t.last() == attr@);
        let name = attr.name.as_str();
        if attr.namespace.is_some() {
            let mut m = String::new();
            m.append(tag);
            let q = quoted_message(" does not accept namespaced XML attribute ", name);
            m.append(q.as_str());
            assert(m@ =~= namespaced_attribute_message(tag@, name@));
            return Err(m);
        }
        if same_text(name, "xmlns") || starts_with_text(name, "xmlns:") {
            i = i + 1;
            continue;
        }
        if !starts_with_text(name, "meta.") && !contains_name(allowed, name) {
            let mut m = String::new();
            m.append(tag);
            let q = quoted_message(" does not accept XML attribute ", name);
            m.append(q.as_str());
            assert(m@ =~= attribute_message(tag@, name@));
            return Err(m);
        }
        let ghost before = parsed@.props;
        parsed.props.insert(attr.name.clone(), attr.value.clone());
        assert(stored_attributes(t) == stored_attributes(attrs.take(i as int)).push((name@, attr@.value)));
        assert(stored_attributes(t).drop_last() =~= stored_attributes(attrs.take(i as int)));
        assert(parsed@.props == insert_entry(before, (name@, attr@.value)));
        i = i + 1;
    }
    assert(attrs.take(i as int) =~= attrs);
    assert(attrs.skip(i as int).len() == 0);
    let ghost kids = node@.children;
    let mut children: Vec<Element> = Vec::new();
    let mut k: usize = 0;
    assert(kids.take(0) =~= Seq::<XmlElementView>::empty());
    assert(Element::models(children@) =~= Seq::<ElementView>::empty());
    while k < node.children.len()
        invariant
            k <= node.children.len(),
            kids == node@.children,
            kids.len() == node.children.len(),
            start + xml_count(node@) <= u32::MAX,
            xml_count(node@) == 1 + xml_count_all(kids),
            parse_children(kids.take(k as int), start + 1) == (
                Ok::<Seq<ElementView>, Seq<char>>(Element::models(children@)),
                *next_id as int,
            ),
            start + 1 <= *next_id <= start + 1 + xml_count_all(kids.take(k as int)),
            start == *old(next_id),
            namespace_of(node@).len() == 0 || namespace_of(node@) == GUI_XML_NS@,
            is_known_element(node@.name),
            attribute_error(node@.name, node@.attributes) is None,
            parsed@ == (ElementView {
                id: start,
                tag: node@.name,
                props: insert_all(Seq::empty(), stored_attributes(node@.attributes)),
                children: Seq::empty(),
            }),
        decreases node.children.len() - k,
    {
        proof {
            lemma_xml_count_prefix(kids, k as int);
            let t = kids.take(k + 1);
            assert(t.drop_last() =~= kids.take(k as int));
            assert(t.last() == kids[k as int]);
            lemma_parse_element_bounds(kids[k as int], *next_id as int);
        }
        assert(kids[k as int] == node.children@[k as int]@);
        let child = match parse_xml_node(&node.children[k], next_id) {
            Ok(c) => c,
            Err(m) => {
                proof {
                    lemma_parse_children_error(kids, k + 1, start + 1);
                }
                return Err(m);
            },
        };
        proof {
            crate::element::lemma_models_push(children@, child);
        }
        children.push(child);
        k = k + 1;
    }
    assert(kids.take(k as int) =~= kids);
    parsed.children = children;
    Ok(parsed)
}

/// A successful conversion numbers the elements consecutively from `next`
/// in document order and hands out one identifier per element.
pub proof fn lemma_parse_element_ids(x: XmlElementView, next: int)
    ensures
        parse_element(x, next) matches (Ok(e), after) ==> ids(e) == id_range(next, count(e))
            && after == next + count(e),
    decreases x,
{
    lemma_parse_children_ids(x.children, next + 1);
    if let (Ok(e), after) = parse_element(x, next) {
        assert(ids(e) =~= id_range(next, count(e)));
    }
}

/// A successful conversion of a sequence numbers its elements consecutively
/// from `next` in document order.
pub proof fn lemma_parse_children_ids(s: Seq<XmlElementView>, next: int)
    ensures
        parse_children(s, next) matches (Ok(cs), after) ==> ids_all(cs) == id_range(
            next,
            count_all(cs),
        ) && after == next + count_all(cs),
    decreases s,
{
    if s.len() > 0 {
        lemma_parse_children_ids(s.drop_last(), next);
        if let (Ok(done), mid) = parse_children(s.drop_last(), next) {
            lemma_parse_element_ids(s.last(), mid);
            if let (Ok(e), after) = parse_element(s.last(), mid) {
                let cs = done.push(e);
                assert(cs.drop_last() =~= done);
                assert(ids_all(cs) =~= id_range(next, count_all(cs)));
            }
        }
    }
}

/// The element that the node records describe, or the first error.
pub open spec fn widget_from(nodes: Seq<XmlRecordView>) -> Result<ElementView, Seq<char>> {
    parse_element(tree_of(nodes), 1).0
}

/// The element that the XML text `xml` describes, or the parser's or the
/// first check's error.
pub open spec fn widget_from_text(xml: Seq<char>) -> Result<ElementView, Seq<char>> {
    match xml_document_nodes(xml) {
        Ok(nodes) => widget_from(nodes),
        Err(message) => Err(message),
    }
}

/// The message for a document whose root element is not a window.
pub open spec fn root_message() -> Seq<char> {
    "GUI XML root element must be Window"@
}

/// The window that the XML text `xml` describes, or the error.
pub open spec fn gui_from_text(xml: Seq<char>) -> Result<ElementView, Seq<char>> {
    match widget_from_text(xml) {
        Ok(e) => if e.tag == "Window"@ {
            Ok(e)
        } else {
            Err(root_message())
        },
        Err(message) => Err(message),
    }
}

/// Checks and converts the element tree that the node records describe,
/// numbering its elements from 1 in document order.
pub fn widget_from_nodes(nodes: &Vec<XmlNodeRecord>) -> (r: Result<Element, String>)
    requires
        0 < nodes.len() < u32::MAX,
    ensures
        outcome_view(r) == widget_from(records_view(nodes@)),
        r matches Ok(e) ==> ids(e@) == id_range(1, count(e@)) && count(e@) < u32::MAX
            && unique_ids(e@),
{
    let root = xml_tree(nodes);
    let mut next_id: u32 = 1;
    let r = parse_xml_node(&root, &mut next_id);
    proof {
        lemma_parse_element_ids(root@, 1);
        lemma_parse_element_bounds(root@, 1);
        if let Ok(e) = &r {
            lemma_id_range_unique(1, count(e@));
        }
    }
    r
}

/// Parses the XML text of one widget and its descendants, numbering its
/// elements from 1 in document order.
pub fn parse_widget_xml(xml: &str) -> (r: Result<Element, String>)
    ensures
        outcome_view(r) == widget_from_text(xml@),
        r matches Ok(e) ==> ids(e@) == id_range(1, count(e@)) && count(e@) < u32::MAX
            && unique_ids(e@),
{
    match read_xml_nodes(xml) {
        Ok(nodes) => widget_from_nodes(&nodes),
        Err(message) => Err(message),
    }
}

/// Parses the XML text of a whole GUI, whose root element must be a window.
pub fn parse_gui_xml(xml: &str) -> (r: Result<Element, String>)
    ensures
        outcome_view(r) == gui_from_text(xml@),
        r matches Ok(e) ==> ids(e@) == id_range(1, count(e@)) && count(e@) < u32::MAX
            && unique_ids(e@),
{
    let node = parse_widget_xml(xml)?;
    if !same_text(node.tag.as_str(), "Window") {
        return Err("GUI XML root element must be Window".to_owned());
    }
    Ok(node)
}

} // verus!
