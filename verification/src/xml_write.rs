//! Writing an element tree as Zuzu GUI XML text.

use vstd::prelude::*;

use crate::element::{count, count_all, Element, ElementView};
use crate::props::PropertyMap;
use crate::text::{escape_xml, escaped, lemma_escaped_has_no_markup, push_char};

verus! {

/// The namespace of Zuzu GUI XML.
pub const GUI_XML_NS: &'static str = "https://zuzulang.org/ns/std/gui";

/// `n` tab characters.
pub open spec fn tabs(n: nat) -> Seq<char> {
    Seq::new(n, |i: int| '\t')
}

/// The double quote character.
pub open spec fn quote() -> char {
    '\x22'
}

/// The attributes written into a start tag: for each entry, a space, the
/// name, `=`, and the escaped value in double quotes.
pub open spec fn attrs_xml(props: Seq<(Seq<char>, Seq<char>)>) -> Seq<char>
    decreases props.len(),
{
    if props.len() == 0 {
        Seq::empty()
    } else {
        attrs_xml(props.drop_last()) + seq![' '] + props.last().0 + seq!['=', quote()] + escaped(
            props.last().1,
        ) + seq![quote()]
    }
}

/// The namespace declaration that the outermost start tag carries.
pub open spec fn namespace_xml() -> Seq<char> {
    seq![' '] + "xmlns="@ + seq![quote()] + GUI_XML_NS@ + seq![quote()]
}

/// The start of the start tag of `e` at nesting depth `depth`, up to and
/// including its attributes.
pub open spec fn open_tag_xml(e: ElementView, depth: nat) -> Seq<char> {
    tabs(depth) + seq!['<'] + e.tag + (if depth == 0 {
        namespace_xml()
    } else {
        Seq::empty()
    }) + attrs_xml(e.props)
}

/// The XML text of `e` at nesting depth `depth`: one line per tag, indented
/// by one tab per level; an element without children is written as an
/// empty-element tag.
pub open spec fn node_xml(e: ElementView, depth: nat) -> Seq<char>
    decreases e,
{
    if e.children.len() == 0 {
        open_tag_xml(e, depth) + seq![' ', '/', '>', '\n']
    } else {
        open_tag_xml(e, depth) + seq!['>', '\n'] + children_xml(e.children, depth + 1) + tabs(depth)
            + seq!['<', '/'] + e.tag + seq!['>', '\n']
    }
}

/// The XML text of the elements of `s`, one after the other, at nesting
/// depth `depth`.
pub open spec fn children_xml(s: Seq<ElementView>, depth: nat) -> Seq<char>
    decreases s,
{
    if s.len() == 0 {
        Seq::empty()
    } else {
        children_xml(s.drop_last(), depth) + node_xml(s.last(), depth)
    }
}

/// The number of nesting levels below `e`.
pub open spec fn height(e: ElementView) -> nat
    decreases e,
{
    if e.children.len() == 0 {
        0
    } else {
        1 + height_all(e.children)
    }
}

/// The largest height among the elements of `s`.
pub open spec fn height_all(s: Seq<ElementView>) -> nat
    decreases s,
{
    if s.len() == 0 {
        0
    } else {
        let h = height(s.last());
        let rest = height_all(s.drop_last());
        if h > rest {
            h
        } else {
            rest
        }
    }
}

/// No element of `s` is higher than `height_all(s)`.
pub proof fn lemma_height_all(s: Seq<ElementView>, i: int)
    requires
        0 <= i < s.len(),
    ensures
        height(s[i]) <= height_all(s),
    decreases s.len(),
{
    if i < s.len() - 1 {
        lemma_height_all(s.drop_last(), i);
    }
}

/// The height of a non-empty sequence is the height of one of its
/// elements.
proof fn lemma_height_all_attained(s: Seq<ElementView>)
    requires
        s.len() > 0,
    ensures
        exists|j: int| 0 <= j < s.len() && height_all(s) == #[trigger] height(s[j]),
    decreases s.len(),
{
    let last = s.len() - 1;
    assert(height(s[last]) == height(s.last()));
    assert(s.len() == 1 ==> height_all(s.drop_last()) == 0);
    if height_all(s) == height(s.last()) {
        assert(height_all(s) == height(s[last]));
    } else {
        lemma_height_all_attained(s.drop_last());
        let j = choose|j: int|
            0 <= j < s.drop_last().len() && height_all(s.drop_last()) == #[trigger] height(
                s.drop_last()[j],
            );
        assert(s[j] == s.drop_last()[j]);
        assert(height_all(s) == height(s[j]));
    }
}

/// Whether the XML text of `e` can be written at nesting depth `depth`
/// without the depth overflowing: `depth + height(e@) < usize::MAX`.
pub fn can_write(e: &Element, depth: usize) -> (r: bool)
    ensures
        r == (depth + height(e@) < usize::MAX),
    decreases e,
{
    if e.children.len() == 0 {
        return depth < usize::MAX;
    }
    if depth >= usize::MAX - 1 {
        return false;
    }
    let mut k: usize = 0;
    while k < e.children.len()
        invariant
            k <= e.children.len(),
            e@.children.len() == e.children.len(),
            depth < usize::MAX - 1,
            forall|j: int| 0 <= j < k ==> depth + 1 + #[trigger] height(e@.children[j]) < usize::MAX,
        decreases e.children.len() - k,
    {
        assert(e.children@[k as int]@ == e@.children[k as int]);
        if !can_write(&e.children[k], depth + 1) {
            proof {
                lemma_height_all(e@.children, k as int);
            }
            return false;
        }
        k = k + 1;
    }
    proof {
        lemma_height_all_attained(e@.children);
    }
    true
}

/// Appends `depth` tab characters to `out`.
fn push_indent(out: &mut String, depth: usize)
    ensures
        final(out)@ == old(out)@ + tabs(depth as nat),
{
    let mut i: usize = 0;
    while i < depth
        invariant
            i <= depth,
            out@ == old(out)@ + tabs(i as nat),
        decreases depth - i,
    {
        push_char(out, '\t');
        assert(tabs((i + 1) as nat) =~= tabs(i as nat).push('\t'));
        i = i + 1;
    }
}

/// Appends the attributes of a start tag, as `attrs_xml` gives them, to
/// `out`.
fn write_attrs(props: &PropertyMap, out: &mut String)
    ensures
        final(out)@ == old(out)@ + attrs_xml(props@),
{
    let ghost head = out@;
    let mut i: usize = 0;
    while i < props.len()
        invariant
            i <= props@.len(),
            out@ == head + attrs_xml(props@.take(i as int)),
        decreases props@.len() - i,
    {
        let entry = props.entry(i);
        push_char(out, ' ');
        out.append(entry.name.as_str());
        push_char(out, '=');
        push_char(out, '\x22');
        let value = escape_xml(entry.value.as_str());
        out.append(value.as_str());
        push_char(out, '\x22');
        let ghost t = props@.take(i + 1);
        assert(t.drop_last() =~= props@.take(i as int));
        assert(t.last() == props@[i as int]);
        assert(out@ =~= head + attrs_xml(t));
        i = i + 1;
    }
    assert(props@.take(i as int) =~= props@);
}

/// Appends the start of the start tag of `node` at nesting depth `depth`,
/// up to and including its attributes, to `out`.
fn write_open_tag(node: &Element, depth: usize, out: &mut String)
    ensures
        final(out)@ == old(out)@ + open_tag_xml(node@, depth as nat),
{
    push_indent(out, depth);
    push_char(out, '<');
    out.append(node.tag.as_str());
    if depth == 0 {
        push_char(out, ' ');
        out.append("xmlns=");
        push_char(out, '\x22');
        out.append(GUI_XML_NS);
        push_char(out, '\x22');
    }
    assert(out@ =~= old(out)@ + tabs(depth as nat) + seq!['<'] + node@.tag + (if depth == 0 {
        namespace_xml()
    } else {
        Seq::empty()
    }));
    write_attrs(&node.props, out);
    assert(out@ =~= old(out)@ + open_tag_xml(node@, depth as nat));
}

/// Appends the end tag of `node` at nesting depth `depth`, and the line
/// break after it, to `out`.
fn write_close_tag(node: &Element, depth: usize, out: &mut String)
    ensures
        final(out)@ == old(out)@ + tabs(depth as nat) + seq!['<', '/'] + node@.tag + seq!['>', '\n'],
{
    push_indent(out, depth);
    push_char(out, '<');
    push_char(out, '/');
    out.append(node.tag.as_str());
    push_char(out, '>');
    push_char(out, '\n');
    assert(out@ =~= old(out)@ + tabs(depth as nat) + seq!['<', '/'] + node@.tag + seq!['>', '\n']);
}

/// Appends the XML text of `node`, at nesting depth `depth`, to `out`.
pub fn write_node_xml(node: &Element, depth: usize, out: &mut String)
    requires
        depth + height(node@) < usize::MAX,
    ensures
        final(out)@ == old(out)@ + node_xml(node@, depth as nat),
    decreases node,
{
    write_open_tag(node, depth, out);
    if node.children.len() == 0 {
        push_char(out, ' ');
        push_char(out, '/');
        push_char(out, '>');
        push_char(out, '\n');
        assert(out@ =~= old(out)@ + node_xml(node@, depth as nat));
        return;
    }
    push_char(out, '>');
    push_char(out, '\n');
    let ghost body = out@;
    assert(body =~= old(out)@ + open_tag_xml(node@, depth as nat) + seq!['>', '\n']);
    let mut k: usize = 0;
    assert(node@.children.take(0) =~= Seq::<ElementView>::empty());
    while k < node.children.len()
        invariant
            k <= node.children.len(),
            node@.children.len() == node.children.len(),
            depth + height(node@) < usize::MAX,
            height(node@) == 1 + height_all(node@.children),
            out@ == body + children_xml(node@.children.take(k as int), (depth + 1) as nat),
        decreases node.children.len() - k,
    {
        proof {
            lemma_height_all(node@.children, k as int);
        }
        assert(node@.children[k as int] == node.children@[k as int]@);
        write_node_xml(&node.children[k], depth + 1, out);
        let ghost t = node@.children.take(k + 1);
        assert(t.drop_last() =~= node@.children.take(k as int));
        assert(t.last() == node@.children[k as int]);
        k = k + 1;
    }
    assert(node@.children.take(k as int) =~= node@.children);
    write_close_tag(node, depth, out);
    assert(out@ =~= old(out)@ + node_xml(node@, depth as nat));
}

/// The Zuzu GUI XML text of the document whose outermost element is `root`.
pub fn to_xml(root: &Element) -> (r: String)
    requires
        height(root@) < usize::MAX,
    ensures
        r@ == node_xml(root@, 0),
{
    let mut out = String::new();
    write_node_xml(root, 0, &mut out);
    assert(out@ =~= node_xml(root@, 0));
    out
}

/// The number of `<` characters in `s`.
pub open spec fn lt_count(s: Seq<char>) -> nat
    decreases s.len(),
{
    if s.len() == 0 {
        0
    } else {
        lt_count(s.drop_last()) + if s.last() == '<' {
            1nat
        } else {
            0nat
        }
    }
}

/// A text without `<` characters has none to count.
pub proof fn lemma_lt_count_none(s: Seq<char>)
    requires
        forall|i: int| 0 <= i < s.len() ==> s[i] != '<',
    ensures
        lt_count(s) == 0,
    decreases s.len(),
{
    if s.len() > 0 {
        lemma_lt_count_none(s.drop_last());
    }
}

/// Counting `<` characters part by part.
pub proof fn lemma_lt_count_concat(a: Seq<char>, b: Seq<char>)
    ensures
        lt_count(a + b) == lt_count(a) + lt_count(b),
    decreases b.len(),
{
    if b.len() == 0 {
        assert(a + b =~= a);
    } else {
        assert((a + b).drop_last() =~= a + b.drop_last());
        assert((a + b).last() == b.last());
        lemma_lt_count_concat(a, b.drop_last());
    }
}

/// Whether `s` holds no `<` character.
pub open spec fn no_lt(s: Seq<char>) -> bool {
    forall|i: int| 0 <= i < s.len() ==> s[i] != '<'
}

/// Whether no tag and no attribute name in the tree of `e` holds a `<`
/// character.
pub open spec fn names_without_lt(e: ElementView) -> bool
    decreases e,
{
    &&& no_lt(e.tag)
    &&& forall|i: int| 0 <= i < e.props.len() ==> no_lt(#[trigger] e.props[i].0)
    &&& names_without_lt_all(e.children)
}

/// Whether no tag and no attribute name in the trees of `s` holds a `<`
/// character.
pub open spec fn names_without_lt_all(s: Seq<ElementView>) -> bool
    decreases s,
{
    s.len() == 0 || (names_without_lt_all(s.drop_last()) && names_without_lt(s.last()))
}

/// Number of elements in the tree of `e` that have children.
pub open spec fn parent_count(e: ElementView) -> nat
    decreases e,
{
    (if e.children.len() > 0 {
        1nat
    } else {
        0nat
    }) + parent_count_all(e.children)
}

/// Number of elements in the trees of `s` that have children.
pub open spec fn parent_count_all(s: Seq<ElementView>) -> nat
    decreases s,
{
    if s.len() == 0 {
        0
    } else {
        parent_count_all(s.drop_last()) + parent_count(s.last())
    }
}

/// The attributes of a start tag hold no `<`: values are escaped.
proof fn lemma_attrs_no_lt(props: Seq<(Seq<char>, Seq<char>)>)
    requires
        forall|i: int| 0 <= i < props.len() ==> no_lt(#[trigger] props[i].0),
    ensures
        lt_count(attrs_xml(props)) == 0,
    decreases props.len(),
{
    if props.len() > 0 {
        let front = props.drop_last();
        assert forall|i: int| 0 <= i < front.len() implies no_lt(#[trigger] front[i].0) by {
            assert(front[i] == props[i]);
        }
        lemma_attrs_no_lt(front);
        assert(no_lt(props[props.len() - 1].0));
        lemma_escaped_has_no_markup(props.last().1);
        let name = props.last().0;
        let value = escaped(props.last().1);
        lemma_lt_count_none(seq![' ']);
        lemma_lt_count_none(name);
        lemma_lt_count_none(seq!['=', quote()]);
        lemma_lt_count_none(value);
        lemma_lt_count_none(seq![quote()]);
        lemma_lt_count_concat(attrs_xml(front), seq![' ']);
        lemma_lt_count_concat(attrs_xml(front) + seq![' '], name);
        lemma_lt_count_concat(attrs_xml(front) + seq![' '] + name, seq!['=', quote()]);
        lemma_lt_count_concat(attrs_xml(front) + seq![' '] + name + seq!['=', quote()], value);
        lemma_lt_count_concat(
            attrs_xml(front) + seq![' '] + name + seq!['=', quote()] + value,
            seq![quote()],
        );
    }
}

/// A start tag holds exactly one `<`.
proof fn lemma_open_tag_lt(e: ElementView, depth: nat)
    requires
        no_lt(e.tag),
        forall|i: int| 0 <= i < e.props.len() ==> no_lt(#[trigger] e.props[i].0),
    ensures
        lt_count(open_tag_xml(e, depth)) == 1,
{
    reveal_strlit("https://zuzulang.org/ns/std/gui");
    reveal_strlit("xmlns=");
    let ns = if depth == 0 {
        namespace_xml()
    } else {
        Seq::empty()
    };
    assert(no_lt(GUI_XML_NS@));
    assert(no_lt("xmlns="@));
    lemma_lt_count_none(tabs(depth));
    lemma_lt_count_none(e.tag);
    lemma_lt_count_none(seq![' ']);
    lemma_lt_count_none(seq![quote()]);
    lemma_lt_count_none("xmlns="@);
    lemma_lt_count_none(GUI_XML_NS@);
    lemma_lt_count_concat(seq![' '], "xmlns="@);
    lemma_lt_count_concat(seq![' '] + "xmlns="@, seq![quote()]);
    lemma_lt_count_concat(seq![' '] + "xmlns="@ + seq![quote()], GUI_XML_NS@);
    lemma_lt_count_concat(seq![' '] + "xmlns="@ + seq![quote()] + GUI_XML_NS@, seq![quote()]);
    lemma_lt_count_none(Seq::<char>::empty());
    assert(lt_count(seq!['<']) == 1) by {
        assert(seq!['<'].drop_last() =~= Seq::<char>::empty());
    }
    lemma_attrs_no_lt(e.props);
    lemma_lt_count_concat(tabs(depth), seq!['<']);
    lemma_lt_count_concat(tabs(depth) + seq!['<'], e.tag);
    lemma_lt_count_concat(tabs(depth) + seq!['<'] + e.tag, ns);
    lemma_lt_count_concat(tabs(depth) + seq!['<'] + e.tag + ns, attrs_xml(e.props));
}

/// The writer writes one start tag for every element of the tree, at every
/// depth, and one end tag for every element that has children: the text
/// holds that many `<` characters, where no tag or attribute name holds one.
pub proof fn written_tags(e: ElementView, depth: nat)
    requires
        names_without_lt(e),
    ensures
        lt_count(node_xml(e, depth)) == count(e) + parent_count(e),
    decreases e,
{
    lemma_open_tag_lt(e, depth);
    let open = open_tag_xml(e, depth);
    assert(count(e) == 1 + count_all(e.children));
    if e.children.len() == 0 {
        assert(count_all(e.children) == 0);
        lemma_lt_count_none(seq![' ', '/', '>', '\n']);
        lemma_lt_count_concat(open, seq![' ', '/', '>', '\n']);
    } else {
        written_tags_all(e.children, depth + 1);
        let body = children_xml(e.children, depth + 1);
        lemma_lt_count_none(seq!['>', '\n']);
        lemma_lt_count_none(tabs(depth));
        lemma_lt_count_none(e.tag);
        lemma_lt_count_none(seq!['>', '\n']);
        assert(lt_count(seq!['<', '/']) == 1) by {
            lemma_lt_count_none(Seq::<char>::empty());
            assert(seq!['<'].drop_last() =~= Seq::<char>::empty());
            assert(lt_count(seq!['<']) == 1);
            assert(seq!['<', '/'].drop_last() =~= seq!['<']);
            assert(seq!['<', '/'].last() == '/');
        }
        lemma_lt_count_concat(open, seq!['>', '\n']);
        lemma_lt_count_concat(open + seq!['>', '\n'], body);
        lemma_lt_count_concat(open + seq!['>', '\n'] + body, tabs(depth));
        lemma_lt_count_concat(open + seq!['>', '\n'] + body + tabs(depth), seq!['<', '/']);
        lemma_lt_count_concat(open + seq!['>', '\n'] + body + tabs(depth) + seq!['<', '/'], e.tag);
        lemma_lt_count_concat(
            open + seq!['>', '\n'] + body + tabs(depth) + seq!['<', '/'] + e.tag,
            seq!['>', '\n'],
        );
    }
}

/// The writer writes one start tag for every element of the trees of `s`
/// and one end tag for every one of them that has children.
pub proof fn written_tags_all(s: Seq<ElementView>, depth: nat)
    requires
        names_without_lt_all(s),
    ensures
        lt_count(children_xml(s, depth)) == count_all(s) + parent_count_all(s),
    decreases s,
{
    if s.len() == 0 {
        assert(count_all(s) == 0);
    } else {
        written_tags_all(s.drop_last(), depth);
        written_tags(s.last(), depth);
        lemma_lt_count_concat(children_xml(s.drop_last(), depth), node_xml(s.last(), depth));
        assert(count_all(s) == count_all(s.drop_last()) + count(s.last()));
    }
}

} // verus!
