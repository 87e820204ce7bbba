//! What the designer shows of a document: a label per element, the rows of
//! the element tree, and the window title.

use vstd::prelude::*;

use crate::element::{
    count, count_all, ids, ids_all, ids_before, lemma_ids_all_split, lemma_ids_all_take_next,
    lemma_ids_at, node_at, valid_path, Element, ElementView,
};
use crate::props::lookup;

verus! {

/// The attributes that an element label shows, the first present one only.
pub open spec fn label_keys() -> Seq<Seq<char>> {
    seq!["id"@, "title"@, "text"@, "label"@, "value"@, "src"@]
}

/// The first of `keys` that `props` has, with its value.
pub open spec fn first_present(props: Seq<(Seq<char>, Seq<char>)>, keys: Seq<Seq<char>>) -> Option<
    (Seq<char>, Seq<char>),
>
    decreases keys.len(),
{
    if keys.len() == 0 {
        None
    } else {
        match lookup(props, keys[0]) {
            Some(v) => Some((keys[0], v)),
            None => first_present(props, keys.drop_first()),
        }
    }
}

/// The label of `n` in the element tree: its tag, followed by the first of
/// its `id`, `title`, `text`, `label`, `value` and `src` attributes as
/// `(name=value)` where it has one.
pub open spec fn label_of(n: ElementView) -> Seq<char> {
    match first_present(n.props, label_keys()) {
        Some((key, value)) => n.tag + " ("@ + key + "="@ + value + ")"@,
        None => n.tag,
    }
}

/// The label of `node` in the element tree.
pub fn node_label(node: &Element) -> (r: String)
    ensures
        r@ == label_of(node@),
{
    let keys: Vec<&str> = vec!["id", "title", "text", "label", "value", "src"];
    let ghost names = keys@.map_values(|k: &str| k@);
    assert(names =~= label_keys());
    let mut i: usize = 0;
    assert(names.skip(0) =~= names);
    while i < keys.len()
        invariant
            i <= keys@.len(),
            names == keys@.map_values(|k: &str| k@),
            names == label_keys(),
            first_present(node@.props, names) == first_present(node@.props, names.skip(i as int)),
        decreases keys.len() - i,
    {
        let key = keys[i];
        assert(names.skip(i as int)[0] == key@);
        assert(names.skip(i as int).drop_first() =~= names.skip(i + 1));
        match node.props.get(key) {
            Some(value) => {
                let mut label = node.tag.clone();
                label.append(" (");
                label.append(key);
                label.append("=");
                label.append(value.as_str());
                label.append(")");
                return label;
            },
            None => {},
        }
        i = i + 1;
    }
    assert(names.skip(i as int).len() == 0);
    node.tag.clone()
}

/// One row of the element tree: the element's identifier and label, and
/// the position of the row of its parent.
pub struct TreeRow {
    pub id: u32,
    pub label: String,
    pub parent: Option<usize>,
}

/// A row as characters.
pub struct TreeRowView {
    pub id: u32,
    pub label: Seq<char>,
    pub parent: Option<int>,
}

impl View for TreeRow {
    type V = TreeRowView;

    open spec fn view(&self) -> TreeRowView {
        TreeRowView {
            id: self.id,
            label: self.label@,
            parent: match self.parent {
                Some(p) => Some(p as int),
                None => None,
            },
        }
    }
}

/// Rows as characters.
pub open spec fn rows_view(rows: Seq<TreeRow>) -> Seq<TreeRowView> {
    rows.map_values(|r: TreeRow| r@)
}

/// The rows of the tree of `e` in document order, its own row being at
/// position `first` under the row `parent`.
pub open spec fn rows_of(e: ElementView, parent: Option<int>, first: int) -> Seq<TreeRowView>
    decreases e,
{
    seq![TreeRowView { id: e.id, label: label_of(e), parent: parent }] + rows_all(
        e.children,
        first,
        first + 1,
    )
}

/// The rows of the trees of `s` in document order, from position `first`
/// on, under the row `parent`.
pub open spec fn rows_all(s: Seq<ElementView>, parent: int, first: int) -> Seq<TreeRowView>
    decreases s,
{
    if s.len() == 0 {
        Seq::empty()
    } else {
        rows_all(s.drop_last(), parent, first) + rows_of(
            s.last(),
            Some(parent),
            first + count_all(s.drop_last()),
        )
    }
}

/// There is one row per element.
pub proof fn lemma_rows_len(e: ElementView, parent: Option<int>, first: int)
    ensures
        rows_of(e, parent, first).len() == count(e),
    decreases e,
{
    lemma_rows_all_len(e.children, first, first + 1);
}

/// There is one row per element of the trees of a sequence.
pub proof fn lemma_rows_all_len(s: Seq<ElementView>, parent: int, first: int)
    ensures
        rows_all(s, parent, first).len() == count_all(s),
    decreases s,
{
    if s.len() > 0 {
        lemma_rows_all_len(s.drop_last(), parent, first);
        lemma_rows_len(s.last(), Some(parent), first + count_all(s.drop_last()));
    }
}

/// The identifiers of a sequence of rows.
pub open spec fn row_ids(rows: Seq<TreeRowView>) -> Seq<u32> {
    rows.map_values(|r: TreeRowView| r.id)
}

/// The rows of the tree of `e` list the identifiers of its elements in
/// document order, one row per element.
pub proof fn rows_list_ids_in_document_order(e: ElementView, parent: Option<int>, first: int)
    ensures
        row_ids(rows_of(e, parent, first)) == ids(e),
    decreases e,
{
    rows_all_list_ids(e.children, first, first + 1);
    let head = seq![TreeRowView { id: e.id, label: label_of(e), parent: parent }];
    let rest = rows_all(e.children, first, first + 1);
    assert(row_ids(head + rest) =~= seq![e.id] + row_ids(rest));
}

/// The rows of the trees of `s` list the identifiers of their elements in
/// document order.
pub proof fn rows_all_list_ids(s: Seq<ElementView>, parent: int, first: int)
    ensures
        row_ids(rows_all(s, parent, first)) == ids_all(s),
    decreases s,
{
    if s.len() == 0 {
        assert(row_ids(rows_all(s, parent, first)) =~= ids_all(s));
    } else {
        let a = rows_all(s.drop_last(), parent, first);
        let b = rows_of(s.last(), Some(parent), first + count_all(s.drop_last()));
        rows_all_list_ids(s.drop_last(), parent, first);
        rows_list_ids_in_document_order(s.last(), Some(parent), first + count_all(s.drop_last()));
        assert(row_ids(a + b) =~= row_ids(a) + row_ids(b));
    }
}

/// The rows of the trees of `s` hold, from the position of `s[i]` on, the
/// rows of the tree of `s[i]`, under the same parent row.
proof fn lemma_rows_all_at(s: Seq<ElementView>, parent: int, first: int, i: int, k: int)
    requires
        0 <= i < s.len(),
        0 <= k < count(s[i]),
    ensures
        count_all(s.take(i)) + k < rows_all(s, parent, first).len(),
        rows_all(s, parent, first)[count_all(s.take(i)) + k] == rows_of(
            s[i],
            Some(parent),
            first + count_all(s.take(i)),
        )[k],
    decreases s.len(),
{
    let front = s.drop_last();
    lemma_rows_all_len(front, parent, first);
    lemma_rows_len(s.last(), Some(parent), first + count_all(front));
    if i == s.len() - 1 {
        assert(s.take(i) =~= front);
    } else {
        assert(front.take(i) =~= s.take(i));
        assert(front[i] == s[i]);
        lemma_rows_all_at(front, parent, first, i, k);
        lemma_ids_all_take_next(front, i);
        lemma_ids_all_split(front, i + 1);
        assert(count_all(front.take(i + 1)) == count_all(s.take(i)) + count(s[i]));
    }
}

/// Each element of the tree of `e` has its row at its position in document
/// order, with its identifier and label, and that row hangs under the row
/// of the element's parent in the tree (the outermost element's row under
/// `parent`).
pub proof fn rows_hang_under_parent_rows(
    e: ElementView,
    parent: Option<int>,
    first: int,
    p: Seq<int>,
)
    requires
        valid_path(e, p),
    ensures
        ids_before(e, p).len() < rows_of(e, parent, first).len(),
        rows_of(e, parent, first)[ids_before(e, p).len() as int] == (TreeRowView {
            id: node_at(e, p).id,
            label: label_of(node_at(e, p)),
            parent: if p.len() == 0 {
                parent
            } else {
                Some(first + ids_before(e, p.drop_last()).len())
            },
        }),
    decreases p.len(),
{
    lemma_rows_len(e, parent, first);
    lemma_ids_at(e, p);
    if p.len() > 0 {
        let i = p[0];
        let cs = e.children;
        let c = cs[i];
        let rest = p.drop_first();
        let start = first + 1 + count_all(cs.take(i));
        rows_hang_under_parent_rows(c, Some(first), start, rest);
        lemma_ids_at(c, rest);
        let b = ids_before(c, rest).len() as int;
        lemma_rows_all_at(cs, first, first + 1, i, b);
        if rest.len() > 0 {
            let up = p.drop_last();
            assert(up[0] == i);
            assert(up.drop_first() =~= rest.drop_last());
            assert(up.len() > 0);
        } else {
            assert(p.drop_last() =~= Seq::<int>::empty());
        }
    }
}

/// Appends the rows of the tree of `node`, under the row `parent`, to
/// `rows`.
pub fn append_tree_node(node: &Element, parent: Option<usize>, rows: &mut Vec<TreeRow>)
    ensures
        rows_view(final(rows)@) == rows_view(old(rows)@) + rows_of(
            node@,
            match parent {
                Some(p) => Some(p as int),
                None => None,
            },
            old(rows)@.len() as int,
        ),
    decreases node,
{
    let ghost start = rows_view(rows@);
    let ghost parent_row = match parent {
        Some(p) => Some(p as int),
        None => None,
    };
    let me = rows.len();
    let label = node_label(node);
    rows.push(TreeRow { id: node.id, label, parent });
    assert(rows_view(rows@) =~= start + seq![TreeRowView { id: node.id, label: label_of(node@), parent: parent_row }]);
    let ghost head = rows_view(rows@);
    let mut k: usize = 0;
    assert(node@.children.take(0) =~= Seq::<ElementView>::empty());
    while k < node.children.len()
        invariant
            k <= node.children.len(),
            node@.children.len() == node.children.len(),
            me == start.len(),
            head.len() == me + 1,
            rows_view(rows@) == head + rows_all(node@.children.take(k as int), me as int, me + 1),
        decreases node.children.len() - k,
    {
        proof {
            let t = node@.children.take(k + 1);
            assert(t.drop_last() =~= node@.children.take(k as int));
            assert(t.last() == node@.children[k as int]);
            lemma_rows_all_len(node@.children.take(k as int), me as int, me + 1);
        }
        assert(node.children@[k as int]@ == node@.children[k as int]);
        append_tree_node(&node.children[k], Some(me), rows);
        k = k + 1;
    }
    assert(node@.children.take(k as int) =~= node@.children);
    assert(rows_view(rows@) =~= start + rows_of(node@, parent_row, me as int));
}

/// The rows of the element tree of `root`, in document order.
pub fn tree_rows(root: &Element) -> (r: Vec<TreeRow>)
    ensures
        rows_view(r@) == rows_of(root@, None, 0),
{
    let mut rows: Vec<TreeRow> = Vec::new();
    append_tree_node(root, None, &mut rows);
    assert(rows_view(rows@) =~= rows_of(root@, None, 0));
    rows
}

/// The title of the designer window: the name of the file being edited
/// after the program name, where there is one.
pub open spec fn title_for(file_name: Option<Seq<char>>) -> Seq<char> {
    match file_name {
        Some(name) => "Zuzu Designer - "@ + name,
        None => "Zuzu Designer"@,
    }
}

/// The title of the designer window for the file named `file_name`.
pub fn window_title(file_name: Option<&str>) -> (r: String)
    ensures
        r@ == title_for(
            match file_name {
                Some(n) => Some(n@),
                None => None,
            },
        ),
{
    match file_name {
        Some(name) => {
            let mut title = "Zuzu Designer - ".to_owned();
            title.append(name);
            title
        },
        None => "Zuzu Designer".to_owned(),
    }
}

} // verus!
