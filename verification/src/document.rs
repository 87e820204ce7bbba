//! The document that the designer edits: a window element and the next
//! identifier to hand out, with the editing operations of the designer.

use vstd::prelude::*;

use crate::catalog::{allowed_attrs, apply_initial_props, attrs_for, initial_props};
use crate::element::{
    assign_new_ids, count, find_parent, first_path, ids, ids_all, last_path, lemma_first_path,
    lemma_ids_all_contains, lemma_last_path, lemma_max_in_bounds, lemma_models_push,
    lemma_renumbered_ids, locate, max_in, node_at, node_mut, node_ref, path_view, reindex_node,
    renumbered, replace_at, valid_path, Element, ElementView,
};
use crate::layout_laws::{layout_ids, layout_without_repeats_gives_unique_ids};
use crate::props::{insert_all, lookup};
use crate::text::{same_text, trim_text, trimmed};
use crate::unique::{
    add_child_keeps_ids_unique, add_sibling_keeps_ids_unique, edit_keeps_ids_unique,
    lemma_id_range_unique, move_keeps_ids_unique, paste_keeps_ids_unique, remove_keeps_ids_unique,
    unique_ids,
};

verus! {

/// The model of a document.
pub struct DocumentView {
    pub root: ElementView,
    pub next_id: u32,
}

/// Whether every identifier in the tree of `e` is below `bound`.
pub open spec fn ids_below(e: ElementView, bound: int) -> bool {
    forall|x: u32| #[trigger] ids(e).contains(x) ==> x < bound
}

/// Whether every identifier below the elements of `s` is below `bound`.
pub open spec fn ids_all_below(s: Seq<ElementView>, bound: int) -> bool {
    forall|k: int| 0 <= k < s.len() ==> ids_below(#[trigger] s[k], bound)
}

/// A document is well formed when its outermost element is a window and
/// every identifier in it is below the next identifier to hand out.
pub open spec fn doc_wf(d: DocumentView) -> bool {
    &&& d.root.tag == "Window"@
    &&& ids_below(d.root, d.next_id as int)
}

/// The identifiers of an element's tree: its own, then those below its
/// children.
pub proof fn lemma_ids_contains(e: ElementView, x: u32)
    ensures
        ids(e).contains(x) <==> (x == e.id || ids_all(e.children).contains(x)),
{
    assert(ids(e)[0] == e.id);
    if ids(e).contains(x) && x != e.id {
        let k = choose|k: int| 0 <= k < ids(e).len() && ids(e)[k] == x;
        assert(ids_all(e.children)[k - 1] == x);
    }
    if ids_all(e.children).contains(x) {
        let k = choose|k: int| 0 <= k < ids_all(e.children).len() && ids_all(e.children)[k] == x;
        assert(ids(e)[k + 1] == x);
    }
}

/// All identifiers of a tree are below a bound exactly when its own is and
/// those of each child's tree are.
pub proof fn lemma_ids_below_unfold(e: ElementView, bound: int)
    ensures
        ids_below(e, bound) <==> (e.id < bound && ids_all_below(e.children, bound)),
{
    assert forall|x: u32| ids(e).contains(x) <==> (x == e.id || ids_all(e.children).contains(x)) by {
        lemma_ids_contains(e, x);
    }
    assert forall|x: u32|
        ids_all(e.children).contains(x) <==> exists|i: int|
            0 <= i < e.children.len() && #[trigger] ids(e.children[i]).contains(x) by {
        lemma_ids_all_contains(e.children, x);
    }
    if e.id < bound && ids_all_below(e.children, bound) {
        assert forall|x: u32| #[trigger] ids(e).contains(x) implies x < bound by {
            if x != e.id {
                let i = choose|i: int|
                    0 <= i < e.children.len() && #[trigger] ids(e.children[i]).contains(x);
                assert(ids_below(e.children[i], bound));
            }
        }
    }
    if ids_below(e, bound) {
        assert(ids(e).contains(e.id));
        assert forall|k: int| 0 <= k < e.children.len() implies ids_below(
            #[trigger] e.children[k],
            bound,
        ) by {
            assert forall|x: u32| #[trigger] ids(e.children[k]).contains(x) implies x < bound by {
                assert(ids(e).contains(x));
            }
        }
    }
}

/// Replacing an element by one whose identifiers are below a bound keeps
/// every identifier of the tree below it.
pub proof fn lemma_ids_below_replace(e: ElementView, path: Seq<int>, n: ElementView, bound: int)
    requires
        valid_path(e, path),
        ids_below(e, bound),
        ids_below(n, bound),
    ensures
        ids_below(replace_at(e, path, n), bound),
    decreases path.len(),
{
    if path.len() > 0 {
        let i = path[0];
        let c = e.children[i];
        lemma_ids_below_unfold(e, bound);
        lemma_ids_below_replace(c, path.drop_first(), n, bound);
        let r = replace_at(e, path, n);
        lemma_ids_below_unfold(r, bound);
    }
}

/// The element at a valid path has identifiers below any bound of the tree.
pub proof fn lemma_ids_below_node_at(e: ElementView, path: Seq<int>, bound: int)
    requires
        valid_path(e, path),
        ids_below(e, bound),
    ensures
        ids_below(node_at(e, path), bound),
    decreases path.len(),
{
    if path.len() > 0 {
        lemma_ids_below_unfold(e, bound);
        lemma_ids_below_node_at(e.children[path[0]], path.drop_first(), bound);
    }
}

/// A larger bound is a bound too.
pub proof fn lemma_ids_below_larger(e: ElementView, bound: int, larger: int)
    requires
        ids_below(e, bound),
        bound <= larger,
    ensures
        ids_below(e, larger),
{
}

/// `n` with `c` appended to its children.
pub open spec fn with_child(n: ElementView, c: ElementView) -> ElementView {
    ElementView { children: n.children.push(c), ..n }
}

/// `n` without its child at `i`.
pub open spec fn without_child(n: ElementView, i: int) -> ElementView {
    ElementView { children: n.children.remove(i), ..n }
}

/// `n` with `c` inserted among its children at `i`.
pub open spec fn with_child_at(n: ElementView, i: int, c: ElementView) -> ElementView {
    ElementView { children: n.children.insert(i, c), ..n }
}

/// `n` with its children at `i` and `j` exchanged.
pub open spec fn with_children_swapped(n: ElementView, i: int, j: int) -> ElementView {
    ElementView { children: n.children.update(i, n.children[j]).update(j, n.children[i]), ..n }
}

/// A new element with identifier `id` and tag `tag`, with the attributes
/// that elements of that tag start with.
pub open spec fn new_element(id: u32, tag: Seq<char>) -> ElementView {
    ElementView {
        id: id,
        tag: tag,
        props: insert_all(Seq::empty(), initial_props(tag)),
        children: Seq::empty(),
    }
}

/// The path of the element that receives new children: the element that
/// the designer holds for `selected`, or the window where there is none.
pub open spec fn target_path(root: ElementView, selected: Option<u32>) -> Seq<int> {
    match selected {
        Some(id) => match last_path(root, id) {
            Some(p) => p,
            None => Seq::empty(),
        },
        None => Seq::empty(),
    }
}

/// The document after a new element with tag `tag` is added as the last
/// child of the element that the designer holds for `parent`, or of the
/// window where there is none.
pub open spec fn after_add_child(d: DocumentView, parent: Option<u32>, tag: Seq<char>) -> DocumentView {
    let p = target_path(d.root, parent);
    DocumentView {
        root: replace_at(d.root, p, with_child(node_at(d.root, p), new_element(d.next_id, tag))),
        next_id: (d.next_id + 1) as u32,
    }
}

/// Whether removing `selected` removes an element: it is not the window's
/// identifier and an element after the window has it.
pub open spec fn remove_applies(d: DocumentView, selected: u32) -> bool {
    selected != d.root.id && first_path(d.root, selected) is Some
}

/// The document after the first element after the window, in document
/// order, with identifier `selected` is removed with its tree.
pub open spec fn after_remove(d: DocumentView, selected: u32) -> DocumentView {
    if remove_applies(d, selected) {
        let q = first_path(d.root, selected).unwrap();
        DocumentView {
            root: replace_at(d.root, q.drop_last(), without_child(node_at(d.root, q.drop_last()), q.last())),
            ..d
        }
    } else {
        d
    }
}

/// Whether moving `selected` by `offset` moves an element: an element
/// after the window has the identifier and the place it moves to is among
/// its siblings.
pub open spec fn move_applies(d: DocumentView, selected: u32, offset: int) -> bool {
    first_path(d.root, selected) matches Some(q) && 0 <= q.last() + offset < node_at(
        d.root,
        q.drop_last(),
    ).children.len()
}

/// The document after the first element after the window, in document
/// order, with identifier `selected` exchanges places with its sibling
/// `offset` places away.
pub open spec fn after_move(d: DocumentView, selected: u32, offset: int) -> DocumentView {
    if move_applies(d, selected, offset) {
        let q = first_path(d.root, selected).unwrap();
        DocumentView {
            root: replace_at(
                d.root,
                q.drop_last(),
                with_children_swapped(node_at(d.root, q.drop_last()), q.last(), q.last() + offset),
            ),
            ..d
        }
    } else {
        d
    }
}

/// The document after a new element with tag `tag` takes the next
/// identifier and, where an element after the window has identifier
/// `selected`, is inserted right after the first such element.
pub open spec fn after_add_sibling(d: DocumentView, selected: u32, tag: Seq<char>) -> DocumentView {
    DocumentView {
        root: match first_path(d.root, selected) {
            Some(q) => replace_at(
                d.root,
                q.drop_last(),
                with_child_at(node_at(d.root, q.drop_last()), q.last() + 1, new_element(d.next_id, tag)),
            ),
            None => d.root,
        },
        next_id: (d.next_id + 1) as u32,
    }
}

/// The document that the designer edits.
pub struct Document {
    root: Element,
    next_id: u32,
}

impl View for Document {
    type V = DocumentView;

    closed spec fn view(&self) -> DocumentView {
        DocumentView { root: self.root@, next_id: self.next_id }
    }
}

/// The last step of a valid path leads to a child of the element that the
/// rest of the path leads to.
pub proof fn lemma_valid_path_last(e: ElementView, path: Seq<int>)
    requires
        valid_path(e, path),
        path.len() > 0,
    ensures
        valid_path(e, path.drop_last()),
        0 <= path.last() < node_at(e, path.drop_last()).children.len(),
        node_at(e, path) == node_at(e, path.drop_last()).children[path.last()],
    decreases path.len(),
{
    if path.len() > 1 {
        assert(path.drop_first().drop_last() =~= path.drop_last().drop_first());
        assert(path.drop_first().last() == path.last());
        assert(path.drop_last()[0] == path[0]);
        lemma_valid_path_last(e.children[path[0]], path.drop_first());
        let c = e.children[path[0]];
        assert(node_at(e, path.drop_last()) == node_at(c, path.drop_last().drop_first()));
        assert(node_at(e, path) == node_at(c, path.drop_first()));
    } else {
        assert(path.drop_last() =~= Seq::<int>::empty());
        assert(path.drop_first().len() == 0);
        assert(path.last() == path[0]);
        assert(node_at(e, path) == node_at(e.children[path[0]], path.drop_first()));
        assert(node_at(e, path.drop_last()) == e);
    }
}

impl Document {
    /// A document is well formed at all times.
    #[verifier::type_invariant]
    spec fn well_formed(self) -> bool {
        doc_wf(self@)
    }

    /// Takes the outermost element out, leaving an empty window with
    /// identifier 0 in its place, and tells that the document was well
    /// formed.
    fn take_root(&mut self) -> (r: Element)
        ensures
            r@ == old(self)@.root,
            final(self)@.next_id == old(self)@.next_id,
            doc_wf(old(self)@),
    {
        proof {
            use_type_invariant(&*self);
            lemma_ids_contains(self.root@, self.root@.id);
        }
        let mut root = Element::new(0, "Window");
        proof {
            lemma_ids_below_unfold(root@, self.next_id as int);
        }
        std::mem::swap(&mut root, &mut self.root);
        root
    }

    /// The outermost element.
    pub fn root(&self) -> (r: &Element)
        ensures
            r@ == self@.root,
    {
        &self.root
    }

    /// The identifier that the next new element receives.
    pub fn next_id(&self) -> (r: u32)
        ensures
            r == self@.next_id,
    {
        self.next_id
    }

    /// Hands out the next identifier.
    pub fn allocate_id(&mut self) -> (id: u32)
        requires
            old(self)@.next_id < u32::MAX,
        ensures
            id == old(self)@.next_id,
            final(self)@ == (DocumentView { next_id: (id + 1) as u32, ..old(self)@ }),
            doc_wf(final(self)@),
    {
        proof {
            use_type_invariant(&*self);
        }
        let id = self.next_id;
        self.next_id = id + 1;
        id
    }

    /// Adds a new element with tag `tag`, and the attributes that its tag
    /// starts with, as the last child of the element that the designer
    /// holds for `parent`, or of the window where there is none.
    pub fn add_child(&mut self, parent: Option<u32>, tag: &str)
        requires
            old(self)@.next_id < u32::MAX,
        ensures
            final(self)@ == after_add_child(old(self)@, parent, tag@),
            doc_wf(final(self)@),
            unique_ids(old(self)@.root) ==> unique_ids(final(self)@.root),
    {
        proof {
            use_type_invariant(&*self);
        }
        let ghost before = self@;
        let path = match parent {
            Some(id) => match locate(&self.root, id) {
                Some(p) => p,
                None => Vec::new(),
            },
            None => Vec::new(),
        };
        proof {
            if let Some(id) = parent {
                lemma_last_path(before.root, id);
            }
            assert(path_view(path@) =~= target_path(before.root, parent));
            assert(path_view(path@).skip(0) =~= path_view(path@));
        }
        let id = self.allocate_id();
        let mut child = Element::new(id, tag);
        apply_initial_props(&mut child);
        let ghost child_view = child@;
        let mut root = self.take_root();
        let node = node_mut(&mut root, &path, 0);
        let ghost kids = node.children@;
        let ghost node_view = node@;
        node.children.push(child);
        proof {
            crate::element::lemma_models_push(kids, child);
            assert(node@ == with_child(node_view, child_view));
        }
        proof {
            let p = target_path(before.root, parent);
            let bound = self.next_id as int;
            let parent_node = node_at(before.root, p);
            let grown = with_child(parent_node, new_element(id, tag@));
            lemma_ids_below_larger(before.root, before.next_id as int, bound);
            lemma_ids_below_node_at(before.root, p, bound);
            lemma_ids_below_unfold(parent_node, bound);
            lemma_ids_below_unfold(new_element(id, tag@), bound);
            lemma_ids_below_unfold(grown, bound);
            lemma_ids_below_replace(before.root, p, grown, bound);
            if unique_ids(before.root) {
                add_child_keeps_ids_unique(before, parent, tag@);
            }
        }
        self.root = root;
    }
}

/// Exchanges the elements at `i` and `j` (`slice::swap`).
fn swap_elements(v: &mut Vec<Element>, i: usize, j: usize)
    requires
        i < old(v).len(),
        j < old(v).len(),
    ensures
        final(v)@ == old(v)@.update(i as int, old(v)@[j as int]).update(j as int, old(v)@[i as int]),
{
    if i == j {
        assert(v@ =~= v@.update(i as int, v@[j as int]).update(j as int, v@[i as int]));
        return;
    }
    let (lo, hi) = if i < j {
        (i, j)
    } else {
        (j, i)
    };
    let ghost start = v@;
    let b = v.remove(hi);
    let a = v.remove(lo);
    v.insert(lo, b);
    v.insert(hi, a);
    assert(v@ =~= start.update(i as int, start[j as int]).update(j as int, start[i as int]));
}

/// Whether the children of `n` and their trees have identifiers below
/// `bound` (a step of `lemma_ids_below_unfold` for a rewritten parent).
proof fn lemma_parent_below(n: ElementView, m: ElementView, bound: int)
    requires
        ids_below(n, bound),
        m.id == n.id,
        forall|k: int|
            0 <= k < m.children.len() ==> exists|l: int|
                0 <= l < n.children.len() && #[trigger] m.children[k] == n.children[l],
    ensures
        ids_below(m, bound),
{
    lemma_ids_below_unfold(n, bound);
    lemma_ids_below_unfold(m, bound);
    assert forall|k: int| 0 <= k < m.children.len() implies ids_below(
        #[trigger] m.children[k],
        bound,
    ) by {
        let l = choose|l: int| 0 <= l < n.children.len() && m.children[k] == n.children[l];
        assert(ids_below(n.children[l], bound));
    }
}

/// The document that the designer starts with: an untitled window holding
/// a vertical box with a label and a button.
pub open spec fn default_document() -> DocumentView {
    DocumentView {
        root: ElementView {
            id: 1,
            tag: "Window"@,
            props: insert_all(
                Seq::empty(),
                seq![("title"@, "Untitled Window"@), ("width"@, "800"@), ("height"@, "600"@)],
            ),
            children: seq![
                ElementView {
                    id: 2,
                    tag: "VBox"@,
                    props: insert_all(Seq::empty(), seq![("padding"@, "12"@)]),
                    children: seq![
                        ElementView {
                            id: 3,
                            tag: "Label"@,
                            props: insert_all(Seq::empty(), seq![("text"@, "Hello Zuzu"@)]),
                            children: Seq::empty(),
                        },
                        ElementView {
                            id: 4,
                            tag: "Button"@,
                            props: insert_all(Seq::empty(), seq![("text"@, "OK"@)]),
                            children: Seq::empty(),
                        },
                    ],
                },
            ],
        },
        next_id: 5,
    }
}

/// The identifiers of the document that the designer starts with are
/// unique.
proof fn lemma_default_ids_unique()
    ensures
        unique_ids(default_document().root),
{
    let root = default_document().root;
    let vbox = root.children[0];
    let label = vbox.children[0];
    let button = vbox.children[1];
    assert(ids(label) =~= seq![3u32]);
    assert(ids(button) =~= seq![4u32]);
    crate::element::lemma_ids_all_single(label);
    assert(vbox.children.drop_last() =~= seq![label]);
    assert(ids_all(vbox.children) =~= seq![3u32, 4u32]);
    assert(ids(vbox) =~= seq![2u32, 3u32, 4u32]);
    crate::element::lemma_ids_all_single(vbox);
    assert(ids(root) =~= seq![1u32, 2u32, 3u32, 4u32]);
}

impl Document {
    /// The document that the designer starts with.
    pub fn new() -> (d: Document)
        ensures
            d@ == default_document(),
            doc_wf(d@),
            unique_ids(d@.root),
    {
        let mut root = Element::new(1, "Window");
        root.props.insert("title".to_owned(), "Untitled Window".to_owned());
        root.props.insert("width".to_owned(), "800".to_owned());
        root.props.insert("height".to_owned(), "600".to_owned());
        let mut vbox = Element::new(2, "VBox");
        vbox.props.insert("padding".to_owned(), "12".to_owned());
        let mut label = Element::new(3, "Label");
        label.props.insert("text".to_owned(), "Hello Zuzu".to_owned());
        let mut button = Element::new(4, "Button");
        button.props.insert("text".to_owned(), "OK".to_owned());
        proof {
            crate::props::lemma_insert_all_short(Seq::empty(), seq![("title"@, "Untitled Window"@), ("width"@, "800"@), ("height"@, "600"@)]);
            crate::props::lemma_insert_all_short(Seq::empty(), seq![("padding"@, "12"@)]);
            crate::props::lemma_insert_all_short(Seq::empty(), seq![("text"@, "Hello Zuzu"@)]);
            crate::props::lemma_insert_all_short(Seq::empty(), seq![("text"@, "OK"@)]);
        }
        let ghost label_view = label@;
        let ghost button_view = button@;
        proof {
            lemma_models_push(vbox.children@, label);
        }
        vbox.children.push(label);
        proof {
            lemma_models_push(vbox.children@, button);
        }
        vbox.children.push(button);
        assert(vbox@.children =~= seq![label_view, button_view]);
        let ghost vbox_view = vbox@;
        proof {
            lemma_models_push(root.children@, vbox);
        }
        root.children.push(vbox);
        assert(root@.children =~= seq![vbox_view]);
        proof {
            lemma_ids_below_unfold(label_view, 5);
            lemma_ids_below_unfold(button_view, 5);
            lemma_ids_below_unfold(vbox_view, 5);
            lemma_ids_below_unfold(root@, 5);
            lemma_default_ids_unique();
        }
        Document { root, next_id: 5 }
    }

    /// Whether the document holds an element with identifier `selected`
    /// other than the window's own identifier, so that a sibling can be
    /// added to it.
    pub fn can_add_sibling(&self, selected: u32) -> (r: bool)
        ensures
            r == (last_path(self@.root, selected) is Some && selected != self@.root.id),
    {
        match locate(&self.root, selected) {
            Some(_) => selected != self.root.id,
            None => false,
        }
    }

    /// Removes the first element after the window, in document order, with
    /// identifier `selected`, unless that identifier is the window's own.
    /// Tells whether an element was removed.
    pub fn remove(&mut self, selected: u32) -> (removed: bool)
        ensures
            removed == remove_applies(old(self)@, selected),
            final(self)@ == after_remove(old(self)@, selected),
            doc_wf(final(self)@),
            unique_ids(old(self)@.root) ==> unique_ids(final(self)@.root),
    {
        proof {
            use_type_invariant(&*self);
            if unique_ids(self@.root) {
                remove_keeps_ids_unique(self@, selected);
            }
        }
        if selected == self.root.id {
            return false;
        }
        let ghost before = self@;
        match find_parent(&self.root, selected) {
            Some((path, index)) => {
                let ghost q = first_path(before.root, selected).unwrap();
                proof {
                    lemma_first_path(before.root, selected);
                    assert(q.drop_last() =~= path_view(path@));
                    lemma_valid_path_last(before.root, q);
                    assert(path_view(path@).skip(0) =~= path_view(path@));
                }
                let mut root = self.take_root();
                let parent = node_mut(&mut root, &path, 0);
                let ghost parent_view = parent@;
                parent.children.remove(index);
                proof {
                    assert(Element::models(parent.children@) =~= parent_view.children.remove(index as int));
                    let shrunk = without_child(parent_view, index as int);
                    assert(parent@ == shrunk);
                    let bound = before.next_id as int;
                    lemma_ids_below_node_at(before.root, q.drop_last(), bound);
                    assert forall|k: int| 0 <= k < shrunk.children.len() implies exists|l: int|
                        0 <= l < parent_view.children.len() && #[trigger] shrunk.children[k]
                            == parent_view.children[l] by {
                        if k < index {
                            assert(shrunk.children[k] == parent_view.children[k]);
                        } else {
                            assert(shrunk.children[k] == parent_view.children[k + 1]);
                        }
                    }
                    lemma_parent_below(parent_view, shrunk, bound);
                    lemma_ids_below_replace(before.root, q.drop_last(), shrunk, bound);
                }
                self.root = root;
                true
            },
            None => false,
        }
    }

    /// Moves the first element after the window, in document order, with
    /// identifier `selected` by `offset` places among its siblings, by
    /// exchanging it with the sibling there; nothing happens where that
    /// place is outside the list of siblings. Tells whether it moved.
    pub fn move_selected(&mut self, selected: u32, offset: isize) -> (moved: bool)
        ensures
            moved == move_applies(old(self)@, selected, offset as int),
            final(self)@ == after_move(old(self)@, selected, offset as int),
            doc_wf(final(self)@),
            unique_ids(old(self)@.root) ==> unique_ids(final(self)@.root),
    {
        proof {
            use_type_invariant(&*self);
            if unique_ids(self@.root) {
                move_keeps_ids_unique(self@, selected, offset as int);
            }
        }
        let ghost before = self@;
        match find_parent(&self.root, selected) {
            Some((path, index)) => {
                let ghost q = first_path(before.root, selected).unwrap();
                proof {
                    lemma_first_path(before.root, selected);
                    assert(q.drop_last() =~= path_view(path@));
                    lemma_valid_path_last(before.root, q);
                    assert(path_view(path@).skip(0) =~= path_view(path@));
                }
                let siblings = node_ref(&self.root, &path, 0).children.len();
                let new_index: i128 = index as i128 + offset as i128;
                if new_index < 0 || new_index >= siblings as i128 {
                    return false;
                }
                let mut root = self.take_root();
                let parent = node_mut(&mut root, &path, 0);
                let target = new_index as usize;
                let ghost parent_view = parent@;
                swap_elements(&mut parent.children, index, target);
                proof {
                    let swapped = with_children_swapped(parent_view, index as int, target as int);
                    assert(Element::models(parent.children@) =~= swapped.children);
                    assert(parent@ == swapped);
                    let bound = before.next_id as int;
                    lemma_ids_below_node_at(before.root, q.drop_last(), bound);
                    assert forall|k: int| 0 <= k < swapped.children.len() implies exists|l: int|
                        0 <= l < parent_view.children.len() && #[trigger] swapped.children[k]
                            == parent_view.children[l] by {
                        if k == index {
                            assert(swapped.children[k] == parent_view.children[target as int]);
                        } else if k == target {
                            assert(swapped.children[k] == parent_view.children[index as int]);
                        } else {
                            assert(swapped.children[k] == parent_view.children[k]);
                        }
                    }
                    lemma_parent_below(parent_view, swapped, bound);
                    lemma_ids_below_replace(before.root, q.drop_last(), swapped, bound);
                }
                self.root = root;
                true
            },
            None => false,
        }
    }

    /// Adds a new element with tag `tag`, and the attributes that its tag
    /// starts with, right after the first element after the window, in
    /// document order, with identifier `selected`. The new element takes
    /// the next identifier whether or not there is such an element. Tells
    /// whether it was added.
    pub fn add_sibling(&mut self, selected: u32, tag: &str) -> (added: bool)
        requires
            old(self)@.next_id < u32::MAX,
        ensures
            added == first_path(old(self)@.root, selected) is Some,
            final(self)@ == after_add_sibling(old(self)@, selected, tag@),
            doc_wf(final(self)@),
            unique_ids(old(self)@.root) ==> unique_ids(final(self)@.root),
    {
        proof {
            use_type_invariant(&*self);
            if unique_ids(self@.root) {
                add_sibling_keeps_ids_unique(self@, selected, tag@);
            }
        }
        let ghost before = self@;
        let id = self.allocate_id();
        let mut sibling = Element::new(id, tag);
        apply_initial_props(&mut sibling);
        let ghost sibling_view = sibling@;
        match find_parent(&self.root, selected) {
            Some((path, index)) => {
                let ghost q = first_path(before.root, selected).unwrap();
                proof {
                    lemma_first_path(before.root, selected);
                    assert(q.drop_last() =~= path_view(path@));
                    lemma_valid_path_last(before.root, q);
                    assert(path_view(path@).skip(0) =~= path_view(path@));
                }
                let mut root = self.take_root();
                let parent = node_mut(&mut root, &path, 0);
                let ghost parent_view = parent@;
                assert(index < parent.children.len());
                parent.children.insert(index + 1, sibling);
                proof {
                    let grown = with_child_at(parent_view, index + 1, sibling_view);
                    assert(Element::models(parent.children@) =~= grown.children);
                    assert(parent@ == grown);
                    let bound = self.next_id as int;
                    lemma_ids_below_larger(before.root, before.next_id as int, bound);
                    lemma_ids_below_node_at(before.root, q.drop_last(), bound);
                    lemma_ids_below_unfold(parent_view, bound);
                    lemma_ids_below_unfold(sibling_view, bound);
                    lemma_ids_below_unfold(grown, bound);
                    assert forall|k: int| 0 <= k < grown.children.len() implies ids_below(
                        #[trigger] grown.children[k],
                        bound,
                    ) by {
                        if k < index + 1 {
                            assert(grown.children[k] == parent_view.children[k]);
                        } else if k > index + 1 {
                            assert(grown.children[k] == parent_view.children[k - 1]);
                        }
                    }
                    lemma_ids_below_replace(before.root, q.drop_last(), grown, bound);
                }
                self.root = root;
                true
            },
            None => {
                proof {
                    lemma_ids_below_larger(before.root, before.next_id as int, self.next_id as int);
                }
                false
            },
        }
    }
}

/// How many more elements than the tree of `e` holds fit within `room`:
/// `room - count(e)`, or `None` where the tree holds more than `room`.
pub fn room_left(e: &Element, room: u32) -> (r: Option<u32>)
    ensures
        match r {
            Some(left) => count(e@) <= room && left == room - count(e@),
            None => count(e@) > room,
        },
    decreases e,
{
    if room == 0 {
        return None;
    }
    let mut left = room - 1;
    let mut k: usize = 0;
    assert(e@.children.take(0) =~= Seq::<ElementView>::empty());
    while k < e.children.len()
        invariant
            k <= e.children.len(),
            e@.children.len() == e.children.len(),
            count(e@) == 1 + crate::element::count_all(e@.children),
            left == room - 1 - crate::element::count_all(e@.children.take(k as int)),
        decreases e.children.len() - k,
    {
        proof {
            crate::element::lemma_ids_all_take_next(e@.children, k as int);
            crate::element::lemma_ids_all_split(e@.children, k + 1);
        }
        assert(e.children@[k as int]@ == e@.children[k as int]);
        match room_left(&e.children[k], left) {
            Some(l) => {
                left = l;
            },
            None => {
                return None;
            },
        }
        k = k + 1;
    }
    assert(e@.children.take(k as int) =~= e@.children);
    Some(left)
}

impl Document {
    /// The element that the designer holds for identifier `id`: the last
    /// one in document order with that identifier.
    pub fn node(&self, id: u32) -> (r: Option<&Element>)
        ensures
            match r {
                Some(n) => last_path(self@.root, id) matches Some(p) && n@ == node_at(self@.root, p),
                None => last_path(self@.root, id) is None,
            },
    {
        match locate(&self.root, id) {
            Some(path) => {
                proof {
                    lemma_last_path(self@.root, id);
                    assert(path_view(path@).skip(0) =~= path_view(path@));
                }
                Some(node_ref(&self.root, &path, 0))
            },
            None => None,
        }
    }

    /// Replaces the document by the window `root`; the next identifier
    /// becomes one more than the largest identifier in it.
    pub fn replace_document(&mut self, root: Element)
        requires
            root@.tag == "Window"@,
            ids_below(root@, u32::MAX as int),
        ensures
            final(self)@ == (DocumentView {
                root: root@,
                next_id: (max_in(ids(root@), 0) + 1) as u32,
            }),
            doc_wf(final(self)@),
    {
        let mut max_id: u32 = 0;
        reindex_node(&root, &mut max_id);
        proof {
            lemma_max_in_bounds(ids(root@), 0);
            if max_id != 0 {
                assert(ids(root@).contains(max_id));
            }
            assert forall|x: u32| #[trigger] ids(root@).contains(x) implies x < max_id + 1 by {
                let k = choose|k: int| 0 <= k < ids(root@).len() && ids(root@)[k] == x;
            }
        }
        *self = Document { root, next_id: max_id + 1 };
    }

    /// Gives the elements of the tree of `node` fresh identifiers from the
    /// next identifier on, in document order.
    pub fn assign_new_ids(&mut self, node: &mut Element)
        requires
            old(self)@.next_id + count(old(node)@) <= u32::MAX,
        ensures
            final(node)@ == renumbered(old(node)@, old(self)@.next_id as int),
            final(self)@ == (DocumentView {
                next_id: (old(self)@.next_id + count(old(node)@)) as u32,
                ..old(self)@
            }),
            doc_wf(final(self)@),
            unique_ids(final(node)@),
    {
        proof {
            use_type_invariant(&*self);
        }
        let ghost before = self@;
        let ghost unnumbered = node@;
        let mut next = self.next_id;
        assign_new_ids(node, &mut next);
        proof {
            lemma_ids_below_larger(before.root, before.next_id as int, next as int);
        }
        self.next_id = next;
        proof {
            lemma_renumbered_ids(unnumbered, before.next_id as int);
            lemma_id_range_unique(before.next_id as int, count(unnumbered));
        }
    }

    /// Whether the tree of `node` can be given fresh identifiers from the
    /// next identifier on.
    pub fn has_room_for(&self, node: &Element) -> (r: bool)
        ensures
            r == (self@.next_id + count(node@) <= u32::MAX),
    {
        room_left(node, u32::MAX - self.next_id).is_some()
    }

    /// Adds the element tree `node`, with fresh identifiers, as the last
    /// child of the element that the designer holds for `parent`, or of the
    /// window where there is none. A window cannot be added as a child.
    pub fn paste_child(&mut self, parent: Option<u32>, node: Element) -> (r: Result<(), String>)
        requires
            old(self)@.next_id + count(node@) <= u32::MAX,
        ensures
            doc_wf(final(self)@),
            r is Err <==> node@.tag == "Window"@,
            r matches Err(m) ==> m@ == "Window XML cannot be pasted as a child widget."@
                && final(self)@ == old(self)@,
            r is Ok ==> final(self)@ == (DocumentView {
                root: replace_at(
                    old(self)@.root,
                    target_path(old(self)@.root, parent),
                    with_child(
                        node_at(old(self)@.root, target_path(old(self)@.root, parent)),
                        renumbered(node@, old(self)@.next_id as int),
                    ),
                ),
                next_id: (old(self)@.next_id + count(node@)) as u32,
            }),
            unique_ids(old(self)@.root) ==> unique_ids(final(self)@.root),
    {
        proof {
            use_type_invariant(&*self);
            if unique_ids(self@.root) && node@.tag != "Window"@ {
                paste_keeps_ids_unique(self@, parent, node@);
            }
        }
        if same_text(node.tag.as_str(), "Window") {
            return Err("Window XML cannot be pasted as a child widget.".to_owned());
        }
        let ghost before = self@;
        let ghost unnumbered = node@;
        let mut node = node;
        self.assign_new_ids(&mut node);
        let path = match parent {
            Some(id) => match locate(&self.root, id) {
                Some(p) => p,
                None => Vec::new(),
            },
            None => Vec::new(),
        };
        proof {
            if let Some(id) = parent {
                lemma_last_path(before.root, id);
            }
            assert(path_view(path@) =~= target_path(before.root, parent));
            assert(path_view(path@).skip(0) =~= path_view(path@));
        }
        let ghost pasted = node@;
        let mut root = self.take_root();
        let target = node_mut(&mut root, &path, 0);
        let ghost kids = target.children@;
        let ghost target_view = target@;
        proof {
            lemma_models_push(kids, node);
        }
        target.children.push(node);
        proof {
            assert(target@ == with_child(target_view, pasted));
            let p = target_path(before.root, parent);
            let bound = self.next_id as int;
            lemma_renumbered_ids(unnumbered, before.next_id as int);
            assert(pasted == renumbered(unnumbered, before.next_id as int));
            assert forall|x: u32| #[trigger] ids(pasted).contains(x) implies x < bound by {
                let k = choose|k: int| 0 <= k < ids(pasted).len() && ids(pasted)[k] == x;
            }
            lemma_ids_below_larger(before.root, before.next_id as int, bound);
            lemma_ids_below_node_at(before.root, p, bound);
            lemma_ids_below_unfold(target_view, bound);
            lemma_ids_below_unfold(with_child(target_view, pasted), bound);
            lemma_ids_below_replace(before.root, p, with_child(target_view, pasted), bound);
        }
        self.root = root;
        Ok(())
    }
}

/// A list of pairs of strings as characters.
pub open spec fn pairs_view(fields: Seq<(String, String)>) -> Seq<(Seq<char>, Seq<char>)> {
    fields.map_values(|f: (String, String)| (f.0@, f.1@))
}

/// The attributes that the edit form of `n` shows, in order, each with the
/// element's value for it, or empty text where it has none.
pub open spec fn edit_form(n: ElementView) -> Seq<(Seq<char>, Seq<char>)> {
    allowed_attrs(n.tag).map_values(
        |name: Seq<char>|
            (
                name,
                match lookup(n.props, name) {
                    Some(v) => v,
                    None => Seq::empty(),
                },
            ),
    )
}

/// The attributes that an edit form stores: each field whose text, without
/// leading and trailing white space, is not empty, with that text.
pub open spec fn kept_fields(fields: Seq<(Seq<char>, Seq<char>)>) -> Seq<(Seq<char>, Seq<char>)>
    decreases fields.len(),
{
    if fields.len() == 0 {
        Seq::empty()
    } else if trimmed(fields.last().1).len() == 0 {
        kept_fields(fields.drop_last())
    } else {
        kept_fields(fields.drop_last()).push((fields.last().0, trimmed(fields.last().1)))
    }
}

impl Document {
    /// The fields of the edit form of the element that the designer holds
    /// for `id`: the attributes its tag accepts, with its values.
    pub fn edit_fields(&self, id: u32) -> (r: Option<Vec<(String, String)>>)
        ensures
            match r {
                Some(fields) => last_path(self@.root, id) matches Some(p) && pairs_view(fields@)
                    == edit_form(node_at(self@.root, p)),
                None => last_path(self@.root, id) is None,
            },
    {
        let node = match self.node(id) {
            Some(n) => n,
            None => return None,
        };
        let attrs = attrs_for(node.tag.as_str());
        let ghost names = attrs@.map_values(|a: &str| a@);
        let mut fields: Vec<(String, String)> = Vec::new();
        let mut i: usize = 0;
        while i < attrs.len()
            invariant
                i <= attrs@.len(),
                names == attrs@.map_values(|a: &str| a@),
                names == allowed_attrs(node@.tag),
                pairs_view(fields@) == edit_form(node@).take(i as int),
            decreases attrs.len() - i,
        {
            let name = attrs[i];
            assert(names[i as int] == name@);
            let text = match node.props.get(name) {
                Some(v) => v.clone(),
                None => String::new(),
            };
            assert(edit_form(node@)[i as int] == (name@, text@));
            let ghost before = fields@;
            let owned = name.to_owned();
            let ghost pair_view = (owned@, text@);
            fields.push((owned, text));
            assert(fields@ == before.push(fields@.last()));
            assert(pairs_view(fields@) =~= pairs_view(before).push(pair_view));
            assert(edit_form(node@).take(i + 1) =~= edit_form(node@).take(i as int).push(edit_form(node@)[i as int]));
            i = i + 1;
        }
        assert(edit_form(node@).take(i as int) =~= edit_form(node@));
        Some(fields)
    }

    /// Stores an edit form into the element that the designer holds for
    /// `id`: its attributes become the fields whose text, trimmed of white
    /// space, is not empty. Tells whether there is such an element.
    pub fn apply_edit(&mut self, id: u32, fields: &Vec<(String, String)>) -> (applied: bool)
        ensures
            doc_wf(final(self)@),
            applied == last_path(old(self)@.root, id) is Some,
            applied ==> ({
                let p = last_path(old(self)@.root, id).unwrap();
                final(self)@ == (DocumentView {
                    root: replace_at(
                        old(self)@.root,
                        p,
                        ElementView {
                            props: insert_all(Seq::empty(), kept_fields(pairs_view(fields@))),
                            ..node_at(old(self)@.root, p)
                        },
                    ),
                    ..old(self)@
                })
            }),
            !applied ==> final(self)@ == old(self)@,
            unique_ids(old(self)@.root) ==> unique_ids(final(self)@.root),
    {
        proof {
            use_type_invariant(&*self);
        }
        let ghost before = self@;
        let path = match locate(&self.root, id) {
            Some(p) => p,
            None => return false,
        };
        proof {
            lemma_last_path(before.root, id);
            assert(path_view(path@).skip(0) =~= path_view(path@));
        }
        let mut root = self.take_root();
        let node = node_mut(&mut root, &path, 0);
        let ghost node_view = node@;
        let ghost all = pairs_view(fields@);
        node.props.clear();
        let mut i: usize = 0;
        assert(all.take(0) =~= Seq::<(Seq<char>, Seq<char>)>::empty());
        while i < fields.len()
            invariant
                i <= fields.len(),
                all == pairs_view(fields@),
                node@ == (ElementView {
                    props: insert_all(Seq::empty(), kept_fields(all.take(i as int))),
                    ..node_view
                }),
            decreases fields.len() - i,
        {
            let value = trim_text(fields[i].1.as_str());
            let ghost t = all.take(i + 1);
            assert(t.drop_last() =~= all.take(i as int));
            assert(t.last() == all[i as int]);
            if !value.as_str().is_empty() {
                let ghost kept = kept_fields(all.take(i as int));
                node.props.insert(fields[i].0.clone(), value);
                assert(kept_fields(t) == kept.push((all[i as int].0, trimmed(all[i as int].1))));
                assert(kept.push((all[i as int].0, trimmed(all[i as int].1))).drop_last() =~= kept);
            }
            i = i + 1;
        }
        assert(all.take(i as int) =~= all);
        proof {
            let p = path_view(path@);
            let bound = before.next_id as int;
            lemma_ids_below_node_at(before.root, p, bound);
            lemma_ids_below_unfold(node_view, bound);
            lemma_ids_below_unfold(node@, bound);
            lemma_ids_below_replace(before.root, p, node@, bound);
            assert(p.len() == 0 ==> node@.tag == before.root.tag);
            if unique_ids(before.root) {
                edit_keeps_ids_unique(before.root, p, node@.props);
            }
        }
        self.root = root;
        true
    }
}

/// The shape of the element tree as the tree view holds it after a drag:
/// identifiers only, nested.
pub struct TreeLayout {
    pub id: u32,
    pub children: Vec<TreeLayout>,
}

/// A layout as a mathematical tree.
pub struct LayoutView {
    pub id: u32,
    pub children: Seq<LayoutView>,
}

impl TreeLayout {
    /// The models of a sequence of layouts.
    pub open spec fn models(children: Seq<TreeLayout>) -> Seq<LayoutView>
        decreases children,
    {
        Seq::new(
            children.len(),
            |i: int|
                if 0 <= i < children.len() {
                    children[i].model()
                } else {
                    arbitrary()
                },
        )
    }

    /// The model of this layout.
    pub open spec fn model(self) -> LayoutView
        decreases self,
    {
        LayoutView { id: self.id, children: Self::models(self.children@) }
    }
}

impl View for TreeLayout {
    type V = LayoutView;

    open spec fn view(&self) -> LayoutView {
        self.model()
    }
}

/// The element tree that the layout `l` gives to the elements of `root`:
/// each identifier takes the tag and attributes of the element that the
/// designer holds for it; a layout entry whose identifier the document
/// lacks is dropped with what lies under it.
pub open spec fn layout_element(root: ElementView, l: LayoutView) -> Option<ElementView>
    decreases l,
{
    match last_path(root, l.id) {
        Some(p) => Some(
            ElementView {
                id: l.id,
                tag: node_at(root, p).tag,
                props: node_at(root, p).props,
                children: layout_children(root, l.children),
            },
        ),
        None => None,
    }
}

/// The element trees that the layouts `s` give, in order, leaving out
/// those whose identifier the document lacks.
pub open spec fn layout_children(root: ElementView, s: Seq<LayoutView>) -> Seq<ElementView>
    decreases s,
{
    if s.len() == 0 {
        Seq::empty()
    } else {
        match layout_element(root, s.last()) {
            Some(e) => layout_children(root, s.drop_last()).push(e),
            None => layout_children(root, s.drop_last()),
        }
    }
}

/// A tree rebuilt from a layout holds only identifiers of the document.
pub proof fn lemma_layout_below(root: ElementView, l: LayoutView, bound: int)
    requires
        ids_below(root, bound),
    ensures
        layout_element(root, l) matches Some(e) ==> ids_below(e, bound),
    decreases l,
{
    lemma_layout_children_below(root, l.children, bound);
    if let Some(e) = layout_element(root, l) {
        let p = last_path(root, l.id).unwrap();
        lemma_last_path(root, l.id);
        lemma_ids_below_node_at(root, p, bound);
        lemma_ids_below_unfold(node_at(root, p), bound);
        lemma_ids_below_unfold(e, bound);
    }
}

/// Trees rebuilt from layouts hold only identifiers of the document.
pub proof fn lemma_layout_children_below(root: ElementView, s: Seq<LayoutView>, bound: int)
    requires
        ids_below(root, bound),
    ensures
        ids_all_below(layout_children(root, s), bound),
    decreases s,
{
    if s.len() > 0 {
        lemma_layout_children_below(root, s.drop_last(), bound);
        lemma_layout_below(root, s.last(), bound);
    }
}

/// Whether a sync with the layouts `roots` replaces the document: there is
/// exactly one, its identifier is in the document, and it rebuilds a
/// window.
pub open spec fn sync_applies(root: ElementView, roots: Seq<LayoutView>) -> bool {
    &&& roots.len() == 1
    &&& layout_element(root, roots[0]) matches Some(e)
    &&& e.tag == "Window"@
}

impl Document {
    /// The element tree that `layout` gives to the elements of the
    /// document.
    pub fn tree_from_layout(&self, layout: &TreeLayout) -> (r: Option<Element>)
        ensures
            match r {
                Some(e) => layout_element(self@.root, layout@) == Some(e@),
                None => layout_element(self@.root, layout@) is None,
            },
        decreases layout,
    {
        let node = match self.node(layout.id) {
            Some(n) => n,
            None => return None,
        };
        let mut children: Vec<Element> = Vec::new();
        let mut k: usize = 0;
        assert(layout@.children.take(0) =~= Seq::<LayoutView>::empty());
        assert(Element::models(children@) =~= Seq::<ElementView>::empty());
        while k < layout.children.len()
            invariant
                k <= layout.children.len(),
                layout@.children.len() == layout.children.len(),
                Element::models(children@) == layout_children(
                    self@.root,
                    layout@.children.take(k as int),
                ),
            decreases layout.children.len() - k,
        {
            let ghost t = layout@.children.take(k + 1);
            assert(t.drop_last() =~= layout@.children.take(k as int));
            assert(t.last() == layout@.children[k as int]);
            assert(layout.children@[k as int]@ == layout@.children[k as int]);
            match self.tree_from_layout(&layout.children[k]) {
                Some(child) => {
                    proof {
                        lemma_models_push(children@, child);
                    }
                    children.push(child);
                },
                None => {},
            }
            k = k + 1;
        }
        assert(layout@.children.take(k as int) =~= layout@.children);
        Some(Element {
            id: layout.id,
            tag: node.tag.clone(),
            props: node.props.duplicate(),
            children,
        })
    }

    /// Takes over the element tree as the tree view holds it after a drag,
    /// where there is exactly one top-level entry and it rebuilds a window;
    /// the next identifier then becomes one more than the largest one.
    /// Tells whether the document was replaced.
    pub fn sync_from_layout(&mut self, roots: &Vec<TreeLayout>) -> (replaced: bool)
        ensures
            doc_wf(final(self)@),
            replaced == sync_applies(old(self)@.root, TreeLayout::models(roots@)),
            replaced ==> ({
                let e = layout_element(old(self)@.root, TreeLayout::models(roots@)[0]).unwrap();
                final(self)@ == (DocumentView { root: e, next_id: (max_in(ids(e), 0) + 1) as u32 })
            }),
            !replaced ==> final(self)@ == old(self)@,
            replaced && layout_ids(TreeLayout::models(roots@)[0]).no_duplicates() ==> unique_ids(
                final(self)@.root,
            ),
    {
        proof {
            use_type_invariant(&*self);
        }
        let ghost before = self@;
        if roots.len() != 1 {
            return false;
        }
        assert(TreeLayout::models(roots@)[0] == roots@[0]@);
        let root = match self.tree_from_layout(&roots[0]) {
            Some(r) => r,
            None => return false,
        };
        if !same_text(root.tag.as_str(), "Window") {
            return false;
        }
        proof {
            lemma_layout_below(self@.root, roots@[0]@, self@.next_id as int);
            if layout_ids(roots@[0]@).no_duplicates() {
                layout_without_repeats_gives_unique_ids(before.root, roots@[0]@);
            }
        }
        self.replace_document(root);
        true
    }

    /// The rows of the element tree, in document order.
    pub fn rows(&self) -> (r: Vec<crate::outline::TreeRow>)
        ensures
            crate::outline::rows_view(r@) == crate::outline::rows_of(self@.root, None, 0),
    {
        crate::outline::tree_rows(&self.root)
    }
}

} // verus!
