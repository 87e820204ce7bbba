//! What a sync with the tree view gives where the tree view still shows
//! the element tree as it is.

use vstd::prelude::*;

use crate::document::{
    doc_wf, layout_children, layout_element, sync_applies, DocumentView, LayoutView,
};
use crate::element::{
    count, ids, ids_all, ids_before, last_path, lemma_ids_all_split, lemma_ids_all_take_next, lemma_ids_at,
    lemma_last_path, node_at, valid_path, ElementView,
};
use crate::paths::lemma_valid_path_push;
use crate::unique::{lemma_unique_counts, unique_ids};

verus! {

/// The layout that the tree view shows for the tree of `e`.
pub open spec fn layout_of(e: ElementView) -> LayoutView
    decreases e,
{
    LayoutView { id: e.id, children: layouts_of(e.children) }
}

/// The layouts of the trees of `s`, in order.
pub open spec fn layouts_of(s: Seq<ElementView>) -> Seq<LayoutView>
    decreases s,
{
    if s.len() == 0 {
        Seq::empty()
    } else {
        layouts_of(s.drop_last()).push(layout_of(s.last()))
    }
}

/// Fewer elements come before an element of a tree than the tree holds.
proof fn lemma_before_len(e: ElementView, p: Seq<int>)
    requires
        valid_path(e, p),
    ensures
        ids_before(e, p).len() < count(e),
{
    lemma_ids_at(e, p);
    assert(ids(node_at(e, p)).len() > 0);
}

/// Different paths have different numbers of elements before them.
proof fn lemma_before_len_injective(e: ElementView, p1: Seq<int>, p2: Seq<int>)
    requires
        valid_path(e, p1),
        valid_path(e, p2),
        ids_before(e, p1).len() == ids_before(e, p2).len(),
    ensures
        p1 == p2,
    decreases p1.len(),
{
    if p1.len() == 0 || p2.len() == 0 {
        assert(p1.len() == 0 && p2.len() == 0);
        assert(p1 =~= p2);
    } else {
        let i1 = p1[0];
        let i2 = p2[0];
        let cs = e.children;
        lemma_before_len(cs[i1], p1.drop_first());
        lemma_before_len(cs[i2], p2.drop_first());
        if i1 != i2 {
            let (lo, hi, plo) = if i1 < i2 {
                (i1, i2, p1)
            } else {
                (i2, i1, p2)
            };
            lemma_ids_all_take_next(cs, lo);
            lemma_ids_all_split(cs.take(hi), lo + 1);
            assert(cs.take(hi).take(lo + 1) =~= cs.take(lo + 1));
            assert(false);
        }
        lemma_before_len_injective(cs[i1], p1.drop_first(), p2.drop_first());
        assert(p1 =~= seq![i1] + p1.drop_first());
        assert(p2 =~= seq![i2] + p2.drop_first());
    }
}

/// Where no two elements share an identifier, the last search for the
/// identifier of an element stops at that element.
pub proof fn lemma_last_path_unique(e: ElementView, p: Seq<int>)
    requires
        unique_ids(e),
        valid_path(e, p),
    ensures
        last_path(e, node_at(e, p).id) == Some(p),
{
    let id = node_at(e, p).id;
    lemma_ids_at(e, p);
    let b = ids_before(e, p);
    assert(ids(node_at(e, p))[0] == id);
    assert(ids(e)[b.len() as int] == id);
    lemma_last_path(e, id);
    let q = last_path(e, id).unwrap();
    lemma_ids_at(e, q);
    let bq = ids_before(e, q);
    assert(ids(node_at(e, q))[0] == id);
    assert(ids(e)[bq.len() as int] == id);
    lemma_before_len_injective(e, p, q);
}

/// Rebuilding the tree of the element at `p` from its own layout gives it
/// back, where no two elements share an identifier.
proof fn lemma_layout_tree(root: ElementView, p: Seq<int>)
    requires
        unique_ids(root),
        valid_path(root, p),
    ensures
        layout_element(root, layout_of(node_at(root, p))) == Some(node_at(root, p)),
    decreases node_at(root, p), 1nat, 0nat,
{
    let n = node_at(root, p);
    lemma_last_path_unique(root, p);
    lemma_layout_all(root, p, n.children.len() as int);
    assert(n.children.take(n.children.len() as int) =~= n.children);
}

/// Rebuilding the first `k` children of the element at `p` from their own
/// layouts gives them back.
proof fn lemma_layout_all(root: ElementView, p: Seq<int>, k: int)
    requires
        unique_ids(root),
        valid_path(root, p),
        0 <= k <= node_at(root, p).children.len(),
    ensures
        layout_children(root, layouts_of(node_at(root, p).children.take(k))) == node_at(
            root,
            p,
        ).children.take(k),
    decreases node_at(root, p), 0nat, k,
{
    let n = node_at(root, p);
    let t = n.children.take(k);
    if k == 0 {
        assert(t =~= Seq::<ElementView>::empty());
    } else {
        lemma_valid_path_push(root, p, k - 1);
        assert(t.drop_last() =~= n.children.take(k - 1));
        assert(t.last() == n.children[k - 1]);
        lemma_layout_all(root, p, k - 1);
        lemma_layout_tree(root, p.push(k - 1));
        assert(layouts_of(t).drop_last() =~= layouts_of(n.children.take(k - 1)));
        assert(n.children.take(k - 1).push(n.children[k - 1]) =~= t);
    }
}

/// A sync with the layout that the tree view shows for the document as it
/// is rebuilds the document's own window, where no two elements share an
/// identifier.
pub proof fn sync_with_own_layout_keeps_tree(d: DocumentView)
    requires
        doc_wf(d),
        unique_ids(d.root),
    ensures
        sync_applies(d.root, seq![layout_of(d.root)]),
        layout_element(d.root, layout_of(d.root)) == Some(d.root),
{
    lemma_layout_tree(d.root, Seq::empty());
}

/// The identifiers of a layout, in document order.
pub open spec fn layout_ids(l: LayoutView) -> Seq<u32>
    decreases l,
{
    seq![l.id] + layout_ids_all(l.children)
}

/// The identifiers of a sequence of layouts, in document order.
pub open spec fn layout_ids_all(s: Seq<LayoutView>) -> Seq<u32>
    decreases s,
{
    if s.len() == 0 {
        Seq::empty()
    } else {
        layout_ids_all(s.drop_last()) + layout_ids(s.last())
    }
}

/// A tree rebuilt from a layout holds each identifier no more often than
/// the layout does.
proof fn lemma_layout_element_counts(root: ElementView, l: LayoutView, v: u32)
    ensures
        layout_element(root, l) matches Some(e) ==> ids(e).to_multiset().count(v)
            <= layout_ids(l).to_multiset().count(v),
    decreases l,
{
    broadcast use vstd::multiset::group_multiset_axioms;

    lemma_layout_children_counts(root, l.children, v);
    if let Some(e) = layout_element(root, l) {
        vstd::seq_lib::lemma_multiset_commutative(seq![e.id], ids_all(e.children));
        vstd::seq_lib::lemma_multiset_commutative(seq![l.id], layout_ids_all(l.children));
    }
}

/// Trees rebuilt from layouts hold each identifier no more often than the
/// layouts do.
proof fn lemma_layout_children_counts(root: ElementView, s: Seq<LayoutView>, v: u32)
    ensures
        ids_all(layout_children(root, s)).to_multiset().count(v) <= layout_ids_all(
            s,
        ).to_multiset().count(v),
    decreases s,
{
    broadcast use vstd::multiset::group_multiset_axioms;
    broadcast use vstd::seq_lib::group_to_multiset_ensures;

    if s.len() == 0 {
        assert(ids_all(layout_children(root, s)) =~= Seq::<u32>::empty());
    } else {
        let front = layout_children(root, s.drop_last());
        lemma_layout_children_counts(root, s.drop_last(), v);
        lemma_layout_element_counts(root, s.last(), v);
        vstd::seq_lib::lemma_multiset_commutative(layout_ids_all(s.drop_last()), layout_ids(s.last()));
        if let Some(e) = layout_element(root, s.last()) {
            let grown = front.push(e);
            assert(grown.drop_last() =~= front);
            vstd::seq_lib::lemma_multiset_commutative(ids_all(front), ids(e));
        }
    }
}

/// A tree rebuilt from a layout without repeated identifiers has no
/// repeated identifiers.
pub proof fn layout_without_repeats_gives_unique_ids(root: ElementView, l: LayoutView)
    requires
        layout_ids(l).no_duplicates(),
    ensures
        layout_element(root, l) matches Some(e) ==> unique_ids(e),
{
    if let Some(e) = layout_element(root, l) {
        lemma_unique_counts(layout_ids(l));
        lemma_unique_counts(ids(e));
        assert forall|v: u32| #[trigger] ids(e).to_multiset().count(v) <= 1 by {
            lemma_layout_element_counts(root, l, v);
            assert(layout_ids(l).to_multiset().count(v) <= 1);
        }
    }
}

} // verus!
