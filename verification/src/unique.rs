//! That no two elements of a document share an identifier, and that every
//! editing operation keeps it so (a sync with the tree view where the tree
//! view repeats no identifier: see `layout_laws`).

use vstd::prelude::*;

use crate::document::{
    after_add_child, after_add_sibling, after_move, after_remove, doc_wf, lemma_valid_path_last,
    move_applies, new_element, remove_applies, target_path, with_child, with_child_at,
    with_children_swapped, without_child, DocumentView,
};
use crate::element::{
    count, first_path, id_range, ids, ids_after, ids_all, ids_before, lemma_first_path,
    lemma_ids_all_around, lemma_ids_all_concat, lemma_ids_all_single, lemma_ids_all_split,
    lemma_ids_at, lemma_ids_replaced, lemma_renumbered_ids, node_at, renumbered, replace_at,
    valid_path, ElementView,
};
use crate::laws::lemma_target_path;

verus! {

/// Whether no two elements of the tree of `e` share an identifier.
pub open spec fn unique_ids(e: ElementView) -> bool {
    ids(e).no_duplicates()
}

/// A sequence has no duplicates exactly when nothing occurs in it twice.
pub proof fn lemma_unique_counts(s: Seq<u32>)
    ensures
        s.no_duplicates() <==> forall|x: u32| #[trigger] s.to_multiset().count(x) <= 1,
{
    broadcast use vstd::multiset::group_multiset_axioms;
    broadcast use vstd::seq_lib::group_to_multiset_ensures;

    if s.no_duplicates() {
        s.lemma_multiset_has_no_duplicates();
        assert forall|x: u32| #[trigger] s.to_multiset().count(x) <= 1 by {
            if s.to_multiset().count(x) > 0 {
                assert(s.to_multiset().contains(x));
            }
        }
    }
    if forall|x: u32| #[trigger] s.to_multiset().count(x) <= 1 {
        assert forall|x: u32| s.to_multiset().contains(x) implies s.to_multiset().count(x) == 1 by {
            assert(s.to_multiset().count(x) <= 1);
        }
        s.lemma_multiset_has_no_duplicates_conv();
    }
}

/// Replacing the element at `p` keeps identifiers unique where each
/// identifier of the new tree occurs in it no more often than in the old
/// one, or occurs once and nowhere in the document.
proof fn lemma_unique_replace(e: ElementView, p: Seq<int>, n: ElementView)
    requires
        valid_path(e, p),
        unique_ids(e),
        forall|x: u32|
            #[trigger] ids(n).to_multiset().count(x) <= ids(node_at(e, p)).to_multiset().count(x)
                || (ids(n).to_multiset().count(x) <= 1 && !ids(e).contains(x)),
    ensures
        unique_ids(replace_at(e, p, n)),
{
    broadcast use vstd::multiset::group_multiset_axioms;
    broadcast use vstd::seq_lib::group_to_multiset_ensures;

    let b = ids_before(e, p);
    let x = ids(node_at(e, p));
    let a = ids_after(e, p);
    let y = ids(n);
    let r = replace_at(e, p, n);
    lemma_ids_at(e, p);
    lemma_ids_replaced(e, p, n);
    vstd::seq_lib::lemma_multiset_commutative(b + x, a);
    vstd::seq_lib::lemma_multiset_commutative(b, x);
    vstd::seq_lib::lemma_multiset_commutative(b + y, a);
    vstd::seq_lib::lemma_multiset_commutative(b, y);
    lemma_unique_counts(ids(e));
    lemma_unique_counts(ids(r));
    assert forall|v: u32| #[trigger] ids(r).to_multiset().count(v) <= 1 by {
        assert(ids(e).to_multiset().count(v) <= 1);
        assert(ids(n).to_multiset().count(v) <= x.to_multiset().count(v) || (
        y.to_multiset().count(v) <= 1 && !ids(e).contains(v)));
    }
}

/// The identifiers below `cs` with the child at `k` replaced by `c`: those
/// of `c` in place of those of the old child.
proof fn lemma_ids_all_update_counts(cs: Seq<ElementView>, k: int, c: ElementView, v: u32)
    requires
        0 <= k < cs.len(),
    ensures
        ids_all(cs.update(k, c)).to_multiset().count(v) + ids(cs[k]).to_multiset().count(v)
            == ids_all(cs).to_multiset().count(v) + ids(c).to_multiset().count(v),
{
    broadcast use vstd::multiset::group_multiset_axioms;

    let u = cs.update(k, c);
    lemma_ids_all_around(cs, k);
    lemma_ids_all_around(u, k);
    assert(u.take(k) =~= cs.take(k));
    assert(u.skip(k + 1) =~= cs.skip(k + 1));
    let t = ids_all(cs.take(k));
    let s = ids_all(cs.skip(k + 1));
    vstd::seq_lib::lemma_multiset_commutative(t + ids(cs[k]), s);
    vstd::seq_lib::lemma_multiset_commutative(t, ids(cs[k]));
    vstd::seq_lib::lemma_multiset_commutative(t + ids(c), s);
    vstd::seq_lib::lemma_multiset_commutative(t, ids(c));
}

/// The identifiers of an element: its own, then those below its children.
proof fn lemma_ids_counts(n: ElementView, v: u32)
    ensures
        ids(n).to_multiset().count(v) == seq![n.id].to_multiset().count(v) + ids_all(
            n.children,
        ).to_multiset().count(v),
{
    broadcast use vstd::multiset::group_multiset_axioms;

    vstd::seq_lib::lemma_multiset_commutative(seq![n.id], ids_all(n.children));
}

/// Inserting, among the children of the element at `p`, a tree whose
/// identifiers are unique and new to the document keeps identifiers
/// unique.
proof fn lemma_unique_insert(e: ElementView, p: Seq<int>, j: int, c: ElementView)
    requires
        valid_path(e, p),
        unique_ids(e),
        0 <= j <= node_at(e, p).children.len(),
        ids(c).no_duplicates(),
        forall|x: u32| ids(c).contains(x) ==> !ids(e).contains(x),
    ensures
        unique_ids(replace_at(e, p, with_child_at(node_at(e, p), j, c))),
{
    broadcast use vstd::multiset::group_multiset_axioms;
    broadcast use vstd::seq_lib::group_to_multiset_ensures;

    let n = node_at(e, p);
    let m = with_child_at(n, j, c);
    let cs = n.children;
    assert(m.children =~= cs.take(j) + seq![c] + cs.skip(j));
    lemma_ids_all_concat(cs.take(j) + seq![c], cs.skip(j));
    lemma_ids_all_concat(cs.take(j), seq![c]);
    lemma_ids_all_single(c);
    lemma_ids_all_split(cs, j);
    let t = ids_all(cs.take(j));
    let s = ids_all(cs.skip(j));
    vstd::seq_lib::lemma_multiset_commutative(t + ids(c), s);
    vstd::seq_lib::lemma_multiset_commutative(t, ids(c));
    vstd::seq_lib::lemma_multiset_commutative(t, s);
    lemma_unique_counts(ids(c));
    lemma_ids_at(e, p);
    assert forall|v: u32|
        #[trigger] ids(m).to_multiset().count(v) <= ids(n).to_multiset().count(v) || (ids(
            m,
        ).to_multiset().count(v) <= 1 && !ids(e).contains(v)) by {
        lemma_ids_counts(n, v);
        lemma_ids_counts(m, v);
        if ids(c).to_multiset().count(v) > 0 {
            assert(ids(c).contains(v));
            if ids(n).contains(v) {
                let k = choose|k: int| 0 <= k < ids(n).len() && ids(n)[k] == v;
                assert(ids(e)[ids_before(e, p).len() + k] == v);
            }
        }
    }
    lemma_unique_replace(e, p, m);
}

/// Adding a child keeps identifiers unique.
pub proof fn add_child_keeps_ids_unique(d: DocumentView, parent: Option<u32>, tag: Seq<char>)
    requires
        doc_wf(d),
        d.next_id < u32::MAX,
        unique_ids(d.root),
    ensures
        unique_ids(after_add_child(d, parent, tag).root),
{
    let e = d.root;
    let p = target_path(e, parent);
    lemma_target_path(e, parent);
    let n = node_at(e, p);
    let c = new_element(d.next_id, tag);
    let j = n.children.len() as int;
    assert(n.children.push(c) =~= n.children.insert(j, c));
    assert(with_child(n, c) == with_child_at(n, j, c));
    assert(ids(c) =~= seq![d.next_id]);
    assert(!ids(e).contains(d.next_id));
    lemma_unique_insert(e, p, j, c);
}

/// Adding a sibling keeps identifiers unique.
pub proof fn add_sibling_keeps_ids_unique(d: DocumentView, selected: u32, tag: Seq<char>)
    requires
        doc_wf(d),
        d.next_id < u32::MAX,
        unique_ids(d.root),
    ensures
        unique_ids(after_add_sibling(d, selected, tag).root),
{
    let e = d.root;
    if let Some(q) = first_path(e, selected) {
        lemma_first_path(e, selected);
        lemma_valid_path_last(e, q);
        let c = new_element(d.next_id, tag);
        assert(ids(c) =~= seq![d.next_id]);
        assert(!ids(e).contains(d.next_id));
        lemma_unique_insert(e, q.drop_last(), q.last() + 1, c);
    }
}

/// Removing an element keeps identifiers unique.
pub proof fn remove_keeps_ids_unique(d: DocumentView, selected: u32)
    requires
        unique_ids(d.root),
    ensures
        unique_ids(after_remove(d, selected).root),
{
    broadcast use vstd::multiset::group_multiset_axioms;

    let e = d.root;
    if remove_applies(d, selected) {
        let q = first_path(e, selected).unwrap();
        lemma_first_path(e, selected);
        lemma_valid_path_last(e, q);
        let p = q.drop_last();
        let i = q.last();
        let n = node_at(e, p);
        let m = without_child(n, i);
        let cs = n.children;
        assert(m.children =~= cs.take(i) + cs.skip(i + 1));
        lemma_ids_all_concat(cs.take(i), cs.skip(i + 1));
        lemma_ids_all_around(cs, i);
        let t = ids_all(cs.take(i));
        let s = ids_all(cs.skip(i + 1));
        vstd::seq_lib::lemma_multiset_commutative(t + ids(cs[i]), s);
        vstd::seq_lib::lemma_multiset_commutative(t, ids(cs[i]));
        vstd::seq_lib::lemma_multiset_commutative(t, s);
        assert forall|v: u32| #[trigger]
            ids(m).to_multiset().count(v) <= ids(n).to_multiset().count(v) by {
            lemma_ids_counts(n, v);
            lemma_ids_counts(m, v);
        }
        lemma_unique_replace(e, p, m);
    }
}

/// Moving an element keeps identifiers unique.
pub proof fn move_keeps_ids_unique(d: DocumentView, selected: u32, offset: int)
    requires
        unique_ids(d.root),
    ensures
        unique_ids(after_move(d, selected, offset).root),
{
    let e = d.root;
    if move_applies(d, selected, offset) {
        let q = first_path(e, selected).unwrap();
        lemma_first_path(e, selected);
        lemma_valid_path_last(e, q);
        let p = q.drop_last();
        let i = q.last();
        let j = i + offset;
        let n = node_at(e, p);
        let m = with_children_swapped(n, i, j);
        let cs = n.children;
        let cs1 = cs.update(i, cs[j]);
        assert forall|v: u32| #[trigger]
            ids(m).to_multiset().count(v) <= ids(n).to_multiset().count(v) by {
            lemma_ids_counts(n, v);
            lemma_ids_counts(m, v);
            lemma_ids_all_update_counts(cs, i, cs[j], v);
            lemma_ids_all_update_counts(cs1, j, cs[i], v);
            if i == j {
                assert(cs1 == cs.update(i, cs[i]));
            } else {
                assert(cs1[j] == cs[j]);
            }
        }
        lemma_unique_replace(e, p, m);
    }
}

/// Consecutive identifiers that fit in `u32` are distinct.
pub proof fn lemma_id_range_unique(start: int, n: nat)
    requires
        0 <= start,
        start + n <= u32::MAX + 1,
    ensures
        id_range(start, n).no_duplicates(),
{
}

/// Pasting a tree, renumbered from the next identifier on, as a child keeps
/// identifiers unique.
pub proof fn paste_keeps_ids_unique(
    d: DocumentView,
    parent: Option<u32>,
    node: ElementView,
)
    requires
        doc_wf(d),
        d.next_id + count(node) <= u32::MAX,
        unique_ids(d.root),
    ensures
        unique_ids(
            replace_at(
                d.root,
                target_path(d.root, parent),
                with_child(
                    node_at(d.root, target_path(d.root, parent)),
                    renumbered(node, d.next_id as int),
                ),
            ),
        ),
{
    let e = d.root;
    let p = target_path(e, parent);
    lemma_target_path(e, parent);
    let n = node_at(e, p);
    let c = renumbered(node, d.next_id as int);
    let j = n.children.len() as int;
    assert(n.children.push(c) =~= n.children.insert(j, c));
    assert(with_child(n, c) == with_child_at(n, j, c));
    lemma_renumbered_ids(node, d.next_id as int);
    lemma_id_range_unique(d.next_id as int, count(node));
    assert forall|x: u32| ids(c).contains(x) implies !ids(e).contains(x) by {
        let k = choose|k: int| 0 <= k < ids(c).len() && ids(c)[k] == x;
        assert(x >= d.next_id);
    }
    lemma_unique_insert(e, p, j, c);
}

/// Storing new attributes into an element keeps identifiers unique.
pub proof fn edit_keeps_ids_unique(
    e: ElementView,
    p: Seq<int>,
    props: Seq<(Seq<char>, Seq<char>)>,
)
    requires
        valid_path(e, p),
        unique_ids(e),
    ensures
        unique_ids(replace_at(e, p, ElementView { props: props, ..node_at(e, p) })),
{
    let n = node_at(e, p);
    let m = ElementView { props: props, ..n };
    assert(ids(m) == ids(n));
    lemma_unique_replace(e, p, m);
}

} // verus!
