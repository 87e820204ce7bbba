//! Facts about paths in an element tree: what replacing the element at a
//! path does to the tree, and where the first search for an identifier
//! stops.

use vstd::prelude::*;

use crate::document::lemma_ids_contains;
use crate::element::{
    first_in_children, first_path, ids, ids_all, ids_before, lemma_first_path,
    lemma_ids_all_contains, node_at, replace_at, valid_path, ElementView,
};

verus! {

/// After the element at `p` is replaced by `n`, `p` leads to `n`.
pub proof fn lemma_node_at_replaced(e: ElementView, p: Seq<int>, n: ElementView)
    requires
        valid_path(e, p),
    ensures
        valid_path(replace_at(e, p, n), p),
        node_at(replace_at(e, p, n), p) == n,
    decreases p.len(),
{
    if p.len() > 0 {
        lemma_node_at_replaced(e.children[p[0]], p.drop_first(), n);
    }
}

/// Replacing the element at `p` twice keeps only the second replacement.
pub proof fn lemma_replace_twice(e: ElementView, p: Seq<int>, a: ElementView, b: ElementView)
    requires
        valid_path(e, p),
    ensures
        replace_at(replace_at(e, p, a), p, b) == replace_at(e, p, b),
    decreases p.len(),
{
    if p.len() > 0 {
        let i = p[0];
        let c = e.children[i];
        lemma_replace_twice(c, p.drop_first(), a, b);
        let r1 = replace_at(e, p, a);
        let r2 = replace_at(r1, p, b);
        assert(r1.children[i] == replace_at(c, p.drop_first(), a));
        assert(r2.children =~= replace_at(e, p, b).children);
    }
}

/// Putting back the element that `p` leads to changes nothing.
pub proof fn lemma_replace_same(e: ElementView, p: Seq<int>)
    requires
        valid_path(e, p),
    ensures
        replace_at(e, p, node_at(e, p)) == e,
    decreases p.len(),
{
    if p.len() > 0 {
        let i = p[0];
        let c = e.children[i];
        lemma_replace_same(c, p.drop_first());
        assert(replace_at(e, p, node_at(e, p)).children =~= e.children);
    }
}

/// One more step to a child of the element at `p` is a valid path to that
/// child.
pub proof fn lemma_valid_path_push(e: ElementView, p: Seq<int>, j: int)
    requires
        valid_path(e, p),
        0 <= j < node_at(e, p).children.len(),
    ensures
        valid_path(e, p.push(j)),
        node_at(e, p.push(j)) == node_at(e, p).children[j],
    decreases p.len(),
{
    let q = p.push(j);
    if p.len() == 0 {
        assert(q[0] == j);
        assert(q.drop_first() =~= Seq::<int>::empty());
        assert(node_at(e.children[j], q.drop_first()) == e.children[j]);
        assert(valid_path(e.children[j], q.drop_first()));
    } else {
        assert(q[0] == p[0]);
        assert(q.drop_first() =~= p.drop_first().push(j));
        lemma_valid_path_push(e.children[p[0]], p.drop_first(), j);
        assert(valid_path(e.children[q[0]], q.drop_first()));
    }
}

/// What comes before a child of the element at `p`: what comes before that
/// element, the element itself, and the trees of the earlier children.
pub proof fn lemma_ids_before_push(e: ElementView, p: Seq<int>, j: int)
    requires
        valid_path(e, p),
        0 <= j < node_at(e, p).children.len(),
    ensures
        ids_before(e, p.push(j)) == ids_before(e, p) + seq![node_at(e, p).id] + ids_all(
            node_at(e, p).children.take(j),
        ),
    decreases p.len(),
{
    let q = p.push(j);
    if p.len() == 0 {
        assert(q[0] == j);
        assert(q.drop_first() =~= Seq::<int>::empty());
        assert(ids_before(e.children[j], q.drop_first()) == Seq::<u32>::empty());
        assert(ids_before(e, q) =~= ids_before(e, p) + seq![node_at(e, p).id] + ids_all(
            node_at(e, p).children.take(j),
        ));
    } else {
        let c = e.children[p[0]];
        assert(q[0] == p[0]);
        assert(q.drop_first() =~= p.drop_first().push(j));
        lemma_ids_before_push(c, p.drop_first(), j);
        assert(ids_before(e, q) =~= ids_before(e, p) + seq![node_at(e, p).id] + ids_all(
            node_at(e, p).children.take(j),
        ));
    }
}

/// Replacing the element at `p` leaves what comes before it unchanged.
pub proof fn lemma_ids_before_replaced(e: ElementView, p: Seq<int>, n: ElementView)
    requires
        valid_path(e, p),
    ensures
        ids_before(replace_at(e, p, n), p) == ids_before(e, p),
    decreases p.len(),
{
    if p.len() > 0 {
        let i = p[0];
        let c = e.children[i];
        lemma_ids_before_replaced(c, p.drop_first(), n);
        let r = replace_at(e, p, n);
        assert(r.children.take(i) =~= e.children.take(i));
        assert(r.children[i] == replace_at(c, p.drop_first(), n));
    }
}

/// The first search passes over elements whose trees lack the identifier.
pub proof fn lemma_first_in_children_skip(cs: Seq<ElementView>, j: int, i: int, id: u32)
    requires
        0 <= j <= i <= cs.len(),
        forall|l: int| j <= l < i ==> !#[trigger] ids(cs[l]).contains(id),
    ensures
        first_in_children(cs, j, id) == first_in_children(cs, i, id),
    decreases i - j,
{
    if j < i {
        let c = cs[j];
        assert(!ids(c).contains(id));
        lemma_ids_contains(c, id);
        lemma_first_path(c, id);
        lemma_first_in_children_skip(cs, j + 1, i, id);
    }
}

/// The first search for `id` below `e` stops at `q` where the element there
/// has that identifier and no element before it, other than `e` itself,
/// has it.
pub proof fn lemma_first_path_at(e: ElementView, q: Seq<int>, id: u32)
    requires
        valid_path(e, q),
        q.len() > 0,
        node_at(e, q).id == id,
        !ids_before(e, q).drop_first().contains(id),
    ensures
        first_path(e, id) == Some(q),
    decreases q.len(),
{
    let i = q[0];
    let cs = e.children;
    let c = cs[i];
    let rest = q.drop_first();
    let t = ids_all(cs.take(i));
    let r = ids_before(c, rest);
    assert(ids_before(e, q).drop_first() =~= t + r);
    assert forall|l: int| 0 <= l < i implies !#[trigger] ids(cs[l]).contains(id) by {
        if ids(cs[l]).contains(id) {
            assert(cs.take(i)[l] == cs[l]);
            lemma_ids_all_contains(cs.take(i), id);
            let k = choose|k: int| 0 <= k < t.len() && t[k] == id;
            assert((t + r)[k] == id);
        }
    }
    lemma_first_in_children_skip(cs, 0, i, id);
    assert(node_at(e, q) == node_at(c, rest));
    if rest.len() == 0 {
        assert(q =~= seq![i]);
        assert(c.id == id);
        assert(first_in_children(cs, i, id) == Some(q));
    } else {
        assert(r[0] == c.id);
        assert((t + r)[t.len() as int] == c.id);
        if r.drop_first().contains(id) {
            let k = choose|k: int| 0 <= k < r.drop_first().len() && r.drop_first()[k] == id;
            assert((t + r)[t.len() + 1 + k] == id);
        }
        lemma_first_path_at(c, rest, id);
        assert(seq![i] + rest =~= q);
        assert(c.id != id);
        assert(first_in_children(cs, i, id) == Some(q));
    }
}

} // verus!
