//! Laws that relate the editing operations of the designer to each other:
//! what one operation undoes of another.

use vstd::prelude::*;

use crate::catalog::{allowed_attrs, initial_props};
use crate::document::{
    after_add_child, after_add_sibling, after_move, after_remove, doc_wf, edit_form, kept_fields,
    lemma_ids_contains, lemma_valid_path_last, move_applies, new_element, remove_applies,
    target_path, with_child, with_child_at, with_children_swapped, without_child, DocumentView,
};
use crate::element::{
    first_in_children, first_path, ids, ids_all, ids_before, lemma_first_path,
    lemma_ids_all_contains, lemma_ids_all_split, lemma_ids_at, lemma_last_path, node_at,
    replace_at, valid_path, ElementView,
};
use crate::paths::{
    lemma_first_path_at, lemma_ids_before_push, lemma_ids_before_replaced, lemma_node_at_replaced,
    lemma_replace_same, lemma_replace_twice, lemma_valid_path_push,
};
use crate::props::{
    insert_all, last_value, lemma_ascending_entries_determined, lemma_insert_all_lookup, lookup,
    name_position, names_ascend,
};
use crate::text::trimmed;
use crate::unique::{move_keeps_ids_unique, unique_ids};

verus! {

/// Where the first search among `cs[i..]` stops, no earlier element there
/// holds the identifier, and it stops either at an element with it or goes
/// on into that element's tree.
proof fn lemma_first_in_children_found(cs: Seq<ElementView>, i: int, id: u32)
    requires
        0 <= i,
    ensures
        first_in_children(cs, i, id) matches Some(p) ==> {
            &&& forall|l: int| i <= l < p[0] ==> !#[trigger] ids(cs[l]).contains(id)
            &&& p.len() == 1 ==> cs[p[0]].id == id
            &&& p.len() > 1 ==> cs[p[0]].id != id && first_path(cs[p[0]], id) == Some(
                p.drop_first(),
            )
        },
    decreases cs.len() - i,
{
    if 0 <= i < cs.len() {
        let c = cs[i];
        lemma_first_path(c, id);
        if c.id != id {
            match first_path(c, id) {
                Some(p) => {
                    assert((seq![i] + p).drop_first() =~= p);
                },
                None => {
                    lemma_ids_contains(c, id);
                    lemma_first_in_children_found(cs, i + 1, id);
                },
            }
        }
    }
}

/// Where the first search for `id` below `e` stops at `q`, the element
/// there has that identifier and no element before it, other than `e`
/// itself, has it.
pub proof fn lemma_first_path_found(e: ElementView, q: Seq<int>, id: u32)
    requires
        first_path(e, id) == Some(q),
    ensures
        valid_path(e, q),
        q.len() > 0,
        node_at(e, q).id == id,
        !ids_before(e, q).drop_first().contains(id),
    decreases q.len(),
{
    lemma_first_path(e, id);
    lemma_first_in_children_found(e.children, 0, id);
    let i = q[0];
    let cs = e.children;
    let c = cs[i];
    let rest = q.drop_first();
    let t = ids_all(cs.take(i));
    let r = ids_before(c, rest);
    assert(ids_before(e, q).drop_first() =~= t + r);
    assert(!t.contains(id)) by {
        lemma_ids_all_contains(cs.take(i), id);
        if t.contains(id) {
            let l = choose|l: int| 0 <= l < i && #[trigger] ids(cs.take(i)[l]).contains(id);
            assert(cs.take(i)[l] == cs[l]);
        }
    }
    if rest.len() == 0 {
        assert(r =~= Seq::<u32>::empty());
    } else {
        lemma_first_path_found(c, rest, id);
        assert(r =~= seq![c.id] + r.drop_first());
    }
    if (t + r).contains(id) {
        let k = choose|k: int| 0 <= k < (t + r).len() && (t + r)[k] == id;
        if k < t.len() {
            assert(t[k] == id);
        } else if k > t.len() {
            assert(r.drop_first()[k - t.len() - 1] == id);
        }
    }
}

/// The path that receives new children is a valid path.
pub proof fn lemma_target_path(root: ElementView, selected: Option<u32>)
    ensures
        valid_path(root, target_path(root, selected)),
{
    if let Some(id) = selected {
        lemma_last_path(root, id);
    }
}

/// Every identifier that comes before the child at `j` of the element at
/// `p`, other than those below earlier ancestors' later children, is an
/// identifier of the tree.
proof fn lemma_before_child_in_tree(e: ElementView, p: Seq<int>, j: int, x: u32)
    requires
        valid_path(e, p),
        0 <= j <= node_at(e, p).children.len(),
        (ids_before(e, p) + seq![node_at(e, p).id] + ids_all(node_at(e, p).children.take(j))).contains(x),
    ensures
        ids(e).contains(x),
{
    let n = node_at(e, p);
    let b = ids_before(e, p);
    let m = ids_all(n.children.take(j));
    let s = b + seq![n.id] + m;
    lemma_ids_at(e, p);
    let k = choose|k: int| 0 <= k < s.len() && s[k] == x;
    if k < b.len() {
        assert(ids(e)[k] == x);
    } else {
        lemma_ids_all_split(n.children, j);
        assert(ids(n)[k - b.len()] == x);
        assert(ids(e)[k] == x);
    }
}

/// A new element with an identifier that the tree lacks, inserted among
/// the children of the element at `p`, is where the first search for that
/// identifier stops.
pub proof fn lemma_inserted_found(e: ElementView, p: Seq<int>, j: int, c: ElementView)
    requires
        valid_path(e, p),
        0 <= j <= node_at(e, p).children.len(),
        !ids(e).contains(c.id),
    ensures
        valid_path(replace_at(e, p, with_child_at(node_at(e, p), j, c)), p),
        node_at(replace_at(e, p, with_child_at(node_at(e, p), j, c)), p) == with_child_at(
            node_at(e, p),
            j,
            c,
        ),
        first_path(replace_at(e, p, with_child_at(node_at(e, p), j, c)), c.id) == Some(p.push(j)),
{
    let n = node_at(e, p);
    let n2 = with_child_at(n, j, c);
    let r = replace_at(e, p, n2);
    lemma_node_at_replaced(e, p, n2);
    lemma_valid_path_push(r, p, j);
    lemma_ids_before_push(r, p, j);
    lemma_ids_before_replaced(e, p, n2);
    assert(n2.children.take(j) =~= n.children.take(j));
    let s = ids_before(r, p.push(j));
    if s.drop_first().contains(c.id) {
        let k = choose|k: int| 0 <= k < s.drop_first().len() && s.drop_first()[k] == c.id;
        assert(s[k + 1] == c.id);
        lemma_before_child_in_tree(e, p, j, c.id);
    }
    lemma_first_path_at(r, p.push(j), c.id);
}

/// Replacing the element at a path keeps the identifier of the outermost
/// element, unless the path is empty.
proof fn lemma_replace_root_id(e: ElementView, p: Seq<int>, n: ElementView)
    ensures
        replace_at(e, p, n).id == if p.len() == 0 {
            n.id
        } else {
            e.id
        },
{
}

/// Removing the element just added as a child gives back the document as
/// it was, with the next identifier advanced by one.
pub proof fn remove_undoes_add_child(d: DocumentView, parent: Option<u32>, tag: Seq<char>)
    requires
        doc_wf(d),
        d.next_id < u32::MAX,
    ensures
        after_remove(after_add_child(d, parent, tag), d.next_id) == (DocumentView {
            next_id: (d.next_id + 1) as u32,
            ..d
        }),
{
    let e = d.root;
    let p = target_path(e, parent);
    lemma_target_path(e, parent);
    let n = node_at(e, p);
    let c = new_element(d.next_id, tag);
    let j = n.children.len() as int;
    assert(n.children.push(c) =~= n.children.insert(j, c));
    assert(with_child(n, c) == with_child_at(n, j, c));
    assert(!ids(e).contains(d.next_id));
    lemma_inserted_found(e, p, j, c);
    let d1 = after_add_child(d, parent, tag);
    let q = p.push(j);
    assert(q.drop_last() =~= p);
    assert(q.last() == j);
    lemma_ids_contains(e, e.id);
    lemma_replace_root_id(e, p, with_child_at(n, j, c));
    assert(remove_applies(d1, d.next_id));
    assert(without_child(with_child_at(n, j, c), j) == n) by {
        assert(n.children.insert(j, c).remove(j) =~= n.children);
    }
    lemma_replace_twice(e, p, with_child_at(n, j, c), n);
    lemma_replace_same(e, p);
}

/// Removing the element just added as a sibling gives back the document as
/// it was, with the next identifier advanced by one.
pub proof fn remove_undoes_add_sibling(d: DocumentView, selected: u32, tag: Seq<char>)
    requires
        doc_wf(d),
        d.next_id < u32::MAX,
        first_path(d.root, selected) is Some,
    ensures
        after_remove(after_add_sibling(d, selected, tag), d.next_id) == (DocumentView {
            next_id: (d.next_id + 1) as u32,
            ..d
        }),
{
    let e = d.root;
    let q0 = first_path(e, selected).unwrap();
    lemma_first_path(e, selected);
    lemma_valid_path_last(e, q0);
    let p = q0.drop_last();
    let n = node_at(e, p);
    let c = new_element(d.next_id, tag);
    let j = q0.last() + 1;
    assert(!ids(e).contains(d.next_id));
    lemma_inserted_found(e, p, j, c);
    let d1 = after_add_sibling(d, selected, tag);
    let q = p.push(j);
    assert(q.drop_last() =~= p);
    assert(q.last() == j);
    lemma_ids_contains(e, e.id);
    lemma_replace_root_id(e, p, with_child_at(n, j, c));
    assert(remove_applies(d1, d.next_id));
    assert(without_child(with_child_at(n, j, c), j) == n) by {
        assert(n.children.insert(j, c).remove(j) =~= n.children);
    }
    lemma_replace_twice(e, p, with_child_at(n, j, c), n);
    lemma_replace_same(e, p);
}

/// Exchanging the same two children twice gives back the element.
proof fn lemma_swap_twice(n: ElementView, a: int, b: int)
    requires
        0 <= a < n.children.len(),
        0 <= b < n.children.len(),
    ensures
        with_children_swapped(with_children_swapped(n, a, b), b, a) == n,
{
    assert(with_children_swapped(with_children_swapped(n, a, b), b, a).children =~= n.children);
}

/// After a move that applies, the second move by the opposite offset, when
/// its search stops at the moved element, gives back the document.
proof fn lemma_move_back(d: DocumentView, selected: u32, offset: int)
    requires
        move_applies(d, selected, offset),
        first_path(after_move(d, selected, offset).root, selected) == Some(
            first_path(d.root, selected).unwrap().drop_last().push(
                first_path(d.root, selected).unwrap().last() + offset,
            ),
        ),
    ensures
        after_move(after_move(d, selected, offset), selected, -offset) == d,
{
    let e = d.root;
    let q = first_path(e, selected).unwrap();
    lemma_first_path(e, selected);
    lemma_valid_path_last(e, q);
    let p = q.drop_last();
    let i = q.last();
    let n = node_at(e, p);
    let sw = with_children_swapped(n, i, i + offset);
    let d1 = after_move(d, selected, offset);
    lemma_node_at_replaced(e, p, sw);
    let q1 = p.push(i + offset);
    assert(q1.drop_last() =~= p);
    assert(q1.last() == i + offset);
    assert(move_applies(d1, selected, -offset));
    lemma_swap_twice(n, i, i + offset);
    lemma_replace_twice(e, p, sw, n);
    lemma_replace_same(e, p);
}

/// Moving an element down by one place after moving it up by one place
/// gives back the document.
pub proof fn move_down_undoes_move_up(d: DocumentView, selected: u32)
    requires
        move_applies(d, selected, -1),
    ensures
        after_move(after_move(d, selected, -1), selected, 1) == d,
{
    let e = d.root;
    let q = first_path(e, selected).unwrap();
    lemma_first_path_found(e, q, selected);
    lemma_valid_path_last(e, q);
    let p = q.drop_last();
    let i = q.last();
    let n = node_at(e, p);
    let sw = with_children_swapped(n, i, i - 1);
    let r = replace_at(e, p, sw);
    assert(q =~= p.push(i));
    lemma_node_at_replaced(e, p, sw);
    lemma_valid_path_push(r, p, i - 1);
    lemma_ids_before_push(r, p, i - 1);
    lemma_ids_before_push(e, p, i);
    lemma_ids_before_replaced(e, p, sw);
    assert(sw.children.take(i - 1) =~= n.children.take(i - 1));
    crate::element::lemma_ids_all_take_next(n.children, i - 1);
    assert(n.children.take(i - 1 + 1) =~= n.children.take(i));
    let before_new = ids_before(r, p.push(i - 1));
    let before_old = ids_before(e, p.push(i));
    assert(before_old =~= before_new + ids(n.children[i - 1]));
    if before_new.drop_first().contains(selected) {
        let k = choose|k: int| 0 <= k < before_new.drop_first().len() && before_new.drop_first()[k]
            == selected;
        assert(before_old.drop_first()[k] == selected);
    }
    lemma_first_path_at(r, p.push(i - 1), selected);
    lemma_move_back(d, selected, -1);
}

/// Moving an element back by the opposite offset after moving it gives
/// back the document, where no two elements share an identifier.
pub proof fn move_back_undoes_move(d: DocumentView, selected: u32, offset: int)
    requires
        unique_ids(d.root),
        move_applies(d, selected, offset),
    ensures
        after_move(after_move(d, selected, offset), selected, -offset) == d,
{
    let e = d.root;
    let q = first_path(e, selected).unwrap();
    lemma_first_path(e, selected);
    lemma_valid_path_last(e, q);
    let p = q.drop_last();
    let i = q.last();
    let n = node_at(e, p);
    let sw = with_children_swapped(n, i, i + offset);
    let r = replace_at(e, p, sw);
    move_keeps_ids_unique(d, selected, offset);
    lemma_node_at_replaced(e, p, sw);
    lemma_valid_path_push(r, p, i + offset);
    let q1 = p.push(i + offset);
    let b = ids_before(r, q1);
    lemma_ids_at(r, q1);
    assert(ids(node_at(r, q1))[0] == selected);
    assert(ids(r)[b.len() as int] == selected);
    if b.drop_first().contains(selected) {
        let k = choose|k: int| 0 <= k < b.drop_first().len() && b.drop_first()[k] == selected;
        assert(ids(r)[k + 1] == selected);
    }
    lemma_first_path_at(r, q1, selected);
    lemma_move_back(d, selected, offset);
}

/// The text that the edit form shows for a looked-up value: the value, or
/// nothing.
pub open spec fn shown_value(v: Option<Seq<char>>) -> Seq<char> {
    match v {
        Some(x) => x,
        None => Seq::empty(),
    }
}

/// Whether every value in `props` is non-empty and has no leading or
/// trailing white space.
pub open spec fn values_trimmed(props: Seq<(Seq<char>, Seq<char>)>) -> bool {
    forall|i: int|
        0 <= i < props.len() ==> #[trigger] props[i].1.len() > 0 && trimmed(props[i].1)
            == props[i].1
}

/// A value found in a map whose values are trimmed is itself trimmed and
/// not empty.
proof fn lemma_found_value_trimmed(props: Seq<(Seq<char>, Seq<char>)>, k: Seq<char>)
    requires
        values_trimmed(props),
        lookup(props, k) is Some,
    ensures
        lookup(props, k).unwrap().len() > 0,
        trimmed(lookup(props, k).unwrap()) == lookup(props, k).unwrap(),
{
    let i = name_position(props, k);
    assert(props[i].1.len() > 0);
}

/// What storing the fields of a form that shows the values of `props`
/// gives a name: its value, where a field of that name is shown.
proof fn lemma_kept_last_value(
    fields: Seq<(Seq<char>, Seq<char>)>,
    props: Seq<(Seq<char>, Seq<char>)>,
    k: Seq<char>,
)
    requires
        values_trimmed(props),
        forall|j: int|
            0 <= j < fields.len() ==> #[trigger] fields[j].1 == shown_value(
                lookup(props, fields[j].0),
            ),
    ensures
        last_value(kept_fields(fields), k) == if exists|j: int|
            0 <= j < fields.len() && #[trigger] fields[j].0 == k {
            lookup(props, k)
        } else {
            None
        },
    decreases fields.len(),
{
    if fields.len() > 0 {
        let front = fields.drop_last();
        let a = fields.last().0;
        let x = fields.last().1;
        assert(fields.last() == fields[fields.len() - 1]);
        assert forall|j: int| 0 <= j < front.len() implies #[trigger] front[j].1 == shown_value(
            lookup(props, front[j].0),
        ) by {
            assert(front[j] == fields[j]);
        }
        lemma_kept_last_value(front, props, k);
        if lookup(props, a) is Some {
            lemma_found_value_trimmed(props, a);
        }
        assert(trimmed(Seq::<char>::empty()) == Seq::<char>::empty());
        let in_front = exists|j: int| 0 <= j < front.len() && #[trigger] front[j].0 == k;
        let in_all = exists|j: int| 0 <= j < fields.len() && #[trigger] fields[j].0 == k;
        if in_front {
            let j = choose|j: int| 0 <= j < front.len() && #[trigger] front[j].0 == k;
            assert(fields[j].0 == k);
        }
        if in_all && a != k {
            let j = choose|j: int| 0 <= j < fields.len() && #[trigger] fields[j].0 == k;
            assert(front[j].0 == k);
        }
        if trimmed(x).len() != 0 {
            let kept = kept_fields(front).push((a, trimmed(x)));
            assert(kept.drop_last() =~= kept_fields(front));
        }
    }
}

/// Applying the edit form of an element as it is shown keeps the
/// element's attributes, where its tag accepts each of them and each value
/// is non-empty and has no leading or trailing white space.
pub proof fn applying_unchanged_form_keeps_attributes(n: ElementView)
    requires
        names_ascend(n.props),
        forall|i: int| 0 <= i < n.props.len() ==> allowed_attrs(n.tag).contains(#[trigger] n.props[i].0),
        values_trimmed(n.props),
    ensures
        insert_all(Seq::empty(), kept_fields(edit_form(n))) == n.props,
{
    let form = edit_form(n);
    let names = allowed_attrs(n.tag);
    let result = insert_all(Seq::empty(), kept_fields(form));
    lemma_insert_all_lookup(kept_fields(form));
    assert forall|k: Seq<char>| lookup(result, k) == lookup(n.props, k) by {
        lemma_kept_last_value(form, n.props, k);
        if lookup(n.props, k) is Some {
            let i = name_position(n.props, k);
            assert(names.contains(n.props[i].0));
            let j = choose|j: int| 0 <= j < names.len() && names[j] == k;
            assert(form[j].0 == k);
        }
    }
    lemma_ascending_entries_determined(result, n.props);
}

/// The attribute names that new elements start with, told apart by their
/// lengths and first characters.
proof fn lemma_initial_names()
    ensures
        "label"@.len() == 5 && "label"@[0] == 'l',
        "title"@.len() == 5 && "title"@[0] == 't',
        "width"@.len() == 5 && "width"@[0] == 'w',
        "height"@.len() == 6 && "height"@[0] == 'h',
        "gap"@.len() == 3 && "gap"@[0] == 'g',
        "padding"@.len() == 7 && "padding"@[0] == 'p',
        "text"@.len() == 4 && "text"@[0] == 't',
        "value"@.len() == 5 && "value"@[0] == 'v',
        "alt"@.len() == 3 && "alt"@[0] == 'a',
        "placeholder"@.len() == 11 && "placeholder"@[0] == 'p',
        "name"@.len() == 4 && "name"@[0] == 'n',
        "selected"@.len() == 8 && "selected"@[0] == 's',
{
    reveal_strlit("label");
    reveal_strlit("title");
    reveal_strlit("width");
    reveal_strlit("height");
    reveal_strlit("gap");
    reveal_strlit("padding");
    reveal_strlit("text");
    reveal_strlit("value");
    reveal_strlit("alt");
    reveal_strlit("placeholder");
    reveal_strlit("name");
    reveal_strlit("selected");
}

/// A new element that starts with a `label` attribute is labelled with its
/// own tag.
pub proof fn new_element_label_is_its_tag(id: u32, tag: Seq<char>)
    ensures
        lookup(new_element(id, tag).props, "label"@) matches Some(v) ==> v == tag,
{
    lemma_initial_names();
    lemma_insert_all_lookup(initial_props(tag));
    reveal_with_fuel(last_value, 4);
    let props = initial_props(tag);
    if props.len() == 3 {
        assert(props.drop_last().drop_last().drop_last().len() == 0);
    }
}

} // verus!
