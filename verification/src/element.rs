//! The element tree of a GUI document, its mathematical model, and the
//! searches and rewrites on it.

use vstd::prelude::*;

use crate::props::PropertyMap;

verus! {

/// The model of an element: its identifier, tag, attributes in ascending
/// order of names, and children in document order.
pub struct ElementView {
    pub id: u32,
    pub tag: Seq<char>,
    pub props: Seq<(Seq<char>, Seq<char>)>,
    pub children: Seq<ElementView>,
}

/// One element of a GUI document.
pub struct Element {
    pub id: u32,
    pub tag: String,
    pub props: PropertyMap,
    pub children: Vec<Element>,
}

impl Element {
    /// The models of a sequence of elements.
    pub open spec fn models(children: Seq<Element>) -> Seq<ElementView>
        decreases children,
    {
        Seq::new(
            children.len(),
            |i: int|
                if 0 <= i < children.len() {
                    children[i].model()
                } else {
                    arbitrary()
                },
        )
    }

    /// The model of this element.
    pub open spec fn model(self) -> ElementView
        decreases self,
    {
        ElementView {
            id: self.id,
            tag: self.tag@,
            props: self.props@,
            children: Self::models(self.children@),
        }
    }
}

impl View for Element {
    type V = ElementView;

    open spec fn view(&self) -> ElementView {
        self.model()
    }
}

/// Identifiers of `e` and its descendants, in document order.
pub open spec fn ids(e: ElementView) -> Seq<u32>
    decreases e,
{
    seq![e.id] + ids_all(e.children)
}

/// Identifiers of the elements of `s` and their descendants, in document order.
pub open spec fn ids_all(s: Seq<ElementView>) -> Seq<u32>
    decreases s,
{
    if s.len() == 0 {
        Seq::empty()
    } else {
        ids_all(s.drop_last()) + ids(s.last())
    }
}

/// Number of elements in the tree of `e`.
pub open spec fn count(e: ElementView) -> nat {
    ids(e).len()
}

/// Whether `path`, a list of child positions, leads from `e` to an element.
pub open spec fn valid_path(e: ElementView, path: Seq<int>) -> bool
    decreases path.len(),
{
    path.len() == 0 || (0 <= path[0] < e.children.len() && valid_path(
        e.children[path[0]],
        path.drop_first(),
    ))
}

/// The element that `path` leads to from `e`.
pub open spec fn node_at(e: ElementView, path: Seq<int>) -> ElementView
    decreases path.len(),
{
    if path.len() == 0 {
        e
    } else {
        node_at(e.children[path[0]], path.drop_first())
    }
}

/// `e` with the element at `path` replaced by `n`.
pub open spec fn replace_at(e: ElementView, path: Seq<int>, n: ElementView) -> ElementView
    decreases path.len(),
{
    if path.len() == 0 {
        n
    } else {
        ElementView {
            children: e.children.update(
                path[0],
                replace_at(e.children[path[0]], path.drop_first(), n),
            ),
            ..e
        }
    }
}

/// A path of child positions as integers.
pub open spec fn path_view(p: Seq<usize>) -> Seq<int> {
    p.map_values(|x: usize| x as int)
}

/// Replacing one element of a sequence replaces its model.
pub proof fn lemma_models_update()
    ensures
        forall|v: Seq<Element>, i: int, x: Element|
            0 <= i < v.len() ==> #[trigger] Element::models(v.update(i, x)) == Element::models(
                v,
            ).update(i, x@),
{
    assert forall|v: Seq<Element>, i: int, x: Element|
        0 <= i < v.len() implies #[trigger] Element::models(v.update(i, x)) == Element::models(
            v,
        ).update(i, x@) by {
        assert(Element::models(v.update(i, x)) =~= Element::models(v).update(i, x@));
    }
}

/// Appending an element appends its model.
pub proof fn lemma_models_push(v: Seq<Element>, x: Element)
    ensures
        Element::models(v.push(x)) == Element::models(v).push(x@),
{
    assert(Element::models(v.push(x)) =~= Element::models(v).push(x@));
}

/// The element at `path[from..]` below `e`, borrowed for change.
pub fn node_mut<'a>(e: &'a mut Element, path: &Vec<usize>, from: usize) -> (r: &'a mut Element)
    requires
        from <= path.len(),
        valid_path(old(e)@, path_view(path@).skip(from as int)),
    ensures
        r@ == node_at(old(e)@, path_view(path@).skip(from as int)),
        final(e)@ == replace_at(old(e)@, path_view(path@).skip(from as int), final(r)@),
    decreases path.len() - from,
{
    let ghost p = path_view(path@).skip(from as int);
    if from == path.len() {
        assert(p.len() == 0);
        e
    } else {
        let i = path[from];
        assert(p[0] == i as int);
        assert(p.drop_first() =~= path_view(path@).skip(from + 1));
        assert(e.children@[i as int]@ == old(e)@.children[i as int]);
        proof {
            lemma_models_update();
        }
        let c = child_mut(e, i);
        node_mut(c, path, from + 1)
    }
}

/// The child at `i` of `e`, borrowed for change.
pub fn child_mut<'a>(e: &'a mut Element, i: usize) -> (r: &'a mut Element)
    requires
        i < old(e).children.len(),
    ensures
        *r == old(e).children@[i as int],
        final(e).children@ == old(e).children@.update(i as int, *final(r)),
        final(e).id == old(e).id,
        final(e).tag == old(e).tag,
        final(e).props == old(e).props,
        Element::models(final(e).children@) == Element::models(old(e).children@).update(i as int, final(r)@),
        final(e)@.children == Element::models(final(e).children@),
        final(e)@.children == old(e)@.children.update(i as int, final(r)@),
        final(e)@ == (ElementView { children: old(e)@.children.update(i as int, final(r)@), ..old(e)@ }),
{
    proof {
        lemma_models_update();
    }
    &mut e.children[i]
}

/// An identifier occurs below a sequence of elements exactly when it occurs
/// in the tree of one of them.
pub proof fn lemma_ids_all_contains(cs: Seq<ElementView>, id: u32)
    ensures
        ids_all(cs).contains(id) <==> exists|i: int|
            0 <= i < cs.len() && #[trigger] ids(cs[i]).contains(id),
    decreases cs.len(),
{
    if cs.len() > 0 {
        let front = cs.drop_last();
        lemma_ids_all_contains(front, id);
        let a = ids_all(front);
        let b = ids(cs.last());
        if ids_all(cs).contains(id) {
            let k = choose|k: int| 0 <= k < ids_all(cs).len() && ids_all(cs)[k] == id;
            if k < a.len() {
                assert(a[k] == id);
                let i = choose|i: int| 0 <= i < front.len() && #[trigger] ids(front[i]).contains(id);
                assert(cs[i] == front[i]);
            } else {
                assert(b[k - a.len()] == id);
                assert(ids(cs[cs.len() - 1]).contains(id));
            }
        }
        if exists|i: int| 0 <= i < cs.len() && #[trigger] ids(cs[i]).contains(id) {
            let i = choose|i: int| 0 <= i < cs.len() && #[trigger] ids(cs[i]).contains(id);
            let k = choose|k: int| 0 <= k < ids(cs[i]).len() && ids(cs[i])[k] == id;
            if i < cs.len() - 1 {
                assert(front[i] == cs[i]);
                let j = choose|j: int| 0 <= j < a.len() && a[j] == id;
                assert(ids_all(cs)[j] == id);
            } else {
                assert(ids_all(cs)[a.len() + k] == id);
            }
        }
    }
}

/// Path, below `e`, of the first element after `e` itself, in document
/// order, whose identifier is `id`.
pub open spec fn first_path(e: ElementView, id: u32) -> Option<Seq<int>>
    decreases e, 0nat,
{
    first_in_children(e.children, 0, id)
}

/// Path of the first element with identifier `id` among `cs[i..]` and their
/// descendants, in document order; its first step is an index into `cs`.
pub open spec fn first_in_children(cs: Seq<ElementView>, i: int, id: u32) -> Option<Seq<int>>
    decreases cs, (cs.len() - i) as nat,
{
    if i < 0 || i >= cs.len() {
        None
    } else if cs[i].id == id {
        Some(seq![i])
    } else {
        match first_path(cs[i], id) {
            Some(p) => Some(seq![i] + p),
            None => first_in_children(cs, i + 1, id),
        }
    }
}

/// Path of the last element of the tree of `e`, in document order, whose
/// identifier is `id` (the element itself counts).
pub open spec fn last_path(e: ElementView, id: u32) -> Option<Seq<int>>
    decreases e, 0nat,
{
    match last_in_children(e.children, e.children.len() as int, id) {
        Some(p) => Some(p),
        None => if e.id == id {
            Some(Seq::empty())
        } else {
            None
        },
    }
}

/// Path of the last element with identifier `id` among `cs[..n]` and their
/// descendants, in document order; its first step is an index into `cs`.
pub open spec fn last_in_children(cs: Seq<ElementView>, n: int, id: u32) -> Option<Seq<int>>
    decreases cs, n as nat,
{
    if n <= 0 || n > cs.len() {
        None
    } else {
        match last_path(cs[n - 1], id) {
            Some(p) => Some(seq![n - 1] + p),
            None => last_in_children(cs, n - 1, id),
        }
    }
}

/// Where the first search finds an element, the element has that identifier;
/// it finds none exactly when no element below `e` has it.
pub proof fn lemma_first_path(e: ElementView, id: u32)
    ensures
        first_path(e, id) matches Some(p) ==> p.len() > 0 && valid_path(e, p) && node_at(e, p).id
            == id,
        first_path(e, id) is None <==> !ids_all(e.children).contains(id),
    decreases e, 0nat,
{
    lemma_first_in_children(e.children, 0, id);
    lemma_ids_all_contains(e.children, id);
    if let Some(p) = first_path(e, id) {
        assert(p.drop_first() =~= p.subrange(1, p.len() as int));
    }
}

/// Where the first search among `cs[i..]` finds an element, it has the
/// identifier; it finds none exactly when no tree there holds it.
proof fn lemma_first_in_children(cs: Seq<ElementView>, i: int, id: u32)
    requires
        0 <= i,
    ensures
        first_in_children(cs, i, id) matches Some(p) ==> p.len() > 0 && i <= p[0] < cs.len()
            && valid_path(cs[p[0]], p.drop_first()) && node_at(cs[p[0]], p.drop_first()).id == id,
        first_in_children(cs, i, id) is None <==> !(exists|k: int|
            i <= k < cs.len() && #[trigger] ids(cs[k]).contains(id)),
    decreases cs, (cs.len() - i) as nat,
{
    if i < cs.len() {
        let c = cs[i];
        lemma_first_path(c, id);
        lemma_first_in_children(cs, i + 1, id);
        assert(ids(c)[0] == c.id);
        if c.id == id {
            assert(ids(c).contains(id));
            assert(seq![i].drop_first() =~= Seq::<int>::empty());
        } else {
            assert(ids(c).contains(id) <==> ids_all(c.children).contains(id)) by {
                if ids(c).contains(id) {
                    let k = choose|k: int| 0 <= k < ids(c).len() && ids(c)[k] == id;
                    assert(ids_all(c.children)[k - 1] == id);
                }
                if ids_all(c.children).contains(id) {
                    let k = choose|k: int| 0 <= k < ids_all(c.children).len() && ids_all(c.children)[k] == id;
                    assert(ids(c)[k + 1] == id);
                }
            }
            if let Some(p) = first_path(c, id) {
                assert((seq![i] + p).drop_first() =~= p);
            }
        }
    }
}

/// Where the last search finds an element, the element has that identifier;
/// it finds none exactly when no element of the tree of `e` has it.
pub proof fn lemma_last_path(e: ElementView, id: u32)
    ensures
        last_path(e, id) matches Some(p) ==> valid_path(e, p) && node_at(e, p).id == id,
        last_path(e, id) is None <==> !ids(e).contains(id),
    decreases e, 0nat,
{
    lemma_last_in_children(e.children, e.children.len() as int, id);
    lemma_ids_all_contains(e.children, id);
    assert(ids(e)[0] == e.id);
    assert(ids(e).contains(id) <==> (e.id == id || ids_all(e.children).contains(id))) by {
        if ids(e).contains(id) && e.id != id {
            let k = choose|k: int| 0 <= k < ids(e).len() && ids(e)[k] == id;
            assert(ids_all(e.children)[k - 1] == id);
        }
        if ids_all(e.children).contains(id) {
            let k = choose|k: int| 0 <= k < ids_all(e.children).len() && ids_all(e.children)[k] == id;
            assert(ids(e)[k + 1] == id);
        }
    }
    if let Some(p) = last_path(e, id) {
        if p.len() > 0 {
            assert(p.drop_first() =~= p.subrange(1, p.len() as int));
        }
    }
}

/// Where the last search among `cs[..n]` finds an element, it has the
/// identifier; it finds none exactly when no tree there holds it.
proof fn lemma_last_in_children(cs: Seq<ElementView>, n: int, id: u32)
    requires
        0 <= n <= cs.len(),
    ensures
        last_in_children(cs, n, id) matches Some(p) ==> p.len() > 0 && 0 <= p[0] < n
            && valid_path(cs[p[0]], p.drop_first()) && node_at(cs[p[0]], p.drop_first()).id == id,
        last_in_children(cs, n, id) is None <==> !(exists|k: int|
            0 <= k < n && #[trigger] ids(cs[k]).contains(id)),
    decreases cs, n as nat,
{
    if n > 0 {
        let c = cs[n - 1];
        lemma_last_path(c, id);
        lemma_last_in_children(cs, n - 1, id);
        if let Some(p) = last_path(c, id) {
            assert((seq![n - 1] + p).drop_first() =~= p);
        }
    }
}

/// The path of the parent of the first element below `root`, in document
/// order, whose identifier is `child_id`, and the element's position among
/// that parent's children.
pub fn find_parent(root: &Element, child_id: u32) -> (r: Option<(Vec<usize>, usize)>)
    ensures
        match r {
            Some((parent, index)) => first_path(root@, child_id) == Some(
                path_view(parent@).push(index as int),
            ),
            None => first_path(root@, child_id) is None,
        },
    decreases root,
{
    let mut index: usize = 0;
    while index < root.children.len()
        invariant
            index <= root.children.len(),
            root@.children.len() == root.children.len(),
            first_path(root@, child_id) == first_in_children(root@.children, index as int, child_id),
        decreases root.children.len() - index,
    {
        let child = &root.children[index];
        assert(root@.children[index as int] == child@);
        if child.id == child_id {
            let empty: Vec<usize> = Vec::new();
            assert(path_view(empty@).push(index as int) =~= seq![index as int]);
            return Some((empty, index));
        }
        match find_parent(child, child_id) {
            Some((mut path, i)) => {
                let ghost below = path_view(path@);
                path.insert(0, index);
                assert(path_view(path@).push(i as int) =~= seq![index as int] + below.push(i as int));
                return Some((path, i));
            },
            None => {},
        }
        index = index + 1;
    }
    None
}

/// The path of the last element of the tree of `root`, in document order,
/// whose identifier is `id` (the element that the identifier index of the
/// designer holds for `id`).
pub fn locate(root: &Element, id: u32) -> (r: Option<Vec<usize>>)
    ensures
        match r {
            Some(p) => last_path(root@, id) == Some(path_view(p@)),
            None => last_path(root@, id) is None,
        },
    decreases root,
{
    let mut n: usize = root.children.len();
    while n > 0
        invariant
            n <= root.children.len(),
            root@.children.len() == root.children.len(),
            last_in_children(root@.children, root.children.len() as int, id) == last_in_children(
                root@.children,
                n as int,
                id,
            ),
        decreases n,
    {
        let child = &root.children[n - 1];
        assert(root@.children[n - 1] == child@);
        match locate(child, id) {
            Some(mut path) => {
                let ghost below = path_view(path@);
                path.insert(0, n - 1);
                assert(path_view(path@) =~= seq![n - 1] + below);
                return Some(path);
            },
            None => {},
        }
        n = n - 1;
    }
    if root.id == id {
        let empty: Vec<usize> = Vec::new();
        assert(path_view(empty@) =~= Seq::<int>::empty());
        Some(empty)
    } else {
        None
    }
}

/// Number of elements in the trees of `s`.
pub open spec fn count_all(s: Seq<ElementView>) -> nat {
    ids_all(s).len()
}

/// The identifiers below a concatenation are those below each part.
pub proof fn lemma_ids_all_concat(a: Seq<ElementView>, b: Seq<ElementView>)
    ensures
        ids_all(a + b) == ids_all(a) + ids_all(b),
    decreases b.len(),
{
    if b.len() == 0 {
        assert(a + b =~= a);
        assert(ids_all(b) =~= Seq::<u32>::empty());
        assert(ids_all(a) + ids_all(b) =~= ids_all(a));
    } else {
        assert((a + b).drop_last() =~= a + b.drop_last());
        assert((a + b).last() == b.last());
        lemma_ids_all_concat(a, b.drop_last());
        assert(ids_all(a + b) =~= ids_all(a) + ids_all(b));
    }
}

/// The identifiers below the first `k` elements of `s`, then those below
/// the rest.
pub proof fn lemma_ids_all_split(s: Seq<ElementView>, k: int)
    requires
        0 <= k <= s.len(),
    ensures
        ids_all(s) == ids_all(s.take(k)) + ids_all(s.skip(k)),
        count_all(s.take(k)) <= count_all(s),
{
    assert(s =~= s.take(k) + s.skip(k));
    lemma_ids_all_concat(s.take(k), s.skip(k));
}

/// The identifiers below `s.take(k + 1)`: those below `s.take(k)`, then the
/// tree of `s[k]`.
pub proof fn lemma_ids_all_take_next(s: Seq<ElementView>, k: int)
    requires
        0 <= k < s.len(),
    ensures
        ids_all(s.take(k + 1)) == ids_all(s.take(k)) + ids(s[k]),
{
    assert(s.take(k + 1).drop_last() =~= s.take(k));
    assert(s.take(k + 1).last() == s[k]);
}

/// The largest of `m` and the numbers in `s`.
pub open spec fn max_in(s: Seq<u32>, m: u32) -> u32
    decreases s.len(),
{
    if s.len() == 0 {
        m
    } else {
        let rest = max_in(s.drop_last(), m);
        if s.last() > rest {
            s.last()
        } else {
            rest
        }
    }
}

/// Taking the maximum over a concatenation, part by part.
pub proof fn lemma_max_in_concat(a: Seq<u32>, b: Seq<u32>, m: u32)
    ensures
        max_in(a + b, m) == max_in(b, max_in(a, m)),
    decreases b.len(),
{
    if b.len() == 0 {
        assert(a + b =~= a);
    } else {
        assert((a + b).drop_last() =~= a + b.drop_last());
        assert((a + b).last() == b.last());
        lemma_max_in_concat(a, b.drop_last(), m);
    }
}

/// `max_in` bounds every number of the sequence and the start value, and is
/// one of them.
pub proof fn lemma_max_in_bounds(s: Seq<u32>, m: u32)
    ensures
        m <= max_in(s, m),
        forall|k: int| 0 <= k < s.len() ==> s[k] <= max_in(s, m),
        max_in(s, m) == m || s.contains(max_in(s, m)),
    decreases s.len(),
{
    if s.len() > 0 {
        lemma_max_in_bounds(s.drop_last(), m);
        let r = max_in(s.drop_last(), m);
        assert forall|k: int| 0 <= k < s.len() implies s[k] <= max_in(s, m) by {
            if k < s.len() - 1 {
                assert(s[k] == s.drop_last()[k]);
            }
        }
        if max_in(s, m) != m && max_in(s, m) == r {
            let k = choose|k: int| 0 <= k < s.drop_last().len() && s.drop_last()[k] == r;
            assert(s[k] == r);
        }
        if max_in(s, m) == s.last() {
            assert(s[s.len() - 1] == s.last());
        }
    }
}

impl Element {
    /// A new element with identifier `id`, tag `tag`, no attributes and no
    /// children.
    pub fn new(id: u32, tag: &str) -> (e: Element)
        ensures
            e@ == (ElementView {
                id: id,
                tag: tag@,
                props: Seq::empty(),
                children: Seq::empty(),
            }),
    {
        let e = Element {
            id,
            tag: tag.to_owned(),
            props: PropertyMap::new(),
            children: Vec::new(),
        };
        assert(e@.children =~= Seq::<ElementView>::empty());
        e
    }

    /// A copy of the tree of this element.
    pub fn duplicate(&self) -> (r: Element)
        ensures
            r@ == self@,
        decreases self,
    {
        let mut children: Vec<Element> = Vec::new();
        let mut i: usize = 0;
        while i < self.children.len()
            invariant
                i <= self.children.len(),
                Element::models(children@) == self@.children.take(i as int),
            decreases self.children.len() - i,
        {
            let copy = self.children[i].duplicate();
            assert(self@.children[i as int] == self.children@[i as int]@);
            let ghost before = children@;
            children.push(copy);
            assert(children@ == before.push(copy));
            proof {
                lemma_models_push(before, copy);
            }
            assert(Element::models(children@) =~= self@.children.take(i + 1));
            i = i + 1;
        }
        assert(self@.children.take(i as int) =~= self@.children);
        Element {
            id: self.id,
            tag: self.tag.clone(),
            props: self.props.duplicate(),
            children,
        }
    }
}

/// Raises `max_id` to the largest identifier in the tree of `node`.
pub fn reindex_node(node: &Element, max_id: &mut u32)
    ensures
        *final(max_id) == max_in(ids(node@), *old(max_id)),
    decreases node,
{
    let ghost start = *max_id;
    if node.id > *max_id {
        *max_id = node.id;
    }
    proof {
        let one = seq![node.id];
        assert(one.drop_last() =~= Seq::<u32>::empty());
        assert(one.last() == node.id);
        assert(max_in(one.drop_last(), start) == start);
        assert(node@.children.take(0) =~= Seq::<ElementView>::empty());
        assert(one + ids_all(node@.children.take(0)) =~= one);
    }
    let mut i: usize = 0;
    while i < node.children.len()
        invariant
            i <= node.children.len(),
            node@.children.len() == node.children.len(),
            *max_id == max_in(seq![node.id] + ids_all(node@.children.take(i as int)), start),
        decreases node.children.len() - i,
    {
        let ghost before = *max_id;
        reindex_node(&node.children[i], max_id);
        proof {
            assert(node@.children[i as int] == node.children@[i as int]@);
            lemma_ids_all_take_next(node@.children, i as int);
            let a = seq![node.id] + ids_all(node@.children.take(i as int));
            lemma_max_in_concat(a, ids(node@.children[i as int]), start);
            assert(seq![node.id] + ids_all(node@.children.take(i + 1)) =~= a + ids(
                node@.children[i as int],
            ));
        }
        i = i + 1;
    }
    assert(node@.children.take(i as int) =~= node@.children);
}

/// `e` with the identifiers `start`, `start + 1`, ... given to its elements
/// in document order.
pub open spec fn renumbered(e: ElementView, start: int) -> ElementView
    decreases e,
{
    ElementView { id: start as u32, children: renumbered_all(e.children, start + 1), ..e }
}

/// The elements of `s` with identifiers from `start` on given in document
/// order.
pub open spec fn renumbered_all(s: Seq<ElementView>, start: int) -> Seq<ElementView>
    decreases s,
{
    if s.len() == 0 {
        Seq::empty()
    } else {
        renumbered_all(s.drop_last(), start).push(
            renumbered(s.last(), start + count_all(s.drop_last())),
        )
    }
}

/// The consecutive identifiers from `start`, `n` of them.
pub open spec fn id_range(start: int, n: nat) -> Seq<u32> {
    Seq::new(n, |k: int| (start + k) as u32)
}

/// Renumbering gives the elements consecutive identifiers in document order
/// and keeps the number of elements.
pub proof fn lemma_renumbered_ids(e: ElementView, start: int)
    ensures
        ids(renumbered(e, start)) == id_range(start, count(e)),
    decreases e,
{
    lemma_renumbered_all_ids(e.children, start + 1);
    assert(ids(renumbered(e, start)) =~= id_range(start, count(e)));
}

/// Renumbering a sequence gives consecutive identifiers in document order.
pub proof fn lemma_renumbered_all_ids(s: Seq<ElementView>, start: int)
    ensures
        ids_all(renumbered_all(s, start)) == id_range(start, count_all(s)),
        renumbered_all(s, start).len() == s.len(),
    decreases s,
{
    if s.len() == 0 {
        assert(ids_all(renumbered_all(s, start)) =~= id_range(start, count_all(s)));
    } else {
        let front = s.drop_last();
        lemma_renumbered_all_ids(front, start);
        lemma_renumbered_ids(s.last(), start + count_all(front));
        let r = renumbered_all(s, start);
        assert(r.drop_last() =~= renumbered_all(front, start));
        assert(ids_all(r) =~= id_range(start, count_all(s)));
    }
}

/// Renumbering a renumbered tree keeps only the second numbering.
pub proof fn lemma_renumbered_twice(e: ElementView, a: int, b: int)
    ensures
        renumbered(renumbered(e, a), b) == renumbered(e, b),
    decreases e,
{
    lemma_renumbered_all_twice(e.children, a + 1, b + 1);
}

/// Renumbering renumbered elements keeps only the second numbering.
pub proof fn lemma_renumbered_all_twice(s: Seq<ElementView>, a: int, b: int)
    ensures
        renumbered_all(renumbered_all(s, a), b) == renumbered_all(s, b),
    decreases s,
{
    if s.len() > 0 {
        let front = s.drop_last();
        let r = renumbered_all(s, a);
        assert(r.drop_last() =~= renumbered_all(front, a));
        assert(r.last() == renumbered(s.last(), a + count_all(front)));
        lemma_renumbered_all_twice(front, a, b);
        lemma_renumbered_all_ids(front, a);
        lemma_renumbered_twice(s.last(), a + count_all(front), b + count_all(front));
    }
}

/// Renumbering the first `k + 1` elements: the first `k`, then the next.
pub proof fn lemma_renumbered_all_take_next(s: Seq<ElementView>, k: int, start: int)
    requires
        0 <= k < s.len(),
    ensures
        renumbered_all(s.take(k + 1), start) == renumbered_all(s.take(k), start).push(
            renumbered(s[k], start + count_all(s.take(k))),
        ),
{
    assert(s.take(k + 1).drop_last() =~= s.take(k));
    assert(s.take(k + 1).last() == s[k]);
}

/// Gives the elements of the tree of `node` the identifiers `next_id`,
/// `next_id + 1`, ... in document order, advancing `next_id` past them.
pub fn assign_new_ids(node: &mut Element, next_id: &mut u32)
    requires
        *old(next_id) + count(old(node)@) <= u32::MAX,
    ensures
        final(node)@ == renumbered(old(node)@, *old(next_id) as int),
        *final(next_id) == *old(next_id) + count(old(node)@),
    decreases count(old(node)@),
{
    let ghost start = *next_id as int;
    let ghost unnumbered = node@;
    proof {
        lemma_ids_all_split(unnumbered.children, 0);
    }
    node.id = *next_id;
    *next_id = *next_id + 1;
    let mut i: usize = 0;
    assert(unnumbered.children.take(0) =~= Seq::<ElementView>::empty());
    assert(unnumbered.children.skip(0) =~= unnumbered.children);
    while i < node.children.len()
        invariant
            i <= node.children.len(),
            node.children.len() == unnumbered.children.len(),
            node.id == start,
            node@.tag == unnumbered.tag,
            node@.props == unnumbered.props,
            node@.children == renumbered_all(unnumbered.children.take(i as int), start + 1)
                + unnumbered.children.skip(i as int),
            *next_id == start + 1 + count_all(unnumbered.children.take(i as int)),
            start + count(unnumbered) <= u32::MAX,
            count(unnumbered) == 1 + count_all(unnumbered.children),
            unnumbered == old(node)@,
        decreases node.children.len() - i,
    {
        proof {
            lemma_renumbered_all_ids(unnumbered.children.take(i as int), start + 1);
            lemma_ids_all_split(unnumbered.children, i + 1);
            lemma_ids_all_take_next(unnumbered.children, i as int);
            lemma_renumbered_all_take_next(unnumbered.children, i as int, start + 1);
            lemma_models_update();
        }
        assert(node@.children[i as int] == node.children@[i as int]@);
        assert(node.children@[i as int]@ == unnumbered.children[i as int]);
        let ghost before_children = node@.children;
        let ghost base = *next_id as int;
        assert(count(node.children@[i as int]@) < count(unnumbered));
        assign_new_ids(&mut node.children[i], next_id);
        assert(node@.children == before_children.update(i as int, node.children@[i as int]@));
        assert(node.children@[i as int]@ == renumbered(unnumbered.children[i as int], base));
        assert(node@.children =~= renumbered_all(unnumbered.children.take(i + 1), start + 1)
            + unnumbered.children.skip(i + 1));
        i = i + 1;
    }
    assert(unnumbered.children.take(i as int) =~= unnumbered.children);
    assert(node@.children =~= renumbered_all(unnumbered.children, start + 1));
}

/// The identifiers below a single element are those of its tree.
pub proof fn lemma_ids_all_single(c: ElementView)
    ensures
        ids_all(seq![c]) == ids(c),
{
    let one = seq![c];
    assert(one.drop_last() =~= Seq::<ElementView>::empty());
    assert(one.last() == c);
    assert(ids_all(one.drop_last()) =~= Seq::<u32>::empty());
    assert(ids_all(one) =~= ids(c));
}

/// Identifiers of the elements that come before the element at `path` in
/// document order and are not below it.
pub open spec fn ids_before(e: ElementView, path: Seq<int>) -> Seq<u32>
    decreases path.len(),
{
    if path.len() == 0 {
        Seq::empty()
    } else {
        seq![e.id] + ids_all(e.children.take(path[0])) + ids_before(
            e.children[path[0]],
            path.drop_first(),
        )
    }
}

/// Identifiers of the elements that come after the tree of the element at
/// `path` in document order.
pub open spec fn ids_after(e: ElementView, path: Seq<int>) -> Seq<u32>
    decreases path.len(),
{
    if path.len() == 0 {
        Seq::empty()
    } else {
        ids_after(e.children[path[0]], path.drop_first()) + ids_all(
            e.children.skip(path[0] + 1),
        )
    }
}

/// The identifiers below a sequence: those below the elements before `i`,
/// those of the tree of `cs[i]`, and those below the elements after it.
pub proof fn lemma_ids_all_around(cs: Seq<ElementView>, i: int)
    requires
        0 <= i < cs.len(),
    ensures
        ids_all(cs) == ids_all(cs.take(i)) + ids(cs[i]) + ids_all(cs.skip(i + 1)),
{
    lemma_ids_all_split(cs, i);
    lemma_ids_all_split(cs.skip(i), 1);
    assert(cs.skip(i).take(1) =~= seq![cs[i]]);
    assert(cs.skip(i).skip(1) =~= cs.skip(i + 1));
    lemma_ids_all_single(cs[i]);
    assert(ids_all(cs) =~= ids_all(cs.take(i)) + ids(cs[i]) + ids_all(cs.skip(i + 1)));
}

/// The identifiers of a tree are those before the element at `path`, those
/// of its tree, and those after.
pub proof fn lemma_ids_at(e: ElementView, path: Seq<int>)
    requires
        valid_path(e, path),
    ensures
        ids(e) == ids_before(e, path) + ids(node_at(e, path)) + ids_after(e, path),
    decreases path.len(),
{
    if path.len() == 0 {
        assert(ids(e) =~= Seq::<u32>::empty() + ids(e) + Seq::<u32>::empty());
    } else {
        let i = path[0];
        lemma_ids_at(e.children[i], path.drop_first());
        lemma_ids_all_around(e.children, i);
        assert(ids(e) =~= ids_before(e, path) + ids(node_at(e, path)) + ids_after(e, path));
    }
}

/// Replacing the element at `path` replaces only the identifiers of its
/// tree.
pub proof fn lemma_ids_replaced(e: ElementView, path: Seq<int>, n: ElementView)
    requires
        valid_path(e, path),
    ensures
        ids(replace_at(e, path, n)) == ids_before(e, path) + ids(n) + ids_after(e, path),
    decreases path.len(),
{
    if path.len() == 0 {
        assert(ids(n) =~= Seq::<u32>::empty() + ids(n) + Seq::<u32>::empty());
    } else {
        let i = path[0];
        let c = e.children[i];
        let rest = path.drop_first();
        lemma_ids_replaced(c, rest, n);
        let c2 = replace_at(c, rest, n);
        let cs2 = e.children.update(i, c2);
        lemma_ids_all_around(cs2, i);
        assert(cs2.take(i) =~= e.children.take(i));
        assert(cs2.skip(i + 1) =~= e.children.skip(i + 1));
        assert(ids(replace_at(e, path, n)) =~= ids_before(e, path) + ids(n) + ids_after(e, path));
    }
}

/// The element at `path[from..]` below `e`.
pub fn node_ref<'a>(e: &'a Element, path: &Vec<usize>, from: usize) -> (r: &'a Element)
    requires
        from <= path.len(),
        valid_path(e@, path_view(path@).skip(from as int)),
    ensures
        r@ == node_at(e@, path_view(path@).skip(from as int)),
    decreases path.len() - from,
{
    let ghost p = path_view(path@).skip(from as int);
    if from == path.len() {
        assert(p.len() == 0);
        e
    } else {
        let i = path[from];
        assert(p[0] == i as int);
        assert(p.drop_first() =~= path_view(path@).skip(from + 1));
        assert(e.children@[i as int]@ == e@.children[i as int]);
        node_ref(&e.children[i], path, from + 1)
    }
}

} // verus!
