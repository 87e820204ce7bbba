//! Attribute maps of elements, kept in the order of their names.

use vstd::prelude::*;

use crate::text::{lemma_text_less_irreflexive, lemma_text_less_total, lemma_text_less_transitive, same_text, text_less, text_less_exec};

verus! {

/// One attribute of an element: its name and its value.
pub struct Property {
    pub name: String,
    pub value: String,
}

/// Whether the names in `entries` strictly increase.
pub open spec fn names_ascend(entries: Seq<(Seq<char>, Seq<char>)>) -> bool {
    forall|i: int, j: int|
        0 <= i < j < entries.len() ==> text_less(#[trigger] entries[i].0, #[trigger] entries[j].0)
}

/// Whether some entry is named `name`.
pub open spec fn has_name(entries: Seq<(Seq<char>, Seq<char>)>, name: Seq<char>) -> bool {
    exists|i: int| 0 <= i < entries.len() && #[trigger] entries[i].0 == name
}

/// A position of an entry named `name`, where there is one.
pub open spec fn name_position(entries: Seq<(Seq<char>, Seq<char>)>, name: Seq<char>) -> int {
    choose|i: int| 0 <= i < entries.len() && #[trigger] entries[i].0 == name
}

/// The value of the entry named `name`, if there is one.
pub open spec fn lookup(entries: Seq<(Seq<char>, Seq<char>)>, name: Seq<char>) -> Option<
    Seq<char>,
> {
    if has_name(entries, name) {
        Some(entries[name_position(entries, name)].1)
    } else {
        None
    }
}

/// With ascending names, the entry at `i` is the one that `lookup` finds.
pub proof fn lemma_lookup_at(entries: Seq<(Seq<char>, Seq<char>)>, i: int)
    requires
        names_ascend(entries),
        0 <= i < entries.len(),
    ensures
        lookup(entries, entries[i].0) == Some(entries[i].1),
{
    let name = entries[i].0;
    assert(has_name(entries, name));
    let k = name_position(entries, name);
    if k != i {
        if k < i {
            assert(text_less(entries[k].0, entries[i].0));
        } else {
            assert(text_less(entries[i].0, entries[k].0));
        }
        lemma_text_less_irreflexive(name);
    }
    assert(k == i);
    assert(lookup(entries, name) == Some(entries[k].1));
}

/// Two maps with ascending names that give every name the same value hold
/// the same entries in the same order.
pub proof fn lemma_ascending_entries_determined(
    a: Seq<(Seq<char>, Seq<char>)>,
    b: Seq<(Seq<char>, Seq<char>)>,
)
    requires
        names_ascend(a),
        names_ascend(b),
        forall|name: Seq<char>| lookup(a, name) == lookup(b, name),
    ensures
        a == b,
    decreases a.len() + b.len(),
{
    if a.len() == 0 || b.len() == 0 {
        if a.len() > 0 {
            lemma_lookup_at(a, 0);
            assert(lookup(b, a[0].0) is None);
        }
        if b.len() > 0 {
            lemma_lookup_at(b, 0);
            assert(lookup(a, b[0].0) is None);
        }
        assert(a =~= b);
    } else {
        lemma_lookup_at(a, 0);
        lemma_lookup_at(b, 0);
        let x = a[0].0;
        let y = b[0].0;
        lemma_text_less_total(x, y);
        if x != y {
            if text_less(x, y) {
                assert(lookup(b, x) is Some);
                let k = name_position(b, x);
                if k > 0 {
                    assert(text_less(b[0].0, b[k].0));
                    lemma_text_less_total(x, y);
                } else {
                    lemma_text_less_irreflexive(x);
                }
            } else {
                assert(lookup(a, y) is Some);
                let k = name_position(a, y);
                if k > 0 {
                    assert(text_less(a[0].0, a[k].0));
                } else {
                    lemma_text_less_irreflexive(y);
                }
            }
        }
        let ra = a.drop_first();
        let rb = b.drop_first();
        assert forall|name: Seq<char>| lookup(ra, name) == lookup(rb, name) by {
            lemma_lookup_rest(a, name);
            lemma_lookup_rest(b, name);
        }
        lemma_ascending_entries_determined(ra, rb);
        assert(a =~= seq![a[0]] + ra);
        assert(b =~= seq![b[0]] + rb);
    }
}

/// Looking a name up past the first entry.
pub proof fn lemma_lookup_rest(entries: Seq<(Seq<char>, Seq<char>)>, name: Seq<char>)
    requires
        names_ascend(entries),
        entries.len() > 0,
    ensures
        names_ascend(entries.drop_first()),
        lookup(entries.drop_first(), name) == if name == entries[0].0 {
            None
        } else {
            lookup(entries, name)
        },
{
    let rest = entries.drop_first();
    assert forall|i: int, j: int| 0 <= i < j < rest.len() implies text_less(
        #[trigger] rest[i].0,
        #[trigger] rest[j].0,
    ) by {
        assert(rest[i] == entries[i + 1]);
        assert(rest[j] == entries[j + 1]);
    }
    if name == entries[0].0 {
        if has_name(rest, name) {
            let k = name_position(rest, name);
            assert(entries[k + 1].0 == name);
            assert(text_less(entries[0].0, entries[k + 1].0));
            lemma_text_less_irreflexive(name);
        }
    } else {
        if has_name(entries, name) {
            let k = name_position(entries, name);
            assert(rest[k - 1].0 == name);
            lemma_lookup_at(entries, k);
            lemma_lookup_at(rest, k - 1);
        } else {
            if has_name(rest, name) {
                let k = name_position(rest, name);
                assert(entries[k + 1].0 == name);
            }
        }
    }
}

/// The attributes of an element, by name. Entries are kept in ascending
/// order of their names, each name once.
pub struct PropertyMap {
    entries: Vec<Property>,
}

/// The name and value of a property as characters.
pub open spec fn property_view(p: Property) -> (Seq<char>, Seq<char>) {
    (p.name@, p.value@)
}

impl View for PropertyMap {
    type V = Seq<(Seq<char>, Seq<char>)>;

    closed spec fn view(&self) -> Seq<(Seq<char>, Seq<char>)> {
        self.entries@.map_values(|p: Property| property_view(p))
    }
}

impl PropertyMap {
    /// The entries are kept with ascending names.
    #[verifier::type_invariant]
    pub(crate) open spec fn ascending(self) -> bool {
        names_ascend(self@)
    }

    /// An empty map.
    pub fn new() -> (m: PropertyMap)
        ensures
            m@ == Seq::<(Seq<char>, Seq<char>)>::empty(),
    {
        let m = PropertyMap { entries: Vec::new() };
        assert(m@ =~= Seq::<(Seq<char>, Seq<char>)>::empty());
        m
    }

    /// Number of entries.
    pub fn len(&self) -> (n: usize)
        ensures
            n == self@.len(),
    {
        self.entries.len()
    }

    /// The entry at position `i`, in ascending order of names.
    pub fn entry(&self, i: usize) -> (p: &Property)
        requires
            i < self@.len(),
        ensures
            property_view(*p) == self@[i as int],
    {
        &self.entries[i]
    }

    /// The value stored under `name`, if any (`BTreeMap::get`).
    pub fn get(&self, name: &str) -> (r: Option<&String>)
        ensures
            match r {
                Some(v) => lookup(self@, name@) == Some(v@),
                None => lookup(self@, name@) is None,
            },
    {
        proof {
            use_type_invariant(self);
        }
        let mut i: usize = 0;
        while i < self.entries.len()
            invariant
                i <= self.entries.len(),
                names_ascend(self@),
                self@.len() == self.entries.len(),
                forall|k: int| 0 <= k < i ==> #[trigger] self@[k].0 != name@,
            decreases self.entries.len() - i,
        {
            assert(self@[i as int] == property_view(self.entries@[i as int]));
            if same_text(self.entries[i].name.as_str(), name) {
                proof {
                    lemma_lookup_at(self@, i as int);
                }
                return Some(&self.entries[i].value);
            }
            i = i + 1;
        }
        None
    }

    /// Removes every entry (`BTreeMap::clear`).
    pub fn clear(&mut self)
        ensures
            final(self)@ == Seq::<(Seq<char>, Seq<char>)>::empty(),
    {
        self.entries = Vec::new();
        assert(self@ =~= Seq::<(Seq<char>, Seq<char>)>::empty());
    }

    /// Stores `value` under `name`, replacing the value that was there
    /// (`BTreeMap::insert`).
    pub fn insert(&mut self, name: String, value: String)
        ensures
            final(self)@ == insert_entry(old(self)@, (name@, value@)),
            names_ascend(final(self)@),
            forall|k: Seq<char>| #[trigger]
                lookup(final(self)@, k) == if k == name@ {
                    Some(value@)
                } else {
                    lookup(old(self)@, k)
                },
    {
        proof {
            use_type_invariant(&*self);
        }
        let ghost before = self@;
        let mut entries: Vec<Property> = Vec::new();
        std::mem::swap(&mut entries, &mut self.entries);
        assert(entries@.map_values(|p: Property| property_view(p)) == before);
        let mut i: usize = 0;
        while i < entries.len() && text_less_exec(entries[i].name.as_str(), name.as_str())
            invariant
                i <= entries.len(),
                entries@.map_values(|p: Property| property_view(p)) == before,
                names_ascend(before),
                forall|k: int| 0 <= k < i ==> text_less(#[trigger] before[k].0, name@),
            decreases entries.len() - i,
        {
            assert(before[i as int] == property_view(entries@[i as int]));
            i = i + 1;
        }
        if i < entries.len() {
            assert(before[i as int] == property_view(entries@[i as int]));
        }
        if i < entries.len() && same_text(entries[i].name.as_str(), name.as_str()) {
            entries.set(i, Property { name, value });
            let ghost after = entries@.map_values(|p: Property| property_view(p));
            assert(after =~= before.update(i as int, after[i as int]));
            proof {
                lemma_replaced(before, after, i as int);
                lemma_insert_entry_skip(before, i as int, after[i as int]);
                assert(before.skip(i as int).drop_first() =~= before.skip(i + 1));
                assert(after =~= before.take(i as int) + insert_entry(before.skip(i as int), after[i as int]));
            }
            self.entries = entries;
        } else {
            let ghost n = name@;
            let ghost v = value@;
            let ghost position = i as int;
            proof {
                if i < before.len() {
                    lemma_text_less_total(name@, before[i as int].0);
                }
                lemma_inserted_ascends(before, position, (n, v));
            }
            entries.insert(i, Property { name, value });
            assert(entries@.map_values(|p: Property| property_view(p)) =~= before.insert(position, (n, v)));
            proof {
                lemma_inserted_lookup(before, position, (n, v));
                lemma_insert_entry_skip(before, position, (n, v));
                if position < before.len() {
                    lemma_text_less_total(n, before[position].0);
                    assert(!text_less(before[position].0, n));
                }
                assert(before.insert(position, (n, v)) =~= before.take(position) + insert_entry(before.skip(position), (n, v)));
            }
            self.entries = entries;
        }
    }

    /// A copy holding the same entries.
    pub fn duplicate(&self) -> (m: PropertyMap)
        ensures
            m@ == self@,
    {
        proof {
            use_type_invariant(self);
        }
        let mut entries: Vec<Property> = Vec::new();
        let mut i: usize = 0;
        while i < self.entries.len()
            invariant
                i <= self.entries.len(),
                entries@.len() == i,
                forall|k: int|
                    0 <= k < i ==> property_view(#[trigger] entries@[k]) == property_view(
                        self.entries@[k],
                    ),
            decreases self.entries.len() - i,
        {
            let p = &self.entries[i];
            entries.push(Property { name: p.name.clone(), value: p.value.clone() });
            i = i + 1;
        }
        assert(entries@.map_values(|p: Property| property_view(p)) =~= self@);
        PropertyMap { entries }
    }
}

/// Giving the entry at `i` a new value under the same name keeps names
/// ascending and changes the lookup of that name only.
proof fn lemma_replaced(before: Seq<(Seq<char>, Seq<char>)>, after: Seq<(Seq<char>, Seq<char>)>, i: int)
    requires
        names_ascend(before),
        0 <= i < before.len(),
        after == before.update(i, after[i]),
        after[i].0 == before[i].0,
    ensures
        names_ascend(after),
        forall|k: Seq<char>| #[trigger]
            lookup(after, k) == if k == after[i].0 {
                Some(after[i].1)
            } else {
                lookup(before, k)
            },
{
    assert forall|a: int, b: int| 0 <= a < b < after.len() implies text_less(
        #[trigger] after[a].0,
        #[trigger] after[b].0,
    ) by {
        assert(after[a].0 == before[a].0);
        assert(after[b].0 == before[b].0);
    }
    assert forall|k: Seq<char>| #[trigger]
        lookup(after, k) == if k == after[i].0 {
            Some(after[i].1)
        } else {
            lookup(before, k)
        } by {
        lemma_lookup_at(after, i);
        if has_name(before, k) {
            let j = name_position(before, k);
            lemma_lookup_at(before, j);
            lemma_lookup_at(after, j);
        }
        if has_name(after, k) {
            let j = name_position(after, k);
            assert(before[j].0 == k);
        }
    }
}

/// Inserting an entry between names before and after its own keeps names
/// ascending.
proof fn lemma_inserted_ascends(
    before: Seq<(Seq<char>, Seq<char>)>,
    i: int,
    entry: (Seq<char>, Seq<char>),
)
    requires
        names_ascend(before),
        0 <= i <= before.len(),
        forall|k: int| 0 <= k < i ==> text_less(#[trigger] before[k].0, entry.0),
        i < before.len() ==> text_less(entry.0, before[i].0),
    ensures
        names_ascend(before.insert(i, entry)),
{
    let after = before.insert(i, entry);
    assert forall|a: int, b: int| 0 <= a < b < after.len() implies text_less(
        #[trigger] after[a].0,
        #[trigger] after[b].0,
    ) by {
        if b < i {
        } else if b == i {
            assert(after[a] == before[a]);
        } else if a == i {
            assert(after[b] == before[b - 1]);
            if b - 1 > i {
                lemma_text_less_transitive(entry.0, before[i].0, before[b - 1].0);
            }
        } else if a < i {
            assert(after[b] == before[b - 1]);
        } else {
            assert(after[a] == before[a - 1]);
            assert(after[b] == before[b - 1]);
        }
    }
}

/// After inserting a new entry, its name gives its value and every other
/// name gives what it gave before.
proof fn lemma_inserted_lookup(
    before: Seq<(Seq<char>, Seq<char>)>,
    i: int,
    entry: (Seq<char>, Seq<char>),
)
    requires
        names_ascend(before),
        names_ascend(before.insert(i, entry)),
        0 <= i <= before.len(),
    ensures
        forall|k: Seq<char>| #[trigger]
            lookup(before.insert(i, entry), k) == if k == entry.0 {
                Some(entry.1)
            } else {
                lookup(before, k)
            },
{
    let after = before.insert(i, entry);
    assert forall|k: Seq<char>| #[trigger]
        lookup(after, k) == if k == entry.0 {
            Some(entry.1)
        } else {
            lookup(before, k)
        } by {
        assert(after[i] == entry);
        lemma_lookup_at(after, i);
        if has_name(before, k) {
            let j = name_position(before, k);
            lemma_lookup_at(before, j);
            if j < i {
                assert(after[j] == before[j]);
                lemma_lookup_at(after, j);
            } else {
                assert(after[j + 1] == before[j]);
                lemma_lookup_at(after, j + 1);
            }
        }
        if has_name(after, k) && k != entry.0 {
            let j = name_position(after, k);
            if j < i {
                assert(before[j] == after[j]);
            } else if j > i {
                assert(before[j - 1] == after[j]);
            }
        }
    }
}

/// `entries` with `entry` stored under its name: in place of the entry of
/// the same name, or else at the position that keeps names ascending.
pub open spec fn insert_entry(
    entries: Seq<(Seq<char>, Seq<char>)>,
    entry: (Seq<char>, Seq<char>),
) -> Seq<(Seq<char>, Seq<char>)>
    decreases entries.len(),
{
    if entries.len() == 0 {
        seq![entry]
    } else if text_less(entries[0].0, entry.0) {
        seq![entries[0]] + insert_entry(entries.drop_first(), entry)
    } else if entries[0].0 == entry.0 {
        seq![entry] + entries.drop_first()
    } else {
        seq![entry] + entries
    }
}

/// `entries` with each of `pairs` stored in turn.
pub open spec fn insert_all(
    entries: Seq<(Seq<char>, Seq<char>)>,
    pairs: Seq<(Seq<char>, Seq<char>)>,
) -> Seq<(Seq<char>, Seq<char>)>
    decreases pairs.len(),
{
    if pairs.len() == 0 {
        entries
    } else {
        insert_entry(insert_all(entries, pairs.drop_last()), pairs.last())
    }
}

/// `insert_all` for at most three entries, written out.
pub proof fn lemma_insert_all_short(
    entries: Seq<(Seq<char>, Seq<char>)>,
    pairs: Seq<(Seq<char>, Seq<char>)>,
)
    requires
        pairs.len() <= 3,
    ensures
        insert_all(entries, pairs) == if pairs.len() == 0 {
            entries
        } else if pairs.len() == 1 {
            insert_entry(entries, pairs[0])
        } else if pairs.len() == 2 {
            insert_entry(insert_entry(entries, pairs[0]), pairs[1])
        } else {
            insert_entry(insert_entry(insert_entry(entries, pairs[0]), pairs[1]), pairs[2])
        },
{
    reveal_with_fuel(insert_all, 4);
    if pairs.len() >= 1 {
        let p1 = pairs.drop_last();
        assert(pairs.last() == pairs[pairs.len() - 1]);
        if pairs.len() >= 2 {
            let p2 = p1.drop_last();
            assert(p1.last() == pairs[pairs.len() - 2]);
            if pairs.len() >= 3 {
                assert(p2.last() == pairs[0]);
                assert(p2.drop_last().len() == 0);
            } else {
                assert(p2.len() == 0);
            }
        } else {
            assert(p1.len() == 0);
        }
    }
}

/// Storing past a prefix of entries named before the new one.
proof fn lemma_insert_entry_skip(
    entries: Seq<(Seq<char>, Seq<char>)>,
    i: int,
    entry: (Seq<char>, Seq<char>),
)
    requires
        0 <= i <= entries.len(),
        forall|k: int| 0 <= k < i ==> text_less(#[trigger] entries[k].0, entry.0),
    ensures
        insert_entry(entries, entry) == entries.take(i) + insert_entry(entries.skip(i), entry),
    decreases i,
{
    if i == 0 {
        assert(entries.take(0) + insert_entry(entries.skip(0), entry) =~= insert_entry(entries, entry)) by {
            assert(entries.skip(0) =~= entries);
        }
    } else {
        let rest = entries.drop_first();
        assert forall|k: int| 0 <= k < i - 1 implies text_less(#[trigger] rest[k].0, entry.0) by {
            assert(rest[k] == entries[k + 1]);
        }
        lemma_insert_entry_skip(rest, i - 1, entry);
        assert(rest.skip(i - 1) =~= entries.skip(i));
        assert(seq![entries[0]] + rest.take(i - 1) =~= entries.take(i));
    }
}

/// Storing entries whose names already ascend, one after the other, into
/// an empty map gives them back in the same order.
pub proof fn lemma_insert_all_ascending(pairs: Seq<(Seq<char>, Seq<char>)>)
    requires
        names_ascend(pairs),
    ensures
        insert_all(Seq::empty(), pairs) == pairs,
    decreases pairs.len(),
{
    if pairs.len() > 0 {
        let front = pairs.drop_last();
        assert forall|i: int, j: int| 0 <= i < j < front.len() implies text_less(
            #[trigger] front[i].0,
            #[trigger] front[j].0,
        ) by {
            assert(front[i] == pairs[i]);
            assert(front[j] == pairs[j]);
        }
        lemma_insert_all_ascending(front);
        assert forall|k: int| 0 <= k < front.len() implies text_less(
            #[trigger] front[k].0,
            pairs.last().0,
        ) by {
            assert(front[k] == pairs[k]);
            assert(pairs.last() == pairs[pairs.len() - 1]);
        }
        lemma_insert_entry_skip(front, front.len() as int, pairs.last());
        assert(front.skip(front.len() as int) =~= Seq::<(Seq<char>, Seq<char>)>::empty());
        assert(front.take(front.len() as int) =~= front);
        assert(front.push(pairs.last()) =~= pairs);
    }
}

/// Number of leading entries of `entries` named before `name`.
pub open spec fn leading_before(entries: Seq<(Seq<char>, Seq<char>)>, name: Seq<char>) -> int
    decreases entries.len(),
{
    if entries.len() > 0 && text_less(entries[0].0, name) {
        1 + leading_before(entries.drop_first(), name)
    } else {
        0
    }
}

/// The entries before `leading_before` are named before `name`; the one
/// there, if any, is not.
proof fn lemma_leading_before(entries: Seq<(Seq<char>, Seq<char>)>, name: Seq<char>)
    ensures
        0 <= leading_before(entries, name) <= entries.len(),
        forall|k: int|
            0 <= k < leading_before(entries, name) ==> text_less(#[trigger] entries[k].0, name),
        leading_before(entries, name) < entries.len() ==> !text_less(
            entries[leading_before(entries, name)].0,
            name,
        ),
    decreases entries.len(),
{
    if entries.len() > 0 && text_less(entries[0].0, name) {
        let rest = entries.drop_first();
        lemma_leading_before(rest, name);
        assert forall|k: int| 0 <= k < leading_before(entries, name) implies text_less(
            #[trigger] entries[k].0,
            name,
        ) by {
            if k > 0 {
                assert(entries[k] == rest[k - 1]);
            }
        }
        if leading_before(entries, name) < entries.len() {
            assert(entries[leading_before(entries, name)] == rest[leading_before(rest, name)]);
        }
    }
}

/// Storing an entry keeps names ascending; afterwards its name gives its
/// value and every other name gives what it gave before.
pub proof fn lemma_insert_entry_facts(
    entries: Seq<(Seq<char>, Seq<char>)>,
    entry: (Seq<char>, Seq<char>),
)
    requires
        names_ascend(entries),
    ensures
        names_ascend(insert_entry(entries, entry)),
        forall|k: Seq<char>| #[trigger]
            lookup(insert_entry(entries, entry), k) == if k == entry.0 {
                Some(entry.1)
            } else {
                lookup(entries, k)
            },
{
    lemma_leading_before(entries, entry.0);
    let i = leading_before(entries, entry.0);
    lemma_insert_entry_skip(entries, i, entry);
    let tail = entries.skip(i);
    if i < entries.len() && entries[i].0 == entry.0 {
        let after = entries.update(i, entry);
        assert(tail[0] == entries[i]);
        assert(tail.drop_first() =~= entries.skip(i + 1));
        assert(entries.take(i) + insert_entry(tail, entry) =~= after);
        lemma_replaced(entries, after, i);
    } else {
        if i < entries.len() {
            assert(tail[0] == entries[i]);
            lemma_text_less_total(entry.0, entries[i].0);
        }
        lemma_inserted_ascends(entries, i, entry);
        lemma_inserted_lookup(entries, i, entry);
        assert(entries.insert(i, entry) =~= entries.take(i) + insert_entry(tail, entry));
    }
}

/// The value of the last of `pairs` named `name`, if any.
pub open spec fn last_value(pairs: Seq<(Seq<char>, Seq<char>)>, name: Seq<char>) -> Option<
    Seq<char>,
>
    decreases pairs.len(),
{
    if pairs.len() == 0 {
        None
    } else if pairs.last().0 == name {
        Some(pairs.last().1)
    } else {
        last_value(pairs.drop_last(), name)
    }
}

/// Storing `pairs` one after the other into an empty map gives a map with
/// ascending names in which each name has the value of the last pair of
/// that name.
pub proof fn lemma_insert_all_lookup(pairs: Seq<(Seq<char>, Seq<char>)>)
    ensures
        names_ascend(insert_all(Seq::empty(), pairs)),
        forall|k: Seq<char>| #[trigger]
            lookup(insert_all(Seq::empty(), pairs), k) == last_value(pairs, k),
    decreases pairs.len(),
{
    if pairs.len() == 0 {
        assert forall|k: Seq<char>| #[trigger]
            lookup(insert_all(Seq::empty(), pairs), k) == last_value(pairs, k) by {
            assert(!has_name(Seq::<(Seq<char>, Seq<char>)>::empty(), k));
        }
    } else {
        lemma_insert_all_lookup(pairs.drop_last());
        lemma_insert_entry_facts(insert_all(Seq::empty(), pairs.drop_last()), pairs.last());
    }
}

} // verus!
