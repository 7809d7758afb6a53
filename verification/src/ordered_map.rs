//! A map from texts to values that lists its entries in the order of the keys.

use vstd::prelude::*;

use crate::order::{before, law_before_is_irreflexive, law_before_is_transitive, place, Place};

verus! {

/// Whether the keys go up strictly.
pub open spec fn ordered<T>(entries: Seq<(Seq<char>, T)>) -> bool {
    forall|i: int, j: int|
        #![trigger entries[i], entries[j]]
        0 <= i < j < entries.len() ==> before(entries[i].0, entries[j].0)
}

/// Whether entry `i` has the key.
pub open spec fn keyed<T>(entries: Seq<(Seq<char>, T)>, key: Seq<char>, i: int) -> bool {
    0 <= i < entries.len() && entries[i].0 == key
}

/// The value that the key has among the entries, if it is there.
pub open spec fn lookup<T>(entries: Seq<(Seq<char>, T)>, key: Seq<char>) -> Option<T> {
    if exists|i: int| keyed(entries, key, i) {
        Some(entries[choose|i: int| keyed(entries, key, i)].1)
    } else {
        None
    }
}

/// Among ordered entries the value of a key is that of the one entry that has it.
pub proof fn lemma_lookup_entry<T>(entries: Seq<(Seq<char>, T)>, i: int)
    requires
        ordered(entries),
        0 <= i < entries.len(),
    ensures
        lookup(entries, entries[i].0) == Some(entries[i].1),
{
    let key = entries[i].0;
    assert(keyed(entries, key, i));
    let j = choose|j: int| keyed(entries, key, j);
    law_before_is_irreflexive(key);
    if i < j {
        assert(before(entries[i].0, entries[j].0));
    } else if j < i {
        assert(before(entries[j].0, entries[i].0));
    }
}

/// The ordered entries are determined by the values of the keys.
pub proof fn law_contents_determine_entries<T>(
    a: Seq<(Seq<char>, T)>,
    b: Seq<(Seq<char>, T)>,
)
    requires
        ordered(a),
        ordered(b),
        forall|key: Seq<char>| #[trigger] lookup(a, key) == lookup(b, key),
    ensures
        a == b,
    decreases a.len(),
{
    if a.len() > 0 {
        lemma_lookup_entry(a, a.len() - 1);
        let j = choose|j: int| keyed(b, a.last().0, j);
        assert(lookup(b, a.last().0) is Some);
        assert(keyed(b, a.last().0, j));
        lemma_lookup_entry(b, b.len() - 1);
        assert(lookup(a, b.last().0) is Some);
        let i = choose|i: int| keyed(a, b.last().0, i);
        assert(keyed(a, b.last().0, i));
        assert(a.last().0 == b.last().0) by {
            if j < b.len() - 1 {
                assert(before(b[j].0, b[b.len() - 1].0));
                if i < a.len() - 1 {
                    assert(before(a[i].0, a[a.len() - 1].0));
                    law_before_is_transitive(a.last().0, b.last().0, a.last().0);
                    law_before_is_irreflexive(a.last().0);
                }
            }
        }
        lemma_lookup_entry(b, b.len() - 1);
        assert forall|key: Seq<char>| #[trigger]
            lookup(a.drop_last(), key) == lookup(b.drop_last(), key) by {
            lemma_lookup_drop_last(a, key);
            lemma_lookup_drop_last(b, key);
            assert(lookup(a, key) == lookup(b, key));
        }
        law_contents_determine_entries(a.drop_last(), b.drop_last());
        assert(a =~= a.drop_last().push(a.last()));
        assert(b =~= b.drop_last().push(b.last()));
    } else if b.len() > 0 {
        lemma_lookup_entry(b, 0);
        assert(lookup(a, b[0].0) is Some);
    }
}

pub(crate) proof fn lemma_lookup_drop_last<T>(entries: Seq<(Seq<char>, T)>, key: Seq<char>)
    requires
        ordered(entries),
        entries.len() > 0,
    ensures
        ordered(entries.drop_last()),
        lookup(entries.drop_last(), key) == if key == entries.last().0 {
            None
        } else {
            lookup(entries, key)
        },
{
    let rest = entries.drop_last();
    assert(forall|i: int| 0 <= i < rest.len() ==> rest[i] == entries[i]);
    if exists|i: int| keyed(rest, key, i) {
        let i = choose|i: int| keyed(rest, key, i);
        lemma_lookup_entry(rest, i);
        lemma_lookup_entry(entries, i);
        assert(before(entries[i].0, entries[entries.len() - 1].0));
        law_before_is_irreflexive(key);
    } else if key != entries.last().0 {
        if exists|i: int| keyed(entries, key, i) {
            let i = choose|i: int| keyed(entries, key, i);
            assert(keyed(rest, key, i));
        }
    }
}

/// A map that lists its entries in the order of the keys.
pub struct OrderedMap<T> {
    entries: Vec<(String, T)>,
}

impl<T> OrderedMap<T> {
    /// The keys in their order.
    pub closed spec fn keys(self) -> Seq<Seq<char>> {
        Seq::new(self.entries@.len(), |i: int| self.entries@[i].0@)
    }

    /// The keys go up strictly.
    #[verifier::type_invariant]
    pub open spec fn well_formed(self) -> bool {
        forall|i: int, j: int|
            #![trigger self.keys()[i], self.keys()[j]]
            0 <= i < j < self.keys().len() ==> before(self.keys()[i], self.keys()[j])
    }
}

/// The entries in their order: key and value.
impl<T: DeepView> View for OrderedMap<T> {
    type V = Seq<(Seq<char>, T::V)>;

    closed spec fn view(&self) -> Seq<(Seq<char>, T::V)> {
        pairs(self.entries@)
    }
}

impl<T: DeepView> DeepView for OrderedMap<T> {
    type V = Seq<(Seq<char>, T::V)>;

    open spec fn deep_view(&self) -> Seq<(Seq<char>, T::V)> {
        self@
    }
}

spec fn pairs<T: DeepView>(entries: Seq<(String, T)>) -> Seq<(Seq<char>, T::V)> {
    Seq::new(entries.len(), |i: int| (entries[i].0@, entries[i].1.deep_view()))
}

/// Finds the place of a key: all entries before it have smaller keys. The second
/// component says whether the entry there has the key; if not, all from there on
/// have greater keys.
fn seek<T: DeepView>(entries: &Vec<(String, T)>, key: &str) -> (found: (usize, bool))
    requires
        ordered(pairs(entries@)),
    ensures
        found.0 <= entries.len(),
        forall|j: int| 0 <= j < found.0 ==> before(#[trigger] entries@[j].0@, key@),
        found.1 ==> found.0 < entries.len() && entries@[found.0 as int].0@ == key@,
        !found.1 ==> forall|j: int|
            found.0 <= j < entries.len() ==> before(key@, #[trigger] entries@[j].0@),
{
    let mut low: usize = 0;
    let mut high: usize = entries.len();
    while low < high
        invariant
            ordered(pairs(entries@)),
            low <= high <= entries.len(),
            forall|j: int| 0 <= j < low ==> before(#[trigger] entries@[j].0@, key@),
            forall|j: int|
                high <= j < entries.len() ==> before(key@, #[trigger] entries@[j].0@),
        decreases high - low,
    {
        let middle: usize = low + (high - low) / 2;
        let ghost all = pairs(entries@);
        match place(entries[middle].0.as_str(), key) {
            Place::Before => {
                assert forall|j: int| 0 <= j < middle + 1 implies before(
                    #[trigger] entries@[j].0@,
                    key@,
                ) by {
                    if j < middle {
                        assert(before(all[j].0, all[middle as int].0));
                        law_before_is_transitive(all[j].0, all[middle as int].0, key@);
                    }
                }
                low = middle + 1;
            },
            Place::Same => {
                assert forall|j: int| 0 <= j < middle implies before(
                    #[trigger] entries@[j].0@,
                    key@,
                ) by {
                    assert(before(all[j].0, all[middle as int].0));
                }
                return (middle, true);
            },
            Place::After => {
                assert forall|j: int| middle <= j < entries.len() implies before(
                    key@,
                    #[trigger] entries@[j].0@,
                ) by {
                    if middle < j {
                        assert(before(all[middle as int].0, all[j].0));
                        law_before_is_transitive(key@, all[middle as int].0, all[j].0);
                    }
                }
                high = middle;
            },
        }
    }
    (low, false)
}

impl<T: DeepView> OrderedMap<T> {
    /// The entries of a map have strictly increasing keys.
    pub proof fn lemma_ordered(self)
        requires
            self.well_formed(),
        ensures
            ordered(self@),
    {
        assert forall|i: int, j: int|
            #![trigger self@[i], self@[j]]
            0 <= i < j < self@.len() implies before(self@[i].0, self@[j].0) by {
            assert(self.keys()[i] == self@[i].0);
            assert(self.keys()[j] == self@[j].0);
        }
    }

    /// A map without entries.
    pub fn new() -> (map: OrderedMap<T>)
        ensures
            map@ == Seq::<(Seq<char>, T::V)>::empty(),
    {
        let map = OrderedMap { entries: Vec::new() };
        assert(map@ =~= Seq::<(Seq<char>, T::V)>::empty());
        map
    }

    /// The number of entries.
    pub fn len(&self) -> (len: usize)
        ensures
            len == self@.len(),
    {
        self.entries.len()
    }

    /// The key of entry `i`.
    pub fn key(&self, i: usize) -> (key: &String)
        requires
            i < self@.len(),
        ensures
            key@ == self@[i as int].0,
    {
        &self.entries[i].0
    }

    /// The value of entry `i`.
    pub fn value(&self, i: usize) -> (value: &T)
        requires
            i < self@.len(),
        ensures
            value.deep_view() == self@[i as int].1,
    {
        &self.entries[i].1
    }

    /// The value of a key, if it is there.
    pub fn get(&self, key: &str) -> (value: Option<&T>)
        ensures
            match value {
                Some(value) => lookup(self@, key@) == Some(value.deep_view()),
                None => lookup(self@, key@) is None,
            },
    {
        proof {
            use_type_invariant(self);
            self.lemma_ordered();
        }
        let (i, found) = seek(&self.entries, key);
        if found {
            proof {
                lemma_lookup_entry(self@, i as int);
            }
            Some(&self.entries[i].1)
        } else {
            proof {
                law_before_is_irreflexive(key@);
                if exists|j: int| keyed(self@, key@, j) {
                    let j = choose|j: int| keyed(self@, key@, j);
                    assert(self.entries@[j].0@ == key@);
                }
            }
            None
        }
    }

    /// Whether a key is there.
    pub fn contains_key(&self, key: &str) -> (found: bool)
        ensures
            found == (lookup(self@, key@) is Some),
    {
        match self.get(key) {
            Some(_) => true,
            None => false,
        }
    }

    /// Gives a key its value, in place of the one it had before.
    pub fn insert(&mut self, key: String, value: T)
        ensures
            ordered(final(self)@),
            forall|k: Seq<char>| #[trigger]
                lookup(final(self)@, k) == if k == key@ {
                    Some(value.deep_view())
                } else {
                    lookup(old(self)@, k)
                },
    {
        proof {
            use_type_invariant(&*self);
            self.lemma_ordered();
        }
        let mut entries: Vec<(String, T)> = Vec::new();
        std::mem::swap(&mut entries, &mut self.entries);
        let ghost before_all = pairs(entries@);
        let ghost new = (key@, value.deep_view());
        let (i, found) = seek(&entries, key.as_str());
        if found {
            entries.set(i, (key, value));
        } else {
            entries.insert(i, (key, value));
        }
        proof {
            let all = pairs(entries@);
            if found {
                assert(all =~= before_all.update(i as int, new));
            } else {
                assert(all =~= before_all.insert(i as int, new));
            }
            lemma_put(before_all, i as int, found, new, all);
            lemma_pairs_well_formed(entries@);
        }
        self.entries = entries;
    }

    /// Takes out a key and hands back the value it had, if it was there.
    pub fn remove(&mut self, key: &str) -> (value: Option<T>)
        ensures
            match value {
                Some(value) => lookup(old(self)@, key@) == Some(value.deep_view()),
                None => lookup(old(self)@, key@) is None,
            },
            ordered(final(self)@),
            forall|k: Seq<char>| #[trigger]
                lookup(final(self)@, k) == if k == key@ {
                    None
                } else {
                    lookup(old(self)@, k)
                },
    {
        proof {
            use_type_invariant(&*self);
            self.lemma_ordered();
        }
        let mut entries: Vec<(String, T)> = Vec::new();
        std::mem::swap(&mut entries, &mut self.entries);
        let ghost before_all = pairs(entries@);
        let (i, found) = seek(&entries, key);
        if found {
            let (_, value) = entries.remove(i);
            proof {
                assert(pairs(entries@) =~= before_all.remove(i as int));
                lemma_take_out(before_all, i as int);
                lemma_lookup_entry(before_all, i as int);
                lemma_pairs_well_formed(entries@);
            }
            self.entries = entries;
            Some(value)
        } else {
            proof {
                law_before_is_irreflexive(key@);
                if exists|j: int| keyed(before_all, key@, j) {
                    let j = choose|j: int| keyed(before_all, key@, j);
                    assert(entries@[j].0@ == key@);
                }
                lemma_pairs_well_formed(entries@);
            }
            self.entries = entries;
            None
        }
    }
}

proof fn lemma_pairs_well_formed<T: DeepView>(entries: Seq<(String, T)>)
    requires
        ordered(pairs(entries)),
    ensures
        forall|i: int, j: int|
            #![trigger entries[i], entries[j]]
            0 <= i < j < entries.len() ==> before(entries[i].0@, entries[j].0@),
{
    assert forall|i: int, j: int|
        #![trigger entries[i], entries[j]]
        0 <= i < j < entries.len() implies before(entries[i].0@, entries[j].0@) by {
        assert(before(pairs(entries)[i].0, pairs(entries)[j].0));
    }
}

/// Putting an entry at its place keeps the order and changes its key only.
proof fn lemma_put<T>(
    old_all: Seq<(Seq<char>, T)>,
    i: int,
    found: bool,
    new: (Seq<char>, T),
    all: Seq<(Seq<char>, T)>,
)
    requires
        ordered(old_all),
        0 <= i <= old_all.len(),
        forall|j: int| 0 <= j < i ==> before(#[trigger] old_all[j].0, new.0),
        found ==> i < old_all.len() && old_all[i].0 == new.0 && all == old_all.update(i, new),
        !found ==> all == old_all.insert(i, new) && forall|j: int|
            i <= j < old_all.len() ==> before(new.0, #[trigger] old_all[j].0),
    ensures
        ordered(all),
        forall|k: Seq<char>| #[trigger]
            lookup(all, k) == if k == new.0 {
                Some(new.1)
            } else {
                lookup(old_all, k)
            },
{
    assert(all[i] == new);
    assert forall|a: int, b: int|
        #![trigger all[a], all[b]]
        0 <= a < b < all.len() implies before(all[a].0, all[b].0) by {
        let oa = if found || a <= i { a } else { a - 1 };
        let ob = if found || b <= i { b } else { b - 1 };
        if a != i {
            assert(all[a] == old_all[oa]);
        }
        if b != i {
            assert(all[b] == old_all[ob]);
        }
        if a == i && found {
            assert(before(old_all[a].0, old_all[b].0));
        } else if a != i && b != i {
            assert(before(old_all[oa].0, old_all[ob].0));
        }
    }
    assert forall|k: Seq<char>| #[trigger] lookup(all, k) == if k == new.0 {
        Some(new.1)
    } else {
        lookup(old_all, k)
    } by {
        if k == new.0 {
            lemma_lookup_entry(all, i);
        } else if exists|a: int| keyed(all, k, a) {
            let a = choose|a: int| keyed(all, k, a);
            let oa = if found || a <= i { a } else { a - 1 };
            assert(all[a] == old_all[oa]);
            lemma_lookup_entry(all, a);
            lemma_lookup_entry(old_all, oa);
        } else if exists|a: int| keyed(old_all, k, a) {
            let a = choose|a: int| keyed(old_all, k, a);
            let na = if found || a < i { a } else { a + 1 };
            assert(all[na] == old_all[a]);
            assert(keyed(all, k, na));
        }
    }
}

/// Taking an entry out keeps the order and forgets its key only.
proof fn lemma_take_out<T>(all: Seq<(Seq<char>, T)>, i: int)
    requires
        ordered(all),
        0 <= i < all.len(),
    ensures
        ordered(all.remove(i)),
        forall|k: Seq<char>| #[trigger]
            lookup(all.remove(i), k) == if k == all[i].0 {
                None
            } else {
                lookup(all, k)
            },
{
    let rest = all.remove(i);
    assert forall|a: int, b: int|
        #![trigger rest[a], rest[b]]
        0 <= a < b < rest.len() implies before(rest[a].0, rest[b].0) by {
        let oa = if a < i { a } else { a + 1 };
        let ob = if b < i { b } else { b + 1 };
        assert(before(all[oa].0, all[ob].0));
    }
    assert forall|k: Seq<char>| #[trigger] lookup(rest, k) == if k == all[i].0 {
        None
    } else {
        lookup(all, k)
    } by {
        if exists|a: int| keyed(rest, k, a) {
            let a = choose|a: int| keyed(rest, k, a);
            let oa = if a < i { a } else { a + 1 };
            assert(all[oa] == rest[a]);
            lemma_lookup_entry(rest, a);
            lemma_lookup_entry(all, oa);
            lemma_lookup_entry(all, i);
            if k == all[i].0 {
                law_before_is_irreflexive(k);
                if oa < i {
                    assert(before(all[oa].0, all[i].0));
                } else {
                    assert(before(all[i].0, all[oa].0));
                }
            }
        } else if k != all[i].0 && exists|a: int| keyed(all, k, a) {
            let a = choose|a: int| keyed(all, k, a);
            let na = if a < i { a } else { a - 1 };
            assert(rest[na] == all[a]);
            assert(keyed(rest, k, na));
        }
    }
}

/// Among ordered entries a key has a value exactly if an entry says so.
pub proof fn law_lookup_finds_the_entry<T>(entries: Seq<(Seq<char>, T)>, key: Seq<char>, value: T)
    requires
        ordered(entries),
    ensures
        lookup(entries, key) == Some(value) <==> entries.contains((key, value)),
        lookup(entries, key) is None <==> forall|i: int|
            0 <= i < entries.len() ==> (#[trigger] entries[i]).0 != key,
{
    if entries.contains((key, value)) {
        let i = choose|i: int| 0 <= i < entries.len() && entries[i] == (key, value);
        lemma_lookup_entry(entries, i);
    }
    if exists|i: int| keyed(entries, key, i) {
        let i = choose|i: int| keyed(entries, key, i);
        assert(entries[i].0 == key);
        assert(entries[i] == (key, lookup(entries, key)->0));
    }
    if exists|i: int| 0 <= i < entries.len() && (#[trigger] entries[i]).0 == key {
        let i = choose|i: int| 0 <= i < entries.len() && (#[trigger] entries[i]).0 == key;
        assert(keyed(entries, key, i));
    }
}

/// Getting a key gives the value of the entry that has it, and nothing if there is
/// none.
pub proof fn law_get_finds_the_entry<T: DeepView>(
    map: OrderedMap<T>,
    key: &str,
    value: Option<&T>,
    found: bool,
)
    requires
        map.well_formed(),
        call_ensures(OrderedMap::<T>::get, (&map, key), value),
        call_ensures(OrderedMap::<T>::contains_key, (&map, key), found),
    ensures
        match value {
            Some(value) => map@.contains((key@, value.deep_view())),
            None => forall|i: int| 0 <= i < map@.len() ==> (#[trigger] map@[i]).0 != key@,
        },
        found == (value is Some),
{
    map.lemma_ordered();
    if value is Some {
        law_lookup_finds_the_entry(map@, key@, value->0.deep_view());
    } else {
        law_lookup_finds_the_entry(map@, key@, arbitrary());
    }
}

} // verus!
