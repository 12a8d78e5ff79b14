//! A map from event names to values that remembers the order in which the
//! names were first inserted.
//!
//! Every result of the statistics is such a map. Walking it always visits the
//! events in the same order, so what is computed from it does not change from
//! one run to the next.

use vstd::prelude::*;

verus! {

/// The names of a sequence of named values, in their order.
pub open spec fn names_of<T>(entries: Seq<(Seq<char>, T)>) -> Seq<Seq<char>> {
    entries.map_values(|entry: (Seq<char>, T)| entry.0)
}

/// Whether one of `entries` has the name `name`.
pub open spec fn has_name<T>(entries: Seq<(Seq<char>, T)>, name: Seq<char>) -> bool {
    names_of(entries).contains(name)
}

/// An index at which `name` stands in `entries`, if it stands anywhere.
pub open spec fn index_of_name<T>(entries: Seq<(Seq<char>, T)>, name: Seq<char>) -> int {
    names_of(entries).index_of(name)
}

/// The value that `entries` holds under `name`, if it holds one.
pub open spec fn value_for<T>(entries: Seq<(Seq<char>, T)>, name: Seq<char>) -> T {
    entries[index_of_name(entries, name)].1
}

/// Where no name occurs twice, a name is found at one index only: that index
/// is its position and holds its value.
pub proof fn lemma_unique_name<T>(entries: Seq<(Seq<char>, T)>, i: int)
    requires
        names_of(entries).no_duplicates(),
        0 <= i < entries.len(),
    ensures
        has_name(entries, entries[i].0),
        index_of_name(entries, entries[i].0) == i,
        value_for(entries, entries[i].0) == entries[i].1,
{
    let names = names_of(entries);
    let name = entries[i].0;
    assert(names[i] == name);
    let p = names.index_of(name);
    assert(0 <= p < names.len() && names[p] == name);
}

/// A name that occurs in `entries` has an index there.
pub proof fn lemma_index_of_name<T>(entries: Seq<(Seq<char>, T)>, name: Seq<char>)
    requires
        has_name(entries, name),
    ensures
        0 <= index_of_name(entries, name) < entries.len(),
        entries[index_of_name(entries, name)].0 == name,
{
    let names = names_of(entries);
    let p = names.index_of(name);
    assert(0 <= p < names.len() && names[p] == name);
}

/// Whether `change` leaves the name of every named value as it is.
pub open spec fn keeps_names<T, U>(change: spec_fn((Seq<char>, T)) -> (Seq<char>, U)) -> bool {
    forall|entry: (Seq<char>, T)| (#[trigger] change(entry)).0 == entry.0
}

/// Changing the values leaves the names as they are.
pub proof fn lemma_changed_names<T, U>(
    entries: Seq<(Seq<char>, T)>,
    change: spec_fn((Seq<char>, T)) -> (Seq<char>, U),
)
    requires
        keeps_names(change),
    ensures
        names_of(entries.map_values(change)) == names_of(entries),
{
    assert(names_of(entries.map_values(change)) =~= names_of(entries));
}

/// What is kept of a sequence of named values and then changed has the name
/// `name` just when one of the values that are kept has it.
pub proof fn lemma_kept_names<T, U>(
    entries: Seq<(Seq<char>, T)>,
    keep: spec_fn((Seq<char>, T)) -> bool,
    change: spec_fn((Seq<char>, T)) -> (Seq<char>, U),
    name: Seq<char>,
)
    requires
        keeps_names(change),
    ensures
        has_name(entries.filter(keep).map_values(change), name) <==> exists|i: int|
            0 <= i < entries.len() && (#[trigger] entries[i]).0 == name && keep(entries[i]),
        has_name(entries.filter(keep).map_values(change), name) ==> has_name(entries, name),
{
    let kept = entries.filter(keep);
    let names = names_of(kept.map_values(change));
    lemma_changed_names(kept, change);
    if names.contains(name) {
        let j = choose|j: int| 0 <= j < names.len() && names[j] == name;
        entries.lemma_filter_pred(keep, j);
        assert(kept.contains(kept[j]));
        entries.lemma_filter_contains_rev(keep, kept[j]);
        let i = choose|i: int| 0 <= i < entries.len() && entries[i] == kept[j];
        assert(entries[i].0 == name && keep(entries[i]));
        assert(names_of(entries)[i] == name);
    }
    if exists|i: int| 0 <= i < entries.len() && (#[trigger] entries[i]).0 == name && keep(entries[i]) {
        let i = choose|i: int|
            0 <= i < entries.len() && (#[trigger] entries[i]).0 == name && keep(entries[i]);
        entries.lemma_filter_contains(keep, i);
        let j = choose|j: int| 0 <= j < kept.len() && kept[j] == entries[i];
        assert(names[j] == name);
    }
}

/// What is kept of a sequence of named values without a repeated name, and
/// then changed, has no repeated name either.
pub proof fn lemma_kept_names_distinct<T, U>(
    entries: Seq<(Seq<char>, T)>,
    keep: spec_fn((Seq<char>, T)) -> bool,
    change: spec_fn((Seq<char>, T)) -> (Seq<char>, U),
)
    requires
        keeps_names(change),
        names_of(entries).no_duplicates(),
    ensures
        names_of(entries.filter(keep).map_values(change)).no_duplicates(),
    decreases entries.len(),
{
    let kept = entries.filter(keep);
    lemma_changed_names(kept, change);
    if entries.len() == 0 {
        entries.lemma_filter_len(keep);
    } else {
        let rest = entries.drop_last();
        let last = entries.last();
        assert(names_of(rest) =~= names_of(entries).drop_last());
        lemma_kept_names_distinct(rest, keep, change);
        lemma_changed_names(rest.filter(keep), change);
        assert(entries =~= rest.push(last));
        rest.lemma_filter_push(last, keep);
        if keep(last) {
            let names = names_of(rest.filter(keep));
            assert(names_of(kept) =~= names.push(last.0));
            lemma_not_yet_named(entries, entries.len() - 1);
            assert(entries.take(entries.len() - 1) =~= rest);
            lemma_kept_names(rest, keep, change, last.0);
            assert(!names.contains(last.0));
            assert forall|i: int, j: int|
                0 <= i < names.len() + 1 && 0 <= j < names.len() + 1 && i != j implies names.push(
                last.0,
            )[i] != names.push(last.0)[j] by {
                if i < names.len() && j < names.len() {
                    assert(names[i] != names[j]);
                } else if i < names.len() {
                    assert(names.contains(names[i]));
                } else {
                    assert(names.contains(names[j]));
                }
            }
        }
    }
}

/// What is kept of a sequence of named values without a repeated name, and
/// then changed, holds under the name of each value that is kept what that
/// value is changed to.
pub proof fn lemma_kept_value<T, U>(
    entries: Seq<(Seq<char>, T)>,
    keep: spec_fn((Seq<char>, T)) -> bool,
    change: spec_fn((Seq<char>, T)) -> (Seq<char>, U),
    i: int,
)
    requires
        keeps_names(change),
        names_of(entries).no_duplicates(),
        0 <= i < entries.len(),
        keep(entries[i]),
    ensures
        has_name(entries.filter(keep).map_values(change), entries[i].0),
        value_for(entries.filter(keep).map_values(change), entries[i].0) == change(entries[i]).1,
{
    let kept = entries.filter(keep);
    let changed = kept.map_values(change);
    entries.lemma_filter_contains(keep, i);
    let j = choose|j: int| 0 <= j < kept.len() && kept[j] == entries[i];
    lemma_kept_names_distinct(entries, keep, change);
    assert(changed[j] == change(entries[i]));
    lemma_unique_name(changed, j);
}

/// In a sequence of named values without a repeated name, the name at an
/// index is not among the names before it.
pub proof fn lemma_not_yet_named<T>(entries: Seq<(Seq<char>, T)>, i: int)
    requires
        names_of(entries).no_duplicates(),
        0 <= i < entries.len(),
    ensures
        !has_name(entries.take(i), entries[i].0),
{
    let names = names_of(entries);
    let before = names_of(entries.take(i));
    if before.contains(entries[i].0) {
        let j = choose|j: int| 0 <= j < before.len() && before[j] == entries[i].0;
        assert(names[j] == names[i]);
    }
}

struct Entry<V> {
    name: String,
    value: V,
}

/// A map from event names to values of type `V`, in insertion order.
///
/// Its model is [`EventMap::entries`]: the sequence of names, each with its
/// value, in which no name occurs twice. The view is the [`Map`] that takes
/// each name to its value.
pub struct EventMap<V> {
    entries: Vec<Entry<V>>,
}

impl<V> View for EventMap<V> {
    type V = Map<Seq<char>, V>;

    open spec fn view(&self) -> Map<Seq<char>, V> {
        Map::new(|name: Seq<char>| self.contains(name), |name: Seq<char>| self.value_of(name))
    }
}

impl<V> EventMap<V> {
    /// The names with their values, in the order in which the names were
    /// inserted.
    pub closed spec fn entries(&self) -> Seq<(Seq<char>, V)> {
        Seq::new(self.entries@.len(), |i: int| (self.entries@[i].name@, self.entries@[i].value))
    }

    /// The names, in the order in which they were inserted.
    pub open spec fn names(&self) -> Seq<Seq<char>> {
        names_of(self.entries())
    }

    /// What holds of every `EventMap`: no name occurs twice.
    #[verifier::type_invariant]
    pub open spec fn wf(&self) -> bool {
        self.names().no_duplicates()
    }

    /// Whether `name` is a key of the map.
    pub open spec fn contains(&self, name: Seq<char>) -> bool {
        has_name(self.entries(), name)
    }

    /// The index of `name` among the names, if the map contains it.
    pub open spec fn position(&self, name: Seq<char>) -> int {
        index_of_name(self.entries(), name)
    }

    /// The value of `name`, if the map contains it.
    pub open spec fn value_of(&self, name: Seq<char>) -> V {
        value_for(self.entries(), name)
    }

    /// An empty map.
    pub fn new() -> (map: Self)
        ensures
            map.entries() == Seq::<(Seq<char>, V)>::empty(),
    {
        let map = EventMap { entries: Vec::new() };
        assert(map.entries() =~= Seq::<(Seq<char>, V)>::empty());
        map
    }

    /// The number of names in the map.
    pub fn len(&self) -> (len: usize)
        ensures
            len == self.entries().len(),
    {
        self.entries.len()
    }

    /// Whether the map has no names.
    pub fn is_empty(&self) -> (empty: bool)
        ensures
            empty == (self.entries().len() == 0),
    {
        self.entries.len() == 0
    }

    /// The name at index `i`.
    pub fn name_at(&self, i: usize) -> (name: &String)
        requires
            i < self.entries().len(),
        ensures
            name@ == self.entries()[i as int].0,
    {
        &self.entries[i].name
    }

    /// The value at index `i`.
    pub fn value_at(&self, i: usize) -> (value: &V)
        requires
            i < self.entries().len(),
        ensures
            *value == self.entries()[i as int].1,
    {
        &self.entries[i].value
    }

    /// The index at which `name` stands, if the map contains it.
    pub fn index_of(&self, name: &String) -> (index: Option<usize>)
        ensures
            match index {
                Some(i) => self.contains(name@) && i == self.position(name@),
                None => !self.contains(name@),
            },
    {
        let mut i: usize = 0;
        while i < self.entries.len()
            invariant
                i <= self.entries.len(),
                self.names().len() == self.entries.len(),
                forall|j: int| 0 <= j < i ==> self.names()[j] != name@,
            decreases self.entries.len() - i,
        {
            if self.entries[i].name == *name {
                proof {
                    use_type_invariant(self);
                    lemma_unique_name(self.entries(), i as int);
                }
                return Some(i);
            }
            i += 1;
        }
        None
    }

    /// Whether `name` is a key of the map.
    pub fn contains_key(&self, name: &String) -> (found: bool)
        ensures
            found == self.contains(name@),
    {
        self.index_of(name).is_some()
    }

    /// The value of `name`, if the map contains it.
    pub fn get(&self, name: &String) -> (value: Option<&V>)
        ensures
            match value {
                Some(v) => self.contains(name@) && *v == self.value_of(name@),
                None => !self.contains(name@),
            },
    {
        match self.index_of(name) {
            Some(i) => Some(&self.entries[i].value),
            None => None,
        }
    }

    /// Puts `value` at index `i` and hands back the value that stood there.
    /// The names stay as they are.
    pub fn replace_at(&mut self, i: usize, value: V) -> (previous: V)
        requires
            i < old(self).entries().len(),
        ensures
            final(self).entries() == old(self).entries().update(
                i as int,
                (old(self).entries()[i as int].0, value),
            ),
            previous == old(self).entries()[i as int].1,
    {
        proof {
            use_type_invariant(&*self);
        }
        let mut entries: Vec<Entry<V>> = Vec::new();
        std::mem::swap(&mut entries, &mut self.entries);
        let Entry { name, value: previous } = entries.remove(i);
        entries.insert(i, Entry { name, value });
        proof {
            let after = EventMap { entries };
            assert(after.entries() =~= old(self).entries().update(
                i as int,
                (old(self).entries()[i as int].0, value),
            ));
            assert(after.names() =~= old(self).names());
        }
        self.entries = entries;
        previous
    }

    /// Adds `name`, which the map does not contain yet, behind the other
    /// names, with the value `value`.
    pub(crate) fn push_new(&mut self, name: String, value: V)
        requires
            !old(self).contains(name@),
        ensures
            final(self).entries() == old(self).entries().push((name@, value)),
    {
        proof {
            use_type_invariant(&*self);
        }
        let mut entries: Vec<Entry<V>> = Vec::new();
        std::mem::swap(&mut entries, &mut self.entries);
        entries.push(Entry { name, value });
        proof {
            let after = EventMap { entries };
            assert(after.entries() =~= old(self).entries().push((name@, value)));
            assert(after.names() =~= old(self).names().push(name@));
        }
        self.entries = entries;
    }

    /// Gives `name` the value `value`. A name that the map does not contain
    /// yet is added behind the others, and `None` is returned; the value of a
    /// name that it contains is replaced and returned.
    pub fn insert(&mut self, name: String, value: V) -> (previous: Option<V>)
        ensures
            old(self).contains(name@) ==> {
                &&& final(self).entries() == old(self).entries().update(
                    old(self).position(name@),
                    (name@, value),
                )
                &&& previous == Some(old(self).value_of(name@))
            },
            !old(self).contains(name@) ==> {
                &&& final(self).entries() == old(self).entries().push((name@, value))
                &&& previous is None
            },
    {
        match self.index_of(&name) {
            Some(i) => {
                proof {
                    lemma_index_of_name(self.entries(), name@);
                }
                Some(self.replace_at(i, value))
            },
            None => {
                self.push_new(name, value);
                None
            },
        }
    }
}

} // verus!
