//! Values under names, one for each name.

use crate::text::same_text;
use vstd::prelude::*;

verus! {

broadcast use vstd::string::group_string_axioms;

/// Values under names, one for each name.
pub struct Table<V> {
    entries: Vec<(String, V)>,
}

/// Whether an entry has the name.
spec fn has_name<V>(entries: Seq<(String, V)>, name: Seq<char>) -> bool {
    exists|i: int| 0 <= i < entries.len() && (#[trigger] entries[i]).0@ == name
}

/// Where an entry of the name stands.
spec fn place_of<V>(entries: Seq<(String, V)>, name: Seq<char>) -> int {
    choose|i: int| 0 <= i < entries.len() && (#[trigger] entries[i]).0@ == name
}

/// Whether no two entries have the same name.
spec fn names_differ<V>(entries: Seq<(String, V)>) -> bool {
    forall|i: int, j: int|
        0 <= i < j < entries.len() ==> (#[trigger] entries[i]).0@ != (#[trigger] entries[j]).0@
}

impl<V: View> View for Table<V> {
    type V = Map<Seq<char>, V::V>;

    closed spec fn view(&self) -> Map<Seq<char>, V::V> {
        let entries = self.entries@;
        Map::new(
            |name: Seq<char>| has_name(entries, name),
            |name: Seq<char>| entries[place_of(entries, name)].1@,
        )
    }
}

impl<V: View> Table<V> {
    /// No two values have the same name.
    pub closed spec fn wf(self) -> bool {
        names_differ(self.entries@)
    }

    /// What the table holds at a place.
    proof fn lemma_entry(self, i: int)
        requires
            self.wf(),
            0 <= i < self.entries@.len(),
        ensures
            self@.contains_key(self.entries@[i].0@),
            self@[self.entries@[i].0@] == self.entries@[i].1@,
    {
        let name = self.entries@[i].0@;
        let place = place_of(self.entries@, name);
        assert(0 <= place < self.entries@.len() && self.entries@[place].0@ == name);
        if place < i {
            assert(self.entries@[place].0@ != self.entries@[i].0@);
        } else if i < place {
            assert(self.entries@[i].0@ != self.entries@[place].0@);
        }
    }

    /// The names, in some order.
    pub closed spec fn names(self) -> Seq<Seq<char>> {
        self.entries@.map_values(|entry: (String, V)| entry.0@)
    }

    /// Every name stands once among the names.
    pub proof fn lemma_names(self)
        requires
            self.wf(),
        ensures
            self.names().no_duplicates(),
            forall|name: Seq<char>|
                self.names().contains(name) <==> #[trigger] self@.contains_key(name),
    {
        let names = self.names();
        assert forall|i: int, j: int| 0 <= i < names.len() && 0 <= j < names.len() && i != j implies
            names[i] != names[j] by {
            let entries = self.entries@;
            if i < j {
                assert(entries[i].0@ != entries[j].0@);
            } else {
                assert(entries[j].0@ != entries[i].0@);
            }
        }
        assert forall|name: Seq<char>|
            names.contains(name) <==> #[trigger] self@.contains_key(name) by {
            if names.contains(name) {
                let i = choose|i: int| 0 <= i < names.len() && names[i] == name;
                assert(self.entries@[i].0@ == name);
            }
            if self@.contains_key(name) {
                let i = place_of(self.entries@, name);
                assert(self.entries@[i].0@ == name);
                assert(names[i] == name);
            }
        }
    }

    /// How many values there are.
    pub fn len(&self) -> (r: usize)
        ensures
            r == self.names().len(),
    {
        self.entries.len()
    }

    /// The value under the name at a place in the order.
    pub fn value_at(&self, i: usize) -> (r: &V)
        requires
            self.wf(),
            i < self.names().len(),
        ensures
            r@ == self@[self.names()[i as int]],
    {
        proof {
            self.lemma_entry(i as int);
        }
        &self.entries[i].1
    }

    /// A table of nothing.
    pub fn new() -> (r: Self)
        ensures
            r.wf(),
            r@ == Map::<Seq<char>, V::V>::empty(),
    {
        let r = Table { entries: Vec::new() };
        assert(r@ =~= Map::<Seq<char>, V::V>::empty());
        r
    }

    /// The place of a name, or the number of entries.
    fn find(&self, name: &str) -> (place: usize)
        requires
            self.wf(),
        ensures
            place <= self.entries@.len(),
            place < self.entries@.len() ==> self.entries@[place as int].0@ == name@,
            (place < self.entries@.len()) == self@.contains_key(name@),
    {
        let mut i: usize = 0;
        while i < self.entries.len()
            invariant
                i <= self.entries@.len(),
                self.wf(),
                forall|j: int| 0 <= j < i ==> (#[trigger] self.entries@[j]).0@ != name@,
            decreases self.entries@.len() - i,
        {
            if same_text(self.entries[i].0.as_str(), name) {
                proof {
                    self.lemma_entry(i as int);
                }
                return i;
            }
            i = i + 1;
        }
        i
    }

    /// The value under a name.
    pub fn get(&self, name: &str) -> (r: Option<&V>)
        requires
            self.wf(),
        ensures
            match r {
                Some(value) => self@.contains_key(name@) && value@ == self@[name@],
                None => !self@.contains_key(name@),
            },
    {
        let place: usize = self.find(name);
        if place < self.entries.len() {
            proof {
                self.lemma_entry(place as int);
            }
            Some(&self.entries[place].1)
        } else {
            None
        }
    }

    /// Whether there is a value under a name.
    pub fn contains(&self, name: &str) -> (r: bool)
        requires
            self.wf(),
        ensures
            r == self@.contains_key(name@),
    {
        self.find(name) < self.entries.len()
    }

    /// Whether there is no value at all.
    pub fn is_empty(&self) -> (r: bool)
        requires
            self.wf(),
        ensures
            r == (self@ == Map::<Seq<char>, V::V>::empty()),
    {
        let r = self.entries.len() == 0;
        proof {
            if r {
                assert(self@ =~= Map::<Seq<char>, V::V>::empty());
            } else {
                self.lemma_entry(0);
            }
        }
        r
    }

    /// Takes out the value under a name.
    pub fn remove(&mut self, name: &str) -> (r: Option<V>)
        requires
            old(self).wf(),
        ensures
            final(self).wf(),
            final(self)@ == old(self)@.remove(name@),
            match r {
                Some(value) => old(self)@.contains_key(name@) && value@ == old(self)@[name@],
                None => !old(self)@.contains_key(name@),
            },
    {
        let place: usize = self.find(name);
        if place < self.entries.len() {
            let ghost before = *self;
            let ghost list = self.entries@;
            let (_, value) = self.entries.remove(place);
            proof {
                let rest = self.entries@;
                before.lemma_entry(place as int);
                assert forall|i: int| 0 <= i < rest.len() implies #[trigger] rest[i] == list[if i
                    < place {
                    i
                } else {
                    i + 1
                }] by {}
                assert forall|i: int, j: int| 0 <= i < j < rest.len() implies (
                #[trigger] rest[i]).0@ != (#[trigger] rest[j]).0@ by {
                    let a = if i < place {
                        i
                    } else {
                        i + 1
                    };
                    let b = if j < place {
                        j
                    } else {
                        j + 1
                    };
                    assert(list[a].0@ != list[b].0@);
                }
                assert forall|key: Seq<char>| #[trigger]
                    self@.contains_key(key) == before@.remove(name@).contains_key(key) && (
                    self@.contains_key(key) ==> self@[key] == before@.remove(name@)[key]) by {
                    if self@.contains_key(key) {
                        let i = place_of(rest, key);
                        let a = if i < place {
                            i
                        } else {
                            i + 1
                        };
                        assert(rest[i] == list[a]);
                        before.lemma_entry(a);
                        self.lemma_entry(i);
                        if a < place {
                            assert(list[a].0@ != list[place as int].0@);
                        } else {
                            assert(list[place as int].0@ != list[a].0@);
                        }
                    }
                    if before@.remove(name@).contains_key(key) {
                        let a = place_of(list, key);
                        assert(list[a].0@ == key);
                        let i = if a < place {
                            a
                        } else {
                            a - 1
                        };
                        assert(rest[i] == list[a]);
                        self.lemma_entry(i);
                    }
                }
                assert(self@ =~= before@.remove(name@));
            }
            Some(value)
        } else {
            assert(self@.remove(name@) =~= self@);
            None
        }
    }

    /// Puts a value under a name, in place of any that is there.
    pub fn insert(&mut self, name: &str, value: V)
        requires
            old(self).wf(),
        ensures
            final(self).wf(),
            final(self)@ == old(self)@.insert(name@, value@),
    {
        let ghost before = self@;
        let _ = self.remove(name);
        let ghost middle = *self;
        let ghost list = self.entries@;
        self.entries.push((name.to_owned(), value));
        proof {
            let all = self.entries@;
            assert forall|i: int| 0 <= i < list.len() implies (#[trigger] list[i]).0@ != name@ by {
                middle.lemma_entry(i);
            }
            assert(forall|i: int| 0 <= i < list.len() ==> #[trigger] all[i] == list[i]);
            assert(names_differ(all));
            assert forall|key: Seq<char>| #[trigger]
                self@.contains_key(key) == before.insert(name@, value@).contains_key(key) && (
                self@.contains_key(key) ==> self@[key] == before.insert(name@, value@)[key]) by {
                self.lemma_entry(list.len() as int);
                if self@.contains_key(key) {
                    let i = place_of(all, key);
                    self.lemma_entry(i);
                    if i < list.len() {
                        assert(all[i] == list[i]);
                        middle.lemma_entry(i);
                    }
                }
                if before.contains_key(key) && key != name@ {
                    assert(middle@.contains_key(key));
                    let i = place_of(list, key);
                    assert(list[i].0@ == key);
                    assert(all[i] == list[i]);
                    self.lemma_entry(i);
                }
            }
            assert(self@ =~= before.insert(name@, value@));
        }
    }
}

} // verus!
