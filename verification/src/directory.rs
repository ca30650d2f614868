//! The phonebook as a map from identifiers to records: an alternative to the
//! ordered store for callers that only look records up by identifier.

use crate::person::{views, Person, PersonID, PersonView};
use std::collections::HashMap;
use vstd::prelude::*;
use vstd::std_specs::convert::FromSpecImpl;
use vstd::std_specs::iter::IteratorSpec;

verus! {

broadcast use vstd::std_specs::hash::group_hash_axioms;

/// Records by identifier.
#[derive(Debug, Clone)]
pub struct Phonebook(pub HashMap<PersonID, Person>);

/// The phonebook file with its records held by identifier.
#[derive(Debug, Clone)]
pub struct JsonFile2 {
    pub phonebook: Phonebook,
}

impl View for Phonebook {
    type V = Map<PersonID, PersonView>;

    open spec fn view(&self) -> Map<PersonID, PersonView> {
        self.0@.map_values(|p: Person| p@)
    }
}

/// The records of `s` by identifier; of two records with one identifier the
/// later one stays.
pub open spec fn by_id(s: Seq<PersonView>) -> Map<PersonID, PersonView>
    decreases s.len(),
{
    if s.len() == 0 {
        Map::empty()
    } else {
        by_id(s.drop_last()).insert(s.last().id, s.last())
    }
}

impl From<Vec<Person>> for Phonebook {
    fn from(persons: Vec<Person>) -> (book: Phonebook)
        ensures
            book@ == by_id(views(persons@)),
    {
        let ghost all = views(persons@);
        let mut map: HashMap<PersonID, Person> = HashMap::new();
        assert(map@.map_values(|p: Person| p@) =~= by_id(all.take(0)));
        for p in it: persons
            invariant
                views(it.seq()) == all,
                map@.map_values(|p: Person| p@) == by_id(all.take(it.index() as int)),
        {
            let ghost n = it.index() as int;
            let ghost before = map@;
            assert(p@ == all[n]);
            assert(all.take(n + 1).drop_last() =~= all.take(n));
            map.insert(p.id, p);
            assert(map@.map_values(|p: Person| p@) =~= before.map_values(|p: Person| p@).insert(
                all[n].id,
                all[n],
            ));
        }
        assert(all.take(all.len() as int) =~= all);
        Phonebook(map)
    }
}

impl FromSpecImpl<Vec<Person>> for Phonebook {
    open spec fn obeys_from_spec() -> bool {
        false
    }

    open spec fn from_spec(v: Vec<Person>) -> Phonebook {
        arbitrary()
    }
}

impl From<Phonebook> for Vec<Person> {
    /// The records of the map, in the order in which the map hands them out,
    /// which is not fixed.
    fn from(book: Phonebook) -> (persons: Vec<Person>)
        ensures
            views(persons@).to_set() == book@.values(),
            persons@.len() == book@.dom().len(),
    {
        let mut persons: Vec<Person> = Vec::new();
        let ghost all = book.0.values().remaining().unref();
        for p in it: book.0.values()
            invariant
                it.seq().unref() == all,
                views(persons@) == views(all.take(it.index() as int)),
        {
            let ghost n = it.index() as int;
            let ghost sofar = views(persons@);
            assert(*p == all[n]);
            persons.push(p.clone());
            assert(views(persons@) =~= sofar.push(all[n]@));
            assert(views(all.take(n + 1)) =~= sofar.push(all[n]@));
        }
        proof {
            assert(all.take(all.len() as int) =~= all);
            assert(views(persons@).len() == views(all).len());
            assert(book@.dom() =~= book.0@.dom());
            assert(all.to_set() == book.0@.values());
            assert(views(all).to_set() =~= book@.values()) by {
                assert forall|v: PersonView| views(all).to_set().contains(v)
                    <==> book@.values().contains(v) by {
                    if views(all).to_set().contains(v) {
                        let i = choose|i: int| 0 <= i < all.len() && views(all)[i] == v;
                        assert(all.to_set().contains(all[i]));
                        let k = choose|k: PersonID| book.0@.contains_key(k) && book.0@[k] == all[i];
                        assert(book@.contains_key(k) && book@[k] == v);
                    }
                    if book@.values().contains(v) {
                        let k = choose|k: PersonID| book@.contains_key(k) && book@[k] == v;
                        assert(book.0@.values().contains(book.0@[k]));
                        assert(all.contains(book.0@[k]));
                        let i = choose|i: int| 0 <= i < all.len() && all[i] == book.0@[k];
                        assert(views(all)[i] == v);
                    }
                }
            }
        }
        persons
    }
}

impl FromSpecImpl<Phonebook> for Vec<Person> {
    open spec fn obeys_from_spec() -> bool {
        false
    }

    open spec fn from_spec(v: Phonebook) -> Vec<Person> {
        arbitrary()
    }
}

} // verus!
