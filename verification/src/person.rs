//! A single contact entry and its mathematical view.

use vstd::prelude::*;
use vstd::std_specs::cmp::PartialEqSpecImpl;

verus! {

/// Identifier of a contact. Zero means "not assigned yet".
pub type PersonID = u128;

/// A contact entry: identifier, display name and phone number.
#[derive(Debug)]
pub struct Person {
    pub id: PersonID,
    pub name: String,
    pub number: String,
}

/// What a [`Person`] is to the contracts: its identifier and the characters
/// of its two strings.
pub ghost struct PersonView {
    pub id: PersonID,
    pub name: Seq<char>,
    pub number: Seq<char>,
}

impl View for Person {
    type V = PersonView;

    open spec fn view(&self) -> PersonView {
        PersonView { id: self.id, name: self.name@, number: self.number@ }
    }
}

/// The views of a sequence of contacts, in the same order.
pub open spec fn views(s: Seq<Person>) -> Seq<PersonView> {
    s.map_values(|p: Person| p@)
}

impl Person {
    /// A contact that has no identifier yet, ready to be added to a store.
    pub fn new(name: &str, number: &str) -> (p: Person)
        ensures
            p@ == (PersonView { id: 0, name: name@, number: number@ }),
    {
        Person { id: 0, name: name.to_owned(), number: number.to_owned() }
    }
}

impl Clone for Person {
    fn clone(&self) -> (p: Person)
        ensures
            p@ == self@,
    {
        Person { id: self.id, name: self.name.clone(), number: self.number.clone() }
    }
}

impl Default for Person {
    fn default() -> (p: Person)
        ensures
            p@ == (PersonView { id: 0, name: Seq::empty(), number: Seq::empty() }),
    {
        Person { id: 0, name: String::new(), number: String::new() }
    }
}

impl PartialEq for Person {
    fn eq(&self, other: &Person) -> (r: bool) {
        self.id == other.id && self.name == other.name && self.number == other.number
    }
}

impl PartialEqSpecImpl for Person {
    open spec fn obeys_eq_spec() -> bool {
        true
    }

    open spec fn eq_spec(&self, other: &Person) -> bool {
        self@ == other@
    }
}

} // verus!
