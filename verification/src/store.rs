//! The store: contact records in ascending order of their identifiers.
//!
//! The order is an invariant of the type, so every lookup may bisect.
//! Identifiers are given out by the store and never by its callers. A name
//! is compared with the names already stored when a record is added, and not
//! when one is changed.

use crate::error::StoreError;
use crate::ident::{generate_id, id_is_free, lemma_max_id_bounds, max_id};
use crate::order::{
    has_id, ids_ascending, ids_strictly_ascending, lemma_filter_picks, lemma_insert_at_rank,
    lemma_picked_ascending, lemma_rank_bounds, lemma_rank_is, lemma_record_with_id, lower_bound,
    picked_from, rank, record_with_id, sort_by_id, sorted_by_id,
};
use crate::person::{views, Person, PersonID, PersonView};
use crate::text::{key_of, name_key, names_collide};
use vstd::prelude::*;

verus! {

/// The phonebook as it is held in memory and written to its file.
#[derive(Debug)]
pub struct JsonFile {
    phonebook: Vec<Person>,
}

impl View for JsonFile {
    type V = Seq<PersonView>;

    closed spec fn view(&self) -> Seq<PersonView> {
        views(self.phonebook@)
    }
}

/// Some record of `s` has a name that collides with `name`.
pub open spec fn name_taken(s: Seq<PersonView>, name: Seq<char>) -> bool {
    exists|i: int| 0 <= i < s.len() && names_collide(#[trigger] s[i].name, name)
}

/// The record at `i` is the first of `s` whose name collides with `name`.
pub open spec fn is_first_collision(s: Seq<PersonView>, name: Seq<char>, i: int) -> bool {
    &&& 0 <= i < s.len()
    &&& names_collide(s[i].name, name)
    &&& forall|j: int| 0 <= j < i ==> !names_collide(#[trigger] s[j].name, name)
}

/// No two records of `s` have names that collide.
pub open spec fn names_distinct(s: Seq<PersonView>) -> bool {
    forall|i: int, j: int|
        0 <= i < j < s.len() ==> !names_collide(#[trigger] s[i].name, #[trigger] s[j].name)
}

/// The record that is stored for a candidate `p` once it has got `id`.
pub open spec fn with_id(p: PersonView, id: PersonID) -> PersonView {
    PersonView { id, name: p.name, number: p.number }
}

/// What a successful addition does: the candidate `p` was acceptable to the
/// records `before`, `id` was free among them, and `after` holds them and
/// the candidate under that identifier, at the place the order gives it.
pub open spec fn added(
    before: Seq<PersonView>,
    p: PersonView,
    id: PersonID,
    after: Seq<PersonView>,
) -> bool {
    &&& p.id == 0
    &&& key_of(p.name) is Some
    &&& !name_taken(before, p.name)
    &&& id_is_free(before, id)
    &&& after == before.insert(rank(before, id) as int, with_id(p, id))
}

/// The record `r` after an update with `patch`: an empty name or number in
/// the patch leaves that of the record as it is, and so is the identifier,
/// whatever the patch holds.
pub open spec fn patched(r: PersonView, patch: PersonView) -> PersonView {
    PersonView {
        id: r.id,
        name: if patch.name.len() > 0 {
            patch.name
        } else {
            r.name
        },
        number: if patch.number.len() > 0 {
            patch.number
        } else {
            r.number
        },
    }
}

impl JsonFile {
    #[verifier::type_invariant]
    spec fn in_order(&self) -> bool {
        ids_ascending(views(self.phonebook@))
    }

    /// A store without records.
    pub fn new() -> (r: JsonFile)
        ensures
            r@ == Seq::<PersonView>::empty(),
    {
        let r = JsonFile { phonebook: Vec::new() };
        assert(r@ =~= Seq::<PersonView>::empty());
        r
    }

    /// A store of the given records, which may come in any order, as from a
    /// file that was edited by hand.
    pub fn from_records(records: Vec<Person>) -> (r: JsonFile)
        ensures
            r@ == sorted_by_id(views(records@)),
            ids_ascending(r@),
            r@.to_multiset() == views(records@).to_multiset(),
            ids_ascending(views(records@)) ==> r@ == views(records@),
    {
        JsonFile { phonebook: sort_by_id(records) }
    }

    /// A copy of all records, in ascending order of their identifiers, that
    /// stays as it is while the store goes on changing.
    pub fn snapshot(&self) -> (r: Vec<Person>)
        ensures
            views(r@) == self@,
            ids_ascending(self@),
    {
        proof {
            use_type_invariant(self);
        }
        let mut r: Vec<Person> = Vec::new();
        let mut i: usize = 0;
        while i < self.phonebook.len()
            invariant
                i <= self.phonebook.len(),
                views(r@) == views(self.phonebook@).take(i as int),
            decreases self.phonebook.len() - i,
        {
            let ghost before = views(r@);
            let p = self.phonebook[i].clone();
            r.push(p);
            assert(views(r@) =~= before.push(p@));
            assert(views(r@) =~= views(self.phonebook@).take(i + 1));
            i = i + 1;
        }
        assert(views(r@) =~= self@);
        r
    }

    /// How many records the store holds.
    pub fn len(&self) -> (n: usize)
        ensures
            n == self@.len(),
    {
        self.phonebook.len()
    }

    /// Brings the records into ascending order of their identifiers. They
    /// always are, so nothing changes.
    pub fn sort(&mut self)
        ensures
            final(self)@ == old(self)@,
            ids_ascending(final(self)@),
    {
        proof {
            use_type_invariant(&*self);
        }
        let mut book: Vec<Person> = Vec::new();
        core::mem::swap(&mut self.phonebook, &mut book);
        self.phonebook = sort_by_id(book);
    }

    /// The record with the identifier `id`, if there is one.
    pub fn get_by_id(&self, id: PersonID) -> (r: Option<Person>)
        ensures
            ids_ascending(self@),
            r is Some <==> has_id(self@, id),
            match r {
                Some(p) => Some(p@) == record_with_id(self@, id),
                None => record_with_id(self@, id) is None,
            },
            r matches Some(p) ==> p@.id == id && self@.contains(p@),
    {
        proof {
            use_type_invariant(self);
            lemma_record_with_id(self@, id);
        }
        let k = lower_bound(&self.phonebook, id);
        if k < self.phonebook.len() && self.phonebook[k].id == id {
            Some(self.phonebook[k].clone())
        } else {
            None
        }
    }

    /// Whether a record has a name that collides with `new_name`, and the
    /// place of the first such record. A name without any word in it is
    /// refused.
    pub fn check_if_name_exists(&self, new_name: &str) -> (r: Result<
        (bool, Option<usize>),
        StoreError,
    >)
        ensures
            r is Err <==> key_of(new_name@) is None,
            match r {
                Err(e) => e is MissingName,
                Ok((found, at)) => {
                    &&& found == name_taken(self@, new_name@)
                    &&& found == at is Some
                    &&& at matches Some(i) ==> is_first_collision(self@, new_name@, i as int)
                },
            },
    {
        let key = match name_key(new_name) {
            Some(key) => key,
            None => {
                return Err(StoreError::MissingName);
            },
        };
        let mut i: usize = 0;
        while i < self.phonebook.len()
            invariant
                i <= self.phonebook.len(),
                key_of(new_name@) == Some(key@),
                forall|j: int| 0 <= j < i ==> !names_collide(#[trigger] self@[j].name, new_name@),
            decreases self.phonebook.len() - i,
        {
            assert(self@[i as int].name == self.phonebook@[i as int].name@);
            match name_key(self.phonebook[i].name.as_str()) {
                Some(theirs) => {
                    if theirs.collides(&key) {
                        return Ok((true, Some(i)));
                    }
                },
                None => {},
            }
            i = i + 1;
        }
        Ok((false, None))
    }

    /// The first record whose name collides with `name`, if there is one.
    pub fn get_by_name(&self, name: &str) -> (r: Option<Person>)
        ensures
            r is Some <==> name_taken(self@, name@),
            r matches Some(p) ==> exists|i: int|
                is_first_collision(self@, name@, i) && p@ == self@[i],
    {
        match self.check_if_name_exists(name) {
            Ok((_, Some(i))) => {
                assert(self@[i as int] == self.phonebook@[i as int]@);
                assert(is_first_collision(self@, name@, i as int));
                Some(self.phonebook[i].clone())
            },
            _ => None,
        }
    }

    /// Adds a record under a new identifier and returns that identifier.
    ///
    /// The candidate must come without an identifier and with a name of at
    /// least one word that collides with no stored name. Where it is refused
    /// the store stays as it was.
    pub fn add_to_phonebook(&mut self, p: Person) -> (r: Result<PersonID, StoreError>)
        ensures
            ids_ascending(final(self)@),
            r is Ok <==> p.id == 0 && key_of(p@.name) is Some && !name_taken(old(self)@, p@.name),
            match r {
                Ok(id) => {
                    &&& added(old(self)@, p@, id, final(self)@)
                    &&& max_id(old(self)@) < PersonID::MAX ==> {
                        &&& id == max_id(old(self)@) + 1
                        &&& final(self)@ == old(self)@.push(with_id(p@, id))
                    }
                },
                Err(e) => {
                    &&& final(self)@ == old(self)@
                    &&& e is InvalidId <==> p.id != 0
                    &&& e is MissingName <==> p.id == 0 && key_of(p@.name) is None
                    &&& e is DuplicateName <==> p.id == 0 && name_taken(old(self)@, p@.name)
                    &&& e is InvalidId || e is MissingName || e is DuplicateName
                },
            },
            ids_strictly_ascending(old(self)@) ==> ids_strictly_ascending(final(self)@),
            names_distinct(old(self)@) ==> names_distinct(final(self)@),
    {
        proof {
            use_type_invariant(&*self);
        }
        if p.id != 0 {
            return Err(StoreError::InvalidId);
        }
        match self.check_if_name_exists(p.name.as_str()) {
            Err(e) => {
                return Err(e);
            },
            Ok((true, _)) => {
                return Err(StoreError::DuplicateName);
            },
            Ok((false, _)) => {},
        }
        let ghost before = self@;
        let id = generate_id(&self.phonebook);
        let k = lower_bound(&self.phonebook, id);
        let mut book: Vec<Person> = Vec::new();
        core::mem::swap(&mut self.phonebook, &mut book);
        let record = Person { id, name: p.name, number: p.number };
        book.insert(k, record);
        proof {
            assert(views(book@) =~= before.insert(k as int, with_id(p@, id)));
            if max_id(before) < PersonID::MAX {
                lemma_max_id_bounds(before);
                lemma_rank_is(before, id, before.len());
                assert(before.insert(k as int, with_id(p@, id)) =~= before.push(with_id(p@, id)));
            }
            lemma_insert_at_rank(before, with_id(p@, id));
            lemma_insert_keeps_names_distinct(before, k as int, with_id(p@, id));
        }
        self.phonebook = book;
        Ok(id)
    }

    /// Changes the name and the number of the record with the identifier
    /// `id` to those of `p`, each only where `p` holds one. The identifier
    /// in `p` is not looked at, and the new name is not compared with the
    /// names of the other records.
    pub fn update(&mut self, id: PersonID, p: Person) -> (r: Result<(), StoreError>)
        ensures
            ids_ascending(final(self)@),
            r is Ok <==> has_id(old(self)@, id),
            match r {
                Ok(_) => final(self)@ == old(self)@.update(
                    rank(old(self)@, id) as int,
                    patched(old(self)@[rank(old(self)@, id) as int], p@),
                ),
                Err(e) => e is NotFound && final(self)@ == old(self)@,
            },
            ids_strictly_ascending(old(self)@) ==> ids_strictly_ascending(final(self)@),
    {
        proof {
            use_type_invariant(&*self);
            lemma_record_with_id(self@, id);
            lemma_rank_bounds(self@, id);
        }
        let ghost before = self@;
        let k = lower_bound(&self.phonebook, id);
        if k >= self.phonebook.len() || self.phonebook[k].id != id {
            return Err(StoreError::NotFound);
        }
        let mut book: Vec<Person> = Vec::new();
        core::mem::swap(&mut self.phonebook, &mut book);
        if !p.name.as_str().is_empty() {
            book[k].name = p.name;
        }
        if !p.number.as_str().is_empty() {
            book[k].number = p.number;
        }
        proof {
            let after = before.update(k as int, patched(before[k as int], p@));
            assert(views(book@) =~= after);
            assert forall|i: int, j: int| 0 <= i < j < after.len() implies after[i].id
                <= after[j].id by {
                assert(after[i].id == before[i].id && after[j].id == before[j].id);
            }
            if ids_strictly_ascending(before) {
                assert forall|i: int, j: int| 0 <= i < j < after.len() implies after[i].id
                    < after[j].id by {
                    assert(after[i].id == before[i].id && after[j].id == before[j].id);
                }
            }
        }
        self.phonebook = book;
        Ok(())
    }

    /// Removes the record with the identifier `id`. Where there is none the
    /// store stays as it was, and that is no error.
    pub fn delete(&mut self, id: PersonID) -> (r: Result<(), StoreError>)
        ensures
            r is Ok,
            ids_ascending(final(self)@),
            final(self)@ == old(self)@.filter(|p: PersonView| p.id != id),
            !has_id(final(self)@, id),
            !has_id(old(self)@, id) ==> final(self)@ == old(self)@,
            ids_strictly_ascending(old(self)@) ==> ids_strictly_ascending(final(self)@),
            names_distinct(old(self)@) ==> names_distinct(final(self)@),
    {
        proof {
            use_type_invariant(&*self);
        }
        let ghost before = self@;
        let ghost keep = |p: PersonView| p.id != id;
        let mut book: Vec<Person> = Vec::new();
        core::mem::swap(&mut self.phonebook, &mut book);
        let mut kept: Vec<Person> = Vec::new();
        assert(before.take(0).filter(keep) =~= views(kept@)) by {
            reveal(Seq::filter);
        }
        for p in it: book
            invariant
                views(it.seq()) == before,
                ids_ascending(before),
                keep == |p: PersonView| p.id != id,
                views(kept@) == before.take(it.index() as int).filter(keep),
        {
            let ghost n = it.index() as int;
            let ghost sofar = views(kept@);
            assert(p@ == before[n]);
            proof {
                before.lemma_take_succ_push(n);
                before.take(n).lemma_filter_push(before[n], keep);
            }
            if p.id != id {
                kept.push(p);
                assert(views(kept@) =~= sofar.push(before[n]));
            }
        }
        proof {
            assert(before.take(before.len() as int) =~= before);
            lemma_filter_drops_id(before, id);
            let at = lemma_filter_picks(before, keep);
            lemma_picked_ascending(views(kept@), before, at);
            lemma_picked_names_distinct(views(kept@), before, at);
        }
        self.phonebook = kept;
        Ok(())
    }

    /// The record with the identifier `id`, if there is one, after the
    /// records were brought into order.
    pub fn get_by_id_sorted(&mut self, id: PersonID) -> (r: Option<Person>)
        ensures
            final(self)@ == old(self)@,
            ids_ascending(final(self)@),
            r is Some <==> has_id(old(self)@, id),
            match r {
                Some(p) => Some(p@) == record_with_id(old(self)@, id),
                None => record_with_id(old(self)@, id) is None,
            },
            r matches Some(p) ==> p@.id == id && old(self)@.contains(p@),
    {
        self.sort();
        self.get_by_id(id)
    }
}

/// A record whose name collides with none of `s` can be put among them
/// without two names of the result colliding.
pub proof fn lemma_insert_keeps_names_distinct(s: Seq<PersonView>, k: int, p: PersonView)
    requires
        0 <= k <= s.len(),
        !name_taken(s, p.name),
    ensures
        names_distinct(s) ==> names_distinct(s.insert(k, p)),
{
    let t = s.insert(k, p);
    if names_distinct(s) {
        assert forall|i: int, j: int| 0 <= i < j < t.len() implies !names_collide(
            #[trigger] t[i].name,
            #[trigger] t[j].name,
        ) by {
            if i == k {
                assert(t[j] == s[j - 1]);
                assert(!names_collide(s[j - 1].name, p.name));
            } else if j == k {
                assert(t[i] == s[i]);
                assert(!names_collide(s[i].name, p.name));
            } else {
                let a = if i < k { i } else { i - 1 };
                let b = if j < k { j } else { j - 1 };
                assert(t[i] == s[a] && t[j] == s[b]);
                assert(!names_collide(s[a].name, s[b].name));
            }
        }
    }
}

/// Records picked from a sequence without colliding names have names that
/// do not collide.
proof fn lemma_picked_names_distinct(t: Seq<PersonView>, s: Seq<PersonView>, at: Seq<int>)
    requires
        picked_from(t, s, at),
    ensures
        names_distinct(s) ==> names_distinct(t),
{
    if names_distinct(s) {
        assert forall|i: int, j: int| 0 <= i < j < t.len() implies !names_collide(
            #[trigger] t[i].name,
            #[trigger] t[j].name,
        ) by {
            assert(at[i] < at[j]);
            assert(!names_collide(s[at[i]].name, s[at[j]].name));
        }
    }
}

/// What is left of `s` without the records that have the identifier `id`.
proof fn lemma_filter_drops_id(s: Seq<PersonView>, id: PersonID)
    ensures
        !has_id(s.filter(|p: PersonView| p.id != id), id),
        !has_id(s, id) ==> s.filter(|p: PersonView| p.id != id) == s,
    decreases s.len(),
{
    let keep = |p: PersonView| p.id != id;
    reveal(Seq::filter);
    if s.len() > 0 {
        let front = s.drop_last();
        lemma_filter_drops_id(front, id);
        let f = s.filter(keep);
        if has_id(f, id) {
            let i = choose|i: int| 0 <= i < f.len() && f[i].id == id;
            if i < front.filter(keep).len() {
                assert(front.filter(keep)[i].id == id);
            }
            assert(false);
        }
        if !has_id(s, id) {
            assert(s.last() == s[s.len() - 1]);
            assert(keep(s.last()));
            if has_id(front, id) {
                let i = choose|i: int| 0 <= i < front.len() && front[i].id == id;
                assert(s[i].id == id);
            }
            assert(f =~= s);
        }
    }
}

impl Default for JsonFile {
    fn default() -> (r: JsonFile)
        ensures
            r@ == Seq::<PersonView>::empty(),
    {
        JsonFile::new()
    }
}

} // verus!
