//! Identifier allocation. A new record gets the largest identifier in use
//! plus one. Only where that number does not exist, because the largest one
//! in use is the largest there is, identifiers are drawn at random and tested
//! against every record; after a fixed number of draws, or where the system
//! has no randomness to give, the lowest free identifier is taken.

use crate::order::{has_id, ids_ascending, lemma_record_with_id, lower_bound};
use crate::person::{views, Person, PersonID, PersonView};
use vstd::prelude::*;

verus! {

/// How often an identifier is drawn at random before the lowest free one is
/// taken.
pub const RANDOM_DRAWS: usize = 8;

/// The largest identifier among the records of `s`; zero where there is none.
pub open spec fn max_id(s: Seq<PersonView>) -> PersonID
    decreases s.len(),
{
    if s.len() == 0 {
        0
    } else if s.last().id > max_id(s.drop_last()) {
        s.last().id
    } else {
        max_id(s.drop_last())
    }
}

/// `id` may be given to a new record of `s`: it is not the reserved zero, and
/// no record has it.
pub open spec fn id_is_free(s: Seq<PersonView>, id: PersonID) -> bool {
    id != 0 && !has_id(s, id)
}

/// No record has an identifier above the largest one.
pub proof fn lemma_max_id_bounds(s: Seq<PersonView>)
    ensures
        forall|i: int| 0 <= i < s.len() ==> (#[trigger] s[i]).id <= max_id(s),
    decreases s.len(),
{
    if s.len() > 0 {
        let front = s.drop_last();
        lemma_max_id_bounds(front);
        assert forall|i: int| 0 <= i < s.len() implies (#[trigger] s[i]).id <= max_id(s) by {
            if i < s.len() - 1 {
                assert(s[i] == front[i]);
            }
        }
    }
}

/// In an ascending sequence the last record has the largest identifier.
pub proof fn lemma_max_id_is_last(s: Seq<PersonView>)
    requires
        ids_ascending(s),
        s.len() > 0,
    ensures
        max_id(s) == s.last().id,
    decreases s.len(),
{
    let front = s.drop_last();
    if front.len() > 0 {
        assert forall|i: int, j: int| 0 <= i < j < front.len() implies front[i].id
            <= front[j].id by {
            assert(front[i] == s[i] && front[j] == s[j]);
        }
        lemma_max_id_is_last(front);
        assert(front.last() == s[s.len() - 2]);
        assert(s[s.len() - 2].id <= s[s.len() - 1].id);
    } else {
        assert(max_id(front) == 0);
    }
}

/// `OsRng::try_fill_bytes` of the `rand` crate fills a buffer from the
/// system's source of randomness, or reports that the source failed. The
/// sixteen bytes are read as one identifier. Nothing is claimed of the
/// number that comes back, nor of when one comes back.
#[verifier::external_body]
fn random_id() -> Option<PersonID> {
    let mut bytes = [0u8; 16];
    match rand::RngCore::try_fill_bytes(&mut rand::rngs::OsRng, &mut bytes) {
        Ok(()) => Some(PersonID::from_le_bytes(bytes)),
        Err(_) => None,
    }
}

/// The largest identifier in use among ascending records.
pub fn largest_id(v: &Vec<Person>) -> (m: PersonID)
    requires
        ids_ascending(views(v@)),
    ensures
        m == max_id(views(v@)),
{
    if v.len() == 0 {
        0
    } else {
        proof {
            lemma_max_id_is_last(views(v@));
        }
        v[v.len() - 1].id
    }
}

/// Whether `candidate` may be given to a new record: it is tested against
/// every record, not only against the first.
pub fn is_free_id(v: &Vec<Person>, candidate: PersonID) -> (free: bool)
    requires
        ids_ascending(views(v@)),
    ensures
        free == id_is_free(views(v@), candidate),
{
    if candidate == 0 {
        return false;
    }
    let k = lower_bound(v, candidate);
    proof {
        lemma_record_with_id(views(v@), candidate);
    }
    !(k < v.len() && v[k].id == candidate)
}

/// The smallest identifier above zero that no record has.
pub fn lowest_free_id(v: &Vec<Person>) -> (id: PersonID)
    requires
        ids_ascending(views(v@)),
    ensures
        id_is_free(views(v@), id),
        forall|n: PersonID| 1 <= n < id ==> #[trigger] has_id(views(v@), n),
{
    let ghost s = views(v@);
    let mut next: PersonID = 1;
    let mut i: usize = 0;
    while i < v.len()
        invariant
            i <= v.len(),
            s == views(v@),
            ids_ascending(s),
            1 <= next <= i + 1,
            forall|j: int| 0 <= j < i ==> (#[trigger] s[j]).id < next,
            forall|n: PersonID| 1 <= n < next ==> #[trigger] has_id(s, n),
        decreases v.len() - i,
    {
        let here = v[i].id;
        assert(s[i as int].id == here);
        if here > next {
            assert forall|j: int| 0 <= j < s.len() implies (#[trigger] s[j]).id != next by {
                if j > i {
                    assert(s[i as int].id <= s[j].id);
                }
            }
            return next;
        }
        if here == next {
            assert(has_id(s, next));
            next = next + 1;
        }
        i = i + 1;
    }
    next
}

/// The identifier after the largest one in use, where there is such a
/// number.
pub fn next_id(v: &Vec<Person>) -> (id: Option<PersonID>)
    requires
        ids_ascending(views(v@)),
    ensures
        id == if max_id(views(v@)) < PersonID::MAX {
            Some((max_id(views(v@)) + 1) as PersonID)
        } else {
            None
        },
        id matches Some(n) ==> id_is_free(views(v@), n),
{
    let top = largest_id(v);
    proof {
        lemma_max_id_bounds(views(v@));
    }
    top.checked_add(1)
}

/// An identifier for a new record among ascending records: the largest one
/// in use plus one, where that exists. Whatever the random draws give, the
/// identifier that comes back is free.
pub fn generate_id(v: &Vec<Person>) -> (id: PersonID)
    requires
        ids_ascending(views(v@)),
    ensures
        id_is_free(views(v@), id),
        max_id(views(v@)) < PersonID::MAX ==> id == max_id(views(v@)) + 1,
{
    match next_id(v) {
        Some(id) => id,
        None => {
            let mut tries: usize = 0;
            while tries < RANDOM_DRAWS
                invariant
                    ids_ascending(views(v@)),
                    max_id(views(v@)) == PersonID::MAX,
                    tries <= RANDOM_DRAWS,
                decreases RANDOM_DRAWS - tries,
            {
                match random_id() {
                    Some(candidate) => {
                        if is_free_id(v, candidate) {
                            return candidate;
                        }
                    },
                    None => {},
                }
                tries = tries + 1;
            }
            lowest_free_id(v)
        },
    }
}

} // verus!
