//! What holds of every store, stated over the views of its records.

use crate::order::{
    ids_ascending, ids_strictly_ascending, lemma_insert_at_rank, lemma_rank_bounds,
    lemma_sorted_by_id, rank, sorted_by_id,
};
use crate::person::{PersonID, PersonView};
use crate::store::{added, lemma_insert_keeps_names_distinct, names_distinct, with_id};
use vstd::prelude::*;

verus! {

/// One call of the addition: it either was refused and left the records as
/// they were, or it succeeded.
pub open spec fn add_step(before: Seq<PersonView>, after: Seq<PersonView>) -> bool {
    after == before || exists|p: PersonView, id: PersonID| added(before, p, id, after)
}

/// The states of a store that began without records and saw nothing but
/// additions.
pub open spec fn built_by_adds(history: Seq<Seq<PersonView>>) -> bool {
    &&& history.len() > 0
    &&& history[0] == Seq::<PersonView>::empty()
    &&& forall|k: int| 0 < k < history.len() ==> add_step(history[k - 1], #[trigger] history[k])
}

/// However many records are added to an empty store, after each addition the
/// identifiers ascend strictly and no two names collide.
pub proof fn lemma_adds_keep_order_and_names(history: Seq<Seq<PersonView>>, k: int)
    requires
        built_by_adds(history),
        0 <= k < history.len(),
    ensures
        ids_strictly_ascending(history[k]),
        names_distinct(history[k]),
    decreases k,
{
    if k > 0 {
        lemma_adds_keep_order_and_names(history, k - 1);
        let before = history[k - 1];
        let after = history[k];
        assert(add_step(before, after));
        if after != before {
            let (p, id) = choose|p: PersonView, id: PersonID| added(before, p, id, after);
            lemma_rank_bounds(before, id);
            lemma_insert_at_rank(before, with_id(p, id));
            lemma_insert_keeps_names_distinct(before, rank(before, id) as int, with_id(p, id));
        }
    }
}

/// Records with distinct identifiers have only one ascending arrangement:
/// in whatever order they are handed over, brought into order they are the
/// same sequence.
pub proof fn lemma_ascending_arrangement_is_unique(a: Seq<PersonView>, b: Seq<PersonView>)
    requires
        ids_strictly_ascending(a),
        ids_ascending(b),
        a.to_multiset() == b.to_multiset(),
    ensures
        a == b,
    decreases a.len(),
{
    broadcast use vstd::seq_lib::to_multiset_contains;
    broadcast use vstd::seq_lib::to_multiset_remove;

    vstd::seq_lib::to_multiset_len(a);
    vstd::seq_lib::to_multiset_len(b);
    if a.len() == 0 {
        assert(a =~= b);
    } else {
        let n = a.len() - 1;
        let x = a[n];
        let y = b[n];
        assert(b.contains(y));
        assert(a.to_multiset().count(y) > 0);
        assert(a.contains(y));
        let i = choose|i: int| 0 <= i < a.len() && a[i] == y;
        assert(a.contains(x));
        assert(b.to_multiset().count(x) > 0);
        assert(b.contains(x));
        let j = choose|j: int| 0 <= j < b.len() && b[j] == x;
        if i < n {
            assert(a[i].id < a[n].id);
            if j < n {
                assert(b[j].id <= b[n].id);
            }
            assert(false);
        }
        assert(x == y);
        assert(a.drop_last() =~= a.remove(n));
        assert(b.drop_last() =~= b.remove(n));
        lemma_ascending_arrangement_is_unique(a.drop_last(), b.drop_last());
        assert(a =~= a.drop_last().push(x));
        assert(b =~= b.drop_last().push(y));
    }
}

/// A store whose identifiers are distinct comes back from its file as it
/// was, in whatever order the file holds the records: bringing them into
/// order restores the store.
pub proof fn lemma_reload_restores(store: Seq<PersonView>, file: Seq<PersonView>)
    requires
        ids_strictly_ascending(store),
        file.to_multiset() == store.to_multiset(),
    ensures
        sorted_by_id(file) == store,
{
    lemma_sorted_by_id(file);
    lemma_ascending_arrangement_is_unique(store, sorted_by_id(file));
}

} // verus!
