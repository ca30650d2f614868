//! Contacts in ascending order of their identifiers: what the order is, how
//! a record is found in it, and how a list of records is brought into it.

use crate::person::{views, Person, PersonID, PersonView};
use vstd::prelude::*;

verus! {

/// No record has a smaller identifier than one that stands before it.
pub open spec fn ids_ascending(s: Seq<PersonView>) -> bool {
    forall|i: int, j: int| 0 <= i < j < s.len() ==> s[i].id <= s[j].id
}

/// Every record has a larger identifier than each one that stands before it.
pub open spec fn ids_strictly_ascending(s: Seq<PersonView>) -> bool {
    forall|i: int, j: int| 0 <= i < j < s.len() ==> s[i].id < s[j].id
}

/// Some record of `s` has the identifier `id`.
pub open spec fn has_id(s: Seq<PersonView>, id: PersonID) -> bool {
    exists|i: int| 0 <= i < s.len() && s[i].id == id
}

/// How many records stand at the front of `s` with an identifier below `id`.
/// In an ascending sequence these are all the records below `id`, so this is
/// the place at which a record with that identifier stands or would stand.
pub open spec fn rank(s: Seq<PersonView>, id: PersonID) -> nat
    decreases s.len(),
{
    if s.len() == 0 || s[0].id >= id {
        0
    } else {
        1 + rank(s.drop_first(), id)
    }
}

/// The first record of `s` with the identifier `id`, for ascending `s`.
pub open spec fn record_with_id(s: Seq<PersonView>, id: PersonID) -> Option<PersonView> {
    let k = rank(s, id) as int;
    if k < s.len() && s[k].id == id {
        Some(s[k])
    } else {
        None
    }
}

/// `t` holds some of the records of `s`, in the order that they have there:
/// the record at `i` in `t` is the one at `at[i]` in `s`.
pub open spec fn picked_from(t: Seq<PersonView>, s: Seq<PersonView>, at: Seq<int>) -> bool {
    &&& at.len() == t.len()
    &&& forall|i: int| 0 <= i < t.len() ==> 0 <= #[trigger] at[i] < s.len() && t[i] == s[at[i]]
    &&& forall|i: int, j: int| 0 <= i < j < t.len() ==> #[trigger] at[i] < #[trigger] at[j]
}

/// A place with only smaller identifiers before it, and none at it, is the
/// rank.
pub proof fn lemma_rank_is(s: Seq<PersonView>, id: PersonID, n: nat)
    requires
        n <= s.len(),
        forall|k: int| 0 <= k < n ==> (#[trigger] s[k]).id < id,
        n == s.len() || s[n as int].id >= id,
    ensures
        rank(s, id) == n,
    decreases n,
{
    if n > 0 {
        let rest = s.drop_first();
        assert forall|k: int| 0 <= k < n - 1 implies (#[trigger] rest[k]).id < id by {
            assert(rest[k] == s[k + 1]);
        }
        lemma_rank_is(rest, id, (n - 1) as nat);
    }
}

/// What the rank says of the records before it and of the one at it.
pub proof fn lemma_rank_bounds(s: Seq<PersonView>, id: PersonID)
    ensures
        rank(s, id) <= s.len(),
        forall|k: int| 0 <= k < rank(s, id) ==> (#[trigger] s[k]).id < id,
        rank(s, id) < s.len() ==> s[rank(s, id) as int].id >= id,
    decreases s.len(),
{
    if s.len() > 0 && s[0].id < id {
        let rest = s.drop_first();
        lemma_rank_bounds(rest, id);
        assert forall|k: int| 0 <= k < rank(s, id) implies (#[trigger] s[k]).id < id by {
            if k > 0 {
                assert(s[k] == rest[k - 1]);
            }
        }
        if rank(s, id) < s.len() {
            assert(s[rank(s, id) as int] == rest[rank(rest, id) as int]);
        }
    }
}

/// In an ascending sequence a record with the identifier `id` is found by
/// its rank exactly when there is one.
pub proof fn lemma_record_with_id(s: Seq<PersonView>, id: PersonID)
    requires
        ids_ascending(s),
    ensures
        record_with_id(s, id) is Some <==> has_id(s, id),
        record_with_id(s, id) matches Some(p) ==> p.id == id && s.contains(p),
{
    lemma_rank_bounds(s, id);
    let k = rank(s, id) as int;
    if has_id(s, id) {
        let i = choose|i: int| 0 <= i < s.len() && s[i].id == id;
        if i < k {
            assert(s[i].id < id);
        }
        assert(k < s.len());
        if k < i {
            assert(s[k].id <= s[i].id);
        }
    }
    if k < s.len() && s[k].id == id {
        assert(s.contains(s[k]));
    }
}

/// The rank of `id` among the records of `v`, by bisection.
pub fn lower_bound(v: &Vec<Person>, id: PersonID) -> (r: usize)
    requires
        ids_ascending(views(v@)),
    ensures
        r == rank(views(v@), id),
        r <= v.len(),
{
    let ghost s = views(v@);
    let mut lo: usize = 0;
    let mut hi: usize = v.len();
    while lo < hi
        invariant
            lo <= hi <= v.len(),
            s == views(v@),
            ids_ascending(s),
            forall|k: int| 0 <= k < lo ==> (#[trigger] s[k]).id < id,
            forall|k: int| hi <= k < s.len() ==> (#[trigger] s[k]).id >= id,
        decreases hi - lo,
    {
        let mid = lo + (hi - lo) / 2;
        assert(s[mid as int].id == v@[mid as int].id);
        if v[mid].id < id {
            assert forall|k: int| 0 <= k < mid + 1 implies (#[trigger] s[k]).id < id by {
                if k < mid {
                    assert(s[k].id <= s[mid as int].id);
                }
            }
            lo = mid + 1;
        } else {
            assert forall|k: int| mid <= k < s.len() implies (#[trigger] s[k]).id >= id by {
                if mid < k {
                    assert(s[mid as int].id <= s[k].id);
                }
            }
            hi = mid;
        }
    }
    proof {
        lemma_rank_is(s, id, lo as nat);
    }
    lo
}

/// Putting a record at its rank keeps an ascending sequence ascending.
pub proof fn lemma_insert_at_rank(s: Seq<PersonView>, p: PersonView)
    requires
        ids_ascending(s),
    ensures
        ids_ascending(s.insert(rank(s, p.id) as int, p)),
        ids_strictly_ascending(s) && !has_id(s, p.id) ==> ids_strictly_ascending(
            s.insert(rank(s, p.id) as int, p),
        ),
{
    lemma_rank_bounds(s, p.id);
    let k = rank(s, p.id) as int;
    let t = s.insert(k, p);
    assert forall|i: int, j: int| 0 <= i < j < t.len() implies t[i].id <= t[j].id by {
        lemma_inserted_index(s, k, p, i);
        lemma_inserted_index(s, k, p, j);
        if j > k && k < s.len() {
            assert(s[k].id <= s[j - 1].id);
        }
    }
    if ids_strictly_ascending(s) && !has_id(s, p.id) {
        assert forall|i: int, j: int| 0 <= i < j < t.len() implies t[i].id < t[j].id by {
            lemma_inserted_index(s, k, p, i);
            lemma_inserted_index(s, k, p, j);
            if j > k {
                assert(s[k].id <= s[j - 1].id);
                assert(s[j - 1].id != p.id);
            }
        }
    }
}

/// Where the records of `s` and the new one stand after an insertion.
proof fn lemma_inserted_index(s: Seq<PersonView>, k: int, p: PersonView, i: int)
    requires
        0 <= k <= s.len(),
        0 <= i <= s.len(),
    ensures
        s.insert(k, p)[i] == if i < k {
            s[i]
        } else if i == k {
            p
        } else {
            s[i - 1]
        },
{
}

/// What a filter keeps are records of the sequence, in their order.
pub proof fn lemma_filter_picks(s: Seq<PersonView>, keep: spec_fn(PersonView) -> bool) -> (at: Seq<
    int,
>)
    ensures
        picked_from(s.filter(keep), s, at),
    decreases s.len(),
{
    reveal(Seq::filter);
    if s.len() == 0 {
        Seq::empty()
    } else {
        let front = s.drop_last();
        let at = lemma_filter_picks(front, keep);
        assert forall|i: int| 0 <= i < at.len() implies front[#[trigger] at[i]] == s[at[i]] by {}
        if keep(s.last()) {
            at.push(s.len() - 1)
        } else {
            at
        }
    }
}

/// Records picked from an ascending sequence are ascending, and strictly so
/// where the sequence is.
pub proof fn lemma_picked_ascending(t: Seq<PersonView>, s: Seq<PersonView>, at: Seq<int>)
    requires
        picked_from(t, s, at),
    ensures
        ids_ascending(s) ==> ids_ascending(t),
        ids_strictly_ascending(s) ==> ids_strictly_ascending(t),
{
    if ids_ascending(s) {
        assert forall|i: int, j: int| 0 <= i < j < t.len() implies t[i].id <= t[j].id by {
            assert(at[i] < at[j]);
            assert(s[at[i]].id <= s[at[j]].id);
        }
    }
    if ids_strictly_ascending(s) {
        assert forall|i: int, j: int| 0 <= i < j < t.len() implies t[i].id < t[j].id by {
            assert(at[i] < at[j]);
            assert(s[at[i]].id < s[at[j]].id);
        }
    }
}

/// The records of `s` in ascending order of their identifiers, where records
/// with the same identifier keep the order they have in `s`: the records
/// after the first are brought into order, and the first is put before every
/// record that is not below it.
pub open spec fn sorted_by_id(s: Seq<PersonView>) -> Seq<PersonView>
    decreases s.len(),
{
    if s.len() == 0 {
        s
    } else {
        let rest = sorted_by_id(s.drop_first());
        rest.insert(rank(rest, s[0].id) as int, s[0])
    }
}

/// Bringing records into order gives an ascending sequence of the same
/// records, each as often as before.
pub proof fn lemma_sorted_by_id(s: Seq<PersonView>)
    ensures
        ids_ascending(sorted_by_id(s)),
        sorted_by_id(s).to_multiset() == s.to_multiset(),
        sorted_by_id(s).len() == s.len(),
    decreases s.len(),
{
    if s.len() == 0 {
    } else {
        let rest = sorted_by_id(s.drop_first());
        lemma_sorted_by_id(s.drop_first());
        lemma_rank_bounds(rest, s[0].id);
        lemma_insert_at_rank(rest, s[0]);
        vstd::seq_lib::to_multiset_insert(rest, rank(rest, s[0].id) as int, s[0]);
        vstd::seq_lib::to_multiset_insert(s.drop_first(), 0, s[0]);
        assert(s.drop_first().insert(0, s[0]) =~= s);
    }
}

/// Records that are in order stay as they are.
pub proof fn lemma_sorted_by_id_is_idempotent(s: Seq<PersonView>)
    requires
        ids_ascending(s),
    ensures
        sorted_by_id(s) == s,
    decreases s.len(),
{
    if s.len() > 0 {
        let tail = s.drop_first();
        assert forall|i: int, j: int| 0 <= i < j < tail.len() implies tail[i].id
            <= tail[j].id by {
            assert(tail[i] == s[i + 1] && tail[j] == s[j + 1]);
        }
        lemma_sorted_by_id_is_idempotent(tail);
        if tail.len() > 0 {
            assert(tail[0] == s[1]);
            assert(s[0].id <= s[1].id);
        }
        lemma_rank_is(tail, s[0].id, 0);
        assert(tail.insert(0, s[0]) =~= s);
    }
}

/// The records of `v` in ascending order of their identifiers. Records with
/// the same identifier keep the order they had, so a list that is already in
/// order comes back as it was.
pub fn sort_by_id(v: Vec<Person>) -> (r: Vec<Person>)
    ensures
        views(r@) == sorted_by_id(views(v@)),
        ids_ascending(views(r@)),
        views(r@).to_multiset() == views(v@).to_multiset(),
        ids_ascending(views(v@)) ==> views(r@) == views(v@),
{
    let ghost all = views(v@);
    let mut rest = v;
    let mut out: Vec<Person> = Vec::new();
    assert(all.skip(all.len() as int) =~= views(out@));
    while rest.len() > 0
        invariant
            rest.len() <= all.len(),
            views(rest@) == all.take(rest.len() as int),
            views(out@) == sorted_by_id(all.skip(rest.len() as int)),
        decreases rest.len(),
    {
        let ghost n = rest.len() as int;
        let ghost before = views(out@);
        let ghost kept = views(rest@);
        let p = rest.pop().unwrap();
        assert(p@ == kept[n - 1]);
        proof {
            lemma_sorted_by_id(all.skip(n));
        }
        let k = lower_bound(&out, p.id);
        out.insert(k, p);
        proof {
            assert(views(rest@) =~= all.take(n - 1));
            assert(views(out@) =~= before.insert(k as int, all[n - 1]));
            assert(all.skip(n - 1).drop_first() =~= all.skip(n));
        }
    }
    proof {
        assert(all.skip(0) =~= all);
        lemma_sorted_by_id(all);
        if ids_ascending(all) {
            lemma_sorted_by_id_is_idempotent(all);
        }
    }
    out
}

} // verus!
