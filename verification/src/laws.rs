//! Store-wide laws: properties of runs of operations, stated over the
//! store's mathematical model and proved once and for all.

use vstd::prelude::*;

use crate::store::{snapshot_of, Item, ItemStore};

verus! {

/// The ids a run of `n` creates returns when the allocator stands at
/// `next0`: `create` returns the counter and advances it by exactly 1, so the
/// k-th call returns `next0 + k`.
pub open spec fn issued_ids(next0: nat, n: nat) -> Seq<nat> {
    Seq::new(n, |k: int| (next0 + k) as nat)
}

/// Id uniqueness and monotonicity: the ids a run of creates returns are
/// strictly increasing — hence pairwise distinct — and, since the allocator
/// starts at 1 and only grows, all at least 1.
pub proof fn lemma_issued_ids_distinct(next0: nat, n: nat)
    requires
        next0 >= 1,
    ensures
        forall|a: int, b: int| 0 <= a < b < n ==> issued_ids(next0, n)[a] < issued_ids(
            next0,
            n,
        )[b],
        forall|a: int, b: int| 0 <= a < b < n ==> issued_ids(next0, n)[a] != issued_ids(
            next0,
            n,
        )[b],
        forall|a: int| 0 <= a < n ==> issued_ids(next0, n)[a] >= 1,
{
}

/// No reuse: a well-formed store's next id is fresh — strictly above every id
/// the table holds, so never equal to one. Deleting never lowers the counter,
/// so an id freed by a delete is never issued again.
pub proof fn lemma_next_id_fresh(s: ItemStore)
    requires
        s.wf(),
    ensures
        s.counter() >= 1,
        !s.table().dom().contains(s.counter()),
        forall|id: nat| #[trigger] s.table().dom().contains(id) ==> id < s.counter(),
{
    s.lemma_id_bounds();
}

/// Read-your-write: after a create (or update) stores `name` under `id`, any
/// snapshot taken before a further update or delete of `id` lists an item
/// with exactly that id and name.
pub proof fn lemma_read_your_write(t: Map<nat, Seq<char>>, id: nat, name: Seq<char>, l: Seq<Item>)
    requires
        snapshot_of(l, t.insert(id, name)),
    ensures
        exists|i: int| 0 <= i < l.len() && (#[trigger] l[i]).id as nat == id && l[i].name@
            == name,
{
    let t1 = t.insert(id, name);
    assert(t1.dom().contains(id));
    let w = choose|i: int| 0 <= i < l.len() && l[i].id as nat == id;
    assert(t1.contains_pair(l[w].id as nat, l[w].name@));
    assert(l[w].name@ == name);
}

/// Update idempotence: updating never adds or removes an id, and repeating
/// an update with the same name leaves the table exactly as after the first.
pub proof fn lemma_update_idempotent(t: Map<nat, Seq<char>>, id: nat, name: Seq<char>)
    requires
        t.dom().contains(id),
    ensures
        t.insert(id, name).dom() == t.dom(),
        t.insert(id, name).insert(id, name) == t.insert(id, name),
{
    assert(t.insert(id, name).dom() =~= t.dom());
    assert(t.insert(id, name).insert(id, name) =~= t.insert(id, name));
}

/// Not-found correctness: an id the allocator never issued — 0, or any value
/// at or above the counter — is not in a well-formed store's table, so update
/// and delete on it report `NotFound` and leave the store unchanged (their
/// contracts).
pub proof fn lemma_unissued_id_absent(s: ItemStore, id: nat)
    requires
        s.wf(),
        id == 0 || id >= s.counter(),
    ensures
        !s.table().dom().contains(id),
{
    s.lemma_id_bounds();
}

/// Delete removes exactly one: after a successful delete of `id`, a snapshot
/// lists no item with `id`, and lists exactly one item fewer than a snapshot
/// taken just before the delete.
pub proof fn lemma_delete_removes_exactly_one(
    t: Map<nat, Seq<char>>,
    id: nat,
    before: Seq<Item>,
    after: Seq<Item>,
)
    requires
        t.dom().contains(id),
        snapshot_of(before, t),
        snapshot_of(after, t.remove(id)),
    ensures
        forall|i: int| 0 <= i < after.len() ==> (#[trigger] after[i]).id as nat != id,
        after.len() + 1 == before.len(),
{
    t.lemma_remove_key_len(id);
    assert forall|i: int| 0 <= i < after.len() implies (#[trigger] after[i]).id as nat != id by {
        assert(t.remove(id).contains_pair(after[i].id as nat, after[i].name@));
    }
}

} // verus!
