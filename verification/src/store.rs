//! The item store: a table from identifiers to names, plus the id allocator.

use vstd::prelude::*;

verus! {

/// A stored record: an identifier assigned by the store and a caller-supplied
/// name.
#[derive(Debug)]
pub struct Item {
    pub id: usize,
    pub name: String,
}

/// The one failure an operation can report: the given id is not in the table.
#[derive(Debug, PartialEq, Eq, Structural, Clone, Copy)]
pub enum StoreError {
    NotFound,
}

/// No two positions of the sequence hold the same id.
pub open spec fn distinct_ids(s: Seq<Item>) -> bool {
    forall|i: int, j: int| 0 <= i < j < s.len() ==> s[i].id != s[j].id
}

/// Some position of the sequence holds the id.
pub open spec fn seq_has_id(s: Seq<Item>, id: nat) -> bool {
    exists|i: int| 0 <= i < s.len() && s[i].id as nat == id
}

/// A position of the sequence that holds the id (meaningful only when
/// `seq_has_id` holds; unique when the ids are distinct).
pub open spec fn seq_index_of(s: Seq<Item>, id: nat) -> int {
    choose|i: int| 0 <= i < s.len() && s[i].id as nat == id
}

/// The mapping a sequence of items represents: each id to its name.
pub open spec fn table_of(s: Seq<Item>) -> Map<nat, Seq<char>> {
    Map::new(|id: nat| seq_has_id(s, id), |id: nat| s[seq_index_of(s, id)].name@)
}

/// At a position `i` of a sequence with distinct ids, the table holds exactly
/// that item's name, and no other position holds its id.
proof fn lemma_at_index(s: Seq<Item>, i: int)
    requires
        distinct_ids(s),
        0 <= i < s.len(),
    ensures
        seq_has_id(s, s[i].id as nat),
        seq_index_of(s, s[i].id as nat) == i,
        table_of(s).dom().contains(s[i].id as nat),
        table_of(s)[s[i].id as nat] == s[i].name@,
{
    assert(seq_has_id(s, s[i].id as nat));
    let j = seq_index_of(s, s[i].id as nat);
    assert(0 <= j < s.len() && s[j].id as nat == s[i].id as nat);
    if i < j {
        assert(s[i].id != s[j].id);
    } else if j < i {
        assert(s[j].id != s[i].id);
    }
}

/// Appending an item with a fresh id keeps the ids distinct and inserts the
/// item's pair into the table.
proof fn lemma_table_push(s: Seq<Item>, x: Item)
    requires
        distinct_ids(s),
        !seq_has_id(s, x.id as nat),
    ensures
        distinct_ids(s.push(x)),
        table_of(s.push(x)) == table_of(s).insert(x.id as nat, x.name@),
{
    let s2 = s.push(x);
    assert forall|i: int, j: int| 0 <= i < j < s2.len() implies s2[i].id != s2[j].id by {
        if j < s.len() {
            assert(s[i].id != s[j].id);
        } else {
            assert(s2[j] == x);
            if s[i].id as nat == x.id as nat {
                assert(seq_has_id(s, x.id as nat));
            }
        }
    }
    let t2 = table_of(s2);
    let t1 = table_of(s).insert(x.id as nat, x.name@);
    assert forall|id: nat| #[trigger] t2.dom().contains(id) implies t1.dom().contains(id)
        && t1[id] == t2[id] by {
        let w = choose|i: int| 0 <= i < s2.len() && s2[i].id as nat == id;
        lemma_at_index(s2, w);
        if w < s.len() {
            assert(s2[w] == s[w]);
            lemma_at_index(s, w);
            assert(seq_has_id(s, id));
            assert(id != x.id as nat);
        } else {
            assert(s2[w] == x);
            assert(id == x.id as nat);
        }
    }
    assert forall|id: nat| #[trigger] t1.dom().contains(id) implies t2.dom().contains(id) by {
        if id == x.id as nat {
            assert(s2[s.len() as int] == x);
            assert(seq_has_id(s2, id));
        } else {
            let w = choose|i: int| 0 <= i < s.len() && s[i].id as nat == id;
            assert(s2[w] == s[w]);
            assert(seq_has_id(s2, id));
        }
    }
    assert(t1 =~= t2);
}

/// Overwriting the item at position `i` with one that carries the same id
/// keeps the ids distinct and re-inserts that id's pair into the table.
proof fn lemma_table_update(s: Seq<Item>, i: int, x: Item)
    requires
        distinct_ids(s),
        0 <= i < s.len(),
        x.id == s[i].id,
    ensures
        distinct_ids(s.update(i, x)),
        table_of(s.update(i, x)) == table_of(s).insert(x.id as nat, x.name@),
{
    let s2 = s.update(i, x);
    assert forall|a: int, b: int| 0 <= a < b < s2.len() implies s2[a].id != s2[b].id by {
        assert(s[a].id != s[b].id);
    }
    let t2 = table_of(s2);
    let t1 = table_of(s).insert(x.id as nat, x.name@);
    assert forall|id: nat| #[trigger] t2.dom().contains(id) implies t1.dom().contains(id)
        && t1[id] == t2[id] by {
        let w = choose|j: int| 0 <= j < s2.len() && s2[j].id as nat == id;
        lemma_at_index(s2, w);
        if w == i {
            assert(id == x.id as nat);
        } else {
            assert(s2[w] == s[w]);
            lemma_at_index(s, w);
            if id == x.id as nat {
                lemma_at_index(s, i);
                assert(w == i);
            }
        }
    }
    assert forall|id: nat| #[trigger] t1.dom().contains(id) implies t2.dom().contains(id) by {
        if id == x.id as nat {
            assert(s2[i] == x);
            assert(seq_has_id(s2, id));
        } else {
            let w = choose|j: int| 0 <= j < s.len() && s[j].id as nat == id;
            assert(s2[w] == s[w]);
            assert(seq_has_id(s2, id));
        }
    }
    assert(t1 =~= t2);
}

/// Removing the item at position `i` keeps the ids distinct and removes
/// exactly that item's id from the table.
proof fn lemma_table_remove(s: Seq<Item>, i: int)
    requires
        distinct_ids(s),
        0 <= i < s.len(),
    ensures
        distinct_ids(s.remove(i)),
        table_of(s.remove(i)) == table_of(s).remove(s[i].id as nat),
{
    let s2 = s.remove(i);
    s.remove_ensures(i);
    assert forall|a: int, b: int| 0 <= a < b < s2.len() implies s2[a].id != s2[b].id by {
        let a0: int = if a < i { a } else { a + 1 };
        let b0: int = if b < i { b } else { b + 1 };
        assert(s2[a] == s[a0]);
        assert(s2[b] == s[b0]);
        assert(s[a0].id != s[b0].id);
    }
    let t2 = table_of(s2);
    let t1 = table_of(s).remove(s[i].id as nat);
    assert forall|id: nat| #[trigger] t2.dom().contains(id) implies t1.dom().contains(id)
        && t1[id] == t2[id] by {
        let w = choose|j: int| 0 <= j < s2.len() && s2[j].id as nat == id;
        lemma_at_index(s2, w);
        let w0: int = if w < i { w } else { w + 1 };
        assert(s2[w] == s[w0]);
        lemma_at_index(s, w0);
        assert(id != s[i].id as nat);
    }
    assert forall|id: nat| #[trigger] t1.dom().contains(id) implies t2.dom().contains(id) by {
        let w = choose|j: int| 0 <= j < s.len() && s[j].id as nat == id;
        lemma_at_index(s, w);
        assert(w != i);
        let w2: int = if w < i { w } else { w - 1 };
        assert(s2[w2] == s[w]);
        assert(seq_has_id(s2, id));
    }
    assert(t1 =~= t2);
}

/// A sequence with distinct ids represents a table with exactly one entry per
/// item.
proof fn lemma_table_len(s: Seq<Item>)
    requires
        distinct_ids(s),
    ensures
        table_of(s).dom().finite(),
        table_of(s).dom().len() == s.len(),
    decreases s.len(),
{
    if s.len() == 0 {
        assert(table_of(s).dom() =~= Set::<nat>::empty());
    } else {
        let s0 = s.drop_last();
        let x = s.last();
        assert forall|a: int, b: int| 0 <= a < b < s0.len() implies s0[a].id != s0[b].id by {
            assert(s[a].id != s[b].id);
        }
        if seq_has_id(s0, x.id as nat) {
            let w = choose|j: int| 0 <= j < s0.len() && s0[j].id as nat == x.id as nat;
            assert(s[w].id != s[s.len() - 1].id);
        }
        assert(s =~= s0.push(x));
        lemma_table_push(s0, x);
        lemma_table_len(s0);
        assert(table_of(s).dom() =~= table_of(s0).dom().insert(x.id as nat));
    }
}

/// What it means for a sequence of items to be a faithful snapshot of a
/// table: the ids are distinct, every listed pair is in the table, every id
/// of the table is listed, and the lengths agree.
pub open spec fn snapshot_of(l: Seq<Item>, t: Map<nat, Seq<char>>) -> bool {
    &&& t.dom().finite()
    &&& l.len() == t.dom().len()
    &&& distinct_ids(l)
    &&& forall|i: int| 0 <= i < l.len() ==> t.contains_pair((#[trigger] l[i]).id as nat, l[i].name@)
    &&& forall|id: nat| #[trigger] t.dom().contains(id) ==> exists|i: int|
        0 <= i < l.len() && l[i].id as nat == id
}

/// The in-memory registry: the item table and the `next_id` allocator.
pub struct ItemStore {
    items: Vec<Item>,
    next_id: usize,
}

impl ItemStore {
    /// The table this store holds, as a mapping from id to name.
    pub closed spec fn table(self) -> Map<nat, Seq<char>> {
        table_of(self.items@)
    }

    /// The allocator's counter: the id the next create will return.
    pub closed spec fn counter(self) -> nat {
        self.next_id as nat
    }

    /// Well-formed: ids are distinct, every stored id lies in
    /// `1 ..= counter - 1`, and the counter starts no lower than 1.
    pub closed spec fn wf(self) -> bool {
        &&& distinct_ids(self.items@)
        &&& forall|i: int|
            0 <= i < self.items@.len() ==> 1 <= (#[trigger] self.items@[i]).id
                && self.items@[i].id < self.next_id
        &&& 1 <= self.next_id
    }

    /// An empty store whose allocator starts at 1.
    pub fn new() -> (s: ItemStore)
        ensures
            s.wf(),
            s.counter() == 1,
            s.table() == Map::<nat, Seq<char>>::empty(),
    {
        let s = ItemStore { items: Vec::new(), next_id: 1 };
        proof {
            assert(s.table() =~= Map::<nat, Seq<char>>::empty());
        }
        s
    }

    /// Creates an item: assigns the allocator's current id, stores the name
    /// under it, and advances the allocator by exactly 1. The returned id is
    /// fresh: it was not in the table before the call.
    pub fn create(&mut self, name: String) -> (r: Item)
        requires
            old(self).wf(),
            old(self).counter() < usize::MAX as nat,
        ensures
            final(self).wf(),
            r.id as nat == old(self).counter(),
            r.name@ == name@,
            !old(self).table().dom().contains(r.id as nat),
            final(self).table() == old(self).table().insert(r.id as nat, name@),
            final(self).counter() == old(self).counter() + 1,
    {
        let id = self.next_id;
        let r = Item { id, name: name.clone() };
        let it = Item { id, name };
        let ghost gx = it;
        let ghost s0 = self.items@;
        proof {
            if seq_has_id(s0, id as nat) {
                let w = choose|i: int| 0 <= i < s0.len() && s0[i].id as nat == id as nat;
                assert(s0[w].id < old(self).next_id);
            }
            lemma_table_push(s0, gx);
        }
        self.items.push(it);
        self.next_id = self.next_id + 1;
        r
    }

    /// The position of the item with the given id, if the table holds one.
    fn find_index(&self, id: usize) -> (r: Option<usize>)
        ensures
            match r {
                Some(i) => i < self.items@.len() && self.items@[i as int].id == id,
                None => !seq_has_id(self.items@, id as nat),
            },
    {
        let n = self.items.len();
        let mut i: usize = 0;
        while i < n
            invariant
                n == self.items@.len(),
                i <= n,
                forall|j: int| 0 <= j < i ==> self.items@[j].id != id,
            decreases n - i,
        {
            if self.items[i].id == id {
                return Some(i);
            }
            i = i + 1;
        }
        proof {
            if seq_has_id(self.items@, id as nat) {
                let w = choose|j: int|
                    0 <= j < self.items@.len() && self.items@[j].id as nat == id as nat;
                assert(self.items@[w].id != id);
            }
        }
        None
    }

    /// Replaces the name stored under `id`, leaving the id itself and every
    /// other entry untouched, and returns the updated item. When `id` is not
    /// in the table it returns `NotFound` and changes nothing.
    pub fn update(&mut self, id: usize, name: String) -> (r: Result<Item, StoreError>)
        requires
            old(self).wf(),
        ensures
            final(self).wf(),
            final(self).counter() == old(self).counter(),
            old(self).table().dom().contains(id as nat) ==> {
                &&& r is Ok
                &&& r->Ok_0.id == id
                &&& r->Ok_0.name@ == name@
                &&& final(self).table() == old(self).table().insert(id as nat, name@)
            },
            !old(self).table().dom().contains(id as nat) ==> {
                &&& r == Result::<Item, StoreError>::Err(StoreError::NotFound)
                &&& *final(self) == *old(self)
            },
    {
        let ghost s0 = self.items@;
        match self.find_index(id) {
            Some(i) => {
                let r = Item { id, name: name.clone() };
                let slot = &mut self.items[i];
                slot.name = name;
                proof {
                    lemma_at_index(s0, i as int);
                    lemma_table_update(s0, i as int, self.items@[i as int]);
                }
                Ok(r)
            },
            None => {
                proof {
                    if old(self).table().dom().contains(id as nat) {
                        assert(seq_has_id(s0, id as nat));
                    }
                }
                Err(StoreError::NotFound)
            },
        }
    }

    /// Removes the item stored under `id` and nothing else. When `id` is not
    /// in the table it returns `NotFound` and changes nothing.
    pub fn delete(&mut self, id: usize) -> (r: Result<(), StoreError>)
        requires
            old(self).wf(),
        ensures
            final(self).wf(),
            final(self).counter() == old(self).counter(),
            old(self).table().dom().contains(id as nat) ==> {
                &&& r is Ok
                &&& final(self).table() == old(self).table().remove(id as nat)
            },
            !old(self).table().dom().contains(id as nat) ==> {
                &&& r == Result::<(), StoreError>::Err(StoreError::NotFound)
                &&& *final(self) == *old(self)
            },
    {
        let ghost s0 = self.items@;
        match self.find_index(id) {
            Some(i) => {
                self.items.remove(i);
                proof {
                    lemma_at_index(s0, i as int);
                    lemma_table_remove(s0, i as int);
                }
                Ok(())
            },
            None => {
                proof {
                    if old(self).table().dom().contains(id as nat) {
                        assert(seq_has_id(s0, id as nat));
                    }
                }
                Err(StoreError::NotFound)
            },
        }
    }

    /// Returns a snapshot copy of the stored items, one per table entry, in
    /// unspecified order. The store is not changed.
    pub fn list(&self) -> (r: Vec<Item>)
        requires
            self.wf(),
        ensures
            snapshot_of(r@, self.table()),
    {
        let n = self.items.len();
        let mut r: Vec<Item> = Vec::new();
        let mut i: usize = 0;
        while i < n
            invariant
                n == self.items@.len(),
                i <= n,
                r@ == self.items@.subrange(0, i as int),
            decreases n - i,
        {
            let it = &self.items[i];
            r.push(Item { id: it.id, name: it.name.clone() });
            proof {
                assert(r@ =~= self.items@.subrange(0, i + 1));
            }
            i = i + 1;
        }
        proof {
            assert(r@ =~= self.items@);
            lemma_table_len(self.items@);
            assert forall|i: int| 0 <= i < self.items@.len() implies self.table().contains_pair(
                (#[trigger] self.items@[i]).id as nat,
                self.items@[i].name@,
            ) by {
                lemma_at_index(self.items@, i);
            }
        }
        r
    }

    /// The id the next create will return; reading it does not advance the
    /// allocator.
    pub fn peek_next_id(&self) -> (n: usize)
        ensures
            n as nat == self.counter(),
    {
        self.next_id
    }

    /// Every id the table holds was issued by the allocator: it lies strictly
    /// between 0 and the counter.
    pub proof fn lemma_id_bounds(self)
        requires
            self.wf(),
        ensures
            self.counter() >= 1,
            forall|id: nat| #[trigger] self.table().dom().contains(id) ==> 1 <= id
                < self.counter(),
    {
        assert forall|id: nat| #[trigger] self.table().dom().contains(id) implies 1 <= id
            < self.counter() by {
            let w = choose|j: int|
                0 <= j < self.items@.len() && self.items@[j].id as nat == id;
            assert(1 <= self.items@[w].id < self.next_id);
        }
    }
}

} // verus!
