//! The in-memory vector store.
//!
//! Vectors of one fixed dimension are kept back to back in one flat buffer:
//! the vector in slot `i` occupies `data[i * dim .. (i + 1) * dim]`. Ids map to
//! slots. A delete only marks the slot as dead (a tombstone), so a slot never
//! moves and a deleted id stays taken.
use std::collections::HashMap;
use vstd::prelude::*;

verus! {

broadcast use vstd::std_specs::hash::group_hash_axioms;

/// The reasons an operation on the store is refused.
#[derive(Debug, PartialEq, Eq, Structural)]
pub enum StoreError {
    /// The vector's length is not the store's dimension.
    DimensionMismatch { expected: usize, got: usize },
    /// The id was inserted before (whether or not it has been deleted since).
    DuplicateId(u64),
    /// The id was never inserted.
    IdNotFound(u64),
}

/// What the store keeps for one id: its vector and whether it is still live.
pub struct Entry<T> {
    pub vector: Seq<T>,
    pub live: bool,
}

/// The abstract content of a store.
pub struct StoreView<T> {
    /// The dimension that every vector has.
    pub dim: usize,
    /// Every id ever inserted, deleted or not, with what the store keeps for it.
    pub entries: Map<u64, Entry<T>>,
    /// The ids in the order in which they were inserted.
    pub order: Seq<u64>,
}

/// The ids of `order` whose entries are live, in the order of `order`.
pub open spec fn live_ids_of<T>(order: Seq<u64>, entries: Map<u64, Entry<T>>) -> Seq<u64>
    decreases order.len(),
{
    if order.len() == 0 {
        Seq::empty()
    } else {
        let rest = live_ids_of(order.drop_last(), entries);
        if entries[order.last()].live {
            rest.push(order.last())
        } else {
            rest
        }
    }
}

impl<T> StoreView<T> {
    /// The store with dimension `dim` and nothing in it.
    pub open spec fn empty(dim: usize) -> Self {
        StoreView { dim, entries: Map::empty(), order: Seq::empty() }
    }

    /// Every id was inserted once, in `order`, and every vector has length `dim`.
    pub open spec fn valid(self) -> bool {
        &&& self.order.no_duplicates()
        &&& forall|id: u64| #[trigger] self.entries.contains_key(id) <==> self.order.contains(id)
        &&& forall|id: u64| #[trigger] self.entries.contains_key(id)
            ==> self.entries[id].vector.len() == self.dim
    }

    /// The vector stored under `id`, if `id` was inserted and not deleted.
    pub open spec fn lookup(self, id: u64) -> Option<Seq<T>> {
        if self.entries.contains_key(id) && self.entries[id].live {
            Some(self.entries[id].vector)
        } else {
            None
        }
    }

    /// The outcome of inserting `vector` under `id`: a length other than `dim`
    /// is refused first, then an id that was ever inserted; otherwise the id
    /// is added, live, at the end of the insertion order.
    pub open spec fn insert_result(self, id: u64, vector: Seq<T>) -> Result<Self, StoreError> {
        if vector.len() != self.dim {
            Err(StoreError::DimensionMismatch { expected: self.dim, got: vector.len() as usize })
        } else if self.entries.contains_key(id) {
            Err(StoreError::DuplicateId(id))
        } else {
            Ok(StoreView {
                dim: self.dim,
                entries: self.entries.insert(id, Entry { vector, live: true }),
                order: self.order.push(id),
            })
        }
    }

    /// The outcome of deleting `id`: refused if `id` was never inserted;
    /// otherwise its entry is marked dead (deleting a dead id changes nothing).
    pub open spec fn delete_result(self, id: u64) -> Result<Self, StoreError> {
        if !self.entries.contains_key(id) {
            Err(StoreError::IdNotFound(id))
        } else {
            Ok(StoreView {
                dim: self.dim,
                entries: self.entries.insert(id, Entry { vector: self.entries[id].vector, live: false }),
                order: self.order,
            })
        }
    }

    /// The live ids in insertion order.
    pub open spec fn live_ids(self) -> Seq<u64> {
        live_ids_of(self.order, self.entries)
    }

    /// How many ids are live.
    pub open spec fn live_count(self) -> nat {
        self.live_ids().len()
    }
}

/// A store of vectors of one dimension, keyed by `u64` ids.
pub struct VectorStore<T> {
    data: Vec<T>,
    dim: usize,
    idx_to_id: Vec<u64>,
    id_to_idx: HashMap<u64, usize>,
    deleted: Vec<bool>,
}

/// Slot `idx` of a buffer of `n` slots of width `dim` lies inside the buffer.
proof fn lemma_slot_in_buffer(idx: int, n: int, dim: int)
    requires
        0 <= idx < n,
        0 <= dim,
    ensures
        0 <= idx * dim,
        idx * dim + dim == (idx + 1) * dim,
        (idx + 1) * dim <= n * dim,
{
    assert(0 <= idx * dim) by (nonlinear_arith)
        requires
            0 <= idx,
            0 <= dim,
    ;
    assert(idx * dim + dim == (idx + 1) * dim) by (nonlinear_arith);
    assert((idx + 1) * dim <= n * dim) by (nonlinear_arith)
        requires
            idx + 1 <= n,
            0 <= dim,
    ;
}

impl<T> VectorStore<T> {
    /// The vector held in slot `idx`.
    spec fn slot(&self, idx: int) -> Seq<T> {
        self.data@.subrange(idx * self.dim, (idx + 1) * self.dim)
    }

    /// The buffer holds one vector per slot, the id map and the slot list are
    /// inverse to each other, and there is one tombstone flag per slot.
    pub closed spec fn wf(&self) -> bool {
        &&& self.data@.len() == self.idx_to_id@.len() * self.dim
        &&& self.deleted@.len() == self.idx_to_id@.len()
        &&& forall|id: u64| #[trigger] self.id_to_idx@.contains_key(id) ==> {
            &&& self.id_to_idx@[id] < self.idx_to_id@.len()
            &&& self.idx_to_id@[self.id_to_idx@[id] as int] == id
        }
        &&& forall|i: int| 0 <= i < self.idx_to_id@.len() ==> {
            &&& #[trigger] self.id_to_idx@.contains_key(self.idx_to_id@[i])
            &&& self.id_to_idx@[self.idx_to_id@[i]] == i
        }
    }
}

impl<T> View for VectorStore<T> {
    type V = StoreView<T>;

    closed spec fn view(&self) -> StoreView<T> {
        StoreView {
            dim: self.dim,
            entries: Map::new(
                |id: u64| self.id_to_idx@.contains_key(id),
                |id: u64|
                    Entry {
                        vector: self.slot(self.id_to_idx@[id] as int),
                        live: !self.deleted@[self.id_to_idx@[id] as int],
                    },
            ),
            order: self.idx_to_id@,
        }
    }
}

impl<T> VectorStore<T> {
    /// A well-formed store has a valid view.
    pub proof fn lemma_view_valid(&self)
        requires
            self.wf(),
        ensures
            self@.valid(),
    {
        let v = self@;
        assert forall|i: int, j: int| 0 <= i < v.order.len() && 0 <= j < v.order.len() && i != j
            implies v.order[i] != v.order[j] by {
            assert(self.id_to_idx@.contains_key(self.idx_to_id@[i]));
            assert(self.id_to_idx@.contains_key(self.idx_to_id@[j]));
        }
        assert forall|id: u64| #[trigger] v.entries.contains_key(id) <==> v.order.contains(id) by {
            if v.entries.contains_key(id) {
                assert(v.order[self.id_to_idx@[id] as int] == id);
            }
            if v.order.contains(id) {
                let k = choose|k: int| 0 <= k < v.order.len() && v.order[k] == id;
                assert(self.id_to_idx@.contains_key(self.idx_to_id@[k]));
            }
        }
        assert forall|id: u64| #[trigger] v.entries.contains_key(id) implies v.entries[id].vector.len()
            == v.dim by {
            let j = self.id_to_idx@[id] as int;
            lemma_slot_in_buffer(j, self.idx_to_id@.len() as int, self.dim as int);
        }
    }

    /// The id in slot `i` is known to the view, live exactly when its
    /// tombstone is not set.
    proof fn lemma_slot_liveness(&self, i: int)
        requires
            self.wf(),
            0 <= i < self.idx_to_id@.len(),
        ensures
            self@.entries.contains_key(self@.order[i]),
            self@.entries[self@.order[i]].live == !self.deleted@[i],
    {
        assert(self.id_to_idx@.contains_key(self.idx_to_id@[i]));
    }
}

impl<T: Copy> VectorStore<T> {
    /// An empty store for vectors of dimension `dim`.
    pub fn new(dim: usize) -> (store: Self)
        ensures
            store.wf(),
            store@ == StoreView::<T>::empty(dim),
    {
        let store = Self {
            data: Vec::new(),
            dim,
            id_to_idx: HashMap::new(),
            idx_to_id: Vec::new(),
            deleted: Vec::new(),
        };
        assert(store.idx_to_id@.len() * dim == 0) by (nonlinear_arith)
            requires
                store.idx_to_id@.len() == 0,
        ;
        assert(store@.entries =~= Map::<u64, Entry<T>>::empty());
        store
    }

    /// Stores `vector` under `id`. Refuses a vector whose length is not the
    /// dimension, then an id that was ever inserted, deleted ones included.
    pub fn insert(&mut self, id: u64, vector: &[T]) -> (result: Result<(), StoreError>)
        requires
            old(self).wf(),
        ensures
            final(self).wf(),
            match old(self)@.insert_result(id, vector@) {
                Ok(v) => result is Ok && final(self)@ == v,
                Err(e) => result == Err::<(), StoreError>(e) && final(self)@ == old(self)@,
            },
    {
        if vector.len() != self.dim {
            return Err(StoreError::DimensionMismatch { expected: self.dim, got: vector.len() });
        }
        if self.id_to_idx.contains_key(&id) {
            return Err(StoreError::DuplicateId(id));
        }
        let idx = self.idx_to_id.len();
        let ghost n = idx as int;
        let ghost old_data = self.data@;
        let mut i: usize = 0;
        while i < vector.len()
            invariant
                i <= vector@.len(),
                self.data@ == old_data + vector@.subrange(0, i as int),
                self.dim == old(self).dim,
                self.idx_to_id@ == old(self).idx_to_id@,
                self.id_to_idx@ == old(self).id_to_idx@,
                self.deleted@ == old(self).deleted@,
            decreases vector@.len() - i,
        {
            self.data.push(vector[i]);
            i += 1;
            assert(self.data@ =~= old_data + vector@.subrange(0, i as int));
        }
        assert(vector@.subrange(0, vector@.len() as int) =~= vector@);
        self.id_to_idx.insert(id, idx);
        self.idx_to_id.push(id);
        self.deleted.push(false);
        proof {
            let dim = self.dim as int;
            assert(n * dim + dim == (n + 1) * dim) by (nonlinear_arith);
            assert(self.data@.len() == self.idx_to_id@.len() * self.dim);
            assert forall|k: u64| #[trigger] self.id_to_idx@.contains_key(k) implies {
                &&& self.id_to_idx@[k] < self.idx_to_id@.len()
                &&& self.idx_to_id@[self.id_to_idx@[k] as int] == k
            } by {
                if k != id {
                    assert(old(self).id_to_idx@.contains_key(k));
                }
            }
            assert forall|j: int| 0 <= j < self.idx_to_id@.len() implies {
                &&& #[trigger] self.id_to_idx@.contains_key(self.idx_to_id@[j])
                &&& self.id_to_idx@[self.idx_to_id@[j]] == j
            } by {
                if j < n {
                    assert(old(self).id_to_idx@.contains_key(old(self).idx_to_id@[j]));
                }
            }
            let want = old(self)@.entries.insert(id, Entry { vector: vector@, live: true });
            assert forall|k: u64| #[trigger] self@.entries.contains_key(k) implies
                self@.entries[k] == want[k] by {
                if k == id {
                    assert(self.slot(n) =~= vector@);
                } else {
                    let j = self.id_to_idx@[k] as int;
                    assert(old(self).id_to_idx@.contains_key(k));
                    lemma_slot_in_buffer(j, n, dim);
                    assert(self.slot(j) =~= old(self).slot(j));
                }
            }
            assert(self@.entries =~= want);
        }
        Ok(())
    }

    /// Marks the vector under `id` as deleted. Refuses an id that was never
    /// inserted; deleting an already deleted id succeeds and changes nothing.
    pub fn delete(&mut self, id: u64) -> (result: Result<(), StoreError>)
        requires
            old(self).wf(),
        ensures
            final(self).wf(),
            match old(self)@.delete_result(id) {
                Ok(v) => result is Ok && final(self)@ == v,
                Err(e) => result == Err::<(), StoreError>(e) && final(self)@ == old(self)@,
            },
    {
        let idx = match self.id_to_idx.get(&id) {
            Some(i) => *i,
            None => return Err(StoreError::IdNotFound(id)),
        };
        self.deleted.set(idx, true);
        proof {
            let want = old(self)@.entries.insert(
                id,
                Entry { vector: old(self)@.entries[id].vector, live: false },
            );
            assert forall|k: u64| #[trigger] self@.entries.contains_key(k) implies
                self@.entries[k] == want[k] by {
                if k != id {
                    let j = self.id_to_idx@[k] as int;
                    assert(self.idx_to_id@[j] == k);
                }
            }
            assert(self@.entries =~= want);
        }
        Ok(())
    }

    /// The number of live (not deleted) vectors.
    pub fn len(&self) -> (r: usize)
        requires
            self.wf(),
        ensures
            r == self@.live_count(),
    {
        let n = self.deleted.len();
        let mut count: usize = 0;
        let mut i: usize = 0;
        while i < n
            invariant
                self.wf(),
                n == self.idx_to_id@.len(),
                i <= n,
                count <= i,
                count == live_ids_of(self@.order.take(i as int), self@.entries).len(),
            decreases n - i,
        {
            proof {
                self.lemma_slot_liveness(i as int);
                assert(self@.order.take(i + 1).drop_last() =~= self@.order.take(i as int));
            }
            if !self.deleted[i] {
                count += 1;
            }
            i += 1;
        }
        assert(self@.order.take(n as int) =~= self@.order);
        count
    }

    /// The live ids, in the order in which they were inserted.
    pub fn iter_ids(&self) -> (r: Vec<u64>)
        requires
            self.wf(),
        ensures
            r@ == self@.live_ids(),
    {
        let n = self.deleted.len();
        let mut out: Vec<u64> = Vec::new();
        let mut i: usize = 0;
        while i < n
            invariant
                self.wf(),
                n == self.idx_to_id@.len(),
                i <= n,
                out@ == live_ids_of(self@.order.take(i as int), self@.entries),
            decreases n - i,
        {
            proof {
                self.lemma_slot_liveness(i as int);
                assert(self@.order.take(i + 1).drop_last() =~= self@.order.take(i as int));
            }
            if !self.deleted[i] {
                out.push(self.idx_to_id[i]);
            }
            i += 1;
        }
        assert(self@.order.take(n as int) =~= self@.order);
        out
    }

    /// The vector stored under `id`, or `None` if `id` was never inserted or
    /// has been deleted.
    pub fn get(&self, id: u64) -> (r: Option<&[T]>)
        requires
            self.wf(),
        ensures
            match self@.lookup(id) {
                Some(v) => r is Some && r.unwrap()@ == v,
                None => r is None,
            },
    {
        let idx = match self.id_to_idx.get(&id) {
            Some(i) => *i,
            None => return None,
        };
        if self.deleted[idx] {
            return None;
        }
        proof {
            lemma_slot_in_buffer(idx as int, self.idx_to_id@.len() as int, self.dim as int);
        }
        let total = self.data.len();
        assert(total == self.idx_to_id@.len() * self.dim);
        let start = idx * self.dim;
        let end = start + self.dim;
        Some(vstd::slice::slice_subrange(self.data.as_slice(), start, end))
    }
}

/// Liveness over `order` alone decides which ids are listed.
proof fn lemma_live_ids_agree<T>(order: Seq<u64>, e1: Map<u64, Entry<T>>, e2: Map<u64, Entry<T>>)
    requires
        forall|i: int| 0 <= i < order.len() ==> e1[#[trigger] order[i]].live == e2[order[i]].live,
    ensures
        live_ids_of(order, e1) == live_ids_of(order, e2),
    decreases order.len(),
{
    if order.len() > 0 {
        let rest = order.drop_last();
        assert forall|i: int| 0 <= i < rest.len() implies e1[#[trigger] rest[i]].live
            == e2[rest[i]].live by {
            assert(rest[i] == order[i]);
        }
        lemma_live_ids_agree(rest, e1, e2);
        assert(e1[order.last()].live == e2[order[order.len() - 1]].live);
    }
}

/// Splitting off the last id of a non-empty sequence: every id is in the rest
/// or is the last one, and without repeats the rest has none and lacks the
/// last id.
proof fn lemma_drop_last_parts(order: Seq<u64>)
    requires
        order.len() > 0,
    ensures
        forall|x: u64| #[trigger] order.contains(x) <==> (order.drop_last().contains(x) || x == order.last()),
        order.no_duplicates() ==> order.drop_last().no_duplicates(),
        order.no_duplicates() ==> !order.drop_last().contains(order.last()),
{
    let rest = order.drop_last();
    let last = order.last();
    assert forall|x: u64| #[trigger] order.contains(x) <==> (rest.contains(x) || x == last) by {
        if order.contains(x) && x != last {
            let k = choose|k: int| 0 <= k < order.len() && order[k] == x;
            assert(rest[k] == x);
        }
        if rest.contains(x) {
            let k = choose|k: int| 0 <= k < rest.len() && rest[k] == x;
            assert(order[k] == x);
        }
        assert(order[order.len() - 1] == last);
    }
    if order.no_duplicates() {
        assert forall|i: int, j: int| 0 <= i < rest.len() && 0 <= j < rest.len() && i != j
            implies rest[i] != rest[j] by {
            assert(rest[i] == order[i] && rest[j] == order[j]);
        }
        if rest.contains(last) {
            let k = choose|k: int| 0 <= k < rest.len() && rest[k] == last;
            assert(order[k] == order[order.len() - 1]);
        }
    }
}

/// The listed ids are the ids of `order` whose entries are live; without
/// repeats in `order` there are none in the list either.
proof fn lemma_live_ids_members<T>(order: Seq<u64>, entries: Map<u64, Entry<T>>)
    ensures
        forall|id: u64| #[trigger] live_ids_of(order, entries).contains(id)
            <==> (order.contains(id) && entries[id].live),
        order.no_duplicates() ==> live_ids_of(order, entries).no_duplicates(),
        live_ids_of(order, entries).len() <= order.len(),
    decreases order.len(),
{
    if order.len() > 0 {
        let rest = order.drop_last();
        let last = order.last();
        lemma_live_ids_members(rest, entries);
        let sub = live_ids_of(rest, entries);
        lemma_drop_last_parts(order);
        assert forall|id: u64| #[trigger] live_ids_of(order, entries).contains(id)
            <==> (order.contains(id) && entries[id].live) by {
            if entries[last].live {
                assert(sub.push(last)[sub.len() as int] == last);
                if sub.push(last).contains(id) && id != last {
                    let k = choose|k: int| 0 <= k < sub.len() + 1 && sub.push(last)[k] == id;
                    assert(sub[k] == id);
                }
                if sub.contains(id) {
                    let k = choose|k: int| 0 <= k < sub.len() && sub[k] == id;
                    assert(sub.push(last)[k] == id);
                }
            }
        }
        if order.no_duplicates() {
            if entries[last].live {
                let full = sub.push(last);
                assert forall|i: int, j: int| 0 <= i < full.len() && 0 <= j < full.len() && i != j
                    implies full[i] != full[j] by {
                    if i < sub.len() && j < sub.len() {
                        assert(full[i] == sub[i] && full[j] == sub[j]);
                    } else if i < sub.len() {
                        assert(sub.contains(full[i]));
                    } else {
                        assert(sub.contains(full[j]));
                    }
                }
            }
        }
    }
}

/// Marking the entry of `id` dead removes it from the list once if it was
/// live, and changes nothing if it was dead already.
proof fn lemma_live_ids_mark_dead<T>(order: Seq<u64>, entries: Map<u64, Entry<T>>, id: u64, dead: Entry<T>)
    requires
        order.no_duplicates(),
        !dead.live,
    ensures
        live_ids_of(order, entries.insert(id, dead)).len() + (if order.contains(id) && entries[id].live {
            1int
        } else {
            0int
        }) == live_ids_of(order, entries).len(),
    decreases order.len(),
{
    if order.len() > 0 {
        let rest = order.drop_last();
        lemma_drop_last_parts(order);
        lemma_live_ids_mark_dead(rest, entries, id, dead);
        assert(order[order.len() - 1] == order.last());
    }
}

/// Inserting into a valid store keeps it valid. Afterwards the new id reads
/// back the inserted vector, every other id reads back what it did before,
/// one more id is live, and the new id is listed last among the live ids.
pub proof fn law_insert_then_get<T>(s: StoreView<T>, id: u64, vector: Seq<T>)
    requires
        s.valid(),
        s.insert_result(id, vector) is Ok,
    ensures
        ({
            let t = s.insert_result(id, vector)->Ok_0;
            &&& t.valid()
            &&& t.lookup(id) == Some(vector)
            &&& forall|other: u64| other != id ==> #[trigger] t.lookup(other) == s.lookup(other)
            &&& t.live_ids() == s.live_ids().push(id)
            &&& t.live_count() == s.live_count() + 1
        }),
{
    let t = s.insert_result(id, vector)->Ok_0;
    assert(!s.order.contains(id));
    assert forall|i: int| 0 <= i < s.order.len() implies t.entries[#[trigger] s.order[i]].live
        == s.entries[s.order[i]].live by {
        assert(s.order.contains(s.order[i]));
    }
    lemma_live_ids_agree(s.order, t.entries, s.entries);
    assert(t.order.drop_last() =~= s.order);
    assert forall|x: u64| #[trigger] t.entries.contains_key(x) <==> t.order.contains(x) by {
        if t.order.contains(x) && x != id {
            let k = choose|k: int| 0 <= k < t.order.len() && t.order[k] == x;
            assert(s.order[k] == x);
        }
        if s.order.contains(x) {
            let k = choose|k: int| 0 <= k < s.order.len() && s.order[k] == x;
            assert(t.order[k] == x);
        }
        assert(t.order[s.order.len() as int] == id);
    }
    assert forall|i: int, j: int| 0 <= i < t.order.len() && 0 <= j < t.order.len() && i != j
        implies t.order[i] != t.order[j] by {
        if i < s.order.len() && j < s.order.len() {
        } else if i < s.order.len() {
            assert(s.order.contains(t.order[i]));
        } else {
            assert(s.order.contains(t.order[j]));
        }
    }
}

/// Deleting from a valid store keeps it valid. Afterwards the id reads back
/// nothing, every other id reads back what it did before, the id is no longer
/// listed, and the live count drops by one if the id was live and stays put
/// if it was already deleted.
pub proof fn law_delete_then_get<T>(s: StoreView<T>, id: u64)
    requires
        s.valid(),
        s.delete_result(id) is Ok,
    ensures
        ({
            let t = s.delete_result(id)->Ok_0;
            &&& t.valid()
            &&& t.lookup(id) is None
            &&& forall|other: u64| other != id ==> #[trigger] t.lookup(other) == s.lookup(other)
            &&& forall|x: u64| #[trigger] t.live_ids().contains(x)
                <==> (s.live_ids().contains(x) && x != id)
            &&& t.live_count() == s.live_count() - (if s.lookup(id) is Some { 1int } else { 0int })
        }),
{
    let t = s.delete_result(id)->Ok_0;
    let dead = Entry { vector: s.entries[id].vector, live: false };
    lemma_live_ids_members(s.order, s.entries);
    lemma_live_ids_members(t.order, t.entries);
    lemma_live_ids_mark_dead(s.order, s.entries, id, dead);
    assert(s.order.contains(id));
}

/// An id stays taken after it is deleted: inserting it again is refused as a
/// duplicate, whatever the vector (of the right length).
pub proof fn law_deleted_id_stays_taken<T>(s: StoreView<T>, id: u64, vector: Seq<T>)
    requires
        s.valid(),
        s.delete_result(id) is Ok,
        vector.len() == s.dim,
    ensures
        s.delete_result(id)->Ok_0.insert_result(id, vector) == Err::<StoreView<T>, StoreError>(
            StoreError::DuplicateId(id),
        ),
{
}

/// In a valid store the listed ids are exactly the ids that read back a
/// vector, each listed once, and every vector read back has the store's
/// dimension.
pub proof fn law_live_ids_are_readable<T>(s: StoreView<T>)
    requires
        s.valid(),
    ensures
        s.live_ids().no_duplicates(),
        forall|id: u64| #[trigger] s.live_ids().contains(id) <==> s.lookup(id) is Some,
        forall|id: u64| #[trigger] s.lookup(id) is Some ==> s.lookup(id)->Some_0.len() == s.dim,
        s.live_count() <= s.order.len(),
{
    lemma_live_ids_members(s.order, s.entries);
}

/// A new store is valid, holds nothing, and reads back nothing.
pub proof fn law_empty_store<T>(dim: usize)
    ensures
        StoreView::<T>::empty(dim).valid(),
        StoreView::<T>::empty(dim).live_count() == 0,
        forall|id: u64| #[trigger] StoreView::<T>::empty(dim).lookup(id) is None,
{
}

/// Listing the live ids is filtering the insertion order by liveness.
proof fn lemma_live_ids_is_filter<T>(order: Seq<u64>, entries: Map<u64, Entry<T>>)
    ensures
        live_ids_of(order, entries) == order.filter(|x: u64| entries[x].live),
    decreases order.len(),
{
    reveal_with_fuel(Seq::filter, 1);
    if order.len() > 0 {
        lemma_live_ids_is_filter(order.drop_last(), entries);
    }
}

/// Filtering twice is filtering once by both conditions.
proof fn lemma_filter_twice(s: Seq<u64>, p: spec_fn(u64) -> bool, q: spec_fn(u64) -> bool)
    ensures
        s.filter(p).filter(q) == s.filter(|x: u64| p(x) && q(x)),
    decreases s.len(),
{
    reveal_with_fuel(Seq::filter, 1);
    if s.len() > 0 {
        let rest = s.drop_last();
        let last = s.last();
        lemma_filter_twice(rest, p, q);
        let sub = rest.filter(p);
        if p(last) {
            assert(sub.push(last).drop_last() =~= sub);
            assert(sub.push(last).last() == last);
        }
    }
}

/// The live ids, as `iter_ids` and `len` report them, are exactly the ids of
/// the insertion order whose entries are live, kept in insertion order.
pub proof fn law_live_ids_in_insertion_order<T>(s: StoreView<T>)
    ensures
        s.live_ids() == s.order.filter(|x: u64| s.entries[x].live),
        s.live_count() == s.order.filter(|x: u64| s.entries[x].live).len(),
{
    lemma_live_ids_is_filter(s.order, s.entries);
}

/// What an insert does, in terms of the store's entries and order: a vector of
/// the wrong length is refused as a dimension mismatch; a right-length vector
/// under an id that was ever inserted is refused as a duplicate; any other
/// insert succeeds, adding the id, live, with its vector, at the end of the
/// insertion order, and leaving every other entry as it was.
pub proof fn law_insert_outcome<T>(s: StoreView<T>, id: u64, vector: Seq<T>)
    requires
        s.valid(),
    ensures
        vector.len() != s.dim ==> s.insert_result(id, vector) == Err::<StoreView<T>, StoreError>(
            StoreError::DimensionMismatch { expected: s.dim, got: vector.len() as usize },
        ),
        vector.len() == s.dim && s.entries.contains_key(id) ==> s.insert_result(id, vector)
            == Err::<StoreView<T>, StoreError>(StoreError::DuplicateId(id)),
        vector.len() == s.dim && !s.entries.contains_key(id) ==> {
            &&& s.insert_result(id, vector) is Ok
            &&& s.insert_result(id, vector)->Ok_0.dim == s.dim
            &&& s.insert_result(id, vector)->Ok_0.order == s.order.push(id)
            &&& s.insert_result(id, vector)->Ok_0.entries.dom() == s.entries.dom().insert(id)
            &&& s.insert_result(id, vector)->Ok_0.entries[id].vector == vector
            &&& s.insert_result(id, vector)->Ok_0.entries[id].live
            &&& forall|other: u64| other != id && #[trigger] s.entries.contains_key(other)
                ==> s.insert_result(id, vector)->Ok_0.entries[other] == s.entries[other]
            &&& s.insert_result(id, vector)->Ok_0.live_ids() == s.live_ids().push(id)
        },
{
    if vector.len() == s.dim && !s.entries.contains_key(id) {
        law_insert_then_get(s, id, vector);
    }
}

/// What a delete does, in terms of the store's entries and order: an id that
/// was never inserted is refused; any other delete succeeds, marks that id's
/// entry dead with its vector kept, leaves the order and every other entry as
/// they were, and removes just that id from the live ids, the rest keeping
/// their order.
pub proof fn law_delete_outcome<T>(s: StoreView<T>, id: u64)
    requires
        s.valid(),
    ensures
        !s.entries.contains_key(id) ==> s.delete_result(id) == Err::<StoreView<T>, StoreError>(
            StoreError::IdNotFound(id),
        ),
        s.entries.contains_key(id) ==> {
            &&& s.delete_result(id) is Ok
            &&& s.delete_result(id)->Ok_0.dim == s.dim
            &&& s.delete_result(id)->Ok_0.order == s.order
            &&& s.delete_result(id)->Ok_0.entries.dom() == s.entries.dom()
            &&& s.delete_result(id)->Ok_0.entries[id].vector == s.entries[id].vector
            &&& !s.delete_result(id)->Ok_0.entries[id].live
            &&& forall|other: u64| other != id && #[trigger] s.entries.contains_key(other)
                ==> s.delete_result(id)->Ok_0.entries[other] == s.entries[other]
            &&& s.delete_result(id)->Ok_0.live_ids() == s.live_ids().filter(|x: u64| x != id)
        },
{
    if s.entries.contains_key(id) {
        let t = s.delete_result(id)->Ok_0;
        let p = |x: u64| s.entries[x].live;
        let q = |x: u64| x != id;
        lemma_live_ids_is_filter(s.order, s.entries);
        lemma_live_ids_is_filter(t.order, t.entries);
        lemma_filter_twice(s.order, p, q);
        assert((|x: u64| t.entries[x].live) =~= (|x: u64| p(x) && q(x)));
        assert(t.entries.dom() =~= s.entries.dom());
    }
}

/// What a lookup gives: the stored vector exactly for an id that was inserted
/// and is live, nothing otherwise.
pub proof fn law_lookup_outcome<T>(s: StoreView<T>, id: u64)
    ensures
        s.entries.contains_key(id) && s.entries[id].live ==> s.lookup(id) == Some(s.entries[id].vector),
        !(s.entries.contains_key(id) && s.entries[id].live) ==> s.lookup(id) is None,
{
}

} // verus!
