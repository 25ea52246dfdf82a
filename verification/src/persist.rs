//! The persistence layer: coordinates the free-space allocator, the key
//! index and the byte store to implement insert/get/update/delete with
//! reuse of freed space.

use vstd::prelude::*;
use crate::freelist::{
    best_fit_at, has_fit, lemma_best_fit_transfer, lemma_insert_facts, lemma_insert_keeps,
    lemma_sum_space_nonneg, list_covers, pairwise_disjoint, retrieve_shape, sum_space, FreeList,
};
use crate::slot::{lemma_disjoint_covers, slot_covers, slot_le, slots_disjoint, Slot};

verus! {

/// The error taxonomy of the store.  `IOError` is reserved for callers that
/// mirror the byte store onto an external medium; the in-memory operations
/// of this crate never produce it.
#[derive(Debug, PartialEq, Eq)]
pub enum KVError {
    /// The operation targets an absent key (a "key not found" error).
    KeyDoesNotExist,
    /// An insert targets a key that is already present (a "key already
    /// exists" error).
    KeyAlreadyExist,
    /// An operation on the external medium failed, with its message.
    IOError(String),
}

/// One binding of the index: a key and the slot holding its value.
pub struct IndexEntry {
    pub key: String,
    pub slot: Slot,
}

/// No key occurs twice.
pub open spec fn unique_keys(l: Seq<IndexEntry>) -> bool {
    forall|i: int, j: int|
        0 <= i < j < l.len() ==> (#[trigger] l[i]).key@ != (#[trigger] l[j]).key@
}

/// No two occupied slots share an offset.
pub open spec fn occ_disjoint(l: Seq<IndexEntry>) -> bool {
    forall|i: int, j: int|
        0 <= i < l.len() && 0 <= j < l.len() && i != j ==> slots_disjoint(
            (#[trigger] l[i]).slot,
            (#[trigger] l[j]).slot,
        )
}

/// Offset `o` lies inside some occupied slot.
pub open spec fn occ_covers(l: Seq<IndexEntry>, o: int) -> bool {
    exists|i: int| 0 <= i < l.len() && slot_covers((#[trigger] l[i]).slot, o)
}

/// Sum of the occupied slots' lengths.
pub open spec fn sum_occ(l: Seq<IndexEntry>) -> int
    decreases l.len(),
{
    if l.len() == 0 {
        0
    } else {
        l[0].slot.space + sum_occ(l.drop_first())
    }
}

/// The index holds `k`.
pub open spec fn entries_has(l: Seq<IndexEntry>, k: Seq<char>) -> bool {
    exists|i: int| 0 <= i < l.len() && (#[trigger] l[i]).key@ == k
}

/// The position of `k` in the index.
pub open spec fn entry_index(l: Seq<IndexEntry>, k: Seq<char>) -> int {
    choose|i: int| 0 <= i < l.len() && (#[trigger] l[i]).key@ == k
}

/// The slot bound to `k`.
pub open spec fn entry_slot(l: Seq<IndexEntry>, k: Seq<char>) -> Slot {
    l[entry_index(l, k)].slot
}

/// With unique keys, an entry that holds `k` is the one the lookup yields.
pub proof fn lemma_entry_lookup(l: Seq<IndexEntry>, k: Seq<char>, i: int)
    requires
        unique_keys(l),
        0 <= i < l.len(),
        l[i].key@ == k,
    ensures
        entries_has(l, k),
        entry_index(l, k) == i,
        entry_slot(l, k) == l[i].slot,
{
    assert(entries_has(l, k));
    let j = entry_index(l, k);
    if j != i {
        assert(l[i].key@ != l[j].key@);
    }
}

/// Each entry's length is bounded by the sum of all lengths.
pub proof fn lemma_sum_occ_bounds(l: Seq<IndexEntry>, i: int)
    requires
        0 <= i < l.len(),
    ensures
        l[i].slot.space <= sum_occ(l),
        sum_occ(l) >= 0,
    decreases l.len(),
{
    lemma_sum_occ_nonneg(l);
    if i == 0 {
        lemma_sum_occ_nonneg(l.drop_first());
    } else {
        lemma_sum_occ_bounds(l.drop_first(), i - 1);
    }
}

pub proof fn lemma_sum_occ_nonneg(l: Seq<IndexEntry>)
    ensures
        sum_occ(l) >= 0,
    decreases l.len(),
{
    if l.len() > 0 {
        lemma_sum_occ_nonneg(l.drop_first());
    }
}

/// What appending one entry does to the sum, the covered offsets, key
/// lookup, uniqueness and disjointness.
pub proof fn lemma_entries_push(l: Seq<IndexEntry>, e: IndexEntry)
    ensures
        sum_occ(l.push(e)) == sum_occ(l) + e.slot.space,
        forall|o: int|
            #![trigger occ_covers(l.push(e), o)]
            occ_covers(l.push(e), o) <==> (occ_covers(l, o) || slot_covers(e.slot, o)),
        forall|k: Seq<char>|
            #![trigger entries_has(l.push(e), k)]
            entries_has(l.push(e), k) <==> (entries_has(l, k) || e.key@ == k),
        (unique_keys(l) && !entries_has(l, e.key@)) ==> unique_keys(l.push(e)),
        (occ_disjoint(l) && (forall|j: int|
            0 <= j < l.len() ==> slots_disjoint(e.slot, (#[trigger] l[j]).slot)))
            ==> occ_disjoint(l.push(e)),
    decreases l.len(),
{
    let r = l.push(e);
    if l.len() == 0 {
        assert(r[0] == e);
        assert(r.drop_first() =~= l);
    } else {
        assert(r.drop_first() =~= l.drop_first().push(e));
        lemma_entries_push(l.drop_first(), e);
        assert(r[0] == l[0]);
    }
    assert forall|o: int| occ_covers(r, o) implies (occ_covers(l, o) || slot_covers(
        e.slot,
        o,
    )) by {
        let i = choose|i: int| 0 <= i < r.len() && slot_covers((#[trigger] r[i]).slot, o);
        if i < l.len() {
            assert(slot_covers(l[i].slot, o));
        } else {
            assert(r[i] == e);
        }
    }
    assert forall|o: int| (occ_covers(l, o) || slot_covers(e.slot, o)) implies occ_covers(
        r,
        o,
    ) by {
        if occ_covers(l, o) {
            let i = choose|i: int| 0 <= i < l.len() && slot_covers((#[trigger] l[i]).slot, o);
            assert(slot_covers(r[i].slot, o));
        } else {
            assert(slot_covers(r[l.len() as int].slot, o));
        }
    }
    assert forall|k: Seq<char>| entries_has(r, k) implies (entries_has(l, k) || e.key@ == k) by {
        let i = choose|i: int| 0 <= i < r.len() && (#[trigger] r[i]).key@ == k;
        if i < l.len() {
            assert(l[i].key@ == k);
        } else {
            assert(r[i] == e);
        }
    }
    assert forall|k: Seq<char>| (entries_has(l, k) || e.key@ == k) implies entries_has(r, k) by {
        if entries_has(l, k) {
            let i = choose|i: int| 0 <= i < l.len() && (#[trigger] l[i]).key@ == k;
            assert(r[i].key@ == k);
        } else {
            assert(r[l.len() as int].key@ == k);
        }
    }
    if unique_keys(l) && !entries_has(l, e.key@) {
        assert forall|i: int, j: int| 0 <= i < j < r.len() implies (#[trigger] r[i]).key@ != (
        #[trigger] r[j]).key@ by {
            if j < l.len() {
                assert(r[i] == l[i] && r[j] == l[j]);
            } else {
                assert(r[i] == l[i] && r[j] == e);
                if l[i].key@ == e.key@ {
                    assert(entries_has(l, e.key@));
                }
            }
        }
    }
    if occ_disjoint(l) && (forall|j: int|
        0 <= j < l.len() ==> slots_disjoint(e.slot, (#[trigger] l[j]).slot)) {
        assert forall|i: int, j: int|
            0 <= i < r.len() && 0 <= j < r.len() && i != j implies slots_disjoint(
            (#[trigger] r[i]).slot,
            (#[trigger] r[j]).slot,
        ) by {
            if i < l.len() && j < l.len() {
                assert(r[i] == l[i] && r[j] == l[j]);
            } else if i < l.len() {
                assert(r[i] == l[i] && r[j] == e);
                assert(slots_disjoint(e.slot, l[i].slot));
            } else {
                assert(r[i] == e && r[j] == l[j]);
                assert(slots_disjoint(e.slot, l[j].slot));
            }
        }
    }
}

/// What removing the entry at `pos` does to the sum, the covered offsets and
/// key lookup.
pub proof fn lemma_entries_remove(l: Seq<IndexEntry>, pos: int)
    requires
        0 <= pos < l.len(),
    ensures
        sum_occ(l.remove(pos)) == sum_occ(l) - l[pos].slot.space,
        occ_disjoint(l) ==> (forall|o: int|
            #![trigger occ_covers(l.remove(pos), o)]
            occ_covers(l.remove(pos), o) <==> (occ_covers(l, o) && !slot_covers(l[pos].slot, o))),
        unique_keys(l) ==> (forall|k: Seq<char>|
            #![trigger entries_has(l.remove(pos), k)]
            entries_has(l.remove(pos), k) <==> (entries_has(l, k) && l[pos].key@ != k)),
        unique_keys(l) ==> unique_keys(l.remove(pos)),
        occ_disjoint(l) ==> occ_disjoint(l.remove(pos)),
        forall|i: int|
            0 <= i < l.remove(pos).len() ==> (exists|j: int|
                0 <= j < l.len() && #[trigger] l.remove(pos)[i] == l[j]),
    decreases pos,
{
    let r = l.remove(pos);
    l.remove_ensures(pos);
    if pos == 0 {
        assert(r =~= l.drop_first());
        assert(sum_occ(r) == sum_occ(l) - l[0].slot.space);
    } else {
        assert(r.drop_first() =~= l.drop_first().remove(pos - 1));
        lemma_entries_remove(l.drop_first(), pos - 1);
        assert(sum_occ(r) == sum_occ(l) - l[pos].slot.space);
    }
    assert forall|i: int| 0 <= i < r.len() implies (exists|j: int|
        0 <= j < l.len() && #[trigger] r[i] == l[j]) by {
        if i < pos {
            assert(r[i] == l[i]);
        } else {
            assert(r[i] == l[i + 1]);
        }
    }
    if occ_disjoint(l) {
        assert forall|o: int| occ_covers(r, o) implies (occ_covers(l, o) && !slot_covers(
            l[pos].slot,
            o,
        )) by {
            let i = choose|i: int| 0 <= i < r.len() && slot_covers((#[trigger] r[i]).slot, o);
            let io = if i < pos { i } else { i + 1 };
            assert(slot_covers(l[io].slot, o));
            lemma_disjoint_covers(l[io].slot, l[pos].slot, o);
        }
        assert forall|o: int| (occ_covers(l, o) && !slot_covers(l[pos].slot, o)) implies
            occ_covers(r, o) by {
            let i = choose|i: int| 0 <= i < l.len() && slot_covers((#[trigger] l[i]).slot, o);
            if i < pos {
                assert(slot_covers(r[i].slot, o));
            } else {
                assert(slot_covers(r[i - 1].slot, o));
            }
        }
        assert forall|i: int, j: int|
            0 <= i < r.len() && 0 <= j < r.len() && i != j implies slots_disjoint(
            (#[trigger] r[i]).slot,
            (#[trigger] r[j]).slot,
        ) by {
            let io = if i < pos { i } else { i + 1 };
            let jo = if j < pos { j } else { j + 1 };
            assert(r[i] == l[io] && r[j] == l[jo]);
        }
    }
    if unique_keys(l) {
        assert forall|k: Seq<char>| entries_has(r, k) implies (entries_has(l, k) && l[pos].key@
            != k) by {
            let i = choose|i: int| 0 <= i < r.len() && (#[trigger] r[i]).key@ == k;
            let io = if i < pos { i } else { i + 1 };
            assert(l[io].key@ == k);
            assert(l[io].key@ != l[pos].key@);
        }
        assert forall|k: Seq<char>| (entries_has(l, k) && l[pos].key@ != k) implies entries_has(
            r,
            k,
        ) by {
            let i = choose|i: int| 0 <= i < l.len() && (#[trigger] l[i]).key@ == k;
            if i < pos {
                assert(r[i].key@ == k);
            } else {
                assert(r[i - 1].key@ == k);
            }
        }
        assert forall|i: int, j: int| 0 <= i < j < r.len() implies (#[trigger] r[i]).key@ != (
        #[trigger] r[j]).key@ by {
            let io = if i < pos { i } else { i + 1 };
            let jo = if j < pos { j } else { j + 1 };
            assert(r[i] == l[io] && r[j] == l[jo]);
        }
    }
}

/// A non-empty slot whose offsets all avoid the range `[c, c + n)` lies
/// entirely on one side of it.
pub proof fn lemma_interval_disjoint(a: Slot, c: int, n: int)
    requires
        a.space > 0,
        n > 0,
        forall|o: int| slot_covers(a, o) ==> !(c <= o < c + n),
    ensures
        a.cursor + a.space <= c || c + n <= a.cursor,
{
    if a.cursor < c + n && c < a.cursor + a.space {
        let w: int = if a.cursor >= c {
            a.cursor as int
        } else {
            c
        };
        assert(slot_covers(a, w));
        assert(c <= w < c + n);
    }
}

/// Write `bytes` into the store at `offset`, growing the store with zero
/// padding when the write reaches past its end.  Bytes outside the written
/// range keep their values.
fn write_at(data: &mut Vec<u8>, offset: usize, bytes: &Vec<u8>)
    requires
        offset <= old(data)@.len(),
        offset + bytes@.len() <= usize::MAX,
    ensures
        final(data)@.len() == if offset + bytes@.len() > old(data)@.len() {
            offset + bytes@.len()
        } else {
            old(data)@.len() as int
        },
        forall|i: int|
            offset <= i < offset + bytes@.len() ==> final(data)@[i] == bytes@[i - offset],
        forall|i: int|
            0 <= i < old(data)@.len() && !(offset <= i < offset + bytes@.len())
                ==> final(data)@[i] == old(data)@[i],
{
    let end = offset + bytes.len();
    while data.len() < end
        invariant
            data@.len() >= old(data)@.len(),
            data@.len() <= end || data@.len() == old(data)@.len(),
            forall|i: int| 0 <= i < old(data)@.len() ==> data@[i] == old(data)@[i],
        decreases end - data@.len(),
    {
        data.push(0u8);
    }
    let mut i: usize = 0;
    while i < bytes.len()
        invariant
            i <= bytes@.len(),
            offset + bytes@.len() <= usize::MAX,
            offset + bytes@.len() <= data@.len(),
            data@.len() == if offset + bytes@.len() > old(data)@.len() {
                offset + bytes@.len()
            } else {
                old(data)@.len() as int
            },
            forall|j: int| offset <= j < offset + i ==> data@[j] == bytes@[j - offset],
            forall|j: int|
                0 <= j < old(data)@.len() && !(offset <= j < offset + i)
                    ==> data@[j] == old(data)@[j],
        decreases bytes@.len() - i,
    {
        let pos = offset + i;
        data[pos] = bytes[i];
        i = i + 1;
    }
}

/// Read `len` bytes starting at `offset`.
fn read_range(data: &Vec<u8>, offset: usize, len: usize) -> (r: Vec<u8>)
    requires
        offset + len <= data@.len(),
    ensures
        r@ == data@.subrange(offset as int, offset + len),
{
    let dlen: usize = data.len();
    let mut r: Vec<u8> = Vec::new();
    let mut i: usize = 0;
    while i < len
        invariant
            i <= len,
            offset + len <= dlen,
            dlen == data@.len(),
            r@ =~= data@.subrange(offset as int, offset + i),
        decreases len - i,
    {
        r.push(data[offset + i]);
        proof {
            assert(r@ =~= data@.subrange(offset as int, offset + i + 1));
        }
        i = i + 1;
    }
    proof {
        assert(r@ =~= data@.subrange(offset as int, offset + len));
    }
    r
}

/// Composing a release with a retrieval: when a slot too small to satisfy
/// the request is first given back to the free list, the retrieval's shape
/// and best fit carry over to the original list.
proof fn lemma_release_then_retrieve(
    fl0: Seq<Slot>,
    flm: Seq<Slot>,
    flf: Seq<Slot>,
    s: Slot,
    c: int,
    n: int,
)
    requires
        s.space < n,
        exists|p: int| 0 <= p <= fl0.len() && flm == #[trigger] fl0.insert(p, s),
        has_fit(flm, n) ==> best_fit_at(flm, c, n) && retrieve_shape(flm, flf, c, n),
        !has_fit(flm, n) ==> flf == flm,
    ensures
        has_fit(flm, n) == has_fit(fl0, n),
        has_fit(fl0, n) ==> best_fit_at(fl0, c, n) && (exists|p: int|
            0 <= p <= fl0.len() && retrieve_shape(#[trigger] fl0.insert(p, s), flf, c, n)),
        !has_fit(fl0, n) ==> (exists|p: int|
            0 <= p <= fl0.len() && flf == #[trigger] fl0.insert(p, s)),
{
    let p = choose|p: int| 0 <= p <= fl0.len() && flm == #[trigger] fl0.insert(p, s);
    lemma_insert_facts(fl0, p, s);
    lemma_insert_keeps(fl0, p, s);
    if has_fit(fl0, n) {
        lemma_best_fit_transfer(fl0, flm, s, c, n);
        assert(retrieve_shape(fl0.insert(p, s), flf, c, n));
    } else {
        assert(flf == fl0.insert(p, s));
    }
}

/// Two slots that never cover a common offset are disjoint.
pub proof fn lemma_no_common_offset(a: Slot, b: Slot)
    requires
        forall|o: int| !(slot_covers(a, o) && slot_covers(b, o)),
    ensures
        slots_disjoint(a, b),
{
    if a.space > 0 && b.space > 0 {
        if a.cursor < b.cursor + b.space && b.cursor < a.cursor + a.space {
            let w: int = if a.cursor >= b.cursor {
                a.cursor as int
            } else {
                b.cursor as int
            };
            assert(slot_covers(a, w) && slot_covers(b, w));
        }
    }
}

pub struct Persister {
    pub freelist: FreeList,
    pub index: Vec<IndexEntry>,
    pub data: Vec<u8>,
    pub last_cursor: usize,
}

impl Persister {
    pub open spec fn has_key(self, k: Seq<char>) -> bool {
        entries_has(self.index@, k)
    }

    pub open spec fn slot_of(self, k: Seq<char>) -> Slot {
        entry_slot(self.index@, k)
    }

    /// The bytes currently stored for key `k`.
    pub open spec fn value_of(self, k: Seq<char>) -> Seq<u8> {
        self.data@.subrange(
            self.slot_of(k).cursor as int,
            self.slot_of(k).cursor + self.slot_of(k).space,
        )
    }

    /// The store's invariant: the allocator is well formed and holds
    /// pairwise-disjoint free slots; keys are unique; occupied slots are
    /// pairwise disjoint, disjoint from every free slot, and lie below the
    /// append cursor; every byte below the cursor is occupied or free; the
    /// byte totals balance; and the byte store is as long as the cursor.
    pub open spec fn wf(self) -> bool {
        &&& self.freelist.wf()
        &&& pairwise_disjoint(self.freelist.list@)
        &&& unique_keys(self.index@)
        &&& occ_disjoint(self.index@)
        &&& forall|i: int, j: int|
            0 <= i < self.index@.len() && 0 <= j < self.freelist.list@.len() ==> slots_disjoint(
                (#[trigger] self.index@[i]).slot,
                #[trigger] self.freelist.list@[j],
            )
        &&& forall|i: int|
            0 <= i < self.index@.len() && (#[trigger] self.index@[i]).slot.space > 0
                ==> self.index@[i].slot.cursor + self.index@[i].slot.space <= self.last_cursor
        &&& forall|j: int|
            0 <= j < self.freelist.list@.len() && (#[trigger] self.freelist.list@[j]).space > 0
                ==> self.freelist.list@[j].cursor + self.freelist.list@[j].space
                <= self.last_cursor
        &&& forall|i: int|
            0 <= i < self.index@.len() ==> (#[trigger] self.index@[i]).slot.cursor
                + self.index@[i].slot.space <= self.data@.len()
        &&& forall|o: int|
            0 <= o < self.last_cursor ==> (occ_covers(self.index@, o) || list_covers(
                self.freelist.list@,
                o,
            ))
        &&& sum_occ(self.index@) + self.freelist.total_free_space == self.last_cursor
        &&& self.data@.len() >= self.last_cursor
    }

    /// Extension point for a durable key log: recording the key-to-slot
    /// binding on an external medium belongs to a future on-disk format and
    /// is not part of this core, so the hook succeeds without doing
    /// anything.
    fn persist_key(&mut self) -> (r: Result<(), KVError>)
        ensures
            *final(self) == *old(self),
            r == Ok::<(), KVError>(()),
    {
        Ok(())
    }

    /// Extension point for a durable key log: removing a key's record from
    /// an external medium belongs to a future on-disk format and is not part
    /// of this core, so the hook succeeds without doing anything.
    fn delete_key(&mut self) -> (r: Result<(), KVError>)
        ensures
            *final(self) == *old(self),
            r == Ok::<(), KVError>(()),
    {
        Ok(())
    }

    pub fn new() -> (r: Persister)
        ensures
            r.wf(),
            r.index@.len() == 0,
            r.freelist.list@.len() == 0,
            r.freelist.total_free_space == 0,
            r.data@.len() == 0,
            r.last_cursor == 0,
    {
        Persister {
            freelist: FreeList::new(),
            index: Vec::new(),
            data: Vec::new(),
            last_cursor: 0,
        }
    }

    /// Position of `key` in the index, if present.
    fn find_key(&self, key: &String) -> (r: Option<usize>)
        ensures
            r matches Some(i) ==> i < self.index@.len() && self.index@[i as int].key@ == key@,
            r is Some <==> self.has_key(key@),
    {
        let mut i: usize = 0;
        while i < self.index.len()
            invariant
                i <= self.index@.len(),
                forall|j: int| 0 <= j < i ==> (#[trigger] self.index@[j]).key@ != key@,
            decreases self.index@.len() - i,
        {
            if self.index[i].key == *key {
                return Some(i);
            }
            i = i + 1;
        }
        None
    }

    /// The slot currently bound to `key`, if any.
    pub fn get_slot(&self, key: &String) -> (r: Option<Slot>)
        requires
            self.wf(),
        ensures
            self.has_key(key@) ==> r == Some(self.slot_of(key@)),
            !self.has_key(key@) ==> r is None,
    {
        match self.find_key(key) {
            Some(i) => {
                proof {
                    lemma_entry_lookup(self.index@, key@, i as int);
                }
                Some(self.index[i].slot)
            },
            None => None,
        }
    }

    /// Nothing observable changed.
    pub open spec fn unchanged(pre: Persister, post: Persister) -> bool {
        &&& post.index@ == pre.index@
        &&& post.freelist.list@ == pre.freelist.list@
        &&& post.freelist.total_free_space == pre.freelist.total_free_space
        &&& post.data@ == pre.data@
        &&& post.last_cursor == pre.last_cursor
    }

    /// Every key other than `k` is bound exactly as before, to the same slot
    /// and the same bytes.
    pub open spec fn others_preserved(pre: Persister, post: Persister, k: Seq<char>) -> bool {
        forall|k2: Seq<char>|
            #![trigger post.has_key(k2)]
            #![trigger pre.has_key(k2)]
            k2 != k ==> {
                &&& (post.has_key(k2) <==> pre.has_key(k2))
                &&& (pre.has_key(k2) ==> post.slot_of(k2) == pre.slot_of(k2) && post.value_of(k2)
                    == pre.value_of(k2))
            }
    }

    /// What a successful insert of `(k, v)` does: `k` is now bound to `v`,
    /// every other key is untouched, and the space came from the smallest
    /// fitting free slot when one existed, else from the append cursor.  An
    /// empty value claims no space at all.
    pub open spec fn insert_transition(
        pre: Persister,
        post: Persister,
        k: Seq<char>,
        v: Seq<u8>,
    ) -> bool {
        &&& post.has_key(k)
        &&& post.slot_of(k).space == v.len()
        &&& post.value_of(k) == v
        &&& Self::others_preserved(pre, post, k)
        &&& post.last_cursor <= pre.last_cursor + v.len()
        &&& (v.len() == 0 ==> post.slot_of(k) == (Slot { space: 0, cursor: 0 })
            && post.last_cursor == pre.last_cursor && post.freelist.list@ == pre.freelist.list@
            && post.freelist.total_free_space == pre.freelist.total_free_space && post.data@
            == pre.data@)
        &&& ((v.len() > 0 && has_fit(pre.freelist.list@, v.len() as int)) ==> {
            &&& post.last_cursor == pre.last_cursor
            &&& post.freelist.total_free_space == pre.freelist.total_free_space - v.len()
            &&& best_fit_at(pre.freelist.list@, post.slot_of(k).cursor as int, v.len() as int)
            &&& retrieve_shape(
                pre.freelist.list@,
                post.freelist.list@,
                post.slot_of(k).cursor as int,
                v.len() as int,
            )
            &&& (forall|o: int|
                list_covers(post.freelist.list@, o) <==> (list_covers(pre.freelist.list@, o) && !(
                post.slot_of(k).cursor <= o < post.slot_of(k).cursor + v.len())))
        })
        &&& ((v.len() > 0 && !has_fit(pre.freelist.list@, v.len() as int)) ==> post.slot_of(
            k,
        ).cursor == pre.last_cursor && post.last_cursor == pre.last_cursor + v.len()
            && post.freelist.list@ == pre.freelist.list@ && post.freelist.total_free_space
            == pre.freelist.total_free_space)
    }

    /// Bind `key` to `value`.  Fails with `KeyAlreadyExist`, changing
    /// nothing, if and only if the key is already present.  A non-empty
    /// value is stored in the smallest fitting free slot when one exists;
    /// otherwise it is appended at the cursor, which advances by the
    /// value's length.
    pub fn insert_kv(&mut self, key: &String, value: &Vec<u8>) -> (r: Result<(), KVError>)
        requires
            old(self).wf(),
            old(self).last_cursor + value@.len() <= usize::MAX,
        ensures
            final(self).wf(),
            old(self).has_key(key@) ==> r == Err::<(), KVError>(KVError::KeyAlreadyExist)
                && Self::unchanged(*old(self), *final(self)),
            !old(self).has_key(key@) ==> r == Ok::<(), KVError>(())
                && Self::insert_transition(*old(self), *final(self), key@, value@),
    {
        match self.find_key(key) {
            Some(_) => {
                return Err(KVError::KeyAlreadyExist);
            },
            None => {},
        }
        let len = value.len();
        let mut cursor: usize = 0;
        let ghost pre = *old(self);
        let ghost n = value@.len() as int;
        let ghost fl0 = pre.freelist.list@;
        let ghost idx0 = pre.index@;
        if len > 0 {
            match self.freelist.retrieve_free_space(len) {
                Some(c) => {
                    cursor = c;
                },
                None => {
                    cursor = self.last_cursor;
                    self.last_cursor = self.last_cursor + len;
                },
            }
            proof {
                let c = cursor as int;
                if has_fit(fl0, n) {
                    assert(list_covers(fl0, c + n - 1));
                    let j = choose|j: int| 0 <= j < fl0.len() && slot_covers(
                        #[trigger] fl0[j],
                        c + n - 1,
                    );
                    assert(fl0[j].space > 0);
                    assert(c + n <= pre.last_cursor);
                }
            }
            write_at(&mut self.data, cursor, value);
        }
        let ghost c = cursor as int;
        let ghost fl1 = self.freelist.list@;
        let ghost lc1 = self.last_cursor as int;
        let entry = IndexEntry { key: key.clone(), slot: Slot { cursor, space: len } };
        let ghost ns = entry.slot;
        proof {
            lemma_entries_push(idx0, entry);
            // The new slot is disjoint from every occupied slot: reused space
            // was free, appended space lies past every slot's end.
            assert forall|i: int| 0 <= i < idx0.len() implies slots_disjoint(
                ns,
                (#[trigger] idx0[i]).slot,
            ) by {
                if n > 0 && idx0[i].slot.space > 0 {
                    if has_fit(fl0, n) {
                        assert forall|o: int| slot_covers(idx0[i].slot, o) implies !(c <= o < c
                            + n) by {
                            if c <= o < c + n {
                                assert(list_covers(fl0, o));
                                let j = choose|j: int|
                                    0 <= j < fl0.len() && slot_covers(#[trigger] fl0[j], o);
                                assert(slots_disjoint(idx0[i].slot, fl0[j]));
                                lemma_disjoint_covers(idx0[i].slot, fl0[j], o);
                            }
                        }
                        lemma_interval_disjoint(idx0[i].slot, c, n);
                    } else {
                        assert(idx0[i].slot.cursor + idx0[i].slot.space <= pre.last_cursor);
                    }
                }
            }
            // The new slot is disjoint from what remains of the free list.
            assert forall|j: int| 0 <= j < fl1.len() implies slots_disjoint(
                ns,
                #[trigger] fl1[j],
            ) && slots_disjoint(fl1[j], ns) by {
                if n > 0 && fl1[j].space > 0 {
                    if has_fit(fl0, n) {
                        assert forall|o: int| slot_covers(fl1[j], o) implies !(c <= o < c + n) by {
                            assert(list_covers(fl1, o));
                        }
                        lemma_interval_disjoint(fl1[j], c, n);
                    } else {
                        assert(fl1[j] == fl0[j]);
                        assert(fl1[j].cursor + fl1[j].space <= pre.last_cursor);
                    }
                }
            }
            // Every remaining free slot still ends below the cursor.
            if n > 0 && has_fit(fl0, n) {
                assert forall|j: int|
                    0 <= j < fl1.len() && (#[trigger] fl1[j]).space > 0 implies fl1[j].cursor
                    + fl1[j].space <= lc1 by {
                    let j0 = choose|j0: int|
                        0 <= j0 < fl0.len() && (fl1[j] == fl0[j0] || (fl0[j0].cursor
                            <= fl1[j].cursor && fl1[j].cursor + fl1[j].space <= fl0[j0].cursor
                            + fl0[j0].space && fl1[j].space > 0));
                    assert(fl0[j0].space > 0);
                }
            }
        }
        let _ = self.persist_key();
        self.index.push(entry);
        proof {
            lemma_entry_lookup(self.index@, key@, self.index@.len() - 1);
            let idx1 = self.index@;
            // Coverage: every byte below the cursor is occupied or free.
            assert forall|o: int| 0 <= o < lc1 implies (occ_covers(idx1, o) || list_covers(
                fl1,
                o,
            )) by {
                if n > 0 && !has_fit(fl0, n) && pre.last_cursor <= o {
                    assert(slot_covers(ns, o));
                } else {
                    assert(occ_covers(idx0, o) || list_covers(fl0, o));
                    if list_covers(fl0, o) && n > 0 && has_fit(fl0, n) && c <= o < c + n {
                        assert(slot_covers(ns, o));
                    }
                }
            }
            // The stored bytes are exactly the value.
            assert(self.value_of(key@) =~= value@);
            // Every other key keeps its slot and its bytes.
            assert forall|k2: Seq<char>| k2 != key@ implies ((self.has_key(k2)
                <==> pre.has_key(k2)) && (pre.has_key(k2) ==> self.slot_of(k2) == pre.slot_of(k2)
                && self.value_of(k2) == pre.value_of(k2))) by {
                if pre.has_key(k2) {
                    let i = choose|i: int| 0 <= i < idx0.len() && (#[trigger] idx0[i]).key@ == k2;
                    lemma_entry_lookup(idx0, k2, i);
                    lemma_entry_lookup(idx1, k2, i);
                    let s = idx0[i].slot;
                    assert forall|o: int| s.cursor <= o < s.cursor + s.space implies self.data@[o]
                        == pre.data@[o] by {
                        assert(s.space > 0);
                        if n > 0 && c <= o < c + n {
                            assert(slot_covers(ns, o));
                            assert(slot_covers(s, o));
                            lemma_disjoint_covers(ns, s, o);
                        }
                        assert(s.cursor + s.space <= pre.data@.len());
                    }
                    assert(self.value_of(k2) =~= pre.value_of(k2));
                }
            }
            if n == 0 {
                assert(self.value_of(key@) =~= value@);
                assert(self.slot_of(key@) == (Slot { space: 0, cursor: 0 }));
            }
        }
        Ok(())
    }

    /// What a successful delete of `k` does: the key is gone, the bytes are
    /// untouched, and the freed range is returned to the allocator — unless
    /// it was the trailing allocated range, in which case the append cursor
    /// shrinks to its start instead and no free slot is recorded.
    pub open spec fn delete_transition(pre: Persister, post: Persister, k: Seq<char>) -> bool {
        let s = pre.slot_of(k);
        &&& !post.has_key(k)
        &&& Self::others_preserved(pre, post, k)
        &&& post.data@ == pre.data@
        &&& (s.cursor + s.space == pre.last_cursor ==> post.last_cursor == s.cursor
            && post.freelist.list@ == pre.freelist.list@ && post.freelist.total_free_space
            == pre.freelist.total_free_space)
        &&& (s.cursor + s.space != pre.last_cursor ==> {
            &&& post.last_cursor == pre.last_cursor
            &&& post.freelist.total_free_space == pre.freelist.total_free_space + s.space
            &&& (forall|m: int|
                has_fit(post.freelist.list@, m) <==> (has_fit(pre.freelist.list@, m) || s.space
                    >= m))
            &&& (forall|o: int|
                list_covers(post.freelist.list@, o) <==> (list_covers(pre.freelist.list@, o) || (
                s.cursor <= o < s.cursor + s.space)))
            &&& (exists|p: int|
                0 <= p <= pre.freelist.list@.len() && post.freelist.list@
                    == pre.freelist.list@.insert(p, s))
        })
    }

    /// Unbind `key`.  Fails with `KeyDoesNotExist`, changing nothing, if and
    /// only if the key is absent.  No bytes are written: the freed range is
    /// merely made reclaimable, or the cursor pulled back when the range was
    /// the trailing one.
    pub fn delete_kv(&mut self, key: &String) -> (r: Result<(), KVError>)
        requires
            old(self).wf(),
        ensures
            final(self).wf(),
            !old(self).has_key(key@) ==> r == Err::<(), KVError>(KVError::KeyDoesNotExist)
                && Self::unchanged(*old(self), *final(self)),
            old(self).has_key(key@) ==> r == Ok::<(), KVError>(()) && Self::delete_transition(
                *old(self),
                *final(self),
                key@,
            ),
    {
        let i = match self.find_key(key) {
            Some(i) => i,
            None => {
                return Err(KVError::KeyDoesNotExist);
            },
        };
        proof {
            lemma_entry_lookup(self.index@, key@, i as int);
        }
        let slot = self.index[i].slot;
        let ghost pre = *old(self);
        let ghost idx0 = pre.index@;
        let ghost fl0 = pre.freelist.list@;
        if self.last_cursor == slot.cursor + slot.space {
            self.last_cursor = slot.cursor;
            proof {
                // Every other slot ends at or below the deleted slot's start,
                // so the shrunk cursor still bounds them and the coverage of
                // the shrunk range is complete.
                assert forall|j: int|
                    0 <= j < idx0.len() && j != i && (#[trigger] idx0[j]).slot.space
                        > 0 implies idx0[j].slot.cursor + idx0[j].slot.space <= slot.cursor by {
                    assert(slots_disjoint(idx0[j].slot, slot));
                }
                assert forall|j: int|
                    0 <= j < fl0.len() && (#[trigger] fl0[j]).space > 0 implies fl0[j].cursor
                        + fl0[j].space <= slot.cursor by {
                    assert(slots_disjoint(idx0[i as int].slot, fl0[j]));
                }
            }
        } else {
            proof {
                lemma_sum_occ_bounds(idx0, i as int);
                lemma_sum_space_nonneg(fl0);
                assert forall|j: int| 0 <= j < fl0.len() implies slots_disjoint(
                    slot,
                    #[trigger] fl0[j],
                ) by {
                    assert(slots_disjoint(idx0[i as int].slot, fl0[j]));
                }
            }
            self.freelist.insert_free_space(slot.cursor, slot.space);
        }
        proof {
            lemma_entries_remove(idx0, i as int);
        }
        self.index.remove(i);
        proof {
            let idx1 = self.index@;
            let fl1 = self.freelist.list@;
            let lc1 = self.last_cursor as int;
            // The removed entries are drawn from the old index.
            assert forall|a: int, b: int|
                0 <= a < idx1.len() && 0 <= b < fl1.len() implies slots_disjoint(
                (#[trigger] idx1[a]).slot,
                #[trigger] fl1[b],
            ) by {
                let a0 = choose|a0: int| 0 <= a0 < idx0.len() && idx1[a] == idx0[a0];
                if slot.cursor + slot.space != pre.last_cursor {
                    if fl1[b] == (Slot { space: slot.space, cursor: slot.cursor }) {
                        assert(slots_disjoint(idx0[a0].slot, idx0[i as int].slot) || a0
                            == i as int);
                    }
                }
            }
            assert forall|a: int|
                0 <= a < idx1.len() && (#[trigger] idx1[a]).slot.space > 0 implies idx1[a]
                .slot.cursor + idx1[a].slot.space <= lc1 by {
                let a0 = choose|a0: int| 0 <= a0 < idx0.len() && idx1[a] == idx0[a0];
            }
            assert forall|a: int| 0 <= a < idx1.len() implies (#[trigger] idx1[a]).slot.cursor
                + idx1[a].slot.space <= self.data@.len() by {
                let a0 = choose|a0: int| 0 <= a0 < idx0.len() && idx1[a] == idx0[a0];
            }
            // Coverage of the remaining domain.
            assert forall|o: int| 0 <= o < lc1 implies (occ_covers(idx1, o) || list_covers(
                fl1,
                o,
            )) by {
                assert(occ_covers(idx0, o) || list_covers(fl0, o));
                if occ_covers(idx0, o) && slot_covers(idx0[i as int].slot, o) {
                    assert(slot.cursor + slot.space != pre.last_cursor);
                    assert(list_covers(fl1, o));
                }
            }
            // Every other key keeps its slot and its bytes.
            assert forall|k2: Seq<char>| k2 != key@ implies ((self.has_key(k2)
                <==> pre.has_key(k2)) && (pre.has_key(k2) ==> self.slot_of(k2) == pre.slot_of(k2)
                && self.value_of(k2) == pre.value_of(k2))) by {
                if pre.has_key(k2) {
                    let a0 = choose|a0: int|
                        0 <= a0 < idx0.len() && (#[trigger] idx0[a0]).key@ == k2;
                    lemma_entry_lookup(idx0, k2, a0);
                    let a1 = if a0 < i as int {
                        a0
                    } else {
                        a0 - 1
                    };
                    idx0.remove_ensures(i as int);
                    assert(idx1[a1] == idx0[a0]);
                    lemma_entry_lookup(idx1, k2, a1);
                    assert(self.value_of(k2) =~= pre.value_of(k2));
                }
            }
        }
        let _ = self.delete_key();
        Ok(())
    }

    /// What a successful update of `k` to `v` does.  An equal-length value
    /// is rewritten in place.  A shorter value keeps its offset and releases
    /// the trailing remainder.  A longer value first gives up its old range
    /// (to the allocator, or by pulling the cursor back when the range was
    /// the trailing one) and is then placed like an insert: in the smallest
    /// fitting free slot, else at the cursor.
    pub open spec fn update_transition(
        pre: Persister,
        post: Persister,
        k: Seq<char>,
        v: Seq<u8>,
    ) -> bool {
        let s = pre.slot_of(k);
        let n = v.len();
        &&& post.has_key(k)
        &&& post.slot_of(k).space == n
        &&& post.value_of(k) == v
        &&& Self::others_preserved(pre, post, k)
        &&& (n == s.space ==> post.slot_of(k).cursor == s.cursor && post.last_cursor
            == pre.last_cursor && post.freelist.list@ == pre.freelist.list@
            && post.freelist.total_free_space == pre.freelist.total_free_space)
        &&& (n < s.space ==> {
            &&& post.slot_of(k).cursor == s.cursor
            &&& post.last_cursor == pre.last_cursor
            &&& post.freelist.total_free_space == pre.freelist.total_free_space + (s.space - n)
            &&& (forall|o: int|
                list_covers(post.freelist.list@, o) <==> (list_covers(pre.freelist.list@, o) || (
                s.cursor + n <= o < s.cursor + s.space)))
            &&& (exists|rp: int|
                0 <= rp <= pre.freelist.list@.len() && post.freelist.list@
                    == #[trigger] pre.freelist.list@.insert(
                    rp,
                    Slot { cursor: (s.cursor + n) as usize, space: (s.space - n) as usize },
                ))
        })
        &&& (n > s.space ==> {
            let trailing = s.cursor + s.space == pre.last_cursor;
            let lc1: int = if trailing {
                s.cursor as int
            } else {
                pre.last_cursor as int
            };
            let t1: int = if trailing {
                pre.freelist.total_free_space as int
            } else {
                pre.freelist.total_free_space + s.space
            };
            if has_fit(pre.freelist.list@, n as int) {
                &&& post.last_cursor == lc1
                &&& post.freelist.total_free_space == t1 - n
                &&& best_fit_at(pre.freelist.list@, post.slot_of(k).cursor as int, n as int)
                &&& (trailing ==> retrieve_shape(
                    pre.freelist.list@,
                    post.freelist.list@,
                    post.slot_of(k).cursor as int,
                    n as int,
                ))
                &&& (!trailing ==> (exists|p: int|
                    0 <= p <= pre.freelist.list@.len() && retrieve_shape(
                        #[trigger] pre.freelist.list@.insert(p, s),
                        post.freelist.list@,
                        post.slot_of(k).cursor as int,
                        n as int,
                    )))
            } else {
                &&& post.slot_of(k).cursor == lc1
                &&& post.last_cursor == lc1 + n
                &&& post.freelist.total_free_space == t1
                &&& (trailing ==> post.freelist.list@ == pre.freelist.list@)
                &&& (!trailing ==> (exists|p: int|
                    0 <= p <= pre.freelist.list@.len() && post.freelist.list@
                        == #[trigger] pre.freelist.list@.insert(p, s)))
            }
        })
    }

    /// Rebind `key` to `value`, reusing, splitting or growing its byte range
    /// as `update_transition` says.  Fails with `KeyDoesNotExist`, changing
    /// nothing, if and only if the key is absent.
    pub fn update_value(&mut self, key: &String, value: &Vec<u8>) -> (r: Result<(), KVError>)
        requires
            old(self).wf(),
            old(self).last_cursor + value@.len() <= usize::MAX,
        ensures
            final(self).wf(),
            !old(self).has_key(key@) ==> r == Err::<(), KVError>(KVError::KeyDoesNotExist)
                && Self::unchanged(*old(self), *final(self)),
            old(self).has_key(key@) ==> r == Ok::<(), KVError>(()) && Self::update_transition(
                *old(self),
                *final(self),
                key@,
                value@,
            ),
    {
        let i = match self.find_key(key) {
            Some(i) => i,
            None => {
                return Err(KVError::KeyDoesNotExist);
            },
        };
        proof {
            lemma_entry_lookup(self.index@, key@, i as int);
        }
        let old_slot = self.index[i].slot;
        if value.len() > old_slot.space {
            self.update_grow(key, value, i);
        } else if value.len() < old_slot.space {
            self.update_shrink(key, value, i);
        } else {
            self.update_equal(key, value, i);
        }
        let _ = self.persist_key();
        Ok(())
    }

    /// Equal-length update: rewrite the bytes in place.
    fn update_equal(&mut self, key: &String, value: &Vec<u8>, i: usize)
        requires
            old(self).wf(),
            i < old(self).index@.len(),
            old(self).index@[i as int].key@ == key@,
            value@.len() == old(self).index@[i as int].slot.space,
        ensures
            final(self).wf(),
            Self::update_transition(*old(self), *final(self), key@, value@),
    {
        let ghost pre = *old(self);
        let ghost idx0 = pre.index@;
        let ghost fl0 = pre.freelist.list@;
        let ghost n = value@.len() as int;
        proof {
            lemma_entry_lookup(idx0, key@, i as int);
        }
        let old_slot = self.index[i].slot;
        let ghost s = old_slot;
        let cursor = old_slot.cursor;
        let len = value.len();
        write_at(&mut self.data, cursor, value);
        proof {
            lemma_entries_remove(idx0, i as int);
        }
        self.index.remove(i);
        let entry = IndexEntry { key: key.clone(), slot: Slot { cursor, space: len } };
        proof {
            lemma_entries_push(self.index@, entry);
        }
        self.index.push(entry);
        proof {
            lemma_entry_lookup(self.index@, key@, self.index@.len() - 1);
            let ii = i as int;
            let idx1 = idx0.remove(ii);
            let idx2 = self.index@;
            let ns = entry.slot;
            assert(ns == s);
            // The rewritten slot relates to the others exactly as the old one
            // did.
            assert forall|a: int| 0 <= a < idx1.len() implies slots_disjoint(
                ns,
                (#[trigger] idx1[a]).slot,
            ) by {
                let a0 = choose|a0: int| 0 <= a0 < idx0.len() && idx1[a] == idx0[a0];
                if idx0[a0].key@ == key@ {
                    assert(entries_has(idx1, key@));
                    assert(false);
                }
                assert(slots_disjoint(idx0[a0].slot, s));
            }
            // Coverage is untouched: the slot covers the same range.
            assert forall|o: int| 0 <= o < self.last_cursor implies (occ_covers(idx2, o)
                || list_covers(self.freelist.list@, o)) by {
                if occ_covers(idx0, o) {
                    let a0 = choose|a0: int|
                        0 <= a0 < idx0.len() && slot_covers((#[trigger] idx0[a0]).slot, o);
                    if a0 == ii {
                        assert(slot_covers(ns, o));
                    } else {
                        let a1 = if a0 < ii {
                            a0
                        } else {
                            a0 - 1
                        };
                        idx0.remove_ensures(ii);
                        assert(idx1[a1] == idx0[a0]);
                        assert(slot_covers(idx2[a1].slot, o));
                    }
                }
            }
            // The stored bytes are exactly the value.
            assert(self.value_of(key@) =~= value@);
            // Every other key keeps its slot and its bytes.
            assert forall|k2: Seq<char>| k2 != key@ implies ((self.has_key(k2)
                <==> pre.has_key(k2)) && (pre.has_key(k2) ==> self.slot_of(k2) == pre.slot_of(k2)
                && self.value_of(k2) == pre.value_of(k2))) by {
                if pre.has_key(k2) {
                    let a0 = choose|a0: int|
                        0 <= a0 < idx0.len() && (#[trigger] idx0[a0]).key@ == k2;
                    lemma_entry_lookup(idx0, k2, a0);
                    let a1 = if a0 < ii {
                        a0
                    } else {
                        a0 - 1
                    };
                    idx0.remove_ensures(ii);
                    assert(idx1[a1] == idx0[a0]);
                    assert(idx2[a1] == idx1[a1]);
                    lemma_entry_lookup(idx2, k2, a1);
                    let e = idx0[a0].slot;
                    assert(slots_disjoint(s, e));
                    assert forall|o: int| e.cursor <= o < e.cursor + e.space implies self.data@[o]
                        == pre.data@[o] by {
                        assert(e.space > 0);
                        if n > 0 && s.cursor <= o < s.cursor + n {
                            assert(slot_covers(s, o));
                            assert(slot_covers(e, o));
                            lemma_disjoint_covers(s, e, o);
                        }
                        assert(e.cursor + e.space <= pre.data@.len());
                    }
                    assert(self.value_of(k2) =~= pre.value_of(k2));
                }
            }
        }
    }

    /// Shrinking update: keep the value's offset and release the trailing
    /// remainder of the old range.
    fn update_shrink(&mut self, key: &String, value: &Vec<u8>, i: usize)
        requires
            old(self).wf(),
            i < old(self).index@.len(),
            old(self).index@[i as int].key@ == key@,
            value@.len() < old(self).index@[i as int].slot.space,
        ensures
            final(self).wf(),
            Self::update_transition(*old(self), *final(self), key@, value@),
    {
        let ghost pre = *old(self);
        let ghost idx0 = pre.index@;
        let ghost fl0 = pre.freelist.list@;
        let ghost n = value@.len() as int;
        proof {
            lemma_entry_lookup(idx0, key@, i as int);
            lemma_sum_occ_bounds(idx0, i as int);
            lemma_sum_space_nonneg(fl0);
        }
        let old_slot = self.index[i].slot;
        let ghost s = old_slot;
        let cursor = old_slot.cursor;
        let len = value.len();
        let ghost rem = Slot {
            cursor: (s.cursor + n) as usize,
            space: (s.space - n) as usize,
        };
        proof {
            assert forall|j: int| 0 <= j < fl0.len() implies slots_disjoint(
                rem,
                #[trigger] fl0[j],
            ) by {
                assert(slots_disjoint(idx0[i as int].slot, fl0[j]));
            }
        }
        self.freelist.insert_free_space(old_slot.cursor + len, old_slot.space - len);
        let ghost fl2 = self.freelist.list@;
        write_at(&mut self.data, cursor, value);
        proof {
            lemma_entries_remove(idx0, i as int);
        }
        self.index.remove(i);
        let entry = IndexEntry { key: key.clone(), slot: Slot { cursor, space: len } };
        proof {
            lemma_entries_push(self.index@, entry);
        }
        self.index.push(entry);
        proof {
            lemma_entry_lookup(self.index@, key@, self.index@.len() - 1);
            let ii = i as int;
            let idx1 = idx0.remove(ii);
            let idx2 = self.index@;
            let ns = entry.slot;
            // The kept head of the old range stays disjoint from the other
            // occupied slots and from the whole free list.
            assert forall|a: int| 0 <= a < idx1.len() implies slots_disjoint(
                ns,
                (#[trigger] idx1[a]).slot,
            ) by {
                let a0 = choose|a0: int| 0 <= a0 < idx0.len() && idx1[a] == idx0[a0];
                let e = idx0[a0].slot;
                if idx0[a0].key@ == key@ {
                    assert(entries_has(idx1, key@));
                    assert(false);
                }
                assert(slots_disjoint(e, s));
                assert forall|o: int| !(slot_covers(ns, o) && slot_covers(e, o)) by {
                    if slot_covers(ns, o) && slot_covers(e, o) {
                        assert(slot_covers(s, o));
                        lemma_disjoint_covers(e, s, o);
                    }
                }
                lemma_no_common_offset(ns, e);
            }
            assert forall|b: int| 0 <= b < fl2.len() implies slots_disjoint(
                ns,
                #[trigger] fl2[b],
            ) && slots_disjoint(fl2[b], ns) by {
                let x = fl2[b];
                assert forall|o: int| !(slot_covers(ns, o) && slot_covers(x, o)) by {
                    if slot_covers(ns, o) && slot_covers(x, o) {
                        assert(list_covers(fl2, o));
                        if list_covers(fl0, o) {
                            let j = choose|j: int|
                                0 <= j < fl0.len() && slot_covers(#[trigger] fl0[j], o);
                            assert(slot_covers(s, o));
                            assert(slots_disjoint(s, fl0[j]));
                            lemma_disjoint_covers(s, fl0[j], o);
                        } else {
                            assert(s.cursor + n <= o);
                        }
                    }
                }
                lemma_no_common_offset(ns, x);
            }
            // The other occupied slots stay disjoint from the free list: the
            // only new free slot is the remainder, carved out of the old
            // range.
            assert forall|a: int, b: int|
                0 <= a < idx1.len() && 0 <= b < fl2.len() implies slots_disjoint(
                (#[trigger] idx1[a]).slot,
                #[trigger] fl2[b],
            ) by {
                let a0 = choose|a0: int| 0 <= a0 < idx0.len() && idx1[a] == idx0[a0];
                let e = idx0[a0].slot;
                if idx0[a0].key@ == key@ {
                    assert(entries_has(idx1, key@));
                    assert(false);
                }
                assert(slots_disjoint(e, s));
                let x = fl2[b];
                assert forall|o: int| !(slot_covers(e, o) && slot_covers(x, o)) by {
                    if slot_covers(e, o) && slot_covers(x, o) {
                        assert(list_covers(fl2, o));
                        if list_covers(fl0, o) {
                            let j = choose|j: int|
                                0 <= j < fl0.len() && slot_covers(#[trigger] fl0[j], o);
                            assert(slots_disjoint(e, fl0[j]));
                            lemma_disjoint_covers(e, fl0[j], o);
                        } else {
                            assert(slot_covers(s, o));
                            lemma_disjoint_covers(e, s, o);
                        }
                    }
                }
                lemma_no_common_offset(e, x);
            }
            // Bounds.
            assert forall|a: int|
                0 <= a < idx2.len() && (#[trigger] idx2[a]).slot.space > 0 implies idx2[a]
                .slot.cursor + idx2[a].slot.space <= self.last_cursor by {
                if a < idx1.len() {
                    let a0 = choose|a0: int| 0 <= a0 < idx0.len() && idx1[a] == idx0[a0];
                    assert(idx2[a].slot == idx0[a0].slot);
                } else {
                    assert(idx2[a].slot == ns);
                    assert(s.cursor + s.space <= pre.last_cursor);
                }
            }
            // Coverage: the old range splits into the kept head and the
            // released remainder.
            assert forall|o: int| 0 <= o < self.last_cursor implies (occ_covers(idx2, o)
                || list_covers(fl2, o)) by {
                if occ_covers(idx0, o) {
                    let a0 = choose|a0: int|
                        0 <= a0 < idx0.len() && slot_covers((#[trigger] idx0[a0]).slot, o);
                    if a0 == ii {
                        if o < s.cursor + n {
                            assert(slot_covers(ns, o));
                        } else {
                            assert(slot_covers(rem, o));
                            assert(list_covers(fl2, o));
                        }
                    } else {
                        let a1 = if a0 < ii {
                            a0
                        } else {
                            a0 - 1
                        };
                        idx0.remove_ensures(ii);
                        assert(idx1[a1] == idx0[a0]);
                        assert(slot_covers(idx2[a1].slot, o));
                    }
                }
            }
            // The stored bytes are exactly the value.
            assert(self.value_of(key@) =~= value@);
            // Every other key keeps its slot and its bytes.
            assert forall|k2: Seq<char>| k2 != key@ implies ((self.has_key(k2)
                <==> pre.has_key(k2)) && (pre.has_key(k2) ==> self.slot_of(k2) == pre.slot_of(k2)
                && self.value_of(k2) == pre.value_of(k2))) by {
                if pre.has_key(k2) {
                    let a0 = choose|a0: int|
                        0 <= a0 < idx0.len() && (#[trigger] idx0[a0]).key@ == k2;
                    lemma_entry_lookup(idx0, k2, a0);
                    let a1 = if a0 < ii {
                        a0
                    } else {
                        a0 - 1
                    };
                    idx0.remove_ensures(ii);
                    assert(idx1[a1] == idx0[a0]);
                    assert(idx2[a1] == idx1[a1]);
                    lemma_entry_lookup(idx2, k2, a1);
                    let e = idx0[a0].slot;
                    assert(slots_disjoint(s, e));
                    assert forall|o: int| e.cursor <= o < e.cursor + e.space implies self.data@[o]
                        == pre.data@[o] by {
                        assert(e.space > 0);
                        if n > 0 && s.cursor <= o < s.cursor + n {
                            assert(slot_covers(s, o));
                            assert(slot_covers(e, o));
                            lemma_disjoint_covers(s, e, o);
                        }
                        assert(e.cursor + e.space <= pre.data@.len());
                    }
                    assert(self.value_of(k2) =~= pre.value_of(k2));
                }
            }
        }
    }

    /// Growing update: give up the old range — to the allocator, or by
    /// pulling the cursor back when the range was the trailing one — then
    /// place the value like an insert.  Exactly a delete followed by an
    /// insert of the same key.
    #[verifier::rlimit(50)]
    fn update_grow(&mut self, key: &String, value: &Vec<u8>, i: usize)
        requires
            old(self).wf(),
            i < old(self).index@.len(),
            old(self).index@[i as int].key@ == key@,
            value@.len() > old(self).index@[i as int].slot.space,
            old(self).last_cursor + value@.len() <= usize::MAX,
        ensures
            final(self).wf(),
            Self::update_transition(*old(self), *final(self), key@, value@),
    {
        let ghost pre = *old(self);
        let ghost n = value@.len() as int;
        proof {
            lemma_entry_lookup(pre.index@, key@, i as int);
        }
        let ghost s = pre.index@[i as int].slot;
        let deleted = self.delete_kv(key);
        let ghost mid = *self;
        proof {
            assert(deleted == Ok::<(), KVError>(()));
        }
        let inserted = self.insert_kv(key, value);
        proof {
            assert(inserted == Ok::<(), KVError>(()));
            let post = *self;
            // A fit for the new length in the intermediate list is a fit in
            // the original one: the released range is too small to count.
            if s.cursor + s.space != pre.last_cursor {
                lemma_release_then_retrieve(
                    pre.freelist.list@,
                    mid.freelist.list@,
                    post.freelist.list@,
                    s,
                    post.slot_of(key@).cursor as int,
                    n,
                );
            }
            // Every key other than the updated one passes unchanged through
            // both steps.
            assert forall|k2: Seq<char>| k2 != key@ implies ((post.has_key(k2)
                <==> pre.has_key(k2)) && (pre.has_key(k2) ==> post.slot_of(k2) == pre.slot_of(k2)
                && post.value_of(k2) == pre.value_of(k2))) by {
                assert(mid.has_key(k2) <==> pre.has_key(k2));
                assert(post.has_key(k2) <==> mid.has_key(k2));
            }
        }
    }

    /// Read the value stored for `key`: exactly the bytes of the slot the
    /// index binds to it.  Fails if and only if the key is absent; the store
    /// is never changed.
    pub fn get_value(&mut self, key: &String) -> (r: Result<Vec<u8>, KVError>)
        requires
            old(self).wf(),
        ensures
            final(self).wf(),
            Self::unchanged(*old(self), *final(self)),
            old(self).has_key(key@) ==> (r matches Ok(v) && v@ == old(self).value_of(key@)),
            !old(self).has_key(key@) ==> r == Err::<Vec<u8>, KVError>(KVError::KeyDoesNotExist),
    {
        match self.find_key(key) {
            Some(i) => {
                let slot = self.index[i].slot;
                proof {
                    lemma_entry_lookup(self.index@, key@, i as int);
                }
                let bytes = read_range(&self.data, slot.cursor, slot.space);
                Ok(bytes)
            },
            None => Err(KVError::KeyDoesNotExist),
        }
    }
}

/// No-overlap law: at any reachable state, the byte ranges that two
/// different keys occupy never overlap.
pub proof fn lemma_no_overlap(p: Persister, k1: Seq<char>, k2: Seq<char>)
    requires
        p.wf(),
        p.has_key(k1),
        p.has_key(k2),
        k1 != k2,
    ensures
        slots_disjoint(p.slot_of(k1), p.slot_of(k2)),
{
    let i1 = choose|i: int| 0 <= i < p.index@.len() && (#[trigger] p.index@[i]).key@ == k1;
    let i2 = choose|i: int| 0 <= i < p.index@.len() && (#[trigger] p.index@[i]).key@ == k2;
    lemma_entry_lookup(p.index@, k1, i1);
    lemma_entry_lookup(p.index@, k2, i2);
}

/// Conservation law: the running counter of free bytes equals the sum of the
/// free slots' lengths, and every offset below the append cursor is covered
/// by exactly one slot — occupied or free, never both, never two of either.
pub proof fn lemma_conservation(p: Persister, o: int)
    requires
        p.wf(),
        0 <= o < p.last_cursor,
    ensures
        p.freelist.total_free_space as int == sum_space(p.freelist.list@),
        occ_covers(p.index@, o) || list_covers(p.freelist.list@, o),
        !(occ_covers(p.index@, o) && list_covers(p.freelist.list@, o)),
        forall|i: int, j: int|
            0 <= i < p.index@.len() && 0 <= j < p.index@.len() && slot_covers(
                (#[trigger] p.index@[i]).slot,
                o,
            ) && slot_covers((#[trigger] p.index@[j]).slot, o) ==> i == j,
        forall|i: int, j: int|
            0 <= i < p.freelist.list@.len() && 0 <= j < p.freelist.list@.len() && slot_covers(
                #[trigger] p.freelist.list@[i],
                o,
            ) && slot_covers(#[trigger] p.freelist.list@[j], o) ==> i == j,
{
    if occ_covers(p.index@, o) && list_covers(p.freelist.list@, o) {
        let i = choose|i: int| 0 <= i < p.index@.len() && slot_covers(
            (#[trigger] p.index@[i]).slot,
            o,
        );
        let j = choose|j: int| 0 <= j < p.freelist.list@.len() && slot_covers(
            #[trigger] p.freelist.list@[j],
            o,
        );
        lemma_disjoint_covers(p.index@[i].slot, p.freelist.list@[j], o);
    }
    assert forall|i: int, j: int|
        0 <= i < p.index@.len() && 0 <= j < p.index@.len() && slot_covers(
            (#[trigger] p.index@[i]).slot,
            o,
        ) && slot_covers((#[trigger] p.index@[j]).slot, o) implies i == j by {
        if i != j {
            lemma_disjoint_covers(p.index@[i].slot, p.index@[j].slot, o);
        }
    }
    assert forall|i: int, j: int|
        0 <= i < p.freelist.list@.len() && 0 <= j < p.freelist.list@.len() && slot_covers(
            #[trigger] p.freelist.list@[i],
            o,
        ) && slot_covers(#[trigger] p.freelist.list@[j], o) implies i == j by {
        if i != j {
            lemma_disjoint_covers(p.freelist.list@[i], p.freelist.list@[j], o);
        }
    }
}

/// Round-trip law: after a successful insert of `(k, v)`, the value stored
/// for `k` is `v`, byte for byte — so a `get_value` now returns exactly `v`,
/// for any `v` including the empty one.
pub proof fn lemma_round_trip(pre: Persister, post: Persister, k: Seq<char>, v: Seq<u8>)
    requires
        Persister::insert_transition(pre, post, k, v),
    ensures
        post.has_key(k),
        post.value_of(k) == v,
{
}

/// Reuse law: deleting a key and then inserting a value whose length exactly
/// matches the freed range never grows the append cursor — the freed space
/// (or the pulled-back cursor) satisfies the new allocation.
pub proof fn lemma_reuse(
    p0: Persister,
    p1: Persister,
    p2: Persister,
    k1: Seq<char>,
    k2: Seq<char>,
    v: Seq<u8>,
)
    requires
        p0.wf(),
        p0.has_key(k1),
        Persister::delete_transition(p0, p1, k1),
        Persister::insert_transition(p1, p2, k2, v),
        v.len() == p0.slot_of(k1).space,
    ensures
        p2.last_cursor <= p0.last_cursor,
{
    let s = p0.slot_of(k1);
    let i = choose|i: int| 0 <= i < p0.index@.len() && (#[trigger] p0.index@[i]).key@ == k1;
    lemma_entry_lookup(p0.index@, k1, i);
    if s.cursor + s.space == p0.last_cursor {
        assert(p1.last_cursor == s.cursor);
        if v.len() > 0 {
            if has_fit(p1.freelist.list@, v.len() as int) {
                assert(p2.last_cursor == p1.last_cursor);
            } else {
                assert(p2.last_cursor == p1.last_cursor + v.len());
            }
        }
    } else {
        assert(p1.last_cursor == p0.last_cursor);
        if v.len() > 0 {
            assert(s.space >= v.len() as int);
            assert(has_fit(p1.freelist.list@, v.len() as int));
            assert(p2.last_cursor == p1.last_cursor);
        }
    }
}

/// Reuse law, exact offset: when the deleted range was not the trailing one
/// and its slot comes first in the slot order among the free slots that
/// could hold the new value, an insert of exactly the freed length lands at
/// the freed offset.  (With the range trailing, or with an equal-sized free
/// slot at a lower offset, the allocator may satisfy the insert elsewhere;
/// the cursor still never grows.)
pub proof fn lemma_reuse_offset(
    p0: Persister,
    p1: Persister,
    p2: Persister,
    k1: Seq<char>,
    k2: Seq<char>,
    v: Seq<u8>,
)
    requires
        p0.wf(),
        p0.has_key(k1),
        Persister::delete_transition(p0, p1, k1),
        Persister::insert_transition(p1, p2, k2, v),
        v.len() == p0.slot_of(k1).space,
        v.len() > 0,
        p0.slot_of(k1).cursor + p0.slot_of(k1).space != p0.last_cursor,
        forall|j: int|
            0 <= j < p0.freelist.list@.len() && (#[trigger] p0.freelist.list@[j]).space >= v.len()
                ==> slot_le(p0.slot_of(k1), p0.freelist.list@[j]),
    ensures
        p2.slot_of(k2).cursor == p0.slot_of(k1).cursor,
        p2.last_cursor == p0.last_cursor,
{
    let s = p0.slot_of(k1);
    let n = v.len() as int;
    let fl0 = p0.freelist.list@;
    let fl1 = p1.freelist.list@;
    let fl2 = p2.freelist.list@;
    let p = choose|p: int| 0 <= p <= fl0.len() && fl1 == #[trigger] fl0.insert(p, s);
    fl0.insert_ensures(p, s);
    assert(fl1[p] == s);
    assert(has_fit(fl1, n));
    let c = p2.slot_of(k2).cursor as int;
    assert(retrieve_shape(fl1, fl2, c, n));
    let bi = choose|bi: int|
        {
            &&& 0 <= bi < fl1.len()
            &&& (#[trigger] fl1[bi]).cursor == c
            &&& fl1[bi].space >= n
            &&& (forall|j: int|
                0 <= j < fl1.len() && (#[trigger] fl1[j]).space >= n ==> slot_le(fl1[bi], fl1[j]))
            &&& (fl1[bi].space == n ==> fl2 == fl1.remove(bi))
            &&& (fl1[bi].space > n ==> (exists|rp: int|
                0 <= rp <= fl1.remove(bi).len() && fl2 == #[trigger] fl1.remove(bi).insert(
                    rp,
                    Slot { cursor: (c + n) as usize, space: (fl1[bi].space - n) as usize },
                )))
        };
    assert(slot_le(fl1[bi], fl1[p]));
    if bi < p {
        assert(fl1[bi] == fl0[bi]);
        assert(slot_le(s, fl0[bi]));
        assert(fl1[bi] == s);
    } else if bi > p {
        assert(fl1[bi] == fl0[bi - 1]);
        assert(slot_le(s, fl0[bi - 1]));
        assert(fl1[bi] == s);
    }
    assert(fl1[bi].cursor == s.cursor);
}

} // verus!
