//! The free-space allocator: an ordered collection of free slots plus a
//! running total of free bytes.

use vstd::prelude::*;
use crate::slot::{lemma_disjoint_covers, slot_covers, slot_le, slot_wf, slots_disjoint, Slot};

verus! {

/// Sequence sorted by the slot total order (`space`, then `cursor`).
pub open spec fn sorted_slots(l: Seq<Slot>) -> bool {
    forall|i: int, j: int| 0 <= i < j < l.len() ==> slot_le(l[i], l[j])
}

/// Every slot's end offset fits the machine.
pub open spec fn all_slots_wf(l: Seq<Slot>) -> bool {
    forall|i: int| 0 <= i < l.len() ==> slot_wf(#[trigger] l[i])
}

/// Offset `o` lies inside some slot of the list.
pub open spec fn list_covers(l: Seq<Slot>, o: int) -> bool {
    exists|i: int| 0 <= i < l.len() && slot_covers(#[trigger] l[i], o)
}

/// No two slots of the list share an offset.
pub open spec fn pairwise_disjoint(l: Seq<Slot>) -> bool {
    forall|i: int, j: int|
        0 <= i < l.len() && 0 <= j < l.len() && i != j ==> slots_disjoint(
            #[trigger] l[i],
            #[trigger] l[j],
        )
}

/// Some slot of the list offers at least `n` bytes.
pub open spec fn has_fit(l: Seq<Slot>, n: int) -> bool {
    exists|i: int| 0 <= i < l.len() && #[trigger] l[i].space >= n
}

/// Order by offset, ties broken by `space`: the order in which adjacency
/// chains are scanned during compaction.
pub open spec fn cursor_le(a: Slot, b: Slot) -> bool {
    a.cursor < b.cursor || (a.cursor == b.cursor && a.space <= b.space)
}

pub open spec fn cursor_sorted(l: Seq<Slot>) -> bool {
    forall|i: int, j: int| 0 <= i < j < l.len() ==> cursor_le(l[i], l[j])
}

/// No two slots of the list are adjacent: every merge has been performed.
pub open spec fn no_neighbours(l: Seq<Slot>) -> bool {
    forall|i: int, j: int|
        0 <= i < l.len() && 0 <= j < l.len() && i != j ==> !Slot::spec_neighbours(
            #[trigger] l[i],
            #[trigger] l[j],
        )
}

/// Every slot covers at least one byte.
pub open spec fn all_positive(l: Seq<Slot>) -> bool {
    forall|i: int| 0 <= i < l.len() ==> #[trigger] l[i].space > 0
}

/// Every slot of `newl` is a slot of `oldl`, or a non-empty range contained
/// in one of `oldl`'s slots.
pub open spec fn within_some_slot(newl: Seq<Slot>, oldl: Seq<Slot>) -> bool {
    forall|i: int|
        0 <= i < newl.len() ==> (exists|j: int|
            0 <= j < oldl.len() && (#[trigger] newl[i] == oldl[j] || (oldl[j].cursor
                <= newl[i].cursor && newl[i].cursor + newl[i].space <= oldl[j].cursor
                + oldl[j].space && newl[i].space > 0)))
}

/// Some slot of `l` starts at `c` and offers at least `n` bytes, and no slot
/// that offers at least `n` bytes is smaller than it.
pub open spec fn best_fit_at(l: Seq<Slot>, c: int, n: int) -> bool {
    exists|i: int|
        0 <= i < l.len() && #[trigger] l[i].cursor == c && l[i].space >= n && (forall|j: int|
            0 <= j < l.len() && #[trigger] l[j].space >= n ==> l[i].space <= l[j].space)
}

/// The exact shape of a successful retrieval of `n` bytes at offset `c`:
/// the taken slot is the first fit in the slot order (the smallest, and at
/// the lowest offset among equal sizes); it is removed whole, and when it
/// was larger than asked, the single remainder `{c + n, size - n}` is the
/// one new slot.
pub open spec fn retrieve_shape(pre: Seq<Slot>, post: Seq<Slot>, c: int, n: int) -> bool {
    exists|bi: int|
        {
            &&& 0 <= bi < pre.len()
            &&& (#[trigger] pre[bi]).cursor == c
            &&& pre[bi].space >= n
            &&& (forall|j: int|
                0 <= j < pre.len() && (#[trigger] pre[j]).space >= n ==> slot_le(pre[bi], pre[j]))
            &&& (pre[bi].space == n ==> post == pre.remove(bi))
            &&& (pre[bi].space > n ==> (exists|rp: int|
                0 <= rp <= pre.remove(bi).len() && post == #[trigger] pre.remove(bi).insert(
                    rp,
                    Slot { cursor: (c + n) as usize, space: (pre[bi].space - n) as usize },
                )))
        }
}

/// Offset `o` lies below the end of some slot of the list.
pub open spec fn below_end(l: Seq<Slot>, o: int) -> bool {
    exists|i: int| 0 <= i < l.len() && o < (#[trigger] l[i]).cursor + l[i].space
}

/// Sum of the slots' lengths.
pub open spec fn sum_space(l: Seq<Slot>) -> int
    decreases l.len(),
{
    if l.len() == 0 {
        0
    } else {
        l[0].space + sum_space(l.drop_first())
    }
}

pub proof fn lemma_sum_space_nonneg(l: Seq<Slot>)
    ensures
        sum_space(l) >= 0,
    decreases l.len(),
{
    if l.len() > 0 {
        lemma_sum_space_nonneg(l.drop_first());
    }
}

/// What inserting one slot at position `pos` does to the sum, the covered
/// offsets, the available fits, well-formedness and disjointness.
pub proof fn lemma_insert_facts(l: Seq<Slot>, pos: int, v: Slot)
    requires
        0 <= pos <= l.len(),
    ensures
        sum_space(l.insert(pos, v)) == sum_space(l) + v.space,
        forall|o: int|
            list_covers(l.insert(pos, v), o) <==> (list_covers(l, o) || slot_covers(v, o)),
        forall|n: int| has_fit(l.insert(pos, v), n) <==> (has_fit(l, n) || v.space >= n),
        all_slots_wf(l) && slot_wf(v) ==> all_slots_wf(l.insert(pos, v)),
        (pairwise_disjoint(l) && (forall|j: int|
            0 <= j < l.len() ==> slots_disjoint(v, #[trigger] l[j]))) ==> pairwise_disjoint(
            l.insert(pos, v),
        ),
        forall|i: int|
            0 <= i < l.insert(pos, v).len() ==> ((exists|j: int|
                0 <= j < l.len() && #[trigger] l.insert(pos, v)[i] == l[j]) || l.insert(pos, v)[i]
                == v),
    decreases pos,
{
    let r = l.insert(pos, v);
    l.insert_ensures(pos, v);
    if pos == 0 {
        assert(r.drop_first() =~= l);
        assert(sum_space(r) == sum_space(l) + v.space);
    } else {
        assert(r.drop_first() =~= l.drop_first().insert(pos - 1, v));
        lemma_insert_facts(l.drop_first(), pos - 1, v);
        assert(sum_space(r) == sum_space(l) + v.space);
    }
    assert forall|o: int| list_covers(r, o) implies (list_covers(l, o) || slot_covers(v, o)) by {
        let i = choose|i: int| 0 <= i < r.len() && slot_covers(r[i], o);
        if i < pos {
            assert(slot_covers(l[i], o));
        } else if i > pos {
            assert(slot_covers(l[i - 1], o));
        }
    }
    assert forall|o: int| (list_covers(l, o) || slot_covers(v, o)) implies list_covers(r, o) by {
        if list_covers(l, o) {
            let i = choose|i: int| 0 <= i < l.len() && slot_covers(l[i], o);
            if i < pos {
                assert(slot_covers(r[i], o));
            } else {
                assert(slot_covers(r[i + 1], o));
            }
        } else {
            assert(slot_covers(r[pos], o));
        }
    }
    assert forall|n: int| has_fit(r, n) implies (has_fit(l, n) || v.space >= n) by {
        let i = choose|i: int| 0 <= i < r.len() && r[i].space >= n;
        if i < pos {
            assert(l[i].space >= n);
        } else if i > pos {
            assert(l[i - 1].space >= n);
        }
    }
    assert forall|n: int| (has_fit(l, n) || v.space >= n) implies has_fit(r, n) by {
        if has_fit(l, n) {
            let i = choose|i: int| 0 <= i < l.len() && l[i].space >= n;
            if i < pos {
                assert(r[i].space >= n);
            } else {
                assert(r[i + 1].space >= n);
            }
        } else {
            assert(r[pos].space >= n);
        }
    }
    assert forall|i: int| 0 <= i < r.len() implies ((exists|j: int|
        0 <= j < l.len() && #[trigger] r[i] == l[j]) || r[i] == v) by {
        if i < pos {
            assert(r[i] == l[i]);
        } else if i > pos {
            assert(r[i] == l[i - 1]);
        }
    }
    if all_slots_wf(l) && slot_wf(v) {
        assert forall|i: int| 0 <= i < r.len() implies slot_wf(#[trigger] r[i]) by {
            if i < pos {
                assert(r[i] == l[i]);
            } else if i > pos {
                assert(r[i] == l[i - 1]);
            }
        }
    }
    if pairwise_disjoint(l) && (forall|j: int|
        0 <= j < l.len() ==> slots_disjoint(v, #[trigger] l[j])) {
        assert forall|i: int, j: int|
            0 <= i < r.len() && 0 <= j < r.len() && i != j implies slots_disjoint(
            #[trigger] r[i],
            #[trigger] r[j],
        ) by {
            let io = if i < pos { i } else { i - 1 };
            let jo = if j < pos { j } else { j - 1 };
            if i != pos && j != pos {
                assert(r[i] == l[io] && r[j] == l[jo]);
            } else if i == pos {
                assert(r[j] == l[jo]);
                assert(slots_disjoint(v, l[jo]));
            } else {
                assert(r[i] == l[io]);
                assert(slots_disjoint(v, l[io]));
            }
        }
    }
}

/// What removing the slot at position `pos` does to the sum, the covered
/// offsets, well-formedness, disjointness and sortedness.
pub proof fn lemma_remove_facts(l: Seq<Slot>, pos: int)
    requires
        0 <= pos < l.len(),
    ensures
        sum_space(l.remove(pos)) == sum_space(l) - l[pos].space,
        pairwise_disjoint(l) ==> (forall|o: int|
            list_covers(l.remove(pos), o) <==> (list_covers(l, o) && !slot_covers(l[pos], o))),
        forall|o: int| list_covers(l.remove(pos), o) ==> list_covers(l, o),
        forall|o: int|
            list_covers(l, o) ==> (list_covers(l.remove(pos), o) || slot_covers(l[pos], o)),
        all_slots_wf(l) ==> all_slots_wf(l.remove(pos)),
        pairwise_disjoint(l) ==> pairwise_disjoint(l.remove(pos)),
        sorted_slots(l) ==> sorted_slots(l.remove(pos)),
        forall|i: int|
            0 <= i < l.remove(pos).len() ==> (exists|j: int|
                0 <= j < l.len() && #[trigger] l.remove(pos)[i] == l[j]),
    decreases pos,
{
    let r = l.remove(pos);
    l.remove_ensures(pos);
    if pos == 0 {
        assert(r =~= l.drop_first());
        assert(sum_space(r) == sum_space(l) - l[0].space);
    } else {
        assert(r.drop_first() =~= l.drop_first().remove(pos - 1));
        lemma_remove_facts(l.drop_first(), pos - 1);
        assert(sum_space(r) == sum_space(l) - l[pos].space);
    }
    assert forall|i: int| 0 <= i < r.len() implies (exists|j: int|
        0 <= j < l.len() && #[trigger] r[i] == l[j]) by {
        if i < pos {
            assert(r[i] == l[i]);
        } else {
            assert(r[i] == l[i + 1]);
        }
    }
    assert forall|o: int| list_covers(r, o) implies list_covers(l, o) by {
        let i = choose|i: int| 0 <= i < r.len() && slot_covers(r[i], o);
        if i < pos {
            assert(slot_covers(l[i], o));
        } else {
            assert(slot_covers(l[i + 1], o));
        }
    }
    assert forall|o: int| list_covers(l, o) implies (list_covers(r, o) || slot_covers(
        l[pos],
        o,
    )) by {
        let i = choose|i: int| 0 <= i < l.len() && slot_covers(l[i], o);
        if i < pos {
            assert(slot_covers(r[i], o));
        } else if i > pos {
            assert(slot_covers(r[i - 1], o));
        }
    }
    if pairwise_disjoint(l) {
        assert forall|o: int| (list_covers(l, o) && !slot_covers(l[pos], o)) implies list_covers(
            r,
            o,
        ) by {
            let i = choose|i: int| 0 <= i < l.len() && slot_covers(l[i], o);
            if i < pos {
                assert(slot_covers(r[i], o));
            } else {
                assert(slot_covers(r[i - 1], o));
            }
        }
        assert forall|o: int| list_covers(r, o) implies !slot_covers(l[pos], o) by {
            let i = choose|i: int| 0 <= i < r.len() && slot_covers(r[i], o);
            let j = if i < pos { i } else { i + 1 };
            assert(slot_covers(l[j], o));
            lemma_disjoint_covers(l[j], l[pos], o);
        }
        assert forall|i: int, j: int|
            0 <= i < r.len() && 0 <= j < r.len() && i != j implies slots_disjoint(
            #[trigger] r[i],
            #[trigger] r[j],
        ) by {
            let io = if i < pos { i } else { i + 1 };
            let jo = if j < pos { j } else { j + 1 };
            assert(r[i] == l[io] && r[j] == l[jo]);
        }
    }
    if all_slots_wf(l) {
        assert forall|i: int| 0 <= i < r.len() implies slot_wf(#[trigger] r[i]) by {
            let io = if i < pos { i } else { i + 1 };
            assert(r[i] == l[io]);
        }
    }
    if sorted_slots(l) {
        assert forall|i: int, j: int| 0 <= i < j < r.len() implies slot_le(r[i], r[j]) by {
            let io = if i < pos { i } else { i + 1 };
            let jo = if j < pos { j } else { j + 1 };
            assert(r[i] == l[io] && r[j] == l[jo]);
        }
    }
}

/// Inserting a slot keeps every slot that was already there.
pub proof fn lemma_insert_keeps(l: Seq<Slot>, pos: int, v: Slot)
    requires
        0 <= pos <= l.len(),
    ensures
        forall|j: int|
            0 <= j < l.len() ==> (exists|i: int|
                0 <= i < l.insert(pos, v).len() && l.insert(pos, v)[i] == #[trigger] l[j]),
{
    let r = l.insert(pos, v);
    l.insert_ensures(pos, v);
    assert forall|j: int| 0 <= j < l.len() implies (exists|i: int|
        0 <= i < r.len() && r[i] == #[trigger] l[j]) by {
        if j < pos {
            assert(r[j] == l[j]);
        } else {
            assert(r[j + 1] == l[j]);
        }
    }
}

/// A best fit in a list that was grown by one slot too small to fit is a
/// best fit in the original list.
pub proof fn lemma_best_fit_transfer(fl0: Seq<Slot>, flm: Seq<Slot>, s: Slot, c: int, n: int)
    requires
        best_fit_at(flm, c, n),
        s.space < n,
        forall|i: int|
            0 <= i < flm.len() ==> ((exists|j: int| 0 <= j < fl0.len() && #[trigger] flm[i]
                == fl0[j]) || flm[i] == s),
        forall|j: int|
            0 <= j < fl0.len() ==> (exists|i: int|
                0 <= i < flm.len() && flm[i] == #[trigger] fl0[j]),
    ensures
        best_fit_at(fl0, c, n),
{
    let bi = choose|bi: int|
        0 <= bi < flm.len() && #[trigger] flm[bi].cursor == c && flm[bi].space >= n && (forall|
            j2: int,
        |
            0 <= j2 < flm.len() && #[trigger] flm[j2].space >= n ==> flm[bi].space
                <= flm[j2].space);
    assert(flm[bi] != s);
    let j0 = choose|j0: int| 0 <= j0 < fl0.len() && #[trigger] flm[bi] == fl0[j0];
    assert(fl0[j0].cursor == c && fl0[j0].space >= n);
    assert forall|j2: int|
        0 <= j2 < fl0.len() && #[trigger] fl0[j2].space >= n implies fl0[j0].space
        <= fl0[j2].space by {
        let i2 = choose|i2: int| 0 <= i2 < flm.len() && flm[i2] == #[trigger] fl0[j2];
        assert(flm[bi].space <= flm[i2].space);
    }
}

/// Inserting at the position a binary search found keeps the list sorted.
proof fn lemma_insert_sorted(l: Seq<Slot>, pos: int, v: Slot)
    requires
        sorted_slots(l),
        0 <= pos <= l.len(),
        forall|i: int| 0 <= i < pos ==> slot_le(#[trigger] l[i], v),
        forall|i: int| pos <= i < l.len() ==> slot_le(v, #[trigger] l[i]),
    ensures
        sorted_slots(l.insert(pos, v)),
{
    let r = l.insert(pos, v);
    l.insert_ensures(pos, v);
    assert forall|i: int, j: int| 0 <= i < j < r.len() implies slot_le(r[i], r[j]) by {
        let io = if i < pos { i } else { i - 1 };
        let jo = if j < pos { j } else { j - 1 };
        if i != pos && j != pos {
            assert(r[i] == l[io] && r[j] == l[jo]);
            if io == jo {
                assert(slot_le(r[i], r[j]));
            }
        } else if i == pos {
            assert(r[j] == l[jo]);
        } else {
            assert(r[i] == l[io]);
        }
    }
}

/// The sum, the covered offsets, well-formedness, positivity, disjointness
/// and adjacency-freedom of a slot list depend only on which slots it holds,
/// not on their order.
proof fn lemma_perm_transfer(a: Seq<Slot>, b: Seq<Slot>)
    requires
        a.to_multiset() == b.to_multiset(),
    ensures
        sum_space(a) == sum_space(b),
        forall|o: int| list_covers(a, o) <==> list_covers(b, o),
        all_slots_wf(a) ==> all_slots_wf(b),
        all_positive(a) ==> all_positive(b),
        pairwise_disjoint(a) ==> pairwise_disjoint(b),
        (pairwise_disjoint(a) && no_neighbours(a)) ==> no_neighbours(b),
        forall|n: int| has_fit(a, n) <==> has_fit(b, n),
        forall|o: int| below_end(a, o) <==> below_end(b, o),
    decreases b.len(),
{
    broadcast use vstd::seq_lib::group_to_multiset_ensures;

    if b.len() == 0 {
        assert(a.to_multiset().len() == 0);
        assert(a.len() == 0);
    } else {
        let x = b[0];
        assert(b.contains(x));
        assert(a.to_multiset().count(x) > 0);
        assert(a.contains(x));
        let i = choose|i: int| 0 <= i < a.len() && a[i] == x;
        let a1 = a.remove(i);
        assert(b.drop_first() =~= b.remove(0));
        assert(a1.to_multiset() =~= b.drop_first().to_multiset());
        lemma_remove_facts(a, i);
        lemma_perm_transfer_one(a, i);
        lemma_perm_transfer(a1, b.drop_first());
        assert(sum_space(b) == x.space + sum_space(b.drop_first()));
        assert forall|o: int| list_covers(a, o) implies list_covers(b, o) by {
            if slot_covers(x, o) {
                assert(slot_covers(b[0], o));
            } else {
                assert(list_covers(a1, o) || slot_covers(a[i], o));
                assert(list_covers(b.drop_first(), o));
                let k = choose|k: int| 0 <= k < b.drop_first().len() && slot_covers(
                    b.drop_first()[k],
                    o,
                );
                assert(slot_covers(b[k + 1], o));
            }
        }
        assert forall|o: int| list_covers(b, o) implies list_covers(a, o) by {
            let k = choose|k: int| 0 <= k < b.len() && slot_covers(b[k], o);
            if k == 0 {
                assert(slot_covers(a[i], o));
            } else {
                assert(slot_covers(b.drop_first()[k - 1], o));
                assert(list_covers(a1, o));
            }
        }
        assert forall|n: int| has_fit(a, n) implies has_fit(b, n) by {
            let k = choose|k: int| 0 <= k < a.len() && a[k].space >= n;
            if a[k] == x {
                assert(b[0].space >= n);
            } else {
                let ko = if k < i { k } else { k - 1 };
                assert(a1[ko] == a[k]);
                assert(has_fit(a1, n));
                let m = choose|m: int| 0 <= m < b.drop_first().len() && b.drop_first()[m].space
                    >= n;
                assert(b[m + 1].space >= n);
            }
        }
        assert forall|n: int| has_fit(b, n) implies has_fit(a, n) by {
            let k = choose|k: int| 0 <= k < b.len() && b[k].space >= n;
            if k == 0 {
                assert(a[i].space >= n);
            } else {
                assert(b.drop_first()[k - 1].space >= n);
                assert(has_fit(a1, n));
                let m = choose|m: int| 0 <= m < a1.len() && a1[m].space >= n;
                let mo = if m < i { m } else { m + 1 };
                assert(a[mo] == a1[m]);
            }
        }
        assert forall|o: int| below_end(a, o) implies below_end(b, o) by {
            let k = choose|k: int| 0 <= k < a.len() && o < a[k].cursor + a[k].space;
            if a[k] == x {
                assert(o < b[0].cursor + b[0].space);
            } else {
                let ko = if k < i { k } else { k - 1 };
                assert(a1[ko] == a[k]);
                assert(below_end(a1, o));
                let m = choose|m: int|
                    0 <= m < b.drop_first().len() && o < b.drop_first()[m].cursor
                        + b.drop_first()[m].space;
                assert(o < b[m + 1].cursor + b[m + 1].space);
            }
        }
        assert forall|o: int| below_end(b, o) implies below_end(a, o) by {
            let k = choose|k: int| 0 <= k < b.len() && o < b[k].cursor + b[k].space;
            if k == 0 {
                assert(o < a[i].cursor + a[i].space);
            } else {
                assert(o < b.drop_first()[k - 1].cursor + b.drop_first()[k - 1].space);
                assert(below_end(a1, o));
                let m = choose|m: int| 0 <= m < a1.len() && o < a1[m].cursor + a1[m].space;
                let mo = if m < i { m } else { m + 1 };
                assert(a[mo] == a1[m]);
            }
        }
        if all_positive(a) {
            assert forall|k: int| 0 <= k < b.len() implies #[trigger] b[k].space > 0 by {
                if k == 0 {
                    assert(b[0] == a[i]);
                } else {
                    assert(b.drop_first()[k - 1] == b[k]);
                }
            }
        }
        if all_slots_wf(a) {
            assert forall|k: int| 0 <= k < b.len() implies slot_wf(#[trigger] b[k]) by {
                if k == 0 {
                    assert(b[0] == a[i]);
                } else {
                    assert(b.drop_first()[k - 1] == b[k]);
                }
            }
        }
        if pairwise_disjoint(a) {
            assert forall|k: int, m: int|
                0 <= k < b.len() && 0 <= m < b.len() && k != m implies slots_disjoint(
                #[trigger] b[k],
                #[trigger] b[m],
            ) by {
                if k != 0 && m != 0 {
                    assert(b.drop_first()[k - 1] == b[k] && b.drop_first()[m - 1] == b[m]);
                } else {
                    let other = if k == 0 { m } else { k };
                    assert(b.drop_first()[other - 1] == b[other]);
                    lemma_elem_vs_removed(a, i, a1, b[other]);
                    assert(slots_disjoint(x, b[other]) && slots_disjoint(b[other], x));
                }
            }
            if no_neighbours(a) {
                assert forall|k: int, m: int|
                    0 <= k < b.len() && 0 <= m < b.len() && k != m implies !Slot::spec_neighbours(
                    #[trigger] b[k],
                    #[trigger] b[m],
                ) by {
                    if k != 0 && m != 0 {
                        assert(b.drop_first()[k - 1] == b[k] && b.drop_first()[m - 1] == b[m]);
                    } else {
                        let other = if k == 0 { m } else { k };
                        assert(b.drop_first()[other - 1] == b[other]);
                        lemma_elem_vs_removed(a, i, a1, b[other]);
                        assert(!Slot::spec_neighbours(x, b[other]) && !Slot::spec_neighbours(
                            b[other],
                            x,
                        ));
                    }
                }
            }
        }
    }
}

/// Helper for `lemma_perm_transfer`: nothing to prove on its own, but keeps
/// the main induction readable.
proof fn lemma_perm_transfer_one(a: Seq<Slot>, i: int)
    requires
        0 <= i < a.len(),
    ensures
        forall|k: int|
            0 <= k < a.remove(i).len() ==> #[trigger] a.remove(i)[k] == a[if k < i {
                k
            } else {
                k + 1
            }],
{
    a.remove_ensures(i);
    assert forall|k: int| 0 <= k < a.remove(i).len() implies #[trigger] a.remove(i)[k] == a[if k
        < i {
        k
    } else {
        k + 1
    }] by {}
}

/// In a pairwise-disjoint (and adjacency-free) list, the slot at `i` relates
/// to any value present elsewhere in the list the way the invariant says.
proof fn lemma_elem_vs_removed(a: Seq<Slot>, i: int, a1: Seq<Slot>, y: Slot)
    requires
        0 <= i < a.len(),
        a1 == a.remove(i),
        a1.to_multiset().contains(y),
        pairwise_disjoint(a),
    ensures
        slots_disjoint(a[i], y),
        slots_disjoint(y, a[i]),
        no_neighbours(a) ==> (!Slot::spec_neighbours(a[i], y) && !Slot::spec_neighbours(y, a[i])),
{
    broadcast use vstd::seq_lib::group_to_multiset_ensures;

    assert(a1.contains(y));
    let k = choose|k: int| 0 <= k < a1.len() && a1[k] == y;
    lemma_perm_transfer_one(a, i);
    let ko = if k < i { k } else { k + 1 };
    assert(a[ko] == y);
}

pub struct FreeList {
    pub list: Vec<Slot>,
    pub total_free_space: usize,
}

impl FreeList {
    /// The allocator's internal invariant: the list is sorted by the slot
    /// order, every slot is well formed, and the running counter equals the
    /// sum of the members' lengths.
    pub open spec fn wf(self) -> bool {
        &&& sorted_slots(self.list@)
        &&& all_slots_wf(self.list@)
        &&& self.total_free_space as int == sum_space(self.list@)
    }

    pub fn new() -> (r: Self)
        ensures
            r.wf(),
            r.list@.len() == 0,
            r.total_free_space == 0,
    {
        Self { list: Vec::new(), total_free_space: 0 }
    }

    /// Rebuild the allocator from the set of currently occupied slots: the
    /// free slots are exactly the gaps the occupied slots leave below their
    /// highest end offset.
    pub fn new_from_index(used_slot_list: Vec<Slot>) -> (r: Self)
        requires
            pairwise_disjoint(used_slot_list@),
            all_slots_wf(used_slot_list@),
        ensures
            r.wf(),
            pairwise_disjoint(r.list@),
            all_positive(r.list@),
            all_positive(used_slot_list@) ==> no_neighbours(r.list@),
            forall|o: int|
                list_covers(r.list@, o) <==> (0 <= o && below_end(used_slot_list@, o)
                    && !list_covers(used_slot_list@, o)),
    {
        let ghost orig = used_slot_list@;
        let occ = selection_sort(used_slot_list, true);
        proof {
            lemma_perm_transfer(orig, occ@);
            assert forall|i: int, j: int| 0 <= i < j < occ@.len() implies cursor_le(
                occ@[i],
                occ@[j],
            ) by {
                assert(slot_ord(true, occ@[i], occ@[j]));
            }
            assert(occ@.subrange(0, 0) =~= Seq::<Slot>::empty());
        }
        let mut gaps: Vec<Slot> = Vec::new();
        let mut total: usize = 0;
        let mut prev_end: usize = 0;
        let mut i: usize = 0;
        while i < occ.len()
            invariant
                i <= occ@.len(),
                cursor_sorted(occ@),
                all_slots_wf(occ@),
                pairwise_disjoint(occ@),
                total as int == sum_space(gaps@),
                total <= prev_end,
                all_slots_wf(gaps@),
                pairwise_disjoint(gaps@),
                all_positive(gaps@),
                forall|k: int|
                    0 <= k < gaps@.len() ==> (#[trigger] gaps@[k]).cursor + gaps@[k].space
                        <= prev_end,
                all_positive(occ@) ==> (forall|k: int|
                    0 <= k < gaps@.len() ==> (#[trigger] gaps@[k]).cursor + gaps@[k].space
                        < prev_end),
                all_positive(occ@) ==> strictly_separated(gaps@),
                prev_end == 0 || exists|k: int|
                    0 <= k < i && (#[trigger] occ@[k]).cursor + occ@[k].space == prev_end,
                forall|o: int|
                    list_covers(gaps@, o) <==> (0 <= o < prev_end && !list_covers(
                        occ@.subrange(0, i as int),
                        o,
                    )),
                forall|o: int|
                    0 <= o ==> (below_end(occ@.subrange(0, i as int), o) <==> o < prev_end),
            decreases occ@.len() - i,
        {
            let cur = occ[i];
            let ghost pre = occ@.subrange(0, i as int);
            let ghost post = occ@.subrange(0, i as int + 1);
            let ghost gaps0 = gaps@;
            let ghost pe0 = prev_end as int;
            proof {
                assert forall|o: int| list_covers(pre, o) implies o < pe0 by {
                    let k = choose|k: int| 0 <= k < pre.len() && slot_covers(#[trigger] pre[k], o);
                    assert(o < pre[k].cursor + pre[k].space);
                    assert(below_end(pre, o));
                }
                assert(post =~= pre.push(cur));
                lemma_push_facts(pre, cur);
                assert forall|o: int| 0 <= o implies (below_end(post, o) <==> (below_end(pre, o)
                    || o < cur.cursor + cur.space)) by {
                    if below_end(post, o) {
                        let k = choose|k: int| 0 <= k < post.len() && o < post[k].cursor
                            + post[k].space;
                        if k < pre.len() {
                            assert(o < pre[k].cursor + pre[k].space);
                        }
                    }
                    if below_end(pre, o) {
                        let k = choose|k: int| 0 <= k < pre.len() && o < pre[k].cursor
                            + pre[k].space;
                        assert(o < post[k].cursor + post[k].space);
                    }
                    if o < cur.cursor + cur.space {
                        assert(o < post[i as int].cursor + post[i as int].space);
                    }
                }
                if cur.space > 0 && cur.cursor < prev_end {
                    let k = choose|k: int|
                        0 <= k < i && (#[trigger] occ@[k]).cursor + occ@[k].space == prev_end;
                    assert(cursor_le(occ@[k], occ@[i as int]));
                    assert(slot_covers(occ@[k], cur.cursor as int));
                    assert(slot_covers(cur, cur.cursor as int));
                    assert(slots_disjoint(occ@[k], occ@[i as int]));
                    assert(false);
                }
            }
            if cur.cursor > prev_end {
                let gap = Slot { cursor: prev_end, space: cur.cursor - prev_end };
                proof {
                    lemma_push_facts(gaps@, gap);
                    assert forall|k: int|
                        0 <= k < gaps@.len() implies slots_disjoint(gap, #[trigger] gaps@[k])
                        && slots_disjoint(gaps@[k], gap) by {
                        assert(gaps@[k].cursor + gaps@[k].space <= prev_end);
                    }
                }
                total = total + gap.space;
                gaps.push(gap);
            }
            let cur_end = cur.cursor + cur.space;
            if cur_end > prev_end {
                prev_end = cur_end;
            }
            proof {
                assert forall|o: int|
                    list_covers(gaps@, o) <==> (0 <= o < prev_end && !list_covers(post, o)) by {
                    if o < 0 {
                        assert(!list_covers(gaps0, o));
                    } else if o < pe0 {
                        assert(!slot_covers(cur, o));
                    } else if cur.cursor as int > pe0 && o < cur.cursor {
                        assert(slot_covers(Slot { cursor: pe0 as usize, space: (cur.cursor - pe0) as usize }, o));
                        assert(!list_covers(pre, o));
                        assert(!slot_covers(cur, o));
                    } else if slot_covers(cur, o) {
                        assert(!list_covers(gaps0, o));
                    } else {
                        assert(!list_covers(gaps0, o));
                        assert(o >= prev_end);
                    }
                }
            }
            i = i + 1;
        }
        proof {
            assert(occ@.subrange(0, occ@.len() as int) =~= occ@);
            if all_positive(orig) {
                lemma_sep_props(gaps@);
            }
        }
        let list = selection_sort(gaps, false);
        proof {
            lemma_perm_transfer(gaps@, list@);
            lemma_perm_transfer(list@, gaps@);
            assert forall|i2: int, j2: int| 0 <= i2 < j2 < list@.len() implies slot_le(
                list@[i2],
                list@[j2],
            ) by {
                assert(slot_ord(false, list@[i2], list@[j2]));
            }
        }
        Self { list, total_free_space: total }
    }

    /// First position whose slot is at least `value` in the slot order; the
    /// position where `value` can be inserted without breaking the order.
    fn find_insert_pos(&self, value: &Slot) -> (pos: usize)
        requires
            sorted_slots(self.list@),
        ensures
            pos <= self.list@.len(),
            forall|i: int| 0 <= i < pos ==> slot_le(#[trigger] self.list@[i], *value),
            forall|i: int| pos <= i < self.list@.len() ==> slot_le(*value, #[trigger] self.list@[i]),
    {
        let mut lo: usize = 0;
        let mut hi: usize = self.list.len();
        while lo < hi
            invariant
                lo <= hi <= self.list@.len(),
                sorted_slots(self.list@),
                forall|i: int| 0 <= i < lo ==> slot_le(#[trigger] self.list@[i], *value),
                forall|i: int| hi <= i < self.list@.len() ==> slot_le(*value, #[trigger] self.list@[i]),
            decreases hi - lo,
        {
            let mid: usize = lo + (hi - lo) / 2;
            let s = self.list[mid];
            let le_mid = value.space < s.space || (value.space == s.space && value.cursor <= s.cursor);
            if le_mid {
                proof {
                    assert forall|i: int| mid <= i < self.list@.len() implies slot_le(
                        *value,
                        #[trigger] self.list@[i],
                    ) by {
                        if i > mid {
                            assert(slot_le(self.list@[mid as int], self.list@[i]));
                        }
                    }
                }
                hi = mid;
            } else {
                proof {
                    assert forall|i: int| 0 <= i <= mid implies slot_le(
                        #[trigger] self.list@[i],
                        *value,
                    ) by {
                        if i < mid {
                            assert(slot_le(self.list@[i], self.list@[mid as int]));
                        }
                    }
                }
                lo = mid + 1;
            }
        }
        lo
    }

    /// Record `space` free bytes starting at `cursor`, keeping the list
    /// sorted.  Duplicates are legal: they are distinct free ranges that
    /// happen to share a size.
    #[verifier::rlimit(50)]
    pub fn insert_free_space(&mut self, cursor: usize, space: usize)
        requires
            old(self).wf(),
            cursor + space <= usize::MAX,
            old(self).total_free_space + space <= usize::MAX,
        ensures
            final(self).wf(),
            final(self).total_free_space == old(self).total_free_space + space,
            final(self).list@.len() == old(self).list@.len() + 1,
            forall|o: int|
                list_covers(final(self).list@, o) <==> (list_covers(old(self).list@, o) || (
                cursor <= o < cursor + space)),
            forall|n: int|
                has_fit(final(self).list@, n) <==> (has_fit(old(self).list@, n) || space >= n),
            (pairwise_disjoint(old(self).list@) && (forall|j: int|
                0 <= j < old(self).list@.len() ==> slots_disjoint(
                    Slot { space, cursor },
                    #[trigger] old(self).list@[j],
                ))) ==> pairwise_disjoint(final(self).list@),
            forall|i: int|
                0 <= i < final(self).list@.len() ==> ((exists|j: int|
                    0 <= j < old(self).list@.len() && #[trigger] final(self).list@[i] == old(
                        self,
                    ).list@[j]) || final(self).list@[i] == Slot { space, cursor }),
            forall|j: int|
                0 <= j < old(self).list@.len() ==> (exists|i: int|
                    0 <= i < final(self).list@.len() && final(self).list@[i] == #[trigger] old(
                        self,
                    ).list@[j]),
            exists|p: int|
                0 <= p <= old(self).list@.len() && final(self).list@ == old(self).list@.insert(
                    p,
                    Slot { space, cursor },
                ),
    {
        let value = Slot { cursor, space };
        let pos = self.find_insert_pos(&value);
        proof {
            lemma_insert_facts(self.list@, pos as int, value);
            lemma_insert_sorted(self.list@, pos as int, value);
            lemma_insert_keeps(self.list@, pos as int, value);
        }
        self.total_free_space = self.total_free_space + space;
        self.list.insert(pos, value);
        proof {
            assert forall|o: int|
                list_covers(self.list@, o) <==> (list_covers(old(self).list@, o) || (cursor <= o
                    < cursor + space)) by {
                assert(slot_covers(value, o) == (cursor <= o < cursor + space));
            }
        }
    }

    /// First position whose slot offers at least `n` bytes, or the list's
    /// length when none does.
    fn find_fit_pos(&self, n: usize) -> (pos: usize)
        requires
            sorted_slots(self.list@),
        ensures
            pos <= self.list@.len(),
            forall|i: int| 0 <= i < pos ==> #[trigger] self.list@[i].space < n,
            forall|i: int| pos <= i < self.list@.len() ==> #[trigger] self.list@[i].space >= n,
    {
        let mut lo: usize = 0;
        let mut hi: usize = self.list.len();
        while lo < hi
            invariant
                lo <= hi <= self.list@.len(),
                sorted_slots(self.list@),
                forall|i: int| 0 <= i < lo ==> #[trigger] self.list@[i].space < n,
                forall|i: int| hi <= i < self.list@.len() ==> #[trigger] self.list@[i].space >= n,
            decreases hi - lo,
        {
            let mid: usize = lo + (hi - lo) / 2;
            if self.list[mid].space >= n {
                proof {
                    assert forall|i: int| mid <= i < self.list@.len() implies #[trigger] self
                        .list@[i].space >= n by {
                        if i > mid {
                            assert(slot_le(self.list@[mid as int], self.list@[i]));
                        }
                    }
                }
                hi = mid;
            } else {
                proof {
                    assert forall|i: int| 0 <= i <= mid implies #[trigger] self.list@[i].space
                        < n by {
                        if i < mid {
                            assert(slot_le(self.list@[i], self.list@[mid as int]));
                        }
                    }
                }
                lo = mid + 1;
            }
        }
        lo
    }

    /// Take `expected_amount.space` bytes from the smallest free slot that
    /// offers at least that much.  The remainder of the chosen slot, if any,
    /// is kept at its sorted position.  The running total is left to the
    /// caller.
    pub fn retrieve_equal_or_bigger_than(&mut self, expected_amount: &Slot) -> (r: Option<Slot>)
        requires
            sorted_slots(old(self).list@),
            all_slots_wf(old(self).list@),
        ensures
            sorted_slots(final(self).list@),
            all_slots_wf(final(self).list@),
            final(self).total_free_space == old(self).total_free_space,
            r is Some <==> has_fit(old(self).list@, expected_amount.space as int),
            r is None ==> final(self).list@ == old(self).list@,
            r matches Some(claimed) ==> {
                &&& claimed.space == expected_amount.space
                &&& claimed.cursor + claimed.space <= usize::MAX
                &&& sum_space(final(self).list@) == sum_space(old(self).list@)
                    - expected_amount.space
                &&& forall|o: int|
                    claimed.cursor <= o < claimed.cursor + claimed.space ==> list_covers(
                        old(self).list@,
                        o,
                    )
                &&& pairwise_disjoint(old(self).list@) ==> (forall|o: int|
                    list_covers(final(self).list@, o) <==> (list_covers(old(self).list@, o)
                        && !(claimed.cursor <= o < claimed.cursor + claimed.space)))
                &&& pairwise_disjoint(old(self).list@) ==> pairwise_disjoint(final(self).list@)
                &&& within_some_slot(final(self).list@, old(self).list@)
                &&& best_fit_at(old(self).list@, claimed.cursor as int, claimed.space as int)
                &&& retrieve_shape(
                    old(self).list@,
                    final(self).list@,
                    claimed.cursor as int,
                    claimed.space as int,
                )
            },
    {
        let n = expected_amount.space;
        let pos = self.find_fit_pos(n);
        if pos >= self.list.len() {
            return None;
        }
        let ghost l0 = self.list@;
        let ghost mut grp: int = 0;
        let claimed = self.list.remove(pos);
        proof {
            lemma_remove_facts(l0, pos as int);
        }
        if claimed.space > n {
            let rem = Slot { space: claimed.space - n, cursor: claimed.cursor + n };
            let ghost l1 = self.list@;
            let rpos = self.find_insert_pos(&rem);
            proof {
                grp = rpos as int;
            }
            proof {
                lemma_insert_facts(l1, rpos as int, rem);
                lemma_insert_sorted(l1, rpos as int, rem);
                if pairwise_disjoint(l0) {
                    assert forall|j: int| 0 <= j < l1.len() implies slots_disjoint(
                        rem,
                        #[trigger] l1[j],
                    ) by {
                        let jo = choose|jo: int| 0 <= jo < l0.len() && l1[j] == l0[jo];
                        assert(slots_disjoint(l0[pos as int], l0[jo]));
                    }
                }
            }
            self.list.insert(rpos, rem);
            proof {
                if pairwise_disjoint(l0) {
                    assert forall|o: int| list_covers(self.list@, o) implies (list_covers(l0, o)
                        && !(claimed.cursor <= o < claimed.cursor + n)) by {
                        if slot_covers(rem, o) {
                            assert(slot_covers(l0[pos as int], o));
                        } else {
                            assert(list_covers(l1, o));
                            lemma_disjoint_covers_list(l0, pos as int, o);
                        }
                    }
                    assert forall|o: int| (list_covers(l0, o) && !(claimed.cursor <= o
                        < claimed.cursor + n)) implies list_covers(self.list@, o) by {
                        if slot_covers(l0[pos as int], o) {
                            assert(slot_covers(rem, o));
                        } else {
                            assert(list_covers(l1, o));
                        }
                    }
                }
                assert forall|i: int| 0 <= i < self.list@.len() implies (exists|j: int|
                    0 <= j < l0.len() && (#[trigger] self.list@[i] == l0[j] || (l0[j].cursor
                        <= self.list@[i].cursor && self.list@[i].cursor + self.list@[i].space
                        <= l0[j].cursor + l0[j].space && self.list@[i].space > 0))) by {
                    if self.list@[i] == rem {
                        assert(l0[pos as int].cursor <= rem.cursor && rem.cursor + rem.space
                            <= l0[pos as int].cursor + l0[pos as int].space && rem.space > 0);
                    } else {
                        let jo = choose|jo: int|
                            0 <= jo < l1.len() && #[trigger] self.list@[i] == l1[jo];
                        let j0 = choose|j0: int| 0 <= j0 < l0.len() && l1[jo] == l0[j0];
                        assert(self.list@[i] == l0[j0]);
                    }
                }
            }
        }
        proof {
            assert(best_fit_at(l0, claimed.cursor as int, n as int)) by {
                assert(l0[pos as int].cursor == claimed.cursor && l0[pos as int].space >= n);
                let p = pos as int;
                assert forall|j: int| 0 <= j < l0.len() && #[trigger] l0[j].space >= n implies
                    l0[p].space <= l0[j].space by {
                    if j < pos {
                        assert(l0[j].space < n);
                    } else if j > pos {
                        assert(slot_le(l0[pos as int], l0[j]));
                    }
                }
            }
            if self.list@.len() == l0.len() - 1 {
                assert forall|i: int| 0 <= i < self.list@.len() implies (exists|j: int|
                    0 <= j < l0.len() && (#[trigger] self.list@[i] == l0[j] || (l0[j].cursor
                        <= self.list@[i].cursor && self.list@[i].cursor + self.list@[i].space
                        <= l0[j].cursor + l0[j].space && self.list@[i].space > 0))) by {
                    let j = choose|j: int| 0 <= j < l0.len() && #[trigger] self.list@[i] == l0[j];
                    assert(self.list@[i] == l0[j]);
                }
            }
            assert(retrieve_shape(l0, self.list@, claimed.cursor as int, n as int)) by {
                let bi = pos as int;
                assert(l0[bi].cursor == claimed.cursor && l0[bi].space >= n);
                assert forall|j: int|
                    0 <= j < l0.len() && (#[trigger] l0[j]).space >= n implies slot_le(
                    l0[bi],
                    l0[j],
                ) by {
                    if j < bi {
                        assert(l0[j].space < n);
                    } else if j > bi {
                        assert(slot_le(l0[bi], l0[j]));
                    }
                }
                if l0[bi].space > n {
                    let remslot = Slot {
                        cursor: (claimed.cursor as int + n as int) as usize,
                        space: (l0[bi].space - n) as usize,
                    };
                    assert(remslot == Slot { space: (claimed.space - n) as usize, cursor: (claimed.cursor + n) as usize });
                    assert(self.list@ == l0.remove(bi).insert(grp, remslot));
                } else {
                    assert(self.list@ == l0.remove(bi));
                }
            }
        }
        Some(Slot { space: n, cursor: claimed.cursor })
    }

    /// Merge every chain of adjacent free slots into one maximal free slot,
    /// in a single pass over the offset-sorted list, then restore the slot
    /// order.  A second call right after the first changes nothing.
    pub fn compact(&mut self)
        requires
            old(self).wf(),
        ensures
            final(self).wf(),
            final(self).total_free_space == old(self).total_free_space,
            forall|o: int|
                list_covers(final(self).list@, o) <==> list_covers(old(self).list@, o),
            pairwise_disjoint(old(self).list@) ==> (pairwise_disjoint(final(self).list@)
                && no_neighbours(final(self).list@) && all_positive(final(self).list@)),
            (pairwise_disjoint(old(self).list@) && no_neighbours(old(self).list@)
                && all_positive(old(self).list@)) ==> final(self).list@ == old(self).list@,
    {
        let mut work: Vec<Slot> = Vec::new();
        core::mem::swap(&mut work, &mut self.list);
        let ghost orig = work@;
        let by_cursor = selection_sort(work, true);
        proof {
            lemma_perm_transfer(orig, by_cursor@);
            assert forall|i: int, j: int| 0 <= i < j < by_cursor@.len() implies cursor_le(
                by_cursor@[i],
                by_cursor@[j],
            ) by {
                assert(slot_ord(true, by_cursor@[i], by_cursor@[j]));
            }
        }
        let merged = merge_pass(by_cursor);
        let sorted = selection_sort(merged, false);
        proof {
            lemma_perm_transfer(merged@, sorted@);
            lemma_perm_transfer(sorted@, merged@);
            assert forall|i: int, j: int| 0 <= i < j < sorted@.len() implies slot_le(
                sorted@[i],
                sorted@[j],
            ) by {
                assert(slot_ord(false, sorted@[i], sorted@[j]));
            }
            if pairwise_disjoint(orig) && no_neighbours(orig) && all_positive(orig) {
                assert(merged@ == by_cursor@);
                let leq = |a: Slot, b: Slot| slot_le(a, b);
                lemma_slot_le_total(leq);
                assert forall|i: int, j: int| 0 <= i < j < sorted@.len() implies #[trigger] leq(
                    sorted@[i],
                    sorted@[j],
                ) by {
                    assert(slot_le(sorted@[i], sorted@[j]));
                }
                assert forall|i: int, j: int| 0 <= i < j < orig.len() implies #[trigger] leq(
                    orig[i],
                    orig[j],
                ) by {
                    assert(slot_le(orig[i], orig[j]));
                }
                assert(sorted@.to_multiset() == orig.to_multiset());
                vstd::seq_lib::lemma_sorted_unique(sorted@, orig, leq);
            }
        }
        self.list = sorted;
    }

    /// Best-fit allocation: take `space` bytes from the smallest free slot
    /// that offers at least that much and return its offset, or `None` when
    /// no slot is large enough.
    pub fn retrieve_free_space(&mut self, space: usize) -> (r: Option<usize>)
        requires
            old(self).wf(),
        ensures
            final(self).wf(),
            r is Some <==> has_fit(old(self).list@, space as int),
            r is None ==> final(self).list@ == old(self).list@ && final(self).total_free_space
                == old(self).total_free_space,
            r matches Some(c) ==> {
                &&& final(self).total_free_space == old(self).total_free_space - space
                &&& c + space <= usize::MAX
                &&& forall|o: int| c <= o < c + space ==> list_covers(old(self).list@, o)
                &&& pairwise_disjoint(old(self).list@) ==> (forall|o: int|
                    list_covers(final(self).list@, o) <==> (list_covers(old(self).list@, o) && !(
                    c <= o < c + space)))
                &&& pairwise_disjoint(old(self).list@) ==> pairwise_disjoint(final(self).list@)
                &&& within_some_slot(final(self).list@, old(self).list@)
                &&& best_fit_at(old(self).list@, c as int, space as int)
                &&& retrieve_shape(old(self).list@, final(self).list@, c as int, space as int)
            },
    {
        let space_cursor = Slot { space, cursor: 0 };
        let got = self.retrieve_equal_or_bigger_than(&space_cursor);
        match got {
            Some(val) => {
                proof {
                    lemma_sum_space_nonneg(self.list@);
                }
                self.total_free_space = self.total_free_space - val.space;
                Some(val.cursor)
            },
            None => None,
        }
    }
}

/// Either of the two total orders used by the allocator: the slot order, or
/// the offset order used while scanning adjacency chains.
pub open spec fn slot_ord(by_cursor: bool, a: Slot, b: Slot) -> bool {
    if by_cursor {
        cursor_le(a, b)
    } else {
        slot_le(a, b)
    }
}

pub open spec fn sorted_by_flag(by_cursor: bool, l: Seq<Slot>) -> bool {
    forall|i: int, j: int| 0 <= i < j < l.len() ==> slot_ord(by_cursor, l[i], l[j])
}

fn slot_ord_exec(by_cursor: bool, a: &Slot, b: &Slot) -> (r: bool)
    ensures
        r == slot_ord(by_cursor, *a, *b),
{
    if by_cursor {
        a.cursor < b.cursor || (a.cursor == b.cursor && a.space <= b.space)
    } else {
        a.space < b.space || (a.space == b.space && a.cursor <= b.cursor)
    }
}

/// Sort the slots by the chosen order; the result holds exactly the same
/// slots.
fn selection_sort(input: Vec<Slot>, by_cursor: bool) -> (r: Vec<Slot>)
    ensures
        r@.to_multiset() == input@.to_multiset(),
        sorted_by_flag(by_cursor, r@),
{
    let mut rest = input;
    let mut out: Vec<Slot> = Vec::new();
    proof {
        broadcast use vstd::seq_lib::group_to_multiset_ensures;

        assert(out@.to_multiset().add(rest@.to_multiset()) =~= rest@.to_multiset());
    }
    while rest.len() > 0
        invariant
            out@.to_multiset().add(rest@.to_multiset()) == input@.to_multiset(),
            sorted_by_flag(by_cursor, out@),
            forall|i: int, j: int|
                0 <= i < out@.len() && 0 <= j < rest@.len() ==> slot_ord(
                    by_cursor,
                    #[trigger] out@[i],
                    #[trigger] rest@[j],
                ),
        decreases rest@.len(),
    {
        let mut m: usize = 0;
        let mut k: usize = 1;
        while k < rest.len()
            invariant
                m < k <= rest@.len(),
                rest@.len() > 0,
                forall|i: int| 0 <= i < k ==> slot_ord(by_cursor, rest@[m as int], #[trigger] rest@[i]),
            decreases rest@.len() - k,
        {
            if !slot_ord_exec(by_cursor, &rest[m], &rest[k]) {
                m = k;
            }
            k = k + 1;
        }
        let ghost out0 = out@;
        let ghost rest0 = rest@;
        let x = rest.remove(m);
        out.push(x);
        proof {
            broadcast use vstd::seq_lib::group_to_multiset_ensures;

            assert(rest0.contains(x));
            assert(out@.to_multiset().add(rest@.to_multiset()) =~= input@.to_multiset());
            assert forall|i: int, j: int|
                0 <= i < out@.len() && 0 <= j < rest@.len() implies slot_ord(
                by_cursor,
                #[trigger] out@[i],
                #[trigger] rest@[j],
            ) by {
                let jo = if j < m { j } else { j + 1 };
                assert(rest@[j] == rest0[jo]);
                if i < out0.len() {
                    assert(out@[i] == out0[i]);
                } else {
                    assert(out@[i] == x);
                }
            }
            assert forall|i: int, j: int| 0 <= i < j < out@.len() implies slot_ord(
                by_cursor,
                out@[i],
                out@[j],
            ) by {
                if j < out0.len() {
                    assert(out@[i] == out0[i] && out@[j] == out0[j]);
                } else {
                    assert(out@[j] == x && out@[i] == out0[i]);
                    assert(slot_ord(by_cursor, out0[i], rest0[m as int]));
                }
            }
        }
    }
    proof {
        broadcast use vstd::seq_lib::group_to_multiset_ensures;

        assert(out@.to_multiset().add(rest@.to_multiset()) =~= out@.to_multiset());
    }
    out
}

/// What appending one slot does to the sum and the covered offsets.
proof fn lemma_push_facts(l: Seq<Slot>, v: Slot)
    ensures
        sum_space(l.push(v)) == sum_space(l) + v.space,
        forall|o: int|
            #![trigger list_covers(l.push(v), o)]
            list_covers(l.push(v), o) <==> (list_covers(l, o) || slot_covers(v, o)),
    decreases l.len(),
{
    let r = l.push(v);
    if l.len() == 0 {
        assert(r[0] == v);
        assert(r.drop_first() =~= l);
    } else {
        assert(r.drop_first() =~= l.drop_first().push(v));
        lemma_push_facts(l.drop_first(), v);
        assert(r[0] == l[0]);
    }
    assert forall|o: int| list_covers(r, o) implies (list_covers(l, o) || slot_covers(v, o)) by {
        let i = choose|i: int| 0 <= i < r.len() && slot_covers(r[i], o);
        if i < l.len() {
            assert(slot_covers(l[i], o));
        } else {
            assert(r[i] == v);
        }
    }
    assert forall|o: int| (list_covers(l, o) || slot_covers(v, o)) implies list_covers(r, o) by {
        if list_covers(l, o) {
            let i = choose|i: int| 0 <= i < l.len() && slot_covers(l[i], o);
            assert(slot_covers(r[i], o));
        } else {
            assert(slot_covers(r[l.len() as int], o));
        }
    }
}

/// Every slot ends strictly before the next one starts.
pub open spec fn strictly_separated(l: Seq<Slot>) -> bool {
    forall|i: int, j: int|
        0 <= i < j < l.len() ==> (#[trigger] l[i]).cursor + l[i].space < (#[trigger] l[j]).cursor
}

/// Strictly separated positive slots are pairwise disjoint and adjacency
/// free.
proof fn lemma_sep_props(l: Seq<Slot>)
    requires
        strictly_separated(l),
        all_positive(l),
    ensures
        pairwise_disjoint(l),
        no_neighbours(l),
{
    assert forall|i: int, j: int|
        0 <= i < l.len() && 0 <= j < l.len() && i != j implies slots_disjoint(
        #[trigger] l[i],
        #[trigger] l[j],
    ) && !Slot::spec_neighbours(l[i], l[j]) by {
        if i < j {
            assert(l[i].cursor + l[i].space < l[j].cursor);
        } else {
            assert(l[j].cursor + l[j].space < l[i].cursor);
        }
    }
}

/// One step of the adjacency scan, where the current slot opens a new chain:
/// it is not adjacent to the last merged slot, so it is appended as it
/// stands.
#[verifier::rlimit(60)]
proof fn lemma_push_step(inp: Seq<Slot>, idx: int, out: Seq<Slot>)
    requires
        0 <= idx < inp.len(),
        cursor_sorted(inp),
        inp[idx].space > 0,
        sum_space(out) == sum_space(inp.subrange(0, idx)),
        forall|o: int| list_covers(out, o) <==> list_covers(inp.subrange(0, idx), o),
        all_positive(out),
        out.len() > 0 ==> !Slot::spec_neighbours(out[out.len() - 1], inp[idx]),
        pairwise_disjoint(inp) ==> strictly_separated(out),
    ensures
        sum_space(out.push(inp[idx])) == sum_space(inp.subrange(0, idx + 1)),
        forall|o: int|
            list_covers(out.push(inp[idx]), o) <==> list_covers(inp.subrange(0, idx + 1), o),
        all_positive(out.push(inp[idx])),
        pairwise_disjoint(inp) ==> strictly_separated(out.push(inp[idx])),
{
    let s = inp[idx];
    let pre = inp.subrange(0, idx);
    let post = inp.subrange(0, idx + 1);
    assert(post =~= pre.push(s));
    lemma_push_facts(pre, s);
    lemma_push_facts(out, s);
    if pairwise_disjoint(inp) && out.len() > 0 {
        let last = out[out.len() - 1];
        assert(last.space > 0);
        if s.cursor <= last.cursor + last.space {
            if s.cursor == last.cursor + last.space {
                assert(Slot::spec_neighbours(last, s));
                assert(false);
            } else {
                let w: int = if s.cursor >= last.cursor {
                    s.cursor as int
                } else {
                    last.cursor as int
                };
                assert(slot_covers(last, w));
                assert(list_covers(out, w));
                assert(list_covers(pre, w));
                let k = choose|k: int| 0 <= k < pre.len() && slot_covers(#[trigger] pre[k], w);
                assert(pre[k] == inp[k]);
                assert(cursor_le(inp[k], inp[idx]));
                assert(slot_covers(inp[k], s.cursor as int));
                assert(slots_disjoint(inp[k], inp[idx]));
                assert(false);
            }
        }
        assert forall|i: int, j: int|
            0 <= i < j < out.push(s).len() implies (#[trigger] out.push(s)[i]).cursor + out.push(
            s,
        )[i].space < (#[trigger] out.push(s)[j]).cursor by {
            if j < out.len() {
                assert(out.push(s)[i] == out[i] && out.push(s)[j] == out[j]);
            } else {
                assert(out.push(s)[j] == s);
                if i < out.len() - 1 {
                    assert(out[i].cursor + out[i].space < last.cursor);
                }
            }
        }
    }
}

/// One step of the adjacency scan, where the current slot continues the
/// chain: the last merged slot absorbs it.
proof fn lemma_merge_step(inp: Seq<Slot>, idx: int, out: Seq<Slot>, merged: Slot)
    requires
        0 <= idx < inp.len(),
        cursor_sorted(inp),
        inp[idx].space > 0,
        out.len() > 0,
        Slot::spec_neighbours(out[out.len() - 1], inp[idx]),
        merged.space == out[out.len() - 1].space + inp[idx].space,
        merged.cursor == if out[out.len() - 1].cursor <= inp[idx].cursor {
            out[out.len() - 1].cursor
        } else {
            inp[idx].cursor
        },
        forall|o: int|
            slot_covers(merged, o) <==> (slot_covers(out[out.len() - 1], o) || slot_covers(
                inp[idx],
                o,
            )),
        sum_space(out) == sum_space(inp.subrange(0, idx)),
        forall|o: int| list_covers(out, o) <==> list_covers(inp.subrange(0, idx), o),
        all_positive(out),
        pairwise_disjoint(inp) ==> strictly_separated(out),
    ensures
        sum_space(out.update(out.len() - 1, merged)) == sum_space(inp.subrange(0, idx + 1)),
        forall|o: int|
            #![trigger list_covers(out.update(out.len() - 1, merged), o)]
            list_covers(out.update(out.len() - 1, merged), o) <==> list_covers(
                inp.subrange(0, idx + 1),
                o,
            ),
        all_positive(out.update(out.len() - 1, merged)),
        pairwise_disjoint(inp) ==> strictly_separated(out.update(out.len() - 1, merged)),
{
    let s = inp[idx];
    let last = out[out.len() - 1];
    let li = out.len() - 1;
    let pre = inp.subrange(0, idx);
    let post = inp.subrange(0, idx + 1);
    let upd = out.update(li, merged);
    let frozen = out.subrange(0, li);
    assert(post =~= pre.push(s));
    lemma_push_facts(pre, s);
    assert(out =~= frozen.push(last));
    lemma_push_facts(frozen, last);
    assert(upd =~= frozen.push(merged));
    lemma_push_facts(frozen, merged);
    assert(sum_space(upd) == sum_space(frozen) + merged.space);
    assert(sum_space(out) == sum_space(frozen) + last.space);
    assert(sum_space(upd) == sum_space(post));
    assert forall|o: int| list_covers(upd, o) <==> list_covers(post, o) by {
        assert(list_covers(upd, o) <==> (list_covers(frozen, o) || slot_covers(merged, o)));
        assert(list_covers(out, o) <==> (list_covers(frozen, o) || slot_covers(last, o)));
        assert(list_covers(post, o) <==> (list_covers(pre, o) || slot_covers(s, o)));
    }
    if pairwise_disjoint(inp) {
        assert(last.space > 0);
        if s.cursor < last.cursor {
            let w: int = last.cursor as int;
            assert(slot_covers(last, w));
            assert(list_covers(out, w));
            assert(list_covers(pre, w));
            let k = choose|k: int| 0 <= k < pre.len() && slot_covers(#[trigger] pre[k], w);
            assert(pre[k] == inp[k]);
            assert(cursor_le(inp[k], inp[idx]));
            assert(slot_covers(inp[k], s.cursor as int));
            assert(slots_disjoint(inp[k], inp[idx]));
            assert(false);
        }
        assert(merged.cursor == last.cursor);
        assert forall|i: int, j: int|
            0 <= i < j < upd.len() implies (#[trigger] upd[i]).cursor + upd[i].space < (
        #[trigger] upd[j]).cursor by {
            if j < li {
                assert(upd[i] == out[i] && upd[j] == out[j]);
            } else {
                assert(upd[j] == merged);
                assert(upd[i] == out[i]);
                assert(out[i].cursor + out[i].space < last.cursor);
            }
        }
    }
}

/// Scan the offset-sorted list once, absorbing every slot into the running
/// merged slot while it stays adjacent, and dropping empty slots.
fn merge_pass(input: Vec<Slot>) -> (r: Vec<Slot>)
    requires
        cursor_sorted(input@),
        all_slots_wf(input@),
    ensures
        sum_space(r@) == sum_space(input@),
        forall|o: int| list_covers(r@, o) <==> list_covers(input@, o),
        all_slots_wf(r@),
        all_positive(r@),
        pairwise_disjoint(input@) ==> (pairwise_disjoint(r@) && no_neighbours(r@)),
        (pairwise_disjoint(input@) && no_neighbours(input@) && all_positive(input@)) ==> r@
            == input@,
{
    let mut out: Vec<Slot> = Vec::new();
    let mut idx: usize = 0;
    proof {
        assert(input@.subrange(0, 0) =~= Seq::<Slot>::empty());
    }
    while idx < input.len()
        invariant
            idx <= input@.len(),
            cursor_sorted(input@),
            all_slots_wf(input@),
            sum_space(out@) == sum_space(input@.subrange(0, idx as int)),
            forall|o: int|
                list_covers(out@, o) <==> list_covers(input@.subrange(0, idx as int), o),
            all_slots_wf(out@),
            all_positive(out@),
            pairwise_disjoint(input@) ==> strictly_separated(out@),
            (pairwise_disjoint(input@) && no_neighbours(input@) && all_positive(input@)) ==> out@
                =~= input@.subrange(0, idx as int),
        decreases input@.len() - idx,
    {
        let s = input[idx];
        let ghost pre = input@.subrange(0, idx as int);
        let ghost post = input@.subrange(0, idx as int + 1);
        let ghost identity = pairwise_disjoint(input@) && no_neighbours(input@) && all_positive(
            input@,
        );
        if s.space == 0 {
            proof {
                assert(post =~= pre.push(s));
                lemma_push_facts(pre, s);
                if identity {
                    assert(input@[idx as int].space > 0);
                    assert(false);
                }
            }
        } else {
            let mut did_merge = false;
            if out.len() > 0 {
                let li = out.len() - 1;
                let last = out[li];
                if last.is_neighbour_of(&s) {
                    proof {
                        if identity {
                            assert(out@ =~= pre);
                            assert(out@[li as int] == input@[idx as int - 1]);
                            assert(Slot::spec_neighbours(
                                input@[idx as int - 1],
                                input@[idx as int],
                            ));
                            assert(false);
                        }
                    }
                    let merged = last.merge_with(&s);
                    proof {
                        lemma_merge_step(input@, idx as int, out@, merged);
                    }
                    out[li] = merged;
                    did_merge = true;
                }
            }
            if !did_merge {
                proof {
                    lemma_push_step(input@, idx as int, out@);
                    if identity {
                        assert(out@.push(s) =~= post);
                    }
                }
                out.push(s);
            }
        }
        idx = idx + 1;
    }
    proof {
        assert(input@.subrange(0, input@.len() as int) =~= input@);
        if pairwise_disjoint(input@) {
            lemma_sep_props(out@);
        }
    }
    out
}

/// The slot order is a total order.
proof fn lemma_slot_le_total(leq: spec_fn(Slot, Slot) -> bool)
    requires
        forall|a: Slot, b: Slot| #[trigger] leq(a, b) == slot_le(a, b),
    ensures
        vstd::relations::total_ordering(leq),
{
    assert forall|x: Slot| #[trigger] leq(x, x) by {
        assert(leq(x, x) == slot_le(x, x));
    }
    assert forall|x: Slot, y: Slot| #[trigger] leq(x, y) && #[trigger] leq(y, x) implies x
        == y by {
        assert(slot_le(x, y) && slot_le(y, x));
    }
    assert forall|x: Slot, y: Slot, z: Slot|
        #[trigger] leq(x, y) && #[trigger] leq(y, z) implies leq(x, z) by {
        assert(slot_le(x, y) && slot_le(y, z));
        assert(slot_le(x, z));
    }
    assert forall|x: Slot, y: Slot| #[trigger] leq(x, y) || #[trigger] leq(y, x) by {
        assert(slot_le(x, y) || slot_le(y, x));
    }
}

/// In a pairwise-disjoint list, an offset covered by the list but not by the
/// slot at `pos` is still covered after that slot is removed.
proof fn lemma_disjoint_covers_list(l: Seq<Slot>, pos: int, o: int)
    requires
        0 <= pos < l.len(),
        pairwise_disjoint(l),
        list_covers(l.remove(pos), o),
    ensures
        !slot_covers(l[pos], o),
        list_covers(l, o),
{
    lemma_remove_facts(l, pos);
}

} // verus!
