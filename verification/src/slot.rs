//! A contiguous byte range in the data file, either occupied by a value or
//! free (reclaimable): `space` bytes starting at offset `cursor`.

use vstd::prelude::*;

verus! {

#[derive(Debug, PartialEq, Eq, Structural, Clone, Copy)]
pub struct Slot {
    pub space: usize,
    pub cursor: usize,
}

/// Total order on slots: by `space` ascending, ties broken by `cursor`.
pub open spec fn slot_le(a: Slot, b: Slot) -> bool {
    a.space < b.space || (a.space == b.space && a.cursor <= b.cursor)
}

/// A slot's end offset stays within the machine's address range.
pub open spec fn slot_wf(s: Slot) -> bool {
    s.cursor + s.space <= usize::MAX
}

/// Offset `o` lies inside the byte range of `s`.
pub open spec fn slot_covers(s: Slot, o: int) -> bool {
    s.cursor <= o && o < s.cursor + s.space
}

/// The two byte ranges share no offset.  A zero-length slot covers nothing,
/// so it is disjoint from everything.
pub open spec fn slots_disjoint(a: Slot, b: Slot) -> bool {
    ||| a.cursor + a.space <= b.cursor
    ||| b.cursor + b.space <= a.cursor
    ||| a.space == 0
    ||| b.space == 0
}

/// Disjoint slots never cover the same offset.
pub proof fn lemma_disjoint_covers(a: Slot, b: Slot, o: int)
    requires
        slots_disjoint(a, b),
    ensures
        !(slot_covers(a, o) && slot_covers(b, o)),
{
}

impl Slot {
    /// One slot's range begins exactly where the other ends; a slot whose
    /// `cursor` is zero is never treated as the latter side of the test.
    pub open spec fn spec_neighbours(a: Slot, b: Slot) -> bool {
        ||| (a.cursor > 0 && a.cursor == b.cursor + b.space)
        ||| (b.cursor > 0 && b.cursor == a.cursor + a.space)
    }

    pub fn is_neighbour_of(&self, spot: &Slot) -> (r: bool)
        requires
            slot_wf(*self),
            slot_wf(*spot),
        ensures
            r == Self::spec_neighbours(*self, *spot),
    {
        (self.cursor > 0 && self.cursor == spot.cursor + spot.space)
            || (spot.cursor > 0 && spot.cursor == self.cursor + self.space)
    }

    /// Merge two adjacent slots into the single slot covering both ranges.
    pub fn merge_with(&self, spot: &Slot) -> (r: Slot)
        requires
            slot_wf(*self),
            slot_wf(*spot),
            Self::spec_neighbours(*self, *spot),
        ensures
            r.cursor == if self.cursor <= spot.cursor { self.cursor } else { spot.cursor },
            r.space == self.space + spot.space,
            slot_wf(r),
            forall|o: int| slot_covers(r, o) <==> (slot_covers(*self, o) || slot_covers(*spot, o)),
    {
        Slot {
            cursor: if self.cursor <= spot.cursor { self.cursor } else { spot.cursor },
            space: self.space + spot.space,
        }
    }
}

} // verus!
