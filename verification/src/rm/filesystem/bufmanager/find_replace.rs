use vstd::prelude::*;
use super::super::utils::linklist::{LinkList, Links, links_in_range, spec_del, spec_insert, spec_insert_first};

verus! {

/// The ring of `c` elements after the head `c`, in the order `0, 1, .., i - 1`; the other elements alone.
pub open spec fn ordered_ring(c: int, i: int) -> Links {
    Seq::new(
        (c + 1) as nat,
        |j: int|
            if j < i {
                (if j + 1 < i { j + 1 } else { c }, if j == 0 { c } else { j - 1 })
            } else if j == c {
                (if i == 0 { c } else { 0 }, if i == 0 { c } else { i - 1 })
            } else {
                (j, j)
            },
    )
}

/// The replacement order of the page cache: one list of all the cache slots, least
/// recently used first.
pub struct FindReplace {
    pub list: LinkList,
    cap: i32,
}

impl FindReplace {
    /// The order of the slots, as links over the slots and the head `cap`.
    pub closed spec fn links(&self) -> Links {
        self.list@
    }

    /// Number of slots.
    pub closed spec fn spec_cap(&self) -> int {
        self.cap as int
    }

    pub closed spec fn inv(&self) -> bool {
        &&& self.list.inv()
        &&& self.list.spec_cap() == self.cap
        &&& self.list.spec_list_num() == 1
    }

    pub proof fn lemma_inv(&self)
        requires
            self.inv(),
        ensures
            self.links().len() == self.spec_cap() + 1,
            0 <= self.spec_cap(),
            links_in_range(self.links()),
    {
        self.list.lemma_inv();
    }

    /// Slot `index` is removed from the order; then the first slot is linked to it and it to the head.
    pub fn free(&mut self, index: i32)
        requires
            old(self).inv(),
            0 <= index < old(self).spec_cap(),
        ensures
            final(self).inv(),
            final(self).spec_cap() == old(self).spec_cap(),
            final(self).links() == spec_insert_first(old(self).links(), old(self).spec_cap(), index as int),
    {
        proof {
            self.list.lemma_inv();
        }
        self.list.insert_first(0, index);
    }

    /// Slot `index` was just used: it becomes the most recently used.
    pub fn access(&mut self, index: i32)
        requires
            old(self).inv(),
            0 <= index < old(self).spec_cap(),
        ensures
            final(self).inv(),
            final(self).spec_cap() == old(self).spec_cap(),
            final(self).links() == spec_insert(old(self).links(), old(self).spec_cap(), index as int),
    {
        proof {
            self.list.lemma_inv();
        }
        self.list.insert(0, index);
    }

    /// The least recently used slot, which becomes the most recently used.
    pub fn find(&mut self) -> (r: i32)
        requires
            old(self).inv(),
        ensures
            final(self).inv(),
            final(self).spec_cap() == old(self).spec_cap(),
            r == old(self).links()[old(self).spec_cap()].0,
            final(self).links() == spec_insert(
                spec_del(old(self).links(), r as int),
                old(self).spec_cap(),
                r as int,
            ),
    {
        proof {
            self.list.lemma_inv();
        }
        let index = self.list.get_first(0);
        self.list.del(index);
        self.list.insert(0, index);
        index
    }

    /// `c` slots in the order `0, 1, .., c - 1`.
    /// The slot at the front of the order (the head `cap` when the order is empty).
    pub fn first(&self) -> (r: i32)
        requires
            self.inv(),
        ensures
            r == self.links()[self.spec_cap()].0,
    {
        proof {
            self.list.lemma_inv();
        }
        self.list.get_first(0)
    }

    pub fn new(c: i32) -> (r: Self)
        requires
            0 <= c < i32::MAX,
        ensures
            r.inv(),
            r.spec_cap() == c,
            r.links() == ordered_ring(c as int, c as int),
    {
        let mut f = Self { cap: c, list: LinkList::new(c, 1) };
        assert(f.list@ =~= ordered_ring(c as int, 0));
        let mut i: i32 = 0;
        while i < c
            invariant
                0 <= i <= c < i32::MAX,
                f.inv(),
                f.cap == c,
                f.list@ == ordered_ring(c as int, i as int),
            decreases c - i,
        {
            proof {
                f.list.lemma_inv();
            }
            f.list.insert(0, i);
            assert(f.list@ =~= ordered_ring(c as int, i + 1));
            i = i + 1;
        }
        f
    }
}

} // verus!
