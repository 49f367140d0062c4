//! A bounded collector that keeps the entries of smallest priority.
use vstd::prelude::*;

verus! {

/// An entry of the collector: a position and its priority (a distance).
#[derive(Debug, Clone, Copy)]
pub struct PrioritySortableItem {
    pub element: usize,
    pub priority: u128,
}

impl PrioritySortableItem {
    pub fn new(element: usize, priority: u128) -> (r: Self)
        ensures
            r.element == element,
            r.priority == priority,
    {
        PrioritySortableItem { element, priority }
    }
}

/// Entries in ascending order of priority.
pub open spec fn sorted_by_priority(s: Seq<PrioritySortableItem>) -> bool {
    forall|i: int, j: int| 0 <= i < j < s.len() ==> s[i].priority <= s[j].priority
}

/// The smaller of two priorities.
pub open spec fn min_u128(a: u128, b: u128) -> u128 {
    if a <= b {
        a
    } else {
        b
    }
}

/// What offering `item` to a collector of capacity `cap` that holds `before`
/// leaves in it: the item is inserted in order while there is room; when full
/// it takes the place of the last (largest) entry if its priority is strictly
/// smaller, and is dropped if not.
pub open spec fn offered(
    before: Seq<PrioritySortableItem>,
    cap: nat,
    item: PrioritySortableItem,
    after: Seq<PrioritySortableItem>,
) -> bool {
    if before.len() < cap {
        exists|i: int| 0 <= i <= before.len() && after == before.insert(i, item)
    } else if before.len() > 0 && item.priority < before.last().priority {
        exists|i: int| 0 <= i < before.len() && after == before.drop_last().insert(i, item)
    } else {
        after == before
    }
}

/// A collector that keeps at most `size` entries: the ones of smallest
/// priority among those appended. It also remembers the smallest priority it
/// has seen.
pub struct MinPriorityQueue {
    size: usize,
    min: u128,
    elements: Vec<PrioritySortableItem>,
}

impl MinPriorityQueue {
    /// The retained entries, in ascending order of priority.
    pub closed spec fn items(&self) -> Seq<PrioritySortableItem> {
        self.elements@
    }

    /// The number of entries the collector keeps at most.
    pub closed spec fn capacity(&self) -> nat {
        self.size as nat
    }

    /// The smallest priority seen, starting from the initial value.
    pub closed spec fn min_seen(&self) -> u128 {
        self.min
    }

    /// At most `capacity` entries, in ascending order of priority.
    pub open spec fn wf(&self) -> bool {
        &&& self.items().len() <= self.capacity()
        &&& sorted_by_priority(self.items())
    }

    /// No room is left: a new entry must displace one to be kept.
    pub open spec fn is_full(&self) -> bool {
        self.items().len() >= self.capacity()
    }

    pub fn new(size: usize, init: u128) -> (r: Self)
        ensures
            r.wf(),
            r.items() == Seq::<PrioritySortableItem>::empty(),
            r.capacity() == size,
            r.min_seen() == init,
    {
        MinPriorityQueue { size, min: init, elements: Vec::new() }
    }

    /// Offers an entry. While fewer than `size` entries are kept it is kept;
    /// otherwise it replaces the entry of largest priority if its own priority
    /// is strictly smaller, and is dropped if not.
    pub fn append(&mut self, element: usize, priority: u128)
        requires
            old(self).wf(),
        ensures
            final(self).wf(),
            final(self).capacity() == old(self).capacity(),
            final(self).min_seen() == min_u128(old(self).min_seen(), priority),
            offered(
                old(self).items(),
                old(self).capacity(),
                PrioritySortableItem { element, priority },
                final(self).items(),
            ),
    {
        if self.min > priority {
            self.min = priority;
        }
        let len = self.elements.len();
        if len < self.size {
            self.insert_sorted(PrioritySortableItem::new(element, priority));
        } else if len > 0 && priority < self.elements[len - 1].priority {
            let ghost before = self.elements@;
            let _ = self.elements.pop();
            assert(self.elements@ == before.drop_last());
            assert(sorted_by_priority(self.elements@));
            self.insert_sorted(PrioritySortableItem::new(element, priority));
        }
    }

    /// Inserts after every entry of equal or smaller priority.
    fn insert_sorted(&mut self, item: PrioritySortableItem)
        requires
            sorted_by_priority(old(self).elements@),
        ensures
            final(self).size == old(self).size,
            final(self).min == old(self).min,
            sorted_by_priority(final(self).elements@),
            exists|i: int|
                0 <= i <= old(self).elements@.len() && final(self).elements@ == old(
                    self,
                ).elements@.insert(i, item),
    {
        let mut i: usize = 0;
        while i < self.elements.len() && self.elements[i].priority <= item.priority
            invariant
                i <= self.elements@.len(),
                forall|j: int| 0 <= j < i ==> self.elements@[j].priority <= item.priority,
            decreases self.elements@.len() - i,
        {
            i = i + 1;
        }
        self.elements.insert(i, item);
    }

    pub fn get_min_priority(&self) -> (r: u128)
        ensures
            r == self.min_seen(),
    {
        self.min
    }

    /// The pruning bound: the largest retained priority once the collector is
    /// full, `None` (no bound) while it is not.
    pub fn get_max_priority(&self) -> (r: Option<u128>)
        requires
            self.wf(),
        ensures
            r == (if self.is_full() && self.items().len() > 0 {
                Some(self.items().last().priority)
            } else {
                None
            }),
    {
        let len = self.elements.len();
        if len >= self.size && len > 0 {
            Some(self.elements[len - 1].priority)
        } else {
            None
        }
    }

    /// The retained entries in ascending order of priority.
    pub fn get_min_value(self) -> (r: Vec<PrioritySortableItem>)
        ensures
            r@ == self.items(),
    {
        self.elements
    }
}

} // verus!
