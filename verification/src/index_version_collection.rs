use std::collections::VecDeque;
use vstd::prelude::*;

verus! {

/// A handle into a `VersionCollection`: a slot and the version it was issued under.
#[derive(Clone, Copy, PartialEq, Eq, Structural, PartialOrd, Ord, Hash, Debug)]
pub struct VersionIndex {
    pub index: u64,
    pub version: u64,
}

impl VersionIndex {
    /// The handle that no value is ever stored under: version 0 is never issued.
    pub fn empty() -> (r: VersionIndex)
        ensures
            r == (VersionIndex { index: 0, version: 0 }),
    {
        VersionIndex { index: 0, version: 0 }
    }
}

impl Default for VersionIndex {
    fn default() -> (r: Self)
        ensures
            r == (VersionIndex { index: 0, version: 0 }),
    {
        Self::empty()
    }
}

/// The version a slot moves to when its value is removed: one more, skipping 0.
pub open spec fn next_version(v: u64) -> u64 {
    if v == u64::MAX {
        1
    } else {
        (v + 1) as u64
    }
}

/// `h` names an occupied slot of `slots` under the slot's current version.
pub open spec fn slot_resolves<T>(slots: Seq<(u64, Option<T>)>, h: VersionIndex) -> bool {
    &&& h.index < slots.len()
    &&& slots[h.index as int].0 == h.version
    &&& slots[h.index as int].1 is Some
}

/// The value reachable under `h`, if any.
pub open spec fn lookup<T>(slots: Seq<(u64, Option<T>)>, h: VersionIndex) -> Option<T> {
    if slot_resolves(slots, h) {
        slots[h.index as int].1
    } else {
        None
    }
}

/// The slots, the free slots and the handle after storing `data`: the first free slot
/// is reused at its version, or a new slot is added at version 1.
pub open spec fn inserted<T>(slots: Seq<(u64, Option<T>)>, free: Seq<u64>, data: T) -> (Seq<
    (u64, Option<T>),
>, Seq<u64>, VersionIndex) {
    if free.len() > 0 {
        let i = free[0];
        (
            slots.update(i as int, (slots[i as int].0, Some(data))),
            free.drop_first(),
            VersionIndex { index: i, version: slots[i as int].0 },
        )
    } else {
        (slots.push((1u64, Some(data))), free, VersionIndex { index: slots.len() as u64, version: 1 })
    }
}

/// The slots, the free slots and the value after removing what `h` reaches: the slot
/// moves to the next version and joins the end of the free slots. Nothing changes where
/// `h` reaches nothing.
pub open spec fn removed<T>(slots: Seq<(u64, Option<T>)>, free: Seq<u64>, h: VersionIndex) -> (Seq<
    (u64, Option<T>),
>, Seq<u64>, Option<T>) {
    if slot_resolves(slots, h) {
        (
            slots.update(h.index as int, (next_version(h.version), None::<T>)),
            free.push(h.index),
            slots[h.index as int].1,
        )
    } else {
        (slots, free, None)
    }
}

/// The slots and free slots agree: versions start at 1, and the free slots are exactly
/// the empty ones, each listed once.
pub open spec fn consistent<T>(slots: Seq<(u64, Option<T>)>, free: Seq<u64>) -> bool {
    &&& forall|i: int| 0 <= i < slots.len() ==> #[trigger] slots[i].0 >= 1
    &&& free.no_duplicates()
    &&& forall|k: int| 0 <= k < free.len() ==> #[trigger] free[k] < slots.len()
    &&& forall|i: int|
        #![trigger slots[i]]
        0 <= i < slots.len() ==> (slots[i].1 is None <==> free.contains(i as u64))
}

struct DataWithVersion<T> {
    version: u64,
    data: Option<T>,
}

/// A slot map: values stay reachable through the handle they were inserted under
/// until they are removed.
pub struct VersionCollection<T> {
    items: Vec<DataWithVersion<T>>,
    free_places: VecDeque<u64>,
    count: u64,
}

/// The number of occupied slots.
pub open spec fn occupied_count<T>(slots: Seq<(u64, Option<T>)>) -> nat
    decreases slots.len(),
{
    if slots.len() == 0 {
        0
    } else {
        occupied_count(slots.drop_last()) + if slots.last().1 is Some {
            1nat
        } else {
            0nat
        }
    }
}

proof fn lemma_occupied_update<T>(slots: Seq<(u64, Option<T>)>, i: int, e: (u64, Option<T>))
    requires
        0 <= i < slots.len(),
    ensures
        occupied_count(slots.update(i, e)) + (if slots[i].1 is Some { 1int } else { 0int })
            == occupied_count(slots) + (if e.1 is Some { 1int } else { 0int }),
    decreases slots.len(),
{
    if i == slots.len() - 1 {
        assert(slots.update(i, e).drop_last() =~= slots.drop_last());
    } else {
        lemma_occupied_update(slots.drop_last(), i, e);
        assert(slots.update(i, e).drop_last() =~= slots.drop_last().update(i, e));
    }
}

proof fn lemma_same_shape_count<T>(a: Seq<(u64, Option<T>)>, b: Seq<(u64, Option<T>)>)
    requires
        a.len() == b.len(),
        forall|j: int| 0 <= j < a.len() ==> (a[j].1 is Some <==> b[j].1 is Some),
    ensures
        occupied_count(a) == occupied_count(b),
    decreases a.len(),
{
    if a.len() > 0 {
        lemma_same_shape_count(a.drop_last(), b.drop_last());
    }
}

proof fn lemma_occupied_bound<T>(slots: Seq<(u64, Option<T>)>)
    ensures
        occupied_count(slots) <= slots.len(),
    decreases slots.len(),
{
    if slots.len() > 0 {
        lemma_occupied_bound(slots.drop_last());
    }
}

impl<T> VersionCollection<T> {
    /// The slots: each with its version and the value it holds, if any.
    pub closed spec fn slots(&self) -> Seq<(u64, Option<T>)> {
        self.items@.map_values(|d: DataWithVersion<T>| (d.version, d.data))
    }

    /// The free slots, in the order they are reused.
    pub closed spec fn free(&self) -> Seq<u64> {
        self.free_places@
    }

    /// `h` names an occupied slot under the slot's current version.
    pub open spec fn resolves(&self, h: VersionIndex) -> bool {
        slot_resolves(self.slots(), h)
    }

    /// `h` names a free slot under the slot's current version. No handle that
    /// `insert` returned does so while the collection is used through its methods.
    pub open spec fn names_free_slot(&self, h: VersionIndex) -> bool {
        &&& h.index < self.slots().len()
        &&& self.slots()[h.index as int].0 == h.version
        &&& self.slots()[h.index as int].1 is None
    }

    pub closed spec fn wf(&self) -> bool {
        &&& self.items@.len() < u64::MAX
        &&& self.count == occupied_count(self.slots())
        &&& consistent(self.slots(), self.free())
    }

    proof fn lemma_same_shape_wf(&self)
        requires
            self.wf(),
        ensures
            forall|c: Self|
                #![trigger c.wf()]
                c.count == self.count && c.free_places@ == self.free_places@ && c.items@.len()
                    == self.items@.len() && (forall|j: int|
                    0 <= j < self.items@.len() ==> c.items@[j].version == self.items@[j].version
                        && (c.items@[j].data is Some <==> self.items@[j].data is Some)) ==> c.wf(),
    {
        assert forall|c: Self|
            c.count == self.count && c.free_places@ == self.free_places@ && c.items@.len()
                == self.items@.len() && (forall|j: int|
                0 <= j < self.items@.len() ==> c.items@[j].version == self.items@[j].version && (
                c.items@[j].data is Some <==> self.items@[j].data is Some)) implies #[trigger] c.wf() by {
            assert forall|j: int| 0 <= j < c.slots().len() implies (c.slots()[j].1 is Some
                <==> self.slots()[j].1 is Some) && c.slots()[j].0 == self.slots()[j].0 by {
                assert(c.items@[j].data is Some <==> self.items@[j].data is Some);
            }
            lemma_same_shape_count(c.slots(), self.slots());
            assert forall|i: int| 0 <= i < c.slots().len() implies #[trigger] c.slots()[i].0 >= 1 by {
                assert(self.slots()[i].0 >= 1);
            }
            assert forall|i: int|
                #![trigger c.slots()[i]]
                0 <= i < c.slots().len() implies (c.slots()[i].1 is None <==> c.free().contains(
                i as u64,
            )) by {
                assert(self.slots()[i].1 is None <==> self.free().contains(i as u64));
            }
        }
    }

    /// A collection used through its methods keeps its slots and free slots consistent,
    /// and has fewer slots than the largest handle index.
    pub proof fn lemma_consistent(&self)
        requires
            self.wf(),
        ensures
            consistent(self.slots(), self.free()),
            self.slots().len() < u64::MAX,
    {
    }

    /// The empty collection.
    pub fn new() -> (r: Self)
        ensures
            r.wf(),
            r.slots() == Seq::<(u64, Option<T>)>::empty(),
            r.free() == Seq::<u64>::empty(),
    {
        let r = Self { items: Vec::new(), free_places: VecDeque::new(), count: 0 };
        assert(r.slots() =~= Seq::<(u64, Option<T>)>::empty());
        r
    }

    /// Stores `data` in the first free slot, or in a new slot at version 1 when no slot
    /// is free, and returns the handle it is reachable under.
    pub fn insert(&mut self, data: T) -> (r: VersionIndex)
        requires
            old(self).wf(),
            old(self).slots().len() < u64::MAX - 1,
        ensures
            final(self).wf(),
            (final(self).slots(), final(self).free(), r) == inserted(
                old(self).slots(),
                old(self).free(),
                data,
            ),
    {
        let ghost old_slots = self.slots();
        let ghost old_free = self.free();
        proof {
            lemma_occupied_bound(old_slots);
        }
        let n = self.items.len();
        if let Some(index) = self.free_places.pop_front() {
            proof {
                assert(old_free[0] == index);
                assert(index < old_slots.len());
                assert(old_free.contains(index));
                let ii = index as int;
                assert(old_slots[ii].1 is None);
            }
            let i = index as usize;
            let version = self.items[i].version;
            self.items[i].data = Some(data);
            self.count = self.count + 1;
            proof {
                let e = (version, Some(data));
                assert(self.slots() =~= old_slots.update(i as int, e));
                lemma_occupied_update(old_slots, i as int, e);
                assert(old_free[0] == index);
                assert(old_slots[i as int].1 is None);
                assert(self.free() =~= old_free.drop_first());
                assert forall|k: int| 0 <= k < self.free().len() implies #[trigger] self.free()[k]
                    < self.slots().len() by {
                    assert(self.free()[k] == old_free[k + 1]);
                }
                assert forall|j: int| 0 <= j < self.slots().len() implies (
                #[trigger] self.slots()[j].1 is None <==> self.free().contains(j as u64)) by {
                    if j == i {
                        if self.free().contains(j as u64) {
                            let k = choose|k: int| 0 <= k < self.free().len() && self.free()[k] == j as u64;
                            assert(self.free()[k] == old_free[k + 1]);
                            assert(old_free[k + 1] == old_free[0]);
                        }
                    } else {
                        if old_free.contains(j as u64) {
                            let k = choose|k: int| 0 <= k < old_free.len() && old_free[k] == j as u64;
                            assert(k != 0);
                            assert(self.free()[k - 1] == j as u64);
                        }
                        if self.free().contains(j as u64) {
                            let k = choose|k: int| 0 <= k < self.free().len() && self.free()[k] == j as u64;
                            assert(old_free[k + 1] == j as u64);
                        }
                    }
                }
            }
            proof {
                assert forall|j: int| 0 <= j < self.slots().len() implies #[trigger] self.slots()[j].0
                    >= 1 by {
                    assert(old_slots[j].0 >= 1);
                }
            }
            return VersionIndex { index, version };
        }
        let index: u64 = self.items.len() as u64;
        let version: u64 = 1;
        self.items.push(DataWithVersion { data: Some(data), version });
        self.count = self.count + 1;
        proof {
            let e = (1u64, Some(data));
            assert(self.slots() =~= old_slots.push(e));
            assert(self.slots().drop_last() =~= old_slots);
            assert forall|j: int| 0 <= j < self.slots().len() implies (
            #[trigger] self.slots()[j].1 is None <==> self.free().contains(j as u64)) by {
                if j == index {
                    assert(!self.free().contains(j as u64));
                }
            }
        }
        VersionIndex { index, version }
    }

    /// Removes the value reachable under `index`, if any; the slot moves to the next
    /// version and joins the end of the free slots.
    pub fn remove(&mut self, index: VersionIndex) -> (r: Option<T>)
        requires
            old(self).wf(),
            !old(self).names_free_slot(index),
        ensures
            final(self).wf(),
            (final(self).slots(), final(self).free(), r) == removed(
                old(self).slots(),
                old(self).free(),
                index,
            ),
    {
        let ghost old_slots = self.slots();
        let ghost old_free = self.free();
        if index.index >= self.items.len() as u64 {
            return None;
        }
        let i = index.index as usize;
        if self.items[i].version != index.version {
            return None;
        }
        let v = self.items[i].version;
        let new_version: u64 = if v == u64::MAX {
            1
        } else {
            v + 1
        };
        self.items[i].version = new_version;
        let data = self.items[i].data.take();
        self.free_places.push_back(index.index);
        proof {
            lemma_occupied_update(old_slots, i as int, (new_version, None::<T>));
            assert(self.slots() =~= old_slots.update(i as int, (new_version, None::<T>)));
            assert(old_slots[i as int].1 is Some);
            assert(!old_free.contains(index.index));
            assert forall|k: int| 0 <= k < self.free().len() implies #[trigger] self.free()[k]
                < self.slots().len() by {
                if k < old_free.len() {
                    assert(self.free()[k] == old_free[k]);
                }
            }
            assert forall|j: int| 0 <= j < self.slots().len() implies (
            #[trigger] self.slots()[j].1 is None <==> self.free().contains(j as u64)) by {
                if j == i {
                    assert(self.free()[old_free.len() as int] == index.index);
                } else {
                    if old_free.contains(j as u64) {
                        let k = choose|k: int| 0 <= k < old_free.len() && old_free[k] == j as u64;
                        assert(self.free()[k] == j as u64);
                    }
                    if self.free().contains(j as u64) {
                        let k = choose|k: int| 0 <= k < self.free().len() && self.free()[k] == j as u64;
                        if k < old_free.len() {
                            assert(old_free[k] == j as u64);
                        }
                    }
                }
            }
        }
        self.count = self.count - 1;
        data
    }

    /// The value reachable under `index`, if any.
    pub fn get(&self, index: VersionIndex) -> (r: Option<&T>)
        requires
            self.wf(),
            !self.names_free_slot(index),
        ensures
            self.resolves(index) ==> r == Some(&self.slots()[index.index as int].1->0),
            !self.resolves(index) ==> r is None,
    {
        if index.index >= self.items.len() as u64 {
            return None;
        }
        let d = &self.items[index.index as usize];
        if index.version != d.version {
            return None;
        }
        match &d.data {
            Some(x) => Some(x),
            None => None,
        }
    }

    /// The value reachable under `index`, if any, mutably borrowed.
    pub fn get_mut(&mut self, index: VersionIndex) -> (r: Option<&mut T>)
        requires
            old(self).wf(),
            !old(self).names_free_slot(index),
        ensures
            final(self).wf(),
            final(self).free() == old(self).free(),
            old(self).resolves(index) ==> r is Some && *r->0 == old(self).slots()[index.index as int].1->0
                && final(self).slots() == old(self).slots().update(
                index.index as int,
                (index.version, Some(*final(r->0))),
            ),
            !old(self).resolves(index) ==> r is None && final(self).slots() == old(self).slots(),
    {
        if index.index >= self.items.len() as u64 {
            return None;
        }
        let i = index.index as usize;
        if index.version != self.items[i].version {
            return None;
        }
        proof {
            assert(self.slots()[i as int].1 is Some);
            self.lemma_same_shape_wf();
        }
        let slot = &mut self.items[i];
        match &mut slot.data {
            Some(x) => Some(x),
            None => {
                assert(false);
                None
            },
        }
    }

    /// Whether `index` carries its slot's current version, whether or not the slot holds
    /// a value.
    pub fn contains_index(&self, index: VersionIndex) -> (r: bool)
        ensures
            r == (index.index < self.slots().len() && self.slots()[index.index as int].0
                == index.version),
    {
        if index.index >= self.items.len() as u64 {
            return false;
        }
        index.version == self.items[index.index as usize].version
    }

    /// The number of stored values.
    pub fn len(&self) -> (r: u64)
        requires
            self.wf(),
        ensures
            r == occupied_count(self.slots()),
    {
        self.count
    }

    /// Whether no value is stored.
    pub fn is_empty(&self) -> (r: bool)
        requires
            self.wf(),
        ensures
            r == (occupied_count(self.slots()) == 0),
    {
        self.count == 0
    }
}

impl<T> VersionCollection<T> {
    /// A walk over the stored values, in slot order.
    pub fn iter<'a>(&'a self) -> (r: VersionCollectionIter<'a, T>)
        ensures
            r.slots() == self.slots(),
            r.position() == 0,
    {
        VersionCollectionIter { collection: self, next_index: 0 }
    }
}

/// A walk over the values of a `VersionCollection`, in slot order.
pub struct VersionCollectionIter<'a, T> {
    collection: &'a VersionCollection<T>,
    next_index: u64,
}

impl<'a, T> VersionCollectionIter<'a, T> {
    /// The slots walked over.
    pub closed spec fn slots(&self) -> Seq<(u64, Option<T>)> {
        self.collection.slots()
    }

    /// The first slot not yet looked at.
    pub closed spec fn position(&self) -> int {
        self.next_index as int
    }

    /// The value in the first occupied slot from the current position on, if any; the
    /// walk moves past that slot, or past the last slot when none is occupied.
    pub fn next(&mut self) -> (r: Option<&'a T>)
        ensures
            final(self).slots() == old(self).slots(),
            r is Some ==> ({
                let j = final(self).position() - 1;
                &&& old(self).position() <= j < old(self).slots().len()
                &&& old(self).slots()[j].1 == Some(*r->0)
                &&& forall|k: int|
                    old(self).position() <= k < j ==> (#[trigger] old(self).slots()[k]).1 is None
            }),
            r is None ==> (forall|k: int|
                old(self).position() <= k < old(self).slots().len() ==> (
                #[trigger] old(self).slots()[k]).1 is None) && final(self).position() == (if old(
                self,
            ).position() < old(self).slots().len() {
                old(self).slots().len() as int
            } else {
                old(self).position()
            }),
    {
        let c: &'a VersionCollection<T> = self.collection;
        let ghost p0 = self.next_index as int;
        let n: usize = c.items.len();
        let len = n as u64;
        while self.next_index < len
            invariant
                len == n,
                self.collection == c,
                c == old(self).collection,
                p0 == old(self).next_index,
                len == c.slots().len(),
                len == c.items@.len(),
                p0 <= self.next_index,
                p0 < len ==> self.next_index <= len,
                p0 >= len ==> self.next_index == p0,
                forall|k: int| p0 <= k < self.next_index ==> (#[trigger] c.slots()[k]).1 is None,
            decreases len - self.next_index,
        {
            let i = self.next_index as usize;
            self.next_index = self.next_index + 1;
            match &c.items[i].data {
                Some(x) => {
                    assert(c.slots()[i as int].1 == c.items@[i as int].data);
                    return Some(x);
                },
                None => {
                    assert(c.slots()[i as int].1 == c.items@[i as int].data);
                },
            }
        }
        None
    }
}

impl<T> Default for VersionCollection<T> {
    fn default() -> (r: Self)
        ensures
            r.wf(),
            r.slots() == Seq::<(u64, Option<T>)>::empty(),
            r.free() == Seq::<u64>::empty(),
    {
        Self::new()
    }
}


/// A value is reachable under the handle that storing it returned.
pub proof fn law_get_after_insert<T>(slots: Seq<(u64, Option<T>)>, free: Seq<u64>, data: T)
    requires
        consistent(slots, free),
        slots.len() < u64::MAX,
    ensures
        ({
            let (s1, f1, h) = inserted(slots, free, data);
            lookup(s1, h) == Some(data)
        }),
{
    if free.len() > 0 {
        assert(free[0] < slots.len());
    }
}

/// Removing through the handle that storing a value returned gives the value back,
/// and the handle reaches nothing afterwards.
pub proof fn law_remove_after_insert<T>(slots: Seq<(u64, Option<T>)>, free: Seq<u64>, data: T)
    requires
        consistent(slots, free),
        slots.len() < u64::MAX,
    ensures
        ({
            let (s1, f1, h) = inserted(slots, free, data);
            let (s2, f2, r) = removed(s1, f1, h);
            r == Some(data) && lookup(s2, h) is None
        }),
{
    law_get_after_insert(slots, free, data);
    let (s1, f1, h) = inserted(slots, free, data);
    assert(next_version(h.version) != h.version);
}

/// A handle whose value was removed reaches nothing after the next value is stored,
/// even where that value reuses the slot: the new handle differs from the old one.
pub proof fn law_stale_handle_after_reuse<T>(
    slots: Seq<(u64, Option<T>)>,
    free: Seq<u64>,
    h: VersionIndex,
    data: T,
)
    requires
        consistent(slots, free),
        slots.len() < u64::MAX,
        slot_resolves(slots, h),
    ensures
        ({
            let (s1, f1, r) = removed(slots, free, h);
            let (s2, f2, h2) = inserted(s1, f1, data);
            &&& r == slots[h.index as int].1
            &&& lookup(s2, h) is None
            &&& h2 != h
        }),
{
    let (s1, f1, r) = removed(slots, free, h);
    assert(next_version(h.version) != h.version);
    assert(s1[h.index as int].0 == next_version(h.version));
    if f1.len() > 0 {
        let i = f1[0];
        if i == h.index {
            assert(s1[i as int].0 != h.version);
        } else {
            assert(i < slots.len() || i == h.index) by {
                if free.len() > 0 {
                    assert(f1[0] == free[0]);
                }
            }
        }
    }
}

/// Storing a value adds one to the number of stored values; removing one through a
/// handle that reaches it takes one away.
pub proof fn law_count<T>(slots: Seq<(u64, Option<T>)>, free: Seq<u64>, h: VersionIndex, data: T)
    requires
        consistent(slots, free),
        slots.len() < u64::MAX,
    ensures
        occupied_count(inserted(slots, free, data).0) == occupied_count(slots) + 1,
        slot_resolves(slots, h) ==> occupied_count(removed(slots, free, h).0) + 1
            == occupied_count(slots),
        !slot_resolves(slots, h) ==> occupied_count(removed(slots, free, h).0) == occupied_count(
            slots,
        ),
{
    if free.len() > 0 {
        let i = free[0] as int;
        assert(free.contains(free[0]));
        assert(slots[i].1 is None);
        lemma_occupied_update(slots, i, (slots[i].0, Some(data)));
    } else {
        assert(slots.push((1u64, Some(data))).drop_last() =~= slots);
    }
    if slot_resolves(slots, h) {
        lemma_occupied_update(slots, h.index as int, (next_version(h.version), None::<T>));
    }
}

} // verus!
