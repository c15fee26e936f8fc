use vstd::prelude::*;

verus! {

/// A map over `u64` keys that lie close together, kept as one vector of slots that
/// starts at the smallest key inserted so far.
pub struct CloseIntMap<T> {
    inner: Vec<Option<T>>,
    offset: u64,
}

/// The map that slots `slots`, starting at key `offset`, describe.
pub open spec fn slots_map<T>(slots: Seq<Option<T>>, offset: u64) -> Map<u64, T> {
    Map::new(
        |k: u64| offset <= k && k - offset < slots.len() && slots[k - offset] is Some,
        |k: u64| slots[k - offset]->0,
    )
}

impl<T> CloseIntMap<T> {
    /// The values, by key.
    pub open spec fn map(&self) -> Map<u64, T> {
        slots_map(self.slots(), self.first_key())
    }

    /// The slots, one per key from `first_key()` on.
    pub closed spec fn slots(&self) -> Seq<Option<T>> {
        self.inner@
    }

    /// The key of the first slot.
    pub closed spec fn first_key(&self) -> u64 {
        self.offset
    }

    /// The empty map.
    pub fn new() -> (r: Self)
        ensures
            r.slots() == Seq::<Option<T>>::empty(),
            r.first_key() == 0,
            r.map() == Map::<u64, T>::empty(),
    {
        let r = Self { inner: Vec::new(), offset: 0 };
        assert(r.map() =~= Map::<u64, T>::empty());
        r
    }

    /// Stores `v` under `k`. The first key moves down to `k` where `k` lies below it,
    /// which shifts every slot; the slots run on up to `k` where it lies beyond them.
    pub fn insert(&mut self, k: u64, v: T)
        requires
            old(self).slots().len() > 0 && k >= old(self).first_key() ==> k - old(self).first_key()
                < usize::MAX,
            old(self).slots().len() > 0 && k < old(self).first_key() ==> old(self).first_key() - k
                + old(self).slots().len() < usize::MAX,
        ensures
            final(self).map() == old(self).map().insert(k, v),
            old(self).slots().len() == 0 ==> final(self).first_key() == k && final(self).slots().len()
                == 1,
            old(self).slots().len() > 0 && k >= old(self).first_key() ==> final(self).first_key()
                == old(self).first_key() && final(self).slots().len() == if k - old(self).first_key()
                < old(self).slots().len() {
                old(self).slots().len() as int
            } else {
                k - old(self).first_key() + 1
            },
            old(self).slots().len() > 0 && k < old(self).first_key() ==> final(self).first_key() == k
                && final(self).slots().len() == old(self).first_key() - k + old(self).slots().len(),
    {
        let ghost old_map = self.map();
        let ghost old_slots = self.slots();
        let ghost old_offset = self.offset;
        if self.inner.len() == 0 {
            self.inner.push(Some(v));
            self.offset = k;
            proof {
                assert(self.map() =~= old_map.insert(k, v));
            }
            return;
        }
        if k >= self.offset {
            let idx = (k - self.offset) as usize;
            if idx < self.inner.len() {
                self.inner.set(idx, Some(v));
                proof {
                    assert(self.slots() == old_slots.update(idx as int, Some(v)));
                    assert(self.map() =~= old_map.insert(k, v));
                }
                return;
            } else {
                while idx > self.inner.len()
                    invariant
                        idx <= usize::MAX,
                        old_slots.len() <= self.inner@.len() <= idx,
                        self.offset == old_offset,
                        forall|i: int| 0 <= i < old_slots.len() ==> self.inner@[i] == old_slots[i],
                        forall|i: int| old_slots.len() <= i < self.inner@.len() ==> self.inner@[i] is None,
                    decreases idx - self.inner@.len(),
                {
                    self.inner.push(None);
                }
                self.inner.push(Some(v));
                proof {
                    assert forall|key: u64| #[trigger] self.map().contains_key(key) <==> old_map.insert(
                        k,
                        v,
                    ).contains_key(key) by {
                        if key != k && self.map().contains_key(key) {
                            assert(key - old_offset < old_slots.len());
                        }
                    }
                    assert(self.map() =~= old_map.insert(k, v));
                }
                return;
            }
        }
        let temp_offset = self.offset - k;
        self.offset = k;
        let mut fresh: Vec<Option<T>> = Vec::new();
        fresh.push(Some(v));
        let mut n: u64 = 1;
        while n < temp_offset
            invariant
                1 <= n <= temp_offset,
                fresh@.len() == n,
                fresh@[0] == Some(v),
                forall|i: int| 1 <= i < fresh@.len() ==> fresh@[i] is None,
            decreases temp_offset - n,
        {
            fresh.push(None);
            n += 1;
        }
        fresh.append(&mut self.inner);
        self.inner = fresh;
        proof {
            assert forall|i: int| 0 <= i < old_slots.len() implies self.inner@[i + temp_offset]
                == old_slots[i] by {}
            assert forall|key: u64| #[trigger] self.map().contains_key(key) <==> old_map.insert(
                k,
                v,
            ).contains_key(key) by {
                if key != k && self.map().contains_key(key) {
                    assert(key - k >= temp_offset);
                    assert(self.inner@[key - k] == old_slots[key - k - temp_offset]);
                }
                if key != k && old_map.contains_key(key) {
                    assert(self.inner@[key - k] == old_slots[key - old_offset]);
                }
            }
            assert forall|key: u64| #[trigger] self.map().contains_key(key) && key != k implies self.map()[key]
                == old_map[key] by {
                assert(self.inner@[key - k] == old_slots[key - old_offset]);
            }
            assert(self.map() =~= old_map.insert(k, v));
        }
    }

    /// The value under `k`, if any.
    pub fn get(&self, k: u64) -> (r: Option<&T>)
        ensures
            self.map().contains_key(k) ==> r == Some(&self.map()[k]),
            !self.map().contains_key(k) ==> r is None,
    {
        if k < self.offset {
            return None;
        }
        let idx = k - self.offset;
        if idx >= self.inner.len() as u64 {
            return None;
        }
        match &self.inner[idx as usize] {
            Some(x) => Some(x),
            None => None,
        }
    }

    /// The value under `k`, if any, mutably borrowed.
    pub fn get_mut(&mut self, k: u64) -> (r: Option<&mut T>)
        ensures
            old(self).map().contains_key(k) ==> r is Some && *r->0 == old(self).map()[k]
                && final(self).map() == old(self).map().insert(k, *final(r->0)),
            !old(self).map().contains_key(k) ==> r is None && final(self).map() == old(self).map(),
    {
        if k < self.offset {
            return None;
        }
        let idx = k - self.offset;
        if idx >= self.inner.len() as u64 {
            return None;
        }
        let ghost old_map = self.map();
        proof {
            if old_map.contains_key(k) {
                self.lemma_fill_slot(idx as int);
            }
        }
        match &mut self.inner[idx as usize] {
            Some(x) => Some(x),
            None => None,
        }
    }

    proof fn lemma_fill_slot(&self, idx: int)
        requires
            0 <= idx < self.slots().len(),
            self.slots()[idx] is Some,
            self.first_key() + idx <= u64::MAX,
        ensures
            forall|x: T|
                #[trigger] slots_map(self.slots().update(idx, Some(x)), self.first_key()) == self.map().insert(
                    (self.first_key() + idx) as u64,
                    x,
                ),
    {
        assert forall|x: T|
            #[trigger] slots_map(self.slots().update(idx, Some(x)), self.first_key()) == self.map().insert(
                (self.first_key() + idx) as u64,
                x,
            ) by {
            assert(slots_map(self.slots().update(idx, Some(x)), self.first_key()) =~= self.map().insert(
                (self.first_key() + idx) as u64,
                x,
            ));
        }
    }
}

/// A value stored under a key is what a read of that key gives, and storing it leaves
/// the other keys as they were.
pub proof fn law_get_after_insert<T>(m: Map<u64, T>, k: u64, v: T, other: u64)
    requires
        other != k,
    ensures
        m.insert(k, v).contains_key(k),
        m.insert(k, v)[k] == v,
        m.insert(k, v).contains_key(other) == m.contains_key(other),
        m.contains_key(other) ==> m.insert(k, v)[other] == m[other],
{
}

} // verus!
