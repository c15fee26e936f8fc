use vstd::prelude::*;

verus! {

/// Hands out consecutive ids to type names, one id per name.
pub struct TypesRegistry {
    types: Vec<(String, u64)>,
    free_id: u64,
}

impl View for TypesRegistry {
    /// The registered names, in the order of their ids.
    type V = Seq<Seq<char>>;

    closed spec fn view(&self) -> Seq<Seq<char>> {
        self.types@.map_values(|e: (String, u64)| e.0@)
    }
}

impl TypesRegistry {
    pub closed spec fn wf(&self) -> bool {
        &&& self.free_id == self.types@.len()
        &&& forall|i: int| 0 <= i < self.types@.len() ==> #[trigger] self.types@[i].1 == i
        &&& self@.no_duplicates()
    }

    /// The registry with no names.
    pub fn new() -> (r: Self)
        ensures
            r.wf(),
            r@ == Seq::<Seq<char>>::empty(),
    {
        let r = Self { types: Vec::new(), free_id: 0 };
        assert(r@ =~= Seq::<Seq<char>>::empty());
        r
    }

    /// The number of registered names.
    pub fn len(&self) -> (r: usize)
        ensures
            r == self@.len(),
    {
        self.types.len()
    }

    /// Whether no name is registered.
    pub fn is_empty(&self) -> (r: bool)
        ensures
            r == (self@.len() == 0),
    {
        self.types.len() == 0
    }

    fn position(&self, key: &String) -> (r: Option<usize>)
        ensures
            match r {
                Some(i) => i < self@.len() && self@[i as int] == key@,
                None => !self@.contains(key@),
            },
    {
        let mut i: usize = 0;
        while i < self.types.len()
            invariant
                i <= self.types@.len(),
                forall|k: int| 0 <= k < i ==> self@[k] != key@,
            decreases self.types@.len() - i,
        {
            if self.types[i].0 == *key {
                return Some(i);
            }
            i += 1;
        }
        None
    }

    /// Each registered name is registered once: the ids of distinct positions name
    /// distinct names.
    pub proof fn lemma_names_distinct(&self)
        requires
            self.wf(),
        ensures
            self@.no_duplicates(),
    {
    }

    /// The id of `name`, registering it under the next free id when it is new.
    pub fn get_or_register(&mut self, name: &str) -> (r: u64)
        requires
            old(self).wf(),
            old(self)@.len() < u64::MAX,
        ensures
            final(self).wf(),
            final(self)@.no_duplicates(),
            final(self)@ == registered(old(self)@, name@),
            r < final(self)@.len() && final(self)@[r as int] == name@,
            !old(self)@.contains(name@) ==> r == old(self)@.len(),
    {
        let owned = name.to_owned();
        match self.position(&owned) {
            Some(i) => {
                let id = self.types[i].1;
                return id;
            },
            None => {},
        }
        let new_id = self.free_id;
        self.free_id += 1;
        let ghost before = self@;
        self.types.push((owned, new_id));
        assert(self@ =~= before.push(name@));
        assert(self@.no_duplicates()) by {
            assert forall|a: int, b: int|
                0 <= a < self@.len() && 0 <= b < self@.len() && a != b implies self@[a]
                != self@[b] by {
                if a == before.len() {
                    assert(self@[b] == before[b]);
                    assert(!before.contains(name@));
                } else if b == before.len() {
                    assert(self@[a] == before[a]);
                    assert(!before.contains(name@));
                }
            }
        }
        new_id
    }

    /// The id of `name`, if it is registered.
    pub fn get(&self, name: &str) -> (r: Option<u64>)
        requires
            self.wf(),
        ensures
            self@.contains(name@) ==> r is Some && r->0 < self@.len() && self@[r->0 as int]
                == name@,
            !self@.contains(name@) ==> r is None,
    {
        let owned = name.to_owned();
        match self.position(&owned) {
            Some(i) => Some(self.types[i].1),
            None => None,
        }
    }
}


/// The names after registering `name`: unchanged where it is known, else with `name`
/// appended.
pub open spec fn registered(names: Seq<Seq<char>>, name: Seq<char>) -> Seq<Seq<char>> {
    if names.contains(name) {
        names
    } else {
        names.push(name)
    }
}

/// Registering a name twice changes nothing the second time, and the name holds one id.
pub proof fn law_register_twice(names: Seq<Seq<char>>, name: Seq<char>)
    requires
        names.no_duplicates(),
    ensures
        registered(names, name).no_duplicates(),
        registered(names, name).contains(name),
        registered(registered(names, name), name) == registered(names, name),
        forall|a: int, b: int|
            0 <= a < registered(names, name).len() && 0 <= b < registered(names, name).len()
                && registered(names, name)[a] == name && registered(names, name)[b] == name
                ==> a == b,
{
    let n1 = registered(names, name);
    if !names.contains(name) {
        assert(n1[names.len() as int] == name);
        assert forall|a: int, b: int| 0 <= a < n1.len() && 0 <= b < n1.len() && a != b implies n1[a]
            != n1[b] by {
            if a == names.len() {
                assert(n1[b] == names[b]);
            } else if b == names.len() {
                assert(n1[a] == names[a]);
            }
        }
    }
}

} // verus!
