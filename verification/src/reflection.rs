use std::marker::PhantomData;
use vstd::prelude::*;

verus! {

/// The identity of a reflected type: its name.
#[derive(Hash, PartialOrd, Ord, Debug)]
pub struct ReflTyId(String);

impl View for ReflTyId {
    type V = Seq<char>;

    closed spec fn view(&self) -> Seq<char> {
        self.0@
    }
}

impl ReflTyId {
    /// The identity named `name`.
    pub fn new(name: String) -> (r: Self)
        ensures
            r@ == name@,
    {
        Self(name)
    }

    /// The name.
    pub fn as_str(&self) -> (r: &str)
        ensures
            r@ == self@,
    {
        self.0.as_str()
    }
}

impl PartialEq for ReflTyId {
    fn eq(&self, other: &Self) -> (r: bool) {
        self.0 == other.0
    }
}

impl vstd::std_specs::cmp::PartialEqSpecImpl for ReflTyId {
    open spec fn obeys_eq_spec() -> bool {
        true
    }

    open spec fn eq_spec(&self, other: &Self) -> bool {
        self@ == other@
    }
}

impl Eq for ReflTyId {
}

/// The shape of a type: its fields and their types, without values.
pub enum ReflTy {
    Struct(ReflTyStruct),
    Enum(ReflTyEnum),
    Array(ReflTyId, u64),
    Slice(ReflTyId),
}

/// The variants of an enum, each with its name and fields.
pub struct ReflTyEnum {
    pub variants: Vec<(String, ReflTyStruct)>,
}

/// The fields of a struct or of an enum variant.
pub enum ReflTyStruct {
    Unit,
    Tuple(Vec<ReflTyId>),
    Named(Vec<(String, ReflTyId)>),
}

/// A type that describes its own shape.
pub trait ReflectTy {
    fn refl_ty() -> ReflTy;
}

/// The position of the entry with key `k`, if there is one.
pub open spec fn key_index(keys: Seq<Seq<char>>, k: Seq<char>) -> int {
    choose|i: int| 0 <= i < keys.len() && keys[i] == k
}

/// The shapes of types, by their identity.
pub struct ReflTyRegistry {
    types: Vec<(ReflTyId, ReflTy)>,
}

impl ReflTyRegistry {
    /// The identities, in the order they were first set.
    pub closed spec fn keys(&self) -> Seq<Seq<char>> {
        self.types@.map_values(|e: (ReflTyId, ReflTy)| e.0@)
    }

    /// The shapes, by identity.
    pub closed spec fn types(&self) -> Map<Seq<char>, ReflTy> {
        Map::new(
            |k: Seq<char>| self.keys().contains(k),
            |k: Seq<char>| self.types@[key_index(self.keys(), k)].1,
        )
    }

    pub closed spec fn wf(&self) -> bool {
        self.keys().no_duplicates()
    }

    /// The registry with no types.
    pub fn new() -> (r: Self)
        ensures
            r.wf(),
            r.types() == Map::<Seq<char>, ReflTy>::empty(),
    {
        let r = Self { types: Vec::new() };
        assert(r.types() =~= Map::<Seq<char>, ReflTy>::empty());
        r
    }

    fn position(&self, id: &ReflTyId) -> (r: Option<usize>)
        ensures
            match r {
                Some(i) => i < self.keys().len() && self.keys()[i as int] == id@,
                None => !self.keys().contains(id@),
            },
    {
        let mut i: usize = 0;
        while i < self.types.len()
            invariant
                i <= self.types@.len(),
                forall|k: int| 0 <= k < i ==> self.keys()[k] != id@,
            decreases self.types@.len() - i,
        {
            if self.types[i].0.0 == id.0 {
                return Some(i);
            }
            i += 1;
        }
        None
    }

    /// Records `ty` as the shape of `id`, replacing any shape recorded before.
    pub fn set(&mut self, id: ReflTyId, ty: ReflTy)
        requires
            old(self).wf(),
        ensures
            final(self).wf(),
            final(self).types() == old(self).types().insert(id@, ty),
    {
        let ghost old_keys = self.keys();
        let ghost old_types = self.types();
        let ghost k = id@;
        match self.position(&id) {
            Some(i) => {
                self.types.set(i, (id, ty));
                proof {
                    assert(self.keys() =~= old_keys);
                    assert forall|j: int| 0 <= j < old_keys.len() && old_keys[j] == k implies j
                        == i by {}
                    assert(key_index(self.keys(), k) == i);
                    assert forall|kk: Seq<char>| #[trigger] self.types().contains_key(kk) && kk
                        != k implies self.types()[kk] == old_types[kk] by {
                        let j = key_index(old_keys, kk);
                        assert(j != i);
                    }
                    assert(self.types() =~= old_types.insert(k, ty));
                }
            },
            None => {
                self.types.push((id, ty));
                proof {
                    assert(self.keys() =~= old_keys.push(k));
                    let n = old_keys.len() as int;
                    assert(self.keys()[n] == k);
                    assert(self.keys().no_duplicates()) by {
                        assert forall|a: int, b: int|
                            0 <= a < self.keys().len() && 0 <= b < self.keys().len() && a != b implies self.keys()[a]
                            != self.keys()[b] by {
                            if a == n {
                                assert(self.keys()[b] == old_keys[b]);
                            } else if b == n {
                                assert(self.keys()[a] == old_keys[a]);
                            }
                        }
                    }
                    assert forall|j: int| 0 <= j < self.keys().len() && self.keys()[j] == k implies j
                        == n by {
                        if j < n {
                            assert(old_keys[j] == k);
                        }
                    }
                    assert forall|kk: Seq<char>| #[trigger] self.types().contains_key(kk) && kk
                        != k implies self.types()[kk] == old_types[kk] by {
                        assert(old_keys.contains(kk)) by {
                            let j = choose|j: int| 0 <= j < self.keys().len() && self.keys()[j] == kk;
                            assert(old_keys[j] == kk);
                        }
                        let j = key_index(old_keys, kk);
                        assert(self.keys()[j] == kk);
                        assert(key_index(self.keys(), kk) == j);
                    }
                    assert forall|kk: Seq<char>| old_types.contains_key(kk) implies self.types().contains_key(
                        kk,
                    ) by {
                        let j = choose|j: int| 0 <= j < old_keys.len() && old_keys[j] == kk;
                        assert(self.keys()[j] == kk);
                    }
                    assert(self.types() =~= old_types.insert(k, ty));
                }
            },
        }
    }

    /// The shape recorded for `id`, if any.
    pub fn get(&self, id: &ReflTyId) -> (r: Option<&ReflTy>)
        requires
            self.wf(),
        ensures
            self.types().contains_key(id@) ==> r == Some(&self.types()[id@]),
            !self.types().contains_key(id@) ==> r is None,
    {
        match self.position(id) {
            Some(i) => {
                proof {
                    assert forall|j: int| 0 <= j < self.keys().len() && self.keys()[j] == id@ implies j
                        == i by {}
                    assert(key_index(self.keys(), id@) == i);
                }
                Some(&self.types[i].1)
            },
            None => None,
        }
    }
}

impl Default for ReflTyRegistry {
    fn default() -> (r: Self)
        ensures
            r.wf(),
            r.types() == Map::<Seq<char>, ReflTy>::empty(),
    {
        Self::new()
    }
}

/// The types after setting each of `sets` in turn.
pub open spec fn after_sets(types: Map<Seq<char>, ReflTy>, sets: Seq<(Seq<char>, ReflTy)>) -> Map<
    Seq<char>,
    ReflTy,
>
    decreases sets.len(),
{
    if sets.len() == 0 {
        types
    } else {
        after_sets(types, sets.drop_last()).insert(sets.last().0, sets.last().1)
    }
}

/// The most recent `set` of an id wins: after setting `ty` under `id`, any number of
/// later sets under other ids leave `ty` under `id`; an id never set stays unset.
pub proof fn law_latest_set_wins(
    types: Map<Seq<char>, ReflTy>,
    id: Seq<char>,
    ty: ReflTy,
    later: Seq<(Seq<char>, ReflTy)>,
    other: Seq<char>,
)
    requires
        forall|k: int| 0 <= k < later.len() ==> (#[trigger] later[k]).0 != id,
        !types.contains_key(other),
        forall|k: int| 0 <= k < later.len() ==> (#[trigger] later[k]).0 != other,
        other != id,
    ensures
        after_sets(types.insert(id, ty), later).contains_key(id),
        after_sets(types.insert(id, ty), later)[id] == ty,
        !after_sets(types.insert(id, ty), later).contains_key(other),
    decreases later.len(),
{
    if later.len() > 0 {
        let rest = later.drop_last();
        assert forall|k: int| 0 <= k < rest.len() implies (#[trigger] rest[k]).0 != id && rest[k].0
            != other by {
            assert(rest[k] == later[k]);
        }
        law_latest_set_wins(types, id, ty, rest, other);
        assert(later[later.len() - 1] == later.last());
    }
}

/// The representer of `Option<T>` values.
pub struct OptionReflRepresenter<T>(PhantomData<T>);

impl<T> OptionReflRepresenter<T> {
    pub fn new() -> Self {
        Self(PhantomData)
    }
}

/// The representer of `Vec<T>` values.
pub struct VecReflRepresenter<T>(PhantomData<T>);

impl<T> VecReflRepresenter<T> {
    pub fn new() -> Self {
        Self(PhantomData)
    }
}

/// A sample type to reflect on.
#[derive(Debug)]
pub struct ExampleStruct {
    pub age: u8,
    pub name: Option<String>,
}

} // verus!
