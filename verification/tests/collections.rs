use fruits::bit_array::BitArray;
use fruits::close_int_map::CloseIntMap;
use fruits::index_version_collection::{VersionCollection, VersionIndex};
use fruits::morph_vec::MorphVec;
use fruits::stack_vec::StackVec;
use fruits::types_registry::TypesRegistry;
use fruits::versioned::Versioned;

#[test]
fn bit_array_starts_clear() {
    let a = BitArray::<2>::new();
    assert_eq!(a.len(), 16);
    assert_eq!(a.count_ones(), 0);
    assert_eq!(a.count_zeros(), 16);
    for i in 0..16 {
        assert!(!a.get(i));
    }
}

#[test]
fn bit_array_set_then_get() {
    let mut a = BitArray::<2>::new();
    a.set(3, true);
    a.set(9, true);
    assert!(a.get(3));
    assert!(a.get(9));
    assert!(!a.get(4));
    assert_eq!(a.count_ones(), 2);
    assert_eq!(a.count_zeros(), 14);
    assert_eq!(a.into_bytes(), [0b0000_1000, 0b0000_0010]);
}

#[test]
fn bit_array_clear_a_bit() {
    let mut a = BitArray::<1>::splat(true);
    assert_eq!(a.count_ones(), 8);
    a.set(0, false);
    assert!(!a.get(0));
    assert!(a.get(1));
    assert_eq!(a.as_bytes(), &[0b1111_1110]);
    assert_eq!(a.count_zeros(), 1);
}

#[test]
fn bit_array_bytes_mut_writes_through() {
    let mut a = BitArray::<2>::default();
    a.as_bytes_mut()[1] = 0b1000_0000;
    assert!(a.get(15));
    assert_eq!(a.count_ones(), 1);
}

#[test]
fn bit_array_iterators_walk_every_bit() {
    let mut a = BitArray::<1>::new();
    a.set(2, true);
    let mut it = a.iter();
    let mut seen = Vec::new();
    while let Some(b) = it.next() {
        seen.push(b);
    }
    assert_eq!(seen, vec![false, false, true, false, false, false, false, false]);
    let mut owned = a.into_iter();
    let mut count = 0;
    while let Some(_) = owned.next() {
        count += 1;
    }
    assert_eq!(count, 8);
    assert_eq!(owned.next(), None);
}

#[test]
fn stack_vec_push_and_overflow() {
    let mut v = StackVec::<i32, 4>::new();
    v.push(1).unwrap();
    v.push(2).unwrap();
    assert_eq!(v.len(), 2);
    assert_eq!(*v.index(0), 1);
    assert_eq!(v.as_slice(), &[1, 2]);
    v.push(3).unwrap();
    v.push(4).unwrap();
    assert_eq!(v.push(5), Err(5));
    assert_eq!(v.len(), 4);
    assert_eq!(v.pop(), Some(4));
    assert_eq!(v.get(3), None);
    if let Some(x) = v.get_mut(0) {
        *x = 10;
    }
    assert_eq!(v.get(0), Some(&10));
}

#[test]
fn morph_vec_push_and_morph() {
    let mut bytes: MorphVec<u8> = MorphVec::new();
    bytes.push(1);
    bytes.push(2);
    assert_eq!(bytes.as_slice(), &[1, 2]);
    assert_eq!(bytes.get(1), Some(&2));
    assert_eq!(bytes.get(2), None);
    let mut wide: MorphVec<u64> = bytes.morph_into();
    assert!(wide.is_empty());
    wide.push(7);
    assert_eq!(wide.as_slice(), &[7]);
    assert_eq!(wide.pop(), Some(7));
    assert_eq!(wide.pop(), None);
}

#[test]
fn version_collection_handles() {
    let mut col = VersionCollection::new();
    let a = col.insert("a");
    assert_eq!(col.get(a), Some(&"a"));
    assert_eq!(col.remove(a), Some("a"));
    let c = col.insert("c");
    assert_eq!(col.get(a), None);
    assert_eq!(col.get(c), Some(&"c"));
    assert_ne!(a, c);
    assert_eq!(c.index, a.index);
    assert_eq!(c.version, 2);
}

#[test]
fn version_collection_counts_and_reuses_in_order() {
    let mut col = VersionCollection::new();
    assert!(col.is_empty());
    let a = col.insert(1);
    let b = col.insert(2);
    let c = col.insert(3);
    assert_eq!(col.len(), 3);
    assert_eq!(a, VersionIndex { index: 0, version: 1 });
    assert_eq!(b, VersionIndex { index: 1, version: 1 });
    col.remove(c);
    col.remove(a);
    assert_eq!(col.len(), 1);
    assert!(!col.contains_index(a));
    assert!(col.contains_index(b));
    let d = col.insert(4);
    assert_eq!(d, VersionIndex { index: 2, version: 2 });
    let e = col.insert(5);
    assert_eq!(e, VersionIndex { index: 0, version: 2 });
    if let Some(x) = col.get_mut(e) {
        *x = 50;
    }
    assert_eq!(col.get(e), Some(&50));
    assert_eq!(col.remove(VersionIndex { index: 9, version: 1 }), None);
    assert_eq!(VersionIndex::default(), VersionIndex::empty());
    assert!(VersionIndex { index: 0, version: 5 } < VersionIndex { index: 1, version: 1 });
}

#[test]
fn close_int_map_sparse_keys() {
    let mut map = CloseIntMap::new();
    map.insert(100, "a");
    map.insert(102, "b");
    assert_eq!(map.get(100), Some(&"a"));
    assert_eq!(map.get(102), Some(&"b"));
    assert_eq!(map.get(101), None);
    map.insert(97, "c");
    assert_eq!(map.get(97), Some(&"c"));
    assert_eq!(map.get(100), Some(&"a"));
    assert_eq!(map.get(98), None);
    map.insert(102, "d");
    map.insert(97, "f");
    assert_eq!(map.get(97), Some(&"f"));
    assert_eq!(map.get(102), Some(&"d"));
    if let Some(x) = map.get_mut(100) {
        *x = "e";
    }
    assert_eq!(map.get(100), Some(&"e"));
    assert_eq!(map.get(5), None);
}

#[test]
fn types_registry_ids() {
    let mut reg = TypesRegistry::new();
    assert!(reg.is_empty());
    assert_eq!(reg.get_or_register("Position"), 0);
    assert_eq!(reg.get_or_register("Velocity"), 1);
    assert_eq!(reg.get_or_register("Position"), 0);
    assert_eq!(reg.len(), 2);
    assert_eq!(reg.get("Velocity"), Some(1));
    assert_eq!(reg.get("Mass"), None);
}

#[test]
fn versioned_counts_mutable_access() {
    let mut v = Versioned::new(10);
    assert_eq!(Versioned::version(&v), 0);
    *v.get_mut() += 5;
    assert_eq!(*v.get(), 15);
    assert_eq!(Versioned::version(&v), 1);
    let _ = v.get_mut();
    assert_eq!(Versioned::version(&v), 2);
    *Versioned::get_silent(&mut v) = 1;
    assert_eq!(Versioned::version(&v), 2);
    Versioned::increment_version(&mut v);
    assert_eq!(Versioned::version(&v), 3);
    assert_eq!(v.into_inner(), 1);
    let d: Versioned<u32> = Versioned::default();
    assert_eq!(Versioned::version(&d), 0);
}

#[test]
fn mutable_slices_write_through() {
    let mut m = MorphVec::new();
    m.push(1u32);
    m.push(2);
    m.as_mut_slice()[1] = 20;
    assert_eq!(m.as_slice(), &[1, 20]);
    let mut s = StackVec::<u32, 3>::new();
    assert!(s.push(5).is_ok());
    assert!(s.push(6).is_ok());
    *s.index_mut(0) = 50;
    assert_eq!(*s.index(0), 50);
    assert_eq!(s.as_slice(), &[50, 6]);
}

#[test]
fn versioned_from_starts_at_zero() {
    let v: Versioned<u8> = Versioned::from(9);
    assert_eq!(Versioned::version(&v), 0);
    assert_eq!(*v.get(), 9);
}

#[test]
fn version_collection_iter_skips_free_slots() {
    let mut col = VersionCollection::new();
    let _a = col.insert(1);
    let b = col.insert(2);
    let _c = col.insert(3);
    col.remove(b);
    let mut it = col.iter();
    assert_eq!(it.next(), Some(&1));
    assert_eq!(it.next(), Some(&3));
    assert_eq!(it.next(), None);
    assert_eq!(it.next(), None);
}
