use fruits::hierarchy::{
    parent_named_by, update_parents_add_missing_children, update_parents_remove_invalid_children,
};

#[test]
fn named_parent_lookup() {
    let links = [(2u64, 1u64), (3, 1), (5, 4)];
    assert_eq!(parent_named_by(&links, 3), Some(1));
    assert_eq!(parent_named_by(&links, 5), Some(4));
    assert_eq!(parent_named_by(&links, 1), None);
}

#[test]
fn invalid_children_are_dropped_in_order() {
    // entity 1 lists itself, a child that names it, one that names 4 and one with no link
    let links = [(2u64, 1u64), (3, 4), (6, 1)];
    let mut parents = vec![(1u64, vec![1u64, 6, 3, 9, 2]), (4, vec![3, 2])];
    update_parents_remove_invalid_children(&mut parents, &links);
    assert_eq!(parents, vec![(1, vec![6, 2]), (4, vec![3])]);
}

#[test]
fn missing_children_are_appended_once() {
    let links = [(2u64, 1u64), (3, 1), (5, 7), (6, 4)];
    let mut parents = vec![(1u64, vec![3u64]), (4, vec![])];
    update_parents_add_missing_children(&links, &mut parents);
    assert_eq!(parents, vec![(1, vec![3, 2]), (4, vec![6])]);
    update_parents_add_missing_children(&links, &mut parents);
    assert_eq!(parents, vec![(1, vec![3, 2]), (4, vec![6])]);
}

#[test]
fn reconciling_leaves_exactly_the_linked_children() {
    let links = [(2u64, 1u64), (3, 4), (6, 1), (1, 1)];
    let mut parents = vec![(1u64, vec![3u64, 9, 6]), (4, vec![2])];
    update_parents_remove_invalid_children(&mut parents, &links);
    update_parents_add_missing_children(&links, &mut parents);
    let mut first = parents[0].1.clone();
    first.sort();
    assert_eq!(first, vec![1, 2, 6]);
    assert_eq!(parents[1].1, vec![3]);
}
