use can_do::arena::Arena;

#[test]
fn values_should_be_inserted() {
    let mut manager = Arena::<usize>::new();
    manager.insert(1);
    manager.insert(2);

    assert_eq!(2, manager.len())
}

#[test]
fn values_should_be_deleted() {
    let mut manager = Arena::<usize>::new();
    let index1 = manager.insert(1);
    let index2 = manager.insert(2);

    assert_eq!(2, manager.len());

    manager.remove(index1);
    manager.remove(index2);

    assert_eq!(2, manager.len());
    assert_eq!(2, manager.free_count());
}

#[test]
fn deleted_values_should_be_reused() {
    let mut manager = Arena::<usize>::new();
    manager.insert(1);
    let index_to_delete = manager.insert(2);

    assert_eq!(2, manager.len());

    manager.remove(index_to_delete);
    assert_eq!(1, manager.free_count());

    let reused_index = manager.insert(3);

    assert_eq!(2, manager.len());
    assert_eq!(0, manager.free_count());
    assert_eq!(index_to_delete, reused_index);
    assert_eq!(3, *manager.get(reused_index));
}

#[test]
fn compaction_should_return_empty_if_no_deletions() {
    let mut manager = Arena::<usize>::new();
    manager.insert(1);

    assert_eq!(1, manager.len());
    assert_eq!(0, manager.free_count());

    let compactions = manager.compact();
    assert_eq!(0, compactions.len());

    assert_eq!(1, manager.len());
    assert_eq!(0, manager.free_count());
}

#[test]
fn compaction_should_return_empty_if_all_fields_have_been_deleted() {
    let mut manager = Arena::<usize>::new();
    let index = manager.insert(1);
    manager.remove(index);

    assert_eq!(1, manager.len());
    assert_eq!(1, manager.free_count());

    let compactions = manager.compact();
    assert_eq!(0, compactions.len());

    assert_eq!(0, manager.len());
    assert_eq!(0, manager.free_count());
}

#[test]
fn compaction_should_return_empty_if_all_deletions_are_at_the_end() {
    let mut manager = Arena::<usize>::new();
    manager.insert(1);
    let index = manager.insert(2);
    manager.remove(index);

    assert_eq!(2, manager.len());
    assert_eq!(1, manager.free_count());

    let compactions = manager.compact();
    assert_eq!(0, compactions.len());

    assert_eq!(1, manager.len());
    assert_eq!(0, manager.free_count());
}

#[test]
fn compaction_should_return_correct_compactions() {
    let mut manager = Arena::<usize>::new();

    manager.insert(1);
    let index2 = manager.insert(2);
    let index3 = manager.insert(3);
    manager.insert(4);
    let index5 = manager.insert(5);

    manager.remove(index2);
    manager.remove(index3);
    manager.remove(index5);

    assert_eq!(5, manager.len());
    assert_eq!(3, manager.free_count());

    let compactions = manager.compact();
    assert_eq!(1, compactions.len());
    assert_eq!((3, 1), compactions[0]);

    assert_eq!(1, *manager.get(0));
    assert_eq!(4, *manager.get(1));

    assert_eq!(2, manager.len());
    assert_eq!(0, manager.free_count());
}

#[test]
fn trailing_live_value_swaps_into_the_single_hole() {
    let mut manager = Arena::<u32>::new();
    manager.insert(10);
    let hole = manager.insert(20);
    manager.insert(30);
    manager.insert(40);
    manager.remove(hole);

    let compactions = manager.compact();

    assert_eq!(vec![(3, 1)], compactions);
    assert_eq!(3, manager.len());
    assert_eq!(10, *manager.get(0));
    assert_eq!(40, *manager.get(1));
    assert_eq!(30, *manager.get(2));
    assert_eq!(0, manager.free_count());
}

#[test]
fn reuse_prefers_the_most_recently_freed_position() {
    let mut manager = Arena::<u32>::new();
    let a = manager.insert(1);
    let b = manager.insert(2);
    manager.remove(a);
    manager.remove(b);

    assert_eq!(b, manager.insert(7));
    assert_eq!(a, manager.insert(8));
    assert_eq!(7, *manager.get(b));
    assert_eq!(8, *manager.get(a));
}
