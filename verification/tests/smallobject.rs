use smallobjectpool::smallobjectpool::{Address, SmallObjectPool};

#[test]
fn test_small_object_pool() {
    let mut sop = SmallObjectPool::<u32>::new(4);
    for i in 0..8 {
        sop.push(i);
    }
}

#[test]
fn test_small_object_pool_rewind() {
    let mut sop = SmallObjectPool::<u32>::new(4);
    for i in 0..8 {
        sop.push(i);
    }
    sop.rewind();
    for i in 0..8 {
        sop.push(i);
    }
}

#[test]
fn small_object_pool_iterates_in_order() {
    let mut sop = SmallObjectPool::<u32>::new(3);
    for i in 1..=7 {
        sop.push(i);
    }
    let out = sop.iter();
    let expected: Vec<Option<u32>> =
        vec![Some(1), Some(2), Some(3), Some(4), Some(5), Some(6), Some(7)];
    assert_eq!(out, expected);
}

#[test]
fn address_stability_across_pushes() {
    let mut sop = SmallObjectPool::<u32>::new(2);
    let a1 = sop.emplace_back();
    sop.write_at(a1, 7);
    sop.push(8);
    // the next pushes cross into a second block
    sop.push(9);
    let a2 = sop.emplace_back();
    sop.write_at(a2, 10);
    // the first address still reads the value written through it
    assert_eq!(sop.read_at(a1), Some(7));
    assert_eq!(sop.read_at(a2), Some(10));
    assert_eq!(
        sop.iter(),
        vec![Some(7), Some(8), Some(9), Some(10)]
    );
}

#[test]
fn reserved_slot_is_unwritten_until_write_at() {
    let mut sop = SmallObjectPool::<u32>::new(2);
    sop.push(1);
    let a = sop.emplace_back();
    assert_eq!(sop.iter(), vec![Some(1), None]);
    sop.write_at(a, 2);
    assert_eq!(sop.iter(), vec![Some(1), Some(2)]);
}

#[test]
fn reservation_does_not_split_across_blocks() {
    let mut sop = SmallObjectPool::<u32>::new(4);
    sop.push(1);
    sop.push(2);
    assert_eq!(sop.block_count(), 1);
    // two slots remain, so a run of three abandons them and starts a block
    let a = sop.emplace_back_multi(3);
    assert_eq!(a.slot, 0);
    assert_eq!(sop.block_count(), 2);
    sop.write_at(a, 7);
    sop.write_at(Address { block: a.block, slot: a.slot + 1 }, 8);
    sop.write_at(Address { block: a.block, slot: a.slot + 2 }, 9);
    assert_eq!(sop.read_at(a), Some(7));
    assert_eq!(sop.read_at(Address { block: a.block, slot: a.slot + 1 }), Some(8));
    assert_eq!(sop.read_at(Address { block: a.block, slot: a.slot + 2 }), Some(9));
    // the abandoned remainder shows up as committed but unwritten slots
    assert_eq!(
        sop.iter(),
        vec![Some(1), Some(2), None, None, Some(7), Some(8), Some(9)]
    );
}

#[test]
fn reservation_within_block_is_contiguous() {
    let mut sop = SmallObjectPool::<u32>::new(4);
    sop.push(1);
    let a = sop.emplace_back_multi(3);
    assert_eq!(a.slot, 1);
    assert_eq!(sop.block_count(), 1);
    sop.write_at(a, 5);
    sop.write_at(Address { block: a.block, slot: a.slot + 1 }, 6);
    sop.write_at(Address { block: a.block, slot: a.slot + 2 }, 7);
    assert_eq!(sop.iter(), vec![Some(1), Some(5), Some(6), Some(7)]);
}

#[test]
fn small_object_pool_mark_and_rewind_to_mark() {
    let mut sop = SmallObjectPool::<u32>::new(4);
    sop.push(1);
    sop.push(2);
    sop.push(3);
    sop.mark();
    sop.push(4);
    sop.push(5);
    sop.rewind_to_mark();
    sop.push(6);
    sop.push(7);
    assert_eq!(
        sop.iter(),
        vec![Some(1), Some(2), Some(3), Some(6), Some(7)]
    );
}

#[test]
fn small_object_pool_rewind_reuses_storage() {
    let mut sop = SmallObjectPool::<u32>::new(4);
    for i in 0..8 {
        sop.push(i);
    }
    assert_eq!(sop.block_count(), 2);
    sop.rewind();
    assert_eq!(sop.iter(), Vec::<Option<u32>>::new());
    for i in 10..18 {
        sop.push(i);
    }
    // the same two blocks hold the new elements
    assert_eq!(sop.block_count(), 2);
    assert_eq!(sop.read_at(Address { block: 0, slot: 0 }), Some(10));
}

#[test]
fn emplace_back_advances_like_push() {
    let mut sop = SmallObjectPool::<u32>::new(2);
    let a0 = sop.emplace_back();
    let a1 = sop.emplace_back();
    let a2 = sop.emplace_back();
    assert_eq!(a0, Address { block: 0, slot: 0 });
    assert_eq!(a1, Address { block: 0, slot: 1 });
    assert_eq!(a2.slot, 0);
    assert_ne!(a2.block, a0.block);
    assert_eq!(sop.block_count(), 2);
}
