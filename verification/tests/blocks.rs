use smallobjectpool::arraylike::ArrayLike;
use smallobjectpool::datablock::DataBlock;
use smallobjectpool::datablock2::DataBlock2;
use smallobjectpool::ptrbased::PtrBased;

#[test]
#[should_panic]
fn test_array_like_try_push_panic() {
    let mut list: ArrayLike<i32> = ArrayLike::new(1);
    for i in 0..2 {
        list.try_push(i).unwrap();
    }
}

#[test]
fn test_array_like_new() {
    // a fresh buffer has capacity 10000 but an empty occupied range
    let list: ArrayLike<i32> = ArrayLike::new(10000);
    assert_eq!(list.iter().len(), 0);
}

#[test]
fn array_like_iter_covers_the_occupied_range_only() {
    let mut list: ArrayLike<i32> = ArrayLike::new(4);
    list.try_push(1).unwrap();
    list.try_push(2).unwrap();
    assert_eq!(list.iter(), vec![Some(1), Some(2)]);
    // a write behind an explicit position does not move the boundary
    list.insert(3, 9).unwrap();
    assert_eq!(list.iter(), vec![Some(1), Some(2)]);
}

#[test]
fn test_array_like_begin() {
    let list: ArrayLike<i32> = ArrayLike::new(1);
    let begin = list.begin().unwrap();
    let next = list.next(begin).unwrap();
    assert_eq!(list.end().unwrap(), next);

    let list: ArrayLike<i32> = ArrayLike::new(2);
    let begin = list.begin().unwrap();
    let next = list.next(begin).unwrap();
    let next = list.next(next).unwrap();
    assert_eq!(list.end().unwrap(), next);

    let list: ArrayLike<i32> = ArrayLike::new(3);
    let begin = list.begin().unwrap();
    let next = list.next(begin).unwrap();
    let next = list.next(next).unwrap();
    let next = list.next(next).unwrap();
    assert_eq!(list.end().unwrap(), next);
}

#[test]
fn test_array_like_next() {
    let mut list: ArrayLike<i32> = ArrayLike::new(10000);
    let mut begin = list.begin().unwrap();
    for i in 0..10000 {
        list.insert(begin, i);
        begin = list.next(begin).unwrap();
    }
}

#[test]
fn test_array_like_prev() {
    let mut list: ArrayLike<i32> = ArrayLike::new(10000);
    let mut end = list.end().unwrap();
    for i in 0..10000 {
        list.insert(end, i);
        end = list.prev(end).unwrap();
    }
}

#[test]
fn test_array_like_insert() {
    let mut list: ArrayLike<i32> = ArrayLike::new(10000);
    for i in 0..10000 {
        list.insert(i, i as i32);
    }
}

#[test]
fn test_array_like_try_push() {
    let mut list: ArrayLike<i32> = ArrayLike::new(100);
    for i in 0..100 {
        list.try_push(i).unwrap();
    }
}

#[test]
fn test_data_block() {
    let mut block = DataBlock::<i32>::new(4);
    assert!(block.is_empty());
    block.try_push(1).unwrap();
    block.try_push(2).unwrap();
    block.try_push(3).unwrap();
    block.try_push(4).unwrap();
    assert_eq!(block.iter(), vec![1, 2, 3, 4]);
}

#[test]
fn test_data_block_mark() {
    let mut block = DataBlock::<i32>::new(4);
    block.try_push(1).unwrap();
    block.try_push(2).unwrap();
    block.try_push(3).unwrap();
    block.try_push(4).unwrap();
    let r = block.try_push(5);
    assert!(r.is_none());
}

#[test]
fn test_data_block2() {
    let mut list: DataBlock2<i32> = DataBlock2::new(10000);
    let mut begin = list.begin().unwrap();
    for i in 0..10000 {
        list.insert(begin, i);
        begin = list.next(begin).unwrap();
    }
}

#[test]
fn data_block_mark_and_rewind() {
    let mut block = DataBlock::<i32>::new(4);
    block.try_push(1).unwrap();
    block.try_push(2).unwrap();
    block.mark_slot();
    block.try_push(3).unwrap();
    block.rewind_to_mark();
    assert_eq!(block.iter(), vec![1, 2]);
    block.try_push(7).unwrap();
    assert_eq!(block.iter(), vec![1, 2, 7]);
}

#[test]
fn data_block_clear_after_mark() {
    let mut block = DataBlock::<i32>::new(4);
    block.try_push(1).unwrap();
    block.mark_slot();
    block.try_push(2).unwrap();
    block.clear_after_mark();
    assert_eq!(block.iter(), vec![1]);
    // with no mark set, clear_after_mark leaves the block unchanged
    let mut other = DataBlock::<i32>::new(4);
    other.try_push(5).unwrap();
    other.clear_after_mark();
    assert_eq!(other.iter(), vec![5]);
}

#[test]
fn data_block_rewind_without_mark_goes_to_front() {
    let mut block = DataBlock::<i32>::new(4);
    block.try_push(1).unwrap();
    block.try_push(2).unwrap();
    block.rewind_to_mark();
    assert_eq!(block.iter(), Vec::<i32>::new());
}

#[test]
fn data_block_clear_and_rewind_to_front() {
    let mut block = DataBlock::<i32>::new(2);
    block.try_push(1).unwrap();
    block.clear();
    assert!(block.is_empty());
    block.try_push(2).unwrap();
    block.rewind_to_front();
    assert!(block.is_empty());
}

#[test]
fn data_block_push_to_ptr_returns_slot() {
    let mut block = DataBlock::<i32>::new(2);
    assert_eq!(block.push_to_ptr(10), Some(0));
    assert_eq!(block.push_to_ptr(11), Some(1));
    assert_eq!(block.push_to_ptr(12), None);
    assert_eq!(block.iter(), vec![10, 11]);
}

#[test]
fn data_block_insert_out_of_capacity_fails() {
    let mut block = DataBlock::<i32>::new(2);
    assert!(block.insert(0, 9).is_some());
    assert!(block.insert(2, 9).is_none());
    let mut buffer: ArrayLike<i32> = ArrayLike::new(2);
    assert!(buffer.insert(1, 9).is_some());
    assert!(buffer.insert(2, 9).is_none());
}

#[test]
fn array_like_distance_is_offset_difference() {
    let list: ArrayLike<i32> = ArrayLike::new(5);
    let begin = list.begin().unwrap();
    let end = list.end().unwrap();
    assert_eq!(list.distance(begin, end), 5);
    assert_eq!(list.distance(2, 4), 2);
    let block: DataBlock2<i32> = DataBlock2::new(3);
    assert_eq!(block.distance(block.begin().unwrap(), block.end().unwrap()), 3);
}

#[test]
fn data_block2_try_push_and_get_ptr() {
    let mut block: DataBlock2<i32> = DataBlock2::new(2);
    assert_eq!(block.try_push_and_get_ptr(5), Some(0));
    assert_eq!(block.try_push_and_get_ptr(6), Some(1));
    assert_eq!(block.try_push_and_get_ptr(7), None);
    let slots = block.iter();
    assert_eq!(slots, vec![Some(5), Some(6)]);
}
