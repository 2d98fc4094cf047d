use smallobjectpool::pool::Pool;

#[test]
fn end_to_end_fill_three_blocks() {
    let mut pool: Pool<i32> = Pool::new(4);
    for i in 1..=9 {
        pool.push(i);
    }
    // blocks hold [1,2,3,4], [5,6,7,8], [9]
    assert_eq!(pool.block_count(), 3);
    assert_eq!(pool.iter(), vec![1, 2, 3, 4, 5, 6, 7, 8, 9]);
}

#[test]
fn end_to_end_mark_rewind_resume() {
    let mut pool: Pool<i32> = Pool::new(4);
    pool.push(1);
    pool.push(2);
    pool.push(3);
    pool.mark();
    pool.push(4);
    pool.push(5);
    assert_eq!(pool.iter(), vec![1, 2, 3, 4, 5]);
    assert_eq!(pool.block_count(), 2);
    pool.rewind_to_mark();
    pool.push(6);
    pool.push(7);
    assert_eq!(pool.iter(), vec![1, 2, 3, 6, 7]);
    assert_eq!(pool.block_count(), 2);
}

#[test]
fn repeated_mark_and_rewind_cycles() {
    let mut pool: Pool<i32> = Pool::new(2);
    pool.push(1);
    pool.mark();
    for _round in 0..5 {
        pool.push(2);
        pool.push(3);
        pool.push(4);
        pool.rewind_to_mark();
    }
    assert_eq!(pool.iter(), vec![1]);
    // storage committed in the first round is reused ever after
    assert_eq!(pool.block_count(), 2);
}

#[test]
fn rewind_then_overwrite_preserves_prefix() {
    let mut pool: Pool<i32> = Pool::new(3);
    for i in 1..=7 {
        pool.push(i);
    }
    pool.rewind_to_front();
    for i in 11..=14 {
        pool.push(i);
    }
    assert_eq!(pool.iter(), vec![11, 12, 13, 14]);
}
