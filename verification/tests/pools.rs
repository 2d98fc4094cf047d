use smallobjectpool::pool::{Pool, Pool2};

#[test]
fn test_blocklist_init() {
    let mut blocklist: Pool<f64> = Pool::new(1024);
    for i in 0..100000 {
        blocklist.push(i as f64);
    }
}

#[test]
fn test_push_and_print() {
    let mut blocklist: Pool2<i32> = Pool2::new(4);
    blocklist.push(1);
    blocklist.push(2);
    blocklist.push(3);
    blocklist.push(4);
    blocklist.push(5);
    blocklist.push(6);
    blocklist.push(7);
    blocklist.push(8);
    blocklist.push(9);

    println!("{:?}", blocklist.iter());
    assert_eq!(blocklist.iter(), vec![1, 2, 3, 4, 5, 6, 7, 8, 9]);
}

#[test]
fn test_push_and_print_struct() {
    #[derive(Debug, Copy, Clone)]
    #[allow(dead_code)]
    struct Test {
        a: i32,
        b: i32,
    }
    let mut blocklist: Pool<Test> = Pool::new(4);
    blocklist.push(Test { a: 1, b: 2 });
    blocklist.push(Test { a: 3, b: 4 });
}

#[test]
fn test_mark_and_rewind() {
    let mut blocklist: Pool<i32> = Pool::new(4);
    blocklist.push(1); // [1]
    blocklist.push(2); // [1, 2]
    blocklist.push(3); // [1, 2, 3]
    blocklist.mark();
    blocklist.push(4); // [1, 2, 3, 4]
    blocklist.push(5); // [1, 2, 3, 4], [5]

    println!("{:?}", blocklist.iter());
    assert_eq!(blocklist.iter(), vec![1, 2, 3, 4, 5]);

    blocklist.rewind_to_mark();
    blocklist.push(6); // [1, 2, 3, 6], [5]
    blocklist.push(7); // [1, 2, 3, 6], [7]

    println!("{:?}", blocklist.iter());
    assert_eq!(blocklist.iter(), vec![1, 2, 3, 6, 7]);
}

#[test]
fn pool_order_preservation() {
    let mut pool: Pool<i32> = Pool::new(3);
    let values: Vec<i32> = vec![10, 20, 30, 40, 50, 60, 70];
    for v in &values {
        pool.push(*v);
    }
    assert_eq!(pool.iter(), values);
}

#[test]
fn pool_capacity_boundary() {
    let mut pool: Pool<i32> = Pool::new(4);
    assert_eq!(pool.block_count(), 0);
    pool.push(1);
    pool.push(2);
    pool.push(3);
    pool.push(4);
    // exactly four elements live in one block
    assert_eq!(pool.block_count(), 1);
    pool.push(5);
    // the fifth push allocates a second block
    assert_eq!(pool.block_count(), 2);
    assert_eq!(pool.iter(), vec![1, 2, 3, 4, 5]);
}

#[test]
fn pool2_capacity_boundary() {
    let mut pool: Pool2<i32> = Pool2::new(4);
    assert_eq!(pool.block_count(), 0);
    for i in 1..=4 {
        pool.push(i);
    }
    assert_eq!(pool.block_count(), 1);
    pool.push(5);
    assert_eq!(pool.block_count(), 2);
    assert_eq!(pool.iter(), vec![1, 2, 3, 4, 5]);
}

#[test]
fn pool_mark_rewind_is_noop() {
    let mut pool: Pool<i32> = Pool::new(2);
    pool.push(1);
    pool.push(2);
    pool.push(3);
    pool.mark();
    pool.rewind_to_mark();
    assert_eq!(pool.iter(), vec![1, 2, 3]);
    let mut pool2: Pool2<i32> = Pool2::new(2);
    pool2.push(4);
    pool2.mark();
    pool2.rewind_to_mark();
    assert_eq!(pool2.iter(), vec![4]);
}

#[test]
fn pool_no_allocation_on_reuse() {
    let mut pool: Pool<i32> = Pool::new(2);
    pool.push(1);
    pool.push(2);
    pool.push(3);
    pool.mark();
    pool.push(4);
    pool.push(5);
    assert_eq!(pool.block_count(), 3);
    pool.rewind_to_mark();
    // the rewind frees no block
    assert_eq!(pool.block_count(), 3);
    pool.push(6);
    pool.push(7);
    // pushing no more than the two discarded elements allocates nothing
    assert_eq!(pool.block_count(), 3);
    assert_eq!(pool.iter(), vec![1, 2, 3, 6, 7]);
}

#[test]
fn pool_rewind_to_front_keeps_blocks() {
    let mut pool: Pool<i32> = Pool::new(2);
    for i in 0..6 {
        pool.push(i);
    }
    assert_eq!(pool.block_count(), 3);
    pool.rewind_to_front();
    assert_eq!(pool.iter(), Vec::<i32>::new());
    assert_eq!(pool.block_count(), 3);
    pool.push(9);
    assert_eq!(pool.iter(), vec![9]);
    assert_eq!(pool.block_count(), 3);
}

#[test]
fn pool_rewind_to_mark_without_mark_falls_back_to_front() {
    let mut pool: Pool<i32> = Pool::new(2);
    pool.push(1);
    pool.push(2);
    pool.push(3);
    pool.rewind_to_mark();
    assert_eq!(pool.iter(), Vec::<i32>::new());

    let mut pool2: Pool2<i32> = Pool2::new(2);
    pool2.push(1);
    pool2.rewind_to_mark();
    assert_eq!(pool2.iter(), Vec::<i32>::new());
}

#[test]
fn pool2_mark_and_rewind() {
    let mut pool: Pool2<i32> = Pool2::new(4);
    pool.push(1);
    pool.push(2);
    pool.push(3);
    pool.mark();
    pool.push(4);
    pool.push(5);
    assert_eq!(pool.iter(), vec![1, 2, 3, 4, 5]);
    pool.rewind_to_mark();
    pool.push(6);
    pool.push(7);
    assert_eq!(pool.iter(), vec![1, 2, 3, 6, 7]);
}

#[test]
fn empty_pools_iterate_to_nothing() {
    let pool: Pool<i32> = Pool::new(3);
    assert_eq!(pool.iter(), Vec::<i32>::new());
    let pool2: Pool2<i32> = Pool2::new(3);
    assert_eq!(pool2.iter(), Vec::<i32>::new());
}

#[test]
fn mark_on_empty_pool_sets_nothing() {
    let mut pool: Pool<i32> = Pool::new(2);
    pool.mark();
    pool.rewind_to_mark();
    assert_eq!(pool.iter(), Vec::<i32>::new());
    pool.push(1);
    assert_eq!(pool.iter(), vec![1]);
}
