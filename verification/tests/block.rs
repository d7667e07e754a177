use local_sync::mpsc::block::{Block, Queue, BLOCK_CAP};

#[test]
fn test_simple_push_pop() {
    let mut queue = Queue::new();
    queue.push_unchecked(1);
    queue.push_unchecked(2);
    queue.push_unchecked(3);
    assert_eq!(queue.len(), 3);
    assert_eq!(queue.pop_unchecked(), 1);
    assert_eq!(queue.pop_unchecked(), 2);
    assert_eq!(queue.pop_unchecked(), 3);
    assert_eq!(queue.len(), 0);
}

#[test]
fn test_across_block_push_pop() {
    let mut queue = Queue::new();
    for _ in 0..4 {
        for idx in 0..1024 {
            queue.push_unchecked(idx);
            assert_eq!(queue.len(), idx + 1);
        }
        for idx in 0..1024 {
            assert_eq!(queue.pop_unchecked(), idx);
            assert_eq!(queue.len(), 1023 - idx);
        }
    }
}

#[test]
fn queue_stays_in_order_while_blocks_are_reused() {
    let mut queue = Queue::new();
    let mut pushed: u32 = 0;
    let mut popped: u32 = 0;
    for round in 0..200u32 {
        for _ in 0..(round % 7 + 5) {
            queue.push_unchecked(pushed);
            pushed += 1;
        }
        for _ in 0..(round % 5 + 3) {
            if !queue.is_empty() {
                assert_eq!(queue.pop_unchecked(), popped);
                popped += 1;
            }
        }
        assert_eq!(queue.len() as u32, pushed - popped);
    }
    while !queue.is_empty() {
        assert_eq!(queue.pop_unchecked(), popped);
        popped += 1;
    }
    assert_eq!(popped, pushed);
}

#[test]
fn queue_keeps_values_that_cannot_be_copied() {
    let mut queue = Queue::new();
    queue.push_unchecked(String::from("a"));
    queue.push_unchecked(String::from("b"));
    assert_eq!(queue.pop_unchecked(), "a");
    assert_eq!(queue.pop_unchecked(), "b");
    assert!(queue.is_empty());
}

#[test]
fn new_block_is_empty_and_can_be_written() {
    let mut block: Block<u8> = Block::new();
    assert_eq!(block.len(), 0);
    assert!(block.is_empty());
    assert!(block.can_write());
    block.reset();
    assert!(block.is_empty());
    assert_eq!(BLOCK_CAP, 32);
}
