use lwpkt::{check_result, Error, LwRb};

#[test]
fn ring_starts_empty() {
    let rb = LwRb::new(1024);
    assert_eq!(rb.size(), 1024);
    assert_eq!(rb.used(), 0);
    assert_eq!(rb.free_space(), 1024);
    assert_eq!(rb.peek(), None);
}

#[test]
fn ring_keeps_order() {
    let mut rb = LwRb::new(8);
    assert_eq!(rb.write(&[1, 2, 3]), 3);
    assert_eq!(rb.write(&[4, 5]), 2);
    assert_eq!(rb.used(), 5);
    assert_eq!(rb.free_space(), 3);
    assert_eq!(rb.peek(), Some(1));
    assert_eq!(rb.read(2), vec![1, 2]);
    assert_eq!(rb.read(10), vec![3, 4, 5]);
    assert_eq!(rb.read(10), Vec::<u8>::new());
    assert_eq!(rb.size(), 8);
}

#[test]
fn ring_stores_a_prefix_when_full() {
    let mut rb = LwRb::new(4);
    assert_eq!(rb.write(&[1, 2, 3, 4, 5, 6]), 4);
    assert_eq!(rb.write(&[7]), 0);
    assert!(!rb.push(8));
    assert_eq!(rb.free_space(), 0);
    assert_eq!(rb.read(4), vec![1, 2, 3, 4]);
}

#[test]
fn ring_wraps_around() {
    let mut rb = LwRb::new(5);
    let mut next: u8 = 0;
    let mut expect: u8 = 0;
    for round in 0..50 {
        let n = 1 + round % 4;
        let input: Vec<u8> = (0..n).map(|i| next.wrapping_add(i as u8)).collect();
        let stored = rb.write(&input);
        next = next.wrapping_add(stored as u8);
        let out = rb.read(1 + round % 3);
        for b in out {
            assert_eq!(b, expect);
            expect = expect.wrapping_add(1);
        }
        assert!(rb.used() <= 5);
        assert_eq!(rb.used() + rb.free_space(), 5);
    }
}

#[test]
fn ring_pop_and_reset() {
    let mut rb = LwRb::new(3);
    assert!(rb.push(9));
    assert!(rb.push(8));
    assert_eq!(rb.pop(), Some(9));
    rb.reset();
    assert_eq!(rb.used(), 0);
    assert_eq!(rb.pop(), None);
    assert_eq!(rb.size(), 3);
}

#[test]
fn ring_without_capacity() {
    let mut rb = LwRb::new(0);
    assert_eq!(rb.size(), 0);
    assert_eq!(rb.write(&[1, 2]), 0);
    assert_eq!(rb.read(4), Vec::<u8>::new());
    assert!(!rb.push(1));
}

#[test]
fn status_codes() {
    assert_eq!(check_result(0), Ok(()));
    assert_eq!(check_result(1), Err(Error::ERR));
    assert_eq!(check_result(2), Err(Error::InProgress));
    assert_eq!(check_result(3), Err(Error::Valid));
    assert_eq!(check_result(4), Err(Error::ErrorCRC));
    assert_eq!(check_result(5), Err(Error::ErrStop));
    assert_eq!(check_result(6), Err(Error::WaitData));
    assert_eq!(check_result(7), Err(Error::ErrorMem));
    for code in 1..=7u32 {
        assert_eq!(Error::from(code).status(), code);
    }
    assert_eq!(Error::ErrorClosedRaw.status(), 8);
}
