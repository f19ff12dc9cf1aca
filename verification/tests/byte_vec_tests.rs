use compy::byte_vec::ByteVec;

#[test]
fn new_is_empty_with_room_for_32() {
    let a = ByteVec::new(4);
    assert_eq!(a.len(), 0);
    assert_eq!(a.capacity(), 32);
    assert!(a.bytes().is_empty());
}

#[test]
fn push_appends_bytes() {
    let mut a = ByteVec::new(2);
    a.push(&vec![1, 2]);
    a.push(&vec![3, 4]);
    assert_eq!(a.len(), 2);
    assert_eq!(a.bytes(), &vec![1, 2, 3, 4]);
    assert_eq!(a.capacity(), 32);
}

#[test]
fn push_past_capacity_doubles_the_need() {
    let mut a = ByteVec::new(1);
    for i in 0..33u8 {
        a.push(&vec![i]);
    }
    assert_eq!(a.len(), 33);
    // 32 + 1 elements needed, so the capacity becomes 66
    assert_eq!(a.capacity(), 66);
    assert_eq!(a.bytes()[32], 32);
}

#[test]
fn draining_push_moves_everything() {
    let mut a = ByteVec::new(2);
    let mut b = ByteVec::new(2);
    a.push(&vec![1, 2]);
    a.push(&vec![3, 4]);
    b.push(&vec![9, 9]);
    a.draining_push(&mut b);
    assert_eq!(a.len(), 0);
    assert!(a.bytes().is_empty());
    assert_eq!(b.len(), 3);
    assert_eq!(b.bytes(), &vec![9, 9, 1, 2, 3, 4]);
    a.push(&vec![5, 6]);
    assert_eq!(a.bytes(), &vec![5, 6]);
}

#[test]
fn draining_push_grows_the_target() {
    let mut a = ByteVec::new(1);
    let mut b = ByteVec::new(1);
    for i in 0..20u8 {
        a.push(&vec![i]);
        b.push(&vec![i]);
    }
    a.draining_push(&mut b);
    assert_eq!(b.len(), 40);
    assert_eq!(b.capacity(), 80);
}
