use filepager::file_buffer::devec::DeVec;

#[test]
fn new_devec_is_empty() {
    let v: DeVec<u8> = DeVec::new();
    assert_eq!(v.len(), 0);
    assert_eq!(v.as_slice(), &[] as &[u8]);
}

#[test]
fn resize_back_adds_defaults_at_the_back() {
    let mut v: DeVec<u8> = DeVec::new();
    v.resize_back(3);
    assert_eq!(v.as_slice(), &[0, 0, 0]);
    v.as_mut_slice().copy_from_slice(&[1, 2, 3]);
    v.resize_back(5);
    assert_eq!(v.as_slice(), &[1, 2, 3, 0, 0]);
    v.resize_back(2);
    assert_eq!(v.as_slice(), &[1, 2]);
}

#[test]
fn resize_front_adds_defaults_at_the_front() {
    let mut v: DeVec<u8> = DeVec::new();
    v.resize_back(3);
    v.as_mut_slice().copy_from_slice(&[1, 2, 3]);
    v.resize_front(5);
    assert_eq!(v.as_slice(), &[0, 0, 1, 2, 3]);
    assert_eq!(v.len(), 5);
}

#[test]
fn resize_front_drops_from_the_front() {
    let mut v: DeVec<u8> = DeVec::new();
    v.resize_back(4);
    v.as_mut_slice().copy_from_slice(&[1, 2, 3, 4]);
    v.resize_front(2);
    assert_eq!(v.as_slice(), &[3, 4]);
    v.resize_back(3);
    assert_eq!(v.as_slice(), &[3, 4, 0]);
}

#[test]
fn room_in_front_is_filled_with_defaults_when_used_again() {
    let mut v: DeVec<u8> = DeVec::new();
    v.resize_back(4);
    v.as_mut_slice().copy_from_slice(&[9, 8, 7, 6]);
    v.resize_front(1);
    assert_eq!(v.as_slice(), &[6]);
    v.resize_front(3);
    assert_eq!(v.as_slice(), &[0, 0, 6]);
    v.resize_front(6);
    assert_eq!(v.as_slice(), &[0, 0, 0, 0, 0, 6]);
}

#[test]
fn clear_removes_all_items() {
    let mut v: DeVec<u8> = DeVec::new();
    v.resize_back(4);
    v.resize_front(2);
    v.clear();
    assert_eq!(v.len(), 0);
    v.resize_back(2);
    assert_eq!(v.as_slice(), &[0, 0]);
}

#[test]
fn shrink_to_keeps_the_items() {
    let mut v: DeVec<u8> = DeVec::new();
    v.resize_back(10);
    v.as_mut_slice().copy_from_slice(&[0, 1, 2, 3, 4, 5, 6, 7, 8, 9]);
    v.resize_front(3);
    v.shrink_to(0);
    assert_eq!(v.as_slice(), &[7, 8, 9]);
    v.shrink_to(100);
    assert_eq!(v.as_slice(), &[7, 8, 9]);
    v.resize_front(4);
    assert_eq!(v.as_slice(), &[0, 7, 8, 9]);
}
