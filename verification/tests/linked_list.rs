use datastructs::linked_list::LinkedList;

#[test]
fn push_front() {
    let mut linked_list = LinkedList::new();
    linked_list.push_front(2usize);
    linked_list.push_front(1);
    linked_list.push_front(0);
    for i in 0..3 {
        assert_eq!(i, *linked_list.index(i));
    }
}

#[test]
fn linked_list_push_back() {
    let mut linked_list = LinkedList::new();
    linked_list.push_back(0usize);
    linked_list.push_back(1);
    linked_list.push_back(2);
    for i in 0..3 {
        assert_eq!(i, *linked_list.index(i));
    }
}

#[test]
fn linked_list_len() {
    assert_eq!(0, LinkedList::<u8>::new().len());
    let mut linked_list = LinkedList::new();
    linked_list.push_back(0usize);
    linked_list.push_back(1);
    linked_list.push_back(2);
    assert_eq!(3, linked_list.len());
}

#[test]
fn linked_list_eq_with_slice() {
    let mut linked_list = LinkedList::new();
    assert_eq!(&linked_list, &[] as &[u8]);
    linked_list.push_back(0u8);
    linked_list.push_back(1);
    linked_list.push_back(2);
    assert_eq!(&linked_list, &[0u8, 1, 2] as &[u8])
}

#[test]
fn linked_list_from_slice() {
    let list = LinkedList::from(&[0, 1, 2] as &[i32]);
    assert_eq!(&list, &[2, 1, 0] as &[i32])
}

#[test]
fn linked_list_is_empty() {
    assert!(LinkedList::<u8>::new().is_empty())
}

#[test]
fn linked_list_index() {
    let linked_list = LinkedList::from(&[2usize, 1, 0] as &[usize]);
    for i in 0..3 {
        assert_eq!(i, *linked_list.index(i));
    }
}

#[test]
fn index_mut() {
    let mut linked_list = LinkedList::from(&[2usize, 1, 0] as &[usize]);
    for i in 0..3 {
        assert_eq!(i, *linked_list.index(i));
    }
    linked_list.set(0, 2);
    assert_eq!(2, *linked_list.index(0))
}

#[test]
fn append() {
    let mut linked_list = LinkedList::from(&[5usize, 4, 3] as &[usize]);
    linked_list.append(LinkedList::from(&[2usize, 1, 0] as &[usize]));
    for i in 0..6 {
        assert_eq!(i, *linked_list.index(i));
    }
}

#[test]
fn linked_list_insert_list() {
    let mut linked_list = LinkedList::from(&[1u8, 4] as &[u8]);
    let middle = LinkedList::from(&[2u8, 3] as &[u8]);
    linked_list.insert_list(1, middle);
    assert_eq!(&linked_list, &[4u8, 3, 2, 1] as &[u8])
}

#[test]
fn linked_list_eq() {
    let a = LinkedList::from(&[1u8, 2] as &[u8]);
    let b = LinkedList::from(&[1u8, 2] as &[u8]);
    let c = LinkedList::from(&[2u8, 1] as &[u8]);
    assert_eq!(a, b);
    assert_ne!(a, c);
}
