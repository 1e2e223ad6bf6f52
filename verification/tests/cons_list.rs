use datastructs::cons_list::ConsList;

#[test]
fn new() {
    assert_eq!(ConsList::<u8>::new(), ConsList::Nil)
}

#[test]
fn default() {
    let default_list: ConsList<u8> = Default::default();
    assert_eq!(default_list, ConsList::Nil)
}

#[test]
fn push() {
    let cons_list = ConsList::new().push(2usize).push(1).push(0);
    for i in 0..3 {
        assert_eq!(i, *cons_list.index(i));
    }
}

#[test]
fn cons_list_len() {
    assert_eq!(0, ConsList::<u8>::new().len());
    assert_eq!(3, ConsList::new().push(2).push(1).push(0).len());
}

#[test]
fn cons_list_eq_with_slice() {
    let empty_slice: &[u8] = &[];
    assert_eq!(&ConsList::<u8>::new(), empty_slice);
    let cons_list = ConsList::new().push(3u8).push(2u8).push(1u8);
    assert_eq!(&cons_list, &[1u8, 2, 3] as &[u8])
}

#[test]
fn cons_list_from_slice() {
    let list = ConsList::from(&[1, 2, 3] as &[i32]);
    assert_eq!(&list, &[3, 2, 1] as &[i32])
}

#[test]
fn cons_list_is_empty() {
    assert!(ConsList::<u8>::new().is_empty())
}

#[test]
fn cons_list_index() {
    let cons_list = ConsList::from(&[2usize, 1, 0] as &[usize]);
    for i in 0..3 {
        assert_eq!(i, *cons_list.index(i));
    }
}

#[test]
fn cons_list_push_back() {
    let mut cons_list = ConsList::new();
    cons_list.push_back(1u8);
    cons_list.push_back(2u8);
    cons_list.push_back(3u8);
    assert_eq!(&cons_list, &[1u8, 2, 3] as &[u8])
}

#[test]
fn cons_list_insert_middle() {
    let mut cons_list = ConsList::from(&[3u8, 1] as &[u8]);
    cons_list.insert(1, 2u8);
    assert_eq!(&cons_list, &[1u8, 2, 3] as &[u8]);
    cons_list.insert(3, 4u8);
    assert_eq!(&cons_list, &[1u8, 2, 3, 4] as &[u8])
}

#[test]
fn cons_list_insert_list() {
    let mut cons_list = ConsList::from(&[4u8, 1] as &[u8]);
    let middle = ConsList::from(&[3u8, 2] as &[u8]);
    cons_list.insert_list(1, middle);
    assert_eq!(&cons_list, &[1u8, 2, 3, 4] as &[u8])
}

#[test]
fn cons_list_append() {
    let mut cons_list = ConsList::from(&[2u8, 1] as &[u8]);
    cons_list.append(ConsList::from(&[4u8, 3] as &[u8]));
    assert_eq!(&cons_list, &[1u8, 2, 3, 4] as &[u8])
}

#[test]
fn cons_list_ne_with_slice() {
    let cons_list = ConsList::new().push(2u8).push(1u8);
    assert!(cons_list != *(&[1u8, 3] as &[u8]));
    assert!(cons_list != *(&[1u8] as &[u8]));
    assert_ne!(ConsList::new().push(1u8), ConsList::new().push(2u8));
}
