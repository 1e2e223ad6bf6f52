use datastructs::Pair;

#[test]
fn tuple_pair_accessors() {
    let mut record = (3u64, "three");
    assert_eq!(&3, record.key());
    assert_eq!(&"three", record.value());
    record.set_value("tres");
    assert_eq!(&"tres", record.value());
    assert_eq!(&3, record.key());
}
