use rsds::table::IdTable;

#[test]
fn table_keeps_the_latest_value_of_an_identifier() {
    let mut table: IdTable<String> = IdTable::new();
    assert!(table.is_empty());
    assert_eq!(table.insert(3, String::from("a")), None);
    assert_eq!(table.insert(9, String::from("b")), None);
    assert_eq!(table.insert(3, String::from("c")), Some(String::from("a")));
    assert_eq!(table.len(), 2);
    assert!(!table.is_empty());
    assert_eq!(table.get(3), Some(&String::from("c")));
    assert_eq!(table.get(9), Some(&String::from("b")));
    assert_eq!(table.get(4), None);
    assert!(table.contains(9));
    assert!(!table.contains(4));
}

#[test]
fn table_forgets_what_is_removed() {
    let mut table: IdTable<u32> = IdTable::new();
    for id in 0..10u64 {
        assert_eq!(table.insert(id, (id * 10) as u32), None);
    }
    assert_eq!(table.remove(0), Some(0));
    assert_eq!(table.remove(0), None);
    assert_eq!(table.remove(9), Some(90));
    assert_eq!(table.remove(4), Some(40));
    assert_eq!(table.len(), 7);
    for id in [1u64, 2, 3, 5, 6, 7, 8] {
        assert_eq!(table.get(id), Some(&((id * 10) as u32)));
    }
    for id in [0u64, 4, 9, 10] {
        assert_eq!(table.get(id), None);
        assert!(!table.contains(id));
    }
    for id in [1u64, 2, 3, 5, 6, 7, 8] {
        assert_eq!(table.remove(id), Some((id * 10) as u32));
    }
    assert!(table.is_empty());
    assert_eq!(table.len(), 0);
}
