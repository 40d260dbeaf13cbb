use linked_lists::dynamic_list::DynamicLinkedList;

#[test]
fn test_insert() {
    let mut list = DynamicLinkedList::new();
    list.insert(1);
    list.insert(5);
    list.insert(10);
}

#[test]
fn test_get() {
    let mut list = DynamicLinkedList::new();
    list.insert(10);
    list.insert(20);
    list.insert(30);

    assert_eq!(list.get(0), Some(10));
    assert_eq!(list.get(1), Some(20));
    assert_eq!(list.get(2), Some(30));
    assert_eq!(list.get(3), None); // Out of bounds
}

#[test]
fn test_insert_at_index() {
    let mut list = DynamicLinkedList::new();
    list.insert(1); // [1]
    list.insert(3); // [1, 3]
    list.insert_at_index(1, 2);
    list.insert_at_index(0, 0);
    list.insert_at_index(10, 99);

    assert_eq!(list.get(0), Some(0));
    assert_eq!(list.get(1), Some(1));
    assert_eq!(list.get(2), Some(2));
    assert_eq!(list.get(3), Some(3));
    assert_eq!(list.get(4), None); // out of bounds (99 was not inserted)
}

#[test]
fn test_delete_element() {
    let mut list = DynamicLinkedList::new();
    list.insert(1);
    list.insert(2);
    list.insert(3);

    assert!(list.delete_element(2)); // Should delete 2
    assert_eq!(list.get(0), Some(1));
    assert_eq!(list.get(1), Some(3));
    assert_eq!(list.get(2), None);

    assert!(!list.delete_element(42)); // Not in list
}

#[test]
fn test_delete_at_index() {
    let mut list = DynamicLinkedList::new();
    list.insert(10);
    list.insert(20);
    list.insert(30);

    assert!(list.delete_at_index(1)); // Removes 20 -> [10, 30]
    assert_eq!(list.get(0), Some(10));
    assert_eq!(list.get(1), Some(30));
    assert_eq!(list.get(2), None);

    assert!(list.delete_at_index(0)); // Removes 10 -> [30]
    assert_eq!(list.get(0), Some(30));

    assert!(!list.delete_at_index(5)); // Out of bounds -> false
}

#[test]
fn test_update_element() {
    let mut list = DynamicLinkedList::new();
    list.insert("a");
    list.insert("b");
    list.insert("c");

    assert!(list.update_element("b", "beta")); // update existing
    assert_eq!(list.get(0), Some("a"));
    assert_eq!(list.get(1), Some("beta"));
    assert_eq!(list.get(2), Some("c"));

    assert!(!list.update_element("x", "omega")); // not found
}

#[test]
fn test_update_element_at_index() {
    let mut list = DynamicLinkedList::new();
    list.insert("red");
    list.insert("green");
    list.insert("blue");

    assert!(list.update_element_at_index(1, "yellow")); // green -> yellow
    assert_eq!(list.get(0), Some("red"));
    assert_eq!(list.get(1), Some("yellow"));
    assert_eq!(list.get(2), Some("blue"));

    assert!(!list.update_element_at_index(5, "purple")); // out of bounds
}

#[test]
fn dynamic_insert_suppresses_duplicates() {
    let mut list = DynamicLinkedList::new();
    list.insert(7);
    list.insert(7);
    list.insert(8);
    list.insert(7);

    assert_eq!(list.get(0), Some(7));
    assert_eq!(list.get(1), Some(8));
    assert_eq!(list.get(2), None);
}

#[test]
fn dynamic_find_does_not_mutate() {
    let mut list = DynamicLinkedList::new();
    list.insert(4);
    list.insert(9);

    assert!(list.find(9));
    assert!(list.find(9));
    assert!(!list.find(11));
    assert!(!list.find(11));
    assert_eq!(list.get(0), Some(4));
    assert_eq!(list.get(1), Some(9));
    assert_eq!(list.get(2), None);
}

#[test]
fn dynamic_string_equality_is_by_content() {
    let mut list = DynamicLinkedList::new();
    list.insert("alpha");
    list.insert("beta");

    let other = String::from("beta");
    assert!(list.find(other.as_str()));
    assert!(list.delete_element(other.as_str()));
    assert_eq!(list.get(0), Some("alpha"));
    assert_eq!(list.get(1), None);
}

#[test]
fn dynamic_holds_wide_unsigned_values() {
    let mut list = DynamicLinkedList::new();
    list.insert(18_446_744_073_709_551_615u64);
    list.insert(0u64);

    assert!(list.find(18_446_744_073_709_551_615u64));
    assert_eq!(list.get(0), Some(18_446_744_073_709_551_615u64));
    assert_eq!(list.get(1), Some(0u64));
    assert!(list.delete_element(0u64));
    assert_eq!(list.get(1), None);
}

#[test]
fn dynamic_delete_absent_leaves_list_unchanged() {
    let mut list = DynamicLinkedList::new();
    list.insert(1);
    list.insert(2);

    assert!(!list.delete_element(5));
    assert!(!list.delete_at_index(2));
    assert_eq!(list.get(0), Some(1));
    assert_eq!(list.get(1), Some(2));
    assert_eq!(list.get(2), None);
}

#[test]
fn dynamic_update_out_of_range_leaves_values() {
    let mut list = DynamicLinkedList::new();
    list.insert(6);

    assert!(!list.update_element_at_index(1, 60));
    assert_eq!(list.get(0), Some(6));
    assert_eq!(list.get(1), None);
}
