use linked_lists::static_list::StaticLinkedList;

#[test]
fn test_insert_and_get_static() {
    let mut list = StaticLinkedList::<i32, 5>::new();
    list.insert(10);
    list.insert(20);
    list.insert(30);

    assert_eq!(list.get(0), Some(10));
    assert_eq!(list.get(1), Some(20));
    assert_eq!(list.get(2), Some(30));
    assert_eq!(list.get(3), None);
}

#[test]
fn test_insert_at_index_static() {
    let mut list = StaticLinkedList::<i32, 6>::new();

    list.insert(1); // [1]
    list.insert(3); // [1, 3]
    list.insert_at_index(1, 2); // [1, 2, 3]
    list.insert_at_index(0, 0); // [0, 1, 2, 3]
    list.insert_at_index(10, 99); // invalid index, should do nothing

    assert_eq!(list.get(0), Some(0));
    assert_eq!(list.get(1), Some(1));
    assert_eq!(list.get(2), Some(2));
    assert_eq!(list.get(3), Some(3));
    assert_eq!(list.get(4), None);
}

#[test]
fn test_delete_element_static() {
    let mut list = StaticLinkedList::<i32, 6>::new();

    list.insert(10);
    list.insert(20);
    list.insert(30);

    assert!(list.delete_element(20)); // Should remove 20 -> [10, 30]
    assert_eq!(list.get(0), Some(10));
    assert_eq!(list.get(1), Some(30));
    assert_eq!(list.get(2), None);

    assert!(!list.delete_element(99)); // Not in list
}

#[test]
fn test_delete_at_index_static() {
    let mut list = StaticLinkedList::<i32, 6>::new();

    list.insert(10);
    list.insert(20);
    list.insert(30);

    assert!(list.delete_at_index(1));
    assert_eq!(list.get(0), Some(10));
    assert_eq!(list.get(1), Some(30));
    assert_eq!(list.get(2), None);

    assert!(list.delete_at_index(0)); // Removes 10 -> [30]
    assert_eq!(list.get(0), Some(30));

    assert!(!list.delete_at_index(5)); // Out of bounds
}

#[test]
fn test_update_element_static() {
    let mut list = StaticLinkedList::<&str, 6>::new();

    list.insert("a");
    list.insert("b");
    list.insert("c");

    assert!(list.update_element("b", "beta")); // should change "b" to "beta"
    assert_eq!(list.get(0), Some("a"));
    assert_eq!(list.get(1), Some("beta"));
    assert_eq!(list.get(2), Some("c"));

    assert!(!list.update_element("x", "omega")); // not found
}

#[test]
fn test_update_element_at_index_static() {
    let mut list = StaticLinkedList::<&str, 6>::new();

    list.insert("red");
    list.insert("green");
    list.insert("blue");

    assert!(list.update_element_at_index(1, "yellow")); // should change "green" to "yellow"
    assert_eq!(list.get(0), Some("red"));
    assert_eq!(list.get(1), Some("yellow"));
    assert_eq!(list.get(2), Some("blue"));

    assert!(!list.update_element_at_index(5, "purple")); // this is invalid
}

#[test]
fn test_find_static() {
    let mut list = StaticLinkedList::<i32, 6>::new();

    list.insert(100);
    list.insert(200);
    list.insert(300);

    assert!(list.find(100));
    assert!(list.find(300));
    assert!(!list.find(999));
}

#[test]
fn static_capacity_five_scenario() {
    let mut list = StaticLinkedList::<i32, 5>::new();
    list.insert(10);
    list.insert(20);
    list.insert(30);

    assert_eq!(list.get(0), Some(10));
    assert_eq!(list.get(1), Some(20));
    assert_eq!(list.get(2), Some(30));
    assert_eq!(list.get(3), None);

    assert!(list.delete_at_index(1)); // removes 20
    assert_eq!(list.get(0), Some(10));
    assert_eq!(list.get(1), Some(30));
    assert_eq!(list.get(2), None);

    list.insert(40);
    list.insert(50);
    list.insert(60); // all 5 slots in use again
    assert_eq!(list.get(0), Some(10));
    assert_eq!(list.get(1), Some(30));
    assert_eq!(list.get(2), Some(40));
    assert_eq!(list.get(3), Some(50));
    assert_eq!(list.get(4), Some(60));

    list.insert(70); // full: silent no-op, length stays 5
    assert_eq!(list.get(4), Some(60));
    assert_eq!(list.get(5), None);
    assert!(!list.find(70));
}

#[test]
fn static_capacity_six_splice_scenario() {
    let mut list = StaticLinkedList::<i32, 6>::new();
    list.insert(1);
    list.insert(3);
    list.insert_at_index(1, 2); // [1, 2, 3]
    assert_eq!(list.get(0), Some(1));
    assert_eq!(list.get(1), Some(2));
    assert_eq!(list.get(2), Some(3));

    list.insert_at_index(0, 0); // [0, 1, 2, 3]
    assert_eq!(list.get(0), Some(0));
    assert_eq!(list.get(1), Some(1));
    assert_eq!(list.get(2), Some(2));
    assert_eq!(list.get(3), Some(3));

    list.insert_at_index(10, 99); // index out of range: no-op
    assert_eq!(list.get(0), Some(0));
    assert_eq!(list.get(1), Some(1));
    assert_eq!(list.get(2), Some(2));
    assert_eq!(list.get(3), Some(3));
    assert_eq!(list.get(4), None);
}

#[test]
fn static_full_list_ignores_insert() {
    let mut list = StaticLinkedList::<i32, 3>::new();
    list.insert(1);
    list.insert(2);
    list.insert(3);
    list.insert(4); // capacity exhausted: silent no-op

    assert_eq!(list.get(0), Some(1));
    assert_eq!(list.get(1), Some(2));
    assert_eq!(list.get(2), Some(3));
    assert_eq!(list.get(3), None);
    assert!(!list.find(4));
}

#[test]
fn static_freed_slot_is_reused() {
    let mut list = StaticLinkedList::<i32, 2>::new();
    list.insert(1);
    list.insert(2);
    list.insert(3); // full: no-op
    assert!(!list.find(3));

    assert!(list.delete_element(1)); // frees one slot
    list.insert(3); // reuses it
    assert_eq!(list.get(0), Some(2));
    assert_eq!(list.get(1), Some(3));
    assert_eq!(list.get(2), None);
}

#[test]
fn static_zero_capacity_is_valid_and_full() {
    let mut list = StaticLinkedList::<i32, 0>::new();
    list.insert(1); // immediately full: no-op
    assert_eq!(list.get(0), None);
    assert!(!list.find(1));
    assert!(!list.delete_element(1));
    assert!(!list.delete_at_index(0));
    assert!(!list.update_element(1, 2));
    assert!(!list.update_element_at_index(0, 2));
}

#[test]
fn static_insert_suppresses_duplicates() {
    let mut list = StaticLinkedList::<i32, 4>::new();
    list.insert(7);
    list.insert(7);
    list.insert(8);
    list.insert(7);

    assert_eq!(list.get(0), Some(7));
    assert_eq!(list.get(1), Some(8));
    assert_eq!(list.get(2), None);
}

#[test]
fn static_find_does_not_mutate() {
    let mut list = StaticLinkedList::<i32, 4>::new();
    list.insert(4);
    list.insert(9);

    assert!(list.find(9));
    assert!(list.find(9));
    assert!(!list.find(11));
    assert!(!list.find(11));
    assert_eq!(list.get(0), Some(4));
    assert_eq!(list.get(1), Some(9));
    assert_eq!(list.get(2), None);
}

#[test]
fn static_delete_absent_leaves_list_unchanged() {
    let mut list = StaticLinkedList::<i32, 4>::new();
    list.insert(1);
    list.insert(2);

    assert!(!list.delete_element(5));
    assert!(!list.delete_at_index(2));
    assert_eq!(list.get(0), Some(1));
    assert_eq!(list.get(1), Some(2));
    assert_eq!(list.get(2), None);
}

#[test]
fn static_string_equality_is_by_content() {
    let mut list = StaticLinkedList::<&str, 3>::new();
    list.insert("alpha");
    list.insert("beta");

    let other = String::from("beta");
    assert!(list.find(other.as_str()));
    assert!(list.delete_element(other.as_str()));
    assert_eq!(list.get(0), Some("alpha"));
    assert_eq!(list.get(1), None);
}

#[test]
fn static_delete_head_relinks_chain() {
    let mut list = StaticLinkedList::<i32, 4>::new();
    list.insert(5);
    list.insert(6);
    list.insert(7);

    assert!(list.delete_element(5)); // head removal
    assert_eq!(list.get(0), Some(6));
    assert_eq!(list.get(1), Some(7));
    assert_eq!(list.get(2), None);

    list.insert(8); // reuses the freed head slot
    assert_eq!(list.get(2), Some(8));
}
