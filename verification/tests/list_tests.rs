use linked_avl::list::ListNode;

#[test]
fn new_list_is_nil() {
    let l: ListNode<i64> = ListNode::new();
    assert_eq!(l, ListNode::Nil);
}

#[test]
fn default_list_is_nil() {
    let l: ListNode<i64> = Default::default();
    assert_eq!(l, ListNode::Nil);
}

#[test]
fn delete_on_empty_is_noop() {
    let mut l: ListNode<i64> = ListNode::new();
    l.delete();
    assert_eq!(l, ListNode::Nil);
}

#[test]
fn delete_removes_current_node() {
    let mut l = ListNode::from_vec(vec![1i64, 2, 3]);
    l.delete();
    assert_eq!(l.into_vec(), vec![2i64, 3]);
}

#[test]
fn delete_last_node_leaves_empty() {
    let mut l = ListNode::from_vec(vec![42i64]);
    l.delete();
    assert_eq!(l, ListNode::Nil);
}

#[test]
fn insert_into_empty_list() {
    let mut l: ListNode<i64> = ListNode::new();
    let pos = l.insert(7);
    match pos {
        ListNode::Cons(value, rest) => {
            assert_eq!(*value, 7);
            assert_eq!(**rest, ListNode::Nil);
        }
        ListNode::Nil => panic!("insert left the list empty"),
    }
    assert_eq!(l.into_vec(), vec![7i64]);
}

#[test]
fn insert_after_single_node_returns_new_position() {
    let mut l = ListNode::from_vec(vec![1i64]);
    let pos = l.insert(9);
    match pos {
        ListNode::Cons(value, rest) => {
            assert_eq!(*value, 9);
            assert_eq!(**rest, ListNode::Nil);
        }
        ListNode::Nil => panic!("insert left the position empty"),
    }
    assert_eq!(l.into_vec(), vec![1i64, 9]);
}

#[test]
fn insert_splices_in_the_middle() {
    let mut l = ListNode::from_vec(vec![1i64, 3]);
    l.insert(2);
    assert_eq!(l.into_vec(), vec![1i64, 2, 3]);
}

#[test]
fn insert_chaining_builds_in_order() {
    let mut l: ListNode<i64> = ListNode::new();
    let pos = l.insert(1);
    let pos = pos.insert(2);
    pos.insert(3);
    assert_eq!(l.into_vec(), vec![1i64, 2, 3]);
}

#[test]
fn round_trip_preserves_order() {
    let values = vec![4i64, 5, 6, -1, 0];
    let l = ListNode::from_vec(values.clone());
    assert_eq!(l.into_vec(), values);
}

#[test]
fn round_trip_empty() {
    let l: ListNode<i64> = ListNode::from_vec(Vec::new());
    assert_eq!(l, ListNode::Nil);
    assert_eq!(l.into_vec(), Vec::<i64>::new());
}

#[test]
fn reverse_three_elements_twice() {
    let mut l = ListNode::from_vec(vec![1i64, 2, 3]);
    l.reverse();
    let original = ListNode::from_vec(vec![1i64, 2, 3]);
    assert_ne!(l, original);
    let reversed_copy = ListNode::from_vec(vec![3i64, 2, 1]);
    assert_eq!(l, reversed_copy);
    l.reverse();
    assert_eq!(l, original);
    assert_eq!(l.into_vec(), vec![1i64, 2, 3]);
}

#[test]
fn reverse_empty_and_single() {
    let mut empty: ListNode<i64> = ListNode::new();
    empty.reverse();
    assert_eq!(empty, ListNode::Nil);

    let mut single = ListNode::from_vec(vec![5i64]);
    single.reverse();
    assert_eq!(single.into_vec(), vec![5i64]);
}

#[test]
fn reverse_works_on_strings() {
    let mut l = ListNode::from_vec(vec![String::from("a"), String::from("b")]);
    l.reverse();
    assert_eq!(l.into_vec(), vec![String::from("b"), String::from("a")]);
}
