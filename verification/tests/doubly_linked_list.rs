use streamstats::doubly_linked_list::DoublyLinkedList;

#[test]
fn test_push_back_and_back() {
    let mut list = DoublyLinkedList::new();
    list.push_back(1);
    list.push_back(2);
    list.push_back(3);

    assert_eq!(*list.back().unwrap(), 3);
    assert_eq!(list.len(), 3);
}

#[test]
fn test_pop_front() {
    let mut list = DoublyLinkedList::new();
    list.push_back(1);
    list.push_back(2);
    list.push_back(3);

    assert_eq!(list.pop_front(), Some(1));
    assert_eq!(list.pop_front(), Some(2));
    assert_eq!(list.pop_front(), Some(3));
    assert_eq!(list.pop_front(), None);
    assert_eq!(list.len(), 0);
}

#[test]
fn test_remove_node() {
    let mut list = DoublyLinkedList::new();
    {
        let _node1 = list.push_back(1);
        let node2 = list.push_back(2);
        let _node3 = list.push_back(3);

        // Remove the middle node
        list.remove(node2);
    }
    assert_eq!(list.len(), 2);

    // Check remaining nodes
    assert_eq!(list.pop_front(), Some(1));
    assert_eq!(list.pop_front(), Some(3));
    assert_eq!(list.pop_front(), None);
}

#[test]
fn test_front_and_back() {
    let mut list = DoublyLinkedList::new();
    list.push_back(1);
    list.push_back(2);
    list.push_back(3);

    assert_eq!(*list.front().unwrap(), 1);
    assert_eq!(*list.back().unwrap(), 3);
}

#[test]
fn test_empty_list() {
    let list: DoublyLinkedList<i32> = DoublyLinkedList::new();
    assert!(list.front().is_none());
    assert!(list.back().is_none());
    assert_eq!(list.len(), 0);
}

#[test]
fn test_remove_head() {
    let mut list = DoublyLinkedList::new();
    let node1 = list.push_back(1);
    list.push_back(2);
    list.push_back(3);

    list.remove(node1);
    assert_eq!(list.len(), 2);

    assert_eq!(list.pop_front(), Some(2));
    assert_eq!(list.pop_front(), Some(3));
    assert_eq!(list.pop_front(), None);
}

#[test]
fn test_remove_tail() {
    let mut list = DoublyLinkedList::new();
    list.push_back(1);
    list.push_back(2);
    let node3 = list.push_back(3);

    list.remove(node3);
    assert_eq!(list.len(), 2);

    assert_eq!(list.pop_front(), Some(1));
    assert_eq!(list.pop_front(), Some(2));
    assert_eq!(list.pop_front(), None);
}

#[test]
fn test_remove_single_node() {
    let mut list = DoublyLinkedList::new();
    let node1 = list.push_back(1);

    list.remove(node1);
    assert_eq!(list.len(), 0);

    assert!(list.front().is_none());
    assert!(list.back().is_none());
}

#[test]
fn test_handle_reuse_keeps_order() {
    // removed cells are recycled; order and values must stay right
    let mut list = DoublyLinkedList::new();
    let h1 = list.push_back(10);
    list.push_back(20);
    list.remove(h1);
    let _h3 = list.push_back(30);
    let h4 = list.push_back(40);
    assert_eq!(*list.front().unwrap(), 20);
    assert_eq!(*list.back().unwrap(), 40);
    list.remove(h4);
    assert_eq!(*list.back().unwrap(), 30);
    assert_eq!(list.pop_front(), Some(20));
    assert_eq!(list.pop_front(), Some(30));
    assert_eq!(list.pop_front(), None);
}
