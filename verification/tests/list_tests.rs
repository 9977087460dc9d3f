use rs_lru::list::List;

#[test]
fn test_list_push_pop() {
    let mut list = List::new();
    // insert:1
    list.push_back(1);
    assert_eq!(list.front(), Some(&1));
    assert_eq!(list.len(), 1);
    // insert:2 1
    list.push_front(2);
    assert_eq!(list.front(), Some(&2));
    assert_eq!(list.back(), Some(&1));
    assert_eq!(list.len(), 2);
    // insert:2 1 3
    list.push_back(3);
    assert_eq!(list.back(), Some(&3));
    assert_eq!(list.len(), 3);
    // insert:1 3 pop:2
    assert_eq!(list.pop_front(), Some(2));
    assert_eq!(list.front(), Some(&1));
    assert_eq!(list.back(), Some(&3));
    assert_eq!(list.len(), 2);
    // insert:3 pop:1
    assert_eq!(list.pop_front(), Some(1));
    assert_eq!(list.front(), Some(&3));
    assert_eq!(list.back(), Some(&3));
    assert_eq!(list.len(), 1);
    // pop:3
    assert_eq!(list.pop_back(), Some(3));
    assert!(list.is_empty());
    assert_eq!(list.pop_front(), None);
    assert_eq!(list.pop_back(), None);
}

#[test]
fn test_list_splice() {
    let mut list1 = List::new();
    let mut list2 = List::new();
    // list1:3 2 1 list2:4 5
    {
        list1.push_front(1);
        list1.push_front(2);
        list1.push_front(3);
        list2.push_back(4);
        list2.push_back(5);
    }
    let node: usize = list2.end_node().unwrap();
    // list1:3 5 2 1 list2:4
    list1.splice_back(list1.begin_node(), &mut list2, node);
    assert_eq!(list1.front(), Some(&3));
    assert_eq!(list2.front(), Some(&4));
    // list1: 5 2 1 list2:4
    assert_eq!(list1.pop_front(), Some(3));
    assert_eq!(list1.front(), Some(&5));
    let node2: usize = list2.begin_node().unwrap();
    // list1:4 5 2 1 list2:emtpy
    list1.splice_front(list1.begin_node(), &mut list2, node2);
    assert_eq!(list1.front(), Some(&4));
    // list1:5 2 1 list2:emtpy
    assert_eq!(list1.pop_front(), Some(4));
    assert_eq!(list1.front(), Some(&5));
    assert!(list2.is_empty());
}

#[test]
fn test_list_splice_self() {
    let mut list = List::new();
    // list:1 2 3
    list.push_back(1);
    list.push_back(2);
    list.push_back(3);
    // move the back node to the front: 3 1 2
    let node: usize = list.end_node().unwrap();
    list.splice_self_front(list.begin_node(), node);
    assert_eq!(list.pop_front(), Some(3));
    assert_eq!(list.pop_front(), Some(1));
    assert_eq!(list.pop_front(), Some(2));
    assert!(list.is_empty());
}

#[test]
fn test_list_remove_and_replace() {
    let mut list = List::new();
    // list:10 20 30
    list.push_back(10);
    list.push_back(20);
    list.push_back(30);
    assert_eq!(*list.get(1), 20);
    assert_eq!(list.replace_at(1, 25), 20);
    assert_eq!(*list.get(1), 25);
    assert_eq!(list.remove_node(1), 25);
    assert_eq!(list.len(), 2);
    assert_eq!(list.front(), Some(&10));
    assert_eq!(list.back(), Some(&30));
}
