use qurvy::data::list::{LinkList, EMPTY_REF};

#[test]
fn list_test_00() {
    let mut list = LinkList::new(vec![0, 1, 3]);
    list.split_at(1, 1, 2);

    assert_eq!(list.get(0).item, 0);
    assert_eq!(list.get(1).item, 1);
    assert_eq!(list.get(3).item, 2);
    assert_eq!(list.get(2).item, 3);
}

#[test]
fn list_test_01() {
    let mut list = LinkList::new(vec![0, 2, 3]);
    list.split_at(0, 0, 1);

    assert_eq!(list.get(0).item, 0);
    assert_eq!(list.get(3).item, 1);
    assert_eq!(list.get(1).item, 2);
    assert_eq!(list.get(2).item, 3);
}

#[test]
fn list_test_02() {
    let mut list = LinkList::new(vec![0, 1, 2]);
    list.split_at(2, 2, 3);

    assert_eq!(list.get(0).item, 0);
    assert_eq!(list.get(1).item, 1);
    assert_eq!(list.get(2).item, 2);
    assert_eq!(list.get(3).item, 3);
}

#[test]
fn list_walk_follows_links_not_indices() {
    let mut list = LinkList::new(vec![0, 1, 3]);
    let pair = list.split_at(1, 1, 2);
    assert_eq!(pair, (1, 3));
    assert_eq!(list.items(), vec![0, 1, 2, 3]);
    assert_eq!(list.len(), 4);
}

#[test]
fn list_links_after_splits() {
    let mut list = LinkList::new(vec![10, 20]);
    assert_eq!(list.get(0).prev, EMPTY_REF);
    assert_eq!(list.get(0).next, 1);
    assert_eq!(list.get(1).prev, 0);
    assert_eq!(list.get(1).next, EMPTY_REF);

    list.split_at(1, 20, 30);
    list.split_at(0, 10, 15);
    assert_eq!(list.items(), vec![10, 15, 20, 30]);
    assert_eq!(list.get(0).next, 3);
    assert_eq!(list.get(3).prev, 0);
    assert_eq!(list.get(3).next, 1);
    assert_eq!(list.get(1).prev, 3);
    assert_eq!(list.get(1).next, 2);
    assert_eq!(list.get(2).prev, 1);
    assert_eq!(list.get(2).next, EMPTY_REF);
}

#[test]
fn list_of_nothing_is_empty() {
    let list: LinkList<i32> = LinkList::new(vec![]);
    assert_eq!(list.len(), 0);
    assert_eq!(list.items(), Vec::<i32>::new());
}

#[test]
fn list_of_one_splits_at_its_head() {
    let mut list = LinkList::new(vec![7]);
    assert_eq!(list.get(0).prev, EMPTY_REF);
    assert_eq!(list.get(0).next, EMPTY_REF);
    let pair = list.split_at(0, 1, 2);
    assert_eq!(pair, (0, 1));
    assert_eq!(list.items(), vec![1, 2]);
}
