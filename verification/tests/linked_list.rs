use fluffy_structs::common::Error;
use fluffy_structs::common::Order;
use fluffy_structs::common::Sortable;
use fluffy_structs::LinkedList;

fn make_test_list() -> LinkedList<i32> {
    let mut list = LinkedList::new(1);
    list.append(2);
    list.append(3);

    list
}

fn collect(list: &LinkedList<i32>) -> Vec<i32> {
    let mut out = Vec::new();
    let mut it = list.iter();
    while let Some(v) = it.next() {
        out.push(*v);
    }
    out
}

#[test]
fn create() {
    let list: LinkedList<u8> = LinkedList::new(1);
    assert_eq!(list.head(), Some(&1));
    assert!(list.tail().is_none());
}

#[test]
fn append() {
    let list = make_test_list();
    assert_eq!(list.len(), 3);
    assert_eq!(list.last(), Ok(&3));
}

#[test]
fn remove() {
    let mut list = make_test_list();
    list.append(4);
    list.append(5);

    assert_eq!(list.remove_at(2), Ok(()));
    assert_eq!(list.len(), 4);
    assert_eq!(collect(&list), vec![1, 2, 4, 5]);
}

#[test]
fn last_equal_head() {
    let list = LinkedList::new(1);
    assert_eq!(list.last(), Ok(&1i32));
}

#[test]
fn nth() {
    let list = make_test_list();
    assert_eq!(list.nth(0), Some(&1));
}

#[test]
fn iter_one() {
    let list = LinkedList::new(1);
    let mut it = list.iter();
    let mut count = 0;
    while let Some(_) = it.next() {
        count += 1;
    }
    assert_eq!(count, 1);
}

#[test]
fn iter_empty() {
    let list: LinkedList<u8> = LinkedList::empty();
    let mut it = list.iter();
    let mut count = 0;
    while let Some(_) = it.next() {
        count += 1;
    }
    assert_eq!(count, 0);
}

#[test]
fn iter_mut_empty() {
    let mut list: LinkedList<u8> = LinkedList::empty();
    let mut it = list.iter_mut();
    let mut count = 0;
    while let Some(_) = it.next() {
        count += 1;
    }
    assert_eq!(count, 0);
}

#[test]
fn iter() {
    let list = make_test_list();
    let mut it = list.iter();
    let mut count = 0;
    while let Some(_) = it.next() {
        count += 1;
    }
    assert_eq!(count, 3);
}

#[test]
fn iter_mut() {
    let mut list = make_test_list();
    let mut it = list.iter_mut();
    let mut count = 0;
    while let Some(_) = it.next() {
        count += 1;
    }
    assert_eq!(count, 3);
}

#[test]
fn from_iter() {
    let it: Vec<i32> = (0..5).collect();
    let list = LinkedList::from_iter(it);
    assert_eq!(list.len(), 5);
    assert_eq!(list.head(), Some(&0));
    assert_eq!(list.last(), Ok(&4));
}

#[test]
fn sort() {
    let list = make_test_list();
    let list = list.sort(Order::Descending);
    assert_eq!(collect(&list), vec![3, 2, 1]);

    let list = list.sort(Order::Ascending);
    assert_eq!(collect(&list), vec![1, 2, 3]);
}

#[test]
fn macro_create() {
    let list = {
        let mut list = LinkedList::new(1);
        list.append(2);
        list.append(3);
        list
    };
    assert_eq!(list.len(), 3);
}

#[test]
fn is_empty_and_has_next() {
    let empty: LinkedList<i32> = LinkedList::empty();
    assert!(empty.is_empty());

    let one = LinkedList::new(7);
    assert!(!one.is_empty());
    assert!(!one.has_next());

    let two = make_test_list();
    assert!(two.has_next());
}

#[test]
fn head_of_empty_is_absent() {
    let list: LinkedList<i32> = LinkedList::empty();
    assert_eq!(list.head(), None);
    assert_eq!(list.nth(0), None);
}

#[test]
fn last_of_empty_fails() {
    let list: LinkedList<i32> = LinkedList::empty();
    assert_eq!(list.last(), Err(Error::EmptyContainer));
}

#[test]
fn last_mut_of_empty_fails() {
    let mut list: LinkedList<i32> = LinkedList::empty();
    assert!(matches!(list.last_mut(), Err(Error::EmptyContainer)));
}

#[test]
fn append_to_empty_fills_head() {
    let mut list: LinkedList<i32> = LinkedList::empty();
    list.append(42);
    assert_eq!(list.len(), 1);
    assert_eq!(list.head(), Some(&42));
}

#[test]
fn remove_then_nth_shifts_left() {
    let mut list = make_test_list();
    assert_eq!(list.remove_at(1), Ok(()));
    assert_eq!(list.nth(1), Some(&3));
    assert_eq!(list.len(), 2);

    assert_eq!(list.remove_at(1), Ok(()));
    assert_eq!(list.nth(1), None);
    assert_eq!(list.len(), 1);
}

#[test]
fn remove_out_of_bounds_leaves_list_unmodified() {
    let mut list = make_test_list();
    assert_eq!(list.remove_at(3), Err(Error::IndexOutOfBounds));
    assert_eq!(list.len(), 3);
    assert_eq!(collect(&list), vec![1, 2, 3]);

    let mut empty: LinkedList<i32> = LinkedList::empty();
    assert_eq!(empty.remove_at(0), Err(Error::IndexOutOfBounds));
    assert!(empty.is_empty());
}

#[test]
fn remove_head_promotes_successor() {
    let mut list = make_test_list();
    assert_eq!(list.remove_at(0), Ok(()));
    assert_eq!(collect(&list), vec![2, 3]);

    let mut one = LinkedList::new(9);
    assert_eq!(one.remove_at(0), Ok(()));
    assert!(one.is_empty());
}

#[test]
fn tail_shares_the_chain() {
    let list = make_test_list();
    let tail = list.tail().unwrap();
    assert_eq!(tail.len(), 2);
    assert_eq!(tail.head(), Some(&2));
    assert!(list.tail().unwrap().tail().unwrap().tail().is_none());
}

#[test]
fn tail_mut_mutation_is_visible_in_the_original() {
    let mut list = make_test_list();
    {
        let tail = list.tail_mut().unwrap();
        let mut it = tail.iter_mut();
        if let Some(v) = it.next() {
            *v = 20;
        }
    }
    assert_eq!(collect(&list), vec![1, 20, 3]);
}

#[test]
fn last_mut_reaches_the_final_node() {
    let mut list = make_test_list();
    {
        let last = list.last_mut().unwrap();
        assert_eq!(last.len(), 1);
        assert_eq!(last.head(), Some(&3));
        let mut it = last.iter_mut();
        if let Some(v) = it.next() {
            *v = 30;
        }
    }
    assert_eq!(collect(&list), vec![1, 2, 30]);
}

#[test]
fn iter_mut_rewrites_in_place() {
    let mut list = make_test_list();
    let mut it = list.iter_mut();
    while let Some(v) = it.next() {
        *v *= 10;
    }
    assert_eq!(collect(&list), vec![10, 20, 30]);
}

#[test]
fn iter_restarts_fresh() {
    let list = make_test_list();
    let first = collect(&list);
    let second = collect(&list);
    assert_eq!(first, second);
    assert_eq!(first, vec![1, 2, 3]);
}

#[test]
fn sort_is_idempotent_on_sorted_input() {
    let mut list = LinkedList::new(1);
    list.append(2);
    list.append(3);
    let sorted = list.sort(Order::Ascending);
    assert_eq!(collect(&sorted), vec![1, 2, 3]);
    let sorted_again = sorted.sort(Order::Ascending);
    assert_eq!(collect(&sorted_again), vec![1, 2, 3]);
}

#[test]
fn sort_keeps_duplicates() {
    let mut list = LinkedList::new(2);
    list.append(1);
    list.append(2);
    list.append(1);
    let sorted = list.sort(Order::Ascending);
    assert_eq!(collect(&sorted), vec![1, 1, 2, 2]);
}

#[test]
fn from_iter_of_empty_source_is_empty() {
    let list: LinkedList<i32> = LinkedList::from_iter(Vec::new());
    assert!(list.is_empty());
    assert_eq!(list.len(), 0);
}

#[test]
fn from_iter_keeps_source_order() {
    let list = LinkedList::from_iter(vec![5, 4, 9, 4]);
    assert_eq!(collect(&list), vec![5, 4, 9, 4]);
    assert_eq!(list.len(), 4);
}
