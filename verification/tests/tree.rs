use std::cell::RefCell;

use fluffy_structs::common::DFTOrder;
use fluffy_structs::common::Error;
use fluffy_structs::common::Node;
use fluffy_structs::common::Traversable;
use fluffy_structs::BTree;
use fluffy_structs::BTreeNode;

fn in_order_values(tree: &BTree<u8>) -> Vec<u8> {
    let mut out = Vec::new();
    let mut it = tree.iter_depth();
    while let Some(n) = it.next() {
        out.push(*n.value());
    }
    out
}

fn values_in(tree: &BTree<u8>, order: DFTOrder) -> Vec<u8> {
    let mut out = Vec::new();
    let mut it = tree.iter_depth_order(order);
    while let Some(n) = it.next() {
        out.push(*n.value());
    }
    out
}

#[test]
fn insert() {
    let mut tree = BTree::new(10u8);
    tree.insert(2);
    tree.insert(11);
    tree.insert(3);
    let new_node_left = tree.get_root().unwrap().get_left_child().unwrap();
    let new_node_right = tree.get_root().unwrap().get_right_child().unwrap();
    let new_node_three = tree
        .get_root()
        .unwrap()
        .get_left_child()
        .unwrap()
        .get_right_child()
        .unwrap();
    assert_eq!(*new_node_left.value(), 2u8);
    assert_eq!(*new_node_right.value(), 11u8);
    assert_eq!(*new_node_three.value(), 3u8);
}

#[test]
fn from_iterable() {
    let vec: Vec<u8> = vec![12, 3, 5];
    let tree: BTree<u8> = BTree::from_iter(vec);
    assert_eq!(*tree.get_root().unwrap().value(), 12);
    assert_eq!(*tree.get_root().unwrap().get_left_child().unwrap().value(), 3);
}

#[test]
fn in_order_iter() {
    let vec: Vec<u8> = vec![12, 15, 3, 5];
    let tree: BTree<u8> = BTree::from_iter(vec);
    let out_vec: Vec<&BTreeNode<u8>> = {
        let mut out = Vec::new();
        let mut it = tree.iter_depth();
        while let Some(n) = it.next() {
            out.push(n);
        }
        out
    };
    assert_eq!(out_vec.len(), 4);
    assert_eq!(*out_vec[0].value(), 3u8);
    assert_eq!(*out_vec[1].value(), 5u8);
    assert_eq!(*out_vec[2].value(), 12u8);
    assert_eq!(*out_vec[3].value(), 15u8);
}

#[test]
fn pre_order_iter() {
    let vec: Vec<u8> = vec![12, 15, 3, 5];
    let tree: BTree<u8> = BTree::from_iter(vec);
    let out_vec = values_in(&tree, DFTOrder::PreOrder);
    assert_eq!(out_vec.len(), 4);
    assert_eq!(out_vec[0], 12u8);
    assert_eq!(out_vec[1], 3u8);
    assert_eq!(out_vec[2], 5u8);
    assert_eq!(out_vec[3], 15u8);
}

#[test]
fn post_order_iter() {
    let vec: Vec<u8> = vec![12, 15, 3, 5];
    let tree: BTree<u8> = BTree::from_iter(vec);
    let out_vec = values_in(&tree, DFTOrder::PostOrder);
    assert_eq!(out_vec.len(), 4);
    assert_eq!(out_vec[0], 5u8);
    assert_eq!(out_vec[1], 3u8);
    assert_eq!(out_vec[2], 15u8);
    assert_eq!(out_vec[3], 12u8);
}

#[test]
fn empty_tree_has_no_root() {
    let tree: BTree<u8> = BTree::empty();
    assert!(tree.is_empty());
    assert!(tree.get_root().is_none());
    assert_eq!(in_order_values(&tree), Vec::<u8>::new());
}

#[test]
fn insert_into_empty_seeds_the_root() {
    let mut tree: BTree<u8> = BTree::empty();
    tree.insert(9);
    assert!(!tree.is_empty());
    assert_eq!(*tree.get_root().unwrap().value(), 9);
}

#[test]
fn in_order_is_sorted_with_duplicates() {
    let tree: BTree<u8> = BTree::from_iter(vec![10, 2, 11, 3, 10, 2]);
    assert_eq!(in_order_values(&tree), vec![2, 2, 3, 10, 10, 11]);
}

#[test]
fn traversal_orders_of_small_tree() {
    let tree: BTree<u8> = BTree::from_iter(vec![10, 2, 11, 3]);
    assert_eq!(values_in(&tree, DFTOrder::InOrder), vec![2, 3, 10, 11]);
    assert_eq!(values_in(&tree, DFTOrder::PreOrder), vec![10, 2, 3, 11]);
    assert_eq!(values_in(&tree, DFTOrder::PostOrder), vec![3, 2, 11, 10]);
}

#[test]
fn iterators_restart_fresh() {
    let tree: BTree<u8> = BTree::from_iter(vec![12, 15, 3, 5]);
    let first = in_order_values(&tree);
    let second = in_order_values(&tree);
    assert_eq!(first, second);
}

#[test]
fn iterating_an_empty_tree_yields_nothing() {
    let tree: BTree<u8> = BTree::empty();
    assert_eq!(values_in(&tree, DFTOrder::InOrder), Vec::<u8>::new());
    assert_eq!(values_in(&tree, DFTOrder::PreOrder), Vec::<u8>::new());
    assert_eq!(values_in(&tree, DFTOrder::PostOrder), Vec::<u8>::new());
}

#[test]
fn traverse_visits_in_the_chosen_order() {
    let tree: BTree<u8> = BTree::from_iter(vec![10, 2, 11, 3]);
    let seen: RefCell<Vec<u8>> = RefCell::new(Vec::new());
    tree.traverse(DFTOrder::InOrder, &|x: &u8| {
        seen.borrow_mut().push(*x);
    });
    assert_eq!(seen.borrow().clone(), vec![2, 3, 10, 11]);

    seen.borrow_mut().clear();
    tree.traverse(DFTOrder::PostOrder, &|x: &u8| {
        seen.borrow_mut().push(*x);
    });
    assert_eq!(seen.borrow().clone(), vec![3, 2, 11, 10]);
}

#[test]
fn traverse_a_node_visits_its_subtree() {
    let tree: BTree<u8> = BTree::from_iter(vec![10, 2, 11, 3]);
    let left = tree.get_root().unwrap().get_left_child().unwrap();
    let seen: RefCell<Vec<u8>> = RefCell::new(Vec::new());
    left.traverse(DFTOrder::PreOrder, &|x: &u8| {
        seen.borrow_mut().push(*x);
    });
    assert_eq!(seen.borrow().clone(), vec![2, 3]);
}

#[test]
fn iter_breadth_is_not_supported() {
    let tree: BTree<u8> = BTree::from_iter(vec![1, 2]);
    assert_eq!(tree.iter_breadth(), Err(Error::Unimplemented));
}

#[test]
fn remove_is_not_supported() {
    let mut tree: BTree<u8> = BTree::new(4);
    tree.insert(6);
    let probe: BTree<u8> = BTree::new(4);
    let denied = tree.remove(probe.get_root().unwrap());
    assert_eq!(denied, Err(Error::Unimplemented));
    assert_eq!(in_order_values(&tree), vec![4, 6]);
}
