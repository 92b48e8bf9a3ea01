//! A small generic-container library: a singly linked list with an explicit
//! empty state, an unbalanced binary search tree with three depth-first
//! traversal orders, and a node/edge graph whose nodes carry a back-reference
//! into the owning arena.
//!
//! Every container is specified against a mathematical view (`Seq`) and all
//! operations are verified: constructors establish the well-formedness
//! invariants, mutations preserve them, and traversals are proved to yield
//! exactly the sequence their order prescribes.

pub mod common;

mod graph;
mod linked_list;
mod tree;

pub use graph::Edge;
pub use graph::Graph;
pub use graph::GraphNode;
pub use linked_list::lemma_remove_then_nth;
pub use linked_list::lemma_sorted_permutation_unique;
pub use linked_list::LinkedList;
pub use linked_list::LinkedListIterator;
pub use linked_list::LinkedListIteratorMut;
pub use tree::values_of;
pub use tree::BTree;
pub use tree::BTreeDepthIterator;
pub use tree::BTreeInOrderIterator;
pub use tree::BTreeNode;
pub use tree::BTreePostOrderIterator;
pub use tree::BTreePreOrderIterator;
pub use tree::lemma_from_iter_in_order_sorted;
pub use tree::lemma_in_order_sorted;
pub use tree::lemma_traversals_same_nodes;
pub use tree::lemma_tree_in_order_sorted;
pub use tree::NodeValue;


