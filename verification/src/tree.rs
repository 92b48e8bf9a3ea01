//! An unbalanced binary search tree with three depth-first traversal
//! orders.
//!
//! The tree owns its root node; every node owns its two optional children.
//! Values are keyed by the `TotalOrder` of the element type: everything in a
//! node's left subtree compares strictly below the node's value, everything
//! in the right subtree at or above it, so duplicates are routed right and
//! the in-order traversal is proved to list the values in ascending order.

use vstd::multiset::Multiset;
use vstd::prelude::*;
use vstd::relations::sorted_by;

use crate::common::{le_fn, DFTOrder, Error, Node, TotalOrder, Traversable};

verus! {

/// Marker for values a tree node can carry.
pub trait NodeValue {
}

impl<T: Sized> NodeValue for T {
}

/// A node of the tree: a value and up to two owned children.
pub struct BTreeNode<T> {
    value: T,
    left: Option<Box<BTreeNode<T>>>,
    right: Option<Box<BTreeNode<T>>>,
}

/// An unbalanced binary search tree over the total order of `T`.
pub struct BTree<T> {
    root: Option<BTreeNode<T>>,
}

/// The nodes of an optional subtree, left to right, in in-order.
pub closed spec fn opt_in_order<T>(o: Option<Box<BTreeNode<T>>>) -> Seq<BTreeNode<T>>
    decreases o,
{
    match o {
        Option::None => Seq::empty(),
        Option::Some(n) => n.in_order(),
    }
}

/// The nodes of an optional subtree in pre-order.
pub closed spec fn opt_pre_order<T>(o: Option<Box<BTreeNode<T>>>) -> Seq<BTreeNode<T>>
    decreases o,
{
    match o {
        Option::None => Seq::empty(),
        Option::Some(n) => n.pre_order(),
    }
}

/// The nodes of an optional subtree in post-order.
pub closed spec fn opt_post_order<T>(o: Option<Box<BTreeNode<T>>>) -> Seq<BTreeNode<T>>
    decreases o,
{
    match o {
        Option::None => Seq::empty(),
        Option::Some(n) => n.post_order(),
    }
}

/// The number of nodes in an optional subtree.
pub closed spec fn opt_count<T>(o: Option<Box<BTreeNode<T>>>) -> nat
    decreases o,
{
    match o {
        Option::None => 0,
        Option::Some(n) => n.count(),
    }
}

/// The height of an optional subtree.
pub closed spec fn opt_height<T>(o: Option<Box<BTreeNode<T>>>) -> nat
    decreases o,
{
    match o {
        Option::None => 0,
        Option::Some(n) => n.height(),
    }
}

/// The values carried by a sequence of nodes, in the same order.
pub closed spec fn values_of<T>(nodes: Seq<BTreeNode<T>>) -> Seq<T> {
    nodes.map_values(|n: BTreeNode<T>| n.value)
}

impl<T> BTreeNode<T> {
    /// The carried value, at the spec level.
    pub closed spec fn val(&self) -> T {
        self.value
    }

    /// The left child, at the spec level.
    pub closed spec fn spec_left(&self) -> Option<BTreeNode<T>> {
        match self.left {
            Option::Some(b) => Some(*b),
            Option::None => None,
        }
    }

    /// The right child, at the spec level.
    pub closed spec fn spec_right(&self) -> Option<BTreeNode<T>> {
        match self.right {
            Option::Some(b) => Some(*b),
            Option::None => None,
        }
    }

    /// The subtree's nodes in in-order: left subtree, this node, right
    /// subtree.
    pub closed spec fn in_order(self) -> Seq<BTreeNode<T>>
        decreases self,
    {
        opt_in_order(self.left) + seq![self] + opt_in_order(self.right)
    }

    /// The subtree's nodes in pre-order: this node first, then the left
    /// subtree, then the right subtree.
    pub closed spec fn pre_order(self) -> Seq<BTreeNode<T>>
        decreases self,
    {
        seq![self] + opt_pre_order(self.left) + opt_pre_order(self.right)
    }

    /// The subtree's nodes in post-order: children before their parent,
    /// left siblings before right, this node last.
    pub closed spec fn post_order(self) -> Seq<BTreeNode<T>>
        decreases self,
    {
        opt_post_order(self.left) + opt_post_order(self.right) + seq![self]
    }

    /// The number of nodes in the subtree.
    pub closed spec fn count(self) -> nat
        decreases self,
    {
        1 + opt_count(self.left) + opt_count(self.right)
    }

    /// The height of the subtree.
    pub closed spec fn height(self) -> nat
        decreases self,
    {
        let lh = opt_height(self.left);
        let rh = opt_height(self.right);
        if lh >= rh {
            lh + 1
        } else {
            rh + 1
        }
    }

    /// A leaf node carrying `value`.
    fn new(value: T) -> (r: Self)
        ensures
            r.val() == value,
            r.spec_left() is None,
            r.spec_right() is None,
    {
        BTreeNode { value, left: None, right: None }
    }

    /// The left child, if any.
    pub fn get_left_child(&self) -> (r: Option<&BTreeNode<T>>)
        ensures
            match r {
                Option::Some(n) => self.spec_left() == Some(*n),
                Option::None => self.spec_left() is None,
            },
    {
        match &self.left {
            Option::Some(b) => Some(&**b),
            Option::None => None,
        }
    }

    /// The right child, if any.
    pub fn get_right_child(&self) -> (r: Option<&BTreeNode<T>>)
        ensures
            match r {
                Option::Some(n) => self.spec_right() == Some(*n),
                Option::None => self.spec_right() is None,
            },
    {
        match &self.right {
            Option::Some(b) => Some(&**b),
            Option::None => None,
        }
    }
}

impl<T: TotalOrder> BTreeNode<T> {
    /// The search-tree ordering: every value in the left subtree compares
    /// strictly below this node's value, every value in the right subtree
    /// at or above it (duplicates are routed right), recursively.
    pub closed spec fn wf(self) -> bool
        decreases self,
    {
        let lv = values_of(opt_in_order(self.left));
        let rv = values_of(opt_in_order(self.right));
        &&& forall|i: int|
            0 <= i < lv.len() ==> (#[trigger] lv[i]).le(self.value) && lv[i] != self.value
        &&& forall|i: int| 0 <= i < rv.len() ==> self.value.le(#[trigger] rv[i])
        &&& (match self.left {
            Option::Some(l) => l.wf(),
            Option::None => true,
        })
        &&& (match self.right {
            Option::Some(r) => r.wf(),
            Option::None => true,
        })
    }

    /// The subtree that results from routing `value` down to a vacant
    /// side: strictly-below values descend left, everything else right,
    /// and a fresh leaf is attached where the walk falls off the tree.
    pub closed spec fn spec_insert(self, value: T) -> BTreeNode<T>
        decreases self,
    {
        if !self.value.le(value) {
            match self.left {
                Option::None => BTreeNode {
                    value: self.value,
                    left: Some(Box::new(BTreeNode { value, left: None, right: None })),
                    right: self.right,
                },
                Option::Some(l) => BTreeNode {
                    value: self.value,
                    left: Some(Box::new(l.spec_insert(value))),
                    right: self.right,
                },
            }
        } else {
            match self.right {
                Option::None => BTreeNode {
                    value: self.value,
                    left: self.left,
                    right: Some(Box::new(BTreeNode { value, left: None, right: None })),
                },
                Option::Some(r) => BTreeNode {
                    value: self.value,
                    left: self.left,
                    right: Some(Box::new(r.spec_insert(value))),
                },
            }
        }
    }

    /// Iteratively-shaped walk made recursive: compare, descend, attach a
    /// leaf at the first vacant side in the search path.
    fn insert(&mut self, value: T)
        ensures
            *final(self) == old(self).spec_insert(value),
        decreases *old(self),
    {
        let go_left = !self.value.le_exec(&value);
        if go_left {
            match self.left.take() {
                Option::None => {
                    self.left = Some(Box::new(BTreeNode::new(value)));
                },
                Option::Some(mut l) => {
                    (&mut *l).insert(value);
                    self.left = Some(l);
                },
            }
        } else {
            match self.right.take() {
                Option::None => {
                    self.right = Some(Box::new(BTreeNode::new(value)));
                },
                Option::Some(mut r) => {
                    (&mut *r).insert(value);
                    self.right = Some(r);
                },
            }
        }
    }
}

/// The values of a concatenation are the concatenation of the values.
proof fn lemma_values_add<T>(a: Seq<BTreeNode<T>>, b: Seq<BTreeNode<T>>)
    ensures
        values_of(a + b) == values_of(a) + values_of(b),
{
    assert(values_of(a + b) =~= values_of(a) + values_of(b));
}

/// Inserting a value into a well-formed subtree keeps it well-formed and
/// adds exactly one occurrence of the value to its in-order values.
proof fn lemma_insert_node<T: TotalOrder>(n: BTreeNode<T>, value: T)
    requires
        n.wf(),
    ensures
        n.spec_insert(value).wf(),
        values_of(n.spec_insert(value).in_order()).to_multiset() == values_of(
            n.in_order(),
        ).to_multiset().insert(value),
    decreases n,
{
    broadcast use vstd::seq_lib::group_to_multiset_ensures;
    broadcast use vstd::multiset::group_multiset_axioms;
    broadcast use vstd::seq_lib::lemma_seq_contains;

    let m = n.spec_insert(value);
    let lv = values_of(opt_in_order(n.left));
    let rv = values_of(opt_in_order(n.right));
    let leaf = BTreeNode { value, left: None, right: None };
    assert(leaf.in_order() =~= seq![leaf]);
    assert(values_of(seq![leaf]) =~= seq![value]);
    assert(leaf.wf()) by {
        assert(values_of(opt_in_order(leaf.left)) =~= Seq::<T>::empty());
        assert(values_of(opt_in_order(leaf.right)) =~= Seq::<T>::empty());
    }
    assert(seq![value].to_multiset() =~= Multiset::<T>::empty().insert(value)) by {
        assert(seq![value] =~= Seq::<T>::empty().push(value));
        assert(Seq::<T>::empty().to_multiset() =~= Multiset::<T>::empty());
    }
    if !n.value.le(value) {
        assert(value.le(n.value) && value != n.value) by {
            T::le_total(n.value, value);
            if value == n.value {
                T::le_total(n.value, n.value);
            }
        }
        let lv2 = values_of(opt_in_order(m.left));
        match n.left {
            Option::None => {
                assert(lv =~= Seq::<T>::empty());
                assert(lv2 == seq![value]);
            },
            Option::Some(l) => {
                lemma_insert_node(*l, value);
                assert(lv2 == values_of(l.spec_insert(value).in_order()));
            },
        }
        assert(lv2.to_multiset() == lv.to_multiset().insert(value));
        assert forall|i: int|
            0 <= i < lv2.len() implies (#[trigger] lv2[i]).le(n.value) && lv2[i] != n.value by {
            let x = lv2[i];
            assert(lv2.contains(x));
            assert(lv2.to_multiset().count(x) > 0);
            if x != value {
                assert(lv.to_multiset().count(x) > 0);
                assert(lv.contains(x));
                let k = choose|k: int| 0 <= k < lv.len() && lv[k] == x;
                assert(lv[k].le(n.value) && lv[k] != n.value);
            }
        }
        assert(m.wf());
        assert(values_of(m.in_order()).to_multiset() == values_of(n.in_order())
            .to_multiset().insert(value)) by {
            lemma_values_add(opt_in_order(m.left) + seq![m], opt_in_order(m.right));
            lemma_values_add(opt_in_order(m.left), seq![m]);
            lemma_values_add(opt_in_order(n.left) + seq![n], opt_in_order(n.right));
            lemma_values_add(opt_in_order(n.left), seq![n]);
            vstd::seq_lib::lemma_multiset_commutative(lv2 + values_of(seq![m]), rv);
            vstd::seq_lib::lemma_multiset_commutative(lv2, values_of(seq![m]));
            vstd::seq_lib::lemma_multiset_commutative(lv + values_of(seq![n]), rv);
            vstd::seq_lib::lemma_multiset_commutative(lv, values_of(seq![n]));
            assert(values_of(seq![m]) =~= seq![n.value]);
            assert(values_of(seq![n]) =~= seq![n.value]);
            assert(values_of(m.in_order()) == (lv2 + values_of(seq![m])) + rv);
            assert(values_of(n.in_order()) == (lv + values_of(seq![n])) + rv);
            assert(values_of(m.in_order()).to_multiset() =~= values_of(n.in_order())
                .to_multiset().insert(value));
        }
    } else {
        let rv2 = values_of(opt_in_order(m.right));
        match n.right {
            Option::None => {
                assert(rv =~= Seq::<T>::empty());
                assert(rv2 == seq![value]);
            },
            Option::Some(r) => {
                lemma_insert_node(*r, value);
                assert(rv2 == values_of(r.spec_insert(value).in_order()));
            },
        }
        assert(rv2.to_multiset() == rv.to_multiset().insert(value));
        assert forall|i: int| 0 <= i < rv2.len() implies n.value.le(#[trigger] rv2[i]) by {
            let x = rv2[i];
            assert(rv2.contains(x));
            assert(rv2.to_multiset().count(x) > 0);
            if x != value {
                assert(rv.to_multiset().count(x) > 0);
                assert(rv.contains(x));
                let k = choose|k: int| 0 <= k < rv.len() && rv[k] == x;
                assert(n.value.le(rv[k]));
            }
        }
        assert(m.wf());
        assert(values_of(m.in_order()).to_multiset() == values_of(n.in_order())
            .to_multiset().insert(value)) by {
            lemma_values_add(opt_in_order(m.left) + seq![m], opt_in_order(m.right));
            lemma_values_add(opt_in_order(m.left), seq![m]);
            lemma_values_add(opt_in_order(n.left) + seq![n], opt_in_order(n.right));
            lemma_values_add(opt_in_order(n.left), seq![n]);
            vstd::seq_lib::lemma_multiset_commutative(lv + values_of(seq![m]), rv2);
            vstd::seq_lib::lemma_multiset_commutative(lv, values_of(seq![m]));
            vstd::seq_lib::lemma_multiset_commutative(lv + values_of(seq![n]), rv);
            vstd::seq_lib::lemma_multiset_commutative(lv, values_of(seq![n]));
            assert(values_of(seq![m]) =~= seq![n.value]);
            assert(values_of(seq![n]) =~= seq![n.value]);
            assert(values_of(m.in_order()) == (lv + values_of(seq![m])) + rv2);
            assert(values_of(n.in_order()) == (lv + values_of(seq![n])) + rv);
            assert(values_of(m.in_order()).to_multiset() =~= values_of(n.in_order())
                .to_multiset().insert(value));
        }
    }
}

/// Law: the in-order traversal of a well-formed subtree lists its values
/// in non-decreasing order under the total order, duplicates included.
pub proof fn lemma_in_order_sorted<T: TotalOrder>(n: BTreeNode<T>)
    requires
        n.wf(),
    ensures
        sorted_by(values_of(n.in_order()), le_fn::<T>()),
    decreases n,
{
    let lv = values_of(opt_in_order(n.left));
    let rv = values_of(opt_in_order(n.right));
    let vs = values_of(n.in_order());
    lemma_values_add(opt_in_order(n.left) + seq![n], opt_in_order(n.right));
    lemma_values_add(opt_in_order(n.left), seq![n]);
    assert(values_of(seq![n]) =~= seq![n.val()]);
    assert(vs == (lv + seq![n.val()]) + rv);
    match n.left {
        Option::Some(l) => {
            lemma_in_order_sorted(*l);
        },
        Option::None => {
            assert(lv =~= Seq::<T>::empty());
        },
    }
    match n.right {
        Option::Some(r) => {
            lemma_in_order_sorted(*r);
        },
        Option::None => {
            assert(rv =~= Seq::<T>::empty());
        },
    }
    let ll = lv.len() as int;
    assert forall|i: int, j: int| 0 <= i < j < vs.len() implies #[trigger] le_fn::<T>()(
        vs[i],
        vs[j],
    ) by {
        if j < ll {
            assert(le_fn::<T>()(lv[i], lv[j]));
        } else if i < ll && j == ll {
            assert(lv[i].le(n.val()));
        } else if i < ll && j > ll {
            assert(lv[i].le(n.val()));
            assert(n.val().le(rv[j - ll - 1]));
            T::le_transitive(lv[i], n.val(), rv[j - ll - 1]);
        } else if i == ll {
            assert(n.val().le(rv[j - ll - 1]));
        } else {
            assert(le_fn::<T>()(rv[i - ll - 1], rv[j - ll - 1]));
        }
    }
}

/// Law: the three depth-first traversals of a subtree visit exactly the
/// same nodes, each exactly once — they differ only in the order.
pub proof fn lemma_traversals_same_nodes<T>(n: BTreeNode<T>)
    ensures
        n.pre_order().to_multiset() == n.in_order().to_multiset(),
        n.post_order().to_multiset() == n.in_order().to_multiset(),
        n.pre_order().len() == n.count(),
        n.in_order().len() == n.count(),
        n.post_order().len() == n.count(),
    decreases n,
{
    broadcast use vstd::seq_lib::group_to_multiset_ensures;
    broadcast use vstd::multiset::group_multiset_axioms;

    match n.spec_left() {
        Option::Some(l) => {
            lemma_traversals_same_nodes(l);
        },
        Option::None => {},
    }
    match n.spec_right() {
        Option::Some(r) => {
            lemma_traversals_same_nodes(r);
        },
        Option::None => {},
    }
    let li = opt_in_order(n.left);
    let ri = opt_in_order(n.right);
    let lp = opt_pre_order(n.left);
    let rp = opt_pre_order(n.right);
    let lq = opt_post_order(n.left);
    let rq = opt_post_order(n.right);
    assert(lp.to_multiset() == li.to_multiset() && lp.len() == li.len() && lq.to_multiset()
        == li.to_multiset() && lq.len() == li.len()) by {
        match n.spec_left() {
            Option::Some(l) => {},
            Option::None => {
                assert(li =~= Seq::<BTreeNode<T>>::empty());
                assert(lp =~= Seq::<BTreeNode<T>>::empty());
                assert(lq =~= Seq::<BTreeNode<T>>::empty());
            },
        }
    }
    assert(rp.to_multiset() == ri.to_multiset() && rp.len() == ri.len() && rq.to_multiset()
        == ri.to_multiset() && rq.len() == ri.len()) by {
        match n.spec_right() {
            Option::Some(r) => {},
            Option::None => {
                assert(ri =~= Seq::<BTreeNode<T>>::empty());
                assert(rp =~= Seq::<BTreeNode<T>>::empty());
                assert(rq =~= Seq::<BTreeNode<T>>::empty());
            },
        }
    }
    vstd::seq_lib::lemma_multiset_commutative(li + seq![n], ri);
    vstd::seq_lib::lemma_multiset_commutative(li, seq![n]);
    vstd::seq_lib::lemma_multiset_commutative(seq![n] + lp, rp);
    vstd::seq_lib::lemma_multiset_commutative(seq![n], lp);
    vstd::seq_lib::lemma_multiset_commutative(lq + rq, seq![n]);
    vstd::seq_lib::lemma_multiset_commutative(lq, rq);
    assert(n.pre_order().to_multiset() =~= n.in_order().to_multiset());
    assert(n.post_order().to_multiset() =~= n.in_order().to_multiset());
}

/// Law, at the tree level: a well-formed tree's view — its in-order value
/// sequence — is sorted ascending under the total order.
pub proof fn lemma_tree_in_order_sorted<T: TotalOrder>(t: BTree<T>)
    requires
        t.wf(),
    ensures
        sorted_by(t@, le_fn::<T>()),
{
    match t.root {
        Option::Some(n) => {
            lemma_in_order_sorted(n);
        },
        Option::None => {},
    }
}

impl<T> Node for BTreeNode<T> {
    type Output = T;

    open spec fn spec_value(&self) -> T {
        self.val()
    }

    fn value(&self) -> (r: &T) {
        &self.value
    }
}

impl<T> BTree<T> {
    /// The in-order sequence of the tree's values.
    pub closed spec fn view(&self) -> Seq<T> {
        match self.root {
            Option::Some(n) => values_of(n.in_order()),
            Option::None => Seq::empty(),
        }
    }

    /// The root node, at the spec level.
    pub closed spec fn spec_root(&self) -> Option<BTreeNode<T>> {
        self.root
    }

    /// Whether the tree holds no values.
    pub fn is_empty(&self) -> (r: bool)
        ensures
            r == (self@.len() == 0),
            r == (self.spec_root() is None),
    {
        proof {
            match &self.root {
                Option::Some(n) => {
                    assert(n.in_order().len() >= 1);
                },
                Option::None => {},
            }
        }
        self.root.is_none()
    }

    /// The root node, if any.
    pub fn get_root(&self) -> (r: Option<&BTreeNode<T>>)
        ensures
            match r {
                Option::Some(n) => self.spec_root() == Some(*n),
                Option::None => self.spec_root() is None,
            },
    {
        match &self.root {
            Option::Some(n) => Some(n),
            Option::None => None,
        }
    }
}

impl<T: TotalOrder> BTree<T> {
    /// The tree respects the search ordering at every node.
    pub closed spec fn wf(&self) -> bool {
        match self.root {
            Option::Some(n) => n.wf(),
            Option::None => true,
        }
    }

    /// A tree with no nodes at all.
    pub fn empty() -> (r: Self)
        ensures
            r.wf(),
            r.spec_root() is None,
            r@ == Seq::<T>::empty(),
    {
        BTree { root: None }
    }

    /// A tree seeded with a single root value.
    pub fn new(root: T) -> (r: Self)
        ensures
            r.wf(),
            r@ == seq![root],
            r.spec_root() is Some,
            r.spec_root()->0.val() == root,
            r.spec_root()->0.spec_left() is None,
            r.spec_root()->0.spec_right() is None,
    {
        let n = BTreeNode::new(root);
        proof {
            assert(n.in_order() =~= seq![n]);
            assert(values_of(seq![n]) =~= seq![root]);
            assert(n.wf()) by {
                assert(values_of(opt_in_order(n.left)) =~= Seq::<T>::empty());
                assert(values_of(opt_in_order(n.right)) =~= Seq::<T>::empty());
            }
        }
        BTree { root: Some(n) }
    }

    /// The tree that results from inserting `value`: an empty tree is
    /// seeded with it as the root, otherwise it is routed down the search
    /// path of the root node.
    pub closed spec fn spec_insert(self, value: T) -> BTree<T> {
        match self.root {
            Option::None => BTree { root: Some(BTreeNode { value, left: None, right: None }) },
            Option::Some(n) => BTree { root: Some(n.spec_insert(value)) },
        }
    }

    /// Inserts `value` with no rebalancing: on an empty tree this seeds
    /// the root, otherwise the value descends left where it compares
    /// strictly below a node and right otherwise, and a fresh leaf is
    /// attached at the first vacant side.
    pub fn insert(&mut self, value: T)
        requires
            old(self).wf(),
        ensures
            *final(self) == old(self).spec_insert(value),
            final(self).wf(),
            final(self)@.to_multiset() == old(self)@.to_multiset().insert(value),
    {
        broadcast use vstd::seq_lib::group_to_multiset_ensures;
        broadcast use vstd::multiset::group_multiset_axioms;

        match self.root.take() {
            Option::None => {
                let n = BTreeNode::new(value);
                proof {
                    assert(n.in_order() =~= seq![n]);
                    assert(values_of(seq![n]) =~= seq![value]);
                    assert(n.wf()) by {
                        assert(values_of(opt_in_order(n.left)) =~= Seq::<T>::empty());
                        assert(values_of(opt_in_order(n.right)) =~= Seq::<T>::empty());
                    }
                    assert(seq![value] =~= Seq::<T>::empty().push(value));
                    assert(Seq::<T>::empty().to_multiset() =~= Multiset::<T>::empty());
                    assert(seq![value].to_multiset() =~= Multiset::<T>::empty().insert(value));
                }
                self.root = Some(n);
            },
            Option::Some(mut n) => {
                let ghost n0 = n;
                n.insert(value);
                proof {
                    lemma_insert_node(n0, value);
                }
                self.root = Some(n);
            },
        }
    }

    /// The tree that results from inserting every element of `items` in
    /// order, starting from this tree.
    pub closed spec fn spec_insert_all(self, items: Seq<T>) -> BTree<T>
        decreases items.len(),
    {
        if items.len() == 0 {
            self
        } else {
            self.spec_insert(items[0]).spec_insert_all(items.drop_first())
        }
    }

    /// The tree grown by inserting a finite source sequence, in order,
    /// into an empty tree.
    pub closed spec fn spec_from_iter(items: Seq<T>) -> BTree<T> {
        BTree { root: None }.spec_insert_all(items)
    }

    /// Builds a tree from a finite source sequence: the first value seeds
    /// the root and every further value is inserted in order. An empty
    /// source yields an empty tree.
    pub fn from_iter(items: Vec<T>) -> (r: Self)
        ensures
            r == Self::spec_from_iter(items@),
            r.wf(),
            r@.to_multiset() == items@.to_multiset(),
    {
        let ghost all = items@;
        let mut items = items;
        let mut tree = BTree::empty();
        proof {
            broadcast use vstd::seq_lib::group_to_multiset_ensures;
            broadcast use vstd::multiset::group_multiset_axioms;

            assert(tree.wf());
            assert(tree@.to_multiset() =~= Multiset::<T>::empty());
            assert(tree@.to_multiset().add(items@.to_multiset()) =~= all.to_multiset());
        }
        proof {
            assert(tree == (BTree { root: None::<BTreeNode<T>> }));
        }
        while items.len() > 0
            invariant
                tree.wf(),
                tree@.to_multiset().add(items@.to_multiset()) == all.to_multiset(),
                tree.spec_insert_all(items@) == Self::spec_from_iter(all),
            decreases items@.len(),
        {
            let ghost before = items@;
            let ghost tree_before = tree@;
            let x = items.remove(0);
            tree.insert(x);
            proof {
                broadcast use vstd::seq_lib::group_to_multiset_ensures;
                broadcast use vstd::multiset::group_multiset_axioms;

                assert(before.contains(x)) by {
                    assert(before[0] == x);
                }
                assert(before.to_multiset().count(x) > 0);
                assert(items@.to_multiset() == before.to_multiset().remove(x)) by {
                    assert(items@ == before.remove(0));
                }
                assert(tree@.to_multiset().add(items@.to_multiset()) =~= tree_before
                    .to_multiset().add(before.to_multiset()));
                assert(items@ =~= before.drop_first());
                assert(before[0] == x);
            }
        }
        proof {
            broadcast use vstd::seq_lib::group_to_multiset_ensures;
            broadcast use vstd::multiset::group_multiset_axioms;

            assert(items@.to_multiset() =~= Multiset::<T>::empty());
            assert(tree@.to_multiset().add(Multiset::<T>::empty()) =~= tree@.to_multiset());
            assert(items@ =~= Seq::<T>::empty());
            assert(tree.spec_insert_all(items@) == tree);
        }
        tree
    }
}

/// What an in-order descend-stack still owes, top entry first: each stacked
/// node itself, then its right subtree.
pub closed spec fn stack_in_order<T>(s: Seq<&BTreeNode<T>>) -> Seq<BTreeNode<T>>
    decreases s.len(),
{
    if s.len() == 0 {
        Seq::empty()
    } else {
        (seq![*s.last()] + opt_in_order(s.last().right)) + stack_in_order(s.drop_last())
    }
}

/// A lazy, restartable in-order traversal, driven by an explicit stack of
/// pending ancestors instead of recursion.
///
/// The iterator holds shared borrows into the tree, so the tree cannot be
/// mutated while any iterator on it is alive; a fresh call to `iter_depth`
/// yields a fresh, independent traversal.
pub struct BTreeInOrderIterator<'a, T> {
    next: Option<&'a BTreeNode<T>>,
    stack: Vec<&'a BTreeNode<T>>,
}

impl<'a, T> BTreeInOrderIterator<'a, T> {
    /// The nodes the iterator has yet to yield, in order.
    pub closed spec fn remaining(&self) -> Seq<BTreeNode<T>> {
        (match self.next {
            Option::Some(n) => (*n).in_order(),
            Option::None => Seq::empty(),
        }) + stack_in_order(self.stack@)
    }

    /// A fresh traversal of the subtree rooted at `root`.
    pub fn new(root: Option<&'a BTreeNode<T>>) -> (it: Self)
        ensures
            it.remaining() == match root {
                Option::Some(n) => n.in_order(),
                Option::None => Seq::<BTreeNode<T>>::empty(),
            },
    {
        let it = match root {
            Option::Some(n) => BTreeInOrderIterator { next: Some(n), stack: Vec::new() },
            Option::None => BTreeInOrderIterator { next: None, stack: Vec::new() },
        };
        proof {
            assert(stack_in_order(it.stack@) =~= Seq::<BTreeNode<T>>::empty());
            assert(it.remaining() =~= match root {
                Option::Some(n) => n.in_order(),
                Option::None => Seq::<BTreeNode<T>>::empty(),
            });
        }
        it
    }

    /// Yields the next node: first it descends to the leftmost pending
    /// node, stacking the ancestors passed on the way, then it pops the top
    /// of the stack and queues that node's right subtree.
    #[verifier::rlimit(50)]
    pub fn next(&mut self) -> (r: Option<&'a BTreeNode<T>>)
        ensures
            match r {
                Option::Some(n) => old(self).remaining().len() >= 1 && *n == old(
                    self,
                ).remaining()[0] && final(self).remaining() == old(self).remaining().drop_first(),
                Option::None => old(self).remaining().len() == 0 && final(self).remaining() == old(
                    self,
                ).remaining(),
            },
    {
        broadcast use crate::common::lemma_add_assoc;

        let ghost rem0 = self.remaining();
        while self.next.is_some()
            invariant
                self.remaining() == rem0,
            decreases (match self.next {
                Option::Some(n) => n.height(),
                Option::None => 0,
            }),
        {
            match self.next {
                Option::Some(n) => {
                    let ghost st0 = self.stack@;
                    self.stack.push(n);
                    self.next = n.get_left_child();
                    proof {
                        broadcast use crate::common::lemma_add_assoc;

                        assert(self.stack@.drop_last() =~= st0);
                        assert(self.stack@.last() == n);
                        assert(stack_in_order(self.stack@) == (seq![*n] + opt_in_order(n.right))
                            + stack_in_order(st0));
                        assert((*n).in_order() == (opt_in_order(n.left) + seq![*n]) + opt_in_order(
                            n.right,
                        ));
                        match self.next {
                            Option::Some(l) => {
                                assert(opt_in_order(n.left) == (*l).in_order());
                            },
                            Option::None => {
                                assert(opt_in_order(n.left) =~= Seq::<BTreeNode<T>>::empty());
                            },
                        }
                        assert(self.remaining() =~= rem0);
                    }
                },
                Option::None => {},
            }
        }
        let popped = self.stack.pop();
        match popped {
            Option::Some(n) => {
                let ghost st1 = self.stack@;
                self.next = n.get_right_child();
                proof {
                    broadcast use crate::common::lemma_add_assoc;

                    assert(rem0 == (seq![*n] + opt_in_order(n.right)) + stack_in_order(st1));
                    match self.next {
                        Option::Some(rc) => {
                            assert(opt_in_order(n.right) == (*rc).in_order());
                        },
                        Option::None => {
                            assert(opt_in_order(n.right) =~= Seq::<BTreeNode<T>>::empty());
                        },
                    }
                    assert(rem0[0] == *n);
                    assert(self.remaining() =~= rem0.drop_first());
                }
                Some(n)
            },
            Option::None => {
                proof {
                    assert(rem0 =~= Seq::<BTreeNode<T>>::empty());
                }
                None
            },
        }
    }
}

/// What a pre-order stack still owes, top entry first: each stacked node's
/// whole subtree in pre-order.
pub closed spec fn stack_pre_order<T>(s: Seq<&BTreeNode<T>>) -> Seq<BTreeNode<T>>
    decreases s.len(),
{
    if s.len() == 0 {
        Seq::empty()
    } else {
        (*s.last()).pre_order() + stack_pre_order(s.drop_last())
    }
}

/// A lazy, restartable pre-order traversal: popping a node yields it at
/// once, and its right then left children are stacked so the left subtree
/// is walked first.
pub struct BTreePreOrderIterator<'a, T> {
    stack: Vec<&'a BTreeNode<T>>,
}

impl<'a, T> BTreePreOrderIterator<'a, T> {
    /// The nodes the iterator has yet to yield, in order.
    pub closed spec fn remaining(&self) -> Seq<BTreeNode<T>> {
        stack_pre_order(self.stack@)
    }

    /// A fresh traversal of the subtree rooted at `root`.
    pub fn new(root: Option<&'a BTreeNode<T>>) -> (it: Self)
        ensures
            it.remaining() == match root {
                Option::Some(n) => n.pre_order(),
                Option::None => Seq::<BTreeNode<T>>::empty(),
            },
    {
        let mut stack: Vec<&'a BTreeNode<T>> = Vec::new();
        proof {
            assert(stack_pre_order(stack@) =~= Seq::<BTreeNode<T>>::empty());
        }
        match root {
            Option::Some(n) => {
                stack.push(n);
                proof {
                    assert(stack@.drop_last() =~= Seq::<&BTreeNode<T>>::empty());
                    assert(stack_pre_order(stack@) =~= (*n).pre_order());
                }
            },
            Option::None => {},
        }
        BTreePreOrderIterator { stack }
    }

    /// Yields the next node and stacks its children, right below left, so
    /// that the left subtree is exhausted before the right one begins.
    pub fn next(&mut self) -> (r: Option<&'a BTreeNode<T>>)
        ensures
            match r {
                Option::Some(n) => old(self).remaining().len() >= 1 && *n == old(
                    self,
                ).remaining()[0] && final(self).remaining() == old(self).remaining().drop_first(),
                Option::None => old(self).remaining().len() == 0 && final(self).remaining() == old(
                    self,
                ).remaining(),
            },
    {
        broadcast use crate::common::lemma_add_assoc;

        let ghost rem0 = self.remaining();
        let popped = self.stack.pop();
        match popped {
            Option::Some(n) => {
                let ghost st1 = self.stack@;
                proof {
                    assert(rem0 == ((seq![*n] + opt_pre_order(n.left)) + opt_pre_order(n.right))
                        + stack_pre_order(st1));
                    assert(rem0[0] == *n);
                }
                match n.get_right_child() {
                    Option::Some(rc) => {
                        self.stack.push(rc);
                        proof {
                            assert(self.stack@.drop_last() =~= st1);
                            assert(opt_pre_order(n.right) == (*rc).pre_order());
                        }
                    },
                    Option::None => {
                        proof {
                            assert(opt_pre_order(n.right) =~= Seq::<BTreeNode<T>>::empty());
                        }
                    },
                }
                let ghost st2 = self.stack@;
                proof {
                    assert(stack_pre_order(st2) == opt_pre_order(n.right) + stack_pre_order(st1));
                }
                match n.get_left_child() {
                    Option::Some(lc) => {
                        self.stack.push(lc);
                        proof {
                            assert(self.stack@.drop_last() =~= st2);
                            assert(opt_pre_order(n.left) == (*lc).pre_order());
                        }
                    },
                    Option::None => {
                        proof {
                            assert(opt_pre_order(n.left) =~= Seq::<BTreeNode<T>>::empty());
                        }
                    },
                }
                proof {
                    assert(self.remaining() == opt_pre_order(n.left) + (opt_pre_order(n.right)
                        + stack_pre_order(st1)));
                    assert(self.remaining() =~= rem0.drop_first());
                }
                Some(n)
            },
            Option::None => {
                proof {
                    assert(rem0 =~= Seq::<BTreeNode<T>>::empty());
                }
                None
            },
        }
    }
}

/// What the post-order accumulation stack will yield, top entry first.
pub closed spec fn stack_nodes_rev<T>(s: Seq<&BTreeNode<T>>) -> Seq<BTreeNode<T>>
    decreases s.len(),
{
    if s.len() == 0 {
        Seq::empty()
    } else {
        seq![*s.last()] + stack_nodes_rev(s.drop_last())
    }
}

/// What the post-order descent stack still owes: for each entry, bottom
/// first, that node's whole subtree in post-order.
pub closed spec fn stack_post_order<T>(s: Seq<&BTreeNode<T>>) -> Seq<BTreeNode<T>>
    decreases s.len(),
{
    if s.len() == 0 {
        Seq::empty()
    } else {
        stack_post_order(s.drop_last()) + (*s.last()).post_order()
    }
}

/// The total number of nodes below a descent stack, for termination of the
/// two-stack walk.
pub closed spec fn stack_count<T>(s: Seq<&BTreeNode<T>>) -> nat
    decreases s.len(),
{
    if s.len() == 0 {
        0
    } else {
        stack_count(s.drop_last()) + (*s.last()).count()
    }
}

/// A lazy, restartable post-order traversal, built with two explicit
/// stacks: a descent stack drives the walk, pushing the left then the
/// right child of each node it pops, while an accumulation stack collects
/// the popped nodes; consuming the accumulation stack from the top yields
/// children before their parents, left siblings first, the root last.
pub struct BTreePostOrderIterator<'a, T> {
    stack: Vec<&'a BTreeNode<T>>,
}

impl<'a, T> BTreePostOrderIterator<'a, T> {
    /// The nodes the iterator has yet to yield, in order.
    pub closed spec fn remaining(&self) -> Seq<BTreeNode<T>> {
        stack_nodes_rev(self.stack@)
    }

    /// A fresh traversal of the subtree rooted at `root`: the descent
    /// stack is drained into the accumulation stack up front.
    pub fn new(root: Option<&'a BTreeNode<T>>) -> (it: Self)
        ensures
            it.remaining() == match root {
                Option::Some(n) => n.post_order(),
                Option::None => Seq::<BTreeNode<T>>::empty(),
            },
    {
        broadcast use crate::common::lemma_add_assoc;

        let ghost whole = match root {
            Option::Some(n) => (*n).post_order(),
            Option::None => Seq::<BTreeNode<T>>::empty(),
        };
        let mut driver: Vec<&'a BTreeNode<T>> = Vec::new();
        let mut acc: Vec<&'a BTreeNode<T>> = Vec::new();
        proof {
            assert(stack_post_order(driver@) =~= Seq::<BTreeNode<T>>::empty());
            assert(stack_nodes_rev(acc@) =~= Seq::<BTreeNode<T>>::empty());
        }
        match root {
            Option::Some(n) => {
                driver.push(n);
                proof {
                    assert(driver@.drop_last() =~= Seq::<&BTreeNode<T>>::empty());
                    assert(stack_post_order(driver@) =~= (*n).post_order());
                }
            },
            Option::None => {},
        }
        while driver.len() > 0
            invariant
                stack_post_order(driver@) + stack_nodes_rev(acc@) == whole,
            decreases stack_count(driver@),
        {
            let ghost d0 = driver@;
            let ghost a0 = acc@;
            let n = driver.pop().unwrap();
            let ghost dpop = driver@;
            acc.push(n);
            proof {
                assert(dpop =~= d0.drop_last());
                assert(acc@.drop_last() =~= a0);
                assert(stack_post_order(d0) == stack_post_order(dpop) + (*n).post_order());
                assert((*n).post_order() == (opt_post_order(n.left) + opt_post_order(n.right))
                    + seq![*n]);
                assert(stack_count(d0) == stack_count(dpop) + (*n).count());
                assert((*n).count() == 1 + opt_count(n.left) + opt_count(n.right));
                assert(stack_nodes_rev(acc@) == seq![*n] + stack_nodes_rev(a0));
            }
            match n.get_left_child() {
                Option::Some(lc) => {
                    driver.push(lc);
                    proof {
                        assert(driver@.drop_last() =~= dpop);
                        assert(opt_post_order(n.left) == (*lc).post_order());
                        assert(opt_count(n.left) == (*lc).count());
                        assert(stack_post_order(driver@) == stack_post_order(dpop)
                            + opt_post_order(n.left));
                        assert(stack_count(driver@) == stack_count(dpop) + opt_count(n.left));
                    }
                },
                Option::None => {
                    proof {
                        assert(opt_post_order(n.left) =~= Seq::<BTreeNode<T>>::empty());
                        assert(opt_count(n.left) == 0);
                        assert(stack_post_order(driver@) + Seq::<BTreeNode<T>>::empty()
                            =~= stack_post_order(driver@));
                    }
                },
            }
            let ghost d1 = driver@;
            proof {
                assert(stack_post_order(d1) == stack_post_order(dpop) + opt_post_order(n.left));
                assert(stack_count(d1) == stack_count(dpop) + opt_count(n.left));
            }
            match n.get_right_child() {
                Option::Some(rc) => {
                    driver.push(rc);
                    proof {
                        assert(driver@.drop_last() =~= d1);
                        assert(opt_post_order(n.right) == (*rc).post_order());
                        assert(opt_count(n.right) == (*rc).count());
                        assert(stack_post_order(driver@) == stack_post_order(d1)
                            + opt_post_order(n.right));
                        assert(stack_count(driver@) == stack_count(d1) + opt_count(n.right));
                    }
                },
                Option::None => {
                    proof {
                        assert(opt_post_order(n.right) =~= Seq::<BTreeNode<T>>::empty());
                        assert(opt_count(n.right) == 0);
                    }
                },
            }
            proof {
                broadcast use crate::common::lemma_add_assoc;

                assert(stack_post_order(driver@) == stack_post_order(d1) + opt_post_order(
                    n.right,
                ));
                assert(stack_count(driver@) == stack_count(d1) + opt_count(n.right));
                assert(stack_post_order(driver@) + stack_nodes_rev(acc@) =~= whole);
                assert(stack_count(driver@) < stack_count(d0));
            }
        }
        proof {
            assert(stack_post_order(driver@) =~= Seq::<BTreeNode<T>>::empty());
            assert(stack_nodes_rev(acc@) =~= whole);
        }
        BTreePostOrderIterator { stack: acc }
    }

    /// Yields the next node by popping the accumulation stack.
    pub fn next(&mut self) -> (r: Option<&'a BTreeNode<T>>)
        ensures
            match r {
                Option::Some(n) => old(self).remaining().len() >= 1 && *n == old(
                    self,
                ).remaining()[0] && final(self).remaining() == old(self).remaining().drop_first(),
                Option::None => old(self).remaining().len() == 0 && final(self).remaining() == old(
                    self,
                ).remaining(),
            },
    {
        let ghost rem0 = self.remaining();
        let popped = self.stack.pop();
        match popped {
            Option::Some(n) => {
                proof {
                    assert(rem0 == seq![*n] + stack_nodes_rev(self.stack@));
                    assert(rem0[0] == *n);
                    assert(self.remaining() =~= rem0.drop_first());
                }
                Some(n)
            },
            Option::None => {
                proof {
                    assert(rem0 =~= Seq::<BTreeNode<T>>::empty());
                }
                None
            },
        }
    }
}

/// Inserting into a well-formed tree keeps it well-formed and adds
/// exactly one occurrence of the value to its in-order values.
proof fn lemma_tree_insert<T: TotalOrder>(t: BTree<T>, value: T)
    requires
        t.wf(),
    ensures
        t.spec_insert(value).wf(),
        t.spec_insert(value)@.to_multiset() == t@.to_multiset().insert(value),
{
    broadcast use vstd::seq_lib::group_to_multiset_ensures;
    broadcast use vstd::multiset::group_multiset_axioms;

    match t.root {
        Option::None => {
            let n = (BTree { root: None::<BTreeNode<T>> }).spec_insert(value).root->0;
            assert(n.in_order() =~= seq![n]);
            assert(values_of(seq![n]) =~= seq![value]);
            assert(n.wf()) by {
                assert(values_of(opt_in_order(n.left)) =~= Seq::<T>::empty());
                assert(values_of(opt_in_order(n.right)) =~= Seq::<T>::empty());
            }
            assert(seq![value] =~= Seq::<T>::empty().push(value));
            assert(Seq::<T>::empty().to_multiset() =~= Multiset::<T>::empty());
            assert(t.spec_insert(value)@.to_multiset() =~= t@.to_multiset().insert(value));
        },
        Option::Some(n) => {
            lemma_insert_node(n, value);
        },
    }
}

/// Inserting a whole sequence keeps the tree well-formed and adds exactly
/// the sequence's elements to its in-order values.
proof fn lemma_tree_insert_all<T: TotalOrder>(t: BTree<T>, items: Seq<T>)
    requires
        t.wf(),
    ensures
        t.spec_insert_all(items).wf(),
        t.spec_insert_all(items)@.to_multiset() == t@.to_multiset().add(items.to_multiset()),
    decreases items.len(),
{
    broadcast use vstd::seq_lib::group_to_multiset_ensures;
    broadcast use vstd::multiset::group_multiset_axioms;

    if items.len() == 0 {
        assert(items.to_multiset() =~= Multiset::<T>::empty());
        assert(t@.to_multiset().add(Multiset::<T>::empty()) =~= t@.to_multiset());
    } else {
        let x = items[0];
        lemma_tree_insert(t, x);
        lemma_tree_insert_all(t.spec_insert(x), items.drop_first());
        assert(items.drop_first() =~= items.remove(0));
        assert(items.contains(x)) by {
            assert(items[0] == x);
        }
        assert(items.to_multiset().count(x) > 0);
        assert(t.spec_insert_all(items)@.to_multiset() =~= t@.to_multiset().add(
            items.to_multiset(),
        ));
    }
}

/// Law: a tree built from any finite source sequence is well-formed,
/// holds exactly the source's elements, and its in-order traversal lists
/// them in non-decreasing order under the total order, duplicates
/// included.
pub proof fn lemma_from_iter_in_order_sorted<T: TotalOrder>(items: Seq<T>)
    ensures
        BTree::<T>::spec_from_iter(items).wf(),
        BTree::<T>::spec_from_iter(items)@.to_multiset() == items.to_multiset(),
        sorted_by(BTree::<T>::spec_from_iter(items)@, le_fn::<T>()),
{
    broadcast use vstd::seq_lib::group_to_multiset_ensures;
    broadcast use vstd::multiset::group_multiset_axioms;

    let empty_tree = BTree { root: None::<BTreeNode<T>> };
    assert(empty_tree.wf());
    lemma_tree_insert_all(empty_tree, items);
    assert(empty_tree@.to_multiset() =~= Multiset::<T>::empty());
    assert(Multiset::<T>::empty().add(items.to_multiset()) =~= items.to_multiset());
    lemma_tree_in_order_sorted(BTree::<T>::spec_from_iter(items));
}

/// A depth-first tree iterator in the caller's chosen traversal order.
pub enum BTreeDepthIterator<'a, T> {
    InOrder(BTreeInOrderIterator<'a, T>),
    PreOrder(BTreePreOrderIterator<'a, T>),
    PostOrder(BTreePostOrderIterator<'a, T>),
}

impl<'a, T> BTreeDepthIterator<'a, T> {
    /// The nodes the iterator has yet to yield, in order.
    pub closed spec fn remaining(&self) -> Seq<BTreeNode<T>> {
        match self {
            BTreeDepthIterator::InOrder(it) => it.remaining(),
            BTreeDepthIterator::PreOrder(it) => it.remaining(),
            BTreeDepthIterator::PostOrder(it) => it.remaining(),
        }
    }

    /// Yields the next node of the chosen traversal.
    pub fn next(&mut self) -> (r: Option<&'a BTreeNode<T>>)
        ensures
            match r {
                Option::Some(n) => old(self).remaining().len() >= 1 && *n == old(
                    self,
                ).remaining()[0] && final(self).remaining() == old(self).remaining().drop_first(),
                Option::None => old(self).remaining().len() == 0 && final(self).remaining() == old(
                    self,
                ).remaining(),
            },
    {
        match self {
            BTreeDepthIterator::InOrder(it) => it.next(),
            BTreeDepthIterator::PreOrder(it) => it.next(),
            BTreeDepthIterator::PostOrder(it) => it.next(),
        }
    }
}

impl<T> BTree<T> {
    /// The tree's nodes in in-order.
    pub closed spec fn nodes_in_order(&self) -> Seq<BTreeNode<T>> {
        match self.root {
            Option::Some(n) => n.in_order(),
            Option::None => Seq::empty(),
        }
    }

    /// The tree's nodes in pre-order.
    pub closed spec fn nodes_pre_order(&self) -> Seq<BTreeNode<T>> {
        match self.root {
            Option::Some(n) => n.pre_order(),
            Option::None => Seq::empty(),
        }
    }

    /// The tree's nodes in post-order.
    pub closed spec fn nodes_post_order(&self) -> Seq<BTreeNode<T>> {
        match self.root {
            Option::Some(n) => n.post_order(),
            Option::None => Seq::empty(),
        }
    }

    /// A fresh, restartable depth-first iterator in in-order. While any
    /// iterator on the tree lives, the borrow checker rejects mutation of
    /// the tree.
    pub fn iter_depth<'a>(&'a self) -> (it: BTreeInOrderIterator<'a, T>)
        ensures
            it.remaining() == self.nodes_in_order(),
    {
        BTreeInOrderIterator::new(self.get_root())
    }

    /// A fresh, restartable depth-first iterator in the given traversal
    /// order.
    pub fn iter_depth_order<'a>(&'a self, order: DFTOrder) -> (it: BTreeDepthIterator<'a, T>)
        ensures
            it.remaining() == match order {
                DFTOrder::InOrder => self.nodes_in_order(),
                DFTOrder::PreOrder => self.nodes_pre_order(),
                DFTOrder::PostOrder => self.nodes_post_order(),
            },
    {
        match order {
            DFTOrder::InOrder => BTreeDepthIterator::InOrder(
                BTreeInOrderIterator::new(self.get_root()),
            ),
            DFTOrder::PreOrder => BTreeDepthIterator::PreOrder(
                BTreePreOrderIterator::new(self.get_root()),
            ),
            DFTOrder::PostOrder => BTreeDepthIterator::PostOrder(
                BTreePostOrderIterator::new(self.get_root()),
            ),
        }
    }

    /// Breadth-first traversal is deliberately left unspecified by this
    /// design; the call reports that rather than guessing an algorithm.
    pub fn iter_breadth(&self) -> (r: Result<(), Error>)
        ensures
            r == Err::<(), Error>(Error::Unimplemented),
    {
        Err(Error::Unimplemented)
    }
}

impl<T: TotalOrder> BTree<T> {
    /// Node removal is deliberately left unspecified by this design; the
    /// call leaves the tree untouched and reports that, rather than
    /// guessing a deletion algorithm.
    pub fn remove(&mut self, _node: &BTreeNode<T>) -> (r: Result<(), Error>)
        ensures
            *final(self) == *old(self),
            r == Err::<(), Error>(Error::Unimplemented),
    {
        Err(Error::Unimplemented)
    }
}

impl<T> BTreeNode<T> {
    /// Applies `f` to every value of the subtree, left subtree first, then
    /// this node, then the right subtree.
    fn visit_in_order<F: Fn(&T) -> ()>(&self, f: &F)
        requires
            forall|x: &T| #[trigger] call_requires(*f, (x,)),
        decreases self,
    {
        match &self.left {
            Option::Some(l) => l.visit_in_order(f),
            Option::None => {},
        }
        f(&self.value);
        match &self.right {
            Option::Some(r) => r.visit_in_order(f),
            Option::None => {},
        }
    }

    /// Applies `f` to every value of the subtree, this node first, then
    /// the left subtree, then the right subtree.
    fn visit_pre_order<F: Fn(&T) -> ()>(&self, f: &F)
        requires
            forall|x: &T| #[trigger] call_requires(*f, (x,)),
        decreases self,
    {
        f(&self.value);
        match &self.left {
            Option::Some(l) => l.visit_pre_order(f),
            Option::None => {},
        }
        match &self.right {
            Option::Some(r) => r.visit_pre_order(f),
            Option::None => {},
        }
    }

    /// Applies `f` to every value of the subtree, children before their
    /// parent, this node last.
    fn visit_post_order<F: Fn(&T) -> ()>(&self, f: &F)
        requires
            forall|x: &T| #[trigger] call_requires(*f, (x,)),
        decreases self,
    {
        match &self.left {
            Option::Some(l) => l.visit_post_order(f),
            Option::None => {},
        }
        match &self.right {
            Option::Some(r) => r.visit_post_order(f),
            Option::None => {},
        }
        f(&self.value);
    }
}

impl<T> Traversable<T> for BTreeNode<T> {
    fn traverse<F: Fn(&T) -> ()>(&self, order: DFTOrder, f: &F) {
        match order {
            DFTOrder::InOrder => self.visit_in_order(f),
            DFTOrder::PreOrder => self.visit_pre_order(f),
            DFTOrder::PostOrder => self.visit_post_order(f),
        }
    }
}

impl<T> Traversable<T> for BTree<T> {
    fn traverse<F: Fn(&T) -> ()>(&self, order: DFTOrder, f: &F) {
        match &self.root {
            Option::Some(root) => match order {
                DFTOrder::InOrder => root.visit_in_order(f),
                DFTOrder::PreOrder => root.visit_pre_order(f),
                DFTOrder::PostOrder => root.visit_post_order(f),
            },
            Option::None => {},
        }
    }
}

} // verus!
