//! A singly linked list with an explicit empty state.
//!
//! Every node is itself a `LinkedList`: it carries an optional value (absent
//! exactly when the list is empty), an optional owned link to its successor,
//! and a cached element count. The abstract view of a list is the `Seq` of
//! the values reachable from it, and every operation is specified against
//! that view.

use vstd::prelude::*;
use vstd::relations::{sorted_by, total_ordering};

use crate::common::{
    ge_fn, le_fn, lemma_add_assoc, lemma_le_fn_total_ordering, Error, Order, Sortable, TotalOrder,
};

verus! {

/// An ordered singly-linked sequence that supports an explicit empty state.
///
/// The empty list is represented by a node whose value slot is vacant, so no
/// fabricated placeholder value ever exists: reading the head of an empty
/// list yields "no value" rather than uninitialized storage.
pub struct LinkedList<T> {
    value: Option<T>,
    next: Option<Box<LinkedList<T>>>,
    size: usize,
}

/// On a well-formed list the cached size agrees with the view. The
/// broadcast form lets claims about not-yet-resolved mutable borrows use
/// the fact.
broadcast proof fn lemma_wf_size<T>(l: LinkedList<T>)
    requires
        #[trigger] l.wf(),
    ensures
        l.size == l@.len(),
{
    l.lemma_size_is_len();
}

impl<T> LinkedList<T> {
    /// The sequence of values held by this list, in link order.
    pub closed spec fn view(&self) -> Seq<T>
        decreases self,
    {
        match self.value {
            Option::None => Seq::empty(),
            Option::Some(v) => seq![v] + match self.next {
                Option::None => Seq::empty(),
                Option::Some(b) => b.view(),
            },
        }
    }

    /// Well-formedness: the value slot is vacant exactly on the canonical
    /// empty list, links never lead to a vacant node, and every node's
    /// cached size counts the nodes from it to the end, inclusive.
    pub closed spec fn wf(&self) -> bool
        decreases self,
    {
        match self.value {
            Option::None => self.next is None && self.size == 0,
            Option::Some(_) => match self.next {
                Option::None => self.size == 1,
                Option::Some(b) => b.value is Some && b.wf() && self.size == b.size + 1,
            },
        }
    }

    /// On a well-formed list the cached size agrees with the view.
    proof fn lemma_size_is_len(&self)
        requires
            self.wf(),
        ensures
            self.size == self@.len(),
        decreases self,
    {
        match self.next {
            Option::None => {},
            Option::Some(b) => {
                b.lemma_size_is_len();
            },
        }
    }

    /// A list with no elements at all.
    pub fn empty() -> (r: Self)
        ensures
            r.wf(),
            r@ == Seq::<T>::empty(),
    {
        LinkedList { value: None, next: None, size: 0 }
    }

    /// A one-element list holding `value`.
    pub fn new(value: T) -> (r: Self)
        ensures
            r.wf(),
            r@ == seq![value],
    {
        LinkedList { value: Some(value), next: None, size: 1 }
    }

    /// The first value, if any.
    pub fn head(&self) -> (r: Option<&T>)
        ensures
            match r {
                Option::Some(v) => self@.len() > 0 && *v == self@[0],
                Option::None => self@.len() == 0,
            },
    {
        match &self.value {
            Option::Some(v) => Some(v),
            Option::None => None,
        }
    }

    /// Whether the list holds no elements.
    pub fn is_empty(&self) -> (r: bool)
        ensures
            r == (self@.len() == 0),
    {
        self.value.is_none()
    }

    /// Whether a successor node exists, i.e. the list has at least two
    /// elements.
    pub fn has_next(&self) -> (r: bool)
        requires
            self.wf(),
        ensures
            r == (self@.len() >= 2),
    {
        proof {
            match &self.next {
                Option::Some(b) => {
                    assert(b@.len() >= 1);
                },
                Option::None => {},
            }
        }
        self.next.is_some()
    }

    /// The number of elements. For any node of a longer list this counts
    /// the node itself and everything after it.
    pub fn len(&self) -> (r: usize)
        requires
            self.wf(),
        ensures
            r == self@.len(),
    {
        proof {
            self.lemma_size_is_len();
        }
        self.size
    }

    /// A fresh, restartable iterator over the list. While it lives it holds
    /// a shared borrow of the list, so the list cannot be mutated under it.
    pub fn iter<'a>(&'a self) -> (it: LinkedListIterator<'a, T>)
        requires
            self.wf(),
        ensures
            it.inv(),
            it.remaining() == self@,
    {
        LinkedListIterator::new(self)
    }

    /// A fresh mutable iterator over the list. While it lives it holds an
    /// exclusive borrow of the list, so nothing else can read or mutate the
    /// list under it.
    pub fn iter_mut<'a>(&'a mut self) -> (it: LinkedListIteratorMut<'a, T>)
        requires
            old(self).wf(),
        ensures
            it.inv(),
            it.remaining() == old(self)@,
    {
        LinkedListIteratorMut::new(self)
    }

    /// Builds a list from a finite source sequence, appending its elements
    /// in order; an empty source yields an empty list.
    pub fn from_iter(items: Vec<T>) -> (r: Self)
        ensures
            r.wf(),
            r@ == items@,
    {
        broadcast use lemma_add_assoc, Seq::add_empty_right;

        let ghost all = items@;
        let n = items.len();
        let mut items = items;
        let mut list = LinkedList::empty();
        while items.len() > 0
            invariant
                list.wf(),
                list@ + items@ == all,
                all.len() == n,
            decreases items@.len(),
        {
            proof {
                assert(list@.len() < all.len());
            }
            let ghost before = items@;
            let x = items.remove(0);
            proof {
                assert(list@.push(x) =~= list@ + seq![x]);
                assert(seq![x] + items@ =~= before);
            }
            list.append(x);
        }
        list
    }

    /// Like `tail`, but the sub-list is handed out mutably: a change made
    /// through the returned handle is a change to this list. Rewriting the
    /// sub-list to a different length leaves the cached sizes of earlier
    /// nodes stale, so well-formedness of the whole list is promised only
    /// when the sub-list keeps its length.
    pub fn tail_mut(&mut self) -> (r: Option<&mut LinkedList<T>>)
        requires
            old(self).wf(),
        ensures
            match r {
                Option::Some(t) => {
                    &&& old(self)@.len() >= 2
                    &&& (*t).wf()
                    &&& (*t)@ == old(self)@.drop_first()
                    &&& final(self)@ == seq![old(self)@[0]] + final(t)@
                    &&& (final(t).wf() && final(t)@.len() == old(self)@.len() - 1)
                        ==> final(self).wf()
                },
                Option::None => old(self)@.len() <= 1 && *final(self) == *old(self),
            },
    {
        broadcast use lemma_wf_size;

        proof {
            self.lemma_size_is_len();
            match &self.next {
                Option::Some(b) => {
                    assert(b@ =~= self@.drop_first());
                    assert(b@.len() >= 1);
                },
                Option::None => {},
            }
        }
        if self.value.is_none() {
            None
        } else {
            match &mut self.next {
                Option::Some(b) => Some(&mut **b),
                Option::None => None,
            }
        }
    }

    /// A mutable handle on the last node of the list, viewed as a
    /// one-element sub-list. Fails with `EmptyContainer` on an empty list.
    /// Replacing the final node by one of a different length leaves earlier
    /// cached sizes stale, so well-formedness of the whole list is promised
    /// only when the handle still holds exactly one element.
    pub fn last_mut(&mut self) -> (r: Result<&mut LinkedList<T>, Error>)
        requires
            old(self).wf(),
        ensures
            match r {
                Result::Ok(t) => {
                    &&& old(self)@.len() >= 1
                    &&& (*t).wf()
                    &&& (*t)@ == seq![old(self)@.last()]
                    &&& final(self)@ == old(self)@.drop_last() + final(t)@
                    &&& (final(t).wf() && final(t)@.len() == 1) ==> final(self).wf()
                },
                Result::Err(e) => old(self)@.len() == 0 && e == Error::EmptyContainer
                    && *final(self) == *old(self),
            },
        decreases old(self)@.len(),
    {
        broadcast use lemma_wf_size, lemma_add_assoc, Seq::add_empty_left;

        proof {
            self.lemma_size_is_len();
        }
        if self.value.is_none() {
            Err(Error::EmptyContainer)
        } else if self.next.is_none() {
            proof {
                assert(self@ =~= seq![old(self)@.last()]);
                assert(old(self)@.drop_last() =~= Seq::<T>::empty());
            }
            Ok(self)
        } else {
            match &mut self.next {
                Option::Some(b) => {
                    proof {
                        assert(old(self)@.drop_first() =~= b@);
                        assert(b@.len() >= 1);
                        assert(old(self)@.last() == b@.last());
                        assert(old(self)@.drop_last() =~= seq![old(self)@[0]] + b@.drop_last());
                    }
                    let r = (&mut **b).last_mut();
                    match r {
                        Result::Ok(t) => Ok(t),
                        Result::Err(e) => Err(e),
                    }
                },
                Option::None => Err(Error::EmptyContainer),
            }
        }
    }

    /// All of the list but its first element, as a shared sub-list, or
    /// `None` when the list has fewer than two elements.
    pub fn tail(&self) -> (r: Option<&LinkedList<T>>)
        requires
            self.wf(),
        ensures
            match r {
                Option::Some(t) => self@.len() >= 2 && t.wf() && t@ == self@.drop_first(),
                Option::None => self@.len() <= 1,
            },
    {
        if self.value.is_none() {
            None
        } else {
            match &self.next {
                Option::Some(b) => {
                    proof {
                        assert(b@ =~= self@.drop_first());
                        assert(b@.len() >= 1);
                    }
                    Some(&**b)
                },
                Option::None => None,
            }
        }
    }

    /// The value at position `idx`, counted from the head, if any.
    pub fn nth(&self, idx: usize) -> (r: Option<&T>)
        requires
            self.wf(),
        ensures
            match r {
                Option::Some(v) => idx < self@.len() && *v == self@[idx as int],
                Option::None => idx >= self@.len(),
            },
        decreases self@.len(),
    {
        if idx == 0 {
            self.head()
        } else {
            match self.tail() {
                Option::Some(t) => t.nth(idx - 1),
                Option::None => None,
            }
        }
    }

    /// The final element, reached by walking the whole chain. Fails on an
    /// empty list.
    pub fn last(&self) -> (r: Result<&T, Error>)
        requires
            self.wf(),
        ensures
            match r {
                Result::Ok(v) => self@.len() > 0 && *v == self@.last(),
                Result::Err(e) => self@.len() == 0 && e == Error::EmptyContainer,
            },
        decreases self@.len(),
    {
        match (&self.value, &self.next) {
            (Option::None, _) => Err(Error::EmptyContainer),
            (Option::Some(v), Option::None) => Ok(v),
            (Option::Some(_), Option::Some(b)) => {
                proof {
                    assert(b@.len() >= 1);
                    assert(self@.last() == b@.last());
                }
                b.last()
            },
        }
    }

    /// Appends `value` at the end of the list. On an empty list this simply
    /// fills the vacant head; otherwise it walks to the last node, attaches
    /// a fresh one-element node there, and increments the cached size of
    /// every node it passed.
    pub fn append(&mut self, value: T)
        requires
            old(self).wf(),
            old(self)@.len() < usize::MAX,
        ensures
            final(self).wf(),
            final(self)@ == old(self)@.push(value),
        decreases old(self)@.len(),
    {
        proof {
            self.lemma_size_is_len();
        }
        if self.value.is_none() {
            self.value = Some(value);
            self.size = 1;
            proof {
                assert(self@ =~= old(self)@.push(value));
                assert(self.wf());
            }
        } else if self.next.is_none() {
            let node = LinkedList { value: Some(value), next: None, size: 1 };
            proof {
                assert(node@ =~= seq![value]);
                assert(node.wf());
            }
            self.size = self.size + 1;
            self.next = Some(Box::new(node));
            proof {
                assert(self@ =~= old(self)@.push(value));
                assert(self.wf());
            }
        } else {
            self.size = self.size + 1;
            match &mut self.next {
                Option::Some(b) => {
                    (&mut **b).append(value);
                    proof {
                        b.lemma_size_is_len();
                        if b.value is None {
                            assert(b@ =~= Seq::empty());
                        }
                        assert(b.value is Some);
                        assert(self@ =~= old(self)@.push(value));
                        assert(self.wf());
                    }
                },
                Option::None => {},
            }
        }
    }

    /// Removes the element at position `index`. An index at or past the
    /// length is rejected with `IndexOutOfBounds` and the list is left
    /// untouched; bounds are validated before any node is mutated.
    pub fn remove_at(&mut self, index: usize) -> (r: Result<(), Error>)
        requires
            old(self).wf(),
        ensures
            match r {
                Result::Ok(u) => index < old(self)@.len() && final(self).wf() && final(self)@
                    == old(self)@.remove(index as int),
                Result::Err(e) => index >= old(self)@.len() && e == Error::IndexOutOfBounds
                    && *final(self) == *old(self),
            },
    {
        proof {
            self.lemma_size_is_len();
        }
        if index >= self.size {
            Err(Error::IndexOutOfBounds)
        } else {
            self.remove_at_in(index);
            Ok(())
        }
    }

    /// Splices out the node at `index`, decrementing the cached size of
    /// every node walked on the way. Bounds were already validated.
    fn remove_at_in(&mut self, index: usize)
        requires
            old(self).wf(),
            index < old(self)@.len(),
        ensures
            final(self).wf(),
            final(self)@ == old(self)@.remove(index as int),
        decreases old(self)@.len(),
    {
        if index == 0 {
            match self.next.take() {
                Option::Some(b) => {
                    *self = *b;
                    proof {
                        assert(self@ =~= old(self)@.remove(0));
                    }
                },
                Option::None => {
                    self.value = None;
                    self.size = 0;
                    proof {
                        assert(self@ =~= old(self)@.remove(0));
                    }
                },
            }
        } else {
            proof {
                self.lemma_size_is_len();
            }
            self.size = self.size - 1;
            let mut b = self.next.take().unwrap();
            (&mut *b).remove_at_in(index - 1);
            if (&*b).is_empty() {
                proof {
                    assert(self@ =~= old(self)@.remove(index as int));
                }
            } else {
                proof {
                    b.lemma_size_is_len();
                }
                self.next = Some(b);
                proof {
                    assert(self@ =~= old(self)@.remove(index as int));
                }
            }
        }
    }
}

/// Law: removing the element at a valid position shortens a sequence by
/// exactly one and shifts every later element one place forward, so
/// reading the same position afterwards finds what used to be the next
/// element — or nothing, when the removed element was the last.
pub proof fn lemma_remove_then_nth<T>(s: Seq<T>, i: int)
    requires
        0 <= i < s.len(),
    ensures
        s.remove(i).len() == s.len() - 1,
        i < s.len() - 1 ==> s.remove(i)[i] == s[i + 1],
{
}

/// Law: sorting is idempotent. Two sequences that hold the same elements
/// and are both sorted ascending under the same total order are equal, so
/// sorting an already-sorted-ascending list ascending returns its
/// sequence unchanged, and sorting descending and then ascending restores
/// the ascending arrangement.
pub proof fn lemma_sorted_permutation_unique<T: TotalOrder>(s1: Seq<T>, s2: Seq<T>)
    requires
        s1.to_multiset() == s2.to_multiset(),
        sorted_by(s1, le_fn::<T>()),
        sorted_by(s2, le_fn::<T>()),
    ensures
        s1 == s2,
{
    lemma_le_fn_total_ordering::<T>();
    vstd::seq_lib::lemma_sorted_unique(s1, s2, le_fn::<T>());
}

/// Decides the comparison that a sort direction applies: ascending keeps
/// `le` as it is, descending reverses the arguments.
fn le_in_order<T: TotalOrder>(x: &T, y: &T, desc: bool) -> (r: bool)
    ensures
        r == if desc {
            ge_fn::<T>()(*x, *y)
        } else {
            le_fn::<T>()(*x, *y)
        },
{
    if desc {
        y.le_exec(x)
    } else {
        x.le_exec(y)
    }
}

/// Stable in-place insertion sort of a vector under the direction's
/// comparison.
fn sort_vec<T: TotalOrder + Copy>(v: &mut Vec<T>, desc: bool)
    ensures
        final(v)@.len() == old(v)@.len(),
        final(v)@.to_multiset() == old(v)@.to_multiset(),
        !desc ==> sorted_by(final(v)@, le_fn::<T>()),
        desc ==> sorted_by(final(v)@, ge_fn::<T>()),
{
    broadcast use vstd::seq_lib::group_to_multiset_ensures;
    broadcast use vstd::multiset::group_multiset_axioms;

    let ghost leq = if desc {
        ge_fn::<T>()
    } else {
        le_fn::<T>()
    };
    proof {
        lemma_le_fn_total_ordering::<T>();
    }
    let mut i: usize = 1;
    while i < v.len()
        invariant
            leq == if desc {
                ge_fn::<T>()
            } else {
                le_fn::<T>()
            },
            total_ordering(leq),
            v@.len() == old(v)@.len(),
            v@.to_multiset() == old(v)@.to_multiset(),
            i >= 1,
            forall|k1: int, k2: int| 0 <= k1 < k2 < i && k2 < v@.len() ==> #[trigger] leq(
                v@[k1],
                v@[k2],
            ),
        decreases v@.len() - i,
    {
        let mut j: usize = i;
        while j > 0 && !le_in_order(&v[j - 1], &v[j], desc)
            invariant
                leq == if desc {
                    ge_fn::<T>()
                } else {
                    le_fn::<T>()
                },
                total_ordering(leq),
                0 <= j <= i < v@.len(),
                v@.len() == old(v)@.len(),
                v@.to_multiset() == old(v)@.to_multiset(),
                forall|k1: int, k2: int| 0 <= k1 < k2 <= i && k2 != j ==> #[trigger] leq(
                    v@[k1],
                    v@[k2],
                ),
                forall|k2: int| j < k2 <= i ==> #[trigger] leq(v@[j as int], v@[k2]),
            decreases j,
        {
            let ghost prev = v@;
            let a = v[j - 1];
            let b = v[j];
            v[j - 1] = b;
            v[j] = a;
            proof {
                broadcast use vstd::seq_lib::group_to_multiset_ensures;
                broadcast use vstd::multiset::group_multiset_axioms;

                assert(v@ =~= prev.update(j - 1, b).update(j as int, a));
                assert(prev.contains(a)) by {
                    assert(prev[j - 1] == a);
                }
                assert(prev.to_multiset().count(a) > 0);
                assert(v@.to_multiset() =~= prev.to_multiset());
                assert(leq(b, a)) by {
                    T::le_total(a, b);
                }
                assert forall|k1: int, k2: int|
                    0 <= k1 < k2 <= i && k2 != j - 1 implies #[trigger] leq(v@[k1], v@[k2]) by {
                    if k1 == j - 1 && k2 == j {
                    } else if k1 == j - 1 {
                        assert(leq(prev[j as int], prev[k2]));
                    } else if k1 == j {
                        assert(leq(prev[j - 1], prev[k2]));
                    } else if k2 == j {
                        assert(leq(prev[k1], prev[j - 1]));
                    } else {
                        assert(leq(prev[k1], prev[k2]));
                    }
                }
                assert forall|k2: int| j - 1 < k2 <= i implies #[trigger] leq(
                    v@[j - 1],
                    v@[k2],
                ) by {
                    if k2 == j {
                    } else {
                        assert(leq(prev[j as int], prev[k2]));
                    }
                }
            }
            j = j - 1;
        }
        proof {
            assert forall|k1: int, k2: int|
                0 <= k1 < k2 <= i && k2 < v@.len() implies #[trigger] leq(v@[k1], v@[k2]) by {
                if k2 == j && k1 < j - 1 {
                    assert(leq(v@[k1], v@[j - 1]));
                    assert(leq(v@[j - 1], v@[j as int]));
                }
            }
        }
        i = i + 1;
    }
    proof {
        assert(sorted_by(v@, leq));
    }
}

/// A lazy, forward-only traversal over a list.
///
/// The iterator holds a shared borrow of the list for its whole life, so the
/// borrow checker rejects any attempt to mutate the list while the iterator
/// is alive: invalidation during iteration is ruled out at compile time
/// rather than detected at run time. Calling `iter` again yields a fresh,
/// independent traversal.
pub struct LinkedListIterator<'a, T> {
    ptr: Option<&'a LinkedList<T>>,
}

impl<'a, T> LinkedListIterator<'a, T> {
    /// The elements the iterator has yet to produce, in order.
    pub closed spec fn remaining(&self) -> Seq<T> {
        match self.ptr {
            Option::Some(l) => l@,
            Option::None => Seq::empty(),
        }
    }

    /// The node in hand, if any, is well-formed and non-empty.
    pub closed spec fn inv(&self) -> bool {
        match self.ptr {
            Option::Some(l) => l.wf() && l@.len() >= 1,
            Option::None => true,
        }
    }

    /// A fresh iterator positioned at the head of `list`.
    pub fn new(list: &'a LinkedList<T>) -> (it: Self)
        requires
            list.wf(),
        ensures
            it.inv(),
            it.remaining() == list@,
    {
        if list.is_empty() {
            LinkedListIterator { ptr: None }
        } else {
            LinkedListIterator { ptr: Some(list) }
        }
    }

    /// Yields the next element by following one link, or `None` once the
    /// traversal is complete.
    pub fn next(&mut self) -> (r: Option<&'a T>)
        requires
            old(self).inv(),
        ensures
            final(self).inv(),
            match r {
                Option::Some(v) => old(self).remaining().len() >= 1 && *v == old(
                    self,
                ).remaining()[0] && final(self).remaining() == old(self).remaining().drop_first(),
                Option::None => old(self).remaining().len() == 0 && final(self).remaining() == old(
                    self,
                ).remaining(),
            },
    {
        match self.ptr {
            Option::None => None,
            Option::Some(l) => {
                let t = l.tail();
                proof {
                    match t {
                        Option::Some(_) => {},
                        Option::None => {
                            assert(l@.drop_first() =~= Seq::<T>::empty());
                        },
                    }
                }
                self.ptr = t;
                l.head()
            },
        }
    }
}

/// A lazy, forward-only traversal that hands out mutable access to each
/// element in turn.
///
/// The iterator holds an exclusive borrow of the list for its whole life, so
/// no other access to the list — mutation included — can happen while it is
/// alive. Element values can be rewritten in place through the yielded
/// handles; the chain itself cannot be restructured through them.
pub struct LinkedListIteratorMut<'a, T> {
    ptr: Option<&'a mut LinkedList<T>>,
}

impl<'a, T> LinkedListIteratorMut<'a, T> {
    /// The elements the iterator has yet to visit, in order, as they
    /// currently stand.
    pub closed spec fn remaining(&self) -> Seq<T> {
        match self.ptr {
            Option::Some(l) => (*l)@,
            Option::None => Seq::empty(),
        }
    }

    /// The node in hand, if any, is well-formed and non-empty.
    pub closed spec fn inv(&self) -> bool {
        match self.ptr {
            Option::Some(l) => (*l).wf() && (*l)@.len() >= 1,
            Option::None => true,
        }
    }

    /// A fresh mutable iterator positioned at the head of `list`.
    pub fn new(list: &'a mut LinkedList<T>) -> (it: Self)
        requires
            old(list).wf(),
        ensures
            it.inv(),
            it.remaining() == old(list)@,
    {
        if list.is_empty() {
            LinkedListIteratorMut { ptr: None }
        } else {
            LinkedListIteratorMut { ptr: Some(list) }
        }
    }

    /// Yields mutable access to the next element, or `None` once the
    /// traversal is complete.
    pub fn next(&mut self) -> (r: Option<&'a mut T>)
        requires
            old(self).inv(),
        ensures
            final(self).inv(),
            match r {
                Option::Some(v) => {
                    &&& old(self).remaining().len() >= 1
                    &&& *v == old(self).remaining()[0]
                    &&& final(self).remaining() == old(self).remaining().drop_first()
                },
                Option::None => old(self).remaining().len() == 0 && final(self).remaining() == old(
                    self,
                ).remaining(),
            },
    {
        match self.ptr.take() {
            Option::None => None,
            Option::Some(node) => {
                proof {
                    if node.value is None {
                        assert((*node)@ =~= Seq::<T>::empty());
                    }
                    assert(node.value is Some);
                    match &node.next {
                        Option::Some(b) => {
                            assert(b@ =~= (*node)@.drop_first());
                            assert(b@.len() >= 1);
                        },
                        Option::None => {
                            assert((*node)@.drop_first() =~= Seq::<T>::empty());
                        },
                    }
                }
                let next_ref = &mut node.next;
                self.ptr = match next_ref {
                    Option::Some(b) => Some(&mut **b),
                    Option::None => None,
                };
                match &mut node.value {
                    Option::Some(v) => Some(v),
                    Option::None => None,
                }
            },
        }
    }
}

impl<T: TotalOrder + Copy> Sortable for LinkedList<T> {
    type Elem = T;

    open spec fn elems(self) -> Seq<T> {
        self@
    }

    open spec fn elem_le(a: T, b: T) -> bool {
        a.le(b)
    }

    open spec fn sortable(self) -> bool {
        self.wf()
    }

    /// Materializes the elements into a vector, sorts it under the total
    /// order of `T` in the requested direction, and rebuilds a fresh list.
    fn sort(self, order: Order) -> (r: Self) {
        let desc = match order {
            Order::Descending => true,
            Order::Ascending => false,
        };
        let n = self.len();
        let mut v: Vec<T> = Vec::new();
        let mut i: usize = 0;
        while i < n
            invariant
                self.wf(),
                n == self@.len(),
                i <= n,
                v@ == self@.subrange(0, i as int),
            decreases n - i,
        {
            match self.nth(i) {
                Option::Some(x) => {
                    v.push(*x);
                    proof {
                        assert(v@ =~= self@.subrange(0, i + 1));
                    }
                },
                Option::None => {
                    proof {
                        assert(false);
                    }
                },
            }
            i = i + 1;
        }
        proof {
            assert(v@ =~= self@);
        }
        sort_vec(&mut v, desc);
        let r = LinkedList::from_iter(v);
        proof {
            assert(le_fn::<T>() =~= (|a: T, b: T| Self::elem_le(a, b)));
            assert(ge_fn::<T>() =~= (|a: T, b: T| Self::elem_le(b, a)));
        }
        r
    }
}

} // verus!
