//! Shared vocabulary for the containers: sort directions, traversal orders,
//! the error taxonomy, and the total order that keyed containers consume.

use vstd::prelude::*;
use vstd::relations::total_ordering;

verus! {

/// Direction in which a sequence is sorted.
#[derive(Clone, Copy, Debug, PartialEq, Eq, Structural)]
pub enum Order {
    Ascending,
    Descending,
}

/// The three depth-first traversal strategies offered by the tree.
#[derive(Clone, Copy, Debug, PartialEq, Eq, Structural)]
pub enum DFTOrder {
    InOrder,
    PreOrder,
    PostOrder,
}

/// Recoverable failures reported by container operations.
#[derive(Clone, Copy, Debug, PartialEq, Eq, Structural)]
pub enum Error {
    /// An operation that needs at least one element was invoked on an
    /// empty container.
    EmptyContainer,
    /// A positional operation received an index at or past the length.
    IndexOutOfBounds,
    /// The operation is deliberately left unspecified by this design.
    Unimplemented,
}

/// A total order on a type: a spec-level relation `le` that is total,
/// antisymmetric and transitive, together with an executable comparison
/// deciding it. Containers that need to compare elements consume this
/// order and nothing else about the element type.
pub trait TotalOrder: Sized {
    /// The ordering relation itself: `self` comes no later than `other`.
    spec fn le(self, other: Self) -> bool;

    proof fn le_total(a: Self, b: Self)
        ensures
            a.le(b) || b.le(a),
    ;

    proof fn le_antisymmetric(a: Self, b: Self)
        requires
            a.le(b),
            b.le(a),
        ensures
            a == b,
    ;

    proof fn le_transitive(a: Self, b: Self, c: Self)
        requires
            a.le(b),
            b.le(c),
        ensures
            a.le(c),
    ;

    /// Executable decision procedure for `le`.
    fn le_exec(&self, other: &Self) -> (r: bool)
        ensures
            r == self.le(*other),
    ;
}

/// `le` as a spec-level closure, in the shape vstd's order lemmas expect.
pub open spec fn le_fn<T: TotalOrder>() -> spec_fn(T, T) -> bool {
    |a: T, b: T| a.le(b)
}

/// The reversed relation, used for descending sorts.
pub open spec fn ge_fn<T: TotalOrder>() -> spec_fn(T, T) -> bool {
    |a: T, b: T| b.le(a)
}

/// The `le` relation of a `TotalOrder` is a total ordering in the sense of
/// `vstd::relations`, and so is its reverse.
pub proof fn lemma_le_fn_total_ordering<T: TotalOrder>()
    ensures
        total_ordering(le_fn::<T>()),
        total_ordering(ge_fn::<T>()),
{
    assert forall|a: T| #[trigger] le_fn::<T>()(a, a) by {
        T::le_total(a, a);
    }
    assert forall|a: T, b: T| #[trigger] le_fn::<T>()(a, b) && #[trigger] le_fn::<T>()(b, a)
        implies a == b by {
        T::le_antisymmetric(a, b);
    }
    assert forall|a: T, b: T, c: T|
        #[trigger] le_fn::<T>()(a, b) && #[trigger] le_fn::<T>()(b, c) implies le_fn::<T>()(
        a,
        c,
    ) by {
        T::le_transitive(a, b, c);
    }
    assert forall|a: T, b: T| !(#[trigger] le_fn::<T>()(a, b)) implies le_fn::<T>()(b, a) by {
        T::le_total(a, b);
    }
    assert forall|a: T| #[trigger] ge_fn::<T>()(a, a) by {
        T::le_total(a, a);
    }
    assert forall|a: T, b: T| #[trigger] ge_fn::<T>()(a, b) && #[trigger] ge_fn::<T>()(b, a)
        implies a == b by {
        T::le_antisymmetric(a, b);
    }
    assert forall|a: T, b: T, c: T|
        #[trigger] ge_fn::<T>()(a, b) && #[trigger] ge_fn::<T>()(b, c) implies ge_fn::<T>()(
        a,
        c,
    ) by {
        T::le_transitive(c, b, a);
    }
    assert forall|a: T, b: T| !(#[trigger] ge_fn::<T>()(a, b)) implies ge_fn::<T>()(b, a) by {
        T::le_total(a, b);
    }
}

impl TotalOrder for i32 {
    open spec fn le(self, other: Self) -> bool {
        self <= other
    }

    proof fn le_total(a: Self, b: Self) {
    }

    proof fn le_antisymmetric(a: Self, b: Self) {
    }

    proof fn le_transitive(a: Self, b: Self, c: Self) {
    }

    fn le_exec(&self, other: &Self) -> (r: bool) {
        *self <= *other
    }
}

impl TotalOrder for u8 {
    open spec fn le(self, other: Self) -> bool {
        self <= other
    }

    proof fn le_total(a: Self, b: Self) {
    }

    proof fn le_antisymmetric(a: Self, b: Self) {
    }

    proof fn le_transitive(a: Self, b: Self, c: Self) {
    }

    fn le_exec(&self, other: &Self) -> (r: bool) {
        *self <= *other
    }
}

impl TotalOrder for u64 {
    open spec fn le(self, other: Self) -> bool {
        self <= other
    }

    proof fn le_total(a: Self, b: Self) {
    }

    proof fn le_antisymmetric(a: Self, b: Self) {
    }

    proof fn le_transitive(a: Self, b: Self, c: Self) {
    }

    fn le_exec(&self, other: &Self) -> (r: bool) {
        *self <= *other
    }
}

impl TotalOrder for usize {
    open spec fn le(self, other: Self) -> bool {
        self <= other
    }

    proof fn le_total(a: Self, b: Self) {
    }

    proof fn le_antisymmetric(a: Self, b: Self) {
    }

    proof fn le_transitive(a: Self, b: Self, c: Self) {
    }

    fn le_exec(&self, other: &Self) -> (r: bool) {
        *self <= *other
    }
}

/// Concatenation of sequences is associative (broadcast form, so that
/// postconditions about values still behind mutable borrows can use it).
pub(crate) broadcast proof fn lemma_add_assoc<A>(s1: Seq<A>, s2: Seq<A>, s3: Seq<A>)
    ensures
        #[trigger] (s1 + (s2 + s3)) == (s1 + s2) + s3,
{
    vstd::seq_lib::lemma_concat_associative(s1, s2, s3);
}

/// A container whose elements can be reordered under a fixed total order,
/// ascending or descending.
pub trait Sortable: Sized {
    type Elem;

    /// The elements the container holds, in container order.
    spec fn elems(self) -> Seq<Self::Elem>;

    /// The ascending comparison that `sort` applies.
    spec fn elem_le(a: Self::Elem, b: Self::Elem) -> bool;

    /// The container is in a state that `sort` accepts.
    spec fn sortable(self) -> bool;

    /// Reorders the elements: the result holds exactly the same elements,
    /// arranged so that under `elem_le` each comes no later (ascending) or
    /// no earlier (descending) than those after it.
    fn sort(self, order: Order) -> (r: Self)
        requires
            self.sortable(),
        ensures
            r.sortable(),
            r.elems().to_multiset() == self.elems().to_multiset(),
            order == Order::Ascending ==> vstd::relations::sorted_by(
                r.elems(),
                |a: Self::Elem, b: Self::Elem| Self::elem_le(a, b),
            ),
            order == Order::Descending ==> vstd::relations::sorted_by(
                r.elems(),
                |a: Self::Elem, b: Self::Elem| Self::elem_le(b, a),
            ),
    ;
}

/// A container whose values can be visited in a chosen depth-first order
/// by a caller-supplied function, as a simpler alternative to the
/// suspendable iterator forms.
pub trait Traversable<T> {
    /// Applies `f` to each value, in the chosen depth-first order.
    fn traverse<F: Fn(&T) -> ()>(&self, order: DFTOrder, f: &F)
        requires
            forall|x: &T| #[trigger] call_requires(*f, (x,)),
    ;
}

/// A container node that exposes the value it carries.
pub trait Node {
    type Output;

    /// The carried value, at the spec level.
    spec fn spec_value(&self) -> Self::Output;

    fn value(&self) -> (r: &Self::Output)
        ensures
            *r == self.spec_value(),
    ;
}

} // verus!
