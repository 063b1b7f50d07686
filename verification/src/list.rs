//! A persistent singly-linked list with structural sharing.

use std::sync::Arc;
use vstd::prelude::*;

verus! {

/// One cell of a persistent list: a value and a shared handle on the
/// previous cell. Cells are never mutated after construction, so any
/// number of lists may share a common tail.
#[derive(Debug, Hash)]
pub struct Node<T> {
    pub value: T,
    pub prev: Option<Arc<Node<T>>>,
}

/// The values stored along a chain of cells, oldest first: the cell a
/// chain starts at holds the last element of the sequence.
pub open spec fn chain_seq<T>(link: Option<Arc<Node<T>>>) -> Seq<T>
    decreases link,
{
    match link {
        Option::None => Seq::empty(),
        Option::Some(node) => chain_seq(node.prev).push(node.value),
    }
}

/// The values stored along a chain of cells, named through a borrow of
/// its first link.
pub open spec fn chain_seq_at<T>(link: &Option<Arc<Node<T>>>) -> Seq<T> {
    chain_seq(*link)
}

/// An immutable singly-linked list. `append` returns a new list that
/// shares every existing cell with its input, and the element count is
/// cached, so both are constant-time.
#[derive(Debug, Hash)]
pub struct List<T> {
    head: Option<Arc<Node<T>>>,
    len: usize,
}

impl<T> View for List<T> {
    type V = Seq<T>;

    closed spec fn view(&self) -> Seq<T> {
        chain_seq(self.head)
    }
}

impl<T> List<T> {
    #[verifier::type_invariant]
    spec fn len_cached(self) -> bool {
        self.len == chain_seq(self.head).len()
    }

    /// The empty list.
    pub fn new() -> (r: Self)
        ensures
            r@ == Seq::<T>::empty(),
    {
        List { head: Option::None, len: 0 }
    }

    /// The element count, read from the cache.
    pub fn len(&self) -> (r: usize)
        ensures
            r == self@.len(),
    {
        proof {
            use_type_invariant(self);
        }
        self.len
    }

    pub fn is_empty(&self) -> (r: bool)
        ensures
            r == (self@.len() == 0),
    {
        self.len() == 0
    }

    /// A new list holding `value` after everything in `self`. The new
    /// list shares all of `self`'s cells; none is copied or changed.
    pub fn append(&self, value: T) -> (r: Self)
        requires
            self@.len() < usize::MAX,
        ensures
            r@ == self@.push(value),
    {
        proof {
            use_type_invariant(self);
        }
        let prev = clone_link(&self.head);
        List { head: Option::Some(Arc::new(Node { value, prev })), len: self.len + 1 }
    }

    /// The head cell, for traversals.
    pub fn head(&self) -> (r: &Option<Arc<Node<T>>>)
        ensures
            chain_seq(*r) == self@,
    {
        &self.head
    }
}

/// A second handle on the same chain of cells: no cell is copied.
fn clone_link<T>(link: &Option<Arc<Node<T>>>) -> (r: Option<Arc<Node<T>>>)
    ensures
        r == *link,
{
    match link {
        Option::None => Option::None,
        Option::Some(node) => Option::Some(node.clone()),
    }
}

impl<T> Clone for List<T> {
    /// A clone shares every cell with the original.
    fn clone(&self) -> (r: Self)
        ensures
            r@ == self@,
    {
        proof {
            use_type_invariant(self);
        }
        List { head: clone_link(&self.head), len: self.len }
    }
}

} // verus!
