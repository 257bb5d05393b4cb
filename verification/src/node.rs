//! Tree node structure shared by the arenas of this crate.
//!
//! A node never owns its relatives: parent and children are stable indices
//! into the arena that stores the node, so a tree can be reshaped without
//! reference cycles or reparenting ceremony.

use vstd::prelude::*;

verus! {

/// One node of an arena-backed tree: an optional parent index, the carried
/// value, and the indices of the children in order.
#[derive(Debug, Clone)]
pub struct Node<T> {
    pub parent: Option<usize>,
    pub value: T,
    pub children: Vec<usize>,
}

impl<T> Node<T> {
    /// The carried value.
    pub fn value(&self) -> (r: &T)
        ensures
            *r == self.value,
    {
        &self.value
    }
}

impl<T> From<T> for Node<T> {
    /// A fresh root node: no parent, no children.
    fn from(value: T) -> (r: Node<T>)
        ensures
            r.parent == None::<usize>,
            r.value == value,
            r.children@ == Seq::<usize>::empty(),
    {
        Node { parent: None, value, children: Vec::new() }
    }
}

impl<T> vstd::std_specs::convert::FromSpecImpl<T> for Node<T> {
    open spec fn obeys_from_spec() -> bool {
        false
    }

    open spec fn from_spec(value: T) -> Node<T> {
        vstd::pervasive::arbitrary()
    }
}

impl<T> From<(usize, T)> for Node<T> {
    /// A fresh node already linked under the parent index `value.0`.
    fn from(value: (usize, T)) -> (r: Node<T>)
        ensures
            r.parent == Some(value.0),
            r.value == value.1,
            r.children@ == Seq::<usize>::empty(),
    {
        Node { parent: Some(value.0), value: value.1, children: Vec::new() }
    }
}

impl<T> vstd::std_specs::convert::FromSpecImpl<(usize, T)> for Node<T> {
    open spec fn obeys_from_spec() -> bool {
        false
    }

    open spec fn from_spec(value: (usize, T)) -> Node<T> {
        vstd::pervasive::arbitrary()
    }
}

} // verus!
