//! The navigation that both encodings offer, for code that takes either.

use crate::errors::NodeError;
use vstd::prelude::*;

verus! {

/// A succinct ordinal tree whose nodes are named by positions in its bits.
/// Each encoding says, through the spec functions, which positions are
/// nodes and what its parent, first child, next sibling and label are.
pub trait SuccinctTree<L>: Sized {
    /// The tree's invariant, which its constructors establish.
    spec fn inv(&self) -> bool;

    /// Position `i` names a node.
    spec fn node(&self, i: int) -> bool;

    /// Node `i` has no children.
    spec fn leaf(&self, i: int) -> bool;

    /// Node `i` is the root.
    spec fn root(&self, i: int) -> bool;

    /// The parent of a node other than the root.
    spec fn parent_at(&self, i: int) -> int;

    /// The first child of a node that is not a leaf.
    spec fn first_child_at(&self, i: int) -> int;

    /// Node `i` has a next sibling.
    spec fn has_next_sibling(&self, i: int) -> bool;

    /// The next sibling of a node that has one.
    spec fn next_sibling_at(&self, i: int) -> int;

    /// The labels.
    spec fn labels(&self) -> Seq<L>;

    /// Where the label of node `i` stands among the labels.
    spec fn label_index(&self, i: int) -> int;

    /// Whether node `index` is a leaf.
    fn is_leaf(&self, index: u64) -> (r: Result<bool, NodeError>)
        requires
            self.inv(),
        ensures
            match r {
                Ok(b) => self.node(index as int) && b == self.leaf(index as int),
                Err(e) => !self.node(index as int) && e == NodeError::NotANodeError,
            },
    ;

    /// The parent of node `index`.
    fn parent(&self, index: u64) -> (r: Result<u64, NodeError>)
        requires
            self.inv(),
        ensures
            match r {
                Ok(p) => self.node(index as int) && !self.root(index as int) && p == self.parent_at(
                    index as int,
                ),
                Err(_) => !self.node(index as int) || self.root(index as int),
            },
    ;

    /// The first child of node `index`.
    fn first_child(&self, index: u64) -> (r: Result<u64, NodeError>)
        requires
            self.inv(),
        ensures
            match r {
                Ok(c) => self.node(index as int) && !self.leaf(index as int) && c
                    == self.first_child_at(index as int),
                Err(_) => !self.node(index as int) || self.leaf(index as int),
            },
    ;

    /// The next sibling of node `index`.
    fn next_sibling(&self, index: u64) -> (r: Result<u64, NodeError>)
        requires
            self.inv(),
        ensures
            match r {
                Ok(y) => self.node(index as int) && self.has_next_sibling(index as int) && y
                    == self.next_sibling_at(index as int),
                Err(_) => !self.node(index as int) || !self.has_next_sibling(index as int),
            },
    ;

    /// The label of node `index`.
    fn child_label(&self, index: u64) -> (r: Result<&L, NodeError>)
        requires
            self.inv(),
        ensures
            match r {
                Ok(l) => self.node(index as int) && self.label_index(index as int)
                    < self.labels().len() && *l == self.labels()[self.label_index(index as int)],
                Err(_) => !self.node(index as int) || self.label_index(index as int)
                    >= self.labels().len(),
            },
    ;
}

} // verus!
