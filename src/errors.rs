use vstd::prelude::*;

verus! {

/// A bit sequence that is not a valid encoding was handed to a constructor.
#[derive(Debug, PartialEq, Eq, Structural)]
pub struct InvalidBitvecError;

/// A tree source without any node was handed to a constructor.
#[derive(Debug, PartialEq, Eq, Structural)]
pub struct EmptyTreeError;

/// What a navigation query can fail with.
#[derive(Debug, Clone, Copy, PartialEq, Eq, Structural)]
pub enum NodeError {
    /// The index is out of range or does not reference a node.
    NotANodeError,
    /// The index does not reference a leaf.
    NotALeafError,
    /// The node has no children.
    NotAParentError,
    /// The index references the root node.
    RootNodeError,
    /// The node has no next sibling.
    NoSiblingError,
    /// The node has no parent.
    HasNoParentError,
    /// The node has no further siblings.
    HasNoFurtherSiblingsError,
    /// The node carries no label.
    NoLabelError,
    /// No child meets the requirement.
    NoSuchChildError,
    /// A matching or enclosing bracket does not exist.
    NotFoundError,
}

} // verus!
