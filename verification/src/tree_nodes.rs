use vstd::prelude::*;

verus! {

/// The record produced for every hierarchy item during expansion, before
/// last-descendant indices are known. `level` is the nesting depth, roots at
/// level 0; `has_children` is true iff the children lookup returned a
/// non-empty list for this payload.
#[derive(Debug, Clone)]
pub struct RawTreeNode<T> {
    pub payload: T,
    pub level: usize,
    pub has_children: bool,
}

impl<T> RawTreeNode<T> {
    pub fn new(payload: T, level: usize, has_children: bool) -> (r: Self)
        ensures
            r.payload == payload,
            r.level == level,
            r.has_children == has_children,
    {
        RawTreeNode { payload, level, has_children }
    }
}

/// A raw node annotated with `last_child_index`: the index, in the owning
/// sequence, of the last node that belongs to this node's subtree (the node's
/// own index when it is a leaf).
#[derive(Debug, Clone)]
pub struct TreeNode<T> {
    pub payload: T,
    pub level: usize,
    pub has_children: bool,
    pub last_child_index: usize,
}

impl<T> TreeNode<T> {
    /// The raw form of this node, with the last-descendant annotation
    /// stripped.
    pub open spec fn spec_raw(self) -> RawTreeNode<T> {
        RawTreeNode { payload: self.payload, level: self.level, has_children: self.has_children }
    }

    pub fn new(payload: T, level: usize, has_children: bool, last_child_index: usize) -> (r: Self)
        ensures
            r.payload == payload,
            r.level == level,
            r.has_children == has_children,
            r.last_child_index == last_child_index,
    {
        TreeNode { payload, level, has_children, last_child_index }
    }

    /// Strip the node back to its raw form.
    pub fn get_raw(self) -> (r: RawTreeNode<T>)
        ensures
            r == self.spec_raw(),
    {
        RawTreeNode { payload: self.payload, level: self.level, has_children: self.has_children }
    }
}

} // verus!
