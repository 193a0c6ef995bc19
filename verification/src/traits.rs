use vstd::prelude::*;

use crate::tree_nodes::TreeNode;

verus! {

/// Supplies the direct children of a payload during expansion. The spec
/// function `children` fixes, for each payload, the sequence the getter
/// returns, so that an expansion is a function of the root payloads alone.
pub trait DirectChildrenGetter<T> {
    /// The sequence of children the getter returns for a payload. An
    /// implementation that returns anything overrides this; the default
    /// describes a childless hierarchy.
    open spec fn children(&self, parent: T) -> Seq<T> {
        Seq::empty()
    }

    fn get_direct_children(&self, parent: &T) -> (r: Vec<T>)
        ensures
            r@ == self.children(*parent),
    ;
}

/// A callback handed nodes one by one during a traversal. `seen` abstracts
/// the node-and-index pairs the callback has been given, in order, so a
/// traversal's contract can state exactly which node it handed over at
/// which index.
pub trait OverNodesCallback<T> {
    /// The nodes this callback has been handed so far, each with the index
    /// it was presented under, in order. An implementation that records or
    /// reacts to visits overrides this.
    open spec fn seen(&self) -> Seq<(TreeNode<T>, int)> {
        Seq::empty()
    }

    fn on_node(&mut self, node: &TreeNode<T>, index: usize)
        ensures
            final(self).seen() == old(self).seen().push((*node, index as int)),
    ;
}

/// Saturating unary steps, used for level bookkeeping so the root level
/// never underflows and the deepest level never overflows.
pub trait UsizeUnaryOperations: Sized {
    spec fn spec_increment(self) -> Self;

    spec fn spec_decrement(self) -> Self;

    fn increment(self) -> (r: Self)
        ensures
            r == self.spec_increment(),
    ;

    fn decrement(self) -> (r: Self)
        ensures
            r == self.spec_decrement(),
    ;

    fn increment_mut(&mut self)
        ensures
            *final(self) == old(self).spec_increment(),
    ;

    fn decrement_mut(&mut self)
        ensures
            *final(self) == old(self).spec_decrement(),
    ;
}

impl UsizeUnaryOperations for usize {
    open spec fn spec_increment(self) -> usize {
        if self == usize::MAX {
            self
        } else {
            (self + 1) as usize
        }
    }

    open spec fn spec_decrement(self) -> usize {
        if self == 0 {
            0
        } else {
            (self - 1) as usize
        }
    }

    fn increment(self) -> (r: Self) {
        self.saturating_add(1)
    }

    fn decrement(self) -> (r: Self) {
        self.saturating_sub(1)
    }

    fn increment_mut(&mut self) {
        *self = self.saturating_add(1);
    }

    fn decrement_mut(&mut self) {
        *self = self.saturating_sub(1);
    }
}

} // verus!
