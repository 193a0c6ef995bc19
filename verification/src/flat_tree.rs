//! The flat tree itself: it owns the resolved node sequence and offers
//! indexed access, predicate search, traversal, subtree extraction, in-place
//! payload replacement and subtree deletion, all through the per-node
//! subtree-range indices and without ever walking parent or child links.

use vstd::prelude::*;
use vstd::pervasive::cloned;

use crate::flat_tree_error::FlatTreeError;
use crate::helpers::{get_nodes_from_sorted_raw_nodes, get_sorted_raw_nodes_from_payloads};
use crate::helpers::get_sorted_raw_nodes_from_payloads::{
    expand_steps,
    expansion_fuel,
    expansion_terminates,
    root_queue,
};
use crate::preorder::{
    ancestor_walk,
    child_range,
    lemma_pre_order_invariant,
    lemma_synced_from_raw,
    node_levels,
    nodes_linked,
    nodes_synced,
    raw_levels,
    sat_dec,
    subtree_end,
};
use crate::traits::{DirectChildrenGetter, OverNodesCallback, UsizeUnaryOperations};
use crate::tree_nodes::{RawTreeNode, TreeNode};

verus! {

/// A hierarchy flattened into one pre-order sequence. Every node carries its
/// level and the index of the last node of its own subtree; the sequence is
/// rebuilt by the resolver whenever the structure changes.
pub struct FlatTree<T> {
    nodes: Vec<TreeNode<T>>,
}

impl<T> View for FlatTree<T> {
    type V = Seq<TreeNode<T>>;

    closed spec fn view(&self) -> Seq<TreeNode<T>> {
        self.nodes@
    }
}

impl<T> FlatTree<T> {
    /// Structural invariant: every node's `last_child_index` is the end of
    /// its subtree range.
    #[verifier::type_invariant]
    spec fn wf(self) -> bool {
        nodes_linked(self.nodes@)
    }
}

impl<T: Clone> FlatTree<T> {
    /// Build the tree from root payloads and a children lookup: expand the
    /// hierarchy in pre-order, then resolve every node's last descendant.
    /// The lookup must describe a finite, acyclic hierarchy.
    pub fn new<G: DirectChildrenGetter<T>>(root_payloads: Vec<T>, get_direct_children: G) -> (r:
        Self)
        requires
            expansion_terminates(&get_direct_children, root_payloads@),
        ensures
            ({
                let raws = expand_steps(
                    &get_direct_children,
                    root_queue(root_payloads@),
                    expansion_fuel(&get_direct_children, root_payloads@),
                )->Some_0;
                &&& r@.len() == raws.len()
                &&& forall|i: int|
                    0 <= i < r@.len() ==> {
                        &&& (#[trigger] r@[i]).payload == raws[i].payload
                        &&& r@[i].level == raws[i].level
                        &&& r@[i].has_children == raws[i].has_children
                        &&& r@[i].last_child_index == subtree_end(raw_levels(raws), i)
                    }
            }),
            nodes_linked(r@),
            nodes_synced(r@),
    {
        let raw_nodes = get_sorted_raw_nodes_from_payloads(root_payloads, get_direct_children);
        let ghost raws = raw_nodes@;
        let nodes = get_nodes_from_sorted_raw_nodes(raw_nodes);
        proof {
            lemma_synced_from_raw(raws, nodes@);
        }
        FlatTree { nodes }
    }

    /// A read-only view of the node sequence.
    pub fn get_nodes(&self) -> (r: &Vec<TreeNode<T>>)
        ensures
            r@ == self@,
            nodes_linked(self@),
    {
        proof {
            use_type_invariant(self);
        }
        &self.nodes
    }

    /// Linear scan for the first node the predicate accepts.
    #[verifier::loop_isolation(false)]
    pub fn find_index<F: Fn(&TreeNode<T>) -> bool>(&self, predicate: F) -> (r: Option<usize>)
        requires
            forall|i: int| 0 <= i < self@.len() ==> call_requires(predicate, (&self@[i],)),
        ensures
            (match r {
                Some(found) => {
                    &&& found < self@.len()
                    &&& call_ensures(predicate, (&self@[found as int],), true)
                    &&& forall|j: int|
                        0 <= j < found ==> call_ensures(predicate, (&self@[j],), false)
                },
                None => forall|j: int| 0 <= j < self@.len() ==> call_ensures(
                    predicate,
                    (&self@[j],),
                    false,
                ),
            }),
    {
        let mut index: usize = 0;
        while index < self.nodes.len()
            invariant
                index <= self@.len(),
                self@ == self.nodes@,
                forall|i: int| 0 <= i < self@.len() ==> call_requires(predicate, (&self@[i],)),
                forall|j: int| 0 <= j < index ==> call_ensures(predicate, (&self@[j],), false),
            decreases self@.len() - index,
        {
            if predicate(&self.nodes[index]) {
                return Some(index);
            }
            index = index + 1;
        }
        None
    }

    /// The node at `index`, or `NodeWithSpecifiedIndexIsMissing` when the
    /// index is out of range.
    pub fn get(&self, index: usize) -> (r: Result<&TreeNode<T>, FlatTreeError>)
        ensures
            index < self@.len() ==> (r matches Ok(node) && *node == self@[index as int]),
            index >= self@.len() ==> r == Err::<&TreeNode<T>, FlatTreeError>(
                FlatTreeError::NodeWithSpecifiedIndexIsMissing { index },
            ),
    {
        if index < self.nodes.len() {
            Ok(&self.nodes[index])
        } else {
            Err(FlatTreeError::NodeWithSpecifiedIndexIsMissing { index })
        }
    }

    /// Hand every node to the callback, in sequence order: the node stored
    /// at each index `0..n-1`, each exactly once, in increasing order.
    #[verifier::loop_isolation(false)]
    pub fn for_each<C: OverNodesCallback<T>>(&self, callback: &mut C)
        ensures
            final(callback).seen() == old(callback).seen() + Seq::new(
                self@.len(),
                |k: int| (self@[k], k),
            ),
    {
        let ghost seen0 = callback.seen();
        let mut index: usize = 0;
        while index < self.nodes.len()
            invariant
                index <= self@.len(),
                self@ == self.nodes@,
                callback.seen() == seen0 + Seq::new(index as nat, |k: int| (self@[k], k)),
            decreases self@.len() - index,
        {
            callback.on_node(&self.nodes[index], index);
            index = index + 1;
            proof {
                assert(callback.seen() =~= seen0 + Seq::new(
                    index as nat,
                    |k: int| (self@[k], k),
                ));
            }
        }
        proof {
            assert(seen0 + Seq::new(index as nat, |k: int| (self@[k], k)) =~= seen0 + Seq::new(
                self@.len(),
                |k: int| (self@[k], k),
            ));
        }
    }

    /// Hand every node of the subtree rooted at `parent_index` to the
    /// callback: the node stored at each index of the range
    /// `[parent_index, last_child_index]`, the subtree's root included, in
    /// increasing order.
    #[verifier::loop_isolation(false)]
    pub fn for_each_child<C: OverNodesCallback<T>>(
        &self,
        parent_index: usize,
        callback: &mut C,
    ) -> (r: Result<(), FlatTreeError>)
        ensures
            parent_index < self@.len() ==> r == Ok::<(), FlatTreeError>(()) && final(callback).seen() == old(callback).seen() + child_range(self@, parent_index as int),
            parent_index >= self@.len() ==> r == Err::<(), FlatTreeError>(
                FlatTreeError::NodeWithSpecifiedIndexIsMissing { index: parent_index },
            ) && final(callback).seen() == old(callback).seen(),
    {
        if parent_index >= self.nodes.len() {
            return Err(FlatTreeError::NodeWithSpecifiedIndexIsMissing { index: parent_index });
        }
        proof {
            use_type_invariant(self);
            lemma_pre_order_invariant(self@, parent_index as int);
        }
        let ghost seen0 = callback.seen();
        let last_child_index = self.nodes[parent_index].last_child_index;
        let mut current_index = parent_index;
        while current_index <= last_child_index
            invariant
                parent_index <= current_index <= last_child_index + 1,
                last_child_index < self@.len(),
                self@ == self.nodes@,
                last_child_index == self@[parent_index as int].last_child_index,
                callback.seen() == seen0 + Seq::new(
                    (current_index - parent_index) as nat,
                    |k: int| (self@[parent_index + k], parent_index + k),
                ),
            decreases last_child_index + 1 - current_index,
        {
            callback.on_node(&self.nodes[current_index], current_index);
            current_index = current_index + 1;
            proof {
                assert(callback.seen() =~= seen0 + Seq::new(
                    (current_index - parent_index) as nat,
                    |k: int| (self@[parent_index + k], parent_index + k),
                ));
            }
        }
        proof {
            assert(callback.seen() =~= seen0 + child_range(self@, parent_index as int));
        }
        Ok(())
    }

    /// Hand the ancestors of the node at `child_index` to the callback,
    /// nearest first: walk backward from `child_index`, handing over every
    /// node found at the expected level with its index, and stepping the
    /// expectation down (saturating) after each hit.
    #[verifier::loop_isolation(false)]
    pub fn for_each_parent<C: OverNodesCallback<T>>(
        &self,
        child_index: usize,
        callback: &mut C,
    ) -> (r: Result<(), FlatTreeError>)
        ensures
            child_index < self@.len() ==> r == Ok::<(), FlatTreeError>(()) && final(callback).seen() == old(callback).seen() + ancestor_walk(
                self@,
                child_index - 1,
                sat_dec(self@[child_index as int].level as int),
            ),
            child_index >= self@.len() ==> r == Err::<(), FlatTreeError>(
                FlatTreeError::NodeWithSpecifiedIndexIsMissing { index: child_index },
            ) && final(callback).seen() == old(callback).seen(),
    {
        if child_index >= self.nodes.len() {
            return Err(FlatTreeError::NodeWithSpecifiedIndexIsMissing { index: child_index });
        }
        let ghost seen0 = callback.seen();
        let ghost walk = ancestor_walk(
            self@,
            child_index - 1,
            sat_dec(self@[child_index as int].level as int),
        );
        let mut current_level = self.nodes[child_index].level.decrement();
        let ghost mut done: Seq<(TreeNode<T>, int)> = Seq::empty();
        let mut current_index = child_index;
        while current_index > 0
            invariant
                current_index <= child_index < self@.len(),
                self@ == self.nodes@,
                callback.seen() == seen0 + done,
                done + ancestor_walk(self@, current_index - 1, current_level as int) == walk,
            decreases current_index,
        {
            current_index = current_index - 1;
            let matches_level = self.nodes[current_index].level == current_level;
            if matches_level {
                callback.on_node(&self.nodes[current_index], current_index);
                proof {
                    assert(ancestor_walk(self@, current_index as int, current_level as int)
                        == seq![(self@[current_index as int], current_index as int)]
                        + ancestor_walk(
                        self@,
                        current_index - 1,
                        sat_dec(current_level as int),
                    ));
                    done = done.push((self@[current_index as int], current_index as int));
                    assert(done + ancestor_walk(
                        self@,
                        current_index - 1,
                        sat_dec(current_level as int),
                    ) =~= walk);
                }
                current_level.decrement_mut();
            }
        }
        proof {
            assert(ancestor_walk(self@, -1, current_level as int) == Seq::<
                (TreeNode<T>, int),
            >::empty());
            assert(done =~= walk);
        }
        Ok(())
    }

    /// Copy the subtree rooted at `root_index`, the range
    /// `[root_index, last_child_index]` inclusive. With a level overwrite,
    /// every copied node's level is shifted so the subtree's root sits at
    /// the given level; descendants stay above the root by the same
    /// distance, and the shift saturates at the top of the level range.
    #[verifier::loop_isolation(false)]
    pub fn get_sub_tree_by_parent_index(
        &self,
        root_index: usize,
        root_level_overwrite: Option<usize>,
    ) -> (r: Result<Vec<TreeNode<T>>, FlatTreeError>)
        ensures
            root_index < self@.len() ==> (r matches Ok(sub) && {
                let root = self@[root_index as int];
                &&& sub@.len() == root.last_child_index - root_index + 1
                &&& forall|k: int|
                    0 <= k < sub@.len() ==> {
                        let original = self@[root_index + k];
                        &&& cloned::<T>(original.payload, (#[trigger] sub@[k]).payload)
                        &&& sub@[k].has_children == original.has_children
                        &&& sub@[k].last_child_index == original.last_child_index
                        &&& sub@[k].level as int == (match root_level_overwrite {
                            Some(level) => {
                                let shifted = original.level - root.level + level;
                                if shifted > usize::MAX {
                                    usize::MAX as int
                                } else {
                                    shifted
                                }
                            },
                            None => original.level as int,
                        })
                    }
            }),
            root_index >= self@.len() ==> r == Err::<Vec<TreeNode<T>>, FlatTreeError>(
                FlatTreeError::NodeWithSpecifiedIndexIsMissing { index: root_index },
            ),
    {
        if root_index >= self.nodes.len() {
            return Err(FlatTreeError::NodeWithSpecifiedIndexIsMissing { index: root_index });
        }
        proof {
            use_type_invariant(self);
            lemma_pre_order_invariant(self@, root_index as int);
        }
        let root_level = self.nodes[root_index].level;
        let last_child_index = self.nodes[root_index].last_child_index;
        let mut sub_tree_result: Vec<TreeNode<T>> = Vec::new();
        let mut current_index = root_index;
        while current_index <= last_child_index
            invariant
                root_index <= current_index <= last_child_index + 1,
                last_child_index < self@.len(),
                self@ == self.nodes@,
                root_level == self@[root_index as int].level,
                last_child_index == self@[root_index as int].last_child_index,
                forall|j: int|
                    root_index < j <= last_child_index ==> (#[trigger] self@[j]).level
                        > root_level,
                sub_tree_result@.len() == current_index - root_index,
                forall|k: int|
                    0 <= k < sub_tree_result@.len() ==> {
                        let original = self@[root_index + k];
                        &&& cloned::<T>(original.payload, (#[trigger] sub_tree_result@[k]).payload)
                        &&& sub_tree_result@[k].has_children == original.has_children
                        &&& sub_tree_result@[k].last_child_index == original.last_child_index
                        &&& sub_tree_result@[k].level as int == (match root_level_overwrite {
                            Some(level) => {
                                let shifted = original.level - root_level + level;
                                if shifted > usize::MAX {
                                    usize::MAX as int
                                } else {
                                    shifted
                                }
                            },
                            None => original.level as int,
                        })
                    },
            decreases last_child_index + 1 - current_index,
        {
            let node = &self.nodes[current_index];
            let payload = node.payload.clone();
            let level = match root_level_overwrite {
                Some(level) => (node.level - root_level).saturating_add(level),
                None => node.level,
            };
            sub_tree_result.push(
                TreeNode::new(payload, level, node.has_children, node.last_child_index),
            );
            current_index = current_index + 1;
        }
        Ok(sub_tree_result)
    }

    /// Overwrite only the payload of the node at `index`; level, children
    /// mark and subtree range stay untouched, as do all other nodes.
    pub fn replace_payload(&mut self, index: usize, payload: T) -> (r: Result<(), FlatTreeError>)
        ensures
            index < old(self)@.len() ==> r == Ok::<(), FlatTreeError>(()) && final(self)@ == old(
                self,
            )@.update(
                index as int,
                (TreeNode {
                    payload,
                    level: old(self)@[index as int].level,
                    has_children: old(self)@[index as int].has_children,
                    last_child_index: old(self)@[index as int].last_child_index,
                }),
            ),
            index >= old(self)@.len() ==> r == Err::<(), FlatTreeError>(
                FlatTreeError::NodeWithSpecifiedIndexIsMissing { index },
            ) && final(self)@ == old(self)@,
    {
        if index >= self.nodes.len() {
            return Err(FlatTreeError::NodeWithSpecifiedIndexIsMissing { index });
        }
        proof {
            use_type_invariant(&*self);
        }
        let mut nodes: Vec<TreeNode<T>> = Vec::new();
        std::mem::swap(&mut self.nodes, &mut nodes);
        let target = nodes.remove(index);
        nodes.insert(
            index,
            TreeNode::new(payload, target.level, target.has_children, target.last_child_index),
        );
        proof {
            assert(nodes@ =~= old(self)@.update(
                index as int,
                (TreeNode {
                    payload,
                    level: old(self)@[index as int].level,
                    has_children: old(self)@[index as int].has_children,
                    last_child_index: old(self)@[index as int].last_child_index,
                }),
            ));
            assert(node_levels(nodes@) =~= node_levels(old(self)@));
            assert forall|i: int| 0 <= i < nodes@.len() implies (#[trigger] nodes@[i]).last_child_index
                == subtree_end(node_levels(nodes@), i) by {
                assert(old(self)@[i].last_child_index == subtree_end(node_levels(old(self)@), i));
            }
        }
        std::mem::swap(&mut self.nodes, &mut nodes);
        Ok(())
    }

    /// Delete the subtree rooted at `root_index`: remove the half-open
    /// range `[root_index, last_child_index)` — the range's last node stays,
    /// and deleting a leaf removes nothing — then strip the remaining nodes
    /// to raw form and re-run the resolver over the whole remainder.
    #[verifier::loop_isolation(false)]
    pub fn delete(&mut self, root_index: usize) -> (r: Result<(), FlatTreeError>)
        ensures
            root_index < old(self)@.len() ==> r == Ok::<(), FlatTreeError>(()) && {
                let kept = old(self)@.subrange(0, root_index as int) + old(self)@.subrange(
                    old(self)@[root_index as int].last_child_index as int,
                    old(self)@.len() as int,
                );
                &&& final(self)@.len() == kept.len()
                &&& forall|i: int|
                    0 <= i < kept.len() ==> {
                        &&& (#[trigger] final(self)@[i]).payload == kept[i].payload
                        &&& final(self)@[i].level == kept[i].level
                        &&& final(self)@[i].has_children == kept[i].has_children
                        &&& final(self)@[i].last_child_index == subtree_end(node_levels(kept), i)
                    }
            },
            root_index >= old(self)@.len() ==> r == Err::<(), FlatTreeError>(
                FlatTreeError::NodeWithSpecifiedIndexIsMissing { index: root_index },
            ) && final(self)@ == old(self)@,
    {
        if root_index >= self.nodes.len() {
            return Err(FlatTreeError::NodeWithSpecifiedIndexIsMissing { index: root_index });
        }
        proof {
            use_type_invariant(&*self);
            lemma_pre_order_invariant(self@, root_index as int);
        }
        let last_child_index = self.nodes[root_index].last_child_index;
        let ghost kept = old(self)@.subrange(0, root_index as int) + old(self)@.subrange(
            last_child_index as int,
            old(self)@.len() as int,
        );
        let mut nodes: Vec<TreeNode<T>> = Vec::new();
        std::mem::swap(&mut self.nodes, &mut nodes);
        let mut tail = nodes.split_off(last_child_index);
        nodes.truncate(root_index);
        nodes.append(&mut tail);
        proof {
            assert(nodes@ =~= kept);
        }
        let mut reversed_raw: Vec<RawTreeNode<T>> = Vec::new();
        while nodes.len() > 0
            invariant
                reversed_raw@.len() + nodes@.len() == kept.len(),
                nodes@ == kept.subrange(0, nodes@.len() as int),
                forall|k: int|
                    0 <= k < reversed_raw@.len() ==> (#[trigger] reversed_raw@[k]) == kept[kept.len()
                        - 1 - k].spec_raw(),
            decreases nodes@.len(),
        {
            let node = nodes.pop().unwrap();
            reversed_raw.push(node.get_raw());
            proof {
                assert(nodes@ =~= kept.subrange(0, nodes@.len() as int));
            }
        }
        let mut raw_nodes: Vec<RawTreeNode<T>> = Vec::new();
        while reversed_raw.len() > 0
            invariant
                raw_nodes@.len() + reversed_raw@.len() == kept.len(),
                forall|k: int|
                    0 <= k < reversed_raw@.len() ==> (#[trigger] reversed_raw@[k]) == kept[kept.len()
                        - 1 - k].spec_raw(),
                forall|k: int|
                    0 <= k < raw_nodes@.len() ==> (#[trigger] raw_nodes@[k]) == kept[k].spec_raw(),
            decreases reversed_raw@.len(),
        {
            let raw = reversed_raw.pop().unwrap();
            raw_nodes.push(raw);
        }
        proof {
            assert(raw_levels(raw_nodes@) =~= node_levels(kept));
        }
        self.nodes = get_nodes_from_sorted_raw_nodes(raw_nodes);
        Ok(())
    }
}

} // verus!
