//! The last-descendant resolver: one backward pass over a pre-order raw-node
//! sequence that annotates every node with the index of the last node of its
//! subtree, using an auxiliary stack of closing boundaries.

use vstd::prelude::*;

use crate::preorder::{raw_levels, run_end, subtree_end, lemma_run_end, nodes_linked, node_levels};
use crate::tree_nodes::{RawTreeNode, TreeNode};

verus! {

/// A closing boundary recorded during the backward pass: the node at
/// `last_child_index` is the last one of a run at its level, and
/// `next_item_level` is the level of the node right after it (0 at the end
/// of the sequence).
struct LastChild {
    last_child_index: usize,
    next_item_level: usize,
}

/// The level of the node after index `i`, with 0 standing for "end of the
/// sequence, no open ancestor".
pub open spec fn next_level(levels: Seq<int>, i: int) -> int {
    if i + 1 < levels.len() {
        levels[i + 1]
    } else {
        0
    }
}

/// What the backward pass knows of every stack entry while the cursor is at
/// `cursor`: the entry records a true closing boundary at an index not yet
/// passed.
spec fn stack_entry_ok(levels: Seq<int>, e: LastChild, cursor: int) -> bool {
    &&& cursor <= e.last_child_index < levels.len()
    &&& e.next_item_level as int == next_level(levels, e.last_child_index as int)
    &&& (e.next_item_level as int) < levels[e.last_child_index as int]
}

/// Scan the boundary stack from the most recently pushed entry for the first
/// one whose recorded level closes at or above `parent_level`.
fn find_matching_boundary(last_children: &Vec<LastChild>, parent_level: usize) -> (r: usize)
    requires
        exists|e: int|
            0 <= e < last_children@.len() && last_children@[e].next_item_level <= parent_level,
    ensures
        exists|e: int|
            {
                &&& 0 <= e < last_children@.len()
                &&& last_children@[e].next_item_level <= parent_level
                &&& r == last_children@[e].last_child_index
                &&& forall|q: int|
                    e < q < last_children@.len() ==> last_children@[q].next_item_level
                        > parent_level
            },
{
    let mut pos = last_children.len();
    while pos > 0
        invariant
            pos <= last_children@.len(),
            exists|e: int| 0 <= e < pos && last_children@[e].next_item_level <= parent_level,
            forall|q: int|
                pos <= q < last_children@.len() ==> last_children@[q].next_item_level
                    > parent_level,
        decreases pos,
    {
        pos = pos - 1;
        if last_children[pos].next_item_level <= parent_level {
            return last_children[pos].last_child_index;
        }
    }
    proof {
        assert(false);
    }
    0
}

/// Annotate each raw node with the index of its last descendant, in one
/// backward pass. The input is consumed from the back, so no payload is
/// copied; the auxiliary stack only ever grows, and its depth is bounded by
/// the tree depth.
///
/// The contract holds for every input sequence, pre-order or not: the
/// computed `last_child_index` is always the end of the run of strictly
/// deeper nodes that follows the node.
#[verifier::rlimit(100)]
pub fn get_nodes_from_sorted_raw_nodes<T: Clone>(sorted_raw_nodes: Vec<RawTreeNode<T>>) -> (r: Vec<
    TreeNode<T>,
>)
    ensures
        r@.len() == sorted_raw_nodes@.len(),
        forall|i: int|
            0 <= i < r@.len() ==> {
                &&& (#[trigger] r@[i]).payload == sorted_raw_nodes@[i].payload
                &&& r@[i].level == sorted_raw_nodes@[i].level
                &&& r@[i].has_children == sorted_raw_nodes@[i].has_children
                &&& r@[i].last_child_index == subtree_end(raw_levels(sorted_raw_nodes@), i)
            },
        nodes_linked(r@),
{
    let ghost raws = sorted_raw_nodes@;
    let ghost levels = raw_levels(raws);
    proof {
        assert(forall|k: int| 0 <= k < raws.len() ==> #[trigger] levels[k] >= 0);
    }
    let mut sorted_raw_nodes = sorted_raw_nodes;
    let mut nodes_result: Vec<TreeNode<T>> = Vec::new();
    let mut last_children: Vec<LastChild> = Vec::new();
    let mut next_item_level: usize = 0;
    while sorted_raw_nodes.len() > 0
        invariant
            sorted_raw_nodes@ == raws.subrange(0, sorted_raw_nodes@.len() as int),
            sorted_raw_nodes@.len() <= raws.len(),
            levels == raw_levels(raws),
            next_item_level as int == next_level(levels, sorted_raw_nodes@.len() - 1),
            nodes_result@.len() == raws.len() - sorted_raw_nodes@.len(),
            forall|k: int|
                0 <= k < nodes_result@.len() ==> {
                    &&& (#[trigger] nodes_result@[k]).payload == raws[sorted_raw_nodes@.len()
                        + k].payload
                    &&& nodes_result@[k].level == raws[sorted_raw_nodes@.len() + k].level
                    &&& nodes_result@[k].has_children == raws[sorted_raw_nodes@.len()
                        + k].has_children
                    &&& nodes_result@[k].last_child_index == subtree_end(
                        levels,
                        sorted_raw_nodes@.len() + k,
                    )
                },
            forall|e: int|
                0 <= e < last_children@.len() ==> stack_entry_ok(
                    levels,
                    #[trigger] last_children@[e],
                    sorted_raw_nodes@.len() as int,
                ),
            forall|j: int|
                sorted_raw_nodes@.len() <= j < raws.len() && #[trigger] next_level(levels, j)
                    < levels[j] ==> exists|e: int|
                    0 <= e < last_children@.len() && (#[trigger] last_children@[e]).last_child_index
                        == j,
            forall|e1: int, e2: int|
                0 <= e1 < e2 < last_children@.len() ==> last_children@[e1].last_child_index
                    > last_children@[e2].last_child_index,
        decreases sorted_raw_nodes@.len(),
    {
        let ghost stack0 = last_children@;
        let current_item_index = sorted_raw_nodes.len() - 1;
        let current_item = sorted_raw_nodes.pop().unwrap();
        let current_item_level = current_item.level;
        proof {
            assert(raws[current_item_index as int] == current_item);
            assert(levels[current_item_index as int] == current_item_level as int);
        }

        let is_last_child = next_item_level < current_item_level;
        let is_parent = current_item_level < next_item_level;

        if is_last_child {
            last_children.push(
                LastChild { last_child_index: current_item_index, next_item_level },
            );
        }

        let last_child_index = if is_parent {
            proof {
                lemma_run_end(levels, current_item_level as int, current_item_index as int);
                let jj = run_end(levels, current_item_level as int, current_item_index as int);
                assert(levels[current_item_index + 1] > current_item_level as int);
                assert(jj > current_item_index as int);
                assert(levels[jj] > current_item_level as int);
                assert(next_level(levels, jj) <= current_item_level as int);
                assert(next_level(levels, jj) < levels[jj]);
                // the boundary at jj is on the stack
                assert(exists|e: int|
                    0 <= e < last_children@.len() && (#[trigger] last_children@[e]).last_child_index
                        == jj);
                let pj = choose|e: int|
                    0 <= e < last_children@.len() && (#[trigger] last_children@[e]).last_child_index
                        == jj;
                assert(last_children@[pj].next_item_level <= current_item_level);
            }
            let found = find_matching_boundary(&last_children, current_item_level);
            proof {
                let jj = run_end(levels, current_item_level as int, current_item_index as int);
                let pj = choose|e: int|
                    0 <= e < last_children@.len() && (#[trigger] last_children@[e]).last_child_index
                        == jj;
                let p = choose|e: int|
                    {
                        &&& 0 <= e < last_children@.len()
                        &&& last_children@[e].next_item_level <= current_item_level
                        &&& found == last_children@[e].last_child_index
                        &&& forall|q: int|
                            e < q < last_children@.len() ==> last_children@[q].next_item_level
                                > current_item_level
                    };
                if p < pj {
                    assert(last_children@[pj].next_item_level > current_item_level);
                    assert(false);
                }
                if p > pj {
                    // entries pushed after the boundary at jj close strictly deeper runs
                    let ip = last_children@[p].last_child_index as int;
                    assert(ip < jj);
                    assert(current_item_index < ip);
                    assert(levels[ip + 1] > current_item_level as int);
                    assert(last_children@[p].next_item_level as int == next_level(levels, ip));
                    assert(false);
                }
                assert(found == jj);
            }
            found
        } else {
            proof {
                assert(run_end(levels, current_item_level as int, current_item_index as int)
                    == current_item_index as int);
            }
            current_item_index
        };

        nodes_result.insert(
            0,
            TreeNode::new(
                current_item.payload,
                current_item_level,
                current_item.has_children,
                last_child_index,
            ),
        );
        next_item_level = current_item_level;
        proof {
            assert(sorted_raw_nodes@ =~= raws.subrange(0, sorted_raw_nodes@.len() as int));
            assert forall|j: int|
                sorted_raw_nodes@.len() <= j < raws.len() && #[trigger] next_level(levels, j)
                    < levels[j] implies exists|e: int|
                0 <= e < last_children@.len() && (#[trigger] last_children@[e]).last_child_index
                    == j by {
                if j == current_item_index {
                    assert(next_level(levels, j) < levels[j]);
                    assert(is_last_child);
                    let e = last_children@.len() - 1;
                    assert(last_children@[e].last_child_index == j);
                } else {
                    assert(exists|e: int|
                        0 <= e < stack0.len() && (#[trigger] stack0[e]).last_child_index == j);
                    let e = choose|e: int|
                        0 <= e < stack0.len() && (#[trigger] stack0[e]).last_child_index == j;
                    assert(last_children@[e].last_child_index == j);
                }
            }
        }
    }
    proof {
        assert(nodes_result@.len() == raws.len());
        assert(node_levels(nodes_result@) =~= raw_levels(raws));
        assert forall|i: int| 0 <= i < nodes_result@.len() implies (#[trigger] nodes_result@[i]).last_child_index
            == subtree_end(node_levels(nodes_result@), i) by {
            assert(nodes_result@[i].last_child_index == subtree_end(levels, i));
        }
    }
    nodes_result
}

} // verus!
