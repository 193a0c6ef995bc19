//! The mathematics of a pre-order flattening: per-node levels, the end of a
//! node's subtree range, and the consistency conditions that expansion
//! establishes and that the tree's operations rely on.

use vstd::prelude::*;

use crate::tree_nodes::{RawTreeNode, TreeNode};

verus! {

/// Saturating successor, the level bookkeeping step used when descending
/// into children.
pub open spec fn sat_inc(level: int) -> int {
    if level == usize::MAX {
        level
    } else {
        level + 1
    }
}

/// Saturating predecessor, used when walking from a node toward its
/// ancestors, so the root level never underflows.
pub open spec fn sat_dec(level: int) -> int {
    if level <= 0 {
        0
    } else {
        level - 1
    }
}

/// The levels of a sequence of raw nodes.
pub open spec fn raw_levels<T>(s: Seq<RawTreeNode<T>>) -> Seq<int> {
    s.map(|i: int, n: RawTreeNode<T>| n.level as int)
}

/// The levels of a sequence of resolved nodes.
pub open spec fn node_levels<T>(s: Seq<TreeNode<T>>) -> Seq<int> {
    s.map(|i: int, n: TreeNode<T>| n.level as int)
}

/// The last index of the contiguous run that starts right after `k` and
/// stays strictly deeper than `level`; `k` itself when no such run follows.
pub open spec fn run_end(levels: Seq<int>, level: int, k: int) -> int
    decreases levels.len() - k,
{
    if k + 1 < levels.len() && levels[k + 1] > level {
        run_end(levels, level, k + 1)
    } else {
        k
    }
}

/// The index of the last node of the subtree rooted at `i`: the end of the
/// run of strictly deeper nodes that follows `i`.
pub open spec fn subtree_end(levels: Seq<int>, i: int) -> int {
    run_end(levels, levels[i], i)
}

/// Every node's `last_child_index` is exactly the end of its subtree range.
/// This is the structural invariant the resolver establishes and every tree
/// operation preserves.
pub open spec fn nodes_linked<T>(s: Seq<TreeNode<T>>) -> bool {
    forall|i: int|
        0 <= i < s.len() ==> (#[trigger] s[i]).last_child_index == subtree_end(node_levels(s), i)
}

/// The relation between a raw node and its successor that expansion
/// produces: a node with children is followed directly by its first child,
/// one level deeper (saturating); a node without children is never followed
/// by a deeper node.
pub open spec fn raw_pair_consistent<T>(s: Seq<RawTreeNode<T>>, i: int) -> bool {
    if s[i].has_children {
        i + 1 < s.len() && s[i + 1].level == sat_inc(s[i].level as int)
    } else {
        i + 1 < s.len() ==> s[i + 1].level <= s[i].level
    }
}

pub open spec fn raw_consistent<T>(s: Seq<RawTreeNode<T>>) -> bool {
    forall|i: int| 0 <= i < s.len() ==> #[trigger] raw_pair_consistent(s, i)
}

/// `raw_pair_consistent`, carried over to resolved nodes.
pub open spec fn node_pair_consistent<T>(s: Seq<TreeNode<T>>, i: int) -> bool {
    if s[i].has_children {
        i + 1 < s.len() && s[i + 1].level == sat_inc(s[i].level as int)
    } else {
        i + 1 < s.len() ==> s[i + 1].level <= s[i].level
    }
}

/// The `has_children` marks agree with the shape of the level sequence.
/// Freshly built trees satisfy this; an unchecked `replace_payload` cannot
/// break it, but `delete` may, since it keeps the last node of the deleted
/// range.
pub open spec fn nodes_synced<T>(s: Seq<TreeNode<T>>) -> bool {
    forall|i: int| 0 <= i < s.len() ==> #[trigger] node_pair_consistent(s, i)
}

/// What a subtree traversal rooted at `i` visits: the node at every index
/// of the range `[i, last_child_index]`, the root of the subtree included,
/// in increasing order.
pub open spec fn child_range<T>(s: Seq<TreeNode<T>>, i: int) -> Seq<(TreeNode<T>, int)> {
    Seq::new((s[i].last_child_index - i + 1) as nat, |k: int| (s[i + k], i + k))
}

/// What an ancestor traversal visits, walking from index `i` down to 0 and
/// taking every node found at the expected level, stepping the expectation
/// down (saturating) after each hit: each visited node with its index.
pub open spec fn ancestor_walk<T>(s: Seq<TreeNode<T>>, i: int, expected: int) -> Seq<
    (TreeNode<T>, int),
>
    decreases i + 1,
{
    if i < 0 {
        Seq::empty()
    } else if s[i].level == expected {
        seq![(s[i], i)] + ancestor_walk(s, i - 1, sat_dec(expected))
    } else {
        ancestor_walk(s, i - 1, expected)
    }
}

/// Ancestor ordering: the walk hands over the node stored at each visited
/// index, visits indices at or below its start, each strictly smaller than
/// the one before, and the k-th visited node sits exactly at level
/// `expected - k`, floored at 0 — so levels decrease strictly until the
/// walk reaches level 0.
pub proof fn lemma_ancestor_walk_properties<T>(s: Seq<TreeNode<T>>, i: int, expected: int)
    requires
        0 <= expected,
        i < s.len(),
    ensures
        forall|k: int|
            0 <= k < ancestor_walk(s, i, expected).len() ==> {
                &&& 0 <= (#[trigger] ancestor_walk(s, i, expected)[k]).1 <= i
                &&& ancestor_walk(s, i, expected)[k].0 == s[ancestor_walk(s, i, expected)[k].1]
                &&& s[ancestor_walk(s, i, expected)[k].1].level == (if expected - k >= 0 {
                    expected - k
                } else {
                    0
                })
            },
        forall|k1: int, k2: int|
            0 <= k1 < k2 < ancestor_walk(s, i, expected).len() ==> ancestor_walk(s, i, expected)[
                k1].1 > ancestor_walk(s, i, expected)[k2].1,
    decreases i + 1,
{
    if i < 0 {
    } else if s[i].level == expected {
        lemma_ancestor_walk_properties(s, i - 1, sat_dec(expected));
        let w = ancestor_walk(s, i, expected);
        let rest = ancestor_walk(s, i - 1, sat_dec(expected));
        assert forall|k: int| 0 <= k < w.len() implies {
            &&& 0 <= (#[trigger] w[k]).1 <= i
            &&& w[k].0 == s[w[k].1]
            &&& s[w[k].1].level == (if expected - k >= 0 {
                expected - k
            } else {
                0
            })
        } by {
            if k > 0 {
                assert(w[k] == rest[k - 1]);
                assert(s[rest[k - 1].1].level == (if sat_dec(expected) - (k - 1) >= 0 {
                    sat_dec(expected) - (k - 1)
                } else {
                    0
                }));
            }
        }
        assert forall|k1: int, k2: int| 0 <= k1 < k2 < w.len() implies w[k1].1 > w[k2].1 by {
            assert(w[k2] == rest[k2 - 1]);
            assert(0 <= rest[k2 - 1].1 <= i - 1);
            if k1 > 0 {
                assert(w[k1] == rest[k1 - 1]);
            }
        }
    } else {
        lemma_ancestor_walk_properties(s, i - 1, expected);
        let w = ancestor_walk(s, i, expected);
        let rest = ancestor_walk(s, i - 1, expected);
        assert(w == rest);
        assert forall|k: int| 0 <= k < w.len() implies {
            &&& 0 <= (#[trigger] w[k]).1 <= i
            &&& w[k].0 == s[w[k].1]
            &&& s[w[k].1].level == (if expected - k >= 0 {
                expected - k
            } else {
                0
            })
        } by {
            assert(w[k] == rest[k]);
            assert(0 <= rest[k].1 <= i - 1);
        }
        assert forall|k1: int, k2: int| 0 <= k1 < k2 < w.len() implies w[k1].1 > w[k2].1 by {
            assert(w[k1] == rest[k1]);
            assert(w[k2] == rest[k2]);
        }
    }
}

/// Carries the expansion consistency over to resolved nodes whose level and
/// children marks match the raw sequence.
pub proof fn lemma_synced_from_raw<T>(raws: Seq<RawTreeNode<T>>, s: Seq<TreeNode<T>>)
    requires
        s.len() == raws.len(),
        forall|i: int|
            0 <= i < s.len() ==> (#[trigger] s[i]).level == raws[i].level && s[i].has_children
                == raws[i].has_children,
        raw_consistent(raws),
    ensures
        nodes_synced(s),
{
    assert forall|i: int| 0 <= i < s.len() implies #[trigger] node_pair_consistent(s, i) by {
        assert(raw_pair_consistent(raws, i));
    }
}

pub proof fn lemma_run_end(levels: Seq<int>, level: int, k: int)
    requires
        0 <= k < levels.len(),
    ensures
        k <= run_end(levels, level, k) < levels.len(),
        forall|j: int| k < j <= run_end(levels, level, k) ==> levels[j] > level,
        run_end(levels, level, k) == levels.len() - 1 || levels[run_end(levels, level, k) + 1]
            <= level,
    decreases levels.len() - k,
{
    if k + 1 < levels.len() && levels[k + 1] > level {
        lemma_run_end(levels, level, k + 1);
    }
}

/// The subtree range is determined: any index with the range properties is
/// the run's end.
pub proof fn lemma_run_end_unique(levels: Seq<int>, level: int, k: int, j: int)
    requires
        0 <= k <= j < levels.len(),
        forall|m: int| k < m <= j ==> levels[m] > level,
        j == levels.len() - 1 || levels[j + 1] <= level,
    ensures
        run_end(levels, level, k) == j,
    decreases j - k,
{
    if k < j {
        assert(levels[k + 1] > level);
        lemma_run_end_unique(levels, level, k + 1, j);
    }
}

/// Pre-order invariant: in a linked node sequence, every node inside the
/// subtree range of node `i` lies strictly deeper than `i`, and the node
/// right after the range, if there is one, does not.
pub proof fn lemma_pre_order_invariant<T>(s: Seq<TreeNode<T>>, i: int)
    requires
        nodes_linked(s),
        0 <= i < s.len(),
    ensures
        i <= s[i].last_child_index < s.len(),
        forall|j: int| i < j <= s[i].last_child_index ==> s[j].level > s[i].level,
        s[i].last_child_index == s.len() - 1 || s[s[i].last_child_index + 1].level <= s[i].level,
{
    let levels = node_levels(s);
    lemma_run_end(levels, s[i].level as int, i);
    assert(s[i].last_child_index == run_end(levels, levels[i], i));
    assert forall|j: int| i < j <= s[i].last_child_index implies s[j].level > s[i].level by {
        assert(levels[j] > levels[i]);
    }
}

/// Leaf invariant: in a linked, synced sequence, a node is marked as having
/// children exactly when its subtree range extends past the node itself.
/// (At the saturated level `usize::MAX` the level bookkeeping can no longer
/// tell a child apart from a sibling, so that level is left out.)
pub proof fn lemma_leaf_invariant<T>(s: Seq<TreeNode<T>>, i: int)
    requires
        nodes_linked(s),
        nodes_synced(s),
        0 <= i < s.len(),
        s[i].level < usize::MAX,
    ensures
        s[i].has_children <==> s[i].last_child_index != i,
{
    let levels = node_levels(s);
    assert(node_pair_consistent(s, i));
    lemma_run_end(levels, levels[i], i);
    if s[i].has_children {
        assert(levels[i + 1] == sat_inc(s[i].level as int));
        assert(levels[i + 1] > levels[i]);
        assert(run_end(levels, levels[i], i) == run_end(levels, levels[i], i + 1));
        lemma_run_end(levels, levels[i], i + 1);
    } else {
        if i + 1 < s.len() {
            assert(levels[i + 1] <= levels[i]);
        }
        assert(run_end(levels, levels[i], i) == i);
    }
}

} // verus!
