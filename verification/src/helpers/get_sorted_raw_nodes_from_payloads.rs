//! The pre-order expander: consumes root payloads and a children lookup and
//! produces the raw-node sequence in pre-order, expanding lazily through a
//! front-pushing work queue instead of recursion.

use std::collections::VecDeque;

use vstd::prelude::*;

use crate::preorder::{raw_consistent, raw_pair_consistent, sat_inc};
use crate::traits::{DirectChildrenGetter, UsizeUnaryOperations};
use crate::tree_nodes::RawTreeNode;

verus! {

/// A payload waiting in the expansion queue, together with the nesting level
/// it will be emitted at.
pub struct PayloadWithLevel<T> {
    pub payload: T,
    pub level: usize,
}

impl<T> PayloadWithLevel<T> {
    pub fn new(payload: T) -> (r: Self)
        ensures
            r.payload == payload,
            r.level == 0,
    {
        PayloadWithLevel { payload, level: 0 }
    }

    pub fn with_level(self, level: usize) -> (r: Self)
        ensures
            r.payload == self.payload,
            r.level == level,
    {
        PayloadWithLevel { payload: self.payload, level }
    }
}

/// The queue an expansion starts from: every root payload at level 0.
pub open spec fn root_queue<T>(roots: Seq<T>) -> Seq<PayloadWithLevel<T>> {
    Seq::new(roots.len(), |i: int| PayloadWithLevel { payload: roots[i], level: 0 })
}

/// The children of one queue item, queued one level deeper (saturating).
pub open spec fn child_queue<T>(children: Seq<T>, parent_level: usize) -> Seq<
    PayloadWithLevel<T>,
> {
    Seq::new(
        children.len(),
        |i: int| PayloadWithLevel { payload: children[i], level: parent_level.spec_increment() },
    )
}

/// What the pre-order expansion makes of `queue` within `fuel` steps: each
/// step takes the front item, emits its raw node, and queues its children at
/// the front. `None` when `fuel` steps do not empty the queue; the lookup
/// must describe a finite, acyclic hierarchy for some amount of fuel to
/// suffice.
pub open spec fn expand_steps<T, G: DirectChildrenGetter<T>>(
    getter: &G,
    queue: Seq<PayloadWithLevel<T>>,
    fuel: nat,
) -> Option<Seq<RawTreeNode<T>>>
    decreases fuel,
{
    if queue.len() == 0 {
        Some(Seq::empty())
    } else if fuel == 0 {
        None
    } else {
        let head = queue[0];
        let children = getter.children(head.payload);
        let node = RawTreeNode {
            payload: head.payload,
            level: head.level,
            has_children: children.len() > 0,
        };
        let rest_queue = child_queue(children, head.level) + queue.drop_first();
        match expand_steps(getter, rest_queue, (fuel - 1) as nat) {
            Some(rest) => Some(seq![node] + rest),
            None => None,
        }
    }
}

/// A finite, acyclic hierarchy: some amount of fuel completes the expansion
/// of these roots.
pub open spec fn expansion_terminates<T, G: DirectChildrenGetter<T>>(
    getter: &G,
    roots: Seq<T>,
) -> bool {
    exists|fuel: nat| (#[trigger] expand_steps(getter, root_queue(roots), fuel)) is Some
}

/// Queue levels never go up along the queue; expansion keeps this shape, and
/// it is what makes the emitted sequence consistent.
pub open spec fn queue_levels_nonincreasing<T>(queue: Seq<PayloadWithLevel<T>>) -> bool {
    forall|i: int| 0 <= i < queue.len() - 1 ==> (#[trigger] queue[i + 1].level) <= queue[i].level
}

/// Whatever a complete expansion emits is consistent: every node with
/// children is followed directly by its first child one level deeper, every
/// node without children by a node no deeper, and the front of the queue is
/// emitted first, at its queued level.
pub proof fn lemma_expand_consistent<T, G: DirectChildrenGetter<T>>(
    getter: &G,
    queue: Seq<PayloadWithLevel<T>>,
    fuel: nat,
    out: Seq<RawTreeNode<T>>,
)
    requires
        expand_steps(getter, queue, fuel) == Some(out),
        queue_levels_nonincreasing(queue),
    ensures
        out.len() == 0 <==> queue.len() == 0,
        queue.len() > 0 ==> out.len() > 0 && out[0].level == queue[0].level && out[0].payload
            == queue[0].payload,
        raw_consistent(out),
    decreases fuel,
{
    if queue.len() == 0 {
    } else {
        let head = queue[0];
        let children = getter.children(head.payload);
        let node = RawTreeNode {
            payload: head.payload,
            level: head.level,
            has_children: children.len() > 0,
        };
        let rest_queue = child_queue(children, head.level) + queue.drop_first();
        let rest = expand_steps(getter, rest_queue, (fuel - 1) as nat)->Some_0;
        assert(out == seq![node] + rest);
        assert forall|i: int| 0 <= i < rest_queue.len() - 1 implies (#[trigger] rest_queue[i
            + 1].level) <= rest_queue[i].level by {
            if i + 1 < children.len() {
                assert(rest_queue[i].level == head.level.spec_increment());
                assert(rest_queue[i + 1].level == head.level.spec_increment());
            } else if i + 1 == children.len() {
                if i + 1 < rest_queue.len() {
                    assert(rest_queue[i + 1] == queue[1]);
                    assert(queue[0int + 1].level <= queue[0int].level);
                }
            } else {
                let k = i - children.len();
                assert(rest_queue[i] == queue[k + 1]);
                assert(rest_queue[i + 1] == queue[k + 2]);
                assert(queue[(k + 1) + 1].level <= queue[k + 1].level);
            }
        }
        lemma_expand_consistent(getter, rest_queue, (fuel - 1) as nat, rest);
        assert forall|i: int| 0 <= i < out.len() implies #[trigger] raw_pair_consistent(out, i) by {
            if i == 0 {
                if node.has_children {
                    assert(rest_queue.len() > 0);
                    assert(rest.len() > 0);
                    assert(out[1] == rest[0]);
                    assert(rest[0].level == rest_queue[0].level);
                    assert(rest_queue[0].level == head.level.spec_increment());
                    assert(head.level.spec_increment() as int == sat_inc(head.level as int));
                } else {
                    if out.len() > 1 {
                        assert(rest.len() > 0);
                        assert(rest_queue.len() > 0);
                        assert(rest_queue[0] == queue[1]);
                        assert(rest[0].level == queue[1].level);
                        assert(queue[0int + 1].level <= queue[0int].level);
                        assert(out[1].level <= out[0].level);
                    }
                }
            } else {
                assert(raw_pair_consistent(rest, i - 1));
                assert(out[i] == rest[i - 1]);
                if i + 1 < out.len() {
                    assert(out[i + 1] == rest[i]);
                }
            }
        }
    }
}

/// One expansion step, phrased over the spec machine: a completed run from
/// the stepped queue extends to a completed run from the original queue.
proof fn lemma_expand_unfold<T, G: DirectChildrenGetter<T>>(
    getter: &G,
    queue: Seq<PayloadWithLevel<T>>,
    fuel: nat,
)
    requires
        queue.len() > 0,
    ensures
        expand_steps(getter, queue, fuel + 1) == (match expand_steps(
            getter,
            child_queue(getter.children(queue[0].payload), queue[0].level) + queue.drop_first(),
            fuel,
        ) {
            Some(rest) => Some(
                seq![
                    RawTreeNode {
                        payload: queue[0].payload,
                        level: queue[0].level,
                        has_children: getter.children(queue[0].payload).len() > 0,
                    },
                ] + rest,
            ),
            None => None,
        }),
{
    reveal_with_fuel(expand_steps, 2);
}

/// Expand the hierarchy under the given roots into its pre-order raw-node
/// sequence. Each payload's children are looked up exactly once, when the
/// payload is emitted; children are pushed onto the front of the work queue
/// in reverse, so the first child is expanded next, giving depth-first,
/// left-to-right order without recursion.
#[verifier::rlimit(100)]
#[verifier::loop_isolation(false)]
pub fn get_sorted_raw_nodes_from_payloads<T, G: DirectChildrenGetter<T>>(
    root_payloads: Vec<T>,
    get_direct_children: G,
) -> (r: Vec<RawTreeNode<T>>)
    requires
        expansion_terminates(&get_direct_children, root_payloads@),
    ensures
        expand_steps(
            &get_direct_children,
            root_queue(root_payloads@),
            expansion_fuel(&get_direct_children, root_payloads@),
        ) == Some(r@),
        raw_consistent(r@),
        r@.len() == 0 <==> root_payloads@.len() == 0,
        r@.len() > 0 ==> r@[0].level == 0,
{
    let ghost roots = root_payloads@;
    let ghost q0 = root_queue(roots);
    let ghost total_fuel = expansion_fuel(&get_direct_children, roots);
    proof {
        assert(expand_steps(&get_direct_children, q0, total_fuel) is Some);
    }

    let mut root_payloads = root_payloads;
    let mut items_to_unwrap: VecDeque<PayloadWithLevel<T>> = VecDeque::new();
    while root_payloads.len() > 0
        invariant
            root_payloads@ == roots.subrange(0, root_payloads@.len() as int),
            root_payloads@.len() <= roots.len(),
            items_to_unwrap@.len() == roots.len() - root_payloads@.len(),
            forall|k: int|
                0 <= k < items_to_unwrap@.len() ==> (#[trigger] items_to_unwrap@[k]) == q0[
                    root_payloads@.len() + k],
        decreases root_payloads@.len(),
    {
        let payload = root_payloads.pop().unwrap();
        items_to_unwrap.push_front(PayloadWithLevel::new(payload));
        proof {
            assert(root_payloads@ =~= roots.subrange(0, root_payloads@.len() as int));
            let m = root_payloads@.len() as int;
            assert(payload == roots[m]);
            assert forall|k: int| 0 <= k < items_to_unwrap@.len() implies (
            #[trigger] items_to_unwrap@[k]) == q0[m + k] by {
                assert(q0[m + k] == (PayloadWithLevel { payload: roots[m + k], level: 0 }));
                if k == 0 {
                    assert(items_to_unwrap@[0].payload == roots[m]);
                    assert(items_to_unwrap@[0].level == 0);
                }
            }
        }
    }
    proof {
        assert(items_to_unwrap@ =~= q0);
    }

    let mut raw_nodes_result: Vec<RawTreeNode<T>> = Vec::new();
    let ghost mut iters: nat = 0;
    while items_to_unwrap.len() > 0
        invariant
            iters <= total_fuel,
            expand_steps(&get_direct_children, q0, total_fuel) is Some,
            total_fuel == expansion_fuel(&get_direct_children, roots),
            expand_steps(
                &get_direct_children,
                items_to_unwrap@,
                (total_fuel - iters) as nat,
            ) is Some,
            forall|f: nat|
                (#[trigger] expand_steps(&get_direct_children, items_to_unwrap@, f)) is Some
                    ==> expand_steps(&get_direct_children, q0, f + iters) == Some(
                    raw_nodes_result@ + expand_steps(
                        &get_direct_children,
                        items_to_unwrap@,
                        f,
                    )->Some_0,
                ),
        decreases total_fuel - iters,
    {
        let ghost queue0 = items_to_unwrap@;
        let ghost out0 = raw_nodes_result@;
        let ghost iters0 = iters;
        let current_item = items_to_unwrap.pop_front().unwrap();
        let mut children = get_direct_children.get_direct_children(&current_item.payload);
        let ghost children_seq = children@;
        let has_children = children.len() > 0;
        let current_level = current_item.level;

        raw_nodes_result.push(
            RawTreeNode::new(current_item.payload, current_level, has_children),
        );

        while children.len() > 0
            invariant
                children@ == children_seq.subrange(0, children@.len() as int),
                children@.len() <= children_seq.len(),
                items_to_unwrap@.len() == queue0.len() - 1 + children_seq.len() - children@.len(),
                forall|k: int|
                    0 <= k < children_seq.len() - children@.len() ==> (
                    #[trigger] items_to_unwrap@[k]) == child_queue(children_seq, current_level)[
                    children@.len() + k],
                forall|k: int|
                    children_seq.len() - children@.len() <= k < items_to_unwrap@.len() ==> (
                    #[trigger] items_to_unwrap@[k]) == queue0[k - (children_seq.len()
                        - children@.len()) + 1],
            decreases children@.len(),
        {
            let child = children.pop().unwrap();
            items_to_unwrap.push_front(PayloadWithLevel::new(child).with_level(
                current_level.increment(),
            ));
            proof {
                assert(children@ =~= children_seq.subrange(0, children@.len() as int));
                let m = children@.len() as int;
                assert(child == children_seq[m]);
                assert forall|k: int| 0 <= k < children_seq.len() - m implies (
                #[trigger] items_to_unwrap@[k]) == child_queue(children_seq, current_level)[m + k]
                    by {
                    assert(child_queue(children_seq, current_level)[m + k] == (PayloadWithLevel {
                        payload: children_seq[m + k],
                        level: current_level.spec_increment(),
                    }));
                    if k == 0 {
                        assert(items_to_unwrap@[0].payload == children_seq[m]);
                        assert(items_to_unwrap@[0].level == current_level.spec_increment());
                    }
                }
            }
        }

        proof {
            let step_queue = child_queue(children_seq, current_level) + queue0.drop_first();
            assert(items_to_unwrap@ =~= step_queue);
            let remaining = (total_fuel - iters) as nat;
            assert(remaining > 0) by {
                if remaining == 0 {
                    assert(expand_steps(&get_direct_children, queue0, 0) is None);
                }
            }
            lemma_expand_unfold(&get_direct_children, queue0, (remaining - 1) as nat);
            assert(expand_steps(&get_direct_children, step_queue, (remaining - 1) as nat) is Some);
            let node = RawTreeNode {
                payload: queue0[0].payload,
                level: queue0[0].level,
                has_children: get_direct_children.children(queue0[0].payload).len() > 0,
            };
            assert(raw_nodes_result@ == out0.push(node));
            assert forall|f: nat|
                (#[trigger] expand_steps(&get_direct_children, items_to_unwrap@, f)) is Some
                    implies expand_steps(&get_direct_children, q0, f + (iters0 + 1)) == Some(
                raw_nodes_result@ + expand_steps(&get_direct_children, items_to_unwrap@, f)->Some_0,
            ) by {
                let rest = expand_steps(&get_direct_children, items_to_unwrap@, f)->Some_0;
                lemma_expand_unfold(&get_direct_children, queue0, f);
                assert(expand_steps(&get_direct_children, queue0, f + 1) == Some(
                    seq![node] + rest,
                ));
                assert(expand_steps(&get_direct_children, q0, (f + 1) + iters0) == Some(
                    out0 + (seq![node] + rest),
                ));
                assert(out0 + (seq![node] + rest) =~= out0.push(node) + rest);
            }
            iters = iters0 + 1;
        }
    }
    proof {
        assert(expand_steps(&get_direct_children, items_to_unwrap@, 0) == Some(
            Seq::<RawTreeNode<T>>::empty(),
        ));
        assert(expand_steps(&get_direct_children, q0, 0 + iters) == Some(
            raw_nodes_result@ + Seq::<RawTreeNode<T>>::empty(),
        ));
        assert(raw_nodes_result@ + Seq::<RawTreeNode<T>>::empty() =~= raw_nodes_result@);
        assert(iters <= total_fuel);
        lemma_expand_fuel_monotone(&get_direct_children, q0, iters, total_fuel);
        assert forall|i: int| 0 <= i < q0.len() - 1 implies (#[trigger] q0[i + 1].level) <= q0[
            i].level by {
            assert(q0[i + 1].level == 0);
            assert(q0[i].level == 0);
        }
        lemma_expand_consistent(&get_direct_children, q0, total_fuel, raw_nodes_result@);
    }
    raw_nodes_result
}

/// Some fuel that completes the expansion of these roots; by fuel
/// monotonicity any such amount yields the same sequence.
pub open spec fn expansion_fuel<T, G: DirectChildrenGetter<T>>(getter: &G, roots: Seq<T>) -> nat {
    choose|fuel: nat| (#[trigger] expand_steps(getter, root_queue(roots), fuel)) is Some
}

/// More fuel never changes a completed expansion.
pub proof fn lemma_expand_fuel_monotone<T, G: DirectChildrenGetter<T>>(
    getter: &G,
    queue: Seq<PayloadWithLevel<T>>,
    fuel1: nat,
    fuel2: nat,
)
    requires
        expand_steps(getter, queue, fuel1) is Some,
        fuel1 <= fuel2,
    ensures
        expand_steps(getter, queue, fuel2) == expand_steps(getter, queue, fuel1),
    decreases fuel1,
{
    if queue.len() == 0 {
    } else {
        let rest_queue = child_queue(getter.children(queue[0].payload), queue[0].level)
            + queue.drop_first();
        lemma_expand_fuel_monotone(getter, rest_queue, (fuel1 - 1) as nat, (fuel2 - 1) as nat);
    }
}

} // verus!
