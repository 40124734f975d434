//! What a worklist search finds, and in which order.
//!
//! The engine takes the state at the front of its worklist. A complete state
//! is collected. Any other state is expanded: its complete children are
//! collected at once, the last child first, and the others go to the front
//! of the worklist, the first child foremost. The functions here say, for a
//! state or a worklist, which states that procedure collects, and count its
//! steps.

use crate::node::TraversalNode;
use vstd::prelude::*;

verus! {

/// The complete states among `children`, the last one first.
pub open spec fn leaves_last_first<N: TraversalNode<Q>, Q: View>(children: Seq<N::V>) -> Seq<N::V>
    decreases children.len(),
{
    if children.len() == 0 {
        Seq::empty()
    } else if N::leaf(children[0]) {
        leaves_last_first::<N, Q>(children.drop_first()).push(children[0])
    } else {
        leaves_last_first::<N, Q>(children.drop_first())
    }
}

/// The incomplete states among `children`, in their order.
pub open spec fn inner_nodes<N: TraversalNode<Q>, Q: View>(children: Seq<N::V>) -> Seq<N::V>
    decreases children.len(),
{
    if children.len() == 0 {
        Seq::empty()
    } else if N::leaf(children[0]) {
        inner_nodes::<N, Q>(children.drop_first())
    } else {
        seq![children[0]] + inner_nodes::<N, Q>(children.drop_first())
    }
}

/// The complete states that the search collects from the moment it takes `v`
/// off the worklist until it next takes a state that was behind `v`, in the
/// order in which it collects them.
pub open spec fn found_from<N: TraversalNode<Q>, Q: View>(v: N::V) -> Seq<N::V>
    decreases N::remaining(v), 1nat, 0nat,
{
    if N::leaf(v) {
        seq![v]
    } else {
        leaves_last_first::<N, Q>(N::expansion(v)) + found_within::<N, Q>(
            inner_nodes::<N, Q>(N::expansion(v)),
            N::remaining(v),
        )
    }
}

/// What the search collects from the states of `nodes` whose bound is below
/// `bound`, one state after the other. For the children of a state and that
/// state's bound this is `found_from_all`, see `lemma_found_within`.
pub open spec fn found_within<N: TraversalNode<Q>, Q: View>(nodes: Seq<N::V>, bound: nat) -> Seq<
    N::V,
>
    decreases bound, 0nat, nodes.len(),
{
    if nodes.len() == 0 {
        Seq::empty()
    } else if N::remaining(nodes[0]) < bound {
        found_from::<N, Q>(nodes[0]) + found_within::<N, Q>(nodes.drop_first(), bound)
    } else {
        found_within::<N, Q>(nodes.drop_first(), bound)
    }
}

/// What the search collects from a worklist: what it collects from the first
/// state, then from the second, and so on.
pub open spec fn found_from_all<N: TraversalNode<Q>, Q: View>(nodes: Seq<N::V>) -> Seq<N::V>
    decreases nodes.len(),
{
    if nodes.len() == 0 {
        Seq::empty()
    } else {
        found_from::<N, Q>(nodes[0]) + found_from_all::<N, Q>(nodes.drop_first())
    }
}

/// The number of states the search takes off the worklist from the moment
/// it takes `v` until it next takes a state that was behind `v`.
pub open spec fn steps_from<N: TraversalNode<Q>, Q: View>(v: N::V) -> nat
    decreases N::remaining(v), 1nat, 0nat,
{
    if N::leaf(v) {
        1
    } else {
        1 + steps_within::<N, Q>(inner_nodes::<N, Q>(N::expansion(v)), N::remaining(v))
    }
}

/// The steps of the states of `nodes` whose bound is below `bound`, added up.
pub open spec fn steps_within<N: TraversalNode<Q>, Q: View>(nodes: Seq<N::V>, bound: nat) -> nat
    decreases bound, 0nat, nodes.len(),
{
    if nodes.len() == 0 {
        0
    } else if N::remaining(nodes[0]) < bound {
        steps_from::<N, Q>(nodes[0]) + steps_within::<N, Q>(nodes.drop_first(), bound)
    } else {
        steps_within::<N, Q>(nodes.drop_first(), bound)
    }
}

/// The number of states the search takes off the worklist until a worklist
/// that starts as `nodes` is empty.
pub open spec fn steps_from_all<N: TraversalNode<Q>, Q: View>(nodes: Seq<N::V>) -> nat
    decreases nodes.len(),
{
    if nodes.len() == 0 {
        0
    } else {
        steps_from::<N, Q>(nodes[0]) + steps_from_all::<N, Q>(nodes.drop_first())
    }
}

/// The results of the collected states, in their order; a state without a
/// result adds nothing.
pub open spec fn results_of<N: TraversalNode<Q>, Q: View>(found: Seq<N::V>) -> Seq<Q::V>
    decreases found.len(),
{
    if found.len() == 0 {
        Seq::empty()
    } else {
        match N::result(found.last()) {
            Some(value) => results_of::<N, Q>(found.drop_last()).push(value),
            None => results_of::<N, Q>(found.drop_last()),
        }
    }
}

/// Every incomplete state among `children` is one of `children`.
pub proof fn lemma_inner_nodes_are_children<N: TraversalNode<Q>, Q: View>(
    children: Seq<N::V>,
    i: int,
) -> (j: int)
    requires
        0 <= i < inner_nodes::<N, Q>(children).len(),
    ensures
        0 <= j < children.len(),
        children[j] == inner_nodes::<N, Q>(children)[i],
        !N::leaf(children[j]),
    decreases children.len(),
{
    if N::leaf(children[0]) {
        lemma_inner_nodes_are_children::<N, Q>(children.drop_first(), i) + 1
    } else if i == 0 {
        0
    } else {
        lemma_inner_nodes_are_children::<N, Q>(children.drop_first(), i - 1) + 1
    }
}

/// Where every state of `nodes` has a bound below `bound`, the bound plays
/// no part in what is found or in the number of steps.
pub proof fn lemma_found_within<N: TraversalNode<Q>, Q: View>(nodes: Seq<N::V>, bound: nat)
    requires
        forall|i: int| 0 <= i < nodes.len() ==> N::remaining(#[trigger] nodes[i]) < bound,
    ensures
        found_within::<N, Q>(nodes, bound) == found_from_all::<N, Q>(nodes),
        steps_within::<N, Q>(nodes, bound) == steps_from_all::<N, Q>(nodes),
    decreases nodes.len(),
{
    if nodes.len() > 0 {
        assert(N::remaining(nodes[0]) < bound);
        assert forall|i: int| 0 <= i < nodes.drop_first().len() implies N::remaining(
            #[trigger] nodes.drop_first()[i],
        ) < bound by {
            assert(nodes.drop_first()[i] == nodes[i + 1]);
        }
        lemma_found_within::<N, Q>(nodes.drop_first(), bound);
    }
}

/// One step of the search on an incomplete state: its complete children are
/// collected, the last first, and then the search goes through the others in
/// their order.
pub proof fn lemma_found_from_inner<N: TraversalNode<Q>, Q: View>(v: N::V)
    requires
        !N::leaf(v),
    ensures
        found_from::<N, Q>(v) == leaves_last_first::<N, Q>(N::expansion(v)) + found_from_all::<
            N,
            Q,
        >(inner_nodes::<N, Q>(N::expansion(v))),
        steps_from::<N, Q>(v) == 1 + steps_from_all::<N, Q>(inner_nodes::<N, Q>(N::expansion(v))),
{
    let inner = inner_nodes::<N, Q>(N::expansion(v));
    assert forall|i: int| 0 <= i < inner.len() implies N::remaining(#[trigger] inner[i])
        < N::remaining(v) by {
        let j = lemma_inner_nodes_are_children::<N, Q>(N::expansion(v), i);
        N::lemma_expansion_descends(v, j);
    }
    lemma_found_within::<N, Q>(inner, N::remaining(v));
}

/// A worklist made of two parts is searched part by part.
pub proof fn lemma_found_from_all_concat<N: TraversalNode<Q>, Q: View>(
    front: Seq<N::V>,
    back: Seq<N::V>,
)
    ensures
        found_from_all::<N, Q>(front + back) == found_from_all::<N, Q>(front) + found_from_all::<
            N,
            Q,
        >(back),
        steps_from_all::<N, Q>(front + back) == steps_from_all::<N, Q>(front) + steps_from_all::<
            N,
            Q,
        >(back),
    decreases front.len(),
{
    if front.len() == 0 {
        assert(front + back =~= back);
    } else {
        assert((front + back).drop_first() =~= front.drop_first() + back);
        lemma_found_from_all_concat::<N, Q>(front.drop_first(), back);
        assert(found_from_all::<N, Q>(front + back) =~= found_from_all::<N, Q>(front)
            + found_from_all::<N, Q>(back));
    }
}

/// A value is in a concatenation when it is in one of the two parts.
proof fn lemma_concat_contains<A>(front: Seq<A>, back: Seq<A>, w: A)
    ensures
        (front + back).contains(w) <==> front.contains(w) || back.contains(w),
{
    let both = front + back;
    if both.contains(w) {
        let k = choose|k: int| 0 <= k < both.len() && both[k] == w;
        if k < front.len() {
            assert(front[k] == w);
        } else {
            assert(back[k - front.len()] == w);
        }
    }
    if front.contains(w) {
        let k = choose|k: int| 0 <= k < front.len() && front[k] == w;
        assert(both[k] == w);
    }
    if back.contains(w) {
        let k = choose|k: int| 0 <= k < back.len() && back[k] == w;
        assert(both[front.len() + k] == w);
    }
}

/// Every complete child is among the collected leaves.
pub proof fn lemma_leaf_child_is_collected<N: TraversalNode<Q>, Q: View>(
    children: Seq<N::V>,
    j: int,
)
    requires
        0 <= j < children.len(),
        N::leaf(children[j]),
    ensures
        leaves_last_first::<N, Q>(children).contains(children[j]),
    decreases children.len(),
{
    let rest = leaves_last_first::<N, Q>(children.drop_first());
    if j == 0 {
        assert(rest.push(children[0])[rest.len() as int] == children[0]);
    } else {
        lemma_leaf_child_is_collected::<N, Q>(children.drop_first(), j - 1);
        assert(children.drop_first()[j - 1] == children[j]);
        let k = choose|k: int| 0 <= k < rest.len() && rest[k] == children[j];
        if N::leaf(children[0]) {
            assert(rest.push(children[0])[k] == children[j]);
        }
    }
}

/// Every collected leaf is a complete child.
pub proof fn lemma_collected_is_leaf_child<N: TraversalNode<Q>, Q: View>(
    children: Seq<N::V>,
    w: N::V,
) -> (j: int)
    requires
        leaves_last_first::<N, Q>(children).contains(w),
    ensures
        0 <= j < children.len(),
        N::leaf(children[j]),
        children[j] == w,
    decreases children.len(),
{
    let all = leaves_last_first::<N, Q>(children);
    let rest = leaves_last_first::<N, Q>(children.drop_first());
    let k = choose|k: int| 0 <= k < all.len() && all[k] == w;
    if children.len() == 0 {
        0
    } else if N::leaf(children[0]) && k == rest.len() {
        0
    } else {
        assert(rest[k] == w);
        lemma_collected_is_leaf_child::<N, Q>(children.drop_first(), w) + 1
    }
}

/// Every incomplete child is among the inner nodes.
pub proof fn lemma_inner_child_is_kept<N: TraversalNode<Q>, Q: View>(
    children: Seq<N::V>,
    j: int,
) -> (i: int)
    requires
        0 <= j < children.len(),
        !N::leaf(children[j]),
    ensures
        0 <= i < inner_nodes::<N, Q>(children).len(),
        inner_nodes::<N, Q>(children)[i] == children[j],
    decreases children.len(),
{
    if j == 0 {
        0
    } else {
        let i = lemma_inner_child_is_kept::<N, Q>(children.drop_first(), j - 1);
        if N::leaf(children[0]) {
            i
        } else {
            i + 1
        }
    }
}

/// What is found from a worklist is found from one of its states.
pub proof fn lemma_found_from_all_origin<N: TraversalNode<Q>, Q: View>(
    nodes: Seq<N::V>,
    w: N::V,
) -> (i: int)
    requires
        found_from_all::<N, Q>(nodes).contains(w),
    ensures
        0 <= i < nodes.len(),
        found_from::<N, Q>(nodes[i]).contains(w),
    decreases nodes.len(),
{
    if nodes.len() == 0 {
        0
    } else {
        lemma_concat_contains(
            found_from::<N, Q>(nodes[0]),
            found_from_all::<N, Q>(nodes.drop_first()),
            w,
        );
        if found_from::<N, Q>(nodes[0]).contains(w) {
            0
        } else {
            lemma_found_from_all_origin::<N, Q>(nodes.drop_first(), w) + 1
        }
    }
}

/// What is found from a state of a worklist is found from the worklist.
pub proof fn lemma_found_from_all_holds<N: TraversalNode<Q>, Q: View>(
    nodes: Seq<N::V>,
    i: int,
    w: N::V,
)
    requires
        0 <= i < nodes.len(),
        found_from::<N, Q>(nodes[i]).contains(w),
    ensures
        found_from_all::<N, Q>(nodes).contains(w),
    decreases nodes.len(),
{
    lemma_concat_contains(
        found_from::<N, Q>(nodes[0]),
        found_from_all::<N, Q>(nodes.drop_first()),
        w,
    );
    if i > 0 {
        lemma_found_from_all_holds::<N, Q>(nodes.drop_first(), i - 1, w);
    }
}

/// What is found from an incomplete state is found from one of its children.
pub proof fn lemma_found_origin<N: TraversalNode<Q>, Q: View>(v: N::V, w: N::V) -> (i: int)
    requires
        !N::leaf(v),
        found_from::<N, Q>(v).contains(w),
    ensures
        0 <= i < N::expansion(v).len(),
        found_from::<N, Q>(N::expansion(v)[i]).contains(w),
{
    let children = N::expansion(v);
    let leaves = leaves_last_first::<N, Q>(children);
    let inner = inner_nodes::<N, Q>(children);
    lemma_found_from_inner::<N, Q>(v);
    lemma_concat_contains(leaves, found_from_all::<N, Q>(inner), w);
    if leaves.contains(w) {
        let j = lemma_collected_is_leaf_child::<N, Q>(children, w);
        assert(found_from::<N, Q>(children[j])[0] == w);
        j
    } else {
        let k = lemma_found_from_all_origin::<N, Q>(inner, w);
        lemma_inner_nodes_are_children::<N, Q>(children, k)
    }
}

/// What is found from a child of an incomplete state is found from that
/// state.
pub proof fn lemma_found_through<N: TraversalNode<Q>, Q: View>(v: N::V, i: int, w: N::V)
    requires
        !N::leaf(v),
        0 <= i < N::expansion(v).len(),
        found_from::<N, Q>(N::expansion(v)[i]).contains(w),
    ensures
        found_from::<N, Q>(v).contains(w),
{
    let children = N::expansion(v);
    let leaves = leaves_last_first::<N, Q>(children);
    let inner = inner_nodes::<N, Q>(children);
    lemma_found_from_inner::<N, Q>(v);
    lemma_concat_contains(leaves, found_from_all::<N, Q>(inner), w);
    if N::leaf(children[i]) {
        assert(w == children[i]);
        lemma_leaf_child_is_collected::<N, Q>(children, i);
    } else {
        let k = lemma_inner_child_is_kept::<N, Q>(children, i);
        lemma_found_from_all_holds::<N, Q>(inner, k, w);
    }
}

/// Where no child is complete, nothing is collected at once and every child
/// goes to the worklist.
pub proof fn lemma_children_all_inner<N: TraversalNode<Q>, Q: View>(children: Seq<N::V>)
    requires
        forall|i: int| 0 <= i < children.len() ==> !N::leaf(#[trigger] children[i]),
    ensures
        leaves_last_first::<N, Q>(children) == Seq::<N::V>::empty(),
        inner_nodes::<N, Q>(children) == children,
    decreases children.len(),
{
    if children.len() > 0 {
        let rest = children.drop_first();
        assert forall|i: int| 0 <= i < rest.len() implies !N::leaf(#[trigger] rest[i]) by {
            assert(rest[i] == children[i + 1]);
        }
        lemma_children_all_inner::<N, Q>(rest);
        assert(!N::leaf(children[0]));
        assert(seq![children[0]] + rest =~= children);
    }
}

/// Where every child is complete, each of them is collected at once and
/// none goes to the worklist.
pub proof fn lemma_children_all_leaves<N: TraversalNode<Q>, Q: View>(children: Seq<N::V>)
    requires
        forall|i: int| 0 <= i < children.len() ==> N::leaf(#[trigger] children[i]),
    ensures
        leaves_last_first::<N, Q>(children).len() == children.len(),
        inner_nodes::<N, Q>(children) == Seq::<N::V>::empty(),
    decreases children.len(),
{
    if children.len() > 0 {
        let rest = children.drop_first();
        assert forall|i: int| 0 <= i < rest.len() implies N::leaf(#[trigger] rest[i]) by {
            assert(rest[i] == children[i + 1]);
        }
        lemma_children_all_leaves::<N, Q>(rest);
        assert(N::leaf(children[0]));
    }
}

/// Only complete states are found.
pub proof fn lemma_found_is_leaf<N: TraversalNode<Q>, Q: View>(v: N::V, w: N::V)
    requires
        found_from::<N, Q>(v).contains(w),
    ensures
        N::leaf(w),
    decreases N::remaining(v),
{
    if !N::leaf(v) {
        let i = lemma_found_origin::<N, Q>(v, w);
        N::lemma_expansion_descends(v, i);
        lemma_found_is_leaf::<N, Q>(N::expansion(v)[i], w);
    }
}

} // verus!
