use nalgebra::Isometry3;
use vstd::prelude::*;

use crate::joint::{Joint, JointLimit, JointScalar};
use crate::node::{Node, NodeIDx};
use crate::Error;

verus! {

/// A serial or tree-shaped kinematic chain.
///
/// `DOF` is the number of movable joints, `JOINTS` the number of nodes
/// (the root node counts too).
#[derive(Debug)]
#[verifier::reject_recursive_types(T)]
pub struct Chain<const DOF: usize, const JOINTS: usize, T: JointScalar> {
    pub nodes: [Node<T>; JOINTS],
    movable_nodes: [NodeIDx; DOF],
}

impl<const DOF: usize, const JOINTS: usize, T: JointScalar> Chain<DOF, JOINTS, T> {
    /// The nodes of the chain, in storage order.
    pub closed spec fn node_seq(&self) -> Seq<Node<T>> {
        self.nodes@
    }

    /// The node index of each movable joint, in joint-vector order.
    pub closed spec fn movable(&self) -> Seq<NodeIDx> {
        self.movable_nodes@
    }

    /// The node array holds `JOINTS` nodes and the slot array `DOF` slots.
    pub proof fn lemma_sizes(&self)
        ensures
            self.node_seq().len() == JOINTS,
            self.movable().len() == DOF,
    {
    }

    /// Every movable index names a node of the chain.
    pub open spec fn wf(&self) -> bool {
        &&& self.node_seq().len() == JOINTS
        &&& self.movable().len() == DOF
        &&& forall|i: int| 0 <= i < DOF ==> (#[trigger] self.movable()[i]) < JOINTS
    }

    /// Every parent index names a node of the chain.
    pub open spec fn parents_in_range(&self) -> bool {
        forall|k: int|
            0 <= k < JOINTS && (#[trigger] self.node_seq()[k]).parent is Some
                ==> self.node_seq()[k].parent->0 < JOINTS
    }

    /// Every node's parent comes before it (topological order).
    pub open spec fn is_topological(&self) -> bool {
        forall|k: int|
            0 <= k < JOINTS && (#[trigger] self.node_seq()[k]).parent is Some
                ==> self.node_seq()[k].parent->0 < k
    }

    /// Whether every movable slot names a node of the chain.
    pub fn movable_in_range(&self) -> (r: bool)
        ensures
            r == self.wf(),
    {
        let mut i: usize = 0;
        while i < DOF
            invariant
                i <= DOF,
                self.movable().len() == DOF,
                self.node_seq().len() == JOINTS,
                forall|m: int| 0 <= m < i ==> (#[trigger] self.movable()[m]) < JOINTS,
            decreases DOF - i,
        {
            if self.movable_nodes[i] >= JOINTS {
                return false;
            }
            i += 1;
        }
        true
    }

    /// Whether every parent index names a node of the chain.
    pub fn parents_valid(&self) -> (r: bool)
        ensures
            r == self.parents_in_range(),
    {
        let mut k: usize = 0;
        while k < JOINTS
            invariant
                k <= JOINTS,
                self.node_seq().len() == JOINTS,
                forall|m: int|
                    0 <= m < k && (#[trigger] self.node_seq()[m]).parent is Some ==> self.node_seq()[m].parent->0 < JOINTS,
            decreases JOINTS - k,
        {
            match self.nodes[k].parent {
                Some(p) => {
                    if p >= JOINTS {
                        return false;
                    }
                },
                None => {},
            }
            k += 1;
        }
        true
    }

    /// Node `k`.
    pub fn node(&self, k: NodeIDx) -> (r: &Node<T>)
        requires
            k < JOINTS,
        ensures
            *r == self.node_seq()[k as int],
    {
        &self.nodes[k]
    }

    /// Every node with its index, in storage order.
    pub fn iter(&self) -> (r: Vec<(NodeIDx, &Node<T>)>)
        ensures
            r@.len() == JOINTS,
            forall|k: int| 0 <= k < JOINTS ==> (#[trigger] r@[k]).0 == k && *r@[k].1 == self.node_seq()[k],
    {
        let mut r: Vec<(NodeIDx, &Node<T>)> = Vec::new();
        let mut k: usize = 0;
        while k < JOINTS
            invariant
                k <= JOINTS,
                r@.len() == k,
                forall|m: int| 0 <= m < k ==> (#[trigger] r@[m]).0 == m && *r@[m].1 == self.node_seq()[m],
            decreases JOINTS - k,
        {
            r.push((k, &self.nodes[k]));
            k += 1;
        }
        r
    }

    /// Every movable joint as (slot, node index, node), in slot order.
    pub fn iter_movable(&self) -> (r: Vec<(usize, NodeIDx, &Node<T>)>)
        requires
            self.wf(),
        ensures
            r@.len() == DOF,
            forall|i: int|
                0 <= i < DOF ==> (#[trigger] r@[i]).0 == i && r@[i].1 == self.movable()[i]
                    && *r@[i].2 == self.node_seq()[self.movable()[i] as int],
    {
        let mut r: Vec<(usize, NodeIDx, &Node<T>)> = Vec::new();
        let mut i: usize = 0;
        while i < DOF
            invariant
                self.wf(),
                i <= DOF,
                r@.len() == i,
                forall|m: int|
                    0 <= m < i ==> (#[trigger] r@[m]).0 == m && r@[m].1 == self.movable()[m]
                        && *r@[m].2 == self.node_seq()[self.movable()[m] as int],
            decreases DOF - i,
        {
            let id = self.movable_nodes[i];
            r.push((i, id, &self.nodes[id]));
            i += 1;
        }
        r
    }

    /// A chain of the given nodes whose movable joints are the nodes that
    /// `movable_nodes` names, in slot order. Nodes must be stored in
    /// topological order (every parent before its children) for one forward
    /// pass of `update_transforms_with` to settle every pose.
    pub fn new(nodes: [Node<T>; JOINTS], movable_nodes: [NodeIDx; DOF]) -> (r: Self)
        ensures
            r.node_seq() == nodes@,
            r.movable() == movable_nodes@,
    {
        Chain { nodes, movable_nodes }
    }
}

/// No node is named by two movable slots.
pub open spec fn distinct_slots(movable: Seq<NodeIDx>) -> bool {
    forall|a: int, b: int|
        0 <= a < movable.len() && 0 <= b < movable.len() && a != b ==> movable[a] != movable[b]
}

proof fn lemma_scattered_at_slot<T>(current: T, movable: Seq<NodeIDx>, pos: Seq<T>, i: int, n: int)
    requires
        0 <= i < n <= movable.len(),
        distinct_slots(movable),
    ensures
        scattered_pos(current, movable, pos, movable[i] as int, n) == pos[i],
    decreases n,
{
    if i < n - 1 {
        assert(movable[n - 1] != movable[i]);
        lemma_scattered_at_slot(current, movable, pos, i, n - 1);
    }
}

proof fn lemma_scattered_at_last_slot<T>(current: T, movable: Seq<NodeIDx>, pos: Seq<T>, i: int, n: int)
    requires
        0 <= i < n <= movable.len(),
        forall|j: int| i < j < n ==> movable[j] != movable[i],
    ensures
        scattered_pos(current, movable, pos, movable[i] as int, n) == pos[i],
    decreases n,
{
    if i < n - 1 {
        lemma_scattered_at_last_slot(current, movable, pos, i, n - 1);
    }
}

proof fn lemma_scattered_untouched<T>(current: T, movable: Seq<NodeIDx>, pos: Seq<T>, k: int, n: int)
    requires
        n <= movable.len(),
        forall|i: int| 0 <= i < n ==> movable[i] != k,
    ensures
        scattered_pos(current, movable, pos, k, n) == current,
    decreases n,
{
    if n > 0 {
        lemma_scattered_untouched(current, movable, pos, k, n - 1);
    }
}

/// `node` with its joint position replaced by `p`.
pub open spec fn with_pos<T: JointScalar>(node: Node<T>, p: T) -> Node<T> {
    Node {
        parent: node.parent,
        joint: Joint {
            name: node.joint.name,
            joint_type: node.joint.joint_type,
            pos: p,
            limits: node.joint.limits,
            origin: node.joint.origin,
        },
        world_transform: node.world_transform,
    }
}

/// Position of node `k` after writing the first `n` slots of `pos` through
/// `movable`: the value of the last slot below `n` that names `k`, or
/// `current` where no such slot exists.
pub open spec fn scattered_pos<T>(current: T, movable: Seq<NodeIDx>, pos: Seq<T>, k: int, n: int) -> T
    decreases n,
{
    if n <= 0 {
        current
    } else if movable[n - 1] == k {
        pos[n - 1]
    } else {
        scattered_pos(current, movable, pos, k, n - 1)
    }
}

impl<const DOF: usize, const JOINTS: usize, T: JointScalar + Copy> Chain<DOF, JOINTS, T> {
    /// Joint position of every movable joint, in joint-vector order.
    pub open spec fn positions(&self) -> Seq<T> {
        Seq::new(DOF as nat, |i: int| self.node_seq()[self.movable()[i] as int].joint.pos)
    }

    /// Limits of every movable joint, in joint-vector order.
    pub open spec fn limits(&self) -> Seq<JointLimit<T>> {
        Seq::new(DOF as nat, |i: int| self.node_seq()[self.movable()[i] as int].joint.limits)
    }

    /// `after` is `self` with `pos` written through the movable slots, in
    /// slot order, and nothing else changed.
    pub open spec fn writes_positions(&self, after: &Self, pos: Seq<T>) -> bool {
        &&& after.movable() == self.movable()
        &&& after.node_seq().len() == self.node_seq().len()
        &&& forall|k: int|
            0 <= k < JOINTS ==> #[trigger] after.node_seq()[k] == with_pos(
                self.node_seq()[k],
                scattered_pos(self.node_seq()[k].joint.pos, self.movable(), pos, k, DOF as int),
            )
    }

    /// World transform of node `DOF + 1` (the tool node of a serial arm).
    pub fn end_transform(&self) -> (r: Isometry3<T>)
        requires
            DOF + 1 < JOINTS,
        ensures
            r == self.node_seq()[DOF + 1].world_transform,
    {
        self.nodes[DOF + 1].world_transform
    }

    /// Position of every movable joint, in slot order.
    pub fn joint_positions(&self) -> (r: Vec<T>)
        requires
            self.wf(),
        ensures
            r@ == self.positions(),
            r@.len() == DOF,
            forall|i: int| 0 <= i < DOF ==> #[trigger] r@[i] == self.node_seq()[self.movable()[i] as int].joint.pos,
    {
        let mut r: Vec<T> = Vec::new();
        let mut i: usize = 0;
        while i < DOF
            invariant
                self.wf(),
                i <= DOF,
                r@ == self.positions().take(i as int),
            decreases DOF - i,
        {
            let idx = self.movable_nodes[i];
            r.push(self.nodes[idx].joint.pos);
            i += 1;
        }
        r
    }

    /// Limits of every movable joint, in slot order.
    pub fn joint_limits(&self) -> (r: Vec<JointLimit<T>>)
        requires
            self.wf(),
        ensures
            r@ == self.limits(),
            r@.len() == DOF,
            forall|i: int| 0 <= i < DOF ==> #[trigger] r@[i] == self.node_seq()[self.movable()[i] as int].joint.limits,
    {
        let mut r: Vec<JointLimit<T>> = Vec::new();
        let mut i: usize = 0;
        while i < DOF
            invariant
                self.wf(),
                i <= DOF,
                r@ == self.limits().take(i as int),
            decreases DOF - i,
        {
            let idx = self.movable_nodes[i];
            r.push(self.nodes[idx].joint.limits);
            i += 1;
        }
        r
    }

    /// Writes `pos[i]` into the joint of movable node `i`; every other part
    /// of the chain is left as it was. Where two movable slots name the same
    /// node, the later slot wins.
    pub fn set_joint_positions(&mut self, pos: [T; DOF]) -> (r: Result<(), Error>)
        requires
            old(self).wf(),
        ensures
            r is Ok,
            final(self).wf(),
            old(self).writes_positions(final(self), pos@),
            final(self).movable() == old(self).movable(),
            forall|i: int|
                0 <= i < DOF && (forall|j: int| i < j < DOF ==> old(self).movable()[j] != old(self).movable()[i])
                    ==> (#[trigger] final(self).node_seq()[old(self).movable()[i] as int]).joint.pos == pos@[i],
            forall|k: int|
                0 <= k < JOINTS && (forall|i: int| 0 <= i < DOF ==> old(self).movable()[i] != k)
                    ==> #[trigger] final(self).node_seq()[k] == old(self).node_seq()[k],
            forall|k: int|
                0 <= k < JOINTS ==> {
                    &&& (#[trigger] final(self).node_seq()[k]).parent == old(self).node_seq()[k].parent
                    &&& final(self).node_seq()[k].joint.name == old(self).node_seq()[k].joint.name
                    &&& final(self).node_seq()[k].joint.joint_type == old(self).node_seq()[k].joint.joint_type
                    &&& final(self).node_seq()[k].joint.limits == old(self).node_seq()[k].joint.limits
                    &&& final(self).node_seq()[k].joint.origin == old(self).node_seq()[k].joint.origin
                    &&& final(self).node_seq()[k].world_transform == old(self).node_seq()[k].world_transform
                },
    {
        let ghost old_nodes = self.node_seq();
        let mut i: usize = 0;
        while i < DOF
            invariant
                self.wf(),
                i <= DOF,
                self.movable() == old(self).movable(),
                old_nodes == old(self).node_seq(),
                forall|k: int|
                    0 <= k < JOINTS ==> #[trigger] self.node_seq()[k] == with_pos(
                        old_nodes[k],
                        scattered_pos(old_nodes[k].joint.pos, self.movable(), pos@, k, i as int),
                    ),
            decreases DOF - i,
        {
            let idx = self.movable_nodes[i];
            self.nodes[idx].joint.pos = pos[i];
            i += 1;
        }
        proof {
            assert(self.node_seq().len() == JOINTS);
            let ghost before = *old(self);
            assert forall|i: int|
                0 <= i < DOF && (forall|j: int| i < j < DOF ==> old(self).movable()[j] != old(self).movable()[i])
                    implies (#[trigger] self.node_seq()[old(self).movable()[i] as int]).joint.pos == pos@[i] by {
                before.lemma_write_lands_in_named_node(self, pos@, i);
            }
            assert forall|k: int|
                0 <= k < JOINTS && (forall|i: int| 0 <= i < DOF ==> old(self).movable()[i] != k)
                    implies #[trigger] self.node_seq()[k] == old(self).node_seq()[k] by {
                before.lemma_write_touches_only_movable(self, pos@, k);
            }
        }
        Ok(())
    }

    /// A write of joint positions is read back unchanged, when no node is
    /// named by two movable slots.
    pub proof fn lemma_positions_read_back(&self, after: &Self, pos: Seq<T>)
        requires
            self.wf(),
            distinct_slots(self.movable()),
            pos.len() == DOF,
            self.writes_positions(after, pos),
        ensures
            after.positions() == pos,
    {
        assert forall|i: int| 0 <= i < DOF implies #[trigger] after.positions()[i] == pos[i] by {
            let k = self.movable()[i] as int;
            lemma_scattered_at_slot(self.node_seq()[k].joint.pos, self.movable(), pos, i, DOF as int);
            assert(after.node_seq()[k] == with_pos(
                self.node_seq()[k],
                scattered_pos(self.node_seq()[k].joint.pos, self.movable(), pos, k, DOF as int),
            ));
        }
        assert(after.positions() =~= pos);
    }

    /// A write of joint positions puts `pos[i]` into the node that slot `i`
    /// names, unless a later slot names the same node.
    pub proof fn lemma_write_lands_in_named_node(&self, after: &Self, pos: Seq<T>, i: int)
        requires
            self.wf(),
            self.writes_positions(after, pos),
            0 <= i < DOF,
            forall|j: int| i < j < DOF ==> self.movable()[j] != self.movable()[i],
        ensures
            after.node_seq()[self.movable()[i] as int].joint.pos == pos[i],
    {
        let k = self.movable()[i] as int;
        lemma_scattered_at_last_slot(self.node_seq()[k].joint.pos, self.movable(), pos, i, DOF as int);
        assert(after.node_seq()[k] == with_pos(
            self.node_seq()[k],
            scattered_pos(self.node_seq()[k].joint.pos, self.movable(), pos, k, DOF as int),
        ));
    }

    /// Joint positions read as the positions of the nodes the movable slots
    /// name, and limits as their limits.
    pub proof fn lemma_reads_are_node_fields(&self)
        ensures
            self.positions().len() == DOF,
            self.limits().len() == DOF,
            forall|i: int| 0 <= i < DOF ==> #[trigger] self.positions()[i] == self.node_seq()[self.movable()[i] as int].joint.pos,
            forall|i: int| 0 <= i < DOF ==> #[trigger] self.limits()[i] == self.node_seq()[self.movable()[i] as int].joint.limits,
    {
    }

    /// Writing positions leaves the positions of nodes that no movable slot
    /// names, and every other field of every node, as they were.
    pub proof fn lemma_write_touches_only_movable(&self, after: &Self, pos: Seq<T>, k: int)
        requires
            self.wf(),
            self.writes_positions(after, pos),
            0 <= k < JOINTS,
            forall|i: int| 0 <= i < DOF ==> self.movable()[i] != k,
        ensures
            after.node_seq()[k] == self.node_seq()[k],
    {
        lemma_scattered_untouched(self.node_seq()[k].joint.pos, self.movable(), pos, k, DOF as int);
    }

    /// The parent pose that the forward pass reads for node `k`: `identity`
    /// for a root; the parent's new pose where the parent was already
    /// visited; otherwise the pose it had before the pass.
    pub open spec fn pass_parent_pose(&self, after: &Self, identity: Isometry3<T>, k: int) -> Isometry3<T> {
        match self.node_seq()[k].parent {
            None => identity,
            Some(p) => if (p as int) < k {
                after.node_seq()[p as int].world_transform
            } else {
                self.node_seq()[p as int].world_transform
            },
        }
    }

    /// `after` is `self` after one forward pass in storage order: node `k`
    /// receives `step(parent pose, joint k)` and nothing but the world
    /// transforms changes.
    pub open spec fn forward_pass<F: Fn(&Isometry3<T>, &Joint<T>) -> Isometry3<T>>(
        &self,
        after: &Self,
        identity: Isometry3<T>,
        step: F,
    ) -> bool {
        &&& after.movable() == self.movable()
        &&& after.node_seq().len() == self.node_seq().len()
        &&& forall|k: int|
            0 <= k < JOINTS ==> {
                &&& (#[trigger] after.node_seq()[k]).parent == self.node_seq()[k].parent
                &&& after.node_seq()[k].joint == self.node_seq()[k].joint
                &&& step.ensures(
                    (&self.pass_parent_pose(after, identity, k), &self.node_seq()[k].joint),
                    after.node_seq()[k].world_transform,
                )
            }
    }

    /// Recomputes every world transform in one pass over the nodes in
    /// storage order. `step` composes a parent pose with a joint's local
    /// transform; `identity` is the pose that roots hang from.
    pub fn update_transforms_with<F: Fn(&Isometry3<T>, &Joint<T>) -> Isometry3<T>>(
        &mut self,
        identity: Isometry3<T>,
        step: F,
    )
        requires
            old(self).parents_in_range(),
            forall|w: &Isometry3<T>, j: &Joint<T>| #[trigger] step.requires((w, j)),
        ensures
            old(self).forward_pass(final(self), identity, step),
            final(self).movable() == old(self).movable(),
            forall|k: int|
                0 <= k < JOINTS ==> {
                    &&& (#[trigger] final(self).node_seq()[k]).parent == old(self).node_seq()[k].parent
                    &&& final(self).node_seq()[k].joint == old(self).node_seq()[k].joint
                    &&& old(self).node_seq()[k].parent is None ==> step.ensures(
                        (&identity, &old(self).node_seq()[k].joint),
                        final(self).node_seq()[k].world_transform,
                    )
                    &&& (old(self).node_seq()[k].parent is Some && old(self).node_seq()[k].parent->0 < k) ==> step.ensures(
                        (&final(self).node_seq()[old(self).node_seq()[k].parent->0 as int].world_transform, &old(self).node_seq()[k].joint),
                        final(self).node_seq()[k].world_transform,
                    )
                    &&& (old(self).node_seq()[k].parent is Some && old(self).node_seq()[k].parent->0 >= k) ==> step.ensures(
                        (&old(self).node_seq()[old(self).node_seq()[k].parent->0 as int].world_transform, &old(self).node_seq()[k].joint),
                        final(self).node_seq()[k].world_transform,
                    )
                },
            old(self).is_topological() ==> forall|k: int|
                0 <= k < JOINTS ==> step.ensures(
                    (&final(self).parent_pose(identity, k), &(#[trigger] final(self).node_seq()[k]).joint),
                    final(self).node_seq()[k].world_transform,
                ),
    {
        let ghost old_nodes = self.node_seq();
        let mut i: usize = 0;
        while i < JOINTS
            invariant
                self.node_seq().len() == JOINTS,
                i <= JOINTS,
                self.movable() == old(self).movable(),
                old_nodes == old(self).node_seq(),
                forall|w: &Isometry3<T>, j: &Joint<T>| #[trigger] step.requires((w, j)),
                forall|k: int| 0 <= k < JOINTS && (#[trigger] old_nodes[k]).parent is Some
                    ==> old_nodes[k].parent->0 < JOINTS,
                forall|k: int|
                    i <= k < JOINTS ==> #[trigger] self.node_seq()[k] == old_nodes[k],
                forall|k: int|
                    0 <= k < i ==> {
                        &&& (#[trigger] self.node_seq()[k]).parent == old_nodes[k].parent
                        &&& self.node_seq()[k].joint == old_nodes[k].joint
                        &&& step.ensures(
                            (&old(self).pass_parent_pose(self, identity, k), &old_nodes[k].joint),
                            self.node_seq()[k].world_transform,
                        )
                    },
            decreases JOINTS - i,
        {
            let parent_world = match self.nodes[i].parent {
                Some(p) => self.nodes[p].world_transform,
                None => identity,
            };
            let w = step(&parent_world, &self.nodes[i].joint);
            self.nodes[i].world_transform = w;
            i += 1;
        }
        proof {
            if old(self).is_topological() {
                old(self).lemma_topological_pass_is_complete(self, identity, step);
            }
        }
    }

    /// The pose node `k` hangs from, read from this chain alone.
    pub open spec fn parent_pose(&self, identity: Isometry3<T>, k: int) -> Isometry3<T> {
        match self.node_seq()[k].parent {
            None => identity,
            Some(p) => self.node_seq()[p as int].world_transform,
        }
    }

    /// In topological order one forward pass suffices: afterwards every
    /// node's pose is `step` applied to its parent's new pose and its joint.
    pub proof fn lemma_topological_pass_is_complete<F: Fn(&Isometry3<T>, &Joint<T>) -> Isometry3<T>>(
        &self,
        after: &Self,
        identity: Isometry3<T>,
        step: F,
    )
        requires
            self.is_topological(),
            self.forward_pass(after, identity, step),
        ensures
            after.is_topological(),
            forall|k: int|
                0 <= k < JOINTS ==> step.ensures(
                    (&after.parent_pose(identity, k), &(#[trigger] after.node_seq()[k]).joint),
                    after.node_seq()[k].world_transform,
                ),
    {
        assert forall|k: int|
            0 <= k < JOINTS implies step.ensures(
                (&after.parent_pose(identity, k), &(#[trigger] after.node_seq()[k]).joint),
                after.node_seq()[k].world_transform,
            ) by {
            assert(after.parent_pose(identity, k) == self.pass_parent_pose(after, identity, k));
        }
    }

    /// With a deterministic `step` and nodes in topological order, the poses
    /// that a forward pass computes depend only on parents and joints: two
    /// chains that differ only in their stale poses end up equal. Running
    /// the pass a second time therefore changes nothing.
    pub proof fn lemma_topological_pass_is_unique<F: Fn(&Isometry3<T>, &Joint<T>) -> Isometry3<T>>(
        &self,
        other: &Self,
        after: &Self,
        other_after: &Self,
        identity: Isometry3<T>,
        step: F,
    )
        requires
            self.is_topological(),
            self.movable() == other.movable(),
            self.node_seq().len() == other.node_seq().len(),
            forall|k: int|
                0 <= k < JOINTS ==> (#[trigger] self.node_seq()[k]).parent == other.node_seq()[k].parent
                    && self.node_seq()[k].joint == other.node_seq()[k].joint,
            forall|w: &Isometry3<T>, j: &Joint<T>, r1: Isometry3<T>, r2: Isometry3<T>|
                step.ensures((w, j), r1) && step.ensures((w, j), r2) ==> r1 == r2,
            self.forward_pass(after, identity, step),
            other.forward_pass(other_after, identity, step),
        ensures
            after.node_seq() == other_after.node_seq(),
            after.movable() == other_after.movable(),
    {
        self.lemma_pass_prefix_equal(other, after, other_after, identity, step, JOINTS as int);
        assert(after.node_seq() =~= other_after.node_seq());
    }

    /// With a deterministic `step` and nodes in topological order, a second
    /// forward pass leaves the chain exactly as the first one left it.
    pub proof fn lemma_second_pass_changes_nothing<F: Fn(&Isometry3<T>, &Joint<T>) -> Isometry3<T>>(
        &self,
        once: &Self,
        twice: &Self,
        identity: Isometry3<T>,
        step: F,
    )
        requires
            self.is_topological(),
            forall|w: &Isometry3<T>, j: &Joint<T>, r1: Isometry3<T>, r2: Isometry3<T>|
                step.ensures((w, j), r1) && step.ensures((w, j), r2) ==> r1 == r2,
            self.forward_pass(once, identity, step),
            once.forward_pass(twice, identity, step),
        ensures
            twice.node_seq() == once.node_seq(),
            twice.movable() == once.movable(),
    {
        self.lemma_topological_pass_is_unique(once, once, twice, identity, step);
    }

    proof fn lemma_pass_prefix_equal<F: Fn(&Isometry3<T>, &Joint<T>) -> Isometry3<T>>(
        &self,
        other: &Self,
        after: &Self,
        other_after: &Self,
        identity: Isometry3<T>,
        step: F,
        n: int,
    )
        requires
            0 <= n <= JOINTS,
            self.is_topological(),
            forall|k: int|
                0 <= k < JOINTS ==> (#[trigger] self.node_seq()[k]).parent == other.node_seq()[k].parent
                    && self.node_seq()[k].joint == other.node_seq()[k].joint,
            forall|w: &Isometry3<T>, j: &Joint<T>, r1: Isometry3<T>, r2: Isometry3<T>|
                step.ensures((w, j), r1) && step.ensures((w, j), r2) ==> r1 == r2,
            self.forward_pass(after, identity, step),
            other.forward_pass(other_after, identity, step),
        ensures
            forall|m: int| 0 <= m < n ==> #[trigger] after.node_seq()[m] == other_after.node_seq()[m],
        decreases n,
    {
        if n > 0 {
            self.lemma_pass_prefix_equal(other, after, other_after, identity, step, n - 1);
            let k = n - 1;
            assert(self.pass_parent_pose(after, identity, k) == other.pass_parent_pose(other_after, identity, k));
            assert(after.node_seq()[k] == other_after.node_seq()[k]);
        }
    }

    /// Writing joint positions leaves the joint limits as they were.
    pub proof fn lemma_write_keeps_limits(&self, after: &Self, pos: Seq<T>)
        requires
            self.wf(),
            self.writes_positions(after, pos),
        ensures
            after.wf(),
            after.limits() == self.limits(),
    {
        assert forall|i: int| 0 <= i < DOF implies #[trigger] after.limits()[i] == self.limits()[i] by {
            let k = self.movable()[i] as int;
            assert(after.node_seq()[k] == with_pos(
                self.node_seq()[k],
                scattered_pos(self.node_seq()[k].joint.pos, self.movable(), pos, k, DOF as int),
            ));
        }
        assert(after.limits() =~= self.limits());
    }

    /// A forward pass leaves joint positions and limits as they were.
    pub proof fn lemma_pass_keeps_joints<F: Fn(&Isometry3<T>, &Joint<T>) -> Isometry3<T>>(
        &self,
        after: &Self,
        identity: Isometry3<T>,
        step: F,
    )
        requires
            self.wf(),
            self.forward_pass(after, identity, step),
        ensures
            after.wf(),
            after.positions() == self.positions(),
            after.limits() == self.limits(),
    {
        assert forall|i: int| 0 <= i < DOF implies #[trigger] after.positions()[i] == self.positions()[i]
            && after.limits()[i] == self.limits()[i] by {
            let k = self.movable()[i] as int;
            assert(after.node_seq()[k].joint == self.node_seq()[k].joint);
        }
        assert(after.positions() =~= self.positions());
        assert(after.limits() =~= self.limits());
    }
}

} // verus!
