//! The genome of a blob: a quad tree of body-plan nodes.
//!
//! The geometry a node carries (size, joint limits, center) is a parameter `S`
//! of the genome; everything here works on the shape of the tree and on the
//! neural ids bound to its nodes.
use vstd::prelude::*;
use vstd::pervasive::VecAdditionalExecFns;
use crate::quad_tree::{child_at, has_empty_slot, is_present, level_of, subtree_prefix, QuadTree};

verus! {

/// Depth of the genome trees built by default.
pub const GENO_MAX_DEPTH: u32 = 3;

/// A single body-plan node and the neural network bound to it, if any.
pub struct GenoNode<S> {
    pub shape: S,
    pub nn_id: Option<usize>,
}

/// A slot of the genome tree: a body node, or the marker of the side that
/// leads back to the parent.
pub enum GenericGenoNode<S> {
    Parent,
    Child(GenoNode<S>),
}

/// Slot `i` holds a body node.
pub open spec fn is_child<S>(nodes: Seq<Option<GenericGenoNode<S>>>, i: int) -> bool {
    is_present(nodes, i) && nodes[i]->Some_0 is Child
}

/// Slot `i` holds the parent marker.
pub open spec fn is_parent_mark<S>(nodes: Seq<Option<GenericGenoNode<S>>>, i: int) -> bool {
    is_present(nodes, i) && nodes[i]->Some_0 is Parent
}

/// The body node in slot `i` (meaningful when `is_child(nodes, i)`).
pub open spec fn node_at<S>(nodes: Seq<Option<GenericGenoNode<S>>>, i: int) -> GenoNode<S> {
    nodes[i]->Some_0->Child_0
}

/// A body node other than the root none of whose child slots holds a body node.
pub open spec fn is_leaf_node<S>(nodes: Seq<Option<GenericGenoNode<S>>>, i: int) -> bool {
    1 <= i && is_child(nodes, i) && !is_child(nodes, child_at(i, 0)) && !is_child(
        nodes,
        child_at(i, 1),
    ) && !is_child(nodes, child_at(i, 2)) && !is_child(nodes, child_at(i, 3))
}

/// Leaf nodes below `n`, in increasing order.
pub open spec fn leaf_prefix<S>(nodes: Seq<Option<GenericGenoNode<S>>>, n: int) -> Seq<usize>
    decreases n,
{
    if n <= 0 {
        seq![]
    } else {
        let s = leaf_prefix(nodes, n - 1);
        if is_leaf_node(nodes, n - 1) {
            s.push((n - 1) as usize)
        } else {
            s
        }
    }
}

/// Body node `i` may grow a limb: it has an empty child slot and is not in the
/// last two levels of a tree of depth `max_depth`.
pub open spec fn is_branch_node<S>(nodes: Seq<Option<GenericGenoNode<S>>>, max_depth: nat, i: int) -> bool {
    is_child(nodes, i) && level_of(i as nat) + 1 < max_depth && has_empty_slot(nodes, i)
}

/// Branch nodes below `n`, in increasing order.
pub open spec fn branch_prefix<S>(nodes: Seq<Option<GenericGenoNode<S>>>, max_depth: nat, n: int) -> Seq<usize>
    decreases n,
{
    if n <= 0 {
        seq![]
    } else {
        let s = branch_prefix(nodes, max_depth, n - 1);
        if is_branch_node(nodes, max_depth, n - 1) {
            s.push((n - 1) as usize)
        } else {
            s
        }
    }
}

/// Slots below `n` that hold a body node, in increasing order.
pub open spec fn child_prefix<S>(nodes: Seq<Option<GenericGenoNode<S>>>, n: int) -> Seq<usize>
    decreases n,
{
    if n <= 0 {
        seq![]
    } else {
        let s = child_prefix(nodes, n - 1);
        if is_child(nodes, n - 1) {
            s.push((n - 1) as usize)
        } else {
            s
        }
    }
}

/// Every body node carries a neural id.
pub open spec fn all_bound<S>(nodes: Seq<Option<GenericGenoNode<S>>>) -> bool {
    forall|i: int| #[trigger] is_child(nodes, i) ==> node_at(nodes, i).nn_id is Some
}

/// The neural ids of the body nodes, in slot order.
pub open spec fn ids_of<S>(nodes: Seq<Option<GenericGenoNode<S>>>) -> Seq<usize> {
    child_prefix(nodes, nodes.len() as int).map_values(
        |i: usize| node_at(nodes, i as int).nn_id->Some_0,
    )
}

/// The morphology of a blob.
pub struct BlobGeno<S> {
    pub vec_tree: QuadTree<GenericGenoNode<S>>,
}

impl<S> BlobGeno<S> {
    pub open spec fn nodes(&self) -> Seq<Option<GenericGenoNode<S>>> {
        self.vec_tree.nodes@
    }

    pub open spec fn wf(&self) -> bool {
        self.vec_tree.wf()
    }

    /// An empty genome of the default depth.
    pub fn new() -> (r: Self)
        ensures
            r.wf(),
            r.vec_tree.max_depth == GENO_MAX_DEPTH,
            r.nodes().len() == 65,
            forall|i: int| 0 <= i < r.nodes().len() ==> r.nodes()[i] is None,
    {
        proof {
            vstd::arithmetic::power::lemma_pow_adds(4, 1, 2);
            vstd::arithmetic::power::lemma_pow_adds(4, 1, 1);
            vstd::arithmetic::power::lemma_pow1(4);
        }
        BlobGeno { vec_tree: QuadTree::new(GENO_MAX_DEPTH) }
    }

    /// The root body node, if the root slot holds one.
    pub fn get_first(&self) -> (r: Option<&GenoNode<S>>)
        ensures
            is_child(self.nodes(), 0) ==> r == Some(&node_at(self.nodes(), 0)),
            !is_child(self.nodes(), 0) ==> r is None,
    {
        if self.vec_tree.nodes.len() == 0 {
            return None;
        }
        match &self.vec_tree.nodes[0] {
            Some(GenericGenoNode::Child(node)) => Some(node),
            _ => None,
        }
    }

    /// Body nodes other than the root with no body node below them, in increasing
    /// order: the candidates for losing a limb.
    pub fn leaf_nodes(&self) -> (r: Vec<usize>)
        requires
            self.wf(),
        ensures
            r@ == leaf_prefix(self.nodes(), self.nodes().len() as int),
    {
        let mut result: Vec<usize> = Vec::new();
        if self.vec_tree.nodes.len() == 0 {
            return result;
        }
        let mut i: usize = 1;
        proof {
            assert(!is_leaf_node(self.nodes(), 0));
            assert(leaf_prefix(self.nodes(), 1) == leaf_prefix(self.nodes(), 0));
        }
        while i < self.vec_tree.nodes.len()
            invariant
                self.wf(),
                1 <= i <= self.nodes().len(),
                result@ == leaf_prefix(self.nodes(), i as int),
            decreases self.nodes().len() - i,
        {
            if self.is_child_slot(i) && !self.is_child_slot(4 * i + 1) && !self.is_child_slot(
                4 * i + 2,
            ) && !self.is_child_slot(4 * i + 3) && !self.is_child_slot(4 * i + 4) {
                result.push(i);
            }
            i = i + 1;
        }
        result
    }

    /// Body nodes that may grow a limb: with an empty child slot, above the last
    /// two levels.  Returned in increasing order.
    pub fn branch_nodes(&self) -> (r: Vec<usize>)
        requires
            self.wf(),
        ensures
            r@ == branch_prefix(self.nodes(), self.vec_tree.max_depth as nat, self.nodes().len() as int),
    {
        let mut result: Vec<usize> = Vec::new();
        let mut i: usize = 0;
        while i < self.vec_tree.nodes.len()
            invariant
                self.wf(),
                i <= self.nodes().len(),
                result@ == branch_prefix(self.nodes(), self.vec_tree.max_depth as nat, i as int),
            decreases self.nodes().len() - i,
        {
            if self.is_child_slot(i) && self.vec_tree.depth(i) < self.vec_tree.max_depth
                && self.vec_tree.depth(i) + 1 < self.vec_tree.max_depth && !self.vec_tree.is_leaf_full(i) {
                result.push(i);
            }
            i = i + 1;
        }
        result
    }

    /// Slot `i` holds a body node.
    pub fn is_child_slot(&self, i: usize) -> (r: bool)
        ensures
            r == is_child(self.nodes(), i as int),
    {
        if i < self.vec_tree.nodes.len() {
            match &self.vec_tree.nodes[i] {
                Some(GenericGenoNode::Child(_)) => true,
                _ => false,
            }
        } else {
            false
        }
    }

    /// Binds `id` to the root node unless it already carries an id.
    pub fn assign_nn_id_to_root(&mut self, id: usize)
        requires
            is_child(old(self).nodes(), 0),
        ensures
            final(self).vec_tree.max_depth == old(self).vec_tree.max_depth,
            node_at(old(self).nodes(), 0).nn_id is None ==> final(self).nodes() == old(
                self,
            ).nodes().update(
                0,
                Some(
                    GenericGenoNode::Child(
                        GenoNode { shape: node_at(old(self).nodes(), 0).shape, nn_id: Some(id) },
                    ),
                ),
            ),
            node_at(old(self).nodes(), 0).nn_id is Some ==> final(self).nodes() == old(
                self,
            ).nodes(),
    {
        if self.nn_id_at(0).is_none() {
            self.set_nn_id(0, id);
        }
    }

    /// The neural id of the body node in slot `i`.
    pub fn nn_id_at(&self, i: usize) -> (r: Option<usize>)
        requires
            is_child(self.nodes(), i as int),
        ensures
            r == node_at(self.nodes(), i as int).nn_id,
    {
        match &self.vec_tree.nodes[i] {
            Some(GenericGenoNode::Child(node)) => node.nn_id,
            _ => None,
        }
    }

    /// Binds the body node in slot `i` to neural id `id`.
    pub fn set_nn_id(&mut self, i: usize, id: usize)
        requires
            is_child(old(self).nodes(), i as int),
        ensures
            final(self).vec_tree.max_depth == old(self).vec_tree.max_depth,
            final(self).nodes() == old(self).nodes().update(
                i as int,
                Some(
                    GenericGenoNode::Child(
                        GenoNode { shape: node_at(old(self).nodes(), i as int).shape, nn_id: Some(id) },
                    ),
                ),
            ),
    {
        let mut slot: Option<GenericGenoNode<S>> = None;
        self.vec_tree.nodes.set_and_swap(i, &mut slot);
        match slot {
            Some(GenericGenoNode::Child(node)) => {
                let updated = GenoNode { shape: node.shape, nn_id: Some(id) };
                self.vec_tree.nodes.set(i, Some(GenericGenoNode::Child(updated)));
            },
            _ => {
                self.vec_tree.nodes.set(i, slot);
            },
        }
    }

    /// The neural ids of all body nodes, in slot order.
    pub fn all_usize_nn_ids(&self) -> (r: Vec<usize>)
        requires
            all_bound(self.nodes()),
        ensures
            r@ == ids_of(self.nodes()),
    {
        let indices = self.all_nn_ids_indices();
        let len = self.vec_tree.nodes.len();
        let mut result: Vec<usize> = Vec::new();
        let mut k: usize = 0;
        while k < indices.len()
            invariant
                all_bound(self.nodes()),
                len == self.nodes().len(),
                indices@ == child_prefix(self.nodes(), self.nodes().len() as int),
                k <= indices@.len(),
                result@ == indices@.take(k as int).map_values(
                    |i: usize| node_at(self.nodes(), i as int).nn_id->Some_0,
                ),
            decreases indices@.len() - k,
        {
            proof {
                lemma_child_prefix_members(self.nodes(), self.nodes().len() as int);
            }
            let id = self.nn_id_at(indices[k]);
            result.push(id.unwrap());
            proof {
                assert(indices@.take(k as int + 1) == indices@.take(k as int).push(indices@[k as int]));
            }
            k = k + 1;
        }
        proof {
            assert(indices@.take(indices@.len() as int) == indices@);
        }
        result
    }

    /// The slots that hold a body node, in increasing order.
    pub fn all_nn_ids_indices(&self) -> (r: Vec<usize>)
        ensures
            r@ == child_prefix(self.nodes(), self.nodes().len() as int),
    {
        let mut result: Vec<usize> = Vec::new();
        let mut i: usize = 0;
        while i < self.vec_tree.nodes.len()
            invariant
                i <= self.nodes().len(),
                result@ == child_prefix(self.nodes(), i as int),
            decreases self.nodes().len() - i,
        {
            if self.is_child_slot(i) {
                result.push(i);
            }
            i = i + 1;
        }
        result
    }
}

/// Every member of `child_prefix(nodes, n)` is a body slot below `n`, and the
/// members are strictly increasing.
pub proof fn lemma_child_prefix_members<S>(nodes: Seq<Option<GenericGenoNode<S>>>, n: int)
    requires
        n <= usize::MAX,
    ensures
        forall|k: int|
            0 <= k < child_prefix(nodes, n).len() ==> is_child(nodes, #[trigger] child_prefix(
                nodes,
                n,
            )[k] as int) && child_prefix(nodes, n)[k] < n,
        forall|k: int, m: int|
            0 <= k < m < child_prefix(nodes, n).len() ==> child_prefix(nodes, n)[k]
                < child_prefix(nodes, n)[m],
        forall|i: int| 0 <= i < n && is_child(nodes, i) ==> child_prefix(nodes, n).contains(i as usize),
    decreases n,
{
    if n > 0 {
        lemma_child_prefix_members(nodes, n - 1);
        let s = child_prefix(nodes, n - 1);
        let t = child_prefix(nodes, n);
        if is_child(nodes, n - 1) {
            assert(t == s.push((n - 1) as usize));
            assert forall|k: int| 0 <= k < t.len() implies is_child(nodes, #[trigger] t[k] as int)
                && t[k] < n by {
                if k < s.len() {
                    assert(t[k] == s[k]);
                }
            }
            assert forall|k: int, m: int| 0 <= k < m < t.len() implies t[k] < t[m] by {
                assert(t[k] == s[k]);
                if m < s.len() {
                    assert(t[m] == s[m]);
                }
            }
            assert forall|i: int| 0 <= i < n && is_child(nodes, i) implies t.contains(i as usize) by {
                if i < n - 1 {
                    assert(s.contains(i as usize));
                    let k = choose|k: int| 0 <= k < s.len() && s[k] == i as usize;
                    assert(t[k] == i as usize);
                } else {
                    assert(t[s.len() as int] == i as usize);
                }
            }
        } else {
            assert(t == s);
        }
    }
}

/// The sides to the left and to the right of `direction` (0 = up, 1 = down,
/// 2 = left, 3 = right) when facing it.
pub fn get_left_right_direction(direction: usize) -> (r: (usize, usize))
    requires
        direction < 4,
    ensures
        direction == 0 ==> r == (2usize, 3usize),
        direction == 1 ==> r == (3usize, 2usize),
        direction == 2 ==> r == (1usize, 0usize),
        direction == 3 ==> r == (0usize, 1usize),
{
    if direction == 0 {
        (2, 3)
    } else if direction == 1 {
        (3, 2)
    } else if direction == 2 {
        (1, 0)
    } else {
        (0, 1)
    }
}

/// `b` has the slots of `a`: the same empty slots and parent markers, and body
/// nodes with the same ids and cloned geometry.
pub open spec fn copied<S: Clone>(
    a: Seq<Option<GenericGenoNode<S>>>,
    b: Seq<Option<GenericGenoNode<S>>>,
) -> bool {
    &&& a.len() == b.len()
    &&& forall|i: int|
        0 <= i < a.len() ==> {
            &&& (#[trigger] b[i] is None) == (a[i] is None)
            &&& is_parent_mark(b, i) == is_parent_mark(a, i)
            &&& is_child(b, i) == is_child(a, i)
            &&& is_child(a, i) ==> node_at(b, i).nn_id == node_at(a, i).nn_id && cloned(
                node_at(a, i).shape,
                node_at(b, i).shape,
            )
        }
}

/// There are no more body nodes below `n` than slots.
pub proof fn lemma_child_prefix_len<S>(nodes: Seq<Option<GenericGenoNode<S>>>, n: int)
    requires
        0 <= n,
    ensures
        child_prefix(nodes, n).len() <= n,
    decreases n,
{
    if n > 0 {
        lemma_child_prefix_len(nodes, n - 1);
    }
}

impl<S: Clone> BlobGeno<S> {
    /// A copy of the genome with every node geometry cloned.
    pub fn duplicate(&self) -> (r: BlobGeno<S>)
        requires
            self.wf(),
        ensures
            r.wf(),
            r.vec_tree.max_depth == self.vec_tree.max_depth,
            copied(self.nodes(), r.nodes()),
    {
        let mut nodes: Vec<Option<GenericGenoNode<S>>> = Vec::new();
        let mut i: usize = 0;
        while i < self.vec_tree.nodes.len()
            invariant
                self.wf(),
                i <= self.nodes().len(),
                nodes@.len() == i,
                forall|k: int|
                    0 <= k < i ==> {
                        &&& (#[trigger] nodes@[k] is None) == (self.nodes()[k] is None)
                        &&& is_parent_mark(nodes@, k) == is_parent_mark(self.nodes(), k)
                        &&& is_child(nodes@, k) == is_child(self.nodes(), k)
                        &&& is_child(self.nodes(), k) ==> node_at(nodes@, k).nn_id == node_at(
                            self.nodes(),
                            k,
                        ).nn_id && cloned(node_at(self.nodes(), k).shape, node_at(nodes@, k).shape)
                    },
            decreases self.nodes().len() - i,
        {
            let slot = match &self.vec_tree.nodes[i] {
                None => None,
                Some(GenericGenoNode::Parent) => Some(GenericGenoNode::Parent),
                Some(GenericGenoNode::Child(node)) => Some(
                    GenericGenoNode::Child(GenoNode { shape: node.shape.clone(), nn_id: node.nn_id }),
                ),
            };
            nodes.push(slot);
            i = i + 1;
        }
        let tree = QuadTree { nodes, max_depth: self.vec_tree.max_depth };
        BlobGeno { vec_tree: tree }
    }
}

/// Every member of `leaf_prefix(nodes, n)` is a leaf node below `n`.
pub proof fn lemma_leaf_prefix_members<S>(nodes: Seq<Option<GenericGenoNode<S>>>, n: int)
    requires
        n <= usize::MAX,
    ensures
        forall|k: int|
            0 <= k < leaf_prefix(nodes, n).len() ==> is_leaf_node(nodes, #[trigger] leaf_prefix(nodes, n)[k] as int)
                && leaf_prefix(nodes, n)[k] < n,
    decreases n,
{
    if n > 0 {
        lemma_leaf_prefix_members(nodes, n - 1);
        let s = leaf_prefix(nodes, n - 1);
        let t = leaf_prefix(nodes, n);
        if is_leaf_node(nodes, n - 1) {
            assert(t == s.push((n - 1) as usize));
            assert forall|k: int| 0 <= k < t.len() implies is_leaf_node(nodes, #[trigger] t[k] as int) && t[k] < n by {
                if k < s.len() {
                    assert(t[k] == s[k]);
                }
            }
        }
    }
}

/// The side to the left of `direction` when facing it.
pub open spec fn left_of(direction: int) -> int {
    if direction == 0 {
        2
    } else if direction == 1 {
        3
    } else if direction == 2 {
        1
    } else {
        0
    }
}

/// The side to the right of `direction` when facing it.
pub open spec fn right_of(direction: int) -> int {
    if direction == 0 {
        3
    } else if direction == 1 {
        2
    } else if direction == 2 {
        0
    } else {
        1
    }
}

impl<S> BlobGeno<S> {
    /// The slots whose centers move when the size of the non-root node at
    /// `root_index` changes: its whole subtree moves one step forward (away from
    /// its parent), the subtree ahead of it one step more, and the subtrees on
    /// its left and right sideways.  Returned as (whole, ahead, left, right),
    /// each the present slots of that subtree in increasing order.
    pub fn move_subtree_groups(&self, root_index: usize) -> (r: (Vec<usize>, Vec<usize>, Vec<usize>, Vec<usize>))
        requires
            self.wf(),
            root_index != 0,
            is_present(self.nodes(), root_index as int),
        ensures
            ({
                let d = (root_index - 1) % 4;
                let n = self.nodes().len() as int;
                &&& r.0@ == subtree_prefix(self.nodes(), root_index as int, n)
                &&& r.1@ == subtree_prefix(self.nodes(), child_at(root_index as int, d), n)
                &&& r.2@ == subtree_prefix(self.nodes(), child_at(root_index as int, left_of(d)), n)
                &&& r.3@ == subtree_prefix(self.nodes(), child_at(root_index as int, right_of(d)), n)
            }),
    {
        let direction = (root_index - 1) % 4;
        let (l, rt) = get_left_right_direction(direction);
        let whole = self.vec_tree.subtree_indices(root_index);
        let ahead = self.vec_tree.subtree_indices(4 * root_index + direction + 1);
        let left = self.vec_tree.subtree_indices(4 * root_index + l + 1);
        let right = self.vec_tree.subtree_indices(4 * root_index + rt + 1);
        (whole, ahead, left, right)
    }
}

/// Number of parent markers among the child slots of `i`.
pub open spec fn mark_count<S>(nodes: Seq<Option<GenericGenoNode<S>>>, i: int) -> nat {
    (if is_parent_mark(nodes, child_at(i, 0)) {
        1nat
    } else {
        0nat
    }) + (if is_parent_mark(nodes, child_at(i, 1)) {
        1nat
    } else {
        0nat
    }) + (if is_parent_mark(nodes, child_at(i, 2)) {
        1nat
    } else {
        0nat
    }) + (if is_parent_mark(nodes, child_at(i, 3)) {
        1nat
    } else {
        0nat
    })
}

/// Some child slot of `i` holds a body node.
pub open spec fn is_branching<S>(nodes: Seq<Option<GenericGenoNode<S>>>, i: int) -> bool {
    is_child(nodes, child_at(i, 0)) || is_child(nodes, child_at(i, 1)) || is_child(nodes, child_at(i, 2))
        || is_child(nodes, child_at(i, 3))
}

/// Every body node other than the root that has a body node below it has
/// exactly one parent marker among its child slots.
pub open spec fn parent_marks_ok<S>(nodes: Seq<Option<GenericGenoNode<S>>>) -> bool {
    forall|i: int| 1 <= i && #[trigger] is_child(nodes, i) && is_branching(nodes, i) ==> mark_count(nodes, i) == 1
}

/// Every occupied slot other than the root hangs below a body node.
pub open spec fn orphan_free<S>(nodes: Seq<Option<GenericGenoNode<S>>>) -> bool {
    forall|i: int| 0 < i < nodes.len() && #[trigger] nodes[i] is Some ==> is_child(nodes, crate::quad_tree::parent_of(i))
}

/// Every body node other than the root whose child slots lie inside the array
/// has exactly one parent marker among them.
pub open spec fn marks_complete<S>(nodes: Seq<Option<GenericGenoNode<S>>>) -> bool {
    forall|i: int| 1 <= i && #[trigger] is_child(nodes, i) && child_at(i, 3) < nodes.len() ==> mark_count(nodes, i) == 1
}

/// The shape genomes keep: an array of `4m + 1` slots, no orphans, and a parent
/// marker below every non-root body node that has child slots.
pub open spec fn tree_shaped<S>(nodes: Seq<Option<GenericGenoNode<S>>>) -> bool {
    &&& nodes.len() % 4 == 1
    &&& orphan_free(nodes)
    &&& marks_complete(nodes)
}

/// In a well-shaped genome every branching body node other than the root has
/// exactly one parent marker.
pub proof fn lemma_tree_shaped_marks<S>(nodes: Seq<Option<GenericGenoNode<S>>>)
    requires
        tree_shaped(nodes),
    ensures
        parent_marks_ok(nodes),
{
    assert forall|i: int| 1 <= i && #[trigger] is_child(nodes, i) && is_branching(nodes, i) implies mark_count(nodes, i) == 1 by {
        assert(child_at(i, 0) < nodes.len());
        assert(child_at(i, 3) < nodes.len());
    }
}

} // verus!
