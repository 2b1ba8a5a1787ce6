//! An array-backed complete 4-ary tree.
//!
//! Node `i` has its children at `4i+1 ..= 4i+4` (up, down, left, right) and its
//! parent at `(i-1)/4`.  A slot holding `None` is empty; indices past the end of
//! the array count as empty as well.
use vstd::prelude::*;
use vstd::arithmetic::power::pow;

verus! {

/// Largest node array the tree operations accept; it keeps every child index and
/// every distance sum well inside `usize`.
pub open spec fn max_tree_len() -> int {
    0x1000_0000
}

/// The `k`-th child slot (0 = up, 1 = down, 2 = left, 3 = right) of `index`.
pub open spec fn child_at(index: int, k: int) -> int {
    4 * index + k + 1
}

/// The parent slot of a non-root `index`.
pub open spec fn parent_of(index: int) -> int {
    (index - 1) / 4
}

/// `i` is inside the array and holds a value.
pub open spec fn is_present<T>(nodes: Seq<Option<T>>, i: int) -> bool {
    0 <= i < nodes.len() && nodes[i] is Some
}

/// Distance from `i` to the end of an array of length `len`; 0 outside the array.
pub open spec fn span(len: nat, i: int) -> nat {
    if 0 <= i < len {
        (len - i) as nat
    } else {
        0
    }
}

/// Floor of the base-4 logarithm of `index` (0 for indices below 4).
pub open spec fn level_of(index: nat) -> nat
    decreases index,
{
    if index < 4 {
        0
    } else {
        1 + level_of(index / 4)
    }
}

/// `p` is removed together with `root`: it is `root` itself, or a present node
/// whose parent is removed as well.
pub open spec fn swept<T>(nodes: Seq<Option<T>>, root: int, p: int) -> bool
    decreases p,
{
    if p == root {
        true
    } else if p > root && p > 0 {
        is_present(nodes, p) && swept(nodes, root, parent_of(p))
    } else {
        false
    }
}

/// Tree edit distance between the subtree of `a` at `i` and the subtree of `b`
/// at `j`.  Two present nodes cost the sum of their four positional child
/// distances; a node facing an empty slot costs 1 plus its children against
/// that empty slot; two empty slots cost nothing.
pub open spec fn ted<T>(a: Seq<Option<T>>, b: Seq<Option<T>>, i: int, j: int) -> nat
    decreases span(a.len(), i) + span(b.len(), j),
{
    if is_present(a, i) && is_present(b, j) {
        ted(a, b, child_at(i, 0), child_at(j, 0)) + ted(a, b, child_at(i, 1), child_at(j, 1))
            + ted(a, b, child_at(i, 2), child_at(j, 2)) + ted(a, b, child_at(i, 3), child_at(j, 3))
    } else if is_present(a, i) {
        1 + ted(a, b, child_at(i, 0), j) + ted(a, b, child_at(i, 1), j) + ted(a, b, child_at(i, 2), j)
            + ted(a, b, child_at(i, 3), j)
    } else if is_present(b, j) {
        1 + ted(a, b, i, child_at(j, 0)) + ted(a, b, i, child_at(j, 1)) + ted(a, b, i, child_at(j, 2))
            + ted(a, b, i, child_at(j, 3))
    } else {
        0
    }
}

/// Number of present nodes reachable from `i` through present nodes.
pub open spec fn subtree_size<T>(t: Seq<Option<T>>, i: int) -> nat
    decreases span(t.len(), i),
{
    if is_present(t, i) {
        1 + subtree_size(t, child_at(i, 0)) + subtree_size(t, child_at(i, 1)) + subtree_size(
            t,
            child_at(i, 2),
        ) + subtree_size(t, child_at(i, 3))
    } else {
        0
    }
}

/// An upper bound on the number of slots below `i` in an array of length `len`.
pub open spec fn slot_cap(len: nat, i: int) -> nat
    decreases span(len, i),
{
    if 0 <= i < len {
        1 + 4 * slot_cap(len, child_at(i, 0))
    } else {
        0
    }
}

proof fn lemma_slot_cap_mono(len: nat, i: int, k: int)
    requires
        0 <= i <= k,
    ensures
        slot_cap(len, k) <= slot_cap(len, i),
    decreases span(len, i),
{
    if k < len {
        lemma_slot_cap_mono(len, child_at(i, 0), child_at(k, 0));
    }
}

proof fn lemma_slot_cap_bound(len: nat, i: int)
    requires
        0 <= i < len,
    ensures
        3 * slot_cap(len, i) * (3 * i + 1) + (3 * i + 1) <= 12 * len,
    decreases span(len, i),
{
    let c = child_at(i, 0);
    if c < len {
        lemma_slot_cap_bound(len, c);
        let s = slot_cap(len, c);
        assert(3 * slot_cap(len, i) * (3 * i + 1) + (3 * i + 1) == 3 * s * (3 * c + 1) + (3 * c
            + 1)) by (nonlinear_arith)
            requires
                slot_cap(len, i) == 1 + 4 * s,
                c == 4 * i + 1,
        ;
    } else {
        assert(slot_cap(len, c) == 0);
    }
}

proof fn lemma_size_le_cap<T>(t: Seq<Option<T>>, i: int)
    requires
        0 <= i,
    ensures
        subtree_size(t, i) <= slot_cap(t.len(), i),
    decreases span(t.len(), i),
{
    if is_present(t, i) {
        let c0 = child_at(i, 0);
        lemma_size_le_cap(t, c0);
        lemma_size_le_cap(t, child_at(i, 1));
        lemma_size_le_cap(t, child_at(i, 2));
        lemma_size_le_cap(t, child_at(i, 3));
        lemma_slot_cap_mono(t.len(), c0, child_at(i, 1));
        lemma_slot_cap_mono(t.len(), c0, child_at(i, 2));
        lemma_slot_cap_mono(t.len(), c0, child_at(i, 3));
        assert(subtree_size(t, child_at(i, 1)) <= slot_cap(t.len(), child_at(i, 0)));
        assert(subtree_size(t, child_at(i, 2)) <= slot_cap(t.len(), child_at(i, 0)));
        assert(subtree_size(t, child_at(i, 3)) <= slot_cap(t.len(), child_at(i, 0)));
    }
}

/// Every subtree of an array of length `len` holds fewer than `4 * len + 1` nodes.
proof fn lemma_size_bound<T>(t: Seq<Option<T>>, i: int)
    requires
        0 <= i,
    ensures
        subtree_size(t, i) <= 4 * t.len(),
{
    lemma_size_le_cap(t, i);
    lemma_slot_cap_mono(t.len(), 0, i);
    if t.len() > 0 {
        lemma_slot_cap_bound(t.len(), 0);
        assert(3 * slot_cap(t.len(), 0) * (3 * 0 + 1) == 3 * slot_cap(t.len(), 0));
    } else {
        assert(slot_cap(t.len(), 0) == 0);
    }
}

proof fn lemma_ted_le_sizes<T>(a: Seq<Option<T>>, b: Seq<Option<T>>, i: int, j: int)
    requires
        0 <= i,
        0 <= j,
    ensures
        ted(a, b, i, j) <= subtree_size(a, i) + subtree_size(b, j),
    decreases span(a.len(), i) + span(b.len(), j),
{
    if is_present(a, i) && is_present(b, j) {
        lemma_ted_le_sizes(a, b, child_at(i, 0), child_at(j, 0));
        lemma_ted_le_sizes(a, b, child_at(i, 1), child_at(j, 1));
        lemma_ted_le_sizes(a, b, child_at(i, 2), child_at(j, 2));
        lemma_ted_le_sizes(a, b, child_at(i, 3), child_at(j, 3));
    } else if is_present(a, i) {
        lemma_ted_le_sizes(a, b, child_at(i, 0), j);
        lemma_ted_le_sizes(a, b, child_at(i, 1), j);
        lemma_ted_le_sizes(a, b, child_at(i, 2), j);
        lemma_ted_le_sizes(a, b, child_at(i, 3), j);
    } else if is_present(b, j) {
        lemma_ted_le_sizes(a, b, i, child_at(j, 0));
        lemma_ted_le_sizes(a, b, i, child_at(j, 1));
        lemma_ted_le_sizes(a, b, i, child_at(j, 2));
        lemma_ted_le_sizes(a, b, i, child_at(j, 3));
    }
}

pub proof fn lemma_ted_bound<T>(a: Seq<Option<T>>, b: Seq<Option<T>>, i: int, j: int)
    requires
        0 <= i,
        0 <= j,
    ensures
        ted(a, b, i, j) <= 4 * a.len() + 4 * b.len(),
{
    lemma_ted_le_sizes(a, b, i, j);
    lemma_size_bound(a, i);
    lemma_size_bound(b, j);
}

/// A subtree is at distance zero from itself.
pub proof fn lemma_ted_self_zero<T>(a: Seq<Option<T>>, i: int)
    ensures
        ted(a, a, i, i) == 0,
    decreases span(a.len(), i),
{
    if is_present(a, i) {
        lemma_ted_self_zero(a, child_at(i, 0));
        lemma_ted_self_zero(a, child_at(i, 1));
        lemma_ted_self_zero(a, child_at(i, 2));
        lemma_ted_self_zero(a, child_at(i, 3));
    }
}

/// The distance does not depend on which subtree is taken first.
pub proof fn lemma_ted_symmetric<T>(a: Seq<Option<T>>, b: Seq<Option<T>>, i: int, j: int)
    ensures
        ted(a, b, i, j) == ted(b, a, j, i),
    decreases span(a.len(), i) + span(b.len(), j),
{
    if is_present(a, i) && is_present(b, j) {
        lemma_ted_symmetric(a, b, child_at(i, 0), child_at(j, 0));
        lemma_ted_symmetric(a, b, child_at(i, 1), child_at(j, 1));
        lemma_ted_symmetric(a, b, child_at(i, 2), child_at(j, 2));
        lemma_ted_symmetric(a, b, child_at(i, 3), child_at(j, 3));
    } else if is_present(a, i) {
        lemma_ted_symmetric(a, b, child_at(i, 0), j);
        lemma_ted_symmetric(a, b, child_at(i, 1), j);
        lemma_ted_symmetric(a, b, child_at(i, 2), j);
        lemma_ted_symmetric(a, b, child_at(i, 3), j);
    } else if is_present(b, j) {
        lemma_ted_symmetric(a, b, i, child_at(j, 0));
        lemma_ted_symmetric(a, b, i, child_at(j, 1));
        lemma_ted_symmetric(a, b, i, child_at(j, 2));
        lemma_ted_symmetric(a, b, i, child_at(j, 3));
    }
}

/// At least one of the four child slots of `i` is empty.
pub open spec fn has_empty_slot<T>(nodes: Seq<Option<T>>, i: int) -> bool {
    !is_present(nodes, child_at(i, 0)) || !is_present(nodes, child_at(i, 1)) || !is_present(
        nodes,
        child_at(i, 2),
    ) || !is_present(nodes, child_at(i, 3))
}

/// The present nodes of the subtree at `root` below `n`, in increasing order.
pub open spec fn subtree_prefix<T>(nodes: Seq<Option<T>>, root: int, n: int) -> Seq<usize>
    decreases n,
{
    if n <= 0 {
        seq![]
    } else {
        let s = subtree_prefix(nodes, root, n - 1);
        if is_present(nodes, root) && is_present(nodes, n - 1) && swept(nodes, root, n - 1) {
            s.push((n - 1) as usize)
        } else {
            s
        }
    }
}

/// A 4-ary tree stored in an array; see the module documentation for the layout.
pub struct QuadTree<T> {
    pub nodes: Vec<Option<T>>,
    pub max_depth: u32,
}

impl<T> QuadTree<T> {
    /// The node array is small enough for every index computation to fit.
    pub open spec fn wf(&self) -> bool {
        self.nodes@.len() <= max_tree_len()
    }

    /// An empty tree with `4^max_depth + 1` slots.
    pub fn new(max_depth: u32) -> (r: Self)
        requires
            pow(4, max_depth as nat) + 1 <= max_tree_len(),
        ensures
            r.wf(),
            r.max_depth == max_depth,
            r.nodes@.len() == pow(4, max_depth as nat) + 1,
            forall|i: int| 0 <= i < r.nodes@.len() ==> r.nodes@[i] is None,
    {
        let mut capacity: usize = 1;
        let mut d: u32 = 0;
        proof {
            reveal(pow);
        }
        while d < max_depth
            invariant
                d <= max_depth,
                capacity == pow(4, d as nat),
                pow(4, max_depth as nat) + 1 <= max_tree_len(),
            decreases max_depth - d,
        {
            proof {
                reveal(pow);
                assert(pow(4, (d + 1) as nat) == 4 * pow(4, d as nat));
                vstd::arithmetic::power::lemma_pow_increases(4, (d + 1) as nat, max_depth as nat);
            }
            capacity = capacity * 4;
            d = d + 1;
        }
        capacity = capacity + 1;
        let mut nodes: Vec<Option<T>> = Vec::new();
        let mut k: usize = 0;
        while k < capacity
            invariant
                k <= capacity,
                nodes@.len() == k,
                forall|i: int| 0 <= i < k ==> nodes@[i] is None,
            decreases capacity - k,
        {
            nodes.push(None);
            k = k + 1;
        }
        QuadTree { nodes, max_depth }
    }

    /// The parent slot of `index`; the root has none.
    pub fn parent(&self, index: usize) -> (r: Option<usize>)
        ensures
            index == 0 ==> r is None,
            index > 0 ==> r == Some(parent_of(index as int) as usize),
    {
        if index == 0 {
            None
        } else {
            Some((index - 1) / 4)
        }
    }

    /// The four child slots of `index`: up, down, left, right.
    pub fn children(&self, index: usize) -> (r: [usize; 4])
        requires
            4 * index + 4 <= usize::MAX,
        ensures
            forall|k: int| 0 <= k < 4 ==> r@[k] == child_at(index as int, k),
    {
        let base = 4 * index;
        [base + 1, base + 2, base + 3, base + 4]
    }

    /// The level of `index` counted in powers of four: the floor of its base-4
    /// logarithm, 0 for the root.
    pub fn depth(&self, index: usize) -> (r: u32)
        requires
            index <= max_tree_len(),
        ensures
            r == level_of(index as nat),
    {
        let mut n: usize = index;
        let mut level: u32 = 0;
        while n >= 4
            invariant
                level + level_of(n as nat) == level_of(index as nat),
                n <= index,
                level <= index - n,
                index <= max_tree_len(),
            decreases n,
        {
            n = n / 4;
            level = level + 1;
        }
        level
    }

    /// No child slot of `index` holds a node.
    pub fn is_leaf(&self, index: usize) -> (r: bool)
        requires
            4 * index + 4 <= usize::MAX,
        ensures
            r == (forall|k: int| 0 <= k < 4 ==> !is_present(self.nodes@, #[trigger] child_at(index as int, k))),
    {
        let children = self.children(index);
        let mut k: usize = 0;
        while k < 4
            invariant
                k <= 4,
                forall|m: int| 0 <= m < 4 ==> children@[m] == child_at(index as int, m),
                forall|m: int| 0 <= m < k ==> !is_present(self.nodes@, #[trigger] child_at(index as int, m)),
            decreases 4 - k,
        {
            let c = children[k];
            if c < self.nodes.len() && self.nodes[c].is_some() {
                assert(is_present(self.nodes@, child_at(index as int, k as int)));
                return false;
            }
            k = k + 1;
        }
        true
    }

    /// For every slot, whether it falls in the subtree removed together with `root`.
    fn sweep_marks(&self, root: usize) -> (m: Vec<bool>)
        ensures
            m@.len() == self.nodes@.len(),
            forall|q: int| 0 <= q < m@.len() ==> m@[q] == swept(self.nodes@, root as int, q),
    {
        let mut m: Vec<bool> = Vec::new();
        let mut p: usize = 0;
        while p < self.nodes.len()
            invariant
                p <= self.nodes@.len(),
                m@.len() == p,
                forall|q: int| 0 <= q < p ==> m@[q] == swept(self.nodes@, root as int, q),
            decreases self.nodes@.len() - p,
        {
            let mark = if p == root {
                true
            } else if p > root && p > 0 {
                self.nodes[p].is_some() && m[(p - 1) / 4]
            } else {
                false
            };
            m.push(mark);
            p = p + 1;
        }
        m
    }

    /// Empties `index` and every present node hanging below it.
    pub fn clean_subtree(&mut self, index: usize)
        requires
            index < old(self).nodes@.len(),
        ensures
            final(self).max_depth == old(self).max_depth,
            final(self).nodes@.len() == old(self).nodes@.len(),
            forall|p: int|
                0 <= p < old(self).nodes@.len() ==> final(self).nodes@[p] == if swept(
                    old(self).nodes@,
                    index as int,
                    p,
                ) {
                    None
                } else {
                    old(self).nodes@[p]
                },
    {
        self.clear_marked(index, true);
    }

    /// Empties every present node hanging below `index`, keeping `index` itself.
    pub fn clean_subtree_without_self(&mut self, index: usize)
        ensures
            final(self).max_depth == old(self).max_depth,
            final(self).nodes@.len() == old(self).nodes@.len(),
            forall|p: int|
                0 <= p < old(self).nodes@.len() ==> final(self).nodes@[p] == if p != index
                    && swept(old(self).nodes@, index as int, p) {
                    None
                } else {
                    old(self).nodes@[p]
                },
    {
        self.clear_marked(index, false);
    }

    fn clear_marked(&mut self, root: usize, with_root: bool)
        ensures
            final(self).max_depth == old(self).max_depth,
            final(self).nodes@.len() == old(self).nodes@.len(),
            forall|p: int|
                0 <= p < old(self).nodes@.len() ==> #[trigger] final(self).nodes@[p] == if (with_root || p
                    != root) && swept(old(self).nodes@, root as int, p) {
                    None
                } else {
                    old(self).nodes@[p]
                },
    {
        let marks = self.sweep_marks(root);
        let ghost before = self.nodes@;
        let mut p: usize = 0;
        while p < self.nodes.len()
            invariant
                self.max_depth == old(self).max_depth,
                before == old(self).nodes@,
                self.nodes@.len() == before.len(),
                marks@.len() == before.len(),
                p <= before.len(),
                forall|q: int| 0 <= q < marks@.len() ==> marks@[q] == swept(before, root as int, q),
                forall|q: int|
                    0 <= q < before.len() ==> #[trigger] self.nodes@[q] == if q < p && (with_root || q
                        != root) && swept(before, root as int, q) {
                        None
                    } else {
                        before[q]
                    },
            decreases before.len() - p,
        {
            if marks[p] && (with_root || p != root) {
                self.nodes.set(p, None);
            }
            p = p + 1;
        }
    }

    /// All four child slots of `index` hold a node.
    pub fn is_leaf_full(&self, index: usize) -> (r: bool)
        requires
            4 * index + 4 <= usize::MAX,
        ensures
            r == !has_empty_slot(self.nodes@, index as int),
    {
        let children = self.children(index);
        let mut k: usize = 0;
        while k < 4
            invariant
                k <= 4,
                forall|m: int| 0 <= m < 4 ==> children@[m] == child_at(index as int, m),
                forall|m: int| 0 <= m < k ==> is_present(self.nodes@, #[trigger] child_at(index as int, m)),
            decreases 4 - k,
        {
            let c = children[k];
            if !(c < self.nodes.len() && self.nodes[c].is_some()) {
                assert(!is_present(self.nodes@, child_at(index as int, k as int)));
                return false;
            }
            k = k + 1;
        }
        assert(is_present(self.nodes@, child_at(index as int, 0)));
        assert(is_present(self.nodes@, child_at(index as int, 1)));
        assert(is_present(self.nodes@, child_at(index as int, 2)));
        assert(is_present(self.nodes@, child_at(index as int, 3)));
        true
    }

    /// The present nodes of the subtree at `index`, in increasing order; empty when
    /// `index` holds no node.
    pub fn subtree_indices(&self, index: usize) -> (r: Vec<usize>)
        ensures
            r@ == subtree_prefix(self.nodes@, index as int, self.nodes@.len() as int),
    {
        let marks = self.sweep_marks(index);
        let root_here = index < self.nodes.len() && self.nodes[index].is_some();
        let mut result: Vec<usize> = Vec::new();
        let mut p: usize = 0;
        while p < self.nodes.len()
            invariant
                p <= self.nodes@.len(),
                marks@.len() == self.nodes@.len(),
                root_here == is_present(self.nodes@, index as int),
                forall|q: int| 0 <= q < marks@.len() ==> marks@[q] == swept(self.nodes@, index as int, q),
                result@ == subtree_prefix(self.nodes@, index as int, p as int),
            decreases self.nodes@.len() - p,
        {
            if root_here && self.nodes[p].is_some() && marks[p] {
                result.push(p);
            }
            p = p + 1;
        }
        result
    }

    /// The side (0 = up, 1 = down, 2 = left, 3 = right) on which a present
    /// non-root node hangs from its parent.
    pub fn child_direction(&self, index: usize) -> (r: Option<usize>)
        ensures
            r == if index == 0 || !is_present(self.nodes@, index as int) {
                None::<usize>
            } else {
                Some(((index - 1) % 4) as usize)
            },
    {
        if index == 0 || index >= self.nodes.len() || self.nodes[index].is_none() {
            None
        } else {
            Some((index - 1) % 4)
        }
    }

    /// `index` is a slot of the array that holds no node.
    pub fn is_empty(&self, index: usize) -> (r: bool)
        ensures
            r == (index < self.nodes@.len() && self.nodes@[index as int] is None),
    {
        index < self.nodes.len() && self.nodes[index].is_none()
    }

    /// Tree edit distance between this tree and `other`, from the two roots.
    pub fn tree_edit_distance(&self, other: &QuadTree<T>) -> (r: usize)
        requires
            self.wf(),
            other.wf(),
        ensures
            r == ted(self.nodes@, other.nodes@, 0, 0),
    {
        self.ted_at(other, 0, 0)
    }

    fn ted_at(&self, other: &QuadTree<T>, i: usize, j: usize) -> (r: usize)
        requires
            self.wf(),
            other.wf(),
        ensures
            r == ted(self.nodes@, other.nodes@, i as int, j as int),
        decreases span(self.nodes@.len(), i as int) + span(other.nodes@.len(), j as int),
    {
        let ghost a = self.nodes@;
        let ghost b = other.nodes@;
        proof {
            lemma_ted_bound(a, b, i as int, j as int);
        }
        let a_here = i < self.nodes.len() && self.nodes[i].is_some();
        let b_here = j < other.nodes.len() && other.nodes[j].is_some();
        if a_here && b_here {
            let r0 = self.ted_at(other, 4 * i + 1, 4 * j + 1);
            let r1 = self.ted_at(other, 4 * i + 2, 4 * j + 2);
            let r2 = self.ted_at(other, 4 * i + 3, 4 * j + 3);
            let r3 = self.ted_at(other, 4 * i + 4, 4 * j + 4);
            r0 + r1 + r2 + r3
        } else if a_here {
            let r0 = self.ted_at(other, 4 * i + 1, j);
            let r1 = self.ted_at(other, 4 * i + 2, j);
            let r2 = self.ted_at(other, 4 * i + 3, j);
            let r3 = self.ted_at(other, 4 * i + 4, j);
            1 + r0 + r1 + r2 + r3
        } else if b_here {
            let r0 = self.ted_at(other, i, 4 * j + 1);
            let r1 = self.ted_at(other, i, 4 * j + 2);
            let r2 = self.ted_at(other, i, 4 * j + 3);
            let r3 = self.ted_at(other, i, 4 * j + 4);
            1 + r0 + r1 + r2 + r3
        } else {
            0
        }
    }
}

} // verus!
