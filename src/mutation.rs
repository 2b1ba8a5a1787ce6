//! Structural mutation of genomes: gaining and losing limbs.
//!
//! The geometry of a new limb and the overlap check of a whole genome are
//! supplied by the caller; this module decides where limbs go and guarantees
//! that a gained limb is kept only when the caller's check accepts the result.
use vstd::prelude::*;
use vstd::pervasive::VecAdditionalExecFns;
use crate::chance::{random_below, random_ratio};
use crate::builder::opposite;
use crate::geno::{
    is_child, is_leaf_node, is_parent_mark, leaf_prefix, mark_count, node_at, tree_shaped, BlobGeno,
    GenoNode, GenericGenoNode,
};
use crate::quad_tree::{child_at, max_tree_len, parent_of, swept};

verus! {

/// Chance, as numerator and denominator, that a genome mutates its structure
/// at all in a generation.
pub const MUTATE_TREE_STRUCTURE_RATIO: [u32; 2] = [1, 20];

/// Chance that a structural mutation gains a limb rather than losing one.
pub const MUTATE_GAIN_LIMB_RATIO: [u32; 2] = [1, 2];

/// Attempts at placing a new limb before giving up.
pub const MUTATE_GAIN_LIMB_MAX_TRY: u32 = 10;

/// `a` with an unbound body node of geometry `s` in slot `c`, which hangs on
/// side `side` of its parent, and a parent marker in the slot of `c` that
/// faces back to that parent, when that slot is inside the array.
pub open spec fn with_limb<S>(a: Seq<Option<GenericGenoNode<S>>>, c: int, side: int, s: S) -> Seq<
    Option<GenericGenoNode<S>>,
> {
    let b = a.update(c, Some(GenericGenoNode::Child(GenoNode { shape: s, nn_id: None })));
    let back = child_at(c, opposite(side));
    if back < a.len() {
        b.update(back, Some(GenericGenoNode::Parent))
    } else {
        b
    }
}

/// `b` is `a` with a new limb of geometry `s` in the empty child slot `c` of
/// body node `idx`.
pub open spec fn gained_at<S>(
    a: Seq<Option<GenericGenoNode<S>>>,
    b: Seq<Option<GenericGenoNode<S>>>,
    idx: int,
    c: int,
    s: S,
) -> bool {
    &&& is_child(a, idx)
    &&& 0 <= c < a.len()
    &&& a[c] is None
    &&& exists|k: int| 0 <= k < 4 && c == child_at(idx, k) && b == with_limb(a, c, k, s)
}

/// `b` is `a` with the subtree at `idx` removed.
pub open spec fn lost_at<S>(a: Seq<Option<GenericGenoNode<S>>>, b: Seq<Option<GenericGenoNode<S>>>, idx: int) -> bool {
    &&& 0 <= idx < a.len()
    &&& b.len() == a.len()
    &&& forall|p: int|
        0 <= p < a.len() ==> #[trigger] b[p] == if swept(a, idx, p) {
            None
        } else {
            a[p]
        }
}

/// Removes the limb at `idx` together with everything hanging from it.
pub fn lose_limb<S>(geno: &mut BlobGeno<S>, idx: usize)
    requires
        idx < old(geno).nodes().len(),
    ensures
        final(geno).wf() == old(geno).wf(),
        final(geno).vec_tree.max_depth == old(geno).vec_tree.max_depth,
        lost_at(old(geno).nodes(), final(geno).nodes(), idx as int),
{
    geno.vec_tree.clean_subtree(idx);
}

/// Tries to grow a new limb below body node `idx`: picks one of its empty
/// child slots at random and tries it as `gain_limb_on` does.  Returns whether
/// the limb was kept; otherwise the genome is unchanged.
pub fn gain_limb<S, M, V>(geno: &mut BlobGeno<S>, idx: usize, make_node: &M, is_valid: &V) -> (r: bool) where
    M: Fn(&S, usize) -> S,
    V: Fn(&BlobGeno<S>) -> bool,

    requires
        old(geno).wf(),
        forall|p: &S, d: usize| make_node.requires((p, d)),
        forall|g: &BlobGeno<S>| is_valid.requires((g,)),
    ensures
        final(geno).wf(),
        final(geno).vec_tree.max_depth == old(geno).vec_tree.max_depth,
        !r ==> final(geno).nodes() == old(geno).nodes(),
        !(is_child(old(geno).nodes(), idx as int) && exists|k: int|
            0 <= k < 4 && child_at(idx as int, k) < old(geno).nodes().len() && old(geno).nodes()[child_at(
                idx as int,
                k,
            )] is None) ==> !r,
        is_child(old(geno).nodes(), idx as int) && (exists|k: int|
            0 <= k < 4 && child_at(idx as int, k) < old(geno).nodes().len() && old(geno).nodes()[child_at(
                idx as int,
                k,
            )] is None) ==> exists|k: int, s: S, g: BlobGeno<S>|
            0 <= k < 4 && child_at(idx as int, k) < old(geno).nodes().len() && old(geno).nodes()[child_at(
                idx as int,
                k,
            )] is None && make_node.ensures((&node_at(old(geno).nodes(), idx as int).shape, k as usize), s)
                && g.vec_tree.max_depth == old(geno).vec_tree.max_depth && g.nodes() == with_limb(
                old(geno).nodes(),
                child_at(idx as int, k),
                k,
                s,
            ) && is_valid.ensures((&g,), r) && (r ==> *final(geno) == g),
        r ==> is_valid.ensures((&*final(geno),), true) && exists|c: int, s: S| gained_at(
            old(geno).nodes(),
            final(geno).nodes(),
            idx as int,
            c,
            s,
        ),
{
    let len = geno.vec_tree.nodes.len();
    if idx >= len || !geno.is_child_slot(idx) {
        return false;
    }
    // empty child slots, with their side
    let mut slots: Vec<usize> = Vec::new();
    let mut k: usize = 0;
    while k < 4
        invariant
            len == geno.nodes().len(),
            len <= max_tree_len(),
            idx < len,
            k <= 4,
            forall|j: int|
                0 <= j < slots@.len() ==> #[trigger] slots@[j] < 4 && child_at(idx as int, slots@[j] as int)
                    < len && geno.nodes()[child_at(idx as int, slots@[j] as int)] is None,
            forall|j: int|
                0 <= j < k && child_at(idx as int, j) < len && geno.nodes()[child_at(idx as int, j)] is None
                    ==> slots@.len() > 0,
        decreases 4 - k,
    {
        let c = 4 * idx + k + 1;
        if c < len && geno.vec_tree.nodes[c].is_none() {
            slots.push(k);
        }
        k = k + 1;
    }
    if slots.len() == 0 {
        return false;
    }
    let pick = random_below(slots.len());
    let side = slots[pick];
    let r = gain_limb_on(geno, idx, side, make_node, is_valid);
    proof {
        assert(child_at(idx as int, side as int) < len);
    }
    r
}

/// Tries to grow a new limb on side `side` of body node `idx`: when `idx` holds
/// a body node and that child slot is an empty slot of the array, places there
/// an unbound node shaped by `make_node` (given the parent geometry and the
/// side), with a parent marker in its slot facing back, and keeps the change
/// exactly when `is_valid` accepts the resulting genome.  Returns whether the
/// limb was kept; otherwise the genome is unchanged.
pub fn gain_limb_on<S, M, V>(geno: &mut BlobGeno<S>, idx: usize, side: usize, make_node: &M, is_valid: &V) -> (r: bool) where
    M: Fn(&S, usize) -> S,
    V: Fn(&BlobGeno<S>) -> bool,

    requires
        old(geno).wf(),
        side < 4,
        forall|p: &S, d: usize| make_node.requires((p, d)),
        forall|g: &BlobGeno<S>| is_valid.requires((g,)),
    ensures
        final(geno).wf(),
        final(geno).vec_tree.max_depth == old(geno).vec_tree.max_depth,
        !r ==> final(geno).nodes() == old(geno).nodes(),
        ({
            let c = child_at(idx as int, side as int);
            let placeable = is_child(old(geno).nodes(), idx as int) && c < old(geno).nodes().len()
                && old(geno).nodes()[c] is None;
            &&& !placeable ==> !r
            &&& placeable ==> exists|s: S, g: BlobGeno<S>|
                make_node.ensures((&node_at(old(geno).nodes(), idx as int).shape, side), s) && g.vec_tree.max_depth
                    == old(geno).vec_tree.max_depth && g.nodes() == with_limb(old(geno).nodes(), c, side as int, s)
                    && is_valid.ensures((&g,), r) && (r ==> *final(geno) == g)
        }),
        r ==> is_valid.ensures((&*final(geno),), true) && exists|c: int, s: S| gained_at(
            old(geno).nodes(),
            final(geno).nodes(),
            idx as int,
            c,
            s,
        ),
{
    let len = geno.vec_tree.nodes.len();
    if idx >= len || !geno.is_child_slot(idx) {
        return false;
    }
    let c = 4 * idx + side + 1;
    if c >= len || geno.vec_tree.nodes[c].is_some() {
        return false;
    }
    let shape = match &geno.vec_tree.nodes[idx] {
        Some(GenericGenoNode::Child(parent)) => make_node(&parent.shape, side),
        _ => {
            return false;
        },
    };
    let ghost before = geno.nodes();
    let ghost s = shape;
    let back_side: usize = if side == 0 {
        1
    } else if side == 1 {
        0
    } else if side == 2 {
        3
    } else {
        2
    };
    let back = 4 * c + back_side + 1;
    geno.vec_tree.nodes.set(c, Some(GenericGenoNode::Child(GenoNode { shape, nn_id: None })));
    let mut saved: Option<GenericGenoNode<S>> = Some(GenericGenoNode::Parent);
    if back < len {
        geno.vec_tree.nodes.set_and_swap(back, &mut saved);
    }
    proof {
        assert(geno.nodes() =~= with_limb(before, c as int, side as int, s));
        assert(gained_at(before, geno.nodes(), idx as int, c as int, s));
    }
    let valid = is_valid(&*geno);
    if valid {
        true
    } else {
        if back < len {
            geno.vec_tree.nodes.set_and_swap(back, &mut saved);
        }
        geno.vec_tree.nodes.set(c, None);
        assert(geno.nodes() =~= before);
        false
    }
}

/// Applies a change to a copy of the genome made by `change` and commits it
/// only if `is_valid` accepts the result; otherwise the genome stays as it
/// was, so no part of a rejected change is ever kept.  Returns whether the
/// change was committed.
pub fn commit_if_valid<S, C, V>(geno: &mut BlobGeno<S>, change: &C, is_valid: &V) -> (r: bool) where
    C: Fn(&BlobGeno<S>) -> BlobGeno<S>,
    V: Fn(&BlobGeno<S>) -> bool,

    requires
        forall|g: &BlobGeno<S>| change.requires((g,)),
        forall|g: &BlobGeno<S>| is_valid.requires((g,)),
    ensures
        exists|c: BlobGeno<S>|
            change.ensures((&*old(geno),), c) && is_valid.ensures((&c,), r) && (r ==> *final(geno) == c),
        !r ==> *final(geno) == *old(geno),
        r ==> is_valid.ensures((&*final(geno),), true),
{
    let candidate = change(&*geno);
    if is_valid(&candidate) {
        *geno = candidate;
        true
    } else {
        false
    }
}

/// One structural mutation step: with a small chance the genome either gains a
/// limb (below a random branch node, retried a bounded number of times until
/// `is_valid` accepts one) or loses a random leaf limb, never when it has fewer
/// than two leaves.  The genome ends unchanged, or with one accepted limb
/// gained, or with one leaf subtree removed; a well-shaped genome stays so.
pub fn mutate_tree_structure<S, M, V>(geno: &mut BlobGeno<S>, make_node: &M, is_valid: &V) where
    M: Fn(&S, usize) -> S,
    V: Fn(&BlobGeno<S>) -> bool,

    requires
        old(geno).wf(),
        forall|p: &S, d: usize| make_node.requires((p, d)),
        forall|g: &BlobGeno<S>| is_valid.requires((g,)),
    ensures
        final(geno).wf(),
        final(geno).vec_tree.max_depth == old(geno).vec_tree.max_depth,
        final(geno).nodes() == old(geno).nodes() || (is_valid.ensures((&*final(geno),), true)
            && exists|idx: int, c: int, s: S| gained_at(old(geno).nodes(), final(geno).nodes(), idx, c, s))
            || (leaf_prefix(old(geno).nodes(), old(geno).nodes().len() as int).len() >= 2 && exists|idx: int|
            is_leaf_node(old(geno).nodes(), idx) && lost_at(old(geno).nodes(), final(geno).nodes(), idx)),
        tree_shaped(old(geno).nodes()) ==> tree_shaped(final(geno).nodes()),
{
    let ghost before = geno.nodes();
    if !random_ratio(MUTATE_TREE_STRUCTURE_RATIO[0], MUTATE_TREE_STRUCTURE_RATIO[1]) {
        return ;
    }
    if random_ratio(MUTATE_GAIN_LIMB_RATIO[0], MUTATE_GAIN_LIMB_RATIO[1]) {
        let mut candidates = geno.branch_nodes();
        if candidates.len() == 0 {
            candidates.push(0);
        }
        let mut attempt: u32 = 0;
        while attempt < MUTATE_GAIN_LIMB_MAX_TRY
            invariant
                geno.wf(),
                geno.vec_tree.max_depth == old(geno).vec_tree.max_depth,
                geno.nodes() == old(geno).nodes(),
                before == old(geno).nodes(),
                candidates@.len() > 0,
                forall|p: &S, d: usize| make_node.requires((p, d)),
                forall|g: &BlobGeno<S>| is_valid.requires((g,)),
            decreases MUTATE_GAIN_LIMB_MAX_TRY - attempt,
        {
            let idx = candidates[random_below(candidates.len())];
            if gain_limb(geno, idx, make_node, is_valid) {
                proof {
                    let (c, s) = choose|c: int, s: S| gained_at(before, geno.nodes(), idx as int, c, s);
                    if tree_shaped(before) {
                        lemma_gain_keeps_shape(before, geno.nodes(), idx as int, c, s);
                    }
                }
                return ;
            }
            attempt = attempt + 1;
        }
    } else {
        let candidates = geno.leaf_nodes();
        if candidates.len() <= 1 {
            return ;
        }
        let idx = candidates[random_below(candidates.len())];
        proof {
            crate::geno::lemma_leaf_prefix_members(geno.nodes(), geno.nodes().len() as int);
        }
        lose_limb(geno, idx);
        proof {
            if tree_shaped(before) {
                lemma_lose_keeps_shape(before, geno.nodes(), idx as int);
            }
        }
    }
}

proof fn lemma_parent_of_child(i: int, k: int)
    requires
        0 <= i,
        0 <= k < 4,
    ensures
        parent_of(child_at(i, k)) == i,
        child_at(i, k) > i,
{
}

/// Losing a leaf limb keeps a genome well shaped.
pub proof fn lemma_lose_keeps_shape<S>(a: Seq<Option<GenericGenoNode<S>>>, b: Seq<Option<GenericGenoNode<S>>>, idx: int)
    requires
        tree_shaped(a),
        is_leaf_node(a, idx),
        lost_at(a, b, idx),
    ensures
        tree_shaped(b),
{
    assert forall|i: int| 0 < i < b.len() && #[trigger] b[i] is Some implies is_child(b, parent_of(i)) by {
        assert(!swept(a, idx, i));
        assert(b[i] == a[i]);
        let p = parent_of(i);
        assert(is_child(a, p));
        if swept(a, idx, p) {
            assert(p >= idx);
            assert(swept(a, idx, i));
        }
        assert(b[p] == a[p]);
    }
    assert forall|i: int| 1 <= i && #[trigger] is_child(b, i) && child_at(i, 3) < b.len() implies mark_count(b, i) == 1 by {
        assert(!swept(a, idx, i));
        assert(b[i] == a[i]);
        assert(is_child(a, i));
        assert forall|k: int| 0 <= k < 4 implies #[trigger] is_parent_mark(b, child_at(i, k)) == is_parent_mark(
            a,
            child_at(i, k),
        ) by {
            lemma_parent_of_child(i, k);
            let j = child_at(i, k);
            if j != idx {
                assert(!swept(a, idx, j));
            }
        }
    }
}

/// Gaining a limb keeps a genome well shaped.
pub proof fn lemma_gain_keeps_shape<S>(
    a: Seq<Option<GenericGenoNode<S>>>,
    b: Seq<Option<GenericGenoNode<S>>>,
    idx: int,
    c: int,
    s: S,
)
    requires
        tree_shaped(a),
        gained_at(a, b, idx, c, s),
    ensures
        tree_shaped(b),
{
    let k0 = choose|k: int| 0 <= k < 4 && c == child_at(idx, k) && b == with_limb(a, c, k, s);
    lemma_parent_of_child(idx, k0);
    let back = child_at(c, opposite(k0));
    lemma_parent_of_child(c, opposite(k0));
    // nothing hangs below the empty slot `c`
    assert forall|k: int| 0 <= k < 4 && child_at(c, k) < a.len() implies #[trigger] a[child_at(c, k)] is None by {
        lemma_parent_of_child(c, k);
        if a[child_at(c, k)] is Some {
            assert(is_child(a, c));
        }
    }
    assert forall|i: int| 0 < i < b.len() && #[trigger] b[i] is Some implies is_child(b, parent_of(i)) by {
        if i != c && i != back {
            assert(b[i] == a[i]);
            let p = parent_of(i);
            assert(is_child(a, p));
            assert(p != c);
            if back < a.len() {
                assert(p != back);
            }
            assert(b[p] == a[p]);
        }
    }
    assert forall|i: int| 1 <= i && #[trigger] is_child(b, i) && child_at(i, 3) < b.len() implies mark_count(b, i) == 1 by {
        lemma_parent_of_child(i, 0);
        lemma_parent_of_child(i, 1);
        lemma_parent_of_child(i, 2);
        lemma_parent_of_child(i, 3);
        if i == c {
            assert(back < a.len());
            assert(is_parent_mark(b, back));
        } else {
            assert(b[i] == a[i]);
            assert(is_child(a, i));
            assert forall|k: int| 0 <= k < 4 implies #[trigger] is_parent_mark(b, child_at(i, k)) == is_parent_mark(
                a,
                child_at(i, k),
            ) by {
                lemma_parent_of_child(i, k);
                if child_at(i, k) == back {
                    assert(i == c);
                }
            }
        }
    }
}

} // verus!
