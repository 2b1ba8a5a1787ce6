//! Random genomes.
//!
//! The tree is grown from the root down to the last level that still has its
//! four child slots inside the array.  Every grown node gets a geometry (or an
//! empty slot) from the caller for each of its four sides, then one side drawn
//! at random becomes its parent marker and the other three are grown in turn.
use vstd::prelude::*;
use vstd::pervasive::VecAdditionalExecFns;
use crate::chance::random_below;
use crate::geno::{
    is_child, is_parent_mark, lemma_tree_shaped_marks, mark_count, marks_complete, node_at,
    orphan_free, parent_marks_ok, tree_shaped, BlobGeno, GenoNode, GenericGenoNode, GENO_MAX_DEPTH,
};
use crate::quad_tree::{child_at, parent_of, span};

verus! {

/// Slot `i` lies in the subtree of slot `a` (or is `a`).
pub open spec fn is_desc(a: int, i: int) -> bool
    decreases i,
{
    if i == a {
        true
    } else if i > a && i > 0 {
        is_desc(a, parent_of(i))
    } else {
        false
    }
}

/// Slot `i` is one of the four child slots of `index`.
pub open spec fn is_slot_of(index: int, i: int) -> bool {
    4 * index + 1 <= i <= 4 * index + 4
}

/// Body nodes carry no neural id yet.
pub open spec fn all_unbound<S>(nodes: Seq<Option<GenericGenoNode<S>>>) -> bool {
    forall|i: int| #[trigger] is_child(nodes, i) ==> node_at(nodes, i).nn_id is None
}

#[verifier::opaque]
/// A genome while it grows: no orphans, nothing bound, and every non-root body
/// node with child slots either has exactly one parent marker or has not been
/// grown yet (all four slots empty).
pub open spec fn growing<S>(nodes: Seq<Option<GenericGenoNode<S>>>) -> bool {
    &&& orphan_free(nodes)
    &&& all_unbound(nodes)
    &&& forall|i: int|
        1 <= i && #[trigger] is_child(nodes, i) && child_at(i, 3) < nodes.len() ==> mark_count(nodes, i) == 1
            || (nodes[child_at(i, 0)] is None && nodes[child_at(i, 1)] is None && nodes[child_at(i, 2)] is None
            && nodes[child_at(i, 3)] is None)
}

proof fn lemma_desc_ge(a: int, i: int)
    requires
        is_desc(a, i),
    ensures
        i >= a,
    decreases i,
{
}

proof fn lemma_desc_of_root(i: int)
    requires
        i >= 0,
    ensures
        is_desc(0, i),
    decreases i,
{
    if i > 0 {
        lemma_desc_of_root(parent_of(i));
    }
}

proof fn lemma_desc_child(a: int, i: int, k: int)
    requires
        0 <= a,
        is_desc(a, i),
        i >= 0,
        0 <= k < 4,
    ensures
        is_desc(a, child_at(i, k)),
{
    assert(parent_of(child_at(i, k)) == i);
}

proof fn lemma_desc_chain(x: int, y: int, i: int)
    requires
        0 <= x <= y,
        is_desc(x, i),
        is_desc(y, i),
    ensures
        is_desc(x, y),
    decreases i,
{
    if i != y {
        lemma_desc_ge(y, i);
        if i == x {
        } else {
            lemma_desc_chain(x, y, parent_of(i));
        }
    }
}

proof fn lemma_desc_up(a: int, k: int, i: int)
    requires
        0 <= a,
        0 <= k < 4,
        is_desc(child_at(a, k), i),
    ensures
        is_desc(a, i),
    decreases i,
{
    if i != child_at(a, k) {
        lemma_desc_ge(child_at(a, k), i);
        assert(is_desc(child_at(a, k), parent_of(i)));
        lemma_desc_up(a, k, parent_of(i));
        assert(i > a);
    } else {
        assert(parent_of(i) == a);
        assert(is_desc(a, a));
        assert(is_desc(a, parent_of(i)));
    }
}

proof fn lemma_desc_disjoint(a: int, j: int, k: int, i: int)
    requires
        0 <= a,
        0 <= j < 4,
        0 <= k < 4,
        j != k,
        is_desc(child_at(a, j), i),
    ensures
        !is_desc(child_at(a, k), i),
{
    if is_desc(child_at(a, k), i) {
        let (x, y) = if j < k {
            (child_at(a, j), child_at(a, k))
        } else {
            (child_at(a, k), child_at(a, j))
        };
        lemma_desc_chain(x, y, i);
        assert(parent_of(y) == a);
        lemma_desc_ge(x, parent_of(y));
    }
}

proof fn lemma_desc_split(a: int, i: int)
    requires
        0 <= a,
        is_desc(a, i),
        i != a,
    ensures
        exists|k: int| 0 <= k < 4 && #[trigger] is_desc(child_at(a, k), i),
    decreases i,
{
    let q = parent_of(i);
    if q == a {
        let k = (i - 1) % 4;
        assert(child_at(a, k) == i);
        assert(is_desc(child_at(a, k), i));
    } else {
        lemma_desc_split(a, q);
        let k = choose|k: int| 0 <= k < 4 && #[trigger] is_desc(child_at(a, k), q);
        lemma_desc_ge(child_at(a, k), q);
        assert(is_desc(child_at(a, k), i));
    }
}

/// The slot value for an optional geometry.
fn slot_of<S>(node: Option<S>) -> (r: Option<GenericGenoNode<S>>)
    ensures
        node is None ==> r is None,
        node is Some ==> r == Some(GenericGenoNode::Child(GenoNode { shape: node->Some_0, nn_id: None })),
{
    match node {
        Some(shape) => Some(GenericGenoNode::Child(GenoNode { shape, nn_id: None })),
        None => None,
    }
}

/// `nodes1` is `nodes0` with the four child slots of body node `index` filled
/// with empty slots, unbound body nodes and the parent marker at side `pick`,
/// where nothing hung below `index` before.
pub open spec fn filled<S>(nodes0: Seq<Option<GenericGenoNode<S>>>, nodes1: Seq<Option<GenericGenoNode<S>>>, index: int, pick: int) -> bool {
    &&& 0 <= index
    &&& 0 <= pick < 4
    &&& child_at(index, 3) < nodes0.len()
    &&& nodes1.len() == nodes0.len()
    &&& is_child(nodes0, index)
    &&& forall|i: int| 0 <= i < nodes0.len() && i != index && is_desc(index, i) ==> #[trigger] nodes0[i] is None
    &&& forall|i: int| 0 <= i < nodes0.len() && !is_slot_of(index, i) ==> #[trigger] nodes1[i] == nodes0[i]
    &&& forall|k: int| 0 <= k < 4 ==> #[trigger] nodes1[child_at(index, k)] is None || (is_child(
            nodes1,
            child_at(index, k),
        ) && node_at(nodes1, child_at(index, k)).nn_id is None) || k == pick
    &&& is_parent_mark(nodes1, child_at(index, pick))
}

proof fn lemma_slot_is_desc(index: int, i: int)
    requires
        0 <= index,
        is_slot_of(index, i),
    ensures
        is_desc(index, i),
        parent_of(i) == index,
{
    let k = i - 4 * index - 1;
    assert(i == child_at(index, k));
    lemma_desc_child(index, index, k);
}

#[verifier::rlimit(100)]
proof fn lemma_fill_orphans<S>(nodes0: Seq<Option<GenericGenoNode<S>>>, nodes1: Seq<Option<GenericGenoNode<S>>>, index: int, pick: int)
    requires
        filled(nodes0, nodes1, index, pick),
        orphan_free(nodes0),
    ensures
        orphan_free(nodes1),
{
    let len = nodes0.len();
    assert forall|i: int| 0 < i < len && #[trigger] nodes1[i] is Some implies is_child(nodes1, parent_of(i)) by {
        if is_slot_of(index, i) {
            lemma_slot_is_desc(index, i);
            assert(nodes1[index] == nodes0[index]);
        } else {
            assert(nodes1[i] == nodes0[i]);
            assert(nodes0[i] is Some);
            let p = parent_of(i);
            assert(is_child(nodes0, p));
            if is_slot_of(index, p) {
                lemma_slot_is_desc(index, p);
                lemma_desc_child(index, p, i - 4 * p - 1);
                assert(i == child_at(p, i - 4 * p - 1));
                assert(nodes0[i] is None);
            }
            assert(nodes1[p] == nodes0[p]);
        }
    }
}

#[verifier::rlimit(100)]
proof fn lemma_fill_marks<S>(nodes0: Seq<Option<GenericGenoNode<S>>>, nodes1: Seq<Option<GenericGenoNode<S>>>, index: int, pick: int)
    requires
        filled(nodes0, nodes1, index, pick),
        forall|i: int|
            1 <= i && #[trigger] is_child(nodes0, i) && child_at(i, 3) < nodes0.len() ==> mark_count(nodes0, i) == 1
                || (nodes0[child_at(i, 0)] is None && nodes0[child_at(i, 1)] is None && nodes0[child_at(i, 2)] is None
                && nodes0[child_at(i, 3)] is None),
    ensures
        mark_count(nodes1, index) == 1,
        forall|i: int|
            1 <= i && #[trigger] is_child(nodes1, i) && child_at(i, 3) < nodes1.len() ==> mark_count(nodes1, i) == 1
                || (nodes1[child_at(i, 0)] is None && nodes1[child_at(i, 1)] is None && nodes1[child_at(i, 2)] is None
                && nodes1[child_at(i, 3)] is None),
{
    let len = nodes0.len();
    assert(is_parent_mark(nodes1, child_at(index, pick)));
    assert(mark_count(nodes1, index) == 1);
    assert forall|i: int|
        1 <= i && #[trigger] is_child(nodes1, i) && child_at(i, 3) < len implies mark_count(nodes1, i) == 1
            || (nodes1[child_at(i, 0)] is None && nodes1[child_at(i, 1)] is None && nodes1[child_at(i, 2)] is None
            && nodes1[child_at(i, 3)] is None) by {
        if i == index {
        } else if is_slot_of(index, i) {
            lemma_slot_is_desc(index, i);
            assert forall|m: int| 0 <= m < 4 implies #[trigger] nodes1[child_at(i, m)] is None by {
                lemma_desc_child(index, i, m);
                assert(!is_slot_of(index, child_at(i, m)));
                assert(nodes1[child_at(i, m)] == nodes0[child_at(i, m)]);
            }
        } else {
            assert(nodes1[i] == nodes0[i]);
            assert(is_child(nodes0, i));
            assert(!is_slot_of(index, child_at(i, 0)));
            assert(!is_slot_of(index, child_at(i, 1)));
            assert(!is_slot_of(index, child_at(i, 2)));
            assert(!is_slot_of(index, child_at(i, 3)));
            assert(nodes1[child_at(i, 0)] == nodes0[child_at(i, 0)]);
            assert(nodes1[child_at(i, 1)] == nodes0[child_at(i, 1)]);
            assert(nodes1[child_at(i, 2)] == nodes0[child_at(i, 2)]);
            assert(nodes1[child_at(i, 3)] == nodes0[child_at(i, 3)]);
        }
    }
}

/// Filling the four child slots of a body node with fresh nodes and one
/// parent marker keeps the genome growing.
proof fn lemma_fill<S>(nodes0: Seq<Option<GenericGenoNode<S>>>, nodes1: Seq<Option<GenericGenoNode<S>>>, index: int, pick: int)
    requires
        filled(nodes0, nodes1, index, pick),
        growing(nodes0),
    ensures
        growing(nodes1),
        mark_count(nodes1, index) == 1,
        forall|i: int| 0 <= i < nodes0.len() && i != index && is_desc(index, i) && !is_slot_of(index, i)
            ==> #[trigger] nodes1[i] is None,
{
    lemma_growing_elim(nodes0);
    lemma_fill_orphans(nodes0, nodes1, index, pick);
    lemma_fill_marks(nodes0, nodes1, index, pick);
    lemma_fill_unbound(nodes0, nodes1, index, pick);
    lemma_growing_intro(nodes1);
    assert forall|i: int| 0 <= i < nodes0.len() && i != index && is_desc(index, i) && !is_slot_of(index, i)
        implies #[trigger] nodes1[i] is None by {
        assert(nodes1[i] == nodes0[i]);
    }
}

proof fn lemma_fill_unbound<S>(nodes0: Seq<Option<GenericGenoNode<S>>>, nodes1: Seq<Option<GenericGenoNode<S>>>, index: int, pick: int)
    requires
        filled(nodes0, nodes1, index, pick),
        all_unbound(nodes0),
    ensures
        all_unbound(nodes1),
{
    assert forall|i: int| #[trigger] is_child(nodes1, i) implies node_at(nodes1, i).nn_id is None by {
        if is_slot_of(index, i) {
            let k = i - 4 * index - 1;
            assert(i == child_at(index, k));
            assert(is_parent_mark(nodes1, child_at(index, pick)));
            if k == pick {
                assert(!is_child(nodes1, i));
            }
            assert(nodes1[child_at(index, k)] is None || (is_child(nodes1, child_at(index, k))
                && node_at(nodes1, child_at(index, k)).nn_id is None) || k == pick);
        } else {
            assert(nodes1[i] == nodes0[i]);
            assert(is_child(nodes0, i));
        }
    }
}

proof fn lemma_growing_elim<S>(nodes: Seq<Option<GenericGenoNode<S>>>)
    requires
        growing(nodes),
    ensures
        orphan_free(nodes),
        all_unbound(nodes),
        forall|i: int|
            1 <= i && #[trigger] is_child(nodes, i) && child_at(i, 3) < nodes.len() ==> mark_count(nodes, i) == 1
                || (nodes[child_at(i, 0)] is None && nodes[child_at(i, 1)] is None && nodes[child_at(i, 2)] is None
                && nodes[child_at(i, 3)] is None),
{
    reveal(growing);
}

proof fn lemma_growing_intro<S>(nodes: Seq<Option<GenericGenoNode<S>>>)
    requires
        orphan_free(nodes),
        all_unbound(nodes),
        forall|i: int|
            1 <= i && #[trigger] is_child(nodes, i) && child_at(i, 3) < nodes.len() ==> mark_count(nodes, i) == 1
                || (nodes[child_at(i, 0)] is None && nodes[child_at(i, 1)] is None && nodes[child_at(i, 2)] is None
                && nodes[child_at(i, 3)] is None),
    ensures
        growing(nodes),
{
    reveal(growing);
}

#[verifier::rlimit(100)]
#[verifier::spinoff_prover]
/// Grows the subtree below slot `index`, when it holds a body node whose four
/// child slots lie inside the array; returns the caller's state after all its
/// draws.
fn grow<S, O, R>(geno: &mut BlobGeno<S>, index: usize, occupied: O, rand_node: &R) -> (o: O) where
    R: Fn(&S, usize, &O) -> (Option<S>, O),

    requires
        old(geno).wf(),
        index < old(geno).nodes().len(),
        growing(old(geno).nodes()),
        forall|i: int| 0 <= i < old(geno).nodes().len() && i != index && is_desc(index as int, i) ==> #[trigger] old(geno).nodes()[i] is None,
        forall|p: &S, d: usize, o: &O| rand_node.requires((p, d, o)),
    ensures
        final(geno).wf(),
        final(geno).vec_tree.max_depth == old(geno).vec_tree.max_depth,
        final(geno).nodes().len() == old(geno).nodes().len(),
        growing(final(geno).nodes()),
        final(geno).nodes()[index as int] == old(geno).nodes()[index as int],
        forall|i: int| 0 <= i < old(geno).nodes().len() && !is_desc(index as int, i) ==> #[trigger] final(geno).nodes()[i] == old(geno).nodes()[i],
        forall|i: int|
            #![trigger is_child(final(geno).nodes(), i)]
            is_desc(index as int, i) && 1 <= i && is_child(final(geno).nodes(), i) && child_at(i, 3) < final(geno).nodes().len()
                ==> mark_count(final(geno).nodes(), i) == 1,
        is_desc(index as int, 0) && is_child(final(geno).nodes(), 0) && child_at(0, 3) < final(geno).nodes().len()
            ==> mark_count(final(geno).nodes(), 0) == 1,
    decreases span(old(geno).nodes().len(), index as int),
{
    let len = geno.vec_tree.nodes.len();
    if 4 * index + 4 >= len {
        return occupied;
    }
    let (n0, n1, n2, n3, o4) = match &geno.vec_tree.nodes[index] {
        Some(GenericGenoNode::Child(node)) => {
            let (n0, o1) = rand_node(&node.shape, 0, &occupied);
            let (n1, o2) = rand_node(&node.shape, 1, &o1);
            let (n2, o3) = rand_node(&node.shape, 2, &o2);
            let (n3, o4) = rand_node(&node.shape, 3, &o3);
            (n0, n1, n2, n3, o4)
        },
        _ => {
            return occupied;
        },
    };
    let ghost nodes0 = geno.nodes();
    let pick = random_below(4);
    geno.vec_tree.nodes.set(4 * index + 1, slot_of(n0));
    geno.vec_tree.nodes.set(4 * index + 2, slot_of(n1));
    geno.vec_tree.nodes.set(4 * index + 3, slot_of(n2));
    geno.vec_tree.nodes.set(4 * index + 4, slot_of(n3));
    geno.vec_tree.nodes.set(4 * index + pick + 1, Some(GenericGenoNode::Parent));
    let ghost nodes1 = geno.nodes();
    proof {
        assert forall|i: int| 0 <= i < len && !is_slot_of(index as int, i) implies #[trigger] nodes1[i] == nodes0[i] by {}
        assert forall|k: int| 0 <= k < 4 implies #[trigger] nodes1[child_at(index as int, k)] is None || (is_child(
            nodes1,
            child_at(index as int, k),
        ) && node_at(nodes1, child_at(index as int, k)).nn_id is None) || k == pick by {}
        assert(filled(nodes0, nodes1, index as int, pick as int));
        lemma_fill(nodes0, nodes1, index as int, pick as int);
        assert forall|kk: int| 0 <= kk < 4 implies parent_of(#[trigger] child_at(index as int, kk)) == index by {}
        assert forall|i: int| 0 <= i < len && !is_desc(index as int, i) implies #[trigger] nodes1[i] == nodes0[i] by {
            if is_slot_of(index as int, i) {
                lemma_slot_is_desc(index as int, i);
            }
        }
        assert forall|j: int, i: int|
            #![trigger is_desc(child_at(index as int, j), i)]
            0 <= j < 4 && i != child_at(index as int, j) && 0 <= i < len && is_desc(child_at(index as int, j), i)
                implies nodes1[i] is None by {
            lemma_desc_up(index as int, j, i);
            lemma_desc_ge(child_at(index as int, j), i);
            if is_slot_of(index as int, i) {
                let m = i - 4 * index - 1;
                assert(i == child_at(index as int, m));
                lemma_desc_disjoint(index as int, j, m, i);
            }
        }
    }
    let mut occ = o4;
    let mut k: usize = 0;
    while k < 4
        invariant
            geno.wf(),
            geno.vec_tree.max_depth == old(geno).vec_tree.max_depth,
            geno.nodes().len() == len,
            len == nodes0.len(),
            nodes0 == old(geno).nodes(),
            4 * index + 4 < len,
            pick < 4,
            k <= 4,
            growing(geno.nodes()),
            is_parent_mark(geno.nodes(), child_at(index as int, pick as int)),
            forall|kk: int| 0 <= kk < 4 ==> parent_of(#[trigger] child_at(index as int, kk)) == index,
            forall|i: int| 0 <= i < len && !is_desc(index as int, i) ==> #[trigger] geno.nodes()[i] == nodes0[i],
            forall|kk: int| 0 <= kk < 4 ==> geno.nodes()[#[trigger] child_at(index as int, kk)] == nodes1[child_at(index as int, kk)],
            geno.nodes()[index as int] == nodes0[index as int],
            forall|j: int, i: int|
                #![trigger is_desc(child_at(index as int, j), i)]
                0 <= j < 4 && (j >= k || j == pick) && i != child_at(index as int, j) && 0 <= i < len && is_desc(child_at(index as int, j), i)
                    ==> geno.nodes()[i] is None,
            forall|j: int, i: int|
                #![trigger is_desc(child_at(index as int, j), i), is_child(geno.nodes(), i)]
                0 <= j < k && j != pick && is_desc(child_at(index as int, j), i) && 1 <= i && is_child(geno.nodes(), i)
                    && child_at(i, 3) < len ==> mark_count(geno.nodes(), i) == 1,
            forall|p: &S, d: usize, o: &O| rand_node.requires((p, d, o)),
        decreases 4 - k,
    {
        if k != pick {
            let c = 4 * index + k + 1;
            let ghost before = geno.nodes();
            proof {
                assert(c == child_at(index as int, k as int));
                assert forall|i: int| 0 <= i < len && i != c && is_desc(c as int, i) implies #[trigger] before[i] is None by {
                    assert(is_desc(child_at(index as int, k as int), i));
                }
            }
            occ = grow(geno, c, occ, rand_node);
            proof {
                assert forall|i: int| 0 <= i < len && !is_desc(index as int, i) implies #[trigger] geno.nodes()[i] == nodes0[i] by {
                    if is_desc(c as int, i) {
                        lemma_desc_up(index as int, k as int, i);
                    }
                }
                assert forall|kk: int| 0 <= kk < 4 implies geno.nodes()[#[trigger] child_at(index as int, kk)] == nodes1[child_at(index as int, kk)] by {
                    if kk != k && is_desc(c as int, child_at(index as int, kk)) {
                        lemma_desc_ge(c as int, child_at(index as int, kk));
                        lemma_desc_disjoint(index as int, kk, k as int, child_at(index as int, kk));
                    }
                }
                assert(!is_desc(c as int, index as int)) by {
                    if is_desc(c as int, index as int) {
                        lemma_desc_ge(c as int, index as int);
                    }
                }
                assert forall|j: int, i: int|
                    #![trigger is_desc(child_at(index as int, j), i)]
                    0 <= j < 4 && (j >= k + 1 || j == pick) && i != child_at(index as int, j) && 0 <= i < len && is_desc(child_at(index as int, j), i)
                        implies geno.nodes()[i] is None by {
                    lemma_desc_disjoint(index as int, j, k as int, i);
                }
                assert forall|j: int, i: int|
                    #![trigger is_desc(child_at(index as int, j), i), is_child(geno.nodes(), i)]
                    0 <= j < k + 1 && j != pick && is_desc(child_at(index as int, j), i) && 1 <= i && is_child(geno.nodes(), i)
                        && child_at(i, 3) < len implies mark_count(geno.nodes(), i) == 1 by {
                    if j != k {
                        lemma_desc_disjoint(index as int, j, k as int, i);
                        assert(geno.nodes()[i] == before[i]);
                        assert(is_child(before, i));
                        assert(mark_count(before, i) == 1);
                        lemma_desc_ge(child_at(index as int, j), i);
                        assert forall|m: int| 0 <= m < 4 implies geno.nodes()[#[trigger] child_at(i, m)] == before[child_at(i, m)] by {
                            lemma_desc_child(child_at(index as int, j), i, m);
                            lemma_desc_disjoint(index as int, j, k as int, child_at(i, m));
                        }
                    }
                }
            }
        }
        k = k + 1;
    }
    proof {
        let fin = geno.nodes();
        assert forall|i: int|
            #![trigger is_child(fin, i)]
            is_desc(index as int, i) && 1 <= i && is_child(fin, i) && child_at(i, 3) < len implies mark_count(fin, i) == 1 by {
            if i == index {
                assert forall|m: int| 0 <= m < 4 implies fin[#[trigger] child_at(i, m)] == nodes1[child_at(i, m)] by {}
            } else {
                lemma_desc_split(index as int, i);
                let j = choose|j: int| 0 <= j < 4 && #[trigger] is_desc(child_at(index as int, j), i);
                if j == pick {
                    assert(fin[child_at(index as int, j)] == nodes1[child_at(index as int, j)]);
                }
            }
        }
        if is_desc(index as int, 0) && is_child(fin, 0) && child_at(0, 3) < len {
            lemma_desc_ge(index as int, 0);
            assert forall|m: int| 0 <= m < 4 implies fin[#[trigger] child_at(0, m)] == nodes1[child_at(0, m)] by {}
        }
    }
    occ
}

/// A random genome of the default depth: the root holds `root`; below it every
/// grown node asks `rand_node` (given its geometry, the side, and the caller's
/// state) for the geometry of each of its four children, or for an empty slot,
/// then a uniformly drawn side becomes its parent marker and the other sides
/// are grown in turn.  The result is well shaped and carries no neural id.
pub fn new_rand<S, O, R>(root: S, occupied: O, rand_node: &R) -> (r: BlobGeno<S>) where
    R: Fn(&S, usize, &O) -> (Option<S>, O),

    requires
        forall|p: &S, d: usize, o: &O| rand_node.requires((p, d, o)),
    ensures
        r.wf(),
        r.vec_tree.max_depth == GENO_MAX_DEPTH,
        r.nodes().len() == 65,
        is_child(r.nodes(), 0),
        node_at(r.nodes(), 0).shape == root,
        forall|i: int| #[trigger] is_child(r.nodes(), i) ==> node_at(r.nodes(), i).nn_id is None,
        forall|i: int| 0 < i < r.nodes().len() && #[trigger] r.nodes()[i] is Some ==> is_child(r.nodes(), parent_of(i)),
        parent_marks_ok(r.nodes()),
        tree_shaped(r.nodes()),
{
    let mut geno = BlobGeno::new();
    geno.vec_tree.nodes.set(0, Some(GenericGenoNode::Child(GenoNode { shape: root, nn_id: None })));
    proof {
        assert forall|i: int| 0 <= i < geno.nodes().len() && i != 0 && is_desc(0, i) implies #[trigger] geno.nodes()[i] is None by {}
        let g0 = geno.nodes();
        assert forall|i: int| 0 < i < g0.len() && #[trigger] g0[i] is Some implies is_child(g0, parent_of(i)) by {}
        assert(all_unbound(g0));
        lemma_growing_intro(g0);
    }
    let _ = grow(&mut geno, 0, occupied, rand_node);
    proof {
        let fin = geno.nodes();
        assert forall|i: int| 1 <= i && #[trigger] is_child(fin, i) && child_at(i, 3) < fin.len() implies mark_count(fin, i) == 1 by {
            lemma_desc_of_root(i);
        }
        lemma_growing_elim(fin);
        assert(marks_complete(fin));
        lemma_tree_shaped_marks(fin);
    }
    geno
}

} // verus!
