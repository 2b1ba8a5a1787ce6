//! Keeping genomes and the neural network bank consistent across generations.
//!
//! The bank is a plain vector indexed by neural id; a genome refers to a
//! network only through the id stored in each of its body nodes.
use vstd::prelude::*;
use vstd::pervasive::VecAdditionalExecFns;
use crate::geno::{
    child_prefix, copied, is_child, is_parent_mark, lemma_child_prefix_len,
    lemma_child_prefix_members, node_at, BlobGeno, GenoNode, GenericGenoNode,
};
use crate::chance::random_below;

verus! {

/// Some body node of `nodes` is bound to `id`.
pub open spec fn holds_id<S>(nodes: Seq<Option<GenericGenoNode<S>>>, id: usize) -> bool {
    exists|i: int| #[trigger] is_child(nodes, i) && node_at(nodes, i).nn_id == Some(id)
}

/// Some genome of `genos` refers to network `id`.
pub open spec fn refers_to<S>(genos: Seq<BlobGeno<S>>, id: usize) -> bool {
    exists|g: int| 0 <= g < genos.len() && #[trigger] holds_id(genos[g].nodes(), id)
}

/// For each of the first `n` ids, whether some genome refers to it.
pub open spec fn in_use<S>(genos: Seq<BlobGeno<S>>, n: nat) -> Seq<bool> {
    Seq::new(n, |k: int| refers_to(genos, k as usize))
}

/// Number of `true` entries of `keep` before position `k`.
pub open spec fn count_true(keep: Seq<bool>, k: int) -> nat
    decreases k,
{
    if k <= 0 {
        0
    } else {
        count_true(keep, k - 1) + if keep[k - 1] {
            1nat
        } else {
            0nat
        }
    }
}

/// Every body node of every genome carries an id below `n`.
pub open spec fn ids_below<S>(genos: Seq<BlobGeno<S>>, n: nat) -> bool {
    forall|g: int, i: int|
        0 <= g < genos.len() && #[trigger] is_child(genos[g].nodes(), i) ==> node_at(
            genos[g].nodes(),
            i,
        ).nn_id is Some && node_at(genos[g].nodes(), i).nn_id->Some_0 < n
}

/// `b` is `a` with the id `x` of every body node replaced by `table[x]`.
pub open spec fn remapped<S>(
    a: Seq<Option<GenericGenoNode<S>>>,
    b: Seq<Option<GenericGenoNode<S>>>,
    table: Seq<usize>,
) -> bool {
    &&& a.len() == b.len()
    &&& forall|i: int|
        0 <= i < a.len() ==> #[trigger] b[i] == if is_child(a, i) {
            Some(
                GenericGenoNode::Child(
                    GenoNode {
                        shape: node_at(a, i).shape,
                        nn_id: Some(table[node_at(a, i).nn_id->Some_0 as int]),
                    },
                ),
            )
        } else {
            a[i]
        }
}

proof fn lemma_count_le(keep: Seq<bool>, k: int)
    requires
        0 <= k,
    ensures
        count_true(keep, k) <= k,
    decreases k,
{
    if k > 0 {
        lemma_count_le(keep, k - 1);
    }
}

proof fn lemma_count_mono(keep: Seq<bool>, a: int, b: int)
    requires
        0 <= a <= b,
    ensures
        count_true(keep, a) <= count_true(keep, b),
        a < b && keep[a] ==> count_true(keep, a) < count_true(keep, b),
    decreases b - a,
{
    if a < b {
        lemma_count_mono(keep, a, b - 1);
    }
}

proof fn lemma_count_onto(keep: Seq<bool>, n: int, p: int)
    requires
        0 <= p < count_true(keep, n),
    ensures
        exists|k: int| 0 <= k < n && keep[k] && count_true(keep, k) == p,
    decreases n,
{
    if n > 0 {
        if p < count_true(keep, n - 1) {
            lemma_count_onto(keep, n - 1, p);
            let k = choose|k: int| 0 <= k < n - 1 && keep[k] && count_true(keep, k) == p;
            assert(0 <= k < n && keep[k] && count_true(keep, k) == p);
        } else {
            assert(keep[n - 1] && count_true(keep, n - 1) == p);
        }
    }
}

/// Rewrites the id `x` of every body node of `geno` to `table[x]`.
fn remap_ids<S>(geno: &mut BlobGeno<S>, table: &Vec<usize>)
    requires
        old(geno).wf(),
        forall|i: int|
            #[trigger] is_child(old(geno).nodes(), i) ==> node_at(old(geno).nodes(), i).nn_id is Some
                && node_at(old(geno).nodes(), i).nn_id->Some_0 < table@.len(),
    ensures
        final(geno).wf(),
        final(geno).vec_tree.max_depth == old(geno).vec_tree.max_depth,
        remapped(old(geno).nodes(), final(geno).nodes(), table@),
{
    let indices = geno.all_nn_ids_indices();
    let ghost before = geno.nodes();
    let len = geno.vec_tree.nodes.len();
    proof {
        lemma_child_prefix_members(before, before.len() as int);
    }
    let mut t: usize = 0;
    while t < indices.len()
        invariant
            geno.wf(),
            before == old(geno).nodes(),
            len == before.len(),
            geno.vec_tree.max_depth == old(geno).vec_tree.max_depth,
            geno.nodes().len() == before.len(),
            indices@ == child_prefix(before, before.len() as int),
            t <= indices@.len(),
            forall|k: int|
                0 <= k < indices@.len() ==> is_child(before, #[trigger] indices@[k] as int)
                    && indices@[k] < before.len(),
            forall|k: int, m: int| 0 <= k < m < indices@.len() ==> indices@[k] < indices@[m],
            forall|i: int|
                0 <= i < before.len() && is_child(before, i) ==> indices@.contains(i as usize),
            forall|i: int|
                #[trigger] is_child(before, i) ==> node_at(before, i).nn_id is Some && node_at(
                    before,
                    i,
                ).nn_id->Some_0 < table@.len(),
            forall|i: int|
                0 <= i < before.len() ==> #[trigger] geno.nodes()[i] == if is_child(before, i) && (
                exists|k: int| 0 <= k < t && indices@[k] == i) {
                    Some(
                        GenericGenoNode::Child(
                            GenoNode {
                                shape: node_at(before, i).shape,
                                nn_id: Some(table@[node_at(before, i).nn_id->Some_0 as int]),
                            },
                        ),
                    )
                } else {
                    before[i]
                },
        decreases indices@.len() - t,
    {
        let i = indices[t];
        assert(geno.nodes()[i as int] == before[i as int]) by {
            if exists|k: int| 0 <= k < t && indices@[k] == i {
                let k = choose|k: int| 0 <= k < t && indices@[k] == i;
                assert(indices@[k] < indices@[t as int]);
            }
        }
        let old_id = geno.nn_id_at(i).unwrap();
        geno.set_nn_id(i, table[old_id]);
        t = t + 1;
        assert forall|j: int| 0 <= j < before.len() implies #[trigger] geno.nodes()[j] == if is_child(
            before,
            j,
        ) && (exists|k: int| 0 <= k < t && indices@[k] == j) {
            Some(
                GenericGenoNode::Child(
                    GenoNode {
                        shape: node_at(before, j).shape,
                        nn_id: Some(table@[node_at(before, j).nn_id->Some_0 as int]),
                    },
                ),
            )
        } else {
            before[j]
        } by {
            if j == i as int {
                assert(indices@[t - 1] == j);
            } else {
                if exists|k: int| 0 <= k < t && indices@[k] == j {
                    let k = choose|k: int| 0 <= k < t && indices@[k] == j;
                    assert(k < t - 1);
                }
            }
        }
    }
    assert forall|i: int| 0 <= i < before.len() implies #[trigger] geno.nodes()[i] == if is_child(
        before,
        i,
    ) {
        Some(
            GenericGenoNode::Child(
                GenoNode {
                    shape: node_at(before, i).shape,
                    nn_id: Some(table@[node_at(before, i).nn_id->Some_0 as int]),
                },
            ),
        )
    } else {
        before[i]
    } by {
        if is_child(before, i) {
            assert(indices@.contains(i as usize));
            let k = choose|k: int| 0 <= k < indices@.len() && indices@[k] == i as usize;
            assert(indices@[k] == i);
        }
    }
}

/// Drops from the bank every network that no surviving genome refers to and
/// renumbers the ids of the survivors so that they stay bound to the same
/// networks: each id goes down by the number of dropped ids below it.
pub fn clean_outcast<S, N>(survivors: &mut Vec<BlobGeno<S>>, nnvec: &mut Vec<N>)
    requires
        forall|g: int| 0 <= g < old(survivors)@.len() ==> (#[trigger] old(survivors)@[g]).wf(),
        ids_below(old(survivors)@, old(nnvec)@.len()),
    ensures
        ({
            let keep = in_use(old(survivors)@, old(nnvec)@.len());
            &&& final(nnvec)@.len() == count_true(keep, keep.len() as int)
            &&& forall|k: int|
                0 <= k < keep.len() && keep[k] ==> final(nnvec)@[count_true(keep, k) as int]
                    == old(nnvec)@[k]
            &&& final(survivors)@.len() == old(survivors)@.len()
            &&& forall|g: int|
                0 <= g < old(survivors)@.len() ==> {
                    &&& (#[trigger] final(survivors)@[g]).wf()
                    &&& final(survivors)@[g].vec_tree.max_depth == old(
                        survivors,
                    )@[g].vec_tree.max_depth
                    &&& remapped(
                        old(survivors)@[g].nodes(),
                        final(survivors)@[g].nodes(),
                        Seq::new(keep.len(), |k: int| count_true(keep, k) as usize),
                    )
                }
        }),
        ids_below(final(survivors)@, final(nnvec)@.len()),
        forall|p: usize| p < final(nnvec)@.len() ==> refers_to(final(survivors)@, p),
{
    let n = nnvec.len();
    let ghost genos = survivors@;
    let ghost keep_spec = in_use(genos, n as nat);
    // which ids are in use
    let mut keep: Vec<bool> = Vec::new();
    let mut k: usize = 0;
    while k < n
        invariant
            k <= n,
            keep@.len() == k,
            forall|q: int| 0 <= q < k ==> !keep@[q],
        decreases n - k,
    {
        keep.push(false);
        k = k + 1;
    }
    let mut g: usize = 0;
    while g < survivors.len()
        invariant
            survivors@ == genos,
            genos == old(survivors)@,
            n == old(nnvec)@.len(),
            ids_below(genos, n as nat),
            forall|h: int| 0 <= h < genos.len() ==> (#[trigger] genos[h]).wf(),
            g <= genos.len(),
            keep@.len() == n,
            forall|q: int| 0 <= q < n && #[trigger] keep@[q] ==> refers_to(genos, q as usize),
            forall|h: int, i: int|
                0 <= h < g && #[trigger] is_child(genos[h].nodes(), i) ==> keep@[node_at(
                    genos[h].nodes(),
                    i,
                ).nn_id->Some_0 as int],
        decreases genos.len() - g,
    {
        let geno = &survivors[g];
        let indices = geno.all_nn_ids_indices();
        proof {
            lemma_child_prefix_members(geno.nodes(), geno.nodes().len() as int);
        }
        let mut t: usize = 0;
        while t < indices.len()
            invariant
                survivors@ == genos,
                genos == old(survivors)@,
                n == old(nnvec)@.len(),
                ids_below(genos, n as nat),
                g < genos.len(),
                *geno == genos[g as int],
                indices@ == child_prefix(geno.nodes(), geno.nodes().len() as int),
                forall|m: int|
                    0 <= m < indices@.len() ==> is_child(geno.nodes(), #[trigger] indices@[m] as int),
                forall|i: int|
                    0 <= i < geno.nodes().len() && is_child(geno.nodes(), i) ==> indices@.contains(
                        i as usize,
                    ),
                t <= indices@.len(),
                keep@.len() == n,
                forall|q: int| 0 <= q < n && #[trigger] keep@[q] ==> refers_to(genos, q as usize),
                forall|h: int, i: int|
                    0 <= h < g && #[trigger] is_child(genos[h].nodes(), i) ==> keep@[node_at(
                        genos[h].nodes(),
                        i,
                    ).nn_id->Some_0 as int],
                forall|m: int|
                    0 <= m < t ==> keep@[node_at(geno.nodes(), #[trigger] indices@[m] as int).nn_id->Some_0 as int],
            decreases indices@.len() - t,
        {
            let i = indices[t];
            assert(is_child(genos[g as int].nodes(), i as int));
            let id = geno.nn_id_at(i).unwrap();
            proof {
                assert(holds_id(genos[g as int].nodes(), id));
                assert(refers_to(genos, id));
            }
            keep.set(id, true);
            t = t + 1;
        }
        proof {
            assert forall|h: int, i: int|
                0 <= h < g + 1 && #[trigger] is_child(genos[h].nodes(), i) implies keep@[node_at(
                genos[h].nodes(),
                i,
            ).nn_id->Some_0 as int] by {
                if h == g {
                    assert(indices@.contains(i as usize));
                    let m = choose|m: int| 0 <= m < indices@.len() && indices@[m] == i as usize;
                    assert(indices@[m] == i);
                }
            }
        }
        g = g + 1;
    }
    proof {
        assert forall|q: int| 0 <= q < n implies keep@[q] == keep_spec[q] by {
            if refers_to(genos, q as usize) {
                let h = choose|h: int| 0 <= h < genos.len() && #[trigger] holds_id(genos[h].nodes(), q as usize);
                let i = choose|i: int| #[trigger] is_child(genos[h].nodes(), i) && node_at(genos[h].nodes(), i).nn_id == Some(q as usize);
                assert(keep@[node_at(genos[h].nodes(), i).nn_id->Some_0 as int]);
            }
        }
        assert(keep@ == keep_spec);
    }
    // new position of every kept id, and the compacted bank
    let mut table: Vec<usize> = Vec::new();
    let mut rest: Vec<N> = Vec::new();
    std::mem::swap(nnvec, &mut rest);
    let ghost orig = rest@;
    let mut q: usize = 0;
    while q < n
        invariant
            n == orig.len(),
            orig == old(nnvec)@,
            keep@ == keep_spec,
            keep_spec.len() == n,
            q <= n,
            rest@ == orig.skip(q as int),
            table@.len() == q,
            forall|m: int| 0 <= m < q ==> table@[m] == count_true(keep_spec, m),
            nnvec@.len() == count_true(keep_spec, q as int),
            forall|m: int|
                0 <= m < q && keep_spec[m] ==> nnvec@[count_true(keep_spec, m) as int] == orig[m],
        decreases n - q,
    {
        proof {
            lemma_count_le(keep_spec, q as int);
        }
        table.push(nnvec.len());
        let item = rest.remove(0);
        assert(item == orig[q as int]);
        let ghost prev = nnvec@;
        if keep[q] {
            nnvec.push(item);
        }
        proof {
            assert forall|m: int| 0 <= m < q && keep_spec[m] implies nnvec@[count_true(keep_spec, m) as int]
                == orig[m] by {
                lemma_count_mono(keep_spec, m, q as int);
                assert(nnvec@[count_true(keep_spec, m) as int] == prev[count_true(keep_spec, m) as int]);
            }
        }
        q = q + 1;
        assert(rest@ == orig.skip(q as int));
    }
    // renumber the survivors
    let ghost tab = Seq::new(keep_spec.len(), |k: int| count_true(keep_spec, k) as usize);
    assert(table@ == tab);
    let count = survivors.len();
    let mut g: usize = 0;
    let mut pending: Vec<BlobGeno<S>> = Vec::new();
    std::mem::swap(survivors, &mut pending);
    while g < count
        invariant
            genos == old(survivors)@,
            ids_below(genos, n as nat),
            forall|h: int| 0 <= h < genos.len() ==> (#[trigger] genos[h]).wf(),
            table@ == tab,
            tab.len() == n,
            count == genos.len(),
            g <= genos.len(),
            pending@ == genos.skip(g as int),
            survivors@.len() == g,
            forall|h: int|
                0 <= h < g ==> {
                    &&& (#[trigger] survivors@[h]).wf()
                    &&& survivors@[h].vec_tree.max_depth == genos[h].vec_tree.max_depth
                    &&& remapped(genos[h].nodes(), survivors@[h].nodes(), tab)
                },
        decreases genos.len() - g,
    {
        let mut geno = pending.remove(0);
        assert(geno == genos[g as int]);
        assert forall|i: int| #[trigger] is_child(geno.nodes(), i) implies node_at(geno.nodes(), i).nn_id is Some
            && node_at(geno.nodes(), i).nn_id->Some_0 < table@.len() by {
            assert(is_child(genos[g as int].nodes(), i));
        }
        remap_ids(&mut geno, &table);
        survivors.push(geno);
        g = g + 1;
        assert(pending@ == genos.skip(g as int));
    }
    proof {
        let fin = survivors@;
        assert forall|h: int, i: int|
            0 <= h < fin.len() && #[trigger] is_child(fin[h].nodes(), i) implies node_at(
            fin[h].nodes(),
            i,
        ).nn_id is Some && node_at(fin[h].nodes(), i).nn_id->Some_0 < nnvec@.len() by {
            let a = genos[h].nodes();
            assert(fin[h].nodes()[i] == if is_child(a, i) {
                Some(
                    GenericGenoNode::Child(
                        GenoNode {
                            shape: node_at(a, i).shape,
                            nn_id: Some(tab[node_at(a, i).nn_id->Some_0 as int]),
                        },
                    ),
                )
            } else {
                a[i]
            });
            assert(is_child(a, i));
            let x = node_at(a, i).nn_id->Some_0 as int;
            assert(holds_id(a, x as usize));
            assert(keep_spec[x]);
            lemma_count_mono(keep_spec, x, n as int);
        }
        assert forall|p: usize| p < nnvec@.len() implies refers_to(fin, p) by {
            lemma_count_onto(keep_spec, n as int, p as int);
            let k = choose|k: int| 0 <= k < n && keep_spec[k] && count_true(keep_spec, k) == p;
            assert(refers_to(genos, k as usize));
            let h = choose|h: int| 0 <= h < genos.len() && #[trigger] holds_id(genos[h].nodes(), k as usize);
            let i = choose|i: int| #[trigger] is_child(genos[h].nodes(), i) && node_at(genos[h].nodes(), i).nn_id == Some(k as usize);
            let a = genos[h].nodes();
            assert(fin[h].nodes()[i] == Some(
                GenericGenoNode::Child(
                    GenoNode {
                        shape: node_at(a, i).shape,
                        nn_id: Some(tab[k]),
                    },
                ),
            ));
            assert(is_child(fin[h].nodes(), i));
            assert(holds_id(fin[h].nodes(), p));
        }
    }
}

/// Number of body nodes of `g`.
pub open spec fn body_count<S>(g: BlobGeno<S>) -> nat {
    child_prefix(g.nodes(), g.nodes().len() as int).len()
}

/// First bank position handed to the copy made for `picks[q]`, when the copies
/// are appended in order to a bank of length `base`.
pub open spec fn fresh_base<S>(genos: Seq<BlobGeno<S>>, picks: Seq<usize>, base: nat, q: int) -> nat
    decreases q,
{
    if q <= 0 {
        base
    } else {
        fresh_base(genos, picks, base, q - 1) + body_count(genos[picks[q - 1] as int])
    }
}

/// `b` keeps the empty slots, parent markers and node geometry of `a`; only the
/// ids of the body nodes may differ.
pub open spec fn same_frame<S>(
    a: Seq<Option<GenericGenoNode<S>>>,
    b: Seq<Option<GenericGenoNode<S>>>,
) -> bool {
    &&& a.len() == b.len()
    &&& forall|i: int|
        0 <= i < a.len() ==> {
            &&& !is_child(a, i) ==> #[trigger] b[i] == a[i]
            &&& is_child(a, i) ==> is_child(b, i) && node_at(b, i).shape == node_at(a, i).shape
        }
}

/// `b` keeps the empty slots and parent markers of `a`, and its body nodes hold
/// clones of the geometry of those of `a`; the ids may differ.
pub open spec fn copied_frame<S: Clone>(
    a: Seq<Option<GenericGenoNode<S>>>,
    b: Seq<Option<GenericGenoNode<S>>>,
) -> bool {
    &&& a.len() == b.len()
    &&& forall|i: int|
        0 <= i < a.len() ==> {
            &&& (#[trigger] b[i] is None) == (a[i] is None)
            &&& is_parent_mark(b, i) == is_parent_mark(a, i)
            &&& is_child(b, i) == is_child(a, i)
            &&& is_child(a, i) ==> cloned(node_at(a, i).shape, node_at(b, i).shape)
        }
}

proof fn lemma_copied_then_rebound<S: Clone>(
    a: Seq<Option<GenericGenoNode<S>>>,
    b: Seq<Option<GenericGenoNode<S>>>,
    c: Seq<Option<GenericGenoNode<S>>>,
)
    requires
        copied(a, b),
        same_frame(b, c),
    ensures
        copied_frame(a, c),
{
    assert forall|i: int| 0 <= i < a.len() implies {
        &&& (#[trigger] c[i] is None) == (a[i] is None)
        &&& is_parent_mark(c, i) == is_parent_mark(a, i)
        &&& is_child(c, i) == is_child(a, i)
        &&& is_child(a, i) ==> cloned(node_at(a, i).shape, node_at(c, i).shape)
    } by {
        assert(b[i] is None == (a[i] is None));
        if is_child(b, i) {
            assert(is_child(c, i));
        } else {
            assert(c[i] == b[i]);
        }
    }
}

proof fn lemma_child_prefix_same<S>(
    a: Seq<Option<GenericGenoNode<S>>>,
    b: Seq<Option<GenericGenoNode<S>>>,
    n: int,
)
    requires
        forall|i: int| 0 <= i < n ==> is_child(a, i) == is_child(b, i),
    ensures
        child_prefix(a, n) == child_prefix(b, n),
    decreases n,
{
    if n > 0 {
        lemma_child_prefix_same(a, b, n - 1);
    }
}

/// Gives every body node of `cp`, in slot order, a fresh copy of its network
/// appended to the bank.
fn rebind_fresh<S, N: Clone>(cp: &mut BlobGeno<S>, nnvec: &mut Vec<N>)
    requires
        old(cp).wf(),
        forall|i: int|
            #[trigger] is_child(old(cp).nodes(), i) ==> node_at(old(cp).nodes(), i).nn_id is Some
                && node_at(old(cp).nodes(), i).nn_id->Some_0 < old(nnvec)@.len(),
        old(nnvec)@.len() + body_count(*old(cp)) <= usize::MAX,
    ensures
        final(cp).wf(),
        final(cp).vec_tree.max_depth == old(cp).vec_tree.max_depth,
        same_frame(old(cp).nodes(), final(cp).nodes()),
        final(nnvec)@.len() == old(nnvec)@.len() + body_count(*old(cp)),
        final(nnvec)@.subrange(0, old(nnvec)@.len() as int) == old(nnvec)@,
        ({
            let order = child_prefix(old(cp).nodes(), old(cp).nodes().len() as int);
            forall|k: int|
                0 <= k < order.len() ==> {
                    &&& node_at(final(cp).nodes(), #[trigger] order[k] as int).nn_id == Some(
                        (old(nnvec)@.len() + k) as usize,
                    )
                    &&& cloned(
                        old(nnvec)@[node_at(old(cp).nodes(), order[k] as int).nn_id->Some_0 as int],
                        final(nnvec)@[old(nnvec)@.len() + k],
                    )
                }
        }),
{
    let indices = cp.all_nn_ids_indices();
    let ghost before = cp.nodes();
    let ghost bank = nnvec@;
    let base = nnvec.len();
    proof {
        lemma_child_prefix_members(before, before.len() as int);
        lemma_child_prefix_len(before, before.len() as int);
    }
    let mut t: usize = 0;
    while t < indices.len()
        invariant
            cp.wf(),
            before == old(cp).nodes(),
            bank == old(nnvec)@,
            base == bank.len(),
            base + indices@.len() <= usize::MAX,
            indices@.len() <= before.len(),
            cp.vec_tree.max_depth == old(cp).vec_tree.max_depth,
            cp.nodes().len() == before.len(),
            indices@ == child_prefix(before, before.len() as int),
            t <= indices@.len(),
            forall|k: int|
                0 <= k < indices@.len() ==> is_child(before, #[trigger] indices@[k] as int)
                    && indices@[k] < before.len(),
            forall|k: int, m: int| 0 <= k < m < indices@.len() ==> indices@[k] < indices@[m],
            forall|i: int|
                0 <= i < before.len() && is_child(before, i) ==> indices@.contains(i as usize),
            forall|i: int|
                #[trigger] is_child(before, i) ==> node_at(before, i).nn_id is Some && node_at(
                    before,
                    i,
                ).nn_id->Some_0 < bank.len(),
            nnvec@.len() == base + t,
            nnvec@.subrange(0, base as int) == bank,
            forall|k: int|
                0 <= k < t ==> #[trigger] cp.nodes()[indices@[k] as int] == Some(
                    GenericGenoNode::Child(
                        GenoNode {
                            shape: node_at(before, indices@[k] as int).shape,
                            nn_id: Some((base + k) as usize),
                        },
                    ),
                ),
            forall|k: int|
                0 <= k < t ==> cloned(
                    bank[node_at(before, #[trigger] indices@[k] as int).nn_id->Some_0 as int],
                    nnvec@[base + k],
                ),
            forall|i: int|
                0 <= i < before.len() && (forall|k: int| 0 <= k < t ==> indices@[k] != i)
                    ==> #[trigger] cp.nodes()[i] == before[i],
        decreases indices@.len() - t,
    {
        let i = indices[t];
        assert(forall|k: int| 0 <= k < t ==> indices@[k] < indices@[t as int]);
        let src_id = cp.nn_id_at(i).unwrap();
        let net = nnvec[src_id].clone();
        let ghost prev = nnvec@;
        nnvec.push(net);
        assert(nnvec@[base + t] == net);
        assert forall|k: int| 0 <= k < t implies #[trigger] nnvec@[base + k] == prev[base + k] by {}
        assert(nnvec@.subrange(0, base as int) == prev.subrange(0, base as int));
        cp.set_nn_id(i, base + t);
        t = t + 1;
    }
    proof {
        let fin = cp.nodes();
        assert forall|i: int| 0 <= i < before.len() implies {
            &&& !is_child(before, i) ==> #[trigger] fin[i] == before[i]
            &&& is_child(before, i) ==> is_child(fin, i) && node_at(fin, i).shape == node_at(before, i).shape
        } by {
            if is_child(before, i) {
                assert(indices@.contains(i as usize));
                let k = choose|k: int| 0 <= k < indices@.len() && indices@[k] == i as usize;
                assert(fin[indices@[k] as int] == fin[i]);
            } else {
                assert forall|k: int| 0 <= k < t implies indices@[k] != i by {}
            }
        }
    }
}

/// `genos2` and `bank2` are what copying `genos[p]` for each `p` of `picks`
/// makes of `genos` and `bank`: the existing genomes and networks stay as they
/// were, and each copy has the frame of its source and binds its `k`-th body node
/// to a fresh clone, at `fresh_base(.., q) + k`, of the network the source's
/// node is bound to.
pub open spec fn reproduced<S: Clone, N: Clone>(
    genos: Seq<BlobGeno<S>>,
    bank: Seq<N>,
    picks: Seq<usize>,
    genos2: Seq<BlobGeno<S>>,
    bank2: Seq<N>,
) -> bool {
    &&& genos2.len() == genos.len() + picks.len()
    &&& genos2.subrange(0, genos.len() as int) == genos
    &&& bank2.len() == fresh_base(genos, picks, bank.len(), picks.len() as int)
    &&& bank2.subrange(0, bank.len() as int) == bank
    &&& forall|q: int|
        0 <= q < picks.len() ==> {
            let src = genos[picks[q] as int];
            let cp = #[trigger] genos2[genos.len() + q];
            let order = child_prefix(src.nodes(), src.nodes().len() as int);
            let base = fresh_base(genos, picks, bank.len(), q);
            &&& cp.wf()
            &&& cp.vec_tree.max_depth == src.vec_tree.max_depth
            &&& copied_frame(src.nodes(), cp.nodes())
            &&& forall|k: int|
                0 <= k < order.len() ==> {
                    &&& node_at(cp.nodes(), #[trigger] order[k] as int).nn_id == Some(
                        (base + k) as usize,
                    )
                    &&& base + k >= bank.len()
                    &&& cloned(
                        bank[node_at(src.nodes(), order[k] as int).nn_id->Some_0 as int],
                        bank2[base + k],
                    )
                }
        }
}

/// Appends to `genovec` one copy of `genovec[p]` for each `p` in `picks`, in
/// order.  Each copy gets its own clone of every network it refers to, appended
/// to the bank, so that no copy shares a bank entry with any other genome.
pub fn reproduce_from<S: Clone, N: Clone>(
    genovec: &mut Vec<BlobGeno<S>>,
    nnvec: &mut Vec<N>,
    picks: &Vec<usize>,
)
    requires
        forall|q: int| 0 <= q < picks@.len() ==> #[trigger] picks@[q] < old(genovec)@.len(),
        forall|g: int| 0 <= g < old(genovec)@.len() ==> (#[trigger] old(genovec)@[g]).wf(),
        ids_below(old(genovec)@, old(nnvec)@.len()),
        fresh_base(old(genovec)@, picks@, old(nnvec)@.len(), picks@.len() as int) <= usize::MAX,
    ensures
        reproduced(old(genovec)@, old(nnvec)@, picks@, final(genovec)@, final(nnvec)@),
{
    let ghost genos = genovec@;
    let ghost bank = nnvec@;
    let n0 = genovec.len();
    let mut q: usize = 0;
    while q < picks.len()
        invariant
            genos == old(genovec)@,
            bank == old(nnvec)@,
            n0 == genos.len(),
            forall|r: int| 0 <= r < picks@.len() ==> #[trigger] picks@[r] < genos.len(),
            forall|g: int| 0 <= g < genos.len() ==> (#[trigger] genos[g]).wf(),
            ids_below(genos, bank.len()),
            fresh_base(genos, picks@, bank.len(), picks@.len() as int) <= usize::MAX,
            q <= picks@.len(),
            genovec@.len() == n0 + q,
            genovec@.subrange(0, n0 as int) == genos,
            nnvec@.len() == fresh_base(genos, picks@, bank.len(), q as int),
            nnvec@.subrange(0, bank.len() as int) == bank,
            forall|r: int|
                0 <= r < q ==> {
                    let src = genos[picks@[r] as int];
                    let cp = #[trigger] genovec@[n0 + r];
                    let order = child_prefix(src.nodes(), src.nodes().len() as int);
                    let base = fresh_base(genos, picks@, bank.len(), r);
                    &&& cp.wf()
                    &&& cp.vec_tree.max_depth == src.vec_tree.max_depth
                    &&& copied_frame(src.nodes(), cp.nodes())
                    &&& forall|k: int|
                        0 <= k < order.len() ==> {
                            &&& node_at(cp.nodes(), #[trigger] order[k] as int).nn_id == Some(
                                (base + k) as usize,
                            )
                            &&& base + k >= bank.len()
                            &&& cloned(
                                bank[node_at(src.nodes(), order[k] as int).nn_id->Some_0 as int],
                                nnvec@[base + k],
                            )
                        }
                },
        decreases picks@.len() - q,
    {
        let p = picks[q];
        assert(genovec@[p as int] == genos[p as int]);
        let src = &genovec[p];
        let mut cp = src.duplicate();
        let ghost cp0 = cp.nodes();
        let ghost srcv = genos[p as int];
        let ghost prev = nnvec@;
        proof {
            assert(q < picks@.len());
            lemma_fresh_base_mono(genos, picks@, bank.len(), q as int + 1, picks@.len() as int);
            lemma_child_prefix_len(srcv.nodes(), srcv.nodes().len() as int);
            lemma_fresh_base_mono(genos, picks@, bank.len(), 0, q as int);
            assert forall|i: int| #[trigger] is_child(cp.nodes(), i) implies node_at(cp.nodes(), i).nn_id is Some
                && node_at(cp.nodes(), i).nn_id->Some_0 < nnvec@.len() by {
                assert(0 <= i < srcv.nodes().len());
                assert(is_child(srcv.nodes(), i));
                assert(is_child(genos[p as int].nodes(), i));
            }
            lemma_child_prefix_same(srcv.nodes(), cp.nodes(), srcv.nodes().len() as int);
        }
        rebind_fresh(&mut cp, nnvec);
        proof {
            assert forall|x: int| 0 <= x < prev.len() implies #[trigger] nnvec@[x] == prev[x] by {
                assert(nnvec@.subrange(0, prev.len() as int)[x] == nnvec@[x]);
            }
            assert forall|r: int| 0 <= r < q implies #[trigger] fresh_base(genos, picks@, bank.len(), r)
                + body_count(genos[picks@[r] as int]) <= prev.len() by {
                lemma_fresh_base_mono(genos, picks@, bank.len(), r + 1, q as int);
            }
            assert(nnvec@.subrange(0, bank.len() as int) =~= bank);
            lemma_copied_then_rebound(srcv.nodes(), cp0, cp.nodes());
        }
        let ghost gprev = genovec@;
        genovec.push(cp);
        proof {
            assert forall|r: int| 0 <= r <= q implies {
                let src = genos[picks@[r] as int];
                let cp = #[trigger] genovec@[n0 + r];
                let order = child_prefix(src.nodes(), src.nodes().len() as int);
                let base = fresh_base(genos, picks@, bank.len(), r);
                &&& cp.wf()
                &&& cp.vec_tree.max_depth == src.vec_tree.max_depth
                &&& copied_frame(src.nodes(), cp.nodes())
                &&& forall|k: int|
                    0 <= k < order.len() ==> {
                        &&& node_at(cp.nodes(), #[trigger] order[k] as int).nn_id == Some(
                            (base + k) as usize,
                        )
                        &&& base + k >= bank.len()
                        &&& cloned(
                            bank[node_at(src.nodes(), order[k] as int).nn_id->Some_0 as int],
                            nnvec@[base + k],
                        )
                    }
            } by {
                lemma_fresh_base_mono(genos, picks@, bank.len(), 0, r);
                if r == q {
                    let order = child_prefix(srcv.nodes(), srcv.nodes().len() as int);
                    assert(order == child_prefix(cp0, cp0.len() as int));
                    lemma_child_prefix_members(srcv.nodes(), srcv.nodes().len() as int);
                    assert(genovec@[n0 + r] == cp);
                    assert forall|k: int| 0 <= k < order.len() implies {
                        &&& node_at(cp.nodes(), #[trigger] order[k] as int).nn_id == Some(
                            (prev.len() + k) as usize,
                        )
                        &&& cloned(
                            bank[node_at(srcv.nodes(), order[k] as int).nn_id->Some_0 as int],
                            nnvec@[prev.len() + k],
                        )
                    } by {
                        let i = order[k] as int;
                        assert(is_child(srcv.nodes(), i));
                        assert(is_child(genos[p as int].nodes(), i));
                        let id = node_at(srcv.nodes(), i).nn_id->Some_0 as int;
                        assert(node_at(cp0, i).nn_id == node_at(srcv.nodes(), i).nn_id);
                        assert(id < bank.len());
                        assert(prev.subrange(0, bank.len() as int)[id] == prev[id]);
                    }
                }
                if r < q {
                    assert(genovec@[n0 + r] == gprev[n0 + r]);
                    let src = genos[picks@[r] as int];
                    let order = child_prefix(src.nodes(), src.nodes().len() as int);
                    let base = fresh_base(genos, picks@, bank.len(), r);
                    assert(base + order.len() <= prev.len());
                    assert forall|k: int| 0 <= k < order.len() implies #[trigger] order[k] == order[k] && nnvec@[base + k] == prev[base + k] by {
                        let x = base + k;
                        assert(0 <= x < prev.len());
                        assert(nnvec@[x] == prev[x]);
                    }
                }
            }
        }
        q = q + 1;
        proof {
            assert(genovec@.subrange(0, n0 as int) == genos) by {
                assert(genovec@.subrange(0, n0 as int) =~= genos);
            }
        }
    }
}

proof fn lemma_fresh_base_mono<S>(genos: Seq<BlobGeno<S>>, picks: Seq<usize>, base: nat, a: int, b: int)
    requires
        0 <= a <= b,
    ensures
        fresh_base(genos, picks, base, a) <= fresh_base(genos, picks, base, b),
    decreases b - a,
{
    if a < b {
        lemma_fresh_base_mono(genos, picks, base, a, b - 1);
    }
}

/// Number of body nodes below slot `n` that carry no neural id yet.
pub open spec fn unbound_count<S>(nodes: Seq<Option<GenericGenoNode<S>>>, n: int) -> nat
    decreases n,
{
    if n <= 0 {
        0
    } else {
        unbound_count(nodes, n - 1) + if is_child(nodes, n - 1) && node_at(nodes, n - 1).nn_id is None {
            1nat
        } else {
            0nat
        }
    }
}

/// Number of unbound body nodes in the first `g` genomes.
pub open spec fn unbound_before<S>(genos: Seq<BlobGeno<S>>, g: int) -> nat
    decreases g,
{
    if g <= 0 {
        0
    } else {
        unbound_before(genos, g - 1) + unbound_count(
            genos[g - 1].nodes(),
            genos[g - 1].nodes().len() as int,
        )
    }
}

/// `b` is `a` where every unbound body node at slot `i` is bound to
/// `base + unbound_count(a, i)` and nothing else changes.
pub open spec fn bound_fresh<S>(
    a: Seq<Option<GenericGenoNode<S>>>,
    b: Seq<Option<GenericGenoNode<S>>>,
    base: nat,
) -> bool {
    &&& a.len() == b.len()
    &&& forall|i: int|
        0 <= i < a.len() ==> #[trigger] b[i] == if is_child(a, i) && node_at(a, i).nn_id is None {
            Some(
                GenericGenoNode::Child(
                    GenoNode {
                        shape: node_at(a, i).shape,
                        nn_id: Some((base + unbound_count(a, i)) as usize),
                    },
                ),
            )
        } else {
            a[i]
        }
}

proof fn lemma_unbound_count_le<S>(nodes: Seq<Option<GenericGenoNode<S>>>, a: int, b: int)
    requires
        0 <= a <= b,
    ensures
        unbound_count(nodes, a) <= unbound_count(nodes, b),
        unbound_count(nodes, b) <= unbound_count(nodes, a) + (b - a),
    decreases b - a,
{
    if a < b {
        lemma_unbound_count_le(nodes, a, b - 1);
    }
}

proof fn lemma_unbound_before_mono<S>(genos: Seq<BlobGeno<S>>, a: int, b: int)
    requires
        0 <= a <= b,
    ensures
        unbound_before(genos, a) <= unbound_before(genos, b),
    decreases b - a,
{
    if a < b {
        lemma_unbound_before_mono(genos, a, b - 1);
    }
}

/// Binds every unbound body node of `geno`, in slot order, to a new network
/// made by `make` and appended to the bank.
fn bind_unbound<S, N, F: Fn() -> N>(geno: &mut BlobGeno<S>, nnvec: &mut Vec<N>, make: &F)
    requires
        make.requires(()),
        old(nnvec)@.len() + unbound_count(old(geno).nodes(), old(geno).nodes().len() as int) <= usize::MAX,
    ensures
        final(geno).wf() == old(geno).wf(),
        final(geno).vec_tree.max_depth == old(geno).vec_tree.max_depth,
        bound_fresh(old(geno).nodes(), final(geno).nodes(), old(nnvec)@.len()),
        final(nnvec)@.len() == old(nnvec)@.len() + unbound_count(
            old(geno).nodes(),
            old(geno).nodes().len() as int,
        ),
        final(nnvec)@.subrange(0, old(nnvec)@.len() as int) == old(nnvec)@,
        forall|x: int|
            old(nnvec)@.len() <= x < final(nnvec)@.len() ==> make.ensures((), #[trigger] final(nnvec)@[x]),
{
    let ghost before = geno.nodes();
    let ghost bank = nnvec@;
    let base = nnvec.len();
    let len = geno.vec_tree.nodes.len();
    let mut i: usize = 0;
    while i < len
        invariant
            make.requires(()),
            before == old(geno).nodes(),
            bank == old(nnvec)@,
            base == bank.len(),
            len == before.len(),
            base + unbound_count(before, len as int) <= usize::MAX,
            geno.wf() == old(geno).wf(),
            geno.vec_tree.max_depth == old(geno).vec_tree.max_depth,
            geno.nodes().len() == len,
            i <= len,
            nnvec@.len() == base + unbound_count(before, i as int),
            nnvec@.subrange(0, base as int) == bank,
            forall|x: int| base <= x < nnvec@.len() ==> make.ensures((), #[trigger] nnvec@[x]),
            forall|j: int|
                0 <= j < len ==> #[trigger] geno.nodes()[j] == if j < i && is_child(before, j)
                    && node_at(before, j).nn_id is None {
                    Some(
                        GenericGenoNode::Child(
                            GenoNode {
                                shape: node_at(before, j).shape,
                                nn_id: Some((base + unbound_count(before, j)) as usize),
                            },
                        ),
                    )
                } else {
                    before[j]
                },
        decreases len - i,
    {
        proof {
            lemma_unbound_count_le(before, 0, i as int);
            lemma_unbound_count_le(before, i as int + 1, len as int);
            lemma_unbound_count_le(before, i as int, len as int);
        }
        if geno.is_child_slot(i) && geno.nn_id_at(i).is_none() {
            let net = make();
            let ghost prev = nnvec@;
            nnvec.push(net);
            proof {
                assert(nnvec@.subrange(0, base as int) =~= prev.subrange(0, base as int));
                assert forall|x: int| base <= x < nnvec@.len() implies make.ensures((), #[trigger] nnvec@[x]) by {
                    if x < prev.len() {
                        assert(nnvec@[x] == prev[x]);
                    }
                }
            }
            geno.set_nn_id(i, nnvec.len() - 1);
        }
        i = i + 1;
    }
}

/// After mutation, binds every body node that gained a limb (and so has no
/// id yet) to a new network made by `new_block_nn`, appended to the bank.
/// Nodes that already have an id keep it; networks no genome refers to any
/// more stay in the bank until the next `clean_outcast`.
pub fn sync_mutate<S, N, F: Fn() -> N>(genos: &mut Vec<BlobGeno<S>>, nnvec: &mut Vec<N>, new_block_nn: F)
    requires
        forall|u: ()| new_block_nn.requires(u),
        forall|g: int| 0 <= g < old(genos)@.len() ==> (#[trigger] old(genos)@[g]).wf(),
        old(nnvec)@.len() + unbound_before(old(genos)@, old(genos)@.len() as int) <= usize::MAX,
    ensures
        final(genos)@.len() == old(genos)@.len(),
        final(nnvec)@.len() == old(nnvec)@.len() + unbound_before(old(genos)@, old(genos)@.len() as int),
        final(nnvec)@.subrange(0, old(nnvec)@.len() as int) == old(nnvec)@,
        forall|x: int|
            old(nnvec)@.len() <= x < final(nnvec)@.len() ==> new_block_nn.ensures((), #[trigger] final(nnvec)@[x]),
        forall|g: int|
            0 <= g < old(genos)@.len() ==> {
                &&& (#[trigger] final(genos)@[g]).wf()
                &&& final(genos)@[g].vec_tree.max_depth == old(genos)@[g].vec_tree.max_depth
                &&& bound_fresh(
                    old(genos)@[g].nodes(),
                    final(genos)@[g].nodes(),
                    old(nnvec)@.len() + unbound_before(old(genos)@, g),
                )
            },
{
    let ghost olds = genos@;
    let ghost bank = nnvec@;
    let count = genos.len();
    let mut pending: Vec<BlobGeno<S>> = Vec::new();
    std::mem::swap(genos, &mut pending);
    let mut g: usize = 0;
    while g < count
        invariant
            forall|u: ()| new_block_nn.requires(u),
            olds == old(genos)@,
            bank == old(nnvec)@,
            count == olds.len(),
            forall|h: int| 0 <= h < olds.len() ==> (#[trigger] olds[h]).wf(),
            bank.len() + unbound_before(olds, olds.len() as int) <= usize::MAX,
            g <= count,
            pending@ == olds.skip(g as int),
            genos@.len() == g,
            nnvec@.len() == bank.len() + unbound_before(olds, g as int),
            nnvec@.subrange(0, bank.len() as int) == bank,
            forall|x: int| bank.len() <= x < nnvec@.len() ==> new_block_nn.ensures((), #[trigger] nnvec@[x]),
            forall|h: int|
                0 <= h < g ==> {
                    &&& (#[trigger] genos@[h]).wf()
                    &&& genos@[h].vec_tree.max_depth == olds[h].vec_tree.max_depth
                    &&& bound_fresh(olds[h].nodes(), genos@[h].nodes(), bank.len() + unbound_before(olds, h))
                },
        decreases count - g,
    {
        let mut geno = pending.remove(0);
        assert(geno == olds[g as int]);
        proof {
            lemma_unbound_count_le(geno.nodes(), 0, geno.nodes().len() as int);
            lemma_unbound_before_mono(olds, g as int + 1, olds.len() as int);
        }
        let ghost prev = nnvec@;
        bind_unbound(&mut geno, nnvec, &new_block_nn);
        proof {
            assert(nnvec@.subrange(0, bank.len() as int) =~= nnvec@.subrange(0, prev.len() as int).subrange(0, bank.len() as int));
            assert forall|x: int| bank.len() <= x < nnvec@.len() implies new_block_nn.ensures((), #[trigger] nnvec@[x]) by {
                if x < prev.len() {
                    assert(nnvec@.subrange(0, prev.len() as int)[x] == nnvec@[x]);
                }
            }
        }
        genos.push(geno);
        g = g + 1;
        assert(pending@ == olds.skip(g as int));
    }
}

/// Fills the population up to `population` genomes by copying survivors drawn
/// uniformly at random (with replacement), as `reproduce_from` does with the
/// draws; returns the draws.
pub fn reproduce<S: Clone, N: Clone>(
    genovec: &mut Vec<BlobGeno<S>>,
    nnvec: &mut Vec<N>,
    population: usize,
) -> (picks: Vec<usize>)
    requires
        0 < old(genovec)@.len() < population,
        forall|g: int| 0 <= g < old(genovec)@.len() ==> (#[trigger] old(genovec)@[g]).wf(),
        ids_below(old(genovec)@, old(nnvec)@.len()),
        old(nnvec)@.len() + (population - old(genovec)@.len()) * most_bodies(old(genovec)@, old(genovec)@.len() as int)
            <= usize::MAX,
    ensures
        picks@.len() == population - old(genovec)@.len(),
        forall|q: int| 0 <= q < picks@.len() ==> #[trigger] picks@[q] < old(genovec)@.len(),
        final(genovec)@.len() == population,
        reproduced(old(genovec)@, old(nnvec)@, picks@, final(genovec)@, final(nnvec)@),
{
    let n = genovec.len();
    let mut picks: Vec<usize> = Vec::new();
    while picks.len() < population - n
        invariant
            0 < n < population,
            picks@.len() <= population - n,
            forall|q: int| 0 <= q < picks@.len() ==> #[trigger] picks@[q] < n,
        decreases population - n - picks@.len(),
    {
        picks.push(random_below(n));
    }
    proof {
        lemma_fresh_base_bound(genovec@, picks@, nnvec@.len(), picks@.len() as int);
    }
    reproduce_from(genovec, nnvec, &picks);
    picks
}

/// Copies made by one reproduction never share a bank entry, with each other or
/// with any genome that was there before: the `k1`-th body node of copy `q1` and
/// the `k2`-th of copy `q2` are bound to different fresh entries unless they are
/// the same node of the same copy.
pub proof fn lemma_reproduced_ids_distinct<S>(
    genos: Seq<BlobGeno<S>>,
    picks: Seq<usize>,
    base: nat,
    q1: int,
    k1: int,
    q2: int,
    k2: int,
)
    requires
        0 <= q1 < picks.len(),
        0 <= q2 < picks.len(),
        0 <= k1 < body_count(genos[picks[q1] as int]),
        0 <= k2 < body_count(genos[picks[q2] as int]),
        q1 != q2 || k1 != k2,
    ensures
        fresh_base(genos, picks, base, q1) + k1 != fresh_base(genos, picks, base, q2) + k2,
        fresh_base(genos, picks, base, q1) + k1 >= base,
{
    lemma_fresh_base_mono(genos, picks, base, 0, q1);
    if q1 < q2 {
        lemma_fresh_base_mono(genos, picks, base, q1 + 1, q2);
    } else if q2 < q1 {
        lemma_fresh_base_mono(genos, picks, base, q2 + 1, q1);
    }
}

/// The most body nodes any of the first `n` genomes has.
pub open spec fn most_bodies<S>(genos: Seq<BlobGeno<S>>, n: int) -> nat
    decreases n,
{
    if n <= 0 {
        0
    } else {
        let m = most_bodies(genos, n - 1);
        let b = body_count(genos[n - 1]);
        if b > m {
            b
        } else {
            m
        }
    }
}

proof fn lemma_most_bodies<S>(genos: Seq<BlobGeno<S>>, n: int, i: int)
    requires
        0 <= i < n,
    ensures
        body_count(genos[i]) <= most_bodies(genos, n),
    decreases n,
{
    if i < n - 1 {
        lemma_most_bodies(genos, n - 1, i);
    }
}

proof fn lemma_fresh_base_bound<S>(genos: Seq<BlobGeno<S>>, picks: Seq<usize>, base: nat, q: int)
    requires
        0 <= q <= picks.len(),
        forall|r: int| 0 <= r < picks.len() ==> #[trigger] picks[r] < genos.len(),
    ensures
        fresh_base(genos, picks, base, q) <= base + q * most_bodies(genos, genos.len() as int),
    decreases q,
{
    if q > 0 {
        lemma_fresh_base_bound(genos, picks, base, q - 1);
        lemma_most_bodies(genos, genos.len() as int, picks[q - 1] as int);
        let m = most_bodies(genos, genos.len() as int);
        assert((q - 1) * m + m == q * m) by (nonlinear_arith);
    }
}

} // verus!
