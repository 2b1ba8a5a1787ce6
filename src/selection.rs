//! Survivor selection that mixes fitness with diversity.
use vstd::prelude::*;
use vstd::pervasive::VecAdditionalExecFns;
use crate::chance::{random_below, weight_total, weighted_pick};

verus! {

/// Share of the fitness survivors replaced by diversity picks: three in ten.
pub const HYBRID_RATE: [usize; 2] = [3, 10];

/// Largest population the diversity weights are computed for.
pub const MAX_RANKED: usize = 4096;

/// No value occurs twice.
pub open spec fn distinct(s: Seq<usize>) -> bool {
    forall|i: int, j: int| 0 <= i < j < s.len() ==> s[i] != s[j]
}

/// The creature at rank `k` may still be drawn: it was not drawn before and
/// was not a survivor from the start.
pub open spec fn eligible(init: Seq<usize>, ted: Seq<usize>, chosen: Seq<bool>, k: int) -> bool {
    !chosen[k] && !init.contains(ted[k])
}

/// Weight of rank `k` among `n`: `(n - k)^4`.
pub open spec fn rank_weight(n: int, k: int) -> int {
    (n - k) * (n - k) * (n - k) * (n - k)
}

/// The drawing weight of every rank: `(n - rank)^4` for a creature that may
/// still be drawn, 0 otherwise.  The total is positive exactly when some
/// creature may be drawn.
pub fn diversity_weights(init: &Vec<usize>, ted_order: &Vec<usize>, chosen: &Vec<bool>) -> (w: Vec<u64>)
    requires
        ted_order@.len() <= MAX_RANKED,
        chosen@.len() == ted_order@.len(),
    ensures
        w@.len() == ted_order@.len(),
        forall|k: int|
            0 <= k < w@.len() ==> #[trigger] w@[k] == if eligible(init@, ted_order@, chosen@, k) {
                rank_weight(ted_order@.len() as int, k)
            } else {
                0
            },
        0 <= weight_total(w@) <= u64::MAX,
        weight_total(w@) > 0 <==> exists|k: int| 0 <= k < w@.len() && eligible(init@, ted_order@, chosen@, k),
{
    let n = ted_order.len();
    let m = init.len();
    let mut weights: Vec<u64> = Vec::new();
    let mut q: usize = 0;
    while q < n
        invariant
            n == ted_order@.len(),
            m == init@.len(),
            n <= MAX_RANKED,
            chosen@.len() == n,
            q <= n,
            weights@.len() == q,
            0 <= weight_total(weights@) <= q * 0x1_0000_0000_0000,
            weight_total(weights@) > 0 <==> exists|k: int| 0 <= k < q && eligible(init@, ted_order@, chosen@, k),
            forall|k: int|
                0 <= k < q ==> #[trigger] weights@[k] == if eligible(init@, ted_order@, chosen@, k) {
                    rank_weight(n as int, k)
                } else {
                    0
                },
        decreases n - q,
    {
        let creature = ted_order[q];
        let mut in_init = false;
        let mut t: usize = 0;
        while t < m
            invariant
                m == init@.len(),
                t <= m,
                in_init == exists|u: int| 0 <= u < t && init@[u] == creature,
            decreases m - t,
        {
            if !in_init && init[t] == creature {
                in_init = true;
            }
            t = t + 1;
        }
        proof {
            assert(init@.contains(creature) == exists|u: int| 0 <= u < m && init@[u] == creature);
        }
        let w: u64 = if !chosen[q] && !in_init {
            let r = (n - q) as u64;
            assert(1 <= r * r <= 0x100_0000) by (nonlinear_arith)
                requires
                    1 <= r <= 4096,
            ;
            let r2 = r * r;
            assert(1 <= r2 * r <= 0x10_0000_0000) by (nonlinear_arith)
                requires
                    1 <= r <= 4096,
                    1 <= r2 <= 0x100_0000,
            ;
            let r3 = r2 * r;
            assert(1 <= r3 * r <= 0x1_0000_0000_0000) by (nonlinear_arith)
                requires
                    1 <= r <= 4096,
                    1 <= r3 <= 0x10_0000_0000,
            ;
            r3 * r
        } else {
            0
        };
        let ghost prev = weights@;
        weights.push(w);
        proof {
            assert(weights@.drop_last() == prev);
            assert(weight_total(weights@) == weight_total(prev) + w);
            assert(weight_total(weights@) <= (q + 1) * 0x1_0000_0000_0000) by (nonlinear_arith)
                requires
                    weight_total(weights@) == weight_total(prev) + w,
                    weight_total(prev) <= q * 0x1_0000_0000_0000,
                    w <= 0x1_0000_0000_0000,
            ;
            if w > 0 {
                assert(eligible(init@, ted_order@, chosen@, q as int));
            }
            if exists|k: int| 0 <= k < q + 1 && eligible(init@, ted_order@, chosen@, k) {
                let k = choose|k: int| 0 <= k < q + 1 && eligible(init@, ted_order@, chosen@, k);
                if k == q {
                    assert(w > 0);
                }
            }
        }
        q = q + 1;
    }
    proof {
        assert(weight_total(weights@) <= u64::MAX) by (nonlinear_arith)
            requires
                weight_total(weights@) <= n * 0x1_0000_0000_0000,
                n <= 4096,
        ;
    }
    weights
}

/// One diversity pick: when the creature at rank `pick` may still be drawn,
/// it takes slot `slot` of the survivors and is marked drawn; otherwise
/// nothing changes.
pub fn hybrid_replace(
    survivors: &mut Vec<usize>,
    init: &Vec<usize>,
    ted_order: &Vec<usize>,
    chosen: &mut Vec<bool>,
    slot: usize,
    pick: usize,
)
    requires
        slot < old(survivors)@.len(),
        pick < ted_order@.len(),
        old(chosen)@.len() == ted_order@.len(),
    ensures
        eligible(init@, ted_order@, old(chosen)@, pick as int) ==> final(survivors)@ == old(survivors)@.update(
            slot as int,
            ted_order@[pick as int],
        ) && final(chosen)@ == old(chosen)@.update(pick as int, true),
        !eligible(init@, ted_order@, old(chosen)@, pick as int) ==> final(survivors)@ == old(survivors)@
            && final(chosen)@ == old(chosen)@,
{
    let creature = ted_order[pick];
    if chosen[pick] {
        return ;
    }
    let mut t: usize = 0;
    while t < init.len()
        invariant
            t <= init@.len(),
            pick < ted_order@.len(),
            creature == ted_order@[pick as int],
            survivors@ == old(survivors)@,
            chosen@ == old(chosen)@,
            forall|u: int| 0 <= u < t ==> init@[u] != creature,
        decreases init@.len() - t,
    {
        if init[t] == creature {
            assert(init@.contains(creature));
            return ;
        }
        t = t + 1;
    }
    chosen.set(pick, true);
    survivors.set(slot, creature);
}

/// Replaces `3/10` of the fitness survivors (rounded down), at random slots,
/// with creatures drawn from `ted_order` (the population ranked by crowding
/// distance, most diverse first) with the weights of `diversity_weights`.  A
/// creature that was a survivor from the start, or was drawn before, is never
/// drawn, so no creature ends up twice in the surviving set; drawing stops
/// early when no creature is left to draw.
pub fn hybrid_selection(survivors: &mut Vec<usize>, ted_order: &Vec<usize>)
    requires
        ted_order@.len() <= MAX_RANKED,
        distinct(ted_order@),
    ensures
        final(survivors)@.len() == old(survivors)@.len(),
        forall|i: int|
            0 <= i < final(survivors)@.len() ==> #[trigger] final(survivors)@[i] == old(survivors)@[i] || (
            ted_order@.contains(final(survivors)@[i]) && !old(survivors)@.contains(final(survivors)@[i])),
        distinct(old(survivors)@) ==> distinct(final(survivors)@),
        changed_count(old(survivors)@, final(survivors)@, old(survivors)@.len() as int) <= old(survivors)@.len() * 3 / 10,
        old(survivors)@.len() * 3 / 10 > 0 && (exists|k: int|
            0 <= k < ted_order@.len() && !old(survivors)@.contains(ted_order@[k])) ==> exists|i: int|
            0 <= i < old(survivors)@.len() && final(survivors)@[i] != old(survivors)@[i],
{
    let ghost init = survivors@;
    let m = survivors.len();
    let n = ted_order.len();
    let rounds = m / HYBRID_RATE[1] * HYBRID_RATE[0] + (m % HYBRID_RATE[1]) * HYBRID_RATE[0] / HYBRID_RATE[1];
    let mut init_vec: Vec<usize> = Vec::new();
    let mut k: usize = 0;
    while k < m
        invariant
            k <= m,
            m == init.len(),
            init == survivors@,
            init_vec@ == init.take(k as int),
        decreases m - k,
    {
        init_vec.push(survivors[k]);
        k = k + 1;
        assert(init_vec@ == init.take(k as int));
    }
    assert(init_vec@ == init);
    let mut chosen: Vec<bool> = Vec::new();
    let mut k: usize = 0;
    while k < n
        invariant
            k <= n,
            n == ted_order@.len(),
            chosen@.len() == k,
            forall|q: int| 0 <= q < k ==> !chosen@[q],
        decreases n - k,
    {
        chosen.push(false);
        k = k + 1;
    }
    let ghost has_new = exists|k: int| 0 <= k < ted_order@.len() && !init.contains(ted_order@[k]);
    proof {
        assert(rounds == m * 3 / 10) by (nonlinear_arith)
            requires
                rounds == m / 10 * 3 + (m % 10) * 3 / 10,
                m == 10 * (m / 10) + m % 10,
                0 <= m % 10 < 10,
        ;
        assert(changed_count(init, survivors@, m as int) == 0) by {
            lemma_changed_same(init, m as int);
        }
    }
    let mut round: usize = 0;
    while round < rounds
        invariant
            round <= rounds,
            rounds == m * 3 / 10,
            has_new == exists|k: int| 0 <= k < ted_order@.len() && !init.contains(ted_order@[k]),
            changed_count(init, survivors@, m as int) <= round,
            round == 0 ==> forall|q: int| 0 <= q < n ==> !chosen@[q],
            round > 0 && has_new ==> exists|i: int| 0 <= i < m && survivors@[i] != init[i],
            init == old(survivors)@,
            init_vec@ == init,
            survivors@.len() == m,
            m == init.len(),
            n == ted_order@.len(),
            n <= MAX_RANKED,
            distinct(ted_order@),
            chosen@.len() == n,
            forall|i: int|
                0 <= i < m ==> #[trigger] survivors@[i] == init[i] || exists|q: int|
                    0 <= q < n && chosen@[q] && survivors@[i] == ted_order@[q] && !init.contains(ted_order@[q]),
            distinct(init) ==> distinct(survivors@),
        ensures
            changed_count(init, survivors@, m as int) <= rounds,
            rounds > 0 && has_new ==> exists|i: int| 0 <= i < m && survivors@[i] != init[i],
        decreases rounds - round,
    {
        if m == 0 {
            break ;
        }
        let weights = diversity_weights(&init_vec, ted_order, &chosen);
        if weights.len() == 0 || !positive_total(&weights) {
            proof {
                if round == 0 && has_new {
                    let k = choose|k: int| 0 <= k < ted_order@.len() && !init.contains(ted_order@[k]);
                    assert(eligible(init_vec@, ted_order@, chosen@, k));
                }
            }
            break ;
        }
        let slot = random_below(m);
        let pick = weighted_pick(&weights);
        let creature = ted_order[pick];
        let ghost before = survivors@;
        let ghost chosen0 = chosen@;
        assert(eligible(init, ted_order@, chosen0, pick as int));
        hybrid_replace(survivors, &init_vec, ted_order, &mut chosen, slot, pick);
        proof {
            lemma_changed_update(init, before, slot as int, creature, m as int);
            assert(survivors@ == before.update(slot as int, creature));
            assert(survivors@[slot as int] != init[slot as int]) by {
                assert(init.contains(init[slot as int]));
            }
            assert(!chosen0[pick as int] && !init.contains(creature));
            assert forall|i: int|
                0 <= i < m implies #[trigger] survivors@[i] == init[i] || exists|q: int|
                    0 <= q < n && chosen@[q] && survivors@[i] == ted_order@[q] && !init.contains(ted_order@[q]) by {
                if i == slot {
                    assert(chosen@[pick as int] && survivors@[i] == ted_order@[pick as int]);
                } else {
                    assert(survivors@[i] == before[i]);
                    if before[i] != init[i] {
                        let q = choose|q: int|
                            0 <= q < n && chosen0[q] && before[i] == ted_order@[q] && !init.contains(ted_order@[q]);
                        assert(chosen@[q]);
                    }
                }
            }
            if distinct(init) {
                assert forall|i: int, j: int| 0 <= i < j < m implies survivors@[i] != survivors@[j] by {
                    if i == slot || j == slot {
                        let o = if i == slot {
                            j
                        } else {
                            i
                        };
                        assert(survivors@[o] == before[o]);
                        if before[o] == init[o] {
                            assert(init.contains(init[o]));
                        } else {
                            let q = choose|q: int|
                                0 <= q < n && chosen0[q] && before[o] == ted_order@[q] && !init.contains(ted_order@[q]);
                            assert(q != pick);
                        }
                    } else {
                        assert(survivors@[i] == before[i] && survivors@[j] == before[j]);
                    }
                }
            }
        }
        round = round + 1;
    }
}

/// Some weight is positive (so, the weights being unsigned, the total is).
fn positive_total(weights: &Vec<u64>) -> (r: bool)
    ensures
        r == (weight_total(weights@) > 0),
{
    let mut k: usize = 0;
    while k < weights.len()
        invariant
            k <= weights@.len(),
            forall|j: int| 0 <= j < k ==> weights@[j] == 0,
        decreases weights@.len() - k,
    {
        if weights[k] > 0 {
            proof {
                lemma_total_ge_entry(weights@, k as int);
            }
            return true;
        }
        k = k + 1;
    }
    proof {
        lemma_total_zero(weights@);
    }
    false
}

proof fn lemma_total_ge_entry(w: Seq<u64>, k: int)
    requires
        0 <= k < w.len(),
    ensures
        weight_total(w) >= w[k],
    decreases w.len(),
{
    lemma_total_nonneg(w.drop_last());
    if k < w.len() - 1 {
        lemma_total_ge_entry(w.drop_last(), k);
    }
}

proof fn lemma_total_nonneg(w: Seq<u64>)
    ensures
        weight_total(w) >= 0,
    decreases w.len(),
{
    if w.len() > 0 {
        lemma_total_nonneg(w.drop_last());
    }
}

proof fn lemma_total_zero(w: Seq<u64>)
    requires
        forall|j: int| 0 <= j < w.len() ==> w[j] == 0,
    ensures
        weight_total(w) == 0,
    decreases w.len(),
{
    if w.len() > 0 {
        lemma_total_zero(w.drop_last());
    }
}

/// Number of positions below `n` where `a` and `b` differ.
pub open spec fn changed_count(a: Seq<usize>, b: Seq<usize>, n: int) -> nat
    decreases n,
{
    if n <= 0 {
        0
    } else {
        changed_count(a, b, n - 1) + if a[n - 1] != b[n - 1] {
            1nat
        } else {
            0nat
        }
    }
}

proof fn lemma_changed_same(a: Seq<usize>, n: int)
    ensures
        changed_count(a, a, n) == 0,
    decreases n,
{
    if n > 0 {
        lemma_changed_same(a, n - 1);
    }
}

proof fn lemma_changed_update(a: Seq<usize>, b: Seq<usize>, j: int, v: usize, n: int)
    requires
        0 <= j < b.len(),
        n <= b.len(),
    ensures
        changed_count(a, b.update(j, v), n) <= changed_count(a, b, n) + 1,
        n <= j ==> changed_count(a, b.update(j, v), n) == changed_count(a, b, n),
    decreases n,
{
    if n > 0 {
        lemma_changed_update(a, b, j, v, n - 1);
    }
}

} // verus!
