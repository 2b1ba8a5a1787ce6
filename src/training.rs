//! Bookkeeping of the training loop.
use vstd::prelude::*;
use crate::geno::BlobGeno;
use crate::quad_tree::{max_tree_len, ted};

verus! {

/// Population of each generation.
pub const POPULATION: usize = 30;

/// Frames in one generation.
pub const ITERATION_LENGTH: usize = 1000;

/// A generation has just ended: `frames` is a positive multiple of the
/// generation length.
pub fn iteration_end(frames: u128) -> (r: bool)
    ensures
        r == (frames % (ITERATION_LENGTH as u128) == 0 && frames != 0),
{
    frames % (ITERATION_LENGTH as u128) == 0 && frames != 0
}

/// The neural ids of a block and of its parent block.
pub struct NeuronId {
    pub id: usize,
    pub parent_id: Option<usize>,
}

impl NeuronId {
    pub fn new(id: usize, parent_id: Option<usize>) -> (r: Self)
        ensures
            r.id == id,
            r.parent_id == parent_id,
    {
        NeuronId { id, parent_id }
    }
}

impl Default for NeuronId {
    fn default() -> (r: Self)
        ensures
            r.id == 0,
            r.parent_id is None,
    {
        NeuronId { id: 0, parent_id: None }
    }
}

/// Holds the next generation between selection and respawning.
pub struct TrainMutPipe<G, I, N> {
    genovec: Vec<G>,
    infovec: Vec<I>,
    nnvec: Vec<N>,
}

impl<G, I, N> TrainMutPipe<G, I, N> {
    pub closed spec fn genos(&self) -> Seq<G> {
        self.genovec@
    }

    pub closed spec fn infos(&self) -> Seq<I> {
        self.infovec@
    }

    pub closed spec fn nets(&self) -> Seq<N> {
        self.nnvec@
    }

    /// An empty pipe.
    pub fn new() -> (r: Self)
        ensures
            r.genos().len() == 0,
            r.infos().len() == 0,
            r.nets().len() == 0,
    {
        TrainMutPipe { genovec: Vec::new(), infovec: Vec::new(), nnvec: Vec::new() }
    }

    /// Stores a generation; the pipe must be empty and the generation not.
    pub fn push(&mut self, genovec: Vec<G>, infovec: Vec<I>, nnvec: Vec<N>)
        requires
            old(self).genos().len() == 0,
            old(self).infos().len() == 0,
            old(self).nets().len() == 0,
            genovec@.len() > 0,
            infovec@.len() > 0,
            nnvec@.len() > 0,
        ensures
            final(self).genos() == genovec@,
            final(self).infos() == infovec@,
            final(self).nets() == nnvec@,
    {
        self.genovec = genovec;
        self.infovec = infovec;
        self.nnvec = nnvec;
    }

    /// Takes the stored generation out, leaving the pipe empty.
    pub fn pop(&mut self) -> (r: (Vec<G>, Vec<I>, Vec<N>))
        requires
            old(self).genos().len() > 0,
            old(self).infos().len() > 0,
            old(self).nets().len() > 0,
        ensures
            r.0@ == old(self).genos(),
            r.1@ == old(self).infos(),
            r.2@ == old(self).nets(),
            final(self).genos().len() == 0,
            final(self).infos().len() == 0,
            final(self).nets().len() == 0,
    {
        let mut genovec: Vec<G> = Vec::new();
        let mut infovec: Vec<I> = Vec::new();
        let mut nnvec: Vec<N> = Vec::new();
        std::mem::swap(&mut self.genovec, &mut genovec);
        std::mem::swap(&mut self.infovec, &mut infovec);
        std::mem::swap(&mut self.nnvec, &mut nnvec);
        (genovec, infovec, nnvec)
    }

    /// No generation is waiting.
    pub fn is_empty(&self) -> (r: bool)
        ensures
            r == (self.genos().len() == 0),
    {
        self.genovec.len() == 0
    }
}

/// Sum of the tree edit distances from genome `i` to the first `m` genomes.
pub open spec fn ted_sum<S>(genos: Seq<BlobGeno<S>>, i: int, m: int) -> nat
    decreases m,
{
    if m <= 0 {
        0
    } else {
        ted_sum(genos, i, m - 1) + ted(genos[i].nodes(), genos[m - 1].nodes(), 0, 0)
    }
}

/// For each genome, the sum of its tree edit distances to every genome of the
/// population (itself included); divided by the population size this is its
/// crowding distance.
pub fn crowding_sums<S>(genos: &Vec<BlobGeno<S>>) -> (r: Vec<usize>)
    requires
        forall|g: int| 0 <= g < genos@.len() ==> (#[trigger] genos@[g]).wf(),
        genos@.len() * (8 * max_tree_len()) <= usize::MAX,
    ensures
        r@.len() == genos@.len(),
        forall|i: int| 0 <= i < genos@.len() ==> #[trigger] r@[i] == ted_sum(genos@, i, genos@.len() as int),
{
    let n = genos.len();
    let mut result: Vec<usize> = Vec::new();
    let mut i: usize = 0;
    while i < n
        invariant
            n == genos@.len(),
            forall|g: int| 0 <= g < n ==> (#[trigger] genos@[g]).wf(),
            n * (8 * max_tree_len()) <= usize::MAX,
            i <= n,
            result@.len() == i,
            forall|k: int| 0 <= k < i ==> #[trigger] result@[k] == ted_sum(genos@, k, n as int),
        decreases n - i,
    {
        let mut sum: usize = 0;
        let mut j: usize = 0;
        assert(0 * (8 * max_tree_len()) == 0);
        while j < n
            invariant
                n == genos@.len(),
                forall|g: int| 0 <= g < n ==> (#[trigger] genos@[g]).wf(),
                n * (8 * max_tree_len()) <= usize::MAX,
                i < n,
                j <= n,
                sum == ted_sum(genos@, i as int, j as int),
                sum <= j * (8 * max_tree_len()),
            decreases n - j,
        {
            let d = genos[i].vec_tree.tree_edit_distance(&genos[j].vec_tree);
            proof {
                crate::quad_tree::lemma_ted_bound(genos@[i as int].nodes(), genos@[j as int].nodes(), 0, 0);
                assert(j * (8 * max_tree_len()) + 8 * max_tree_len() <= n * (8 * max_tree_len())) by (nonlinear_arith)
                    requires
                        j < n,
                ;
            }
            sum = sum + d;
            proof {
                assert(d <= 8 * max_tree_len());
                assert(sum <= (j + 1) * (8 * max_tree_len())) by (nonlinear_arith)
                    requires
                        sum <= j * (8 * max_tree_len()) + d,
                        d <= 8 * max_tree_len(),
                ;
            }
            j = j + 1;
        }
        result.push(sum);
        i = i + 1;
    }
    result
}

} // verus!
