//! The block layout of a creature built from its genome.
//!
//! A builder keeps the blocks created so far, linked through their four sides
//! (0 = top, 1 = bottom, 2 = left, 3 = right), and a cursor on one of them.
//! Adding a block on a side of the cursor block links the two, records the
//! genome slot and neural ids of the new block, and moves the cursor onto it.
use vstd::prelude::*;
use vstd::pervasive::VecAdditionalExecFns;
use crate::geno::{is_child, node_at, BlobGeno, GenericGenoNode};
use crate::quad_tree::{child_at, parent_of, span};

verus! {

/// One block of a creature.
#[derive(Clone, Copy)]
pub struct BlobBlock {
    pub top: Option<usize>,
    pub bottom: Option<usize>,
    pub left: Option<usize>,
    pub right: Option<usize>,
    pub vec_index: usize,
    /// Distance from the root block.
    pub depth: u32,
    pub nn_id: usize,
    pub parent_nn_id: Option<usize>,
    /// Side of the parent block this block is attached to.
    pub parent_anchor: Option<usize>,
    /// Genome slot the block was built from.
    pub geno_index: usize,
}

/// The block linked on `side`.
pub open spec fn link_of(b: BlobBlock, side: int) -> Option<usize> {
    if side == 0 {
        b.top
    } else if side == 1 {
        b.bottom
    } else if side == 2 {
        b.left
    } else {
        b.right
    }
}

/// The side facing `side`.
pub open spec fn opposite(side: int) -> int {
    if side == 0 {
        1
    } else if side == 1 {
        0
    } else if side == 2 {
        3
    } else {
        2
    }
}

/// Block `b` sits where the genome says: the root block comes from slot 0; any
/// other block hangs on side `s` of the block its back link leads to, comes
/// from child slot `s` of that block's slot, is one level deeper, and carries
/// that block's id as parent id.  Its id is the one bound in its slot.
pub open spec fn block_placed<S>(blocks: Seq<BlobBlock>, nodes: Seq<Option<GenericGenoNode<S>>>, b: int) -> bool {
    let blk = blocks[b];
    &&& blk.vec_index == b
    &&& is_child(nodes, blk.geno_index as int)
    &&& node_at(nodes, blk.geno_index as int).nn_id == Some(blk.nn_id)
    &&& blk.depth <= blk.geno_index
    &&& if b == 0 {
        &&& blk.geno_index == 0
        &&& blk.depth == 0
        &&& blk.parent_anchor is None
        &&& blk.parent_nn_id is None
    } else {
        &&& blk.parent_anchor is Some
        &&& blk.parent_anchor->Some_0 < 4
        &&& link_of(blk, opposite(blk.parent_anchor->Some_0 as int)) is Some
        &&& {
            let s = blk.parent_anchor->Some_0 as int;
            let p = link_of(blk, opposite(s))->Some_0 as int;
            &&& p < b
            &&& link_of(blocks[p], s) == Some(b as usize)
            &&& blk.geno_index == child_at(blocks[p].geno_index as int, s)
            &&& blk.depth == blocks[p].depth + 1
            &&& blk.parent_nn_id == Some(blocks[p].nn_id)
        }
    }
}

/// `b` keeps the frame and the bound ids of `a`; unbound body nodes may get bound.
pub open spec fn binds_only<S>(a: Seq<Option<GenericGenoNode<S>>>, b: Seq<Option<GenericGenoNode<S>>>) -> bool {
    &&& a.len() == b.len()
    &&& forall|i: int|
        0 <= i < a.len() ==> {
            &&& !is_child(a, i) ==> #[trigger] b[i] == a[i]
            &&& is_child(a, i) ==> is_child(b, i) && node_at(b, i).shape == node_at(a, i).shape
            &&& is_child(a, i) && node_at(a, i).nn_id is Some ==> node_at(b, i).nn_id == node_at(a, i).nn_id
        }
}

/// The blocks of a creature under construction and the cursor.
pub struct BlobBuilder {
    pub blocks: Vec<BlobBlock>,
    pub current_pos: Option<usize>,
}

/// What `add_to(side, nn_id, geno_index)` does to a builder `old`, giving `new`
/// and returning `r`: nothing (and `None`) when there is no cursor or that side
/// of the cursor block is taken; otherwise a new last block, linked both ways
/// to the cursor block, which becomes the cursor.
pub open spec fn adds_block(
    old: BlobBuilder,
    new: BlobBuilder,
    side: usize,
    nn_id: usize,
    geno_index: usize,
    r: Option<usize>,
) -> bool {
    &&& (old.current_pos is None || link_of(
        old.blocks@[old.current_pos->Some_0 as int],
        side as int,
    ) is Some ==> r is None && new == old)
    &&& (old.current_pos is Some && link_of(
        old.blocks@[old.current_pos->Some_0 as int],
        side as int,
    ) is None ==> {
        let p = old.current_pos->Some_0 as int;
        let n = old.blocks@.len();
        let parent = old.blocks@[p];
        &&& r == Some(n as usize)
        &&& new.current_pos == Some(n as usize)
        &&& new.blocks@.len() == n + 1
        &&& forall|b: int| 0 <= b < n && b != p ==> #[trigger] new.blocks@[b] == old.blocks@[b]
        &&& link_of(new.blocks@[p], side as int) == Some(n as usize)
        &&& forall|s: int| 0 <= s < 4 && s != side ==> #[trigger] link_of(new.blocks@[p], s) == link_of(parent, s)
        &&& new.blocks@[p].vec_index == parent.vec_index
        &&& new.blocks@[p].depth == parent.depth
        &&& new.blocks@[p].nn_id == parent.nn_id
        &&& new.blocks@[p].parent_nn_id == parent.parent_nn_id
        &&& new.blocks@[p].parent_anchor == parent.parent_anchor
        &&& new.blocks@[p].geno_index == parent.geno_index
        &&& {
            let nb = new.blocks@[n as int];
            &&& forall|s: int| 0 <= s < 4 && s != opposite(side as int) ==> #[trigger] link_of(nb, s) is None
            &&& link_of(nb, opposite(side as int)) == Some(p as usize)
            &&& nb.vec_index == n
            &&& nb.depth == parent.depth + 1
            &&& nb.nn_id == nn_id
            &&& nb.parent_nn_id == Some(parent.nn_id)
            &&& nb.parent_anchor == Some(side)
            &&& nb.geno_index == geno_index
        }
    })
}

impl BlobBuilder {
    /// Links stay inside the block list, each block knows its position, and the
    /// cursor is on a block exactly when there is one.
    pub open spec fn wf(&self) -> bool {
        &&& (self.blocks@.len() > 0) == (self.current_pos is Some)
        &&& self.current_pos is Some ==> self.current_pos->Some_0 < self.blocks@.len()
        &&& forall|b: int, s: int|
            0 <= b < self.blocks@.len() && 0 <= s < 4 && #[trigger] link_of(self.blocks@[b], s) is Some
                ==> link_of(self.blocks@[b], s)->Some_0 < self.blocks@.len()
        &&& forall|b: int| 0 <= b < self.blocks@.len() ==> (#[trigger] self.blocks@[b]).vec_index == b
    }

    /// A builder with no block.
    pub fn new() -> (r: Self)
        ensures
            r.wf(),
            r.blocks@.len() == 0,
    {
        BlobBuilder { blocks: Vec::new(), current_pos: None }
    }

    /// Forgets every block, as a fresh builder.
    pub fn clean(&mut self)
        ensures
            final(self).wf(),
            final(self).blocks@.len() == 0,
    {
        self.blocks = Vec::new();
        self.current_pos = None;
    }

    /// Creates the root block, bound to `nn_id` and built from genome slot
    /// `geno_index`, and puts the cursor on it.
    pub fn create_first(&mut self, nn_id: usize, geno_index: usize)
        requires
            old(self).blocks@.len() == 0,
        ensures
            final(self).wf(),
            final(self).blocks@.len() == 1,
            final(self).current_pos == Some(0usize),
            final(self).blocks@[0] == (BlobBlock {
                top: None,
                bottom: None,
                left: None,
                right: None,
                vec_index: 0,
                depth: 0,
                nn_id,
                parent_nn_id: None,
                parent_anchor: None,
                geno_index,
            }),
    {
        let block = BlobBlock {
            top: None,
            bottom: None,
            left: None,
            right: None,
            vec_index: 0,
            depth: 0,
            nn_id,
            parent_nn_id: None,
            parent_anchor: None,
            geno_index,
        };
        self.blocks.push(block);
        self.current_pos = Some(0);
    }

    /// The block linked on `side` of block `b`.
    fn link(&self, b: usize, side: usize) -> (r: Option<usize>)
        requires
            b < self.blocks@.len(),
            side < 4,
        ensures
            r == link_of(self.blocks@[b as int], side as int),
    {
        let blk = &self.blocks[b];
        if side == 0 {
            blk.top
        } else if side == 1 {
            blk.bottom
        } else if side == 2 {
            blk.left
        } else {
            blk.right
        }
    }

    /// Adds a block on `side` of the cursor block, bound to `nn_id`, built from
    /// genome slot `geno_index`, one level deeper; the cursor moves onto it.
    /// Nothing happens (and `None` comes back) when there is no block yet or
    /// that side is taken.  Returns the position of the new block.
    pub fn add_to(&mut self, side: usize, nn_id: usize, geno_index: usize) -> (r: Option<usize>)
        requires
            old(self).wf(),
            side < 4,
            old(self).current_pos is Some ==> old(self).blocks@[old(self).current_pos->Some_0 as int].depth
                < u32::MAX,
        ensures
            final(self).wf(),
            adds_block(*old(self), *final(self), side, nn_id, geno_index, r),
    {
        let p = match self.current_pos {
            Some(p) => p,
            None => {
                return None;
            },
        };
        if self.link(p, side).is_some() {
            return None;
        }
        let n = self.blocks.len();
        let mut parent = self.blocks[p];
        let back = Some(p);
        let block = BlobBlock {
            top: if side == 1 {
                back
            } else {
                None
            },
            bottom: if side == 0 {
                back
            } else {
                None
            },
            left: if side == 3 {
                back
            } else {
                None
            },
            right: if side == 2 {
                back
            } else {
                None
            },
            vec_index: n,
            depth: parent.depth + 1,
            nn_id,
            parent_nn_id: Some(parent.nn_id),
            parent_anchor: Some(side),
            geno_index,
        };
        if side == 0 {
            parent.top = Some(n);
        } else if side == 1 {
            parent.bottom = Some(n);
        } else if side == 2 {
            parent.left = Some(n);
        } else {
            parent.right = Some(n);
        }
        let ghost before = self.blocks@;
        self.blocks.set(p, parent);
        self.blocks.push(block);
        self.current_pos = Some(n);
        proof {
            assert forall|b: int, s: int|
                0 <= b < self.blocks@.len() && 0 <= s < 4 && #[trigger] link_of(self.blocks@[b], s) is Some
                    implies link_of(self.blocks@[b], s)->Some_0 < self.blocks@.len() by {
                if b < n && b != p {
                    assert(self.blocks@[b] == before[b]);
                }
            }
        }
        Some(n)
    }

    /// Adds a block above the cursor block; see `add_to`.
    pub fn add_to_top(&mut self, nn_id: usize, geno_index: usize) -> (r: Option<usize>)
        requires
            old(self).wf(),
            old(self).current_pos is Some ==> old(self).blocks@[old(self).current_pos->Some_0 as int].depth
                < u32::MAX,
        ensures
            final(self).wf(),
            adds_block(*old(self), *final(self), 0, nn_id, geno_index, r),
    {
        self.add_to(0, nn_id, geno_index)
    }

    /// Adds a block below the cursor block; see `add_to`.
    pub fn add_to_bottom(&mut self, nn_id: usize, geno_index: usize) -> (r: Option<usize>)
        requires
            old(self).wf(),
            old(self).current_pos is Some ==> old(self).blocks@[old(self).current_pos->Some_0 as int].depth
                < u32::MAX,
        ensures
            final(self).wf(),
            adds_block(*old(self), *final(self), 1, nn_id, geno_index, r),
    {
        self.add_to(1, nn_id, geno_index)
    }

    /// Adds a block to the left of the cursor block; see `add_to`.
    pub fn add_to_left(&mut self, nn_id: usize, geno_index: usize) -> (r: Option<usize>)
        requires
            old(self).wf(),
            old(self).current_pos is Some ==> old(self).blocks@[old(self).current_pos->Some_0 as int].depth
                < u32::MAX,
        ensures
            final(self).wf(),
            adds_block(*old(self), *final(self), 2, nn_id, geno_index, r),
    {
        self.add_to(2, nn_id, geno_index)
    }

    /// Adds a block to the right of the cursor block; see `add_to`.
    pub fn add_to_right(&mut self, nn_id: usize, geno_index: usize) -> (r: Option<usize>)
        requires
            old(self).wf(),
            old(self).current_pos is Some ==> old(self).blocks@[old(self).current_pos->Some_0 as int].depth
                < u32::MAX,
        ensures
            final(self).wf(),
            adds_block(*old(self), *final(self), 3, nn_id, geno_index, r),
    {
        self.add_to(3, nn_id, geno_index)
    }

    /// Moves the cursor across `side` of its block; stays put when there is no
    /// block there (or no cursor).
    pub fn move_to(&mut self, side: usize)
        requires
            old(self).wf(),
            side < 4,
        ensures
            final(self).wf(),
            final(self).blocks == old(self).blocks,
            old(self).current_pos is Some && link_of(
                old(self).blocks@[old(self).current_pos->Some_0 as int],
                side as int,
            ) is Some ==> final(self).current_pos == link_of(
                old(self).blocks@[old(self).current_pos->Some_0 as int],
                side as int,
            ),
            !(old(self).current_pos is Some && link_of(
                old(self).blocks@[old(self).current_pos->Some_0 as int],
                side as int,
            ) is Some) ==> final(self).current_pos == old(self).current_pos,
    {
        if let Some(p) = self.current_pos {
            if let Some(q) = self.link(p, side) {
                self.current_pos = Some(q);
            }
        }
    }

    /// Moves the cursor one block up; see `move_to`.
    pub fn top(&mut self)
        requires
            old(self).wf(),
        ensures
            final(self).wf(),
            final(self).blocks == old(self).blocks,
            final(self).current_pos == if old(self).current_pos is Some && old(
                self,
            ).blocks@[old(self).current_pos->Some_0 as int].top is Some {
                old(self).blocks@[old(self).current_pos->Some_0 as int].top
            } else {
                old(self).current_pos
            },
    {
        self.move_to(0);
    }

    /// Moves the cursor one block down; see `move_to`.
    pub fn bottom(&mut self)
        requires
            old(self).wf(),
        ensures
            final(self).wf(),
            final(self).blocks == old(self).blocks,
            final(self).current_pos == if old(self).current_pos is Some && old(
                self,
            ).blocks@[old(self).current_pos->Some_0 as int].bottom is Some {
                old(self).blocks@[old(self).current_pos->Some_0 as int].bottom
            } else {
                old(self).current_pos
            },
    {
        self.move_to(1);
    }

    /// Moves the cursor one block left; see `move_to`.
    pub fn left(&mut self)
        requires
            old(self).wf(),
        ensures
            final(self).wf(),
            final(self).blocks == old(self).blocks,
            final(self).current_pos == if old(self).current_pos is Some && old(
                self,
            ).blocks@[old(self).current_pos->Some_0 as int].left is Some {
                old(self).blocks@[old(self).current_pos->Some_0 as int].left
            } else {
                old(self).current_pos
            },
    {
        self.move_to(2);
    }

    /// Moves the cursor one block right; see `move_to`.
    pub fn right(&mut self)
        requires
            old(self).wf(),
        ensures
            final(self).wf(),
            final(self).blocks == old(self).blocks,
            final(self).current_pos == if old(self).current_pos is Some && old(
                self,
            ).blocks@[old(self).current_pos->Some_0 as int].right is Some {
                old(self).blocks@[old(self).current_pos->Some_0 as int].right
            } else {
                old(self).current_pos
            },
    {
        self.move_to(3);
    }

    /// Puts the cursor back on the root block, if there is one.
    pub fn reset(&mut self)
        requires
            old(self).wf(),
        ensures
            final(self).wf(),
            final(self).blocks == old(self).blocks,
            final(self).current_pos == if old(self).current_pos is Some {
                Some(0usize)
            } else {
                None::<usize>
            },
    {
        if self.current_pos.is_some() {
            self.current_pos = Some(0);
        }
    }
}

/// `b` extends `a`: the blocks of `a` keep their fields and every link they
/// had; only empty sides may have been linked.
pub open spec fn grows(a: Seq<BlobBlock>, b: Seq<BlobBlock>) -> bool {
    &&& a.len() <= b.len()
    &&& forall|i: int|
        0 <= i < a.len() ==> {
            &&& (#[trigger] b[i]).vec_index == a[i].vec_index
            &&& b[i].depth == a[i].depth
            &&& b[i].nn_id == a[i].nn_id
            &&& b[i].parent_nn_id == a[i].parent_nn_id
            &&& b[i].parent_anchor == a[i].parent_anchor
            &&& b[i].geno_index == a[i].geno_index
            &&& forall|s: int| 0 <= s < 4 && link_of(a[i], s) is Some ==> #[trigger] link_of(b[i], s) == link_of(a[i], s)
        }
}

/// Every block sits where the genome says.
pub open spec fn all_placed<S>(blocks: Seq<BlobBlock>, nodes: Seq<Option<GenericGenoNode<S>>>) -> bool {
    forall|b: int| 0 <= b < blocks.len() ==> #[trigger] block_placed(blocks, nodes, b)
}

proof fn lemma_grows_trans(a: Seq<BlobBlock>, b: Seq<BlobBlock>, c: Seq<BlobBlock>)
    requires
        grows(a, b),
        grows(b, c),
    ensures
        grows(a, c),
{
    assert forall|i: int| 0 <= i < a.len() implies {
        &&& (#[trigger] c[i]).vec_index == a[i].vec_index
        &&& c[i].depth == a[i].depth
        &&& c[i].nn_id == a[i].nn_id
        &&& c[i].parent_nn_id == a[i].parent_nn_id
        &&& c[i].parent_anchor == a[i].parent_anchor
        &&& c[i].geno_index == a[i].geno_index
        &&& forall|s: int| 0 <= s < 4 && link_of(a[i], s) is Some ==> #[trigger] link_of(c[i], s) == link_of(a[i], s)
    } by {
        assert(b[i].vec_index == a[i].vec_index);
        assert forall|s: int| 0 <= s < 4 && link_of(a[i], s) is Some implies #[trigger] link_of(c[i], s) == link_of(a[i], s) by {
            assert(link_of(b[i], s) == link_of(a[i], s));
        }
    }
}

proof fn lemma_binds_only_trans<S>(
    a: Seq<Option<GenericGenoNode<S>>>,
    b: Seq<Option<GenericGenoNode<S>>>,
    c: Seq<Option<GenericGenoNode<S>>>,
)
    requires
        binds_only(a, b),
        binds_only(b, c),
    ensures
        binds_only(a, c),
{
    assert forall|i: int| 0 <= i < a.len() implies {
        &&& !is_child(a, i) ==> #[trigger] c[i] == a[i]
        &&& is_child(a, i) ==> is_child(c, i) && node_at(c, i).shape == node_at(a, i).shape
        &&& is_child(a, i) && node_at(a, i).nn_id is Some ==> node_at(c, i).nn_id == node_at(a, i).nn_id
    } by {
        if !is_child(a, i) {
            assert(b[i] == a[i]);
            assert(!is_child(b, i));
            assert(c[i] == b[i]);
        }
    }
}

/// Placement survives binding unbound genome nodes.
proof fn lemma_placed_after_binding<S>(
    blocks: Seq<BlobBlock>,
    a: Seq<Option<GenericGenoNode<S>>>,
    b: Seq<Option<GenericGenoNode<S>>>,
)
    requires
        all_placed(blocks, a),
        binds_only(a, b),
    ensures
        all_placed(blocks, b),
{
    assert forall|k: int| 0 <= k < blocks.len() implies #[trigger] block_placed(blocks, b, k) by {
        assert(block_placed(blocks, a, k));
        let g = blocks[k].geno_index as int;
        assert(is_child(a, g));
    }
}

/// Placement survives growing the blocks.
proof fn lemma_placed_after_growing<S>(
    a: Seq<BlobBlock>,
    b: Seq<BlobBlock>,
    nodes: Seq<Option<GenericGenoNode<S>>>,
)
    requires
        all_placed(a, nodes),
        grows(a, b),
        forall|k: int| a.len() <= k < b.len() ==> #[trigger] block_placed(b, nodes, k),
    ensures
        all_placed(b, nodes),
{
    assert forall|k: int| 0 <= k < b.len() implies #[trigger] block_placed(b, nodes, k) by {
        if k < a.len() {
            assert(block_placed(a, nodes, k));
            if k != 0 {
                let s = a[k].parent_anchor->Some_0 as int;
                assert(link_of(b[k], opposite(s)) == link_of(a[k], opposite(s)));
                let p = link_of(a[k], opposite(s))->Some_0 as int;
                assert(link_of(b[p], s) == link_of(a[p], s));
            }
        }
    }
}

/// A child on side `s` of slot `p` can get a block: `p` is the root, or `s` is
/// not the side `p` itself hangs from.
pub open spec fn side_free(p: int, s: int) -> bool {
    p == 0 || s != opposite((p - 1) % 4)
}

/// Slot `i` is reached from slot `root` through body nodes, never stepping back
/// onto the side a node hangs from.
pub open spec fn reach_from<S>(nodes: Seq<Option<GenericGenoNode<S>>>, root: int, i: int) -> bool
    decreases i,
{
    if i == root {
        true
    } else if i > root && i > 0 {
        is_child(nodes, i) && side_free(parent_of(i), (i - 1) % 4) && reach_from(nodes, root, parent_of(i))
    } else {
        false
    }
}

/// Some block was built from genome slot `i`.
pub open spec fn has_block(blocks: Seq<BlobBlock>, i: int) -> bool {
    exists|b: int| 0 <= b < blocks.len() && #[trigger] blocks[b].geno_index == i
}

proof fn lemma_reach_same<S>(a: Seq<Option<GenericGenoNode<S>>>, b: Seq<Option<GenericGenoNode<S>>>, root: int, i: int)
    requires
        binds_only(a, b),
    ensures
        reach_from(a, root, i) == reach_from(b, root, i),
    decreases i,
{
    if i != root && i > root && i > 0 {
        lemma_reach_same(a, b, root, parent_of(i));
        if 0 <= i < a.len() {
            assert(is_child(a, i) == is_child(b, i));
        }
    }
}

proof fn lemma_reach_split<S>(nodes: Seq<Option<GenericGenoNode<S>>>, root: int, i: int)
    requires
        0 <= root,
        reach_from(nodes, root, i),
        i != root,
    ensures
        exists|k: int|
            0 <= k < 4 && is_child(nodes, #[trigger] child_at(root, k)) && side_free(root, k) && reach_from(
                nodes,
                child_at(root, k),
                i,
            ),
    decreases i,
{
    let q = parent_of(i);
    if q == root {
        let k = (i - 1) % 4;
        assert(child_at(root, k) == i);
    } else {
        lemma_reach_split(nodes, root, q);
        let k = choose|k: int|
            0 <= k < 4 && is_child(nodes, #[trigger] child_at(root, k)) && side_free(root, k) && reach_from(
                nodes,
                child_at(root, k),
                q,
            );
        assert(q >= child_at(root, k));
        assert(reach_from(nodes, child_at(root, k), i));
    }
}

proof fn lemma_has_block_grows(a: Seq<BlobBlock>, b: Seq<BlobBlock>, i: int)
    requires
        grows(a, b),
        has_block(a, i),
    ensures
        has_block(b, i),
{
    let k = choose|k: int| 0 <= k < a.len() && #[trigger] a[k].geno_index == i;
    assert(b[k].geno_index == i);
}

/// Adds a block for every body node hanging (through body nodes) below genome
/// slot `index`, whose block `block` is under the cursor, top, bottom, left,
/// right in turn and depth first.  A node without a neural id is bound to a new
/// network from `new_block`, appended to the bank.  The cursor ends on `block`.
fn build_node<S, N, FK: Fn() -> N>(
    builder: &mut BlobBuilder,
    geno: &mut BlobGeno<S>,
    index: usize,
    block: usize,
    nnvec: &mut Vec<N>,
    new_block: &FK,
)
    requires
        old(builder).wf(),
        old(geno).wf(),
        all_placed(old(builder).blocks@, old(geno).nodes()),
        old(builder).current_pos == Some(block),
        block < old(builder).blocks@.len(),
        old(builder).blocks@[block as int].geno_index == index,
        forall|s: int| 0 <= s < 4 && side_free(index as int, s) ==> #[trigger] link_of(old(builder).blocks@[block as int], s) is None,
        forall|u: ()| new_block.requires(u),
    ensures
        forall|b: int| 0 <= b < old(builder).blocks@.len() && b != block ==> #[trigger] final(builder).blocks@[b] == old(builder).blocks@[b],
        forall|i: int| reach_from(old(geno).nodes(), index as int, i) ==> has_block(final(builder).blocks@, i),
        final(builder).wf(),
        final(geno).wf(),
        final(geno).vec_tree.max_depth == old(geno).vec_tree.max_depth,
        all_placed(final(builder).blocks@, final(geno).nodes()),
        final(builder).current_pos == Some(block),
        grows(old(builder).blocks@, final(builder).blocks@),
        binds_only(old(geno).nodes(), final(geno).nodes()),
        final(nnvec)@.len() >= old(nnvec)@.len(),
        final(nnvec)@.subrange(0, old(nnvec)@.len() as int) == old(nnvec)@,
        forall|x: int| old(nnvec)@.len() <= x < final(nnvec)@.len() ==> new_block.ensures((), #[trigger] final(nnvec)@[x]),
    decreases span(old(geno).nodes().len(), index as int),
{
    let ghost blocks0 = builder.blocks@;
    let ghost nodes0 = geno.nodes();
    let ghost bank0 = nnvec@;
    let len = geno.vec_tree.nodes.len();
    proof {
        assert(block_placed(blocks0, nodes0, block as int));
    }
    let mut k: usize = 0;
    while k < 4
        invariant
            builder.wf(),
            geno.wf(),
            geno.vec_tree.max_depth == old(geno).vec_tree.max_depth,
            nodes0 == old(geno).nodes(),
            blocks0 == old(builder).blocks@,
            bank0 == old(nnvec)@,
            len == nodes0.len(),
            index < len,
            k <= 4,
            all_placed(builder.blocks@, geno.nodes()),
            builder.current_pos == Some(block),
            block < blocks0.len(),
            blocks0[block as int].geno_index == index,
            grows(blocks0, builder.blocks@),
            binds_only(nodes0, geno.nodes()),
            nnvec@.len() >= bank0.len(),
            nnvec@.subrange(0, bank0.len() as int) == bank0,
            forall|x: int| bank0.len() <= x < nnvec@.len() ==> new_block.ensures((), #[trigger] nnvec@[x]),
            forall|u: ()| new_block.requires(u),
            forall|b: int| 0 <= b < blocks0.len() && b != block ==> #[trigger] builder.blocks@[b] == blocks0[b],
            forall|s: int| k <= s < 4 && side_free(index as int, s) ==> #[trigger] link_of(builder.blocks@[block as int], s) is None,
            forall|i: int, j: int|
                #![trigger reach_from(nodes0, child_at(index as int, j), i)]
                0 <= j < k && is_child(nodes0, child_at(index as int, j)) && side_free(index as int, j)
                    && reach_from(nodes0, child_at(index as int, j), i) ==> has_block(builder.blocks@, i),
        decreases 4 - k,
    {
        let c = 4 * index + k + 1;
        if geno.is_child_slot(c) {
            let ghost nodes1 = geno.nodes();
            let ghost bank1 = nnvec@;
            let id = match geno.nn_id_at(c) {
                Some(id) => id,
                None => {
                    let net = new_block();
                    nnvec.push(net);
                    let id = nnvec.len() - 1;
                    geno.set_nn_id(c, id);
                    proof {
                        assert(binds_only(nodes1, geno.nodes()));
                        lemma_binds_only_trans(nodes0, nodes1, geno.nodes());
                        lemma_placed_after_binding(builder.blocks@, nodes1, geno.nodes());
                        assert(nnvec@.subrange(0, bank0.len() as int) =~= bank1.subrange(0, bank0.len() as int));
                        assert forall|x: int| bank0.len() <= x < nnvec@.len() implies new_block.ensures((), #[trigger] nnvec@[x]) by {
                            if x < bank1.len() {
                                assert(nnvec@[x] == bank1[x]);
                            }
                        }
                    }
                    id
                },
            };
            let ghost blocks1 = builder.blocks@;
            proof {
                assert(builder.blocks@[block as int].geno_index == index);
                assert(block_placed(blocks1, geno.nodes(), block as int));
            }
            match builder.add_to(k, id, c) {
                Some(nb) => {
                    proof {
                        assert(grows(blocks1, builder.blocks@));
                        assert(block_placed(builder.blocks@, geno.nodes(), nb as int));
                        lemma_placed_after_growing(blocks1, builder.blocks@, geno.nodes());
                        lemma_grows_trans(blocks0, blocks1, builder.blocks@);
                    }
                    let ghost blocks2 = builder.blocks@;
                    let ghost nodes2 = geno.nodes();
                    let ghost bank2 = nnvec@;
                    proof {
                        assert((c - 1) % 4 == k);
                        assert forall|s: int| 0 <= s < 4 && side_free(c as int, s) implies #[trigger] link_of(
                            builder.blocks@[nb as int],
                            s,
                        ) is None by {}
                    }
                    build_node(builder, geno, c, nb, nnvec, new_block);
                    proof {
                        assert forall|b: int| 0 <= b < blocks0.len() && b != block implies #[trigger] builder.blocks@[b]
                            == blocks0[b] by {
                            assert(builder.blocks@[b] == blocks2[b]);
                            assert(blocks2[b] == blocks1[b]);
                        }
                        assert(builder.blocks@[block as int] == blocks2[block as int]);
                        assert forall|i: int, j: int|
                            #![trigger reach_from(nodes0, child_at(index as int, j), i)]
                            0 <= j < k + 1 && is_child(nodes0, child_at(index as int, j)) && side_free(index as int, j)
                                && reach_from(nodes0, child_at(index as int, j), i) implies has_block(builder.blocks@, i) by {
                            if j == k {
                                lemma_reach_same(nodes0, nodes2, c as int, i);
                            } else {
                            lemma_has_block_grows(blocks1, blocks2, i);
                            lemma_has_block_grows(blocks2, builder.blocks@, i);
                            }
                        }
                        lemma_grows_trans(blocks0, blocks2, builder.blocks@);
                        lemma_binds_only_trans(nodes0, nodes2, geno.nodes());
                        assert(link_of(blocks2[nb as int], opposite(k as int)) == Some(block));
                        assert(link_of(builder.blocks@[nb as int], opposite(k as int)) == Some(block));
                        assert(nnvec@.subrange(0, bank0.len() as int) =~= nnvec@.subrange(0, bank2.len() as int).subrange(0, bank0.len() as int));
                        assert forall|x: int| bank0.len() <= x < nnvec@.len() implies new_block.ensures((), #[trigger] nnvec@[x]) by {
                            if x < bank2.len() {
                                assert(nnvec@.subrange(0, bank2.len() as int)[x] == nnvec@[x]);
                            }
                        }
                    }
                    let back: usize = if k == 0 {
                        1
                    } else if k == 1 {
                        0
                    } else if k == 2 {
                        3
                    } else {
                        2
                    };
                    builder.move_to(back);
                },
                None => {
                    assert(!side_free(index as int, k as int));
                },
            }
        } else {
            assert(!is_child(nodes0, c as int));
        }
        k = k + 1;
    }
    proof {
        assert forall|i: int| reach_from(nodes0, index as int, i) implies has_block(builder.blocks@, i) by {
            if i == index {
                assert(builder.blocks@[block as int].geno_index == index);
            } else {
                lemma_reach_split(nodes0, index as int, i);
            }
        }
    }
}

/// Builds the block layout of a creature from its genome: the root block from
/// slot 0, then every body node reachable through body nodes, depth first.
/// Nodes without a neural id are bound, in the order their blocks are made, to
/// new networks appended to the bank (`new_brain` for the root, `new_block`
/// otherwise); nodes with an id keep it.
pub fn build<S, N, FB: Fn() -> N, FK: Fn() -> N>(
    geno: &mut BlobGeno<S>,
    nnvec: &mut Vec<N>,
    new_brain: &FB,
    new_block: &FK,
) -> (r: BlobBuilder)
    requires
        old(geno).wf(),
        is_child(old(geno).nodes(), 0),
        forall|u: ()| new_brain.requires(u),
        forall|u: ()| new_block.requires(u),
    ensures
        r.wf(),
        r.blocks@.len() >= 1,
        r.current_pos == Some(0usize),
        all_placed(r.blocks@, final(geno).nodes()),
        forall|i: int| reach_from(old(geno).nodes(), 0, i) ==> has_block(r.blocks@, i),
        final(geno).wf(),
        final(geno).vec_tree.max_depth == old(geno).vec_tree.max_depth,
        binds_only(old(geno).nodes(), final(geno).nodes()),
        final(nnvec)@.len() >= old(nnvec)@.len(),
        final(nnvec)@.subrange(0, old(nnvec)@.len() as int) == old(nnvec)@,
        node_at(old(geno).nodes(), 0).nn_id is None ==> r.blocks@[0].nn_id == old(nnvec)@.len() && new_brain.ensures(
            (),
            final(nnvec)@[old(nnvec)@.len() as int],
        ) && forall|x: int|
            old(nnvec)@.len() < x < final(nnvec)@.len() ==> new_block.ensures((), #[trigger] final(nnvec)@[x]),
        node_at(old(geno).nodes(), 0).nn_id is Some ==> forall|x: int|
            old(nnvec)@.len() <= x < final(nnvec)@.len() ==> new_block.ensures((), #[trigger] final(nnvec)@[x]),
{
    let ghost nodes0 = geno.nodes();
    let ghost bank0 = nnvec@;
    let root_id = match geno.nn_id_at(0) {
        Some(id) => id,
        None => {
            let net = new_brain();
            nnvec.push(net);
            let id = nnvec.len() - 1;
            geno.set_nn_id(0, id);
            id
        },
    };
    let ghost nodes1 = geno.nodes();
    let ghost bank1 = nnvec@;
    let mut builder = BlobBuilder::new();
    builder.create_first(root_id, 0);
    proof {
        assert(binds_only(nodes0, nodes1));
        assert(block_placed(builder.blocks@, geno.nodes(), 0));
    }
    build_node(&mut builder, geno, 0, 0, nnvec, new_block);
    proof {
        assert forall|i: int| reach_from(nodes0, 0, i) implies has_block(builder.blocks@, i) by {
            lemma_reach_same(nodes0, nodes1, 0, i);
        }
        lemma_binds_only_trans(nodes0, nodes1, geno.nodes());
        assert(builder.blocks@[0].nn_id == root_id);
        assert(nnvec@.subrange(0, bank0.len() as int) =~= nnvec@.subrange(0, bank1.len() as int).subrange(0, bank0.len() as int));
        if node_at(nodes0, 0).nn_id is None {
            assert(nnvec@.subrange(0, bank1.len() as int)[bank0.len() as int] == nnvec@[bank0.len() as int]);
        }
    }
    builder
}

} // verus!
