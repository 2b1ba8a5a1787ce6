use evo_blob::geno::{get_left_right_direction, BlobGeno, GenericGenoNode, GenoNode};
use evo_blob::generate::new_rand;
use evo_blob::mutation::{commit_if_valid, gain_limb, gain_limb_on, lose_limb, mutate_tree_structure};
use evo_blob::quad_tree::QuadTree;

fn body(id: Option<usize>) -> Option<GenericGenoNode<u32>> {
    Some(GenericGenoNode::Child(GenoNode { shape: 7, nn_id: id }))
}

/// root 0 with children 1 (up) and 3 (left); 2 is the parent marker of the
/// root; node 1 has child 5 and parent marker 6.
fn sample() -> BlobGeno<u32> {
    let mut g = BlobGeno::<u32>::new();
    g.vec_tree.nodes[0] = body(Some(0));
    g.vec_tree.nodes[1] = body(Some(1));
    g.vec_tree.nodes[2] = Some(GenericGenoNode::Parent);
    g.vec_tree.nodes[3] = body(Some(2));
    g.vec_tree.nodes[5] = body(Some(3));
    g.vec_tree.nodes[6] = Some(GenericGenoNode::Parent);
    g
}

#[test]
fn new_genome_is_empty_with_default_depth() {
    let g = BlobGeno::<u32>::new();
    assert_eq!(g.vec_tree.nodes.len(), 65);
    assert_eq!(g.vec_tree.max_depth, 3);
    assert!(g.vec_tree.nodes.iter().all(|n| n.is_none()));
    assert!(g.get_first().is_none());
}

#[test]
fn tree_index_arithmetic() {
    let t = QuadTree::<u8>::new(2);
    assert_eq!(t.nodes.len(), 17);
    assert_eq!(t.parent(0), None);
    assert_eq!(t.parent(7), Some(1));
    assert_eq!(t.children(1), [5, 6, 7, 8]);
    assert_eq!(t.depth(0), 0);
    assert_eq!(t.depth(3), 0);
    assert_eq!(t.depth(4), 1);
    assert_eq!(t.depth(15), 1);
    assert_eq!(t.depth(16), 2);
    assert_eq!(t.depth(64), 3);
}

#[test]
fn leaves_and_branches() {
    let g = sample();
    assert_eq!(g.leaf_nodes(), vec![3, 5]);
    // body nodes above the last two levels with an empty child slot; parent
    // markers are never branch nodes
    assert_eq!(g.branch_nodes(), vec![0, 1, 3, 5]);
    assert!(g.vec_tree.is_leaf(3));
    assert!(!g.vec_tree.is_leaf(1));
    assert!(g.vec_tree.is_empty(4));
    assert!(!g.vec_tree.is_empty(2));
    assert!(!g.vec_tree.is_empty(100));
}

#[test]
fn subtree_indices_and_directions() {
    let g = sample();
    assert_eq!(g.vec_tree.subtree_indices(1), vec![1, 5, 6]);
    assert_eq!(g.vec_tree.subtree_indices(0), vec![0, 1, 2, 3, 5, 6]);
    assert_eq!(g.vec_tree.subtree_indices(4), Vec::<usize>::new());
    assert_eq!(g.vec_tree.child_direction(0), None);
    assert_eq!(g.vec_tree.child_direction(3), Some(2));
    assert_eq!(g.vec_tree.child_direction(5), Some(0));
    assert_eq!(g.vec_tree.child_direction(4), None);
    assert_eq!(get_left_right_direction(0), (2, 3));
    assert_eq!(get_left_right_direction(1), (3, 2));
    assert_eq!(get_left_right_direction(2), (1, 0));
    assert_eq!(get_left_right_direction(3), (0, 1));
}

#[test]
fn clean_subtree_removes_descendants() {
    let mut g = sample();
    g.vec_tree.clean_subtree(1);
    assert!(g.vec_tree.nodes[1].is_none());
    assert!(g.vec_tree.nodes[5].is_none());
    assert!(g.vec_tree.nodes[6].is_none());
    assert!(g.vec_tree.nodes[3].is_some());
    assert!(g.vec_tree.nodes[0].is_some());

    let mut h = sample();
    h.vec_tree.clean_subtree_without_self(1);
    assert!(h.vec_tree.nodes[1].is_some());
    assert!(h.vec_tree.nodes[5].is_none());
    assert!(h.vec_tree.nodes[6].is_none());
}

#[test]
fn neural_ids_in_slot_order() {
    let mut g = sample();
    assert_eq!(g.all_nn_ids_indices(), vec![0, 1, 3, 5]);
    assert_eq!(g.all_usize_nn_ids(), vec![0, 1, 2, 3]);
    g.set_nn_id(3, 9);
    assert_eq!(g.all_usize_nn_ids(), vec![0, 1, 9, 3]);
    assert_eq!(g.nn_id_at(3), Some(9));
}

#[test]
fn root_id_is_assigned_once() {
    let mut g = BlobGeno::<u32>::new();
    g.vec_tree.nodes[0] = body(None);
    g.assign_nn_id_to_root(4);
    assert_eq!(g.get_first().unwrap().nn_id, Some(4));
    g.assign_nn_id_to_root(8);
    assert_eq!(g.get_first().unwrap().nn_id, Some(4));
}

#[test]
fn duplicate_keeps_layout() {
    let g = sample();
    let d = g.duplicate();
    assert_eq!(d.all_nn_ids_indices(), g.all_nn_ids_indices());
    assert_eq!(d.all_usize_nn_ids(), g.all_usize_nn_ids());
    assert!(matches!(d.vec_tree.nodes[2], Some(GenericGenoNode::Parent)));
}

#[test]
fn lose_limb_drops_the_subtree() {
    let mut g = sample();
    lose_limb(&mut g, 5);
    assert_eq!(g.all_nn_ids_indices(), vec![0, 1, 3]);
    assert!(g.vec_tree.nodes[6].is_some());
}

#[test]
fn gain_limb_kept_only_when_valid() {
    let mut g = sample();
    let before = g.all_nn_ids_indices();
    let kept = gain_limb(&mut g, 3, &|_p: &u32, side: usize| 100 + side as u32, &|_g: &BlobGeno<u32>| false);
    assert!(!kept);
    assert_eq!(g.all_nn_ids_indices(), before);

    let kept = gain_limb(&mut g, 3, &|_p: &u32, side: usize| 100 + side as u32, &|_g: &BlobGeno<u32>| true);
    assert!(kept);
    let after = g.all_nn_ids_indices();
    assert_eq!(after.len(), before.len() + 1);
    let new_slot = *after.iter().find(|i| !before.contains(i)).unwrap();
    assert!((13..=16).contains(&new_slot));
    match &g.vec_tree.nodes[new_slot] {
        Some(GenericGenoNode::Child(n)) => {
            assert_eq!(n.nn_id, None);
            assert_eq!(n.shape, 100 + (new_slot - 13) as u32);
        }
        _ => panic!("new limb missing"),
    }
}

#[test]
fn gain_limb_needs_an_empty_slot() {
    let mut g = sample();
    for c in 13..=16 {
        g.vec_tree.nodes[c] = Some(GenericGenoNode::Parent);
    }
    assert!(!gain_limb(&mut g, 3, &|_p: &u32, _s: usize| 0, &|_g: &BlobGeno<u32>| true));
    assert!(!gain_limb(&mut g, 2, &|_p: &u32, _s: usize| 0, &|_g: &BlobGeno<u32>| true));
}

#[test]
fn test_tree_structure_mutate() {
    for _ in 0..200 {
        let mut geno = sample();
        let before = geno.all_nn_ids_indices();
        mutate_tree_structure(&mut geno, &|_p: &u32, _s: usize| 1, &|g: &BlobGeno<u32>| g.all_nn_ids_indices().len() <= 5);
        let after = geno.all_nn_ids_indices();
        assert!(after == before || after.len() == before.len() + 1 || after.len() == before.len() - 1);
        assert!(after.len() <= 5);
        assert!(after.contains(&0));
    }
}

#[test]
fn move_groups_follow_the_facing() {
    let mut g = sample();
    // node 3 hangs left of the root; give it children ahead (left, 15),
    // to its left (down, 14) and to its right (up, 13)
    g.vec_tree.nodes[13] = body(Some(4));
    g.vec_tree.nodes[14] = body(Some(5));
    g.vec_tree.nodes[15] = body(Some(6));
    g.vec_tree.nodes[16] = Some(GenericGenoNode::Parent);
    let (whole, ahead, left, right) = g.move_subtree_groups(3);
    assert_eq!(whole, vec![3, 13, 14, 15, 16]);
    assert_eq!(ahead, vec![15]);
    assert_eq!(left, vec![14]);
    assert_eq!(right, vec![13]);
}

#[test]
fn gain_limb_on_a_given_side() {
    let mut g = sample();
    // slot 4 (right of the root) is empty
    assert!(!gain_limb_on(&mut g, 0, 3, &|p: &u32, side: usize| *p + side as u32, &|_g: &BlobGeno<u32>| false));
    assert!(g.vec_tree.nodes[4].is_none());
    assert!(gain_limb_on(&mut g, 0, 3, &|p: &u32, side: usize| *p + side as u32, &|_g: &BlobGeno<u32>| true));
    match &g.vec_tree.nodes[4] {
        Some(GenericGenoNode::Child(n)) => assert_eq!((n.shape, n.nn_id), (10, None)),
        _ => panic!("limb missing"),
    }
    // the new limb hangs right of the root, so its left slot leads back
    assert!(matches!(g.vec_tree.nodes[19], Some(GenericGenoNode::Parent)));
    // taken slots and parent markers are never overwritten
    assert!(!gain_limb_on(&mut g, 0, 1, &|_p: &u32, _s: usize| 0, &|_g: &BlobGeno<u32>| true));
    assert!(!gain_limb_on(&mut g, 0, 0, &|_p: &u32, _s: usize| 0, &|_g: &BlobGeno<u32>| true));
    assert!(matches!(g.vec_tree.nodes[2], Some(GenericGenoNode::Parent)));
}

fn marks_below(g: &BlobGeno<u32>, i: usize) -> usize {
    (4 * i + 1..=4 * i + 4).filter(|&c| matches!(g.vec_tree.nodes[c], Some(GenericGenoNode::Parent))).count()
}

#[test]
fn random_genomes_are_well_shaped() {
    for _ in 0..50 {
        // every side grows a node, and the caller's state counts the draws
        let g = new_rand(0u32, 0usize, &|p: &u32, side: usize, n: &usize| (Some(*p * 4 + side as u32 + 1), *n + 1));
        assert_eq!(g.vec_tree.nodes.len(), 65);
        assert!(matches!(&g.vec_tree.nodes[0], Some(GenericGenoNode::Child(n)) if n.shape == 0));
        for i in 1..65 {
            if g.vec_tree.nodes[i].is_some() {
                assert!(matches!(g.vec_tree.nodes[(i - 1) / 4], Some(GenericGenoNode::Child(_))));
            }
            if let Some(GenericGenoNode::Child(n)) = &g.vec_tree.nodes[i] {
                assert_eq!(n.nn_id, None);
                if 4 * i + 4 < 65 {
                    assert_eq!(marks_below(&g, i), 1);
                }
            }
        }
        assert_eq!(marks_below(&g, 0), 1);
    }
}

#[test]
fn random_genome_with_empty_draws_is_a_root() {
    let g = new_rand(7u32, (), &|_p: &u32, _s: usize, _o: &()| (None, ()));
    assert_eq!(g.all_nn_ids_indices(), vec![0]);
    assert_eq!(marks_below(&g, 0), 1);
}

#[test]
fn commit_if_valid_rolls_back() {
    let mut g = sample();
    let grow = |h: &BlobGeno<u32>| {
        let mut c = h.duplicate();
        c.vec_tree.nodes[4] = body(Some(9));
        c
    };
    assert!(!commit_if_valid(&mut g, &grow, &|_h: &BlobGeno<u32>| false));
    assert!(g.vec_tree.nodes[4].is_none());
    assert!(commit_if_valid(&mut g, &grow, &|_h: &BlobGeno<u32>| true));
    assert_eq!(g.nn_id_at(4), Some(9));
}
