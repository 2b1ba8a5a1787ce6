use evo_blob::builder::{build, BlobBuilder};
use evo_blob::geno::{BlobGeno, GenericGenoNode, GenoNode};
use evo_blob::selection::{diversity_weights, hybrid_replace, hybrid_selection};

fn body(id: Option<usize>) -> Option<GenericGenoNode<u8>> {
    Some(GenericGenoNode::Child(GenoNode { shape: 0, nn_id: id }))
}

fn fresh() -> BlobGeno<u8> {
    let mut g = BlobGeno::<u8>::new();
    g.vec_tree.nodes[0] = body(None);
    g.vec_tree.nodes[1] = body(None);
    g.vec_tree.nodes[2] = Some(GenericGenoNode::Parent);
    g.vec_tree.nodes[3] = body(None);
    g.vec_tree.nodes[5] = body(None);
    g.vec_tree.nodes[6] = Some(GenericGenoNode::Parent);
    g
}

#[test]
fn fresh_genome_gets_ids_in_build_order() {
    let mut g = fresh();
    let mut bank: Vec<u32> = Vec::new();
    let b = build(&mut g, &mut bank, &|| 100u32, &|| 200u32);
    assert_eq!(bank, vec![100, 200, 200, 200]);
    assert_eq!(g.all_usize_nn_ids(), vec![0, 1, 3, 2]);
    assert_eq!(b.blocks.len(), 4);
    assert_eq!(b.current_pos, Some(0));
    let summary: Vec<(usize, usize, u32, Option<usize>, Option<usize>)> = b
        .blocks
        .iter()
        .map(|k| (k.geno_index, k.nn_id, k.depth, k.parent_anchor, k.parent_nn_id))
        .collect();
    assert_eq!(
        summary,
        vec![(0, 0, 0, None, None), (1, 1, 1, Some(0), Some(0)), (5, 2, 2, Some(0), Some(1)), (3, 3, 1, Some(2), Some(0))]
    );
    assert_eq!((b.blocks[0].top, b.blocks[0].left), (Some(1), Some(3)));
    assert_eq!((b.blocks[1].bottom, b.blocks[1].top), (Some(0), Some(2)));
    assert_eq!(b.blocks[3].right, Some(0));
}

#[test]
fn loaded_genome_keeps_its_ids() {
    let mut g = fresh();
    for (slot, id) in [(0usize, 7usize), (1, 4), (3, 9), (5, 2)] {
        g.vec_tree.nodes[slot] = body(Some(id));
    }
    let mut bank: Vec<u32> = vec![1, 2, 3];
    let b = build(&mut g, &mut bank, &|| 100u32, &|| 200u32);
    assert_eq!(bank, vec![1, 2, 3]);
    let ids: Vec<usize> = b.blocks.iter().map(|k| k.nn_id).collect();
    assert_eq!(ids, vec![7, 4, 2, 9]);
    assert_eq!(b.blocks[2].parent_nn_id, Some(4));
}

#[test]
fn cursor_navigation() {
    let mut g = fresh();
    let mut bank: Vec<u32> = Vec::new();
    let mut b = build(&mut g, &mut bank, &|| 0u32, &|| 0u32);
    b.left();
    assert_eq!(b.current_pos, Some(3));
    b.left();
    assert_eq!(b.current_pos, Some(3));
    b.right();
    assert_eq!(b.current_pos, Some(0));
    b.bottom();
    assert_eq!(b.current_pos, Some(0));
    b.top();
    b.top();
    assert_eq!(b.current_pos, Some(2));
    b.reset();
    assert_eq!(b.current_pos, Some(0));
}

#[test]
fn adding_blocks_by_hand() {
    let mut b = BlobBuilder::new();
    assert_eq!(b.add_to_top(1, 1), None);
    b.reset();
    assert_eq!(b.current_pos, None);
    b.create_first(0, 0);
    assert_eq!(b.add_to_right(5, 4), Some(1));
    assert_eq!(b.current_pos, Some(1));
    assert_eq!(b.blocks[1].left, Some(0));
    assert_eq!(b.blocks[1].parent_anchor, Some(3));
    // the left side of the new block is its way back, so it is taken
    assert_eq!(b.add_to_left(6, 14), None);
    assert_eq!(b.add_to_bottom(6, 14), Some(2));
    assert_eq!(b.blocks[2].depth, 2);
    b.top();
    assert_eq!(b.current_pos, Some(1));
    b.clean();
    assert!(b.blocks.is_empty());
    assert_eq!(b.current_pos, None);
}

#[test]
fn hybrid_selection_replaces_with_new_creatures() {
    for _ in 0..50 {
        let initial: Vec<usize> = (0..10).collect();
        let mut survivors = initial.clone();
        let ranked: Vec<usize> = (0..20).rev().collect();
        hybrid_selection(&mut survivors, &ranked);
        assert_eq!(survivors.len(), 10);
        let replaced = survivors.iter().zip(&initial).filter(|(a, b)| a != b).count();
        assert!(replaced <= 3);
        assert!(replaced >= 1);
        assert!(survivors.iter().all(|&c| c < 20));
        let mut sorted = survivors.clone();
        sorted.sort();
        sorted.dedup();
        assert_eq!(sorted.len(), 10);
    }
}

#[test]
fn hybrid_selection_without_candidates_keeps_survivors() {
    let mut survivors: Vec<usize> = (0..10).collect();
    let ranked: Vec<usize> = (0..10).collect();
    hybrid_selection(&mut survivors, &ranked);
    assert_eq!(survivors, (0..10).collect::<Vec<usize>>());
}

#[test]
fn diversity_weights_favour_high_ranks() {
    let init = vec![2usize, 7];
    let ranked = vec![5usize, 2, 9, 7];
    let chosen = vec![false, false, true, false];
    assert_eq!(diversity_weights(&init, &ranked, &chosen), vec![256, 0, 0, 0]);
    let none: Vec<usize> = Vec::new();
    assert_eq!(diversity_weights(&none, &ranked, &vec![false; 4]), vec![256, 81, 16, 1]);
}

#[test]
fn hybrid_replace_takes_only_new_creatures() {
    let init = vec![1usize, 2, 3];
    let ranked = vec![3usize, 8, 9];
    let mut survivors = init.clone();
    let mut chosen = vec![false; 3];
    hybrid_replace(&mut survivors, &init, &ranked, &mut chosen, 0, 0);
    assert_eq!((survivors.clone(), chosen.clone()), (vec![1, 2, 3], vec![false, false, false]));
    hybrid_replace(&mut survivors, &init, &ranked, &mut chosen, 1, 2);
    assert_eq!((survivors.clone(), chosen.clone()), (vec![1, 9, 3], vec![false, false, true]));
    hybrid_replace(&mut survivors, &init, &ranked, &mut chosen, 0, 2);
    assert_eq!((survivors, chosen), (vec![1, 9, 3], vec![false, false, true]));
}
