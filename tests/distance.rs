use evo_blob::geno::{BlobGeno, GenericGenoNode, GenoNode};
use evo_blob::training::crowding_sums;

fn with_nodes(present: &[usize]) -> BlobGeno<u8> {
    let mut g = BlobGeno::<u8>::new();
    for &i in present {
        g.vec_tree.nodes[i] = Some(GenericGenoNode::Child(GenoNode { shape: 0, nn_id: None }));
    }
    g
}

#[test]
fn distance_to_itself_is_zero() {
    let g = with_nodes(&[0, 1, 2, 5, 21]);
    assert_eq!(g.vec_tree.tree_edit_distance(&g.vec_tree), 0);
}

#[test]
fn distance_counts_unmatched_subtrees() {
    let a = with_nodes(&[0, 1, 5]);
    let b = with_nodes(&[0, 2]);
    // slot 1 with its child 5 against nothing, slot 2 against nothing
    assert_eq!(a.vec_tree.tree_edit_distance(&b.vec_tree), 3);
    assert_eq!(b.vec_tree.tree_edit_distance(&a.vec_tree), 3);
}

#[test]
fn a_leaf_against_an_empty_slot_costs_one() {
    let a = with_nodes(&[0, 1, 5, 21]);
    let b = with_nodes(&[0, 1, 5]);
    assert_eq!(a.vec_tree.tree_edit_distance(&b.vec_tree), 1);
}

#[test]
fn empty_against_rooted_tree() {
    let a = with_nodes(&[]);
    let b = with_nodes(&[0, 1, 2]);
    assert_eq!(a.vec_tree.tree_edit_distance(&b.vec_tree), 3);
}

#[test]
fn parent_markers_count_as_nodes() {
    let a = with_nodes(&[0]);
    let mut b = with_nodes(&[0]);
    b.vec_tree.nodes[4] = Some(GenericGenoNode::Parent);
    assert_eq!(a.vec_tree.tree_edit_distance(&b.vec_tree), 1);
}

#[test]
fn crowding_sums_add_all_distances() {
    let genos = vec![with_nodes(&[0]), with_nodes(&[0, 1]), with_nodes(&[0, 1, 2])];
    assert_eq!(crowding_sums(&genos), vec![3, 2, 3]);
}
