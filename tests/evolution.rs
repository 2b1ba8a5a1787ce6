use evo_blob::evolution::{clean_outcast, reproduce, reproduce_from, sync_mutate};
use evo_blob::geno::{BlobGeno, GenericGenoNode, GenoNode};
use evo_blob::training::{iteration_end, NeuronId, TrainMutPipe};

fn genome(ids: &[(usize, Option<usize>)]) -> BlobGeno<u8> {
    let mut g = BlobGeno::<u8>::new();
    for &(slot, id) in ids {
        g.vec_tree.nodes[slot] = Some(GenericGenoNode::Child(GenoNode { shape: slot as u8, nn_id: id }));
    }
    g
}

#[test]
fn clean_outcast_compacts_ids() {
    let mut survivors = vec![genome(&[(0, Some(1)), (1, Some(4))]), genome(&[(0, Some(6)), (2, Some(3))])];
    let mut bank: Vec<String> = (0..8).map(|i| format!("net{}", i)).collect();
    clean_outcast(&mut survivors, &mut bank);
    assert_eq!(bank, vec!["net1", "net3", "net4", "net6"]);
    assert_eq!(survivors[0].all_usize_nn_ids(), vec![0, 2]);
    assert_eq!(survivors[1].all_usize_nn_ids(), vec![3, 1]);
    // every id is below the bank length and every entry is used
    let mut used: Vec<usize> = survivors.iter().flat_map(|g| g.all_usize_nn_ids()).collect();
    used.sort();
    assert_eq!(used, vec![0, 1, 2, 3]);
    for (g, ids) in survivors.iter().zip([vec![1usize, 4], vec![6, 3]]) {
        for (new, old) in g.all_usize_nn_ids().iter().zip(ids) {
            assert_eq!(bank[*new], format!("net{}", old));
        }
    }
}

#[test]
fn clean_outcast_with_nothing_dropped() {
    let mut survivors = vec![genome(&[(0, Some(0)), (1, Some(1))])];
    let mut bank = vec![10, 11];
    clean_outcast(&mut survivors, &mut bank);
    assert_eq!(bank, vec![10, 11]);
    assert_eq!(survivors[0].all_usize_nn_ids(), vec![0, 1]);
}

#[test]
fn reproduced_copies_do_not_share_networks() {
    let mut genos = vec![genome(&[(0, Some(0)), (3, Some(1))]), genome(&[(0, Some(2))])];
    let mut bank: Vec<Vec<i32>> = vec![vec![1, 2], vec![3], vec![4]];
    reproduce_from(&mut genos, &mut bank, &vec![0, 0, 1]);
    assert_eq!(genos.len(), 5);
    assert_eq!(genos[2].all_usize_nn_ids(), vec![3, 4]);
    assert_eq!(genos[3].all_usize_nn_ids(), vec![5, 6]);
    assert_eq!(genos[4].all_usize_nn_ids(), vec![7]);
    assert_eq!(bank.len(), 8);
    assert_eq!(bank[3], vec![1, 2]);
    assert_eq!(bank[7], vec![4]);
    // mutating a copy's network leaves its source's alone
    bank[3][0] = 99;
    bank[5].push(7);
    assert_eq!(bank[0], vec![1, 2]);
    assert_eq!(bank[6], vec![3]);
    assert_eq!(genos[0].all_usize_nn_ids(), vec![0, 1]);
}

#[test]
fn reproduce_fills_the_population() {
    let mut genos = vec![genome(&[(0, Some(0))]), genome(&[(0, Some(1)), (1, Some(2))])];
    let mut bank = vec![0u32, 1, 2];
    let picks = reproduce(&mut genos, &mut bank, 6);
    assert_eq!(picks.len(), 4);
    assert_eq!(genos.len(), 6);
    assert!(picks.iter().all(|&p| p < 2));
    let mut ids: Vec<usize> = genos.iter().flat_map(|g| g.all_usize_nn_ids()).collect();
    let total = ids.len();
    ids.sort();
    ids.dedup();
    assert_eq!(ids.len(), total);
    assert_eq!(bank.len(), total);
}

#[test]
fn sync_mutate_binds_new_limbs() {
    let mut genos = vec![genome(&[(0, Some(0)), (1, None), (2, Some(1))]), genome(&[(0, Some(2)), (4, None), (3, None)])];
    let mut bank = vec![-1i64, -2, -3];
    sync_mutate(&mut genos, &mut bank, || 42i64);
    assert_eq!(genos[0].all_usize_nn_ids(), vec![0, 3, 1]);
    assert_eq!(genos[1].all_usize_nn_ids(), vec![2, 4, 5]);
    assert_eq!(bank, vec![-1, -2, -3, 42, 42, 42]);
}

#[test]
fn generation_boundaries() {
    assert!(!iteration_end(0));
    assert!(!iteration_end(999));
    assert!(iteration_end(1000));
    assert!(!iteration_end(1001));
    assert!(iteration_end(3000));
}

#[test]
fn neuron_ids() {
    let n = NeuronId::new(3, Some(1));
    assert_eq!((n.id, n.parent_id), (3, Some(1)));
    let d = NeuronId::default();
    assert_eq!((d.id, d.parent_id), (0, None));
}

#[test]
fn pipe_hands_a_generation_over() {
    let mut pipe: TrainMutPipe<u8, u16, u32> = TrainMutPipe::new();
    assert!(pipe.is_empty());
    pipe.push(vec![1], vec![2, 3], vec![4]);
    assert!(!pipe.is_empty());
    let (g, i, n) = pipe.pop();
    assert_eq!((g, i, n), (vec![1], vec![2, 3], vec![4]));
    assert!(pipe.is_empty());
}
