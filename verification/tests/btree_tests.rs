use cachesim::btree::{node_size_for_num_elements, BTree};
use cachesim::hierarchy::CacheSpec;
use cachesim::simalloc::Simalloc;
use rand::{RngCore, SeedableRng};

fn memory() -> Simalloc {
    Simalloc::new(vec![
        CacheSpec { num_blocks: 8, block_size: 64, inclusive: true },
        CacheSpec { num_blocks: 64, block_size: 64, inclusive: true },
    ])
}

fn insert(t: &mut BTree, v: u64, sim: &mut Simalloc) {
    assert!(t.room_for_insert(sim));
    t.insert(v, sim);
}

fn get<'a>(t: &'a BTree, v: &u64, sim: &mut Simalloc) -> Option<&'a u64> {
    assert!(t.room_for_get(sim));
    t.get(v, sim)
}

#[test]
fn btree_leaf_insert() {
    let mut sim = memory();
    let mut a = BTree::with_node_capacity_in_sim(4);
    for i in [3u64, 1, 2] {
        insert(&mut a, i, &mut sim);
    }
    for i in 1..=3u64 {
        assert_eq!(get(&a, &i, &mut sim), Some(&i));
    }
    assert_eq!(get(&a, &0, &mut sim), None);
    assert_eq!(get(&a, &4, &mut sim), None);
}

#[test]
fn btree_splits_keep_every_key() {
    for cap in [2u16, 3, 4, 5, 8] {
        let mut sim = memory();
        let mut a = BTree::with_node_capacity_in_sim(cap);
        for i in 0..200u64 {
            insert(&mut a, i, &mut sim);
            for j in 0..=i {
                assert_eq!(get(&a, &j, &mut sim), Some(&j), "cap {cap}: {j} after {i}");
            }
            assert_eq!(get(&a, &(i + 1), &mut sim), None);
        }
    }
}

#[test]
fn btree_descending_and_random() {
    let mut sim = memory();
    let mut a = BTree::with_node_capacity_in_sim(6);
    for i in (0..500u64).rev() {
        insert(&mut a, i * 2, &mut sim);
    }
    for i in 0..500u64 {
        assert_eq!(get(&a, &(i * 2), &mut sim), Some(&(i * 2)));
        assert_eq!(get(&a, &(i * 2 + 1), &mut sim), None);
    }
    let mut rng = rand_pcg::Pcg64Mcg::seed_from_u64(3);
    let mut b = BTree::with_node_capacity_in_sim(16);
    let mut keys = Vec::new();
    for _ in 0..1000 {
        let v = rng.next_u64();
        insert(&mut b, v, &mut sim);
        keys.push(v);
    }
    for v in &keys {
        assert_eq!(get(&b, v, &mut sim), Some(v));
    }
}

#[test]
fn btree_duplicates_change_nothing() {
    let mut sim = memory();
    let mut a = BTree::with_node_capacity_in_sim(3);
    for _ in 0..3 {
        for i in 0..20u64 {
            insert(&mut a, i, &mut sim);
        }
    }
    for i in 0..20u64 {
        assert_eq!(get(&a, &i, &mut sim), Some(&i));
    }
}

#[test]
fn btree_node_size_capacity() {
    let a = BTree::with_node_size_in_sim(1 << 12);
    let cap = a.node_capacity() as usize;
    assert!(node_size_for_num_elements::<u64>(cap) <= 1 << 12);
    assert!(node_size_for_num_elements::<u64>(cap + 1) > 1 << 12);
    // 8 bytes of header, 8 per key, 8 per link
    assert_eq!(cap, 255);
}

#[test]
fn btree_first_insert_accesses() {
    let mut sim = memory();
    let mut a = BTree::with_node_capacity_in_sim(4);
    insert(&mut a, 5, &mut sim);
    // the new root's header is written; the search reads the header; the
    // leaf check reads it; the room check reads it; placing reads it,
    // writes the key, and writes the header back
    assert_eq!(sim.stats()[0].accesses, 7);
    assert_eq!(get(&a, &5, &mut sim), Some(&5));
    // the header, the key compared, then the header and the key found
    assert_eq!(sim.stats()[0].accesses, 11);
}

#[test]
fn btree_lookup_reads_header_probes_then_key() {
    let mut sim = memory();
    let mut a = BTree::with_node_capacity_in_sim(4);
    for v in [1u64, 2, 3] {
        insert(&mut a, v, &mut sim);
    }
    sim.reset();
    // the header, the probes at slots 1, 2 and 1, then the header and the key
    assert_eq!(get(&a, &2, &mut sim), Some(&2));
    assert_eq!(sim.stats()[0].accesses, 6);
    sim.reset();
    // a miss in a leaf: the header, the probes at slots 1, 2 and 2, then the
    // header twice and the link
    assert_eq!(get(&a, &4, &mut sim), None);
    assert_eq!(sim.stats()[0].accesses, 7);
}
