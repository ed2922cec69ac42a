use cachesim::btree::BTree;
use cachesim::hierarchy::{CacheSpec, Hierarchy};
use cachesim::simalloc::Simalloc;
use cachesim::trees_of_small_height::Tree;
use cachesim::workload::{
    btree_gets, btree_inserts, btree_reads, int_log, random_roots, runs, test_values, veb_gets, veb_inserts,
    veb_reads, veb_tree_size, Shortfall, TestOrder, TreeSpec,
};
use rand::SeedableRng;
use rand_pcg::Pcg64Mcg;

fn specs() -> Vec<CacheSpec> {
    vec![
        CacheSpec { num_blocks: 8, block_size: 64, inclusive: true },
        CacheSpec { num_blocks: 64, block_size: 64, inclusive: true },
    ]
}

fn values() -> Vec<u64> {
    let mut v = Vec::new();
    let mut x: u64 = 7;
    for _ in 0..300 {
        x = x.wrapping_mul(6364136223846793005).wrapping_add(1442695040888963407);
        v.push(x >> 40);
    }
    v
}

#[test]
fn veb_inserts_then_reads_find_everything() {
    let mut sim = Simalloc::new(specs());
    let mut trees = vec![Tree::in_sim(&sim), Tree::in_sim(&sim)];
    let vs = values();
    assert!(matches!(veb_inserts(&mut trees, &vs, &mut sim), Ok(())));
    assert!(matches!(veb_reads(&trees, &vs, &mut sim), Ok(())));
    let missing = vec![vs[0], u64::MAX];
    assert!(matches!(veb_reads(&trees, &missing, &mut sim), Err(Shortfall::Missing(v)) if v == u64::MAX));
}

#[test]
fn btree_inserts_then_reads_find_everything() {
    let mut sim = Simalloc::new(specs());
    let mut trees = vec![BTree::with_node_capacity_in_sim(3), BTree::with_node_size_in_sim(256)];
    let vs = values();
    assert!(matches!(btree_inserts(&mut trees, &vs, &mut sim), Ok(())));
    assert!(matches!(btree_reads(&trees, &vs, &mut sim), Ok(())));
    let missing = vec![u64::MAX - 1, vs[5]];
    assert!(matches!(btree_reads(&trees, &missing, &mut sim), Err(Shortfall::Missing(v)) if v == u64::MAX - 1));
}

#[test]
fn both_trees_agree_on_every_key() {
    let mut sim = Simalloc::new(specs());
    let mut vt = vec![Tree::in_sim(&sim)];
    let mut bt = vec![BTree::with_node_capacity_in_sim(4)];
    let vs = values();
    assert!(matches!(veb_inserts(&mut vt, &vs, &mut sim), Ok(())));
    assert!(matches!(btree_inserts(&mut bt, &vs, &mut sim), Ok(())));
    for probe in 0..2000u64 {
        let x = probe * 7919 % 20000;
        assert!(vt[0].room_for_get(&sim));
        let a = vt[0].get(&x, &mut sim).copied();
        assert!(bt[0].room_for_get(&sim));
        let b = bt[0].get(&x, &mut sim).copied();
        assert_eq!(a, b, "{x}");
        assert_eq!(a.is_some(), vs.contains(&x));
    }
}

#[test]
fn simulated_searches_count_hits() {
    let mut hier = Hierarchy::new(specs());
    let mut e = Pcg64Mcg::seed_from_u64(1);
    let mut t = Pcg64Mcg::seed_from_u64(2);
    let roots = vec![0usize, 1 << 20, 2 << 20];
    let hits = veb_gets(&roots, 50, (1 << 10) - 1, 12, &mut hier, &mut e, &mut t);
    assert!(hits <= 150);
    assert!(hier.accs() > 0);

    let mut hier = Hierarchy::new(specs());
    let hits = btree_gets(&roots, 50, 3, 20, 15, 256, &mut hier, &mut e, &mut t);
    assert!(hits <= 150);
    assert!(hier.accs() > 0);
}

#[test]
fn simulated_searches_without_rounds_touch_nothing() {
    let mut hier = Hierarchy::new(specs());
    let mut e = Pcg64Mcg::seed_from_u64(3);
    let mut t = Pcg64Mcg::seed_from_u64(4);
    let roots = vec![0usize, 4096];
    assert_eq!(veb_gets(&roots, 0, 255, 8, &mut hier, &mut e, &mut t), 0);
    assert_eq!(btree_gets(&roots, 0, 2, 8, 15, 256, &mut hier, &mut e, &mut t), 0);
    assert_eq!(hier.accs(), 0);
}

#[test]
fn dot_pictures_of_a_btree() {
    let mut sim = Simalloc::new(specs());
    let mut a = BTree::with_node_capacity_in_sim(2);
    assert!(a.dot_nodes().is_empty());
    for v in [10u64, 20, 30] {
        assert!(a.room_for_insert(&sim));
        a.insert(v, &mut sim);
    }
    let nodes = a.dot_nodes();
    assert_eq!(nodes.len(), 3);
    assert_eq!(nodes[0].level, 0);
    assert_eq!(nodes[0].keys.len(), 1);
    assert_eq!(nodes[0].links, vec![(0, nodes[1].addr), (1, nodes[2].addr)]);
    for n in &nodes[1..] {
        assert_eq!(n.level, 1);
        assert!(n.links.is_empty());
    }
    let mut keys: Vec<u64> = nodes.iter().flat_map(|n| n.keys.iter().copied()).collect();
    keys.sort();
    assert_eq!(keys, vec![10, 20, 30]);
    assert!(nodes[1].keys.iter().all(|k| *k < nodes[0].keys[0]));
    assert!(nodes[2].keys.iter().all(|k| *k > nodes[0].keys[0]));
}

#[test]
fn runs_cover_listed_trees_or_all() {
    let ds = vec![TreeSpec::VEB, TreeSpec::BTree2];
    assert!(runs(&ds, TreeSpec::VEB));
    assert!(runs(&ds, TreeSpec::BTree2));
    assert!(!runs(&ds, TreeSpec::BTree4k));
    assert!(runs(&vec![TreeSpec::All], TreeSpec::BTree4k));
    assert!(!runs(&vec![], TreeSpec::VEB));
}

#[test]
fn ascending_and_random_values() {
    let mut rng = Pcg64Mcg::seed_from_u64(9);
    assert_eq!(test_values(TestOrder::Asc, 5, &mut rng), vec![0, 1, 2, 3, 4]);
    let a = test_values(TestOrder::Rng, 100, &mut rng.clone());
    let b = test_values(TestOrder::Rng, 100, &mut rng);
    assert_eq!(a.len(), 100);
    assert_eq!(a, b);
    assert!(a.windows(2).any(|w| w[0] != w[1]));
}

#[test]
fn roots_are_aligned_and_low() {
    let mut rng = Pcg64Mcg::seed_from_u64(5);
    let roots = random_roots(50, 12, &mut rng);
    assert_eq!(roots.len(), 50);
    for r in &roots {
        assert_eq!(r % 4096, 0);
        assert!(*r < 1usize << 63);
    }
    assert!(roots.windows(2).any(|w| w[0] != w[1]));
    assert_eq!(random_roots(0, 3, &mut rng), Vec::<usize>::new());
}

#[test]
fn tree_sizes_round_up_to_full_trees() {
    assert_eq!(veb_tree_size(1 << 40), (1 << 41) - 1);
    assert_eq!(veb_tree_size(0), 0);
    assert_eq!(veb_tree_size(1), 1);
    assert_eq!(veb_tree_size(4), 7);
    assert_eq!(veb_tree_size(5), 7);
    assert_eq!(veb_tree_size(7), 7);
    assert_eq!(veb_tree_size(8), 15);
}

#[test]
fn integer_logarithms() {
    assert_eq!(int_log(4096, 2), 12);
    assert_eq!(int_log(4095, 2), 11);
    assert_eq!(int_log(1, 7), 0);
    assert_eq!(int_log(1 << 40, 2), 40);
    assert_eq!(int_log(((1usize << 40) + 1) / 2, 127), ((1usize << 39).ilog(127)));
    assert_eq!(int_log(1000, 10), 3);
    assert_eq!(int_log(999, 10), 2);
    assert_eq!(int_log(usize::MAX, 2), 63);
}
