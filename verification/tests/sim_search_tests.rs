use cachesim::btree::{
    min_node_size, node_size_for_num_elements, num_elements_for_node_size, sim_find, Header, NodePtr,
};
use cachesim::hierarchical::{hindex, make_tree_info};
use cachesim::hierarchy::{CacheSpec, Hierarchy};
use cachesim::trees_of_small_height::{sim_get, table, veb_index};
use cachesim::veb::tree_info_table;
use rand::SeedableRng;
use rand_pcg::Pcg64Mcg;

fn one_level(num_blocks: usize, block_size: usize) -> Hierarchy {
    Hierarchy::new(vec![CacheSpec { num_blocks, block_size, inclusive: true }])
}

#[test]
fn small_height_tables() {
    assert_eq!(table(0).len(), 0);
    assert_eq!(table(1).len(), 1);
    assert_eq!(table(3).len(), 2);
    assert_eq!(table(7).len(), 3);
    assert_eq!(table(8).len(), 4);
    let mut ancestors = [0usize; 64];
    let t = table(7);
    assert_eq!(veb_index(2, &mut ancestors, 1, &t), Some(1));
    assert_eq!(veb_index(3, &mut ancestors, 1, &t), Some(2));
    assert_eq!(veb_index(2, &mut ancestors, 3, &t), None);
}

#[test]
fn small_height_match_at_root() {
    let mut hier = one_level(16, 64);
    let mut rng = Pcg64Mcg::seed_from_u64(1);
    // with no element to pass, the root matches
    let r = sim_get::<u64>(1 << 20, 0, 15, &mut hier, &mut rng);
    assert_eq!(r, Some(0));
    assert_eq!(hier.accs(), 1);
}

#[test]
fn small_height_walks_every_level() {
    // a complete tree of height 4 (15 slots): the search matches at the
    // requested depth, after reading one slot per level down to it
    for until in 0..6usize {
        let mut hier = one_level(64, 16);
        let mut rng = Pcg64Mcg::seed_from_u64(until as u64);
        let r = sim_get::<u64>(4096, until, 15, &mut hier, &mut rng);
        if until < 4 {
            let p = r.expect("a match inside the tree");
            assert!(p < 15);
            assert_eq!(hier.accs(), until as u64 + 1);
        } else {
            assert_eq!(r, None);
            assert_eq!(hier.accs(), 4);
        }
    }
}

#[test]
fn small_height_positions_by_depth() {
    // at depth 1 of a tree of height 4 the nodes sit at slots 1 and 2; at
    // depth 2, slots 3 and 6 (the roots of the bottom trees of the left
    // child) and 9 and 12 (of the right child)
    for seed in 0..20u64 {
        let mut hier = one_level(64, 16);
        let mut rng = Pcg64Mcg::seed_from_u64(seed);
        let r = sim_get::<u64>(0, 1, 15, &mut hier, &mut rng).unwrap();
        assert!(r == 1 || r == 2);
        let mut rng = Pcg64Mcg::seed_from_u64(seed);
        let mut hier = one_level(64, 16);
        let r = sim_get::<u64>(0, 2, 15, &mut hier, &mut rng).unwrap();
        assert!([3, 6, 9, 12].contains(&r), "{r}");
    }
}

#[test]
fn small_height_single_slot() {
    let mut hier = one_level(4, 64);
    let mut rng = Pcg64Mcg::seed_from_u64(3);
    assert_eq!(sim_get::<u32>(0, 0, 1, &mut hier, &mut rng), Some(0));
    assert_eq!(sim_get::<u32>(0, 1, 1, &mut hier, &mut rng), None);
    assert_eq!(sim_get::<u32>(0, 0, 0, &mut hier, &mut rng), None);
    assert_eq!(hier.accs(), 2);
}

#[test]
fn wide_node_tables() {
    // one key per node: the binary table
    for h in 0..10u8 {
        let a = make_tree_info(h, 1);
        let b = tree_info_table(h as u32);
        assert_eq!(a.len(), b.len());
        for (x, y) in a.iter().zip(b.iter()) {
            assert_eq!(
                (x.top_tree_size, x.bottom_tree_size, x.top_tree_root_depth),
                (y.top_tree_size, y.bottom_tree_size, y.top_tree_root_depth)
            );
        }
    }
    // three keys per node, height 3: 63 keys in all; the first cut takes the
    // top two levels (15 keys) above bottom trees of one node (3 keys), and
    // the top tree is cut again below its root
    let t = make_tree_info(3, 3);
    let rows: Vec<(u64, u64, u8)> =
        t.iter().map(|r| (r.top_tree_size, r.bottom_tree_size, r.top_tree_root_depth)).collect();
    assert_eq!(rows, vec![(0, 63, 0), (3, 3, 0), (15, 3, 0)]);
    assert_eq!(make_tree_info(1, 5).iter().map(|r| r.bottom_tree_size).collect::<Vec<_>>(), vec![5]);
    assert!(make_tree_info(0, 0).is_empty());
}

#[test]
fn wide_node_index() {
    let t = make_tree_info(3, 3);
    let mut ancestors = [0usize; 64];
    // number 2 at depth 1: after the root's 3 keys, 2 nodes of 3 keys in
    assert_eq!(hindex(2, &mut ancestors, 1, &t), 3 + 2 * 3);
    // number 5 at depth 2: after the top tree's 15 keys, 5 nodes of 3 keys in
    assert_eq!(hindex(5, &mut ancestors, 2, &t), 15 + 5 * 3);
}

#[test]
fn node_sizes() {
    let h = std::mem::size_of::<Header<u64>>();
    let p = std::mem::size_of::<NodePtr>();
    assert_eq!(h, 8);
    assert_eq!(p, 8);
    assert_eq!(node_size_for_num_elements::<u64>(0), 8 + p);
    assert_eq!(node_size_for_num_elements::<u64>(2), 8 + 16 + 3 * p);
    assert_eq!(node_size_for_num_elements::<u32>(1), 16 + 2 * p);
    assert_eq!(min_node_size::<u64>(), 8 + 2 * p + 8);
    let cap = num_elements_for_node_size::<u64>(1 << 12);
    assert!(node_size_for_num_elements::<u64>(cap) <= 1 << 12);
    assert!(node_size_for_num_elements::<u64>(cap + 1) > 1 << 12);
    assert_eq!(cap, 255);
}

#[test]
fn node_search_simulation() {
    let mut hier = one_level(64, 64);
    let mut until = 10;
    // 7 keys, looking for slot 5: probes 3, 5, 6, ends at 5
    let r = sim_find::<u64>(&mut hier, 4096, 7, 5, true, &mut until);
    assert_eq!(until, 8);
    assert_eq!(r, Err(5));
    assert_eq!(hier.accs(), 1 + 3 + 1);
    let mut until = 2;
    let r = sim_find::<u64>(&mut hier, 4096, 7, 5, false, &mut until);
    assert_eq!(until, 0);
    assert_eq!(r, Ok(5));
    let mut until = 3;
    let r = sim_find::<u64>(&mut hier, 4096, 7, 7, false, &mut until);
    assert_eq!(until, 0);
    assert_eq!(r, Ok(6));
    let mut until = 5;
    let r = sim_find::<u64>(&mut hier, 4096, 0, 0, false, &mut until);
    assert_eq!((r, until), (Err(0), 5));
    let mut until = 9;
    let r = sim_find::<u64>(&mut hier, 4096, 7, 2, false, &mut until);
    assert_eq!(r, Err(3));
}

#[test]
fn btree_search_simulation() {
    let node_size = 1 << 12;
    let cap = num_elements_for_node_size::<u64>(node_size);
    for seed in 0..10u64 {
        let mut hier = Hierarchy::new(vec![
            CacheSpec { num_blocks: 64, block_size: 64, inclusive: true },
            CacheSpec { num_blocks: 16, block_size: 4096, inclusive: true },
        ]);
        let mut rng = Pcg64Mcg::seed_from_u64(seed);
        let r = cachesim::btree::sim_get::<u64>(1 << 30, 0, 3, 0, cap, node_size, &mut hier, &mut rng);
        // a match is due at once: found in the root
        let a = r.expect("a match at the root");
        let header = std::mem::size_of::<Header<u64>>();
        assert!(a >= (1 << 30) + header && a < (1 << 30) + header + cap * 8);
        assert_eq!((a - (1 << 30) - header) % 8, 0);
        let mut rng = Pcg64Mcg::seed_from_u64(seed);
        let r = cachesim::btree::sim_get::<u64>(1 << 30, 0, 3, 1000, cap, node_size, &mut hier, &mut rng);
        // no match is due within three levels of at most 8 misses each
        assert_eq!(r, None);
    }
}

#[test]
fn btree_search_simulation_repeats() {
    let node_size = 1 << 12;
    let cap = num_elements_for_node_size::<u64>(node_size);
    for seed in 0..10u64 {
        let run = || {
            let mut hier = Hierarchy::new(vec![CacheSpec { num_blocks: 64, block_size: 64, inclusive: true }]);
            let mut rng = Pcg64Mcg::seed_from_u64(seed);
            let r = cachesim::btree::sim_get::<u64>(1 << 30, 0, 3, 12, cap, node_size, &mut hier, &mut rng);
            (r, hier.stats()[0].accesses, hier.stats()[0].hits)
        };
        let first = run();
        assert_eq!(first, run());
        if let Some(a) = first.0 {
            let header = std::mem::size_of::<Header<u64>>();
            // the key lies in a node that starts on a page
            let off = (a - header) % node_size;
            assert!(off < cap * 8 && off % 8 == 0);
        }
    }
}

#[test]
fn node_size_holds_the_most_keys_that_fit() {
    for size in min_node_size::<u64>()..=4096 {
        let r = num_elements_for_node_size::<u64>(size);
        assert!(r >= 1);
        assert!(node_size_for_num_elements::<u64>(r) <= size);
        assert!(node_size_for_num_elements::<u64>(r + 1) > size);
    }
}
