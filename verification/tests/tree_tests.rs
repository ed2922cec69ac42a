use cachesim::hierarchy::CacheSpec;
use cachesim::simalloc::Simalloc;
use cachesim::trees_of_small_height::Tree;
use rand::{RngCore, SeedableRng};

fn memory() -> Simalloc {
    Simalloc::new(vec![
        CacheSpec { num_blocks: 8, block_size: 64, inclusive: true },
        CacheSpec { num_blocks: 64, block_size: 64, inclusive: true },
    ])
}

fn first_level_accesses(sim: &Simalloc) -> u64 {
    sim.stats()[0].accesses
}

#[test]
fn tree_count_to_3() {
    let mut sim = memory();
    let mut a = Tree::in_sim(&sim);
    for i in 1..=3u64 {
        a.insert(i, &mut sim);
        for j in 1..=i {
            assert_eq!(a.get(&j, &mut sim), Some(&j), "{j}");
        }
    }
}

#[test]
fn tree_count_to_10() {
    let mut sim = memory();
    let mut a = Tree::in_sim(&sim);
    for i in 0..11u64 {
        a.insert(i, &mut sim);
        for j in 0..=i {
            assert!(a.get(&j, &mut sim).is_some(), "{j}");
        }
        assert!(a.get(&(i + 1), &mut sim).is_none());
    }
}

#[test]
fn tree_spiral_to_10() {
    let mut sim = memory();
    let mut a = Tree::in_sim(&sim);
    let order = [5u64, 4, 6, 3, 7, 2, 8, 1, 9, 0, 10];
    for (n, i) in order.iter().enumerate() {
        a.insert(*i, &mut sim);
        for j in &order[..=n] {
            assert_eq!(a.get(j, &mut sim), Some(j));
        }
    }
}

#[test]
fn tree_count_to_100() {
    let mut sim = memory();
    let mut a = Tree::in_sim(&sim);
    for i in 0..100u64 {
        a.insert(i, &mut sim);
        for j in 0..=i {
            assert!(a.get(&j, &mut sim).is_some(), "{j}");
        }
    }
}

#[test]
fn tree_exhaust() {
    for i in 0..=12u32 {
        let mut sim = memory();
        let values: Vec<u64> = (0..((1u64 << i) - 1)).collect();
        let mut a = Tree::in_sim(&sim);
        for &value in &values {
            a.insert(value, &mut sim);
        }
        for value in &values {
            assert_eq!(a.get(value, &mut sim), Some(value));
        }
    }
}

#[test]
fn tree_exhaust_descending() {
    let mut sim = memory();
    let mut a = Tree::in_sim(&sim);
    let len = 12;
    for value in (0..((1u64 << len) - 1)).rev() {
        a.insert(value, &mut sim);
    }
    for value in 0..((1u64 << len) - 1) {
        assert_eq!(a.get(&value, &mut sim), Some(&value));
    }
    assert!(a.get(&(1u64 << len), &mut sim).is_none());
}

#[test]
fn tree_empty_finds_nothing_without_reading() {
    let mut sim = memory();
    let a = Tree::in_sim(&sim);
    assert_eq!(a.cap(), 0);
    assert_eq!(a.get(&7, &mut sim), None);
    assert_eq!(first_level_accesses(&sim), 0);
}

#[test]
fn tree_first_insert_takes_three_slots() {
    let mut sim = memory();
    let mut a = Tree::in_sim(&sim);
    a.insert(42, &mut sim);
    assert_eq!(a.cap(), 3);
    // the first key goes to the root of fresh memory, read by nobody
    assert_eq!(first_level_accesses(&sim), 0);
    // a search for it reads the root, then the root once more
    assert_eq!(a.get(&42, &mut sim), Some(&42));
    assert_eq!(first_level_accesses(&sim), 2);
    // a search for a smaller key reads the root, then the empty left child
    assert_eq!(a.get(&1, &mut sim), None);
    assert_eq!(first_level_accesses(&sim), 4);
}

#[test]
fn tree_grows_by_doubling() {
    let mut sim = memory();
    let mut a = Tree::in_sim(&sim);
    let mut caps = Vec::new();
    for i in 0..40u64 {
        a.insert(i, &mut sim);
        caps.push(a.cap());
    }
    for w in caps.windows(2) {
        assert!(w[1] == w[0] || w[1] == 2 * w[0] + 1, "{:?}", w);
    }
    assert!(caps.iter().all(|c| (c + 1).is_power_of_two()));
    assert!(*caps.last().unwrap() >= 40);
}

#[test]
fn tree_duplicate_insert_changes_nothing() {
    let mut sim = memory();
    let mut a = Tree::in_sim(&sim);
    for i in [3u64, 1, 4, 5, 9, 2, 6] {
        a.insert(i, &mut sim);
    }
    let cap = a.cap();
    a.insert(4, &mut sim);
    a.insert(9, &mut sim);
    assert_eq!(a.cap(), cap);
    for i in [3u64, 1, 4, 5, 9, 2, 6] {
        assert_eq!(a.get(&i, &mut sim), Some(&i));
    }
    assert_eq!(a.get(&7, &mut sim), None);
}

#[test]
fn tree_random_keys() {
    let mut rng = rand_pcg::Pcg64Mcg::seed_from_u64(7);
    let mut sim = memory();
    let mut a = Tree::in_sim(&sim);
    let mut keys = Vec::new();
    for _ in 0..500 {
        let v = rng.next_u64() % 10_000;
        a.insert(v, &mut sim);
        keys.push(v);
    }
    for v in &keys {
        assert_eq!(a.get(v, &mut sim), Some(v));
    }
    for v in 10_000..10_050u64 {
        assert_eq!(a.get(&v, &mut sim), None);
    }
}

#[test]
fn tree_lookup_reads_the_search_path() {
    let mut sim = memory();
    let mut a = Tree::in_sim(&sim);
    for v in [2u64, 1, 3] {
        a.insert(v, &mut sim);
    }
    assert_eq!(a.cap(), 3);
    let before = first_level_accesses(&sim);
    // the root, the left child that holds the key, then that slot again
    assert_eq!(a.get(&1, &mut sim), Some(&1));
    assert_eq!(first_level_accesses(&sim), before + 3);
    // the root, the right child, then past the last level: nothing more
    assert_eq!(a.get(&4, &mut sim), None);
    assert_eq!(first_level_accesses(&sim), before + 5);
}

#[test]
fn first_insert_makes_three_slots() {
    let mut sim = memory();
    let mut t = Tree::in_sim(&sim);
    assert_eq!(t.cap(), 0);
    t.insert(7, &mut sim);
    assert_eq!(t.cap(), 3);
    assert_eq!(t.get(&7, &mut sim), Some(&7));
    assert_eq!(t.get(&8, &mut sim), None);
}

#[test]
fn capacity_grows_as_one_more_than_double() {
    let mut sim = memory();
    let mut t = Tree::in_sim(&sim);
    let mut seen = vec![];
    for i in 0..200u64 {
        let before = t.cap();
        t.insert(i, &mut sim);
        let after = t.cap();
        assert!(after == before || after == 2 * before + 1 || (before == 0 && after == 3));
        if after != before {
            seen.push(after);
        }
    }
    for w in seen.windows(2) {
        assert_eq!(w[1], 2 * w[0] + 1);
    }
    let cap = t.cap();
    t.insert(5, &mut sim);
    assert_eq!(t.cap(), cap);
}
