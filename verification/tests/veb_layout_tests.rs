use cachesim::veb::{make_veb, make_veb_in, search, tree_info_table, fitting_height};

fn check_all_found(values: &[u64], a: &[Option<u64>]) {
    for &value in values {
        let i = search(a, &value)
            .unwrap_or_else(|| panic!("could not find {value} in {a:?} (tree len {})", a.len()));
        assert_eq!(a[i].unwrap(), value);
    }
}

#[test]
fn count_to_3() {
    let values: Vec<u64> = vec![1, 2, 3];
    let a = make_veb(values.clone());
    println!("{a:?}");
    check_all_found(&values, &a);
}

#[test]
fn count_to_10() {
    let values: Vec<u64> = vec![1, 2, 3, 4, 5, 6, 7, 8, 9, 10];
    let a = make_veb(values.clone());
    println!("{a:?}");
    check_all_found(&values, &a);
}

#[test]
fn count_to_8() {
    let values: Vec<u64> = vec![1, 2, 3, 4, 5, 6, 7, 8];
    let a = make_veb(values.clone());
    println!("{a:?}");
    check_all_found(&values, &a);
}

#[test]
fn count_to_8_in() {
    let values: Vec<u64> = vec![1, 2, 3, 4, 5, 6, 7, 8];
    let mut a = vec![None; 15];
    make_veb_in(&values, &mut a);
    println!("{a:?}");
    check_all_found(&values, &a);
}

#[test]
fn prop_repro() {
    let values: Vec<u64> = vec![
        0, 1, 2, 3, 4, 5, 6, 7, 8, 9, 10, 11, 12, 13, 14, 15, 16, 17, 18, 19, 20, 21, 22, 23, 24, 25,
        26, 27, 28, 29, 30, 31,
    ];
    let a = make_veb(values.clone());
    check_all_found(&values, &a);
}

// A plain recursive construction of the layout, to compare against: build
// the balanced tree, then lay out the top half of its levels followed by
// each bottom tree, recursively.
struct Node {
    value: u64,
    height: u8,
    left: Option<Box<Node>>,
    right: Option<Box<Node>>,
}

fn make_tree(elements: &[u64]) -> (u8, Option<Node>) {
    match elements {
        [] => (0, None),
        [e] => (1, Some(Node { value: *e, height: 1, left: None, right: None })),
        es => {
            let mid = es.len() / 2;
            let value = es[mid];
            let (lh, left) = make_tree(&es[0..mid]);
            let (rh, right) = make_tree(&es[mid + 1..]);
            let height = lh.max(rh) + 1;
            (
                height,
                Some(Node { value, height, left: left.map(Box::new), right: right.map(Box::new) }),
            )
        }
    }
}

fn split(mut tree: Node, h0: u8) -> (Node, Vec<Node>) {
    fn take(node: &mut Node, d: u8, h0: u8, subtrees: &mut Vec<Node>) {
        let next = d + 1;
        if next > h0 {
            if let Some(left) = node.left.take() {
                assert!(left.value < node.value);
                subtrees.push(*left);
            }
            if let Some(right) = node.right.take() {
                assert!(right.value > node.value);
                subtrees.push(*right);
            }
        } else {
            if let Some(left) = node.left.as_mut() {
                take(left, next, h0, subtrees);
            }
            if let Some(right) = node.right.as_mut() {
                take(right, next, h0, subtrees);
            }
        }
    }
    let mut subtrees = vec![];
    take(&mut tree, 1, h0, &mut subtrees);
    (tree, subtrees)
}

fn slv(tree: Node, height: u8) -> Vec<Option<u64>> {
    if tree.left.is_none() && tree.right.is_none() {
        assert_eq!(height, 1);
        return vec![Some(tree.value)];
    }
    let top_tree_size = height.div_ceil(2);
    let (top_tree, bottom_trees) = split(tree, top_tree_size);
    let mut top = slv(top_tree, top_tree_size);
    for bottom in bottom_trees {
        top.extend(slv(bottom, height - top_tree_size));
    }
    top
}

fn simple_make_veb(elements: &[u64]) -> Vec<Option<u64>> {
    if elements.is_empty() {
        return vec![];
    }
    assert!(elements.is_sorted());
    assert_eq!(elements.len() % 2, 1);
    let (height, tree) = make_tree(elements);
    match tree {
        None => vec![],
        Some(tree) => {
            let _ = tree.height;
            slv(tree, height)
        }
    }
}

#[test]
fn exhaust() {
    for i in 0..=16 {
        let values: Vec<u64> = (0..((1u64 << i) - 1)).collect();
        let a = simple_make_veb(&values);
        check_all_found(&values, &a);
    }
}

#[test]
fn exhaust_t() {
    for i in 0..=16 {
        let values: Vec<u64> = (0..((1u64 << i) - 1)).collect();
        let a = make_veb(values.clone());
        check_all_found(&values, &a);
    }
}

#[test]
fn exhaust_build() {
    for i in 0..=16 {
        let values: Vec<u64> = (0..((1u64 << i) - 1)).collect();
        let a = simple_make_veb(&values);
        let b = make_veb(values.clone());
        assert_eq!(a, b, "with tree len {}, data {values:?}", a.len());
    }
}

#[test]
fn make_table() {
    for h in 0..64u32 {
        let t = tree_info_table(h);
        assert_eq!(t.len(), h as usize, "when creating table of size {h}");
        if h > 0 {
            assert_eq!(t[0].top_tree_size, 0);
            assert_eq!(t[0].bottom_tree_size, (1u64 << h) - 1);
        }
    }
}

#[test]
fn table_for_height_4() {
    // depth 1..4 of a height-4 tree: the first cut gives two top levels,
    // then each half again
    let t = tree_info_table(4);
    let rows: Vec<(u64, u64, u8)> =
        t.iter().map(|r| (r.top_tree_size, r.bottom_tree_size, r.top_tree_root_depth)).collect();
    assert_eq!(rows, vec![(0, 15, 0), (1, 1, 0), (3, 3, 0), (1, 1, 2)]);
}

#[test]
fn small_layouts() {
    assert_eq!(make_veb(vec![]), vec![]);
    assert_eq!(make_veb(vec![7]), vec![Some(7)]);
    assert_eq!(make_veb(vec![1, 2, 3]), vec![Some(2), Some(1), Some(3)]);
    // seven keys: root, its two children, then the four leaves in order
    assert_eq!(
        make_veb(vec![1, 2, 3, 4, 5, 6, 7]),
        vec![Some(4), Some(2), Some(6), Some(1), Some(3), Some(5), Some(7)]
    );
    // fifteen keys: the top tree of height 2, then four bottom trees of height 2
    let a = make_veb((1..=15).collect());
    assert_eq!(a[0], Some(8));
    assert_eq!(&a[1..3], &[Some(4), Some(12)]);
    assert_eq!(&a[3..6], &[Some(2), Some(1), Some(3)]);
}

#[test]
fn search_misses() {
    assert_eq!(search(&[], &1), None);
    // an even count leaves slots empty; a search that reaches one finds nothing
    let b = make_veb(vec![1, 2, 3, 4]);
    assert_eq!(b.len(), 7);
    for v in 1..=4u64 {
        assert_eq!(b[search(&b, &v).unwrap()], Some(v));
    }
    assert_eq!(search(&b, &9), None);
    assert_eq!(search(&b, &5), None);
}

#[test]
fn fitting_heights() {
    assert_eq!(fitting_height(0), 0);
    assert_eq!(fitting_height(1), 0);
    assert_eq!(fitting_height(2), 2);
    assert_eq!(fitting_height(3), 2);
    assert_eq!(fitting_height(4), 3);
    assert_eq!(fitting_height(7), 3);
    assert_eq!(fitting_height(8), 4);
    assert_eq!(fitting_height(15), 4);
}
