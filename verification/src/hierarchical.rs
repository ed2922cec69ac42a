//! The van Emde Boas layout generalised to trees whose nodes hold several
//! keys: the lookup table for a complete tree of nodes of `node_size` keys
//! (`node_size + 1` children each), and the position formula over it.

use vstd::prelude::*;
use vstd::arithmetic::power::*;
use crate::veb::{TreeInfo, index_formula};
use crate::veb_layout::{top_height, table_entry, level_info};

verus! {

/// Keys in a complete tree of height `h` whose nodes hold `k` keys each:
/// `(k + 1)^h - 1`.
pub open spec fn keys_for_height(k: nat, h: nat) -> int {
    pow((k + 1) as int, h) - 1
}

/// `(top_tree_size, bottom_tree_size, top_tree_root_depth)` for depth `d`
/// inside a subtree of height `h` rooted at depth `root`, for nodes of `k`
/// keys: as for binary trees (see `crate::veb_layout::level_info`), with the
/// sizes counted in keys.
pub open spec fn hlevel_info(k: nat, h: nat, root: nat, d: nat) -> (int, int, nat)
    decreases h,
{
    let t = top_height(h);
    let b = (h - t) as nat;
    if d == root + t {
        (keys_for_height(k, t), keys_for_height(k, b), root)
    } else if d < root + t && h > 2 {
        hlevel_info(k, t, root, d)
    } else if d > root + t && b > 1 {
        hlevel_info(k, b, root + t, d)
    } else {
        (0, 0, 0)
    }
}

/// Entry `d` of the lookup table for a complete tree of height `height`
/// whose nodes hold `k` keys.
pub open spec fn htable_entry(k: nat, height: nat, d: nat) -> (int, int, nat) {
    if d == 0 {
        (0, keys_for_height(k, height), 0)
    } else {
        hlevel_info(k, height, 0, d)
    }
}

/// `base^e`.
fn pow_usize(base: usize, e: usize) -> (r: usize)
    requires
        base >= 1,
        pow(base as int, e as nat) <= usize::MAX,
    ensures
        r == pow(base as int, e as nat),
{
    let mut r: usize = 1;
    let mut i: usize = 0;
    proof {
        reveal(pow);
    }
    while i < e
        invariant
            i <= e,
            base >= 1,
            r == pow(base as int, i as nat),
            pow(base as int, e as nat) <= usize::MAX,
        decreases e - i,
    {
        proof {
            reveal(pow);
            lemma_pow_increases(base as nat, (i + 1) as nat, e as nat);
            assert(pow(base as int, (i + 1) as nat) == base * pow(base as int, i as nat));
        }
        r = r * base;
        i = i + 1;
    }
    r
}

/// Keys of a complete tree of height `h` ≤ `height` whose nodes hold
/// `node_size` keys.
fn keys_for(node_size: usize, h: usize, height: usize) -> (r: u64)
    requires
        node_size >= 1,
        node_size < usize::MAX,
        h <= height,
        pow(node_size + 1, height as nat) <= usize::MAX,
    ensures
        r == keys_for_height(node_size as nat, h as nat),
{
    proof {
        lemma_pow_increases((node_size + 1) as nat, h as nat, height as nat);
        lemma_pow_positive((node_size + 1) as int, h as nat);
    }
    (pow_usize(node_size + 1, h) - 1) as u64
}

/// Fills the rows for depths `top_tree_depth + 1 .. top_tree_depth + height`
/// (and, for a subtree of height 1, the row of its root) of the table for
/// nodes of `node_size` keys: one cut of the recursive decomposition, then
/// the top and the bottom trees recursively.
fn hfill_levels(height: usize, top_tree_depth: usize, node_size: usize, whole: usize, tree_info: &mut Vec<TreeInfo>)
    requires
        1 <= height,
        top_tree_depth + height <= old(tree_info).len() == whole <= 255,
        node_size >= 1,
        node_size < usize::MAX,
        pow(node_size + 1, whole as nat) <= usize::MAX,
    ensures
        final(tree_info).len() == old(tree_info).len(),
        forall|d: int|
            top_tree_depth < d < top_tree_depth + height ==> (#[trigger] final(tree_info)@[d])@
                == ({
                let e = hlevel_info(node_size as nat, height as nat, top_tree_depth as nat, d as nat);
                (e.0 as nat, e.1 as nat, e.2)
            }),
        height == 1 ==> final(tree_info)@[top_tree_depth as int]@ == (
            0nat,
            keys_for_height(node_size as nat, 1) as nat,
            top_tree_depth as nat,
        ),
        forall|d: int|
            0 <= d < old(tree_info).len() && !(top_tree_depth < d < top_tree_depth + height) && !(
            height == 1 && d == top_tree_depth) ==> #[trigger] final(tree_info)@[d]
                == old(tree_info)@[d],
    decreases height,
{
    let top_tree_height: usize = if height == 1 { 0 } else { (height + 1) / 2 };
    let bottom_tree_height: usize = height - top_tree_height;
    let top_tree_size = keys_for(node_size, top_tree_height, whole);
    let bottom_tree_size = keys_for(node_size, bottom_tree_height, whole);
    let depth: usize = top_tree_depth + top_tree_height;
    tree_info.set(
        depth,
        TreeInfo { top_tree_size, bottom_tree_size, top_tree_root_depth: top_tree_depth as u8 },
    );
    let ghost mid = tree_info@;
    if height > 2 {
        hfill_levels(top_tree_height, top_tree_depth, node_size, whole, tree_info);
    }
    let ghost mid2 = tree_info@;
    if bottom_tree_height > 1 {
        hfill_levels(bottom_tree_height, top_tree_depth + top_tree_height, node_size, whole, tree_info);
    }
    proof {
        let h = height as nat;
        let r = top_tree_depth as nat;
        let k = node_size as nat;
        assert(top_height(h) == top_tree_height);
        if height == 1 {
            reveal(pow);
            assert(keys_for_height(k, 0) == 0);
        }
        assert forall|d: int| r < d < r + h implies (#[trigger] tree_info@[d])@ == ({
            let e = hlevel_info(k, h, r, d as nat);
            (e.0 as nat, e.1 as nat, e.2)
        }) by {
            if d == depth {
                assert(mid2[d] == mid[d]);
            } else if d < depth {
                assert(h > 2);
            } else {
                assert(bottom_tree_height > 1);
            }
        }
    }
}

/// The lookup table for a complete tree of height `height` whose nodes hold
/// `node_size` keys each.
pub fn make_tree_info(height: u8, node_size: usize) -> (table: Vec<TreeInfo>)
    requires
        height == 0 || node_size >= 1,
        node_size < usize::MAX,
        pow(node_size + 1, height as nat) <= usize::MAX,
    ensures
        table@.len() == height,
        forall|d: int|
            0 <= d < height ==> (#[trigger] table@[d])@ == ({
                let e = htable_entry(node_size as nat, height as nat, d as nat);
                (e.0 as nat, e.1 as nat, e.2)
            }),
{
    if height == 0 {
        return Vec::new();
    }
    let h = height as usize;
    let mut tree_info: Vec<TreeInfo> = Vec::new();
    let mut i: usize = 0;
    while i < h
        invariant
            i <= h <= 255,
            tree_info@.len() == i,
        decreases h - i,
    {
        tree_info.push(TreeInfo { top_tree_size: 0, bottom_tree_size: 0, top_tree_root_depth: 0 });
        i = i + 1;
    }
    let whole_keys = keys_for(node_size, h, h);
    tree_info.set(0, TreeInfo { top_tree_size: 0, bottom_tree_size: whole_keys, top_tree_root_depth: 0 });
    let ghost first = tree_info@;
    hfill_levels(h, 0, node_size, h, &mut tree_info);
    proof {
        if h == 1 {
            reveal(pow);
            assert(keys_for_height(node_size as nat, 1) == keys_for_height(node_size as nat, h as nat));
        }
    }
    tree_info
}

/// Position of the node with number `hpos` at depth `depth`, from the table
/// and the positions of its ancestors: the formula of the binary layout
/// (see `crate::veb::veb_index`), here over a table for wider nodes.
pub fn hindex(hpos: usize, ancestors: &mut [usize; 64], depth: u32, table: &[TreeInfo]) -> (pos: usize)
    requires
        depth < table@.len(),
        table@[depth as int].top_tree_root_depth < 64,
        0 <= index_formula(hpos, old(ancestors)@, table@[depth as int]) <= usize::MAX,
    ensures
        *final(ancestors) == *old(ancestors),
        pos == index_formula(hpos, old(ancestors)@, table@[depth as int]),
{
    crate::veb::veb_index(hpos, ancestors, depth, table)
}

/// With one key per node, the table is that of the binary layout.
pub proof fn lemma_one_key_is_binary(height: nat, d: nat)
    ensures
        htable_entry(1, height, d) == ({
            let e = table_entry(height, d);
            (e.0 as int, e.1 as int, e.2)
        }),
{
    if d == 0 {
        lemma_pow_positive(2, height);
        assert(keys_for_height(1, height) == vstd::arithmetic::power2::pow2(height) - 1);
    } else {
        lemma_one_key_level(height, 0, d);
    }
}

proof fn lemma_one_key_level(h: nat, root: nat, d: nat)
    ensures
        hlevel_info(1, h, root, d) == ({
            let e = level_info(h, root, d);
            (e.0 as int, e.1 as int, e.2)
        }),
    decreases h,
{
    let t = top_height(h);
    let b = (h - t) as nat;
    lemma_pow_positive(2, t);
    lemma_pow_positive(2, b);
    if d == root + t {
    } else if d < root + t && h > 2 {
        lemma_one_key_level(t, root, d);
    } else if d > root + t && b > 1 {
        lemma_one_key_level(b, root + t, d);
    }
}

} // verus!
