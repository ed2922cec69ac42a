//! Static search trees in the van Emde Boas layout: building one from sorted
//! keys and searching it.

use vstd::prelude::*;
use vstd::arithmetic::power2::*;
use vstd::bits::*;
use vstd::arithmetic::div_mod::*;
use crate::veb_layout::{
    table_entry, level_info, top_height, lemma_pow2_small, vpos, lemma_table_formula,
    lemma_vpos_bound, lemma_vpos_root, lemma_vpos_injective,
};

verus! {

/// One row of the lookup table: for a depth `d`, the size of the top tree
/// whose bottom trees are rooted at depth `d`, the size of those bottom trees,
/// and the depth of the top tree's root.
pub struct TreeInfo {
    pub top_tree_size: u64,
    pub bottom_tree_size: u64,
    pub top_tree_root_depth: u8,
}

impl View for TreeInfo {
    type V = (nat, nat, nat);

    open spec fn view(&self) -> (nat, nat, nat) {
        (self.top_tree_size as nat, self.bottom_tree_size as nat, self.top_tree_root_depth as nat)
    }
}

/// `table` is the lookup table of a complete tree of height `height`.
pub open spec fn table_valid(table: Seq<TreeInfo>, height: nat) -> bool {
    &&& table.len() == height
    &&& forall|d: int| 0 <= d < height ==> (#[trigger] table[d])@ == table_entry(height, d as nat)
}

/// Smallest `h` with `2^h >= m`.
pub open spec fn ceil_log2(m: nat) -> nat
    decreases m,
{
    if m <= 1 {
        0
    } else {
        1 + ceil_log2(((m + 1) / 2) as nat)
    }
}

/// Height of the complete tree that the layout uses for `n` keys (`n` slots
/// or `n` keys: the two agree on every `n` that a layout produces).
pub open spec fn tree_height(n: nat) -> nat {
    if n % 2 == 0 {
        ceil_log2(n + 1)
    } else {
        ceil_log2(n)
    }
}

/// `2^ceil_log2(m)` is the least power of two at or above `m`.
pub proof fn lemma_ceil_log2(m: nat)
    ensures
        pow2(ceil_log2(m)) >= m,
        ceil_log2(m) > 0 ==> pow2((ceil_log2(m) - 1) as nat) < m,
    decreases m,
{
    lemma_pow2_small();
    if m > 1 {
        let m2 = ((m + 1) / 2) as nat;
        lemma_ceil_log2(m2);
        lemma_pow2_unfold(ceil_log2(m));
        if ceil_log2(m2) > 0 {
            lemma_pow2_unfold(ceil_log2(m2));
        }
    }
}

/// The two facts that pin `ceil_log2(m)` down.
pub proof fn lemma_ceil_log2_unique(m: nat, h: nat)
    requires
        pow2(h) >= m,
        h > 0 ==> pow2((h - 1) as nat) < m,
    ensures
        h == ceil_log2(m),
{
    lemma_ceil_log2(m);
    let c = ceil_log2(m);
    if h < c {
        if h + 1 <= (c - 1) as nat {
            lemma_pow2_strictly_increases(h, (c - 1) as nat);
        }
    } else if c < h {
        if c + 1 <= (h - 1) as nat {
            lemma_pow2_strictly_increases(c, (h - 1) as nat);
        }
    }
}

/// Smallest `h` with `2^h >= m` (the exponent of `m.next_power_of_two()`).
fn next_pow2_exponent(m: usize) -> (h: u32)
    requires
        m <= 0x8000_0000_0000_0000,
    ensures
        h == ceil_log2(m as nat),
        h <= 63,
{
    let mut p: u64 = 1;
    let mut h: u32 = 0;
    proof {
        lemma_pow2_small();
        lemma2_to64();
        lemma2_to64_rest();
    }
    let mm: u64 = m as u64;
    while p < mm
        invariant
            mm == m,
            p == pow2(h as nat),
            h <= 63,
            h > 0 ==> pow2((h - 1) as nat) < m,
            m <= 0x8000_0000_0000_0000,
            p <= 0x8000_0000_0000_0000,
        decreases 64 - h,
    {
        proof {
            lemma2_to64_rest();
            assert(h < 63);
            lemma_pow2_unfold((h + 1) as nat);
            if h + 1 < 63 {
                lemma_pow2_strictly_increases((h + 1) as nat, 63);
            }
        }
        p = p * 2;
        h = h + 1;
    }
    proof {
        lemma_ceil_log2_unique(m as nat, h as nat);
    }
    h
}

/// Height of the complete tree used for `num_elements` keys or slots.
pub fn fitting_height(num_elements: usize) -> (h: u32)
    requires
        num_elements < 0x8000_0000_0000_0000,
    ensures
        h == tree_height(num_elements as nat),
        h <= 63,
{
    if num_elements % 2 == 0 {
        next_pow2_exponent(num_elements + 1)
    } else {
        next_pow2_exponent(num_elements)
    }
}


/// `2^e - 1` as a `u64`.
fn low_mask_u64(e: u32) -> (r: u64)
    requires
        e <= 63,
    ensures
        r == pow2(e as nat) - 1,
{
    proof {
        lemma_u64_pow2_no_overflow(e as nat);
        lemma_u64_shl_is_mul(1, e as u64);
    }
    (1u64 << e) - 1
}

/// Fills the rows for depths `top_tree_depth + 1 .. top_tree_depth + height`
/// of the table: one cut of the recursive decomposition, then the top and the
/// bottom trees recursively.
fn fill_levels(height: u32, top_tree_depth: u8, tree_info: &mut Vec<TreeInfo>)
    requires
        2 <= height,
        top_tree_depth + height <= old(tree_info).len() <= 63,
    ensures
        final(tree_info).len() == old(tree_info).len(),
        forall|d: int|
            top_tree_depth < d < top_tree_depth + height ==> (#[trigger] final(tree_info)@[d])@
                == level_info(height as nat, top_tree_depth as nat, d as nat),
        forall|d: int|
            0 <= d < old(tree_info).len() && !(top_tree_depth < d < top_tree_depth + height)
                ==> #[trigger] final(tree_info)@[d] == old(tree_info)@[d],
    decreases height,
{
    let top_tree_height: u32 = (height + 1) / 2;
    let bottom_tree_height: u32 = height - top_tree_height;
    let top_tree_size = low_mask_u64(top_tree_height);
    let bottom_tree_size = low_mask_u64(bottom_tree_height);
    let depth: usize = top_tree_depth as usize + top_tree_height as usize;
    tree_info[depth] = TreeInfo {
        top_tree_size,
        bottom_tree_size,
        top_tree_root_depth: top_tree_depth,
    };
    let ghost mid = tree_info@;
    if height > 2 {
        fill_levels(top_tree_height, top_tree_depth, tree_info);
    }
    let ghost mid2 = tree_info@;
    if bottom_tree_height > 1 {
        fill_levels(bottom_tree_height, top_tree_depth + top_tree_height as u8, tree_info);
    }
    proof {
        let h = height as nat;
        let r = top_tree_depth as nat;
        assert(top_height(h) == top_tree_height);
        assert forall|d: int| r < d < r + h implies (#[trigger] tree_info@[d])@ == level_info(
            h,
            r,
            d as nat,
        ) by {
            if d == depth {
                assert(mid2[d] == mid[d]);
            } else if d < depth {
                assert(h > 2);
            } else {
                assert(bottom_tree_height > 1);
            }
        }
    }
}

/// The lookup table for a complete tree of height `height`.
pub fn tree_info_table(height: u32) -> (table: Vec<TreeInfo>)
    requires
        height <= 63,
    ensures
        table_valid(table@, height as nat),
{
    let mut tree_info: Vec<TreeInfo> = Vec::new();
    let mut i: u32 = 0;
    while i < height
        invariant
            i <= height <= 63,
            tree_info@.len() == i,
        decreases height - i,
    {
        tree_info.push(TreeInfo { top_tree_size: 0, bottom_tree_size: 0, top_tree_root_depth: 0 });
        i = i + 1;
    }
    if height == 0 {
        return tree_info;
    }
    tree_info[0] = TreeInfo {
        top_tree_size: 0,
        bottom_tree_size: low_mask_u64(height),
        top_tree_root_depth: 0,
    };
    if height >= 2 {
        fill_levels(height, 0, &mut tree_info);
    }
    tree_info
}


/// Position, in the layout of height `height`, of the node at depth `depth`
/// whose path from the root is `q`; equivalently of the node whose
/// breadth-first number (root 1, children `2i` and `2i + 1`) is `2^depth + q`.
pub open spec fn node_pos(height: nat, depth: nat, q: nat) -> nat {
    vpos(height, depth, q)
}

/// The entries of `ancestors` below `depth` hold the positions of the
/// ancestors of the node at depth `depth` with path `q`, and entry 0 holds the
/// root's position.
pub open spec fn ancestors_ok(anc: Seq<usize>, height: nat, depth: nat, q: nat) -> bool {
    &&& anc.len() == 64
    &&& (depth == 0 ==> anc[0] == 0)
    &&& forall|k: int|
        0 <= k < depth ==> #[trigger] anc[k] == vpos(height, k as nat, q / pow2((depth - k) as nat))
}

/// A power of two below `2^height <= usize::MAX + 1` has an exponent below
/// `usize::BITS`.
pub proof fn lemma_pow2_below_usize(t: nat, height: nat)
    requires
        t < height,
        pow2(height) - 1 <= usize::MAX,
    ensures
        t < usize::BITS,
        pow2(t) <= usize::MAX,
{
    lemma2_to64();
    lemma2_to64_rest();
    lemma_pow2_strictly_increases(t, height);
    if t >= usize::BITS {
        if t > usize::BITS {
            lemma_pow2_strictly_increases(usize::BITS as nat, t);
        }
        assert(false);
    }
}

/// Heights below `usize::BITS` leave room for every breadth-first number of
/// the tree and of its children.
pub proof fn lemma_height_fits(h: nat)
    requires
        h < usize::BITS,
    ensures
        pow2(h + 1) - 1 <= usize::MAX,
        pow2(h) - 1 <= usize::MAX,
{
    lemma2_to64();
    lemma2_to64_rest();
    if h + 1 < usize::BITS {
        lemma_pow2_strictly_increases(h + 1, usize::BITS as nat);
    }
    lemma_pow2_strictly_increases(h, h + 1);
}

/// What `veb_index` computes from a table row and the ancestors' positions.
pub open spec fn index_formula(bfs_pos: usize, anc: Seq<usize>, info: TreeInfo) -> int {
    anc[info.top_tree_root_depth as int] + (info.top_tree_size as usize) + (bfs_pos & (
    info.top_tree_size as usize)) * (info.bottom_tree_size as usize)
}

/// With a valid table and the ancestors' positions at hand, the formula gives
/// the node's position in the layout.
pub proof fn lemma_index_formula(table: Seq<TreeInfo>, height: nat, depth: nat, q: nat, bfs_pos: usize, anc: Seq<usize>)
    requires
        table_valid(table, height),
        depth < height <= 63,
        pow2(height) - 1 <= usize::MAX,
        q < pow2(depth),
        bfs_pos == pow2(depth) + q,
        ancestors_ok(anc, height, depth, q),
    ensures
        table[depth as int].top_tree_root_depth < 64,
        depth > 0 ==> table[depth as int].top_tree_root_depth < depth,
        index_formula(bfs_pos, anc, table[depth as int]) == vpos(height, depth, q),
        vpos(height, depth, q) < pow2(height) - 1,
{
    lemma_vpos_bound(height, depth, q);
    let info = table[depth as int];
    if depth == 0 {
        lemma_vpos_root(height, q);
        assert(bfs_pos & (0 as usize) == 0) by (bit_vector);
    } else {
        lemma_table_formula(height, depth, q);
        let (tt, bb, dd) = table_entry(height, depth);
        let t = (depth - dd) as nat;
        lemma_pow2_below_usize(t, height);
        lemma_usize_low_bits_mask_is_mod(bfs_pos, t);
        lemma_pow2_adds(t, dd);
        lemma_pow2_pos(t);
        lemma_pow2_pos(dd);
        lemma_mod_multiples_vanish(pow2(dd) as int, q as int, pow2(t) as int);
        assert(pow2(depth) == pow2(t) * pow2(dd));
        assert(bfs_pos & (info.top_tree_size as usize) == q % pow2(t));
    }
}

/// Position of the node with breadth-first number `bfs_pos` at depth `depth`,
/// from the lookup table and the positions of its ancestors
/// (`Pos[d] = Pos[D[d]] + T[d] + (i & T[d]) * B[d]`).
pub fn veb_index(bfs_pos: usize, ancestors: &mut [usize; 64], depth: u32, table: &[TreeInfo]) -> (pos: usize)
    requires
        depth < table@.len(),
        table@[depth as int].top_tree_root_depth < 64,
        0 <= index_formula(bfs_pos, old(ancestors)@, table@[depth as int]) <= usize::MAX,
    ensures
        *final(ancestors) == *old(ancestors),
        pos == index_formula(bfs_pos, old(ancestors)@, table@[depth as int]),
{
    let elem = &table[depth as usize];
    let t = elem.top_tree_size as usize;
    let a = ancestors[elem.top_tree_root_depth as usize];
    let m = bfs_pos & t;
    proof {
        assert(a == old(ancestors)@[elem.top_tree_root_depth as int]);
    }
    a + t + m * (elem.bottom_tree_size as usize)
}


/// The keys `[lo, lo + len)` of the balanced search tree over `n` sorted keys
/// that lie below the node at depth `d` with path `q` (bit `d - 1` of `q` is
/// the first turn, 1 meaning right). That node holds key `lo + len / 2`; an
/// empty range means that there is no such node.
pub open spec fn seg(n: nat, d: nat, q: nat) -> (int, int)
    decreases d,
{
    if d == 0 {
        (0, n as int)
    } else {
        let p = seg(n, (d - 1) as nat, q / 2);
        if p.1 <= 0 {
            (p.0, 0)
        } else if q % 2 == 0 {
            (p.0, p.1 / 2)
        } else {
            (p.0 + p.1 / 2 + 1, p.1 - p.1 / 2 - 1)
        }
    }
}

/// The balanced search tree over `n` keys has a node at depth `d`, path `q`.
pub open spec fn node_exists(n: nat, d: nat, q: nat) -> bool {
    q < pow2(d) && seg(n, d, q).1 > 0
}

/// Index, among the keys, of the key held by the node at depth `d`, path `q`.
pub open spec fn node_index(n: nat, d: nat, q: nat) -> int {
    seg(n, d, q).0 + seg(n, d, q).1 / 2
}

/// The node at depth `d2`, path `q2`, lies in the subtree of the node at
/// depth `d`, path `q` (or is that node).
pub open spec fn in_subtree(d: nat, q: nat, d2: nat, q2: nat) -> bool {
    d <= d2 && q2 / pow2((d2 - d) as nat) == q
}

/// The slots that the nodes of a subtree occupy in the layout.
pub open spec fn subtree_positions(height: nat, n: nat, d: nat, q: nat) -> Set<int> {
    Set::new(
        |i: int|
            exists|d2: nat, q2: nat|
                #![trigger vpos(height, d2, q2)]
                in_subtree(d, q, d2, q2) && node_exists(n, d2, q2) && i == vpos(height, d2, q2),
    )
}

/// The keys of the subtree at depth `d`, path `q`, are a stretch of the
/// `n` keys.
pub proof fn lemma_seg_bounds(n: nat, d: nat, q: nat)
    ensures
        0 <= seg(n, d, q).0,
        0 <= seg(n, d, q).1,
        seg(n, d, q).0 + seg(n, d, q).1 <= n,
    decreases d,
{
    if d > 0 {
        lemma_seg_bounds(n, (d - 1) as nat, q / 2);
    }
}

/// A subtree at depth `d` of a tree of height `height` holds fewer than
/// `2^(height - d)` keys; in particular no node lies at depth `height` or below.
pub proof fn lemma_seg_height(n: nat, height: nat, d: nat, q: nat)
    requires
        n < pow2(height),
    ensures
        d <= height ==> seg(n, d, q).1 < pow2((height - d) as nat),
        d >= height ==> seg(n, d, q).1 <= 0,
    decreases d,
{
    lemma_pow2_small();
    if d > 0 {
        lemma_seg_height(n, height, (d - 1) as nat, q / 2);
        if d <= height {
            lemma_pow2_unfold((height - d + 1) as nat);
        }
    }
}

/// Every node of a tree of `n < 2^height` keys lies above depth `height`.
pub proof fn lemma_exists_depth(n: nat, height: nat, d: nat, q: nat)
    requires
        n < pow2(height),
        node_exists(n, d, q),
    ensures
        d < height,
{
    lemma_seg_height(n, height, d, q);
}

/// Every node is in its own subtree.
pub proof fn lemma_in_subtree_self(d: nat, q: nat)
    ensures
        in_subtree(d, q, d, q),
{
    lemma_pow2_small();
    lemma_div_basics(q as int);
}

/// A node in a child's subtree is in the parent's subtree.
pub proof fn lemma_in_subtree_parent(d: nat, q: nat, c: nat, d2: nat, q2: nat)
    requires
        c < 2,
        in_subtree(d + 1, 2 * q + c, d2, q2),
    ensures
        in_subtree(d, q, d2, q2),
{
    let k = (d2 - d - 1) as nat;
    lemma_pow2_unfold(k + 1);
    lemma_pow2_pos(k);
    lemma_div_denominator(q2 as int, pow2(k) as int, 2);
}

/// A proper descendant lies in the subtree of exactly one child.
pub proof fn lemma_in_subtree_child(d: nat, q: nat, d2: nat, q2: nat)
    requires
        in_subtree(d, q, d2, q2),
        d < d2,
    ensures
        in_subtree(d + 1, 2 * q + (q2 / pow2((d2 - d - 1) as nat)) % 2, d2, q2),
        forall|c2: nat|
            c2 < 2 && #[trigger] in_subtree(d + 1, 2 * q + c2, d2, q2) ==> c2 == (q2 / pow2(
                (d2 - d - 1) as nat,
            )) % 2,
{
    let k = (d2 - d - 1) as nat;
    lemma_pow2_unfold(k + 1);
    lemma_pow2_pos(k);
    lemma_div_denominator(q2 as int, pow2(k) as int, 2);
    let x = q2 / pow2(k);
    lemma_fundamental_div_mod(x as int, 2);
}

/// A child's path fits its depth.
pub proof fn lemma_child_path_bound(d: nat, q: nat, c: nat)
    requires
        q < pow2(d),
        c < 2,
    ensures
        2 * q + c < pow2(d + 1),
{
    lemma_pow2_unfold(d + 1);
}

/// Ancestors of a child: the ancestors of the parent, then the parent.
pub proof fn lemma_ancestors_child(anc: Seq<usize>, height: nat, depth: nat, q: nat, c: nat, pos: usize)
    requires
        c < 2,
        ancestors_ok(anc, height, depth, q),
        pos == vpos(height, depth, q),
        depth > 0 || pos == 0,
    ensures
        ancestors_ok(anc.update(depth as int, pos), height, depth + 1, 2 * q + c) || depth >= 64,
{
    if depth < 64 {
        let a2 = anc.update(depth as int, pos);
        assert forall|k: int| 0 <= k < depth + 1 implies #[trigger] a2[k] == vpos(
            height,
            k as nat,
            (2 * q + c) / pow2((depth + 1 - k) as nat),
        ) by {
            let m = (depth - k) as nat;
            lemma_pow2_unfold(m + 1);
            lemma_pow2_pos(m);
            lemma_div_denominator((2 * q + c) as int, 2, pow2(m) as int);
            assert(pow2(m + 1) == 2 * pow2(m));
            assert((2 * q + c) / 2 == q);
            if k == depth {
                lemma_pow2_small();
            }
        }
    }
}


/// Every node of the subtree has a free slot in `out`.
pub open spec fn subtree_free(height: nat, n: nat, depth: nat, q: nat, out: Seq<Option<u64>>) -> bool {
    forall|d2: nat, q2: nat|
        #![trigger node_exists(n, d2, q2)]
        in_subtree(depth, q, d2, q2) && node_exists(n, d2, q2) ==> vpos(height, d2, q2) < out.len()
            && out[vpos(height, d2, q2) as int] is None
}

/// Every node of the subtree holds its key at its slot in `out`.
pub open spec fn subtree_filled(height: nat, keys: Seq<u64>, depth: nat, q: nat, out: Seq<Option<u64>>) -> bool {
    forall|d2: nat, q2: nat|
        #![trigger node_exists(keys.len(), d2, q2)]
        in_subtree(depth, q, d2, q2) && node_exists(keys.len(), d2, q2) ==> vpos(height, d2, q2)
            < out.len() && out[vpos(height, d2, q2) as int] == Some(
            keys[node_index(keys.len(), d2, q2)],
        )
}

/// `new` differs from `old` only at the slots of the subtree.
pub open spec fn unchanged_outside(height: nat, n: nat, depth: nat, q: nat, old: Seq<Option<u64>>, new: Seq<Option<u64>>) -> bool {
    &&& new.len() == old.len()
    &&& forall|i: int|
        0 <= i < old.len() && !subtree_positions(height, n, depth, q).contains(i) ==> #[trigger] new[i]
            == old[i]
}

/// Below an empty subtree there are no nodes.
proof fn lemma_empty_subtree(n: nat, d: nat, q: nat, d2: nat, q2: nat)
    requires
        seg(n, d, q).1 <= 0,
        in_subtree(d, q, d2, q2),
    ensures
        seg(n, d2, q2).1 <= 0,
    decreases d2 - d,
{
    if d2 == d {
        lemma_pow2_small();
        lemma_div_basics(q2 as int);
    } else {
        lemma_in_subtree_child(d, q, d2, q2);
        let c = (q2 / pow2((d2 - d - 1) as nat)) % 2;
        assert(seg(n, d + 1, 2 * q + c).1 <= 0);
        lemma_empty_subtree(n, d + 1, 2 * q + c, d2, q2);
    }
}

/// The slots of a child's subtree are slots of the parent's subtree.
proof fn lemma_positions_child(height: nat, n: nat, d: nat, q: nat, c: nat, i: int)
    requires
        c < 2,
        subtree_positions(height, n, d + 1, 2 * q + c).contains(i),
    ensures
        subtree_positions(height, n, d, q).contains(i),
{
    let (d2, q2) = choose|d2: nat, q2: nat|
        #![trigger vpos(height, d2, q2)]
        in_subtree(d + 1, 2 * q + c, d2, q2) && node_exists(n, d2, q2) && i == vpos(height, d2, q2);
    lemma_in_subtree_parent(d, q, c, d2, q2);
}

/// A node outside a subtree does not share a slot with it.
proof fn lemma_positions_exclude(height: nat, n: nat, d: nat, q: nat, d2: nat, q2: nat)
    requires
        n < pow2(height),
        node_exists(n, d2, q2),
        !in_subtree(d, q, d2, q2),
    ensures
        !subtree_positions(height, n, d, q).contains(vpos(height, d2, q2) as int),
{
    if subtree_positions(height, n, d, q).contains(vpos(height, d2, q2) as int) {
        let (d3, q3) = choose|d3: nat, q3: nat|
            #![trigger vpos(height, d3, q3)]
            in_subtree(d, q, d3, q3) && node_exists(n, d3, q3) && vpos(height, d2, q2) == vpos(
                height,
                d3,
                q3,
            );
        lemma_exists_depth(n, height, d2, q2);
        lemma_exists_depth(n, height, d3, q3);
        lemma_vpos_injective(height, d2, q2, d3, q3);
    }
}

/// Places the keys `elements[lo .. lo + len)` as the subtree of the node at
/// depth `depth` with breadth-first number `bfs_pos = 2^depth + q`.
fn layout(
    table: &[TreeInfo],
    elements: &[u64],
    lo: usize,
    len: usize,
    depth: u32,
    bfs_pos: usize,
    ancestors: &mut [usize; 64],
    out: &mut [Option<u64>],
    Ghost(q): Ghost<nat>,
)
    requires
        table_valid(table@, table@.len()),
        1 <= table@.len() <= 63,
        table@.len() < usize::BITS,
        elements@.len() < pow2(table@.len()),
        depth <= table@.len(),
        q < pow2(depth as nat),
        bfs_pos == pow2(depth as nat) + q,
        seg(elements@.len(), depth as nat, q) == (lo as int, len as int),
        ancestors_ok(old(ancestors)@, table@.len(), depth as nat, q),
        subtree_free(table@.len(), elements@.len(), depth as nat, q, old(out)@),
    ensures
        forall|k: int| 0 <= k < depth ==> #[trigger] final(ancestors)@[k] == old(ancestors)@[k],
        subtree_filled(table@.len(), elements@, depth as nat, q, final(out)@),
        unchanged_outside(table@.len(), elements@.len(), depth as nat, q, old(out)@, final(out)@),
    decreases len,
{
    let ghost hh = table@.len();
    let ghost n = elements@.len();
    if len == 0 {
        proof {
            assert forall|d2: nat, q2: nat|
                #![trigger node_exists(n, d2, q2)]
                in_subtree(depth as nat, q, d2, q2) implies !node_exists(n, d2, q2) by {
                lemma_empty_subtree(n, depth as nat, q, d2, q2);
            }
            assert forall|i: int|
                0 <= i < old(out)@.len() && !subtree_positions(hh, n, depth as nat, q).contains(
                    i,
                ) implies #[trigger] out@[i] == old(out)@[i] by {}
        }
        return;
    }
    proof {
        assert(node_exists(n, depth as nat, q));
        lemma_exists_depth(n, hh, depth as nat, q);
        lemma_height_fits(hh);
        lemma_pow2_unfold(depth as nat + 1);
        lemma_pow2_unfold(depth as nat + 2);
        if depth + 1 < hh {
            lemma_pow2_strictly_increases(depth as nat + 1, hh);
        }
        if depth + 2 < hh + 1 {
            lemma_pow2_strictly_increases(depth as nat + 2, hh + 1);
        }
        assert(2 * bfs_pos + 1 <= usize::MAX);
        lemma_index_formula(table@, hh, depth as nat, q, bfs_pos, ancestors@);
        lemma_vpos_root(hh, q);
        lemma_in_subtree_self(depth as nat, q);
        lemma_seg_bounds(n, depth as nat, q);
    }
    let pos = veb_index(bfs_pos, ancestors, depth, table);
    let ghost anc0 = ancestors@;
    ancestors[depth as usize] = pos;
    let root = len / 2;
    out[pos] = Some(elements[lo + root]);
    let ghost out1 = out@;
    proof {
        lemma_ancestors_child(anc0, hh, depth as nat, q, 0, pos);
        lemma_ancestors_child(anc0, hh, depth as nat, q, 1, pos);
        lemma_child_path_bound(depth as nat, q, 0);
        lemma_child_path_bound(depth as nat, q, 1);
        lemma_pow2_unfold(depth as nat + 1);
        assert(ancestors@ == anc0.update(depth as int, pos));
        assert forall|d2: nat, q2: nat|
            #![trigger node_exists(n, d2, q2)]
            in_subtree(depth as nat + 1, 2 * q, d2, q2) && node_exists(n, d2, q2) implies vpos(
                hh,
                d2,
                q2,
            ) < out1.len() && out1[vpos(hh, d2, q2) as int] is None by {
            lemma_in_subtree_parent(depth as nat, q, 0, d2, q2);
            lemma_exists_depth(n, hh, d2, q2);
            if vpos(hh, d2, q2) == pos {
                lemma_vpos_injective(hh, d2, q2, depth as nat, q);
            }
        }
    }
    layout(table, elements, lo, root, depth + 1, 2 * bfs_pos, ancestors, out, Ghost(2 * q));
    let ghost out2 = out@;
    proof {
        assert forall|d2: nat, q2: nat|
            #![trigger node_exists(n, d2, q2)]
            in_subtree(depth as nat + 1, 2 * q + 1, d2, q2) && node_exists(n, d2, q2) implies vpos(
                hh,
                d2,
                q2,
            ) < out2.len() && out2[vpos(hh, d2, q2) as int] is None by {
            lemma_in_subtree_parent(depth as nat, q, 1, d2, q2);
            lemma_exists_depth(n, hh, d2, q2);
            if vpos(hh, d2, q2) == pos {
                lemma_vpos_injective(hh, d2, q2, depth as nat, q);
            }
            lemma_in_subtree_child(depth as nat, q, d2, q2);
            lemma_positions_exclude(hh, n, depth as nat + 1, 2 * q, d2, q2);
        }
    }
    if root + 1 < len {
        layout(
            table,
            elements,
            lo + root + 1,
            len - root - 1,
            depth + 1,
            2 * bfs_pos + 1,
            ancestors,
            out,
            Ghost(2 * q + 1),
        );
    } else {
        proof {
            assert(seg(n, depth as nat + 1, 2 * q + 1).1 <= 0);
            assert forall|d2: nat, q2: nat|
                #![trigger node_exists(n, d2, q2)]
                in_subtree(depth as nat + 1, 2 * q + 1, d2, q2) implies !node_exists(n, d2, q2) by {
                lemma_empty_subtree(n, depth as nat + 1, 2 * q + 1, d2, q2);
            }
            assert forall|i: int|
                0 <= i < out2.len() && !subtree_positions(hh, n, depth as nat + 1, 2 * q + 1).contains(
                    i,
                ) implies #[trigger] out@[i] == out2[i] by {}
        }
    }
    proof {
        let out3 = out@;
        assert forall|d2: nat, q2: nat|
            #![trigger node_exists(n, d2, q2)]
            in_subtree(depth as nat, q, d2, q2) && node_exists(n, d2, q2) implies vpos(hh, d2, q2)
            < out3.len() && out3[vpos(hh, d2, q2) as int] == Some(
            elements@[node_index(n, d2, q2)],
        ) by {
            lemma_exists_depth(n, hh, d2, q2);
            if d2 == depth {
                lemma_div_basics(q2 as int);
                lemma_pow2_small();
                assert(q2 == q);
                lemma_in_subtree_self(depth as nat, q);
                if in_subtree(depth as nat + 1, 2 * q, d2, q2) {
                }
                lemma_positions_exclude(hh, n, depth as nat + 1, 2 * q, d2, q2);
                lemma_positions_exclude(hh, n, depth as nat + 1, 2 * q + 1, d2, q2);
            } else {
                lemma_in_subtree_child(depth as nat, q, d2, q2);
                let c = (q2 / pow2((d2 - depth - 1) as nat)) % 2;
                if c == 0 {
                    lemma_positions_exclude(hh, n, depth as nat + 1, 2 * q + 1, d2, q2);
                }
            }
        }
        assert forall|i: int|
            0 <= i < old(out)@.len() && !subtree_positions(hh, n, depth as nat, q).contains(
                i,
            ) implies #[trigger] out3[i] == old(out)@[i] by {
            if subtree_positions(hh, n, depth as nat + 1, 2 * q).contains(i) {
                lemma_positions_child(hh, n, depth as nat, q, 0, i);
            }
            if subtree_positions(hh, n, depth as nat + 1, 2 * q + 1).contains(i) {
                lemma_positions_child(hh, n, depth as nat, q, 1, i);
            }
            if i == pos {
                assert(subtree_positions(hh, n, depth as nat, q).contains(i)) by {
                    lemma_in_subtree_self(depth as nat, q);
                }
            }
        }
    }
}


/// Machine limits on the number of keys (or slots) of a layout: the table has
/// rows for heights below 64 and every breadth-first number fits a `usize`.
pub open spec fn layout_fits(n: nat) -> bool {
    &&& n < 0x8000_0000_0000_0000
    &&& tree_height(n) < usize::BITS
}

/// For two keys or more the tree has height at least 2, and `n < 2^height`.
pub proof fn lemma_tree_height(n: nat)
    ensures
        n != 1 ==> n < pow2(tree_height(n)),
        n >= 2 ==> tree_height(n) >= 2,
        n >= 1 ==> pow2(tree_height(n)) <= 2 * n + 1,
{
    lemma_pow2_small();
    if n % 2 == 0 {
        lemma_ceil_log2(n + 1);
    } else {
        lemma_ceil_log2(n);
        if pow2(ceil_log2(n)) == n && n > 1 {
            lemma_pow2_unfold(ceil_log2(n));
            assert(n % 2 == 0);
        }
    }
    let h = tree_height(n);
    if n >= 2 && h < 2 {
        if h == 1 {
            assert(pow2(1) == 2);
        }
    }
    if h > 0 {
        lemma_pow2_unfold(h);
    }
}

/// An all-empty output of `2^height - 1` slots or more has room for the tree.
pub proof fn lemma_all_free(height: nat, n: nat, out: Seq<Option<u64>>)
    requires
        n < pow2(height),
        out.len() >= pow2(height) - 1,
        forall|i: int| 0 <= i < out.len() ==> out[i] is None,
    ensures
        subtree_free(height, n, 0, 0, out),
{
    assert forall|d2: nat, q2: nat|
        #![trigger node_exists(n, d2, q2)]
        in_subtree(0, 0, d2, q2) && node_exists(n, d2, q2) implies vpos(height, d2, q2) < out.len()
        && out[vpos(height, d2, q2) as int] is None by {
        lemma_exists_depth(n, height, d2, q2);
        lemma_vpos_bound(height, d2, q2);
    }
}

/// Lays `elements` (sorted) out into `out` as a search tree in the van Emde
/// Boas layout: the node at depth `d` with path `q` of the balanced search
/// tree over the keys goes to slot `vpos(tree_height(n), d, q)`.
pub fn make_veb_in(elements: &[u64], out: &mut [Option<u64>])
    requires
        layout_fits(elements@.len()),
        elements@.len() == 1 ==> old(out)@.len() >= 1,
        elements@.len() >= 2 ==> subtree_free(
            tree_height(elements@.len()),
            elements@.len(),
            0,
            0,
            old(out)@,
        ),
    ensures
        elements@.len() == 0 ==> final(out)@ == old(out)@,
        elements@.len() == 1 ==> final(out)@ == old(out)@.update(0, Some(elements@[0])),
        elements@.len() >= 2 ==> subtree_filled(
            tree_height(elements@.len()),
            elements@,
            0,
            0,
            final(out)@,
        ),
        elements@.len() >= 2 ==> unchanged_outside(
            tree_height(elements@.len()),
            elements@.len(),
            0,
            0,
            old(out)@,
            final(out)@,
        ),
{
    let num_elements = elements.len();
    if num_elements == 0 {
        return;
    }
    if num_elements == 1 {
        out[0] = Some(elements[0]);
        return;
    }
    let height = fitting_height(num_elements);
    proof {
        lemma_tree_height(num_elements as nat);
        lemma_pow2_small();
    }
    let table = tree_info_table(height);
    let mut ancestors = [0usize; 64];
    proof {
        assert(ancestors_ok(ancestors@, height as nat, 0, 0));
    }
    layout(table.as_slice(), elements, 0, num_elements, 0, 1, &mut ancestors, out, Ghost(0));
}

/// `make_veb_in` into an output whose first `2^h - 1` slots are empty
/// (`h = tree_height(n)`, two keys or more) puts into those slots exactly
/// what `make_veb` returns for the same keys, and leaves the slots after
/// them as they were. `out0` and `out1` are the output before and after
/// `make_veb_in`, `v` what `make_veb` returns, each as their contracts say.
pub proof fn lemma_in_place_matches_new(
    keys: Seq<u64>,
    out0: Seq<Option<u64>>,
    out1: Seq<Option<u64>>,
    v: Seq<Option<u64>>,
)
    requires
        keys.len() >= 2,
        layout_fits(keys.len()),
        out0.len() >= pow2(tree_height(keys.len())) - 1,
        forall|i: int| 0 <= i < pow2(tree_height(keys.len())) - 1 ==> #[trigger] out0[i] is None,
        subtree_filled(tree_height(keys.len()), keys, 0, 0, out1),
        unchanged_outside(tree_height(keys.len()), keys.len(), 0, 0, out0, out1),
        v.len() == pow2(tree_height(keys.len())) - 1,
        subtree_filled(tree_height(keys.len()), keys, 0, 0, v),
        forall|i: int|
            0 <= i < v.len() && !subtree_positions(tree_height(keys.len()), keys.len(), 0, 0).contains(i)
                ==> #[trigger] v[i] is None,
    ensures
        out1.subrange(0, pow2(tree_height(keys.len())) - 1) == v,
        out1.subrange(pow2(tree_height(keys.len())) - 1, out1.len() as int) == out0.subrange(
            pow2(tree_height(keys.len())) - 1,
            out0.len() as int,
        ),
{
    let n = keys.len();
    let h = tree_height(n);
    let cap = pow2(h) - 1;
    let pos = subtree_positions(h, n, 0, 0);
    lemma_tree_height(n);
    assert forall|i: int| 0 <= i < out1.len() && #[trigger] pos.contains(i) implies i < cap
        && out1[i] == v[i] by {
        let (d2, q2) = choose|d2: nat, q2: nat|
            #![trigger vpos(h, d2, q2)]
            in_subtree(0, 0, d2, q2) && node_exists(n, d2, q2) && i == vpos(h, d2, q2);
        lemma_exists_depth(n, h, d2, q2);
        lemma_vpos_bound(h, d2, q2);
    }
    assert(out1.subrange(0, cap) =~= v) by {
        assert forall|i: int| 0 <= i < cap implies #[trigger] out1.subrange(0, cap)[i] == v[i] by {
            if !pos.contains(i) {
                assert(out1[i] == out0[i]);
            }
        }
    }
    assert(out1.subrange(cap, out1.len() as int) =~= out0.subrange(cap, out0.len() as int)) by {
        assert forall|i: int| 0 <= i < out1.len() - cap implies #[trigger] out1.subrange(
            cap,
            out1.len() as int,
        )[i] == out0.subrange(cap, out0.len() as int)[i] by {
            let j = i + cap;
            if pos.contains(j) {
                assert(j < cap);
            }
            assert(out1[j] == out0[j]);
        }
    }
}

/// The keys of `elements` (sorted) in the van Emde Boas layout, in a vector of
/// `2^h - 1` slots (`h = tree_height(n)`; one slot for a single key, none for
/// none), the slots that no node takes left empty.
pub fn make_veb(elements: Vec<u64>) -> (out: Vec<Option<u64>>)
    requires
        layout_fits(elements@.len()),
    ensures
        elements@.len() == 0 ==> out@.len() == 0,
        elements@.len() == 1 ==> out@ == seq![Some(elements@[0])],
        elements@.len() >= 2 ==> out@.len() == pow2(tree_height(elements@.len())) - 1,
        elements@.len() >= 2 ==> subtree_filled(
            tree_height(elements@.len()),
            elements@,
            0,
            0,
            out@,
        ),
        elements@.len() >= 2 ==> forall|i: int|
            0 <= i < out@.len() && !subtree_positions(
                tree_height(elements@.len()),
                elements@.len(),
                0,
                0,
            ).contains(i) ==> #[trigger] out@[i] is None,
{
    let num_elements = elements.len();
    let mut output: Vec<Option<u64>> = Vec::new();
    if num_elements == 0 {
        return output;
    }
    if num_elements == 1 {
        output.push(Some(elements[0]));
        return output;
    }
    let height = fitting_height(num_elements);
    proof {
        lemma_tree_height(num_elements as nat);
        lemma_height_fits(height as nat);
        lemma_usize_pow2_no_overflow(height as nat);
        lemma_usize_shl_is_mul(1, height as usize);
    }
    let size = (1usize << height) - 1;
    let mut i: usize = 0;
    while i < size
        invariant
            i <= size,
            output@.len() == i,
            forall|j: int| 0 <= j < i ==> output@[j] is None,
        decreases size - i,
    {
        output.push(None);
        i = i + 1;
    }
    proof {
        lemma_all_free(height as nat, num_elements as nat, output@);
    }
    make_veb_in(elements.as_slice(), output.as_mut_slice());
    output
}


/// What a search for `v` finds from the node at depth `d`, path `q`, of the
/// slots `tree` laid out with height `h`: the slot that holds `v` on the path
/// that comparisons choose, or nothing when the path leaves the slots or
/// meets an empty one.
pub open spec fn search_from(tree: Seq<Option<u64>>, h: nat, v: u64, d: nat, q: nat) -> Option<nat>
    decreases h - d,
{
    let pos = vpos(h, d, q);
    if pos >= tree.len() {
        None
    } else {
        match tree[pos as int] {
            None => None,
            Some(p) => if v == p {
                Some(pos)
            } else if d + 1 >= h {
                None
            } else if v < p {
                search_from(tree, h, v, d + 1, 2 * q)
            } else {
                search_from(tree, h, v, d + 1, 2 * q + 1)
            },
        }
    }
}

/// The search path ends (found, empty slot, or past the slots) before it
/// would step below the last depth of the table.
pub open spec fn search_safe(tree: Seq<Option<u64>>, h: nat, v: u64, d: nat, q: nat) -> bool
    decreases h - d,
{
    let pos = vpos(h, d, q);
    if pos >= tree.len() {
        true
    } else {
        match tree[pos as int] {
            None => true,
            Some(p) => v == p || (d + 1 < h && if v < p {
                search_safe(tree, h, v, d + 1, 2 * q)
            } else {
                search_safe(tree, h, v, d + 1, 2 * q + 1)
            }),
        }
    }
}

/// Searches the slots `veb_tree`, laid out by `make_veb`, for `value`;
/// returns the slot that holds it.
pub fn search(veb_tree: &[Option<u64>], value: &u64) -> (found: Option<usize>)
    requires
        veb_tree@.len() > 0 ==> layout_fits(veb_tree@.len()),
        veb_tree@.len() > 0 ==> search_safe(veb_tree@, tree_height(veb_tree@.len()), *value, 0, 0),
    ensures
        veb_tree@.len() == 0 ==> found is None,
        veb_tree@.len() > 0 ==> match found {
            Some(i) => search_from(veb_tree@, tree_height(veb_tree@.len()), *value, 0, 0) == Some(
                i as nat,
            ),
            None => search_from(veb_tree@, tree_height(veb_tree@.len()), *value, 0, 0) is None,
        },
{
    let num_elements = veb_tree.len();
    if num_elements == 0 {
        return None;
    }
    let height = fitting_height(num_elements);
    let ghost hh = height as nat;
    let mut ancestors = [0usize; 64];
    let table = tree_info_table(height);
    let mut pos: usize = 0;
    let mut bfs_pos: usize = 1;
    let mut depth: u32 = 0;
    let ghost mut q: nat = 0;
    proof {
        lemma_pow2_small();
        lemma_vpos_root(hh, 0);
        lemma_height_fits(hh);
    }
    while pos < num_elements
        invariant
            num_elements == veb_tree@.len(),
            hh == height,
            hh == tree_height(num_elements as nat),
            height < usize::BITS,
            table_valid(table@, hh),
            height <= 63,
            depth < 64,
            depth == 0 || depth < hh,
            q < pow2(depth as nat),
            bfs_pos == pow2(depth as nat) + q,
            pos == vpos(hh, depth as nat, q),
            ancestors_ok(ancestors@, hh, depth as nat, q),
            ancestors@[depth as int] == pos,
            search_from(veb_tree@, hh, *value, 0, 0) == search_from(veb_tree@, hh, *value, depth as nat, q),
            search_safe(veb_tree@, hh, *value, depth as nat, q),
        decreases hh - depth,
    {
        let pivot = match veb_tree[pos] {
            None => {
                return None;
            },
            Some(p) => p,
        };
        if *value == pivot {
            return Some(pos);
        }
        let c: usize = if *value < pivot { 0 } else { 1 };
        proof {
            lemma_height_fits(hh);
            lemma_pow2_unfold(depth as nat + 1);
            lemma_pow2_unfold(depth as nat + 2);
            if depth + 2 < hh + 1 {
                lemma_pow2_strictly_increases(depth as nat + 2, hh + 1);
            }
            lemma_ancestors_child(ancestors@, hh, depth as nat, q, c as nat, pos);
            assert(ancestors@.update(depth as int, pos) == ancestors@);
            lemma_child_path_bound(depth as nat, q, c as nat);
            lemma_index_formula(
                table@,
                hh,
                depth as nat + 1,
                (2 * q + c) as nat,
                (2 * bfs_pos + c) as usize,
                ancestors@,
            );
        }
        bfs_pos = 2 * bfs_pos + c;
        depth = depth + 1;
        proof {
            q = (2 * q + c) as nat;
        }
        pos = veb_index(bfs_pos, &mut ancestors, depth, table.as_slice());
        ancestors[depth as usize] = pos;
        proof {
            assert forall|k: int| 0 <= k < depth implies #[trigger] ancestors@[k] == vpos(
                hh,
                k as nat,
                q / pow2((depth - k) as nat),
            ) by {}
        }
    }
    None
}


/// The keys are strictly increasing.
pub open spec fn strictly_increasing(keys: Seq<u64>) -> bool {
    forall|a: int, b: int| 0 <= a < b < keys.len() ==> keys[a] < keys[b]
}

/// From a node whose keys include key `i`, the search for that key follows
/// the tree down to the node that holds it.
proof fn lemma_search_path(keys: Seq<u64>, tree: Seq<Option<u64>>, h: nat, i: int, d: nat, q: nat)
    requires
        strictly_increasing(keys),
        keys.len() < pow2(h),
        subtree_filled(h, keys, 0, 0, tree),
        q < pow2(d),
        seg(keys.len(), d, q).0 <= i < seg(keys.len(), d, q).0 + seg(keys.len(), d, q).1,
    ensures
        search_safe(tree, h, keys[i], d, q),
        search_from(tree, h, keys[i], d, q) matches Some(p) && p < tree.len() && tree[p as int]
            == Some(keys[i]),
    decreases h - d,
{
    let n = keys.len();
    assert(node_exists(n, d, q));
    lemma_exists_depth(n, h, d, q);
    lemma_pow2_pos(d);
    lemma_basic_div(q as int, pow2(d) as int);
    lemma_pow2_small();
    assert(in_subtree(0, 0, d, q));
    lemma_seg_bounds(n, d, q);
    let mid = node_index(n, d, q);
    let pos = vpos(h, d, q);
    assert(tree[pos as int] == Some(keys[mid]));
    if i != mid {
        let c: nat = if i < mid { 0 } else { 1 };
        lemma_child_path_bound(d, q, c);
        assert(node_exists(n, d + 1, 2 * q + c));
        lemma_exists_depth(n, h, d + 1, 2 * q + c);
        lemma_search_path(keys, tree, h, i, d + 1, 2 * q + c);
    }
}

/// Searching the van Emde Boas layout of strictly increasing keys, as
/// `make_veb` builds it, for any of the keys finds the slot that holds it.
pub proof fn lemma_search_finds_each_key(keys: Seq<u64>, tree: Seq<Option<u64>>, i: int)
    requires
        layout_fits(keys.len()),
        strictly_increasing(keys),
        0 <= i < keys.len(),
        keys.len() == 1 ==> tree == seq![Some(keys[0])],
        keys.len() >= 2 ==> tree.len() == pow2(tree_height(keys.len())) - 1,
        keys.len() >= 2 ==> subtree_filled(tree_height(keys.len()), keys, 0, 0, tree),
    ensures
        layout_fits(tree.len()),
        search_safe(tree, tree_height(tree.len()), keys[i], 0, 0),
        search_from(tree, tree_height(tree.len()), keys[i], 0, 0) matches Some(p) && p < tree.len()
            && tree[p as int] == Some(keys[i]),
{
    lemma_pow2_small();
    let n = keys.len();
    if n == 1 {
        lemma_vpos_root(tree_height(1), 0);
        assert(tree_height(1) == 0) by {
            lemma_ceil_log2_unique(1, 0);
        }
    } else {
        let h = tree_height(n);
        lemma_tree_height(n);
        let m = (pow2(h) - 1) as nat;
        lemma_pow2_unfold(h);
        lemma_pow2_unfold((h - 1) as nat);
        assert(pow2((h - 1) as nat) >= 2) by {
            if h - 1 > 1 {
                lemma_pow2_strictly_increases(1, (h - 1) as nat);
            }
        }
        assert(pow2(h) <= 0x8000_0000_0000_0000) by {
            lemma2_to64_rest();
            if h < 63 {
                lemma_pow2_strictly_increases(h, 63);
            }
        }
        assert(ceil_log2(m) == h) by {
            lemma_ceil_log2_unique(m, h);
        }
        assert(tree_height(m) == h);
        lemma_search_path(keys, tree, h, i, 0, 0);
    }
}

} // verus!
