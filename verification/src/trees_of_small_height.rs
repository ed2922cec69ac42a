//! Searches of a van Emde Boas tree of small height run against a simulated
//! cache hierarchy: the tree itself is not stored, only the addresses of the
//! nodes that a search visits are accessed.

use vstd::prelude::*;
use vstd::arithmetic::power2::*;
use rand_pcg::Mcg128Xsl64;
use crate::veb::{
    TreeInfo, table_valid, tree_height, layout_fits, fitting_height, tree_info_table,
    index_formula, ancestors_ok, lemma_index_formula, lemma_height_fits, lemma_ancestors_child,
    lemma_child_path_bound, strictly_increasing, in_subtree, lemma_in_subtree_self,
    lemma_in_subtree_parent, lemma_in_subtree_child,
};
use crate::veb_layout::{vpos, lemma_pow2_small, lemma_vpos_root, lemma_vpos_bound, lemma_vpos_injective};
use crate::hierarchy::{
    Hierarchy, HierarchyView, addr_step, hierarchy_idle, headroom, counted_within,
    lemma_counted_trans, lemma_headroom_after, lemma_room, lemma_counted_mono,
};
use crate::rng::next_u32;
use crate::simalloc::{Simalloc, touch_elem, touch_counted, elem_reads, lemma_elem_reads_push, lemma_elem_reads_concat, round16};
use crate::tree_shape::{
    Slots, key_at, present, key_of, count_of, inorder, keys, tree_ok, path_ok, inserted,
    ext_inorder, subtree_ok, same_slots_below, subtree_empty, lemma_path_membership,
    lemma_parent_path, lemma_child_path, lemma_slots_frame, lemma_subtree_ok_join,
    lemma_subtrees_apart, lemma_child_in_subtree, lemma_in_subtree_trans, lemma_siblings_apart,
    same_slots_outside, lemma_join_children, splice, lemma_splice_empty, lemma_splice_concat,
    lemma_splice_push, hangs_below, lemma_absent_subtree, lemma_subtree_ok_child,
    lemma_subtree_ok_hangs, lemma_bfs_eq, lemma_clear_children, lemma_right_untouched,
    lemma_ext_parts, lemma_ext_frame, anc, changed_below, lemma_rebuild, lemma_ext_on_path,
    lemma_path_at, lemma_ancestor_path, lemma_inorder_len, search_slots, search_stop, lemma_search_stop, path_pos,
};
use crate::veb::{ceil_log2, lemma_ceil_log2_unique, lemma_pow2_below_usize};
use vstd::arithmetic::div_mod::*;
use vstd::arithmetic::mul::*;

verus! {

/// Height of the lookup table used for `n` slots: that of the complete tree
/// around them, and 1 for a single slot.
pub open spec fn lookup_height(n: nat) -> nat {
    if n == 1 {
        1
    } else {
        tree_height(n)
    }
}

/// The lookup table for a tree of `num_elements` slots.
pub fn table(num_elements: usize) -> (t: Vec<TreeInfo>)
    requires
        num_elements < 0x8000_0000_0000_0000,
    ensures
        table_valid(t@, lookup_height(num_elements as nat)),
        lookup_height(num_elements as nat) <= 63,
{
    if num_elements == 1 {
        return tree_info_table(1);
    }
    let height = fitting_height(num_elements);
    tree_info_table(height)
}

/// Position of the node with breadth-first number `bfs_pos` at depth `depth`
/// (see `crate::veb::veb_index`), or `None` when the table has no row for
/// that depth.
pub fn veb_index(bfs_pos: usize, ancestors: &mut [usize; 64], depth: u32, table: &[TreeInfo]) -> (pos: Option<usize>)
    requires
        depth < table@.len() ==> table@[depth as int].top_tree_root_depth < 64 && 0 <= index_formula(
            bfs_pos,
            old(ancestors)@,
            table@[depth as int],
        ) <= usize::MAX,
    ensures
        *final(ancestors) == *old(ancestors),
        pos == if depth < table@.len() {
            Some(index_formula(bfs_pos, old(ancestors)@, table@[depth as int]) as usize)
        } else {
            None::<usize>
        },
{
    if depth as usize >= table.len() {
        return None;
    }
    Some(crate::veb::veb_index(bfs_pos, ancestors, depth, table))
}

/// The two `veb_index` functions agree: where the depth has a table entry,
/// this module's returns `Some` of what `veb::veb_index` returns for the same
/// arguments, and `None` where it has none. `p` and `r` are their results,
/// each as its contract says.
pub proof fn lemma_veb_index_agree(
    bfs_pos: usize,
    ancestors: Seq<usize>,
    depth: u32,
    table: Seq<TreeInfo>,
    p: usize,
    r: Option<usize>,
)
    requires
        depth < table.len() ==> p == index_formula(bfs_pos, ancestors, table[depth as int]),
        r == if depth < table.len() {
            Some(index_formula(bfs_pos, ancestors, table[depth as int]) as usize)
        } else {
            None::<usize>
        },
    ensures
        r == if depth < table.len() {
            Some(p)
        } else {
            None::<usize>
        },
{
}

/// What a simulated search finds at a node.
pub enum Visit {
    /// The node lies past the slots: the search ends without a match and
    /// without touching memory.
    Outside,
    /// The node is the match, at slot `pos`.
    Found { pos: nat },
    /// The node is on the last level and is no match: the search ends
    /// without a match.
    Bottom,
    /// The search goes on to a child.
    Down,
}

/// The node at depth `d` with path `q` of a search that matches at depth
/// `until`, in a layout of height `h` over `n` slots.
pub open spec fn visit(n: nat, h: nat, until: nat, d: nat, q: nat) -> Visit {
    let pos = vpos(h, d, q);
    if pos >= n {
        Visit::Outside
    } else if until <= d {
        Visit::Found { pos }
    } else if d + 1 >= h {
        Visit::Bottom
    } else {
        Visit::Down
    }
}

/// The path that the turns `t` (true: right) lead to from the root.
pub open spec fn turn_path(t: Seq<bool>) -> nat
    decreases t.len(),
{
    if t.len() == 0 {
        0
    } else {
        2 * turn_path(t.drop_last()) + if t.last() {
            1nat
        } else {
            0nat
        }
    }
}

/// The search goes down at every node before the turns `t` run out.
pub open spec fn walk_goes(n: nat, h: nat, until: nat, t: Seq<bool>) -> bool
    decreases t.len(),
{
    t.len() == 0 || (walk_goes(n, h, until, t.drop_last()) && visit(
        n,
        h,
        until,
        (t.len() - 1) as nat,
        turn_path(t.drop_last()),
    ) == Visit::Down)
}

/// Slots of the nodes that the turns `t` pass through, root first.
pub open spec fn walk_path(h: nat, t: Seq<bool>) -> Seq<nat>
    decreases t.len(),
{
    if t.len() == 0 {
        Seq::empty()
    } else {
        walk_path(h, t.drop_last()).push(vpos(h, (t.len() - 1) as nat, turn_path(t.drop_last())))
    }
}

/// The hierarchy after reading, in order, the slots `slots` of `slot_size`
/// bytes each from `base`.
pub open spec fn access_run(s: HierarchyView, base: nat, slot_size: nat, slots: Seq<nat>) -> HierarchyView
    decreases slots.len(),
{
    if slots.len() == 0 {
        s
    } else {
        addr_step(
            access_run(s, base, slot_size, slots.drop_last()),
            base + slots.last() * slot_size,
            slot_size,
            false,
        )
    }
}

/// A search that follows the turns `t` and then stops returns `r` and takes
/// the hierarchy from `s0` to `s1`: it reads every slot it visits inside the
/// tree, returns the slot at depth `until` if it gets there, and nothing if
/// it leaves the slots or reaches the last level first.
pub open spec fn walk_outcome(
    n: nat,
    h: nat,
    until: nat,
    base: nat,
    slot_size: nat,
    s0: HierarchyView,
    t: Seq<bool>,
    r: Option<usize>,
    s1: HierarchyView,
) -> bool {
    let path = walk_path(h, t);
    &&& walk_goes(n, h, until, t)
    &&& match visit(n, h, until, t.len(), turn_path(t)) {
        Visit::Outside => r is None && s1 == access_run(s0, base, slot_size, path),
        Visit::Found { pos } => r == Some(pos as usize) && s1 == access_run(
            s0,
            base,
            slot_size,
            path.push(pos),
        ),
        Visit::Bottom => r is None && s1 == access_run(
            s0,
            base,
            slot_size,
            path.push(vpos(h, t.len(), turn_path(t))),
        ),
        Visit::Down => false,
    }
}

/// Simulates a search of a tree of `num_elements` slots of type `Option<T>`
/// in the van Emde Boas layout at `base_addr`: reads each slot on the path
/// through `sim`, turning left or right at random (by `global_rng`), and
/// matches at depth `num_elements_until_match`. Returns the matching slot, or
/// `None` when the path leaves the slots or reaches the last level first.
pub fn sim_get<T>(
    base_addr: usize,
    num_elements_until_match: usize,
    num_elements: usize,
    sim: &mut Hierarchy,
    global_rng: &mut Mcg128Xsl64,
) -> (r: Option<usize>)
    requires
        old(sim).wf(),
        hierarchy_idle(old(sim)@),
        headroom(old(sim)@, 64 * (vstd::layout::size_of::<Option<T>>() + 1)),
        vstd::layout::size_of::<Option<T>>() > 0,
        layout_fits(num_elements as nat),
        base_addr + num_elements * vstd::layout::size_of::<Option<T>>() <= usize::MAX,
    ensures
        final(sim).wf(),
        hierarchy_idle(final(sim)@),
        counted_within(old(sim)@, final(sim)@, 64 * (vstd::layout::size_of::<Option<T>>() + 1)),
        r matches Some(p) ==> p < num_elements,
        exists|t: Seq<bool>|
            #[trigger] walk_outcome(
                num_elements as nat,
                lookup_height(num_elements as nat),
                num_elements_until_match as nat,
                base_addr as nat,
                vstd::layout::size_of::<Option<T>>(),
                old(sim)@,
                t,
                r,
                final(sim)@,
            ),
{
    let sz = core::mem::size_of::<Option<T>>();
    let ghost n = num_elements as nat;
    let ghost u0 = num_elements_until_match as nat;
    let ghost s0 = sim@;
    let mut until = num_elements_until_match;
    let mut ancestors = [0usize; 64];
    let table = table(num_elements);
    let ghost hh = lookup_height(n);
    let mut pos: usize = 0;
    let mut bfs_pos: usize = 1;
    let mut depth: u32 = 0;
    let ghost mut turns: Seq<bool> = Seq::empty();
    let ghost mut q: nat = 0;
    proof {
        lemma_pow2_small();
        lemma_vpos_root(hh, 0);
        lemma_height_fits(hh);
    }
    while pos < num_elements
        invariant
            n == num_elements,
            u0 == num_elements_until_match,
            hh == lookup_height(n),
            hh <= 63,
            hh < usize::BITS,
            table_valid(table@, hh),
            sz == vstd::layout::size_of::<Option<T>>(),
            sz > 0,
            base_addr + num_elements * sz <= usize::MAX,
            depth == turns.len(),
            depth < 64,
            depth == 0 || depth < hh,
            q == turn_path(turns),
            q < pow2(depth as nat),
            bfs_pos == pow2(depth as nat) + q,
            pos == vpos(hh, depth as nat, q),
            ancestors_ok(ancestors@, hh, depth as nat, q),
            ancestors@[depth as int] == pos,
            walk_goes(n, hh, u0, turns),
            u0 >= depth,
            until == u0 - depth,
            old(sim)@ == s0,
            sim.wf(),
            hierarchy_idle(sim@),
            headroom(sim@, ((64 - depth) * (sz + 1)) as nat),
            counted_within(s0, sim@, (depth * (sz + 1)) as nat),
            sim@ == access_run(s0, base_addr as nat, sz as nat, walk_path(hh, turns)),
        ensures
            pos >= num_elements,
            walk_outcome(n, hh, u0, base_addr as nat, sz as nat, s0, turns, None, sim@),
        decreases hh - depth,
    {
        let ghost before = sim@;
        let ghost path = walk_path(hh, turns);
        proof {
            assert(base_addr + pos * sz + sz <= usize::MAX) by (nonlinear_arith)
                requires
                    pos < num_elements,
                    base_addr + num_elements * sz <= usize::MAX,
                    sz > 0,
            ;
            assert((64 - depth) * (sz + 1) == (63 - depth) * (sz + 1) + (sz + 1)) by (nonlinear_arith);
            assert((63 - depth) * (sz + 1) >= 0) by (nonlinear_arith)
                requires
                    depth < 64,
            ;
        }
        sim.access_addr(base_addr + pos * sz, sz);
        proof {
            lemma_counted_trans(s0, before, sim@, (depth * (sz + 1)) as nat, (sz + 1) as nat);
            assert(depth * (sz + 1) + (sz + 1) == (depth + 1) * (sz + 1)) by (nonlinear_arith);
            assert((depth + 1) * (sz + 1) <= 64 * (sz + 1)) by (nonlinear_arith)
                requires
                    depth < 64,
            ;
            assert(path.push(pos as nat).drop_last() =~= path);
            assert(sim@ == access_run(s0, base_addr as nat, sz as nat, path.push(pos as nat)));
        }
        if until == 0 {
            proof {
                lemma_counted_mono(s0, sim@, ((depth + 1) * (sz + 1)) as nat, (64 * (sz + 1)) as nat);
                assert(visit(n, hh, u0, depth as nat, q) == Visit::Found { pos: pos as nat });
                assert(walk_outcome(n, hh, u0, base_addr as nat, sz as nat, s0, turns, Some(pos), sim@));
            }
            return Some(pos);
        }
        let greater = next_u32(global_rng) % 2 == 1;
        until = until - 1;
        let c: usize = if greater { 1 } else { 0 };
        proof {
            lemma_height_fits(hh);
            lemma_pow2_unfold(depth as nat + 1);
            lemma_pow2_unfold(depth as nat + 2);
            if depth + 2 < hh + 1 {
                lemma_pow2_strictly_increases(depth as nat + 2, hh + 1);
            }
            lemma_child_path_bound(depth as nat, q, c as nat);
        }
        let ghost d0 = depth;
        let ghost q0 = q;
        bfs_pos = 2 * bfs_pos + c;
        depth = depth + 1;
        if depth as usize >= table.len() {
            proof {
                lemma_counted_mono(s0, sim@, (depth * (sz + 1)) as nat, (64 * (sz + 1)) as nat);
                assert(visit(n, hh, u0, d0 as nat, q0) == Visit::Bottom);
                assert(walk_outcome(n, hh, u0, base_addr as nat, sz as nat, s0, turns, None, sim@));
            }
            return None;
        }
        proof {
            lemma_ancestors_child(ancestors@, hh, d0 as nat, q0, c as nat, pos);
            assert(ancestors@.update(d0 as int, pos) == ancestors@);
            lemma_index_formula(
                table@,
                hh,
                depth as nat,
                (2 * q0 + c) as nat,
                bfs_pos,
                ancestors@,
            );
        }
        let next = veb_index(bfs_pos, &mut ancestors, depth, table.as_slice());
        pos = match next {
            Some(p) => p,
            None => {
                proof {
                    lemma_counted_mono(s0, sim@, (depth * (sz + 1)) as nat, (64 * (sz + 1)) as nat);
                }
                return None;
            },
        };
        ancestors[depth as usize] = pos;
        proof {
            let t2 = turns.push(greater);
            assert(t2.drop_last() =~= turns);
            assert(turn_path(t2) == 2 * q0 + c);
            assert(visit(n, hh, u0, d0 as nat, q0) == Visit::Down);
            assert(walk_goes(n, hh, u0, t2));
            assert(walk_path(hh, t2) == path.push(vpos(hh, d0 as nat, q0)));
            turns = t2;
            q = (2 * q0 + c) as nat;
            assert forall|k: int| 0 <= k < depth implies #[trigger] ancestors@[k] == vpos(
                hh,
                k as nat,
                q / pow2((depth - k) as nat),
            ) by {}
            assert forall|j: int| 0 <= j < sim@.levels.len() implies (#[trigger] sim@.levels[j]).accs + (64 - depth) * (sz + 1) <= u64::MAX by {
                assert(before.levels[j].accs + (64 - d0) * (sz + 1) <= u64::MAX);
            }
        }
    }
    proof {
        assert(visit(n, hh, u0, depth as nat, q) == Visit::Outside);
        assert(depth * (sz + 1) <= 64 * (sz + 1)) by (nonlinear_arith)
            requires
                depth < 64,
        ;
        lemma_counted_mono(s0, sim@, (depth * (sz + 1)) as nat, (64 * (sz + 1)) as nat);
    }
    None
}


/// Bytes of one slot of a dynamic tree.
pub open spec fn slot_bytes() -> nat {
    vstd::layout::size_of::<Option<(usize, u64)>>()
}

/// The slots of a dynamic tree are whole words, at most 64 bytes each.
pub open spec fn slot_layout_ok() -> bool {
    &&& slot_bytes() % 8 == 0
    &&& 8 <= slot_bytes() <= 64
}

/// A complete tree of height `h >= 1` has `2^h - 1` slots, and its lookup
/// table has a row per level.
proof fn lemma_full_height(h: nat)
    ensures
        ceil_log2(pow2(h)) == h,
        h >= 1 ==> lookup_height((pow2(h) - 1) as nat) == h,
        h >= 1 ==> pow2(h) >= 2,
{
    lemma_pow2_small();
    if h > 0 {
        lemma_pow2_strictly_increases((h - 1) as nat, h);
    }
    lemma_ceil_log2_unique(pow2(h), h);
    if h >= 1 {
        if h == 1 {
            assert(pow2(h) - 1 == 1);
        } else {
            lemma_pow2_unfold(h);
            lemma_pow2_strictly_increases(0, (h - 1) as nat);
            let n = (pow2(h) - 1) as nat;
            assert(n % 2 == 1);
            lemma_ceil_log2_unique(n, h);
        }
    }
}


/// A tree of `u64` keys kept in the van Emde Boas layout of a complete tree,
/// each slot holding a key and the size of the subtree below it, with a
/// scratch buffer as large for rebuilding subtrees; both live in simulated
/// memory at `tree_addr` and `scratch_addr`.
pub struct Tree {
    tree: Vec<Option<(usize, u64)>>,
    scratch: Vec<u64>,
    tree_addr: usize,
    scratch_addr: usize,
}

impl Tree {
    /// Height of the complete tree that the slots hold.
    pub closed spec fn height(&self) -> nat {
        ceil_log2(self.tree@.len() + 1)
    }

    /// Number of slots.
    pub closed spec fn capacity(&self) -> nat {
        self.tree@.len()
    }

    /// Where the slots lie in simulated memory.
    pub closed spec fn slots_base(&self) -> nat {
        self.tree_addr as nat
    }

    /// The positions of the slots that a lookup of `v` reads, in order: one
    /// per node that the search for `v` passes, then the one it stops at
    /// where it stops within the tree, then, where that one holds `v`, the
    /// same slot once more.
    pub closed spec fn lookup_reads(&self, v: u64) -> Seq<nat> {
        let r = search_slots(self.tree@, self.height(), v);
        if self@.contains(v) {
            r.push(r.last())
        } else {
            r
        }
    }

    /// The addresses of the words that an insertion of `v` reads, in order,
    /// when the next free address of the simulated memory is `nf`: nothing
    /// in a tree without slots; else the slots that the search for `v`
    /// reads, then, where it stops at an empty slot, that slot and the
    /// ancestors' slots from the deepest up, or, where it runs below the
    /// last level, what `rebalance_and_insert` reads.
    pub closed spec fn insert_reads(&self, v: u64, nf: nat) -> Seq<nat> {
        let t = self.tree@;
        let h = self.height();
        let ta = self.tree_addr as nat;
        let (d, q) = search_stop(t, h, v, 0, 0);
        let sr = slot_addrs(ta, search_slots(t, h, v));
        if t.len() == 0 {
            Seq::empty()
        } else if d >= h {
            sr + rebalance_reads(t, h, v, q, ta, self.scratch_addr as nat, nf)
        } else if present(t, h, d, q) {
            sr
        } else {
            sr + seq![slot_addr(ta, vpos(h, d, q))] + path_up(ta, h, d, q)
        }
    }

    /// The capacity after an insertion of `v`: 3 for a tree without slots;
    /// where the search for `v` runs below the last level and no ancestor's
    /// subtree would stay below its density limit (see `rebalance_stop`),
    /// twice the capacity and one more; else the capacity as it is.
    #[verifier::opaque]
    pub closed spec fn insert_capacity(&self, v: u64) -> nat {
        let t = self.tree@;
        let h = self.height();
        let (d, q) = search_stop(t, h, v, 0, 0);
        if t.len() == 0 {
            3
        } else if d >= h && rebalance_stop(t, h, q, 0) is None {
            2 * t.len() + 1
        } else {
            t.len()
        }
    }

    pub closed spec fn wf(&self) -> bool {
        &&& slot_layout_ok()
        &&& tree_ok(self.tree@, self.height())
        &&& self.height() <= 62
        &&& self.height() + 2 < usize::BITS
        &&& self.scratch@.len() == self.tree@.len()
        &&& self.tree_addr % 8 == 0
        &&& self.scratch_addr % 8 == 0
        &&& self.tree_addr + self.tree@.len() * slot_bytes() <= usize::MAX
        &&& self.scratch_addr + self.scratch@.len() * 8 <= usize::MAX
    }
}

impl View for Tree {
    type V = Seq<u64>;

    /// The keys, in increasing order.
    closed spec fn view(&self) -> Seq<u64> {
        keys(self.tree@, self.height())
    }
}

/// Where a search for `v` in the slots `s` of a tree of height `h` ends
/// (`q`: the path it took; `anc`: the positions it passed):
/// - `Ok((pos, d))`: at the node at depth `d`, slot `pos`, holding `v`;
/// - `Err((pos, d, bfs))` with `pos` a slot: at that empty slot, the node
///   with breadth-first number `bfs`;
/// - `Err((len, h, bfs))`: below the last level, at the empty child with
///   breadth-first number `bfs`;
/// - `Err((0, 0, 0))` in a tree without slots.
pub open spec fn search_end(
    s: Slots,
    h: nat,
    v: u64,
    r: Result<(usize, u32), (usize, u32, usize)>,
    q: nat,
    anc: Seq<usize>,
) -> bool {
    match r {
        Ok((pos, d)) => {
            &&& (d as nat) < h
            &&& q < pow2(d as nat)
            &&& pos == vpos(h, d as nat, q)
            &&& present(s, h, d as nat, q)
            &&& key_of(s, h, d as nat, q) == v
            &&& path_ok(s, h, v, d as nat, q)
            &&& ancestors_ok(anc, h, d as nat, q)
            &&& anc[d as int] == pos
        },
        Err((pos, d, bfs)) => if s.len() == 0 {
            pos == 0 && d == 0 && bfs == 0
        } else {
            &&& q < pow2(d as nat)
            &&& path_ok(s, h, v, d as nat, q)
            &&& ancestors_ok(anc, h, d as nat, q)
            &&& bfs == pow2(d as nat) + q
            &&& d <= h
            &&& if pos < s.len() {
                &&& (d as nat) < h
                &&& pos == vpos(h, d as nat, q)
                &&& !present(s, h, d as nat, q)
                &&& anc[d as int] == pos
            } else {
                pos == s.len() && d == h
            }
        },
    }
}

/// The positions of the nodes above depth `d` on the path `q`, root first.
spec fn path_slots(h: nat, d: nat, q: nat) -> Seq<nat> {
    Seq::new(d, |k: int| path_pos(h, d, q, k))
}

proof fn lemma_half_path(q: nat, c: nat, e: nat)
    requires
        c < 2,
    ensures
        (2 * q + c) / pow2(e + 1) == q / pow2(e),
{
    lemma_pow2_unfold(e + 1);
    lemma_pow2_pos(e);
    lemma_div_denominator((2 * q + c) as int, 2, pow2(e) as int);
    assert((2 * q + c) / 2 == q);
}

proof fn lemma_path_slots_step(h: nat, d: nat, q: nat, c: nat)
    requires
        q < pow2(d),
        c < 2,
    ensures
        path_slots(h, d + 1, 2 * q + c) == path_slots(h, d, q).push(vpos(h, d, q)),
{
    let q1 = 2 * q + c;
    let a = path_slots(h, d + 1, q1);
    let b = path_slots(h, d, q).push(vpos(h, d, q));
    assert forall|k: int| 0 <= k < d + 1 implies #[trigger] a[k] == b[k] by {
        let e = (d - k) as nat;
        assert((d + 1 - k) as nat == e + 1);
        lemma_half_path(q, c, e);
        if k == d {
            lemma_pow2_small();
            assert(q / pow2(0) == q);
        }
    }
    assert(a =~= b);
}

proof fn lemma_search_slots(s: Slots, h: nat, v: u64, d: nat, q: nat)
    requires
        path_ok(s, h, v, d, q),
        q < pow2(d),
        d <= h,
        d >= h || !present(s, h, d, q) || key_of(s, h, d, q) == v,
    ensures
        search_slots(s, h, v) == if d < h {
            path_slots(h, d, q).push(vpos(h, d, q))
        } else {
            path_slots(h, d, q)
        },
{
    lemma_search_stop(s, h, v, d, q);
    lemma_pow2_small();
    assert(q / pow2(0) == q);
    let a = search_slots(s, h, v);
    if d < h {
        let b = path_slots(h, d, q).push(vpos(h, d, q));
        assert(a.len() == b.len());
        assert forall|k: int| 0 <= k < a.len() implies #[trigger] a[k] == b[k] by {
            if k == d {
                assert((d - k) as nat == 0);
            }
        }
        assert(a =~= b);
    } else {
        let b = path_slots(h, d, q);
        assert(a.len() == b.len());
        assert forall|k: int| 0 <= k < a.len() implies #[trigger] a[k] == b[k] by {}
        assert(a =~= b);
    }
}

impl Tree {
    /// Searches for `value`, reading each slot on the way through `sim`,
    /// and records the positions it passes in `ancestors`.
    #[verifier::spinoff_prover]
    fn index(&self, ancestors: &mut [usize; 64], value: u64, sim: &mut Simalloc) -> (r: (
        Result<(usize, u32), (usize, u32, usize)>,
        Ghost<nat>,
    ))
        requires
            self.wf(),
            old(sim).wf(),
            headroom(old(sim)@, 64),
        ensures
            final(sim).wf(),
            counted_within(old(sim)@, final(sim)@, 64),
            final(sim).next_free() == old(sim).next_free(),
            search_end(self.tree@, self.height(), value, r.0, r.1@, final(ancestors)@),
            final(sim)@ == elem_reads(
                old(sim)@,
                self.tree_addr as nat,
                slot_bytes(),
                search_slots(self.tree@, self.height(), value),
            ),
    {
        let n = self.tree.len();
        if n == 0 {
            proof {
                assert(self.height() == 0) by {
                    lemma_full_height(self.height());
                    lemma_pow2_pos(self.height());
                    if self.height() > 0 {
                        lemma_pow2_strictly_increases(0, self.height());
                        lemma_pow2_small();
                    }
                }
                assert(search_stop(self.tree@, 0, value, 0, 0) == (0nat, 0nat));
                assert(search_slots(self.tree@, 0, value) =~= Seq::<nat>::empty());
            }
            return (Err((0, 0, 0)), Ghost(0));
        }
        let ghost s = self.tree@;
        let ghost h = self.height();
        let ghost s0 = sim@;
        let esz = core::mem::size_of::<Option<(usize, u64)>>();
        proof {
            lemma_full_height(h);
            lemma_pow2_small();
            lemma_vpos_root(h, 0);
            lemma_height_fits(h);
            assert(h >= 1) by {
                if h == 0 {
                    assert(n == 0);
                }
            }
        }
        let table = table(n);
        ancestors[0] = 0;
        let mut pos: usize = 0;
        let mut bfs_pos: usize = 1;
        let mut depth: u32 = 0;
        let ghost mut q: nat = 0;
        proof {
            assert(path_slots(h, 0, 0) =~= Seq::<nat>::empty());
        }
        loop
            invariant
                n == s.len(),
                s == self.tree@,
                self.wf(),
                h == self.height(),
                1 <= h <= 62,
                h < usize::BITS,
                n == pow2(h) - 1,
                table_valid(table@, h),
                esz == slot_bytes(),
                depth < h,
                q < pow2(depth as nat),
                bfs_pos == pow2(depth as nat) + q,
                pos == vpos(h, depth as nat, q),
                pos < n,
                ancestors_ok(ancestors@, h, depth as nat, q),
                ancestors@[depth as int] == pos,
                path_ok(s, h, value, depth as nat, q),
                sim.wf(),
                sim.next_free() == old(sim).next_free(),
                old(sim)@ == s0,
                counted_within(s0, sim@, depth as nat),
                headroom(sim@, (64 - depth) as nat),
                sim@ == elem_reads(s0, self.tree_addr as nat, slot_bytes(), path_slots(h, depth as nat, q)),
            decreases h - depth,
        {
            proof {
                lemma_vpos_bound(h, depth as nat, q);
                assert(self.tree_addr + (pos + 1) * esz <= usize::MAX) by (nonlinear_arith)
                    requires
                        pos + 1 <= n,
                        self.tree_addr + n * esz <= usize::MAX,
                ;
            }
            let ghost before = sim@;
            touch_elem(sim, self.tree_addr, pos, esz);
            proof {
                lemma_counted_trans(s0, before, sim@, depth as nat, 1);
                lemma_headroom_after(before, sim@, (64 - depth) as nat, 1);
                lemma_elem_reads_push(s0, self.tree_addr as nat, slot_bytes(), path_slots(h, depth as nat, q), pos as nat);
            }
            let ghost read = path_slots(h, depth as nat, q).push(pos as nat);
            let slot = self.tree[pos];
            match slot {
                None => {
                    proof {
                        lemma_search_slots(s, h, value, depth as nat, q);
                    }
                    return (Err((pos, depth, bfs_pos)), Ghost(q));
                },
                Some(e) => {
                    let pivot = e.1;
                    if value == pivot {
                        proof {
                            lemma_search_slots(s, h, value, depth as nat, q);
                        }
                        return (Ok((pos, depth)), Ghost(q));
                    }
                    let c: usize = if value < pivot { 0 } else { 1 };
                    proof {
                        lemma_pow2_unfold(depth as nat + 1);
                        lemma_child_path_bound(depth as nat, q, c as nat);
                        if depth + 1 < h {
                            lemma_pow2_strictly_increases(depth as nat + 1, h);
                        }
                        lemma_pow2_strictly_increases(depth as nat + 1, h + 1);
                        lemma_height_fits(h);
                    }
                    let ghost d0 = depth;
                    let ghost q0 = q;
                    bfs_pos = 2 * bfs_pos + c;
                    depth = depth + 1;
                    let ghost q1 = (2 * q0 + c) as nat;
                    proof {
                        lemma_path_slots_step(h, d0 as nat, q0, c as nat);
                        assert(read == path_slots(h, depth as nat, q1));
                        lemma_ancestors_child(ancestors@, h, d0 as nat, q0, c as nat, pos);
                        assert(ancestors@.update(d0 as int, pos) == ancestors@);
                        lemma_parent_path(depth as nat, q1);
                        assert(q1 / 2 == q0);
                        assert(path_ok(s, h, value, depth as nat, q1));
                    }
                    if depth as usize >= table.len() {
                        proof {
                            assert(search_end(s, h, value, Err((n, depth, bfs_pos)), q1, ancestors@));
                            lemma_search_slots(s, h, value, depth as nat, q1);
                        }
                        return (Err((n, depth, bfs_pos)), Ghost(q1));
                    }
                    proof {
                        lemma_index_formula(table@, h, depth as nat, q1, bfs_pos, ancestors@);
                        lemma_vpos_bound(h, depth as nat, q1);
                    }
                    let next = veb_index(bfs_pos, ancestors, depth, table.as_slice());
                    pos = match next {
                        Some(p) => p,
                        None => {
                            proof {
                                assert(depth == h);
                                lemma_search_slots(s, h, value, depth as nat, q1);
                            }
                            return (Err((n, depth, bfs_pos)), Ghost(q1));
                        },
                    };
                    ancestors[depth as usize] = pos;
                    proof {
                        q = q1;
                        assert forall|k: int| 0 <= k < depth implies #[trigger] ancestors@[k]
                            == vpos(h, k as nat, q / pow2((depth - k) as nat)) by {}
                        assert forall|j: int| 0 <= j < sim@.levels.len() implies (
                        #[trigger] sim@.levels[j]).accs + (64 - depth) <= u64::MAX by {
                            assert(sim@.levels[j].accs + (64 - d0 - 1) <= u64::MAX);
                        }
                    }
                },
            }
        }
    }
}


impl Tree {
    /// A tree without slots, whose memory will come from the simulated
    /// memory that its operations are given as it grows.
    pub fn in_sim(sim: &Simalloc) -> (t: Tree)
        requires
            slot_layout_ok(),
        ensures
            t.wf(),
            t@ == Seq::<u64>::empty(),
            t.capacity() == 0,
    {
        let t = Tree { tree: Vec::new(), scratch: Vec::new(), tree_addr: 0, scratch_addr: 0 };
        proof {
            lemma_full_height(0);
            lemma_pow2_small();
            assert(t.height() == 0);
            assert(keys(t.tree@, 0) =~= Seq::<u64>::empty());
            assert(strictly_increasing(keys(t.tree@, 0)));
        }
        t
    }

    /// Number of slots.
    pub fn cap(&self) -> (c: usize)
        ensures
            c == self.capacity(),
    {
        self.tree.len()
    }

    /// The key equal to `value`, if the tree holds it, found by a search
    /// that reads each slot on its way through `sim` and reads the slot it
    /// finds once more.
    pub fn get(&self, value: &u64, sim: &mut Simalloc) -> (r: Option<&u64>)
        requires
            self.wf(),
            old(sim).wf(),
            headroom(old(sim)@, 65),
        ensures
            final(sim).wf(),
            final(sim).next_free() == old(sim).next_free(),
            final(sim)@ == elem_reads(old(sim)@, self.slots_base(), slot_bytes(), self.lookup_reads(*value)),
            counted_within(old(sim)@, final(sim)@, 65),
            r is Some == self@.contains(*value),
            r matches Some(x) ==> *x == *value,
    {
        let mut ancestors = [0usize; 64];
        let ghost s0 = sim@;
        let (res, Ghost(q)) = self.index(&mut ancestors, *value, sim);
        let ghost s = self.tree@;
        let ghost h = self.height();
        match res {
            Err(e) => {
                proof {
                    let d = e.1 as nat;
                    if s.len() == 0 {
                        lemma_full_height(0);
                        lemma_pow2_small();
                        assert(keys(s, h) =~= Seq::<u64>::empty());
                    } else {
                        lemma_path_membership(s, h, *value, d, q);
                        assert(!present(s, h, d, q));
                        assert(inorder(s, h, d, q) =~= Seq::<u64>::empty());
                    }
                }
                None
            },
            Ok((i, d)) => {
                let esz = core::mem::size_of::<Option<(usize, u64)>>();
                proof {
                    lemma_headroom_after(s0, sim@, 65, 64);
                    lemma_vpos_bound(h, d as nat, q);
                    lemma_full_height(h);
                    assert(self.tree_addr + (i + 1) * esz <= usize::MAX) by (nonlinear_arith)
                        requires
                            i + 1 <= s.len(),
                            self.tree_addr + s.len() * esz <= usize::MAX,
                    ;
                    lemma_path_membership(s, h, *value, d as nat, q);
                    let l = inorder(s, h, d as nat + 1, 2 * q);
                    assert(inorder(s, h, d as nat, q)[l.len() as int] == *value);
                }
                let ghost mid = sim@;
                touch_elem(sim, self.tree_addr, i, esz);
                proof {
                    lemma_counted_trans(s0, mid, sim@, 64, 1);
                    let r = search_slots(s, h, *value);
                    lemma_search_slots(s, h, *value, d as nat, q);
                    assert(r.last() == i);
                    lemma_elem_reads_push(s0, self.tree_addr as nat, slot_bytes(), r, i as nat);
                }
                match &self.tree[i] {
                    Some(e) => Some(&e.1),
                    None => None,
                }
            },
        }
    }
}


/// The machine facts that reading slots of a tree of height `h` through
/// `sim` needs: `2^h - 1` slots of `slot_bytes()` bytes at `tree_addr`,
/// `scratch_len` words at `scratch_addr`.
pub open spec fn sim_slots_ok(h: nat, tree_len: nat, tree_addr: usize, scratch_len: nat, scratch_addr: usize) -> bool {
    &&& slot_layout_ok()
    &&& 1 <= h <= 62
    &&& h < usize::BITS
    &&& tree_len == pow2(h) - 1
    &&& tree_addr % 8 == 0
    &&& scratch_addr % 8 == 0
    &&& tree_addr + tree_len * slot_bytes() <= usize::MAX
    &&& scratch_addr + scratch_len * 8 <= usize::MAX
}

/// The words, by address, that `layout` reads to lay `len` keys from
/// scratch word `lo` on out below the node at depth `d`, path `q`: the left
/// half's, the right half's, then the node's slot and the scratch word of
/// its key (the middle one).
pub open spec fn layout_reads(h: nat, d: nat, q: nat, lo: nat, len: nat, ta: nat, sa: nat) -> Seq<nat>
    decreases len,
{
    if len == 0 {
        Seq::empty()
    } else {
        let root = len / 2;
        layout_reads(h, d + 1, 2 * q, lo, root, ta, sa) + layout_reads(
            h,
            d + 1,
            2 * q + 1,
            lo + root + 1,
            (len - root - 1) as nat,
            ta,
            sa,
        ) + seq![slot_addr(ta, vpos(h, d, q)), sa + 8 * (lo + root)]
    }
}


/// Lays the keys `scratch[lo .. lo + len]` out as a balanced search tree in
/// the empty subtree below the node at depth `depth` with breadth-first
/// number `bfs_pos` (path `q`): the middle key at that node, the keys before
/// it to the left, those after it to the right; each node records the size
/// of its subtree. Returns `len`. Writing a node reads its slot, then the
/// scratch word it takes its key from.
#[verifier::rlimit(100)]
#[verifier::spinoff_prover]
fn layout(
    table: &[TreeInfo],
    scratch: &Vec<u64>,
    lo: usize,
    len: usize,
    depth: u32,
    bfs_pos: usize,
    ancestors: &mut [usize; 64],
    tree: &mut Vec<Option<(usize, u64)>>,
    sim: &mut Simalloc,
    tree_addr: usize,
    scratch_addr: usize,
    Ghost(h): Ghost<nat>,
    Ghost(q): Ghost<nat>,
) -> (size: usize)
    requires
        table_valid(table@, h),
        sim_slots_ok(h, old(tree)@.len(), tree_addr, scratch@.len(), scratch_addr),
        depth <= h,
        q < pow2(depth as nat),
        bfs_pos == pow2(depth as nat) + q,
        ancestors_ok(old(ancestors)@, h, depth as nat, q),
        len <= pow2((h - depth) as nat) - 1,
        lo + len <= scratch@.len(),
        subtree_empty(old(tree)@, h, depth as nat, q),
        old(sim).wf(),
        headroom(old(sim)@, 2 * len as nat),
    ensures
        size == len,
        final(tree)@.len() == old(tree)@.len(),
        inorder(final(tree)@, h, depth as nat, q) == scratch@.subrange(lo as int, lo + len),
        subtree_ok(final(tree)@, h, depth as nat, q),
        len > 0 ==> present(final(tree)@, h, depth as nat, q),
        same_slots_outside(old(tree)@, final(tree)@, h, depth as nat, q),
        forall|k: int| 0 <= k < depth ==> #[trigger] final(ancestors)@[k] == old(ancestors)@[k],
        len > 0 ==> final(ancestors)@[depth as int] == vpos(h, depth as nat, q),
        final(sim).wf(),
        counted_within(old(sim)@, final(sim)@, 2 * len as nat),
        final(sim).next_free() == old(sim).next_free(),
        final(sim)@ == elem_reads(
            old(sim)@,
            0,
            1,
            layout_reads(h, depth as nat, q, lo as nat, len as nat, tree_addr as nat, scratch_addr as nat),
        ),
    decreases len,
{
    let ghost d = depth as nat;
    let ghost t0 = tree@;
    if len == 0 {
        proof {
            if d < h {
                lemma_in_subtree_self(d, q);
                assert(t0[vpos(h, d, q) as int] is None);
            }
            assert(inorder(t0, h, d, q) =~= Seq::<u64>::empty());
            assert forall|d2: nat, q2: nat|
                d2 < h && q2 < pow2(d2) && in_subtree(d, q, d2, q2) && #[trigger] present(t0, h, d2, q2)
                    implies false by {
                assert(t0[vpos(h, d2, q2) as int] is None);
            }
            assert(scratch@.subrange(lo as int, lo + len) =~= Seq::<u64>::empty());
            assert(counted_within(sim@, sim@, 0));
        }
        return 0;
    }
    let ghost s0 = sim@;
    let ghost a0 = ancestors@;
    let esz = core::mem::size_of::<Option<(usize, u64)>>();
    proof {
        lemma_pow2_small();
        assert(d < h) by {
            if d >= h {
                assert((h - d) as nat == 0);
            }
        }
        lemma_height_fits(h);
        lemma_index_formula(table@, h, d, q, bfs_pos, ancestors@);
        lemma_vpos_bound(h, d, q);
        if d == 0 {
            lemma_vpos_root(h, q);
        }
        lemma_child_path(d, q);
        lemma_pow2_unfold(d + 1);
        lemma_pow2_strictly_increases(d + 1, h + 1);
        lemma_pow2_unfold(d + 2);
        if d + 2 < h + 1 {
            lemma_pow2_strictly_increases(d + 2, h + 1);
        }
        lemma_pow2_unfold((h - d) as nat);
        assert(pow2((h - d) as nat) == 2 * pow2((h - (d + 1)) as nat));
    }
    let pos = veb_index(bfs_pos, ancestors, depth, table).unwrap();
    ancestors[depth as usize] = pos;
    let root = len / 2;
    let ghost a1 = ancestors@;
    proof {
        lemma_ancestors_child(a0, h, d, q, 0, pos);
        lemma_ancestors_child(a0, h, d, q, 1, pos);
        assert(a1 == a0.update(d as int, pos));
        lemma_in_subtree_self(d, q);
        assert forall|d2: nat, q2: nat|
            in_subtree(d + 1, 2 * q, d2, q2) && d2 < h && q2 < pow2(d2) implies #[trigger] t0[vpos(
            h,
            d2,
            q2,
        ) as int] is None by {
            lemma_in_subtree_parent(d, q, 0, d2, q2);
        }
    }
    let ghost sl = sim@;
    let left = layout(
        table,
        scratch,
        lo,
        root,
        depth + 1,
        2 * bfs_pos,
        ancestors,
        tree,
        sim,
        tree_addr,
        scratch_addr,
        Ghost(h),
        Ghost(2 * q),
    );
    let ghost t1 = tree@;
    let ghost a2 = ancestors@;
    proof {
        lemma_counted_trans(s0, sl, sim@, 0, 2 * root as nat);
        lemma_headroom_after(s0, sim@, 2 * len as nat, 2 * root as nat);
        // the right subtree is still empty
        assert forall|d2: nat, q2: nat|
            in_subtree(d + 1, 2 * q + 1, d2, q2) && d2 < h && q2 < pow2(d2) implies #[trigger] t1[vpos(
            h,
            d2,
            q2,
        ) as int] is None by {
            lemma_in_subtree_parent(d, q, 1, d2, q2);
            lemma_siblings_apart(d, q, d2, q2);
            assert(t1[vpos(h, d2, q2) as int] == t0[vpos(h, d2, q2) as int]);
        }
        assert forall|k: int| 0 <= k < d + 1 implies #[trigger] a2[k] == vpos(
            h,
            k as nat,
            (2 * q + 1) / pow2((d + 1 - k) as nat),
        ) by {
            assert(a2[k] == a1[k]);
        }
    }
    let mut size: usize = 1 + left;
    let ghost sr = sim@;
    let ghost lr = layout_reads(h, d + 1, 2 * q, lo as nat, root as nat, tree_addr as nat, scratch_addr as nat);
    let ghost rr = layout_reads(
        h,
        d + 1,
        2 * q + 1,
        (lo + root + 1) as nat,
        (len - root - 1) as nat,
        tree_addr as nat,
        scratch_addr as nat,
    );
    if root + 1 < len {
        let right = layout(
            table,
            scratch,
            lo + root + 1,
            len - root - 1,
            depth + 1,
            2 * bfs_pos + 1,
            ancestors,
            tree,
            sim,
            tree_addr,
            scratch_addr,
            Ghost(h),
            Ghost(2 * q + 1),
        );
        size = size + right;
        proof {
            lemma_elem_reads_concat(s0, 0, 1, lr, rr);
        }
    } else {
        proof {
            assert(counted_within(sim@, sim@, 0));
            assert(rr =~= Seq::<nat>::empty());
            assert(lr + rr =~= lr);
        }
    }
    let ghost t2 = tree@;
    let ghost rlen: nat = (len - root - 1) as nat;
    proof {
        lemma_counted_trans(s0, sr, sim@, 2 * root as nat, 2 * rlen);
        lemma_headroom_after(s0, sim@, 2 * len as nat, 2 * root as nat + 2 * rlen);
        lemma_full_height(h);
        assert(tree_addr + (pos + 1) * esz <= usize::MAX) by (nonlinear_arith)
            requires
                pos + 1 <= t0.len(),
                tree_addr + t0.len() * esz <= usize::MAX,
        ;
    }
    let ghost sw = sim@;
    touch_elem(sim, tree_addr, pos, esz);
    let ghost sw2 = sim@;
    proof {
        lemma_counted_trans(s0, sw, sim@, 2 * root as nat + 2 * rlen, 1);
        lemma_headroom_after(s0, sim@, 2 * len as nat, 2 * root as nat + 2 * rlen + 1);
    }
    touch_elem(sim, scratch_addr, lo + root, 8);
    proof {
        lemma_counted_trans(s0, sw2, sim@, 2 * root as nat + 2 * rlen + 1, 1);
        let sl_a = slot_addr(tree_addr as nat, vpos(h, d, q));
        let sc_a: nat = (scratch_addr + 8 * (lo + root)) as nat;
        lemma_reads_push(s0, lr + rr, sl_a);
        lemma_reads_push(s0, (lr + rr).push(sl_a), sc_a);
        assert((lr + rr).push(sl_a).push(sc_a) =~= lr + rr + seq![sl_a, sc_a]);
    }
    let key = scratch[lo + root];
    proof {
        let el = scratch@.subrange(lo as int, lo + root);
        let er = scratch@.subrange(lo + root + 1, lo + len);
        if !(root + 1 < len) {
            assert(t2 == t1);
            assert forall|d2: nat, q2: nat|
                d2 < h && q2 < pow2(d2) && in_subtree(d + 1, 2 * q + 1, d2, q2) && #[trigger] present(
                    t2,
                    h,
                    d2,
                    q2,
                ) implies false by {
                assert(t1[vpos(h, d2, q2) as int] is None);
            }
            if d + 1 < h {
                lemma_in_subtree_self(d + 1, 2 * q + 1);
                assert(t1[vpos(h, d + 1, 2 * q + 1) as int] is None);
            }
            assert(inorder(t2, h, d + 1, 2 * q + 1) =~= er);
        }
        lemma_join_children(t0, t1, t2, h, d, q, el, key, er, size);
        assert(scratch@.subrange(lo as int, lo + len) =~= el + seq![key] + er);
    }
    tree.set(pos, Some((size, key)));
    size
}



/// The words, by address, that `gather` reads to move the keys below the
/// node at depth `d`, path `q`, with `v` where it goes, to the scratch words
/// from `off` on: the node's slot; where `v` goes just left of it, the word
/// `v` takes; the left subtree's; the slot again and the word its key takes;
/// where `v` goes just right of it, the word `v` takes; the right
/// subtree's. A node that is not there costs its slot alone.
pub open spec fn gather_reads(
    t: Slots,
    h: nat,
    d: nat,
    q: nat,
    v: u64,
    qa: nat,
    ta: nat,
    sa: nat,
    off: nat,
) -> Seq<nat>
    decreases h - d,
{
    if d >= h {
        Seq::empty()
    } else if !present(t, h, d, q) {
        seq![slot_addr(ta, vpos(h, d, q))]
    } else {
        let lv = d + 1 == h && 2 * q == qa;
        let rv = d + 1 == h && 2 * q + 1 == qa;
        let o1 = if lv { off + 1 } else { off };
        let o2 = o1 + ext_inorder(t, h, d + 1, 2 * q, v, qa).len();
        let o3 = if rv { o2 + 2 } else { o2 + 1 };
        let slot = slot_addr(ta, vpos(h, d, q));
        seq![slot] + (if lv { seq![sa + 8 * off] } else { Seq::empty() }) + gather_reads(
            t,
            h,
            d + 1,
            2 * q,
            v,
            qa,
            ta,
            sa,
            o1,
        ) + seq![slot, sa + 8 * o2] + (if rv { seq![sa + 8 * (o2 + 1)] } else { Seq::empty() })
            + gather_reads(t, h, d + 1, 2 * q + 1, v, qa, ta, sa, o3)
    }
}

/// What `gather` reads below a node depends only on the slots below it.
proof fn lemma_gather_reads_frame(
    t1: Slots,
    t2: Slots,
    h: nat,
    d: nat,
    q: nat,
    v: u64,
    qa: nat,
    ta: nat,
    sa: nat,
    off: nat,
)
    requires
        q < pow2(d),
        same_slots_below(t1, t2, h, d, q),
    ensures
        gather_reads(t1, h, d, q, v, qa, ta, sa, off) == gather_reads(t2, h, d, q, v, qa, ta, sa, off),
    decreases h - d,
{
    if d < h {
        lemma_slots_frame(t1, t2, h, d, q);
        if present(t1, h, d, q) {
            lemma_child_path(d, q);
            assert forall|c: nat| c < 2 implies #[trigger] same_slots_below(t1, t2, h, d + 1, 2 * q + c) by {
                assert forall|d2: nat, q2: nat|
                    in_subtree(d + 1, 2 * q + c, d2, q2) && d2 < h && q2 < pow2(d2) implies t1[vpos(
                    h,
                    d2,
                    q2,
                ) as int] == t2[vpos(h, d2, q2) as int] by {
                    lemma_child_in_subtree(d, q, c);
                    lemma_in_subtree_trans(d, q, d + 1, 2 * q + c, d2, q2);
                }
            }
            assert(same_slots_below(t1, t2, h, d + 1, 2 * q + 0));
            lemma_slots_frame(t1, t2, h, d + 1, 2 * q);
            lemma_ext_frame(t1, t2, h, d + 1, 2 * q, v, qa);
            let lv = d + 1 == h && 2 * q == qa;
            let rv = d + 1 == h && 2 * q + 1 == qa;
            let o1 = if lv { off + 1 } else { off };
            let o2 = o1 + ext_inorder(t1, h, d + 1, 2 * q, v, qa).len();
            let o3 = if rv { o2 + 2 } else { o2 + 1 };
            lemma_gather_reads_frame(t1, t2, h, d + 1, 2 * q, v, qa, ta, sa, o1);
            lemma_gather_reads_frame(t1, t2, h, d + 1, 2 * q + 1, v, qa, ta, sa, o3);
        }
    }
}


/// Moves the keys of the subtree below the node at depth `depth` with
/// breadth-first number `bfs_pos` (path `q`, slot `pos`) into `scratch`
/// from `pre_offset` on, in order, with `value` put in where the empty
/// child with breadth-first number `bfs_at` (path `qa` at depth `h`) hangs,
/// emptying the subtree's slots. Returns how many keys it wrote. Each node
/// is read to see that it is there, read again to take its key, and each
/// scratch word read as it is written.
#[verifier::rlimit(100)]
#[verifier::spinoff_prover]
fn gather(
    table: &[TreeInfo],
    ancestors: &mut [usize; 64],
    tree: &mut Vec<Option<(usize, u64)>>,
    scratch: &mut Vec<u64>,
    pre_offset: usize,
    pos: usize,
    bfs_pos: usize,
    depth: u32,
    value: u64,
    bfs_at: usize,
    sim: &mut Simalloc,
    tree_addr: usize,
    scratch_addr: usize,
    Ghost(h): Ghost<nat>,
    Ghost(q): Ghost<nat>,
    Ghost(qa): Ghost<nat>,
) -> (moved: usize)
    requires
        table_valid(table@, h),
        sim_slots_ok(h, old(tree)@.len(), tree_addr, old(scratch)@.len(), scratch_addr),
        depth <= h,
        q < pow2(depth as nat),
        bfs_pos == pow2(depth as nat) + q,
        depth < h ==> pos == vpos(h, depth as nat, q),
        ancestors_ok(old(ancestors)@, h, depth as nat, q),
        qa < pow2(h),
        bfs_at == pow2(h) + qa,
        subtree_ok(old(tree)@, h, depth as nat, q),
        pre_offset + ext_inorder(old(tree)@, h, depth as nat, q, value, qa).len() <= old(
            scratch,
        )@.len(),
        old(sim).wf(),
        headroom(old(sim)@, 5 * inorder(old(tree)@, h, depth as nat, q).len() + 1),
    ensures
        moved == ext_inorder(old(tree)@, h, depth as nat, q, value, qa).len(),
        final(scratch)@ == splice(
            old(scratch)@,
            pre_offset as int,
            ext_inorder(old(tree)@, h, depth as nat, q, value, qa),
        ),
        final(tree)@.len() == old(tree)@.len(),
        subtree_empty(final(tree)@, h, depth as nat, q),
        same_slots_outside(old(tree)@, final(tree)@, h, depth as nat, q),
        forall|k: int| 0 <= k < depth ==> #[trigger] final(ancestors)@[k] == old(ancestors)@[k],
        depth < h && present(old(tree)@, h, depth as nat, q) ==> final(ancestors)@[depth as int]
            == pos,
        final(sim).wf(),
        counted_within(
            old(sim)@,
            final(sim)@,
            5 * inorder(old(tree)@, h, depth as nat, q).len() + 1,
        ),
        final(sim).next_free() == old(sim).next_free(),
        final(sim)@ == elem_reads(
            old(sim)@,
            0,
            1,
            gather_reads(
                old(tree)@,
                h,
                depth as nat,
                q,
                value,
                qa,
                tree_addr as nat,
                scratch_addr as nat,
                pre_offset as nat,
            ),
        ),
    decreases h - depth,
{
    let ghost d = depth as nat;
    let ghost t0 = tree@;
    let ghost c0 = scratch@;
    let ghost s0 = sim@;
    let ghost a0 = ancestors@;
    let ghost e = ext_inorder(t0, h, d, q, value, qa);
    let ghost m = inorder(t0, h, d, q).len();
    let ghost budget: nat = 5 * m + 1;
    if depth as usize >= table.len() {
        proof {
            assert(!present(t0, h, d, q));
            assert(e =~= Seq::<u64>::empty());
            lemma_splice_empty(c0, pre_offset as int);
            assert(counted_within(s0, s0, 0));
            lemma_counted_mono(s0, s0, 0, budget);
        }
        return 0;
    }
    let esz = core::mem::size_of::<Option<(usize, u64)>>();
    proof {
        lemma_vpos_bound(h, d, q);
        lemma_full_height(h);
        assert(tree_addr + (pos + 1) * esz <= usize::MAX) by (nonlinear_arith)
            requires
                pos + 1 <= t0.len(),
                tree_addr + t0.len() * esz <= usize::MAX,
        ;
        assert(counted_within(s0, s0, 0));
    }
    touch_counted(sim, tree_addr, pos, esz, Ghost(s0), Ghost(0), Ghost(budget));
    let ghost mut used: nat = 1;
    let ghost slot = slot_addr(tree_addr as nat, vpos(h, d, q));
    let ghost ta = tree_addr as nat;
    let ghost sa = scratch_addr as nat;
    let ghost mut tr: Seq<nat> = seq![slot];
    proof {
        lemma_reads_push(s0, Seq::empty(), slot);
        assert(Seq::<nat>::empty().push(slot) =~= tr);
    }
    if tree[pos].is_none() {
        proof {
            assert(!present(t0, h, d, q));
            lemma_subtree_ok_hangs(t0, h, d, q);
            lemma_absent_subtree(t0, h, d, q);
            assert(e =~= Seq::<u64>::empty());
            lemma_splice_empty(c0, pre_offset as int);
            lemma_counted_mono(s0, sim@, 1, budget);
        }
        return 0;
    }
    ancestors[depth as usize] = pos;
    let ghost key = key_of(t0, h, d, q);
    let ghost lv = if d + 1 == h && 2 * q == qa {
        seq![value]
    } else {
        Seq::<u64>::empty()
    };
    let ghost rv = if d + 1 == h && 2 * q + 1 == qa {
        seq![value]
    } else {
        Seq::<u64>::empty()
    };
    let ghost el = ext_inorder(t0, h, d + 1, 2 * q, value, qa);
    let ghost er = ext_inorder(t0, h, d + 1, 2 * q + 1, value, qa);
    let ghost il = inorder(t0, h, d + 1, 2 * q);
    let ghost ir = inorder(t0, h, d + 1, 2 * q + 1);
    proof {
        lemma_ext_parts(t0, h, d, q, value, qa);
        assert(e == lv + el + seq![key] + rv + er);
        assert(m == il.len() + 1 + ir.len());
        lemma_child_path(d, q);
        lemma_pow2_unfold(d + 1);
        lemma_pow2_unfold(d + 2);
        lemma_height_fits(h);
        if d + 2 < h + 1 {
            lemma_pow2_strictly_increases(d + 2, h + 1);
        }
        lemma_bfs_eq(d + 1, 2 * q, h, qa);
        lemma_bfs_eq(d + 1, 2 * q + 1, h, qa);
        if d == 0 {
            lemma_vpos_root(h, q);
        }
        lemma_ancestors_child(a0, h, d, q, 0, pos);
        lemma_ancestors_child(a0, h, d, q, 1, pos);
        lemma_subtree_ok_child(t0, h, d, q, 0);
        lemma_subtree_ok_child(t0, h, d, q, 1);
        lemma_splice_empty(c0, pre_offset as int);
    }
    let ghost a1 = ancestors@;
    let ghost mut acc: Seq<u64> = Seq::empty();
    let mut offset = pre_offset;
    let bfs_left = 2 * bfs_pos;
    if bfs_left == bfs_at {
        touch_counted(sim, scratch_addr, offset, 8, Ghost(s0), Ghost(used), Ghost(budget));
        proof {
            lemma_splice_push(c0, pre_offset as int, acc, value);
            lemma_reads_push(s0, tr, sa + 8 * (pre_offset as nat));
            tr = tr.push(sa + 8 * (pre_offset as nat));
        }
        scratch.set(offset, value);
        offset = offset + 1;
        proof {
            used = used + 1;
            acc = acc.push(value);
            assert(acc =~= lv);
        }
    } else {
        proof {
            assert(acc =~= lv);
        }
    }
    proof {
        if d + 1 < h {
            lemma_index_formula(table@, h, d + 1, 2 * q, bfs_left, ancestors@);
        }
    }
    let ghost sl = sim@;
    if let Some(left) = veb_index(bfs_left, ancestors, depth + 1, table) {
        proof {
            lemma_room(s0, sl, used, budget, 5 * il.len() + 1);
            assert(pre_offset + acc.len() + el.len() <= c0.len());
        }
        let lm = gather(
            table,
            ancestors,
            tree,
            scratch,
            offset,
            left,
            bfs_left,
            depth + 1,
            value,
            bfs_at,
            sim,
            tree_addr,
            scratch_addr,
            Ghost(h),
            Ghost(2 * q),
            Ghost(qa),
        );
        proof {
            let gl = gather_reads(t0, h, d + 1, 2 * q, value, qa, ta, sa, offset as nat);
            lemma_elem_reads_concat(s0, 0, 1, tr, gl);
            tr = tr + gl;
        }
        offset = offset + lm;
        proof {
            lemma_counted_trans(s0, sl, sim@, used, 5 * il.len() + 1);
            used = used + 5 * il.len() + 1;
            lemma_splice_concat(c0, pre_offset as int, acc, el);
            acc = acc + el;
        }
    } else {
        proof {
            assert(el =~= Seq::<u64>::empty());
            assert(il =~= Seq::<u64>::empty());
            assert(acc + el =~= acc);
            acc = acc + el;
            assert(d + 1 >= h);
            assert(tr + gather_reads(t0, h, d + 1, 2 * q, value, qa, ta, sa, offset as nat) =~= tr);
        }
    }
    let ghost t1 = tree@;
    proof {
        if !(d + 1 < h) {
            assert(t1 == t0);
            assert(subtree_empty(t1, h, d + 1, 2 * q));
            assert(same_slots_outside(t0, t1, h, d + 1, 2 * q));
        }
        assert(t1[pos as int] == t0[pos as int]) by {
            lemma_child_path(d, q);
        }
        assert(scratch@ == splice(c0, pre_offset as int, acc));
        assert(acc == lv + el);
        assert(pre_offset + acc.len() + 1 <= c0.len());
        assert(scratch_addr + (offset + 1) * 8 <= usize::MAX);
    }
    touch_counted(sim, tree_addr, pos, esz, Ghost(s0), Ghost(used), Ghost(budget));
    proof {
        used = used + 1;
        lemma_reads_push(s0, tr, slot);
        tr = tr.push(slot);
    }
    let node = tree[pos].unwrap();
    let pivot = node.1;
    tree.set(pos, None);
    let ghost o2: nat = offset as nat;
    touch_counted(sim, scratch_addr, offset, 8, Ghost(s0), Ghost(used), Ghost(budget));
    proof {
        used = used + 1;
        lemma_splice_push(c0, pre_offset as int, acc, pivot);
        lemma_reads_push(s0, tr, sa + 8 * o2);
        tr = tr.push(sa + 8 * o2);
    }
    scratch.set(offset, pivot);
    offset = offset + 1;
    proof {
        acc = acc.push(pivot);
        assert(pivot == key);
    }
    let bfs_right = 2 * bfs_pos + 1;
    if bfs_right == bfs_at {
        touch_counted(sim, scratch_addr, offset, 8, Ghost(s0), Ghost(used), Ghost(budget));
        proof {
            lemma_splice_push(c0, pre_offset as int, acc, value);
            lemma_reads_push(s0, tr, sa + 8 * (o2 + 1));
            tr = tr.push(sa + 8 * (o2 + 1));
        }
        scratch.set(offset, value);
        offset = offset + 1;
        proof {
            used = used + 1;
            acc = acc.push(value);
            assert(acc =~= lv + el + seq![key] + rv);
        }
    } else {
        proof {
            assert(acc =~= lv + el + seq![key] + rv);
        }
    }
    let ghost t2 = tree@;
    proof {
        lemma_right_untouched(t0, t1, h, d, q);
        lemma_slots_frame(t0, t2, h, d + 1, 2 * q + 1);
        lemma_ext_frame(t0, t2, h, d + 1, 2 * q + 1, value, qa);
        if d + 1 < h {
            lemma_index_formula(table@, h, d + 1, 2 * q + 1, bfs_right, ancestors@);
        }
    }
    let ghost sr = sim@;
    if let Some(right) = veb_index(bfs_right, ancestors, depth + 1, table) {
        proof {
            lemma_room(s0, sr, used, budget, 5 * ir.len() + 1);
        }
        let rm = gather(
            table,
            ancestors,
            tree,
            scratch,
            offset,
            right,
            bfs_right,
            depth + 1,
            value,
            bfs_at,
            sim,
            tree_addr,
            scratch_addr,
            Ghost(h),
            Ghost(2 * q + 1),
            Ghost(qa),
        );
        proof {
            let gr = gather_reads(t2, h, d + 1, 2 * q + 1, value, qa, ta, sa, offset as nat);
            lemma_elem_reads_concat(s0, 0, 1, tr, gr);
            lemma_gather_reads_frame(t0, t2, h, d + 1, 2 * q + 1, value, qa, ta, sa, offset as nat);
            tr = tr + gr;
        }
        offset = offset + rm;
        proof {
            lemma_counted_trans(s0, sr, sim@, used, 5 * ir.len() + 1);
            used = used + 5 * ir.len() + 1;
            lemma_splice_concat(c0, pre_offset as int, acc, er);
            acc = acc + er;
        }
    } else {
        proof {
            assert(er =~= Seq::<u64>::empty());
            assert(ir =~= Seq::<u64>::empty());
            assert(acc + er =~= acc);
            acc = acc + er;
            assert(subtree_empty(tree@, h, d + 1, 2 * q + 1));
            assert(d + 1 >= h);
            assert(tr + gather_reads(t0, h, d + 1, 2 * q + 1, value, qa, ta, sa, offset as nat) =~= tr);
        }
    }
    proof {
        let t3 = tree@;
        assert(t2 == t1.update(vpos(h, d, q) as int, None));
        lemma_clear_children(t0, t1, t3, h, d, q);
        assert(acc =~= e);
        lemma_counted_mono(s0, sim@, used, budget);
        let lvb = d + 1 == h && 2 * q == qa;
        let rvb = d + 1 == h && 2 * q + 1 == qa;
        let o1: nat = if lvb { pre_offset as nat + 1 } else { pre_offset as nat };
        assert(o2 == o1 + el.len());
        let o3: nat = if rvb { o2 + 2 } else { o2 + 1 };
        assert(tr =~= gather_reads(t0, h, d, q, value, qa, ta, sa, pre_offset as nat));
    }
    offset - pre_offset
}


/// The positions that `ancestors_ok` records for a node are those of its
/// ancestor at any shallower depth too.
proof fn lemma_ancestors_restrict(a: Seq<usize>, h: nat, dd: nat, qq: nat, d: nat)
    requires
        ancestors_ok(a, h, dd, qq),
        d <= dd,
        qq < pow2(dd),
        dd >= 1 ==> a[0] == 0,
    ensures
        ancestors_ok(a, h, d, qq / pow2((dd - d) as nat)),
{
    let q = qq / pow2((dd - d) as nat);
    assert forall|k: int| 0 <= k < d implies #[trigger] a[k] == vpos(h, k as nat, q / pow2((d - k) as nat)) by {
        let x = (dd - d) as nat;
        let y = (d - k) as nat;
        lemma_pow2_pos(x);
        lemma_pow2_pos(y);
        lemma_div_denominator(qq as int, pow2(x) as int, pow2(y) as int);
        lemma_pow2_adds(x, y);
        assert(x + y == (dd - k) as nat);
    }
}

/// The address of slot `p` of the slots at `ta`.
pub open spec fn slot_addr(ta: nat, p: nat) -> nat {
    ta + p * slot_bytes()
}

/// The address of the `m`-th slot that `bump_ancestors` reads: the
/// ancestors are read from depth `depth - 1` up to the root.
pub open spec fn bump_addr(ta: nat, anc: Seq<usize>, depth: nat, m: int) -> nat {
    slot_addr(ta, anc[depth - 1 - m] as nat)
}

/// The first `cnt` slots, by address, that `bump_ancestors` reads.
pub open spec fn bump_reads(ta: nat, anc: Seq<usize>, depth: nat, cnt: nat) -> Seq<nat> {
    Seq::new(cnt, |m: int| bump_addr(ta, anc, depth, m))
}

/// Reading one word more, by address.
proof fn lemma_reads_push(s: HierarchyView, a: Seq<nat>, x: nat)
    ensures
        elem_reads(s, 0, 1, a.push(x)) == addr_step(elem_reads(s, 0, 1, a), x, vstd::layout::size_of::<usize>(), false),
{
    lemma_elem_reads_push(s, 0, 1, a, x);
    assert(0 + x * 1 == x);
}


/// Adds one to the size recorded at each of the `depth` slots
/// `ancestors[0 .. depth]`, deepest first, reading each slot as it goes.
#[verifier::spinoff_prover]
fn bump_ancestors(
    tree: &mut Vec<Option<(usize, u64)>>,
    ancestors: &[usize; 64],
    depth: u32,
    sim: &mut Simalloc,
    tree_addr: usize,
    Ghost(s0): Ghost<HierarchyView>,
    Ghost(used): Ghost<nat>,
    Ghost(budget): Ghost<nat>,
)
    requires
        depth <= 64,
        slot_layout_ok(),
        tree_addr % 8 == 0,
        tree_addr + old(tree)@.len() * slot_bytes() <= usize::MAX,
        forall|k: int| 0 <= k < depth ==> #[trigger] ancestors@[k] < old(tree)@.len(),
        forall|k: int, j: int| 0 <= k < j < depth ==> #[trigger] ancestors@[k] != #[trigger] ancestors@[j],
        forall|k: int|
            0 <= k < depth ==> (#[trigger] old(tree)@[ancestors@[k] as int]) is Some && (old(
                tree,
            )@[ancestors@[k] as int]->0).0 < usize::MAX,
        old(sim).wf(),
        headroom(s0, budget),
        counted_within(s0, old(sim)@, used),
        used + depth <= budget,
    ensures
        final(tree)@.len() == old(tree)@.len(),
        forall|k: int|
            0 <= k < depth ==> #[trigger] final(tree)@[ancestors@[k] as int] == Some(
                (
                    ((old(tree)@[ancestors@[k] as int]->0).0 + 1) as usize,
                    (old(tree)@[ancestors@[k] as int]->0).1,
                ),
            ),
        forall|i: int|
            0 <= i < old(tree)@.len() && (forall|k: int| 0 <= k < depth ==> ancestors@[k] != i)
                ==> #[trigger] final(tree)@[i] == old(tree)@[i],
        final(sim).wf(),
        counted_within(s0, final(sim)@, (used + depth) as nat),
        final(sim).next_free() == old(sim).next_free(),
        final(sim)@ == elem_reads(old(sim)@, 0, 1, bump_reads(tree_addr as nat, ancestors@, depth as nat, depth as nat)),
{
    let esz = core::mem::size_of::<Option<(usize, u64)>>();
    let ghost t0 = tree@;
    let ghost s_in = sim@;
    let mut j = depth;
    proof {
        assert(bump_reads(tree_addr as nat, ancestors@, depth as nat, 0) =~= Seq::<nat>::empty());
    }
    while j > 0
        invariant
            j <= depth <= 64,
            esz == slot_bytes(),
            slot_layout_ok(),
            tree_addr % 8 == 0,
            tree_addr + t0.len() * esz <= usize::MAX,
            tree@.len() == t0.len(),
            forall|k: int| 0 <= k < depth ==> #[trigger] ancestors@[k] < t0.len(),
            forall|k: int, i: int| 0 <= k < i < depth ==> #[trigger] ancestors@[k] != #[trigger] ancestors@[i],
            forall|k: int|
                0 <= k < depth ==> (#[trigger] t0[ancestors@[k] as int]) is Some && (t0[ancestors@[k] as int]->0).0
                    < usize::MAX,
            forall|k: int|
                j <= k < depth ==> #[trigger] tree@[ancestors@[k] as int] == Some(
                    (
                        ((t0[ancestors@[k] as int]->0).0 + 1) as usize,
                        (t0[ancestors@[k] as int]->0).1,
                    ),
                ),
            forall|i: int|
                0 <= i < t0.len() && (forall|k: int| j <= k < depth ==> ancestors@[k] != i)
                    ==> #[trigger] tree@[i] == t0[i],
            sim.wf(),
            sim.next_free() == old(sim).next_free(),
            headroom(s0, budget),
            counted_within(s0, sim@, (used + (depth - j)) as nat),
            used + depth <= budget,
            sim@ == elem_reads(s_in, 0, 1, bump_reads(tree_addr as nat, ancestors@, depth as nat, (depth - j) as nat)),
        decreases j,
    {
        j = j - 1;
        let a = ancestors[j as usize];
        let ghost before = bump_reads(tree_addr as nat, ancestors@, depth as nat, (depth - j - 1) as nat);
        proof {
            assert(tree_addr + (a + 1) * esz <= usize::MAX) by (nonlinear_arith)
                requires
                    a + 1 <= t0.len(),
                    tree_addr + t0.len() * esz <= usize::MAX,
            ;
            assert(ancestors@[j as int] == a);
            assert(forall|k: int| (j + 1) as int <= k < depth ==> ancestors@[k] != a);
            assert(tree@[a as int] == t0[a as int]);
        }
        touch_counted(sim, tree_addr, a, esz, Ghost(s0), Ghost((used + (depth - j - 1)) as nat), Ghost(budget));
        proof {
            lemma_reads_push(s_in, before, slot_addr(tree_addr as nat, a as nat));
            assert(before.push(slot_addr(tree_addr as nat, a as nat)) =~= bump_reads(
                tree_addr as nat,
                ancestors@,
                depth as nat,
                (depth - j) as nat,
            ));
        }
        let e = tree[a].unwrap();
        tree.set(a, Some((e.0 + 1, e.1)));
        proof {
            assert forall|i: int|
                0 <= i < t0.len() && (forall|k: int| j <= k < depth ==> ancestors@[k] != i) implies #[trigger] tree@[i]
                == t0[i] by {
                assert(ancestors@[j as int] != i);
            }
        }
    }
}

/// The largest size below which a subtree with `2^(i + 1) - 1` slots,
/// `i + 1` levels above the bottom of a tree of height `hmax`, may take one
/// more key without the tree growing: `floor(slots * density)`, where the
/// density is 0.9 for the two lowest levels and falls by `0.15 / hmax` per
/// level above them.
pub open spec fn density_limit(hmax: nat, i: nat) -> nat {
    let cap = (pow2(i + 1) - 1) as nat;
    let j: nat = if i == 0 {
        0
    } else {
        (i - 1) as nat
    };
    (cap * ((18 * hmax - 3 * j) as nat) / (20 * hmax)) as nat
}

/// The density limit of a subtree with `slots = 2^(i + 1) - 1` slots in a
/// tree of height `hmax` lies between 75% and 90% of its slots, rounded
/// down, and is 90% at the two lowest levels: a subtree there is rebuilt
/// while it would stay below 90% full, and no subtree anywhere is passed
/// over for growth while it would stay below 75% full.
pub proof fn lemma_density_bounds(hmax: nat, i: nat)
    requires
        hmax >= 1,
        i < hmax,
    ensures
        density_limit(hmax, i) >= 3 * ((pow2(i + 1) - 1) as nat) / 4,
        density_limit(hmax, i) <= 9 * ((pow2(i + 1) - 1) as nat) / 10,
        i <= 1 ==> density_limit(hmax, i) == 9 * ((pow2(i + 1) - 1) as nat) / 10,
{
    lemma_pow2_pos(i + 1);
    let cap = (pow2(i + 1) - 1) as nat;
    let j: nat = if i == 0 {
        0
    } else {
        (i - 1) as nat
    };
    let f = (18 * hmax - 3 * j) as nat;
    let d = 20 * hmax;
    assert(15 * hmax <= f <= 18 * hmax);
    assert(cap * (15 * hmax) <= cap * f <= cap * (18 * hmax)) by (nonlinear_arith)
        requires
            15 * hmax <= f <= 18 * hmax,
    ;
    vstd::arithmetic::div_mod::lemma_div_is_ordered((cap * (15 * hmax)) as int, (cap * f) as int, d as int);
    vstd::arithmetic::div_mod::lemma_div_is_ordered((cap * f) as int, (cap * (18 * hmax)) as int, d as int);
    let q = 3 * cap / 4;
    let r = 3 * cap % 4;
    vstd::arithmetic::div_mod::lemma_fundamental_div_mod((3 * cap) as int, 4);
    assert(cap * (15 * hmax) == q * d + r * (5 * hmax)) by (nonlinear_arith)
        requires
            3 * cap == 4 * q + r,
            d == 20 * hmax,
    ;
    assert(r * (5 * hmax) < d) by (nonlinear_arith)
        requires
            r < 4,
            d == 20 * hmax,
            hmax >= 1,
    ;
    vstd::arithmetic::div_mod::lemma_fundamental_div_mod_converse(
        (cap * (15 * hmax)) as int,
        d as int,
        q as int,
        (r * (5 * hmax)) as int,
    );
    let q2 = 9 * cap / 10;
    let r2 = 9 * cap % 10;
    vstd::arithmetic::div_mod::lemma_fundamental_div_mod((9 * cap) as int, 10);
    assert(cap * (18 * hmax) == q2 * d + r2 * (2 * hmax)) by (nonlinear_arith)
        requires
            9 * cap == 10 * q2 + r2,
            d == 20 * hmax,
    ;
    assert(r2 * (2 * hmax) < d) by (nonlinear_arith)
        requires
            r2 < 10,
            d == 20 * hmax,
            hmax >= 1,
    ;
    vstd::arithmetic::div_mod::lemma_fundamental_div_mod_converse(
        (cap * (18 * hmax)) as int,
        d as int,
        q2 as int,
        (r2 * (2 * hmax)) as int,
    );
    assert(density_limit(hmax, i) == (cap * f) / d);
}

/// `density_limit(hmax, i)`, given `cap == 2^(i + 1) - 1`.
fn compute_density_limit(cap: usize, i: usize, hmax: usize) -> (r: usize)
    requires
        cap == pow2((i + 1) as nat) - 1,
        1 <= hmax <= 62,
        i < hmax,
    ensures
        r == density_limit(hmax as nat, i as nat),
        r <= cap,
{
    let j: u128 = if i == 0 { 0 } else { (i - 1) as u128 };
    let f: u128 = 18 * (hmax as u128) - 3 * j;
    proof {
        assert(cap < 0x1_0000_0000_0000_0000);
        assert(f <= 20 * hmax);
        assert((cap as u128) * f <= 0x1_0000_0000_0000_0000 * 1240) by (nonlinear_arith)
            requires
                cap < 0x1_0000_0000_0000_0000,
                f <= 1240,
        ;
    }
    let num: u128 = (cap as u128) * f;
    let den: u128 = 20 * (hmax as u128);
    let r128 = num / den;
    proof {
        assert(r128 <= cap) by (nonlinear_arith)
            requires
                r128 == num / den,
                num == cap * f,
                f <= den,
                den > 0,
        {
            lemma_div_is_ordered(num as int, (cap * den) as int, den as int);
            lemma_div_by_multiple(cap as int, den as int);
        }
    }
    r128 as usize
}


/// Every subtree of a tree in order is in order.
proof fn lemma_tree_ok_subtree(s: Slots, h: nat, d: nat, q: nat)
    requires
        tree_ok(s, h),
    ensures
        subtree_ok(s, h, d, q),
{
}

/// A tree whose root's subtree is in order and whose keys increase is in
/// order.
proof fn lemma_root_subtree(s: Slots, h: nat)
    requires
        subtree_ok(s, h, 0, 0),
        s.len() == pow2(h) - 1,
        strictly_increasing(keys(s, h)),
    ensures
        tree_ok(s, h),
{
    assert forall|d2: nat, q2: nat| q2 < pow2(d2) implies #[trigger] in_subtree(0, 0, d2, q2) by {
        lemma_pow2_pos(d2);
        lemma_basic_div(q2 as int, pow2(d2) as int);
    }
}

/// The words, by address, that `extract` reads to move the keys below the
/// node at depth `d` on the search path `qa` of `v` to the scratch words,
/// with `v` where it goes: the node's slot (for its size), then what
/// `gather` reads.
pub open spec fn extract_reads(t: Slots, h: nat, d: nat, v: u64, qa: nat, ta: nat, sa: nat) -> Seq<nat> {
    let qq = qa / pow2((h - d) as nat);
    seq![slot_addr(ta, vpos(h, d, qq))] + gather_reads(t, h, d, qq, v, qa, ta, sa, 0)
}


/// Moves the keys of the subtree below the node at depth `depth` on the
/// search path of `value` (breadth-first number `bfs_pos`), with `value` put
/// in where the empty child with breadth-first number `bfs_at` hangs, to the
/// front of `scratch`, emptying the subtree. Reads the node's slot for the
/// size it records first. Returns how many keys it moved: one more than
/// that size.
#[verifier::spinoff_prover]
fn extract(
    table: &[TreeInfo],
    tree: &mut Vec<Option<(usize, u64)>>,
    scratch: &mut Vec<u64>,
    ancestors: &mut [usize; 64],
    depth: u32,
    bfs_pos: usize,
    value: u64,
    bfs_at: usize,
    sim: &mut Simalloc,
    tree_addr: usize,
    scratch_addr: usize,
    Ghost(h): Ghost<nat>,
    Ghost(qa): Ghost<nat>,
    Ghost(s0): Ghost<HierarchyView>,
    Ghost(used): Ghost<nat>,
    Ghost(budget): Ghost<nat>,
) -> (k: usize)
    requires
        table_valid(table@, h),
        sim_slots_ok(h, old(tree)@.len(), tree_addr, old(scratch)@.len(), scratch_addr),
        tree_ok(old(tree)@, h),
        qa < pow2(h),
        path_ok(old(tree)@, h, value, h, qa),
        !keys(old(tree)@, h).contains(value),
        depth < h,
        bfs_pos == pow2(depth as nat) + qa / pow2((h - depth) as nat),
        bfs_at == pow2(h) + qa,
        ancestors_ok(old(ancestors)@, h, h, qa),
        inorder(old(tree)@, h, depth as nat, qa / pow2((h - depth) as nat)).len() + 1 <= old(
            scratch,
        )@.len(),
        old(sim).wf(),
        headroom(s0, budget),
        counted_within(s0, old(sim)@, used),
        used + 5 * inorder(old(tree)@, h, depth as nat, qa / pow2((h - depth) as nat)).len() + 2
            <= budget,
    ensures
        ({
            let qq = qa / pow2((h - depth) as nat);
            let e = ext_inorder(old(tree)@, h, depth as nat, qq, value, qa);
            &&& k == inorder(old(tree)@, h, depth as nat, qq).len() + 1
            &&& k == e.len()
            &&& inserted(inorder(old(tree)@, h, depth as nat, qq), e, value)
            &&& final(scratch)@ == splice(old(scratch)@, 0, e)
            &&& final(tree)@.len() == old(tree)@.len()
            &&& subtree_empty(final(tree)@, h, depth as nat, qq)
            &&& same_slots_outside(old(tree)@, final(tree)@, h, depth as nat, qq)
            &&& counted_within(
                s0,
                final(sim)@,
                used + 5 * inorder(old(tree)@, h, depth as nat, qq).len() + 2,
            )
        }),
        forall|j: int| 0 <= j < depth ==> #[trigger] final(ancestors)@[j] == old(ancestors)@[j],
        final(ancestors)@[depth as int] == old(ancestors)@[depth as int],
        final(sim).wf(),
        final(sim).next_free() == old(sim).next_free(),
        final(sim)@ == elem_reads(
            old(sim)@,
            0,
            1,
            extract_reads(old(tree)@, h, depth as nat, value, qa, tree_addr as nat, scratch_addr as nat),
        ),
{
    let ghost t0 = tree@;
    let ghost s_in = sim@;
    let ghost d = depth as nat;
    let ghost qq = qa / pow2((h - d) as nat);
    let ghost m = inorder(t0, h, d, qq).len();
    let esz = core::mem::size_of::<Option<(usize, u64)>>();
    proof {
        lemma_pow2_small();
        lemma_vpos_root(h, 0);
        lemma_ancestor_path(h, qa, d);
        lemma_path_at(t0, h, value, h, qa, d);
        lemma_vpos_root(h, qa / pow2(h));
        assert(ancestors@[0] == vpos(h, 0, qa / pow2((h - 0) as nat)));
        lemma_ancestors_restrict(ancestors@, h, h, qa, d);
        lemma_path_membership(t0, h, value, d, qq);
        lemma_ext_on_path(t0, h, value, qa, d);
        lemma_tree_ok_subtree(t0, h, d, qq);
        lemma_vpos_bound(h, d, qq);
        lemma_inorder_len(t0, h, d, qq);
        lemma_full_height(h);
        if d > 0 {
            lemma_pow2_strictly_increases((h - d) as nat, h);
        }
        assert(tree_addr + (ancestors@[d as int] + 1) * esz <= usize::MAX) by (nonlinear_arith)
            requires
                ancestors@[d as int] + 1 <= t0.len(),
                tree_addr + t0.len() * esz <= usize::MAX,
        ;
    }
    let pos = ancestors[depth as usize];
    touch_counted(sim, tree_addr, pos, esz, Ghost(s0), Ghost(used), Ghost(budget));
    let num_elements = tree[pos].unwrap().0 + 1;
    let ghost sg = sim@;
    let ghost first = seq![slot_addr(tree_addr as nat, vpos(h, d, qq))];
    proof {
        lemma_room(s0, sg, used + 1, budget, 5 * m + 1);
        lemma_reads_push(s_in, Seq::empty(), slot_addr(tree_addr as nat, vpos(h, d, qq)));
        assert(Seq::<nat>::empty().push(slot_addr(tree_addr as nat, vpos(h, d, qq))) =~= first);
    }
    let moved = gather(
        table,
        ancestors,
        tree,
        scratch,
        0,
        pos,
        bfs_pos,
        depth,
        value,
        bfs_at,
        sim,
        tree_addr,
        scratch_addr,
        Ghost(h),
        Ghost(qq),
        Ghost(qa),
    );
    proof {
        lemma_counted_trans(s0, sg, sim@, used + 1, 5 * m + 1);
        assert(moved == num_elements);
        lemma_elem_reads_concat(
            s_in,
            0,
            1,
            first,
            gather_reads(t0, h, d, qq, value, qa, tree_addr as nat, scratch_addr as nat, 0),
        );
    }
    moved
}


/// The slots that `ancestors_ok` records above a node on the search path
/// of `v` are the ancestors' slots: inside the tree, distinct, holding a key
/// and a size with room for one more, and untouched by changes below the
/// node.
proof fn lemma_ancestor_slots(t0: Slots, tl: Slots, h: nat, v: u64, dd: nat, qq: nat, a: Seq<usize>)
    requires
        tree_ok(t0, h),
        t0.len() < usize::MAX,
        path_ok(t0, h, v, dd, qq),
        qq < pow2(dd),
        dd < h,
        ancestors_ok(a, h, dd, qq),
        tl.len() == t0.len(),
        same_slots_outside(t0, tl, h, dd, qq),
    ensures
        forall|k: int| 0 <= k < dd ==> #[trigger] a[k] < tl.len(),
        forall|k: int, j: int| 0 <= k < j < dd ==> #[trigger] a[k] != #[trigger] a[j],
        forall|k: int|
            0 <= k < dd ==> (#[trigger] tl[a[k] as int]) is Some && (tl[a[k] as int]->0).0 < usize::MAX
                && tl[a[k] as int] == t0[a[k] as int],
        forall|k: int| 0 <= k < dd ==> #[trigger] a[k] == vpos(h, k as nat, anc(qq, dd, k as nat)),
{
    assert forall|k: int| 0 <= k < dd implies #[trigger] a[k] < tl.len() && a[k] == vpos(
        h,
        k as nat,
        anc(qq, dd, k as nat),
    ) && tl[a[k] as int] is Some && (tl[a[k] as int]->0).0 < usize::MAX && tl[a[k] as int] == t0[a[k] as int] by {
        let kk = k as nat;
        lemma_ancestor_path(dd, qq, kk);
        lemma_vpos_bound(h, kk, anc(qq, dd, kk));
        lemma_path_at(t0, h, v, dd, qq, kk);
        assert(!in_subtree(dd, qq, kk, anc(qq, dd, kk)));
        assert(tl[vpos(h, kk, anc(qq, dd, kk)) as int] == t0[vpos(h, kk, anc(qq, dd, kk)) as int]);
        lemma_inorder_len(t0, h, kk, anc(qq, dd, kk));
        if kk > 0 {
            lemma_pow2_strictly_increases((h - kk) as nat, h);
        }
    }
    assert forall|k: int, j: int| 0 <= k < j < dd implies #[trigger] a[k] != #[trigger] a[j] by {
        lemma_ancestor_path(dd, qq, k as nat);
        lemma_ancestor_path(dd, qq, j as nat);
        if a[k] == a[j] {
            lemma_vpos_injective(h, k as nat, anc(qq, dd, k as nat), j as nat, anc(qq, dd, j as nat));
        }
    }
}

/// A subtree on the search path of `v` rebuilt in order with `v` put in,
/// and the sizes at its ancestors bumped, leave a tree in order holding its
/// keys and `v`.
proof fn lemma_rebuild_compose(
    t0: Slots,
    tl: Slots,
    tf: Slots,
    h: nat,
    v: u64,
    dd: nat,
    qq: nat,
    a: Seq<usize>,
)
    requires
        tree_ok(t0, h),
        t0.len() < usize::MAX,
        path_ok(t0, h, v, dd, qq),
        qq < pow2(dd),
        dd < h,
        ancestors_ok(a, h, dd, qq),
        tl.len() == t0.len(),
        same_slots_outside(t0, tl, h, dd, qq),
        subtree_ok(tl, h, dd, qq),
        present(tl, h, dd, qq),
        inserted(inorder(t0, h, dd, qq), inorder(tl, h, dd, qq), v),
        tf.len() == tl.len(),
        forall|k: int|
            0 <= k < dd ==> #[trigger] tf[a[k] as int] == Some(
                (((tl[a[k] as int]->0).0 + 1) as usize, (tl[a[k] as int]->0).1),
            ),
        forall|i: int|
            0 <= i < tl.len() && (forall|k: int| 0 <= k < dd ==> a[k] != i) ==> #[trigger] tf[i]
                == tl[i],
    ensures
        tree_ok(tf, h),
        inserted(keys(t0, h), keys(tf, h), v),
{
    lemma_ancestor_slots(t0, tl, h, v, dd, qq, a);
    // inside the subtree, nothing was bumped
    assert forall|d2: nat, q2: nat|
        #![trigger tl[vpos(h, d2, q2) as int]]
        #![trigger tf[vpos(h, d2, q2) as int]]
        in_subtree(dd, qq, d2, q2) && d2 < h && q2 < pow2(d2) implies tl[vpos(h, d2, q2) as int]
        == tf[vpos(h, d2, q2) as int] by {
        lemma_vpos_bound(h, d2, q2);
        assert forall|k: int| 0 <= k < dd implies a[k] != vpos(h, d2, q2) by {
            lemma_ancestor_path(dd, qq, k as nat);
            if a[k] == vpos(h, d2, q2) {
                lemma_vpos_injective(h, d2, q2, k as nat, anc(qq, dd, k as nat));
            }
        }
    }
    lemma_slots_frame(tl, tf, h, dd, qq);
    assert forall|d2: nat, q2: nat|
        d2 < h && q2 < pow2(d2) && !in_subtree(dd, qq, d2, q2) && !in_subtree(d2, q2, dd, qq)
            implies #[trigger] tf[vpos(h, d2, q2) as int] == t0[vpos(h, d2, q2) as int] by {
        lemma_vpos_bound(h, d2, q2);
        assert forall|k: int| 0 <= k < dd implies a[k] != vpos(h, d2, q2) by {
            lemma_ancestor_path(dd, qq, k as nat);
            if a[k] == vpos(h, d2, q2) {
                lemma_vpos_injective(h, d2, q2, k as nat, anc(qq, dd, k as nat));
                assert(in_subtree(d2, q2, dd, qq));
            }
        }
        assert(tl[vpos(h, d2, q2) as int] == t0[vpos(h, d2, q2) as int]);
    }
    assert forall|k: nat| k < dd implies #[trigger] tf[vpos(h, k, anc(qq, dd, k)) as int] == Some(
        (
            ((t0[vpos(h, k, anc(qq, dd, k)) as int]->0).0 + 1) as usize,
            (t0[vpos(h, k, anc(qq, dd, k)) as int]->0).1,
        ),
    ) by {
        assert(a[k as int] == vpos(h, k, anc(qq, dd, k)));
        assert(tl[a[k as int] as int] == t0[a[k as int] as int]);
    }
    assert(changed_below(t0, tf, h, dd, qq));
    lemma_rebuild(t0, tf, h, v, dd, qq);
}


/// `n` scratch words.
fn scratch_words(n: usize) -> (v: Vec<u64>)
    ensures
        v@.len() == n,
{
    let mut v: Vec<u64> = Vec::new();
    let mut i: usize = 0;
    while i < n
        invariant
            i <= n,
            v@.len() == i,
        decreases n - i,
    {
        v.push(0);
        i = i + 1;
    }
    v
}

/// A power of two that, with room for eight doublings, fits a `usize`
/// leaves that many bits to spare.
proof fn lemma_bits_to_spare(h: nat)
    requires
        256 * pow2(h) <= usize::MAX,
    ensures
        h + 3 < usize::BITS,
{
    lemma_pow2_adds(h, 8);
    lemma2_to64();
    lemma_pow2_below_usize(h + 3, h + 8);
}


/// The address of the `m`-th ancestor slot read on the way up from the
/// node at depth `dd` on the path `qa` to depth `h`.
pub open spec fn up_addr(ta: nat, h: nat, qa: nat, dd: nat, m: int) -> nat {
    slot_addr(ta, vpos(h, (dd - 1 - m) as nat, qa / pow2((h - (dd - 1 - m)) as nat)))
}

/// The slots, by address, of the ancestors of the node at depth `dd` on the
/// path `qa` to depth `h`, from depth `dd - 1` up to the root.
pub open spec fn ancestors_up(ta: nat, h: nat, qa: nat, dd: nat) -> Seq<nat> {
    Seq::new(dd, |m: int| up_addr(ta, h, qa, dd, m))
}

proof fn lemma_bump_reads_up(ta: nat, a: Seq<usize>, h: nat, qa: nat, dd: nat)
    requires
        ancestors_ok(a, h, h, qa),
        dd <= h,
    ensures
        bump_reads(ta, a, dd, dd) == ancestors_up(ta, h, qa, dd),
{
    assert forall|m: int| 0 <= m < dd implies #[trigger] bump_reads(ta, a, dd, dd)[m] == ancestors_up(ta, h, qa, dd)[m] by {
        let k = dd - 1 - m;
        assert(a[k] == vpos(h, k as nat, qa / pow2((h - k) as nat)));
    }
    assert(bump_reads(ta, a, dd, dd) =~= ancestors_up(ta, h, qa, dd));
}

/// The words, by address, that `rebuild_subtree` reads to put `v` in below
/// the node at depth `dd` on its search path `qa`: the extraction's, the
/// layout's, then the ancestors' slots from the deepest up.
pub open spec fn rebuild_reads(t: Slots, h: nat, dd: nat, v: u64, qa: nat, ta: nat, sa: nat) -> Seq<nat> {
    let qq = qa / pow2((h - dd) as nat);
    let k = ext_inorder(t, h, dd, qq, v, qa).len();
    extract_reads(t, h, dd, v, qa, ta, sa) + layout_reads(h, dd, qq, 0, k, ta, sa) + ancestors_up(ta, h, qa, dd)
}

/// The addresses of the first `n` slots at `ta`.
pub open spec fn fresh_slots(ta: nat, n: nat) -> Seq<nat> {
    Seq::new(n, |j: int| slot_addr(ta, j as nat))
}

/// The words, by address, that `grow` reads to rebuild a tree of height `h`
/// with slots at `ta` and `v` put in at the empty child on the path `qa`,
/// when the next free address is `nf`: the extraction of every key into
/// fresh scratch words at `nf`, every slot of fresh tree memory right after
/// them written empty, then the layout of the keys there.
pub open spec fn grow_reads(t: Slots, h: nat, v: u64, qa: nat, ta: nat, nf: nat) -> Seq<nat> {
    let n2 = 2 * t.len() + 1;
    let ta2 = round16(nf + n2 * 8);
    let k = ext_inorder(t, h, 0, qa / pow2(h), v, qa).len();
    extract_reads(t, h, 0, v, qa, ta, nf) + fresh_slots(ta2, n2) + layout_reads(h + 1, 0, 0, 0, k, ta2, nf)
}

/// Where the walk up from the empty child on the path `qa` stops, scanning
/// from the `i`-th ancestor on (the one at depth `h - 1 - i`): at the first
/// whose subtree stays below its density limit with one more key, if any.
pub open spec fn rebalance_stop(t: Slots, h: nat, qa: nat, i: nat) -> Option<nat>
    decreases h - i,
{
    if i >= h {
        None
    } else {
        let d = (h - 1 - i) as nat;
        if count_of(t, h, d, qa / pow2((h - d) as nat)) + 1 < density_limit(h, i) {
            Some(i)
        } else {
            rebalance_stop(t, h, qa, i + 1)
        }
    }
}

/// The words, by address, that `rebalance_and_insert` reads: the slots of
/// the ancestors it walks up through, then the rebuild of the subtree where
/// it stops, or, where it does not, the growth of the whole tree.
pub open spec fn rebalance_reads(t: Slots, h: nat, v: u64, qa: nat, ta: nat, sa: nat, nf: nat) -> Seq<nat> {
    let up = ancestors_up(ta, h, qa, h);
    match rebalance_stop(t, h, qa, 0) {
        Some(i) => up.take(i + 1 as int) + rebuild_reads(t, h, (h - 1 - i) as nat, v, qa, ta, sa),
        None => up + grow_reads(t, h, v, qa, ta, nf),
    }
}

/// The slots, by address, of the ancestors of the node at depth `d` with
/// path `q`, from depth `d - 1` up to the root.
pub open spec fn path_up(ta: nat, h: nat, d: nat, q: nat) -> Seq<nat> {
    Seq::new(d, |m: int| path_up_addr(ta, h, d, q, m))
}

/// The `m`-th address of `path_up`.
pub open spec fn path_up_addr(ta: nat, h: nat, d: nat, q: nat, m: int) -> nat {
    slot_addr(ta, vpos(h, (d - 1 - m) as nat, q / pow2((d - (d - 1 - m)) as nat)))
}

proof fn lemma_bump_reads_path(ta: nat, a: Seq<usize>, h: nat, d: nat, q: nat)
    requires
        ancestors_ok(a, h, d, q),
    ensures
        bump_reads(ta, a, d, d) == path_up(ta, h, d, q),
{
    assert forall|m: int| 0 <= m < d implies #[trigger] bump_reads(ta, a, d, d)[m] == path_up(ta, h, d, q)[m] by {
        let k = d - 1 - m;
        assert(a[k] == vpos(h, k as nat, q / pow2((d - k) as nat)));
    }
    assert(bump_reads(ta, a, d, d) =~= path_up(ta, h, d, q));
}

/// The addresses of the slots at positions `ps` of the slots at `ta`.
pub open spec fn slot_addrs(ta: nat, ps: Seq<nat>) -> Seq<nat> {
    Seq::new(ps.len(), |k: int| slot_addr(ta, ps[k]))
}

/// Reading the slots at positions `ps` is reading the words at their
/// addresses.
proof fn lemma_slot_addrs(s: HierarchyView, ta: nat, ps: Seq<nat>)
    ensures
        elem_reads(s, ta, slot_bytes(), ps) == elem_reads(s, 0, 1, slot_addrs(ta, ps)),
    decreases ps.len(),
{
    if ps.len() > 0 {
        lemma_slot_addrs(s, ta, ps.drop_last());
        assert(slot_addrs(ta, ps).drop_last() =~= slot_addrs(ta, ps.drop_last()));
        lemma_reads_push(s, slot_addrs(ta, ps.drop_last()), slot_addr(ta, ps.last()));
        assert(slot_addrs(ta, ps.drop_last()).push(slot_addr(ta, ps.last())) =~= slot_addrs(ta, ps));
    } else {
        assert(slot_addrs(ta, ps) =~= Seq::<nat>::empty());
    }
}

impl Tree {
    /// Rebuilds, balanced and with `value` put in, the subtree below the
    /// ancestor at depth `d` (breadth-first number `bfs_pos`) of the empty
    /// child with breadth-first number `bfs_at` that the search for `value`
    /// reached below the last level, then adds one to the size recorded at
    /// each node above it.
    #[verifier::spinoff_prover]
    fn rebuild_subtree(
        &mut self,
        lookup: &Vec<TreeInfo>,
        ancestors: &mut [usize; 64],
        d: u32,
        bfs_pos: usize,
        value: u64,
        bfs_at: usize,
        sim: &mut Simalloc,
        Ghost(qa): Ghost<nat>,
        Ghost(s0): Ghost<HierarchyView>,
        Ghost(used): Ghost<nat>,
        Ghost(budget): Ghost<nat>,
    )
        requires
            old(self).wf(),
            table_valid(lookup@, old(self).height()),
            1 <= old(self).height() <= 61,
            d < old(self).height(),
            qa < pow2(old(self).height()),
            bfs_pos == pow2(d as nat) + qa / pow2((old(self).height() - d) as nat),
            bfs_at == pow2(old(self).height()) + qa,
            path_ok(old(self).tree@, old(self).height(), value, old(self).height(), qa),
            ancestors_ok(old(ancestors)@, old(self).height(), old(self).height(), qa),
            old(ancestors)@[0] == 0,
            !old(self)@.contains(value),
            inorder(
                old(self).tree@,
                old(self).height(),
                d as nat,
                qa / pow2((old(self).height() - d) as nat),
            ).len() + 1 < pow2((old(self).height() - d) as nat),
            old(sim).wf(),
            headroom(s0, budget),
            counted_within(s0, old(sim)@, used),
            used + 7 * old(self).capacity() + 4 + old(self).height() <= budget,
        ensures
            final(self).wf(),
            final(self).capacity() == old(self).capacity(),
            inserted(old(self)@, final(self)@, value),
            final(sim).wf(),
            counted_within(s0, final(sim)@, used + 7 * old(self).capacity() + 4 + old(self).height()),
            final(sim).next_free() == old(sim).next_free(),
            final(sim)@ == elem_reads(
                old(sim)@,
                0,
                1,
                rebuild_reads(
                    old(self).tree@,
                    old(self).height(),
                    d as nat,
                    value,
                    qa,
                    old(self).tree_addr as nat,
                    old(self).scratch_addr as nat,
                ),
            ),
    {
        let ghost t0 = self.tree@;
        let ghost h = self.height();
        let ghost n = t0.len();
        let ghost s_in = sim@;
        let ghost ta = self.tree_addr as nat;
        let ghost sa = self.scratch_addr as nat;
        let ghost dd = d as nat;
        let ghost qq = qa / pow2((h - dd) as nat);
        let ghost m = inorder(t0, h, dd, qq).len();
        let ghost a0 = ancestors@;
        proof {
            lemma_full_height(h);
            lemma_ancestor_path(h, qa, dd);
            lemma_path_at(t0, h, value, h, qa, dd);
            lemma_inorder_len(t0, h, dd, qq);
            if dd > 0 {
                lemma_pow2_strictly_increases((h - dd) as nat, h);
            }
            lemma_pow2_strictly_increases((h - dd) as nat, h + 1);
        }
        let k = extract(
            lookup.as_slice(),
            &mut self.tree,
            &mut self.scratch,
            ancestors,
            d,
            bfs_pos,
            value,
            bfs_at,
            sim,
            self.tree_addr,
            self.scratch_addr,
            Ghost(h),
            Ghost(qa),
            Ghost(s0),
            Ghost(used),
            Ghost(budget),
        );
        let ghost te = self.tree@;
        let ghost e = ext_inorder(t0, h, dd, qq, value, qa);
        let ghost sl = sim@;
        proof {
            lemma_ancestors_restrict(a0, h, h, qa, dd);
            assert(ancestors_ok(ancestors@, h, dd, qq));
            lemma_room(s0, sl, used + 5 * m + 2, budget, 2 * k as nat);
            assert(self.scratch@.subrange(0, k as int) =~= e);
        }
        layout(
            lookup.as_slice(),
            &self.scratch,
            0,
            k,
            d,
            bfs_pos,
            ancestors,
            &mut self.tree,
            sim,
            self.tree_addr,
            self.scratch_addr,
            Ghost(h),
            Ghost(qq),
        );
        let ghost tl = self.tree@;
        let ghost used2: nat = used + 5 * m + 2 + 2 * k as nat;
        proof {
            lemma_counted_trans(s0, sl, sim@, used + 5 * m + 2, 2 * k as nat);
            assert(ancestors_ok(ancestors@, h, dd, qq));
            assert forall|d2: nat, q2: nat|
                d2 < h && q2 < pow2(d2) && !in_subtree(dd, qq, d2, q2) implies #[trigger] tl[vpos(
                h,
                d2,
                q2,
            ) as int] == t0[vpos(h, d2, q2) as int] by {
                assert(te[vpos(h, d2, q2) as int] == t0[vpos(h, d2, q2) as int]);
            }
            lemma_ancestor_slots(t0, tl, h, value, dd, qq, ancestors@);
        }
        bump_ancestors(
            &mut self.tree,
            ancestors,
            d,
            sim,
            self.tree_addr,
            Ghost(s0),
            Ghost(used2),
            Ghost(budget),
        );
        proof {
            lemma_rebuild_compose(t0, tl, self.tree@, h, value, dd, qq, ancestors@);
            lemma_counted_mono(s0, sim@, used2 + dd, used + 7 * n + 4 + h);
            let xr = extract_reads(t0, h, dd, value, qa, ta, sa);
            let lr = layout_reads(h, dd, qq, 0, k as nat, ta, sa);
            lemma_elem_reads_concat(s_in, 0, 1, xr, lr);
            assert forall|j: int| 0 <= j < dd implies #[trigger] ancestors@[j] == a0[j] by {}
            assert forall|j: int| 0 <= j < dd implies #[trigger] bump_reads(ta, ancestors@, dd, dd)[j]
                == bump_reads(ta, a0, dd, dd)[j] by {
                assert(ancestors@[dd - 1 - j] == a0[dd - 1 - j]);
            }
            assert(bump_reads(ta, ancestors@, dd, dd) =~= bump_reads(ta, a0, dd, dd));
            lemma_bump_reads_up(ta, a0, h, qa, dd);
            lemma_elem_reads_concat(s_in, 0, 1, xr + lr, ancestors_up(ta, h, qa, dd));
        }
    }

    /// Rebuilds the whole tree, with `value` put in where the search for it
    /// ended below the last level (breadth-first number `bfs_at`), in twice
    /// as many slots plus one: fresh scratch memory, the keys moved there,
    /// fresh tree memory with every slot written empty, the keys laid out,
    /// and fresh scratch memory once more.
    #[verifier::rlimit(100)]
    #[verifier::spinoff_prover]
    fn grow(
        &mut self,
        lookup: &Vec<TreeInfo>,
        ancestors: &mut [usize; 64],
        value: u64,
        bfs_at: usize,
        sim: &mut Simalloc,
        Ghost(qa): Ghost<nat>,
        Ghost(s0): Ghost<HierarchyView>,
        Ghost(used): Ghost<nat>,
        Ghost(budget): Ghost<nat>,
    )
        requires
            old(self).wf(),
            table_valid(lookup@, old(self).height()),
            1 <= old(self).height() <= 61,
            qa < pow2(old(self).height()),
            bfs_at == pow2(old(self).height()) + qa,
            path_ok(old(self).tree@, old(self).height(), value, old(self).height(), qa),
            ancestors_ok(old(ancestors)@, old(self).height(), old(self).height(), qa),
            old(ancestors)@[0] == 0,
            !old(self)@.contains(value),
            old(sim).wf(),
            old(sim).next_free() + 256 * (old(self).capacity() + 1) <= usize::MAX,
            headroom(s0, budget),
            counted_within(s0, old(sim)@, used),
            used + 9 * old(self).capacity() + 5 <= budget,
        ensures
            final(self).wf(),
            final(self).capacity() == 2 * old(self).capacity() + 1,
            inserted(old(self)@, final(self)@, value),
            final(sim).wf(),
            counted_within(s0, final(sim)@, used + 9 * old(self).capacity() + 5),
            final(sim).next_free() >= old(sim).next_free(),
            final(sim)@ == elem_reads(
                old(sim)@,
                0,
                1,
                grow_reads(
                    old(self).tree@,
                    old(self).height(),
                    value,
                    qa,
                    old(self).tree_addr as nat,
                    old(sim).next_free(),
                ),
            ),
    {
        let n = self.tree.len();
        let ghost t0 = self.tree@;
        let ghost h = self.height();
        let ghost nk = keys(t0, h).len();
        let ghost s_in = sim@;
        let ghost ta = self.tree_addr as nat;
        let esz = core::mem::size_of::<Option<(usize, u64)>>();
        proof {
            lemma_full_height(h);
            lemma_bits_to_spare(h);
            lemma_inorder_len(t0, h, 0, 0);
            lemma_pow2_small();
            assert(qa / pow2(h) == 0) by {
                lemma_basic_div(qa as int, pow2(h) as int);
            }
            assert((2 * n + 1) * esz <= 64 * (2 * n + 1)) by (nonlinear_arith)
                requires
                    esz <= 64,
            ;
        }
        let new_len = (n + 1) * 2 - 1;
        let ghost nf0 = sim.next_free();
        let saddr = sim.alloc_bytes(new_len * 8);
        let ghost nf1 = sim.next_free();
        self.scratch = scratch_words(new_len);
        self.scratch_addr = saddr;
        let k = extract(
            lookup.as_slice(),
            &mut self.tree,
            &mut self.scratch,
            ancestors,
            0,
            1,
            value,
            bfs_at,
            sim,
            self.tree_addr,
            self.scratch_addr,
            Ghost(h),
            Ghost(qa),
            Ghost(s0),
            Ghost(used),
            Ghost(budget),
        );
        let ghost e = ext_inorder(t0, h, 0, 0, value, qa);
        let ghost used1: nat = used + 5 * nk + 2;
        let ghost xr = extract_reads(t0, h, 0, value, qa, ta, nf0);
        proof {
            assert(nf1 + new_len * esz + 16 <= usize::MAX);
        }
        let taddr = sim.alloc_bytes(new_len * esz);
        let ghost nf2 = sim.next_free();
        let mut fresh: Vec<Option<(usize, u64)>> = Vec::new();
        let mut j: usize = 0;
        proof {
            assert(xr + fresh_slots(taddr as nat, 0) =~= xr);
        }
        while j < new_len
            invariant
                j <= new_len,
                new_len == 2 * n + 1,
                fresh@.len() == j,
                forall|x: int| 0 <= x < j ==> #[trigger] fresh@[x] is None,
                esz == slot_bytes(),
                slot_layout_ok(),
                taddr % 8 == 0,
                taddr + new_len * esz <= usize::MAX,
                sim.wf(),
                sim.next_free() == nf2,
                headroom(s0, budget),
                counted_within(s0, sim@, (used1 + j) as nat),
                used1 + new_len + 2 * (nk + 1) <= budget,
                sim@ == elem_reads(s_in, 0, 1, xr + fresh_slots(taddr as nat, j as nat)),
            decreases new_len - j,
        {
            proof {
                assert(taddr + (j + 1) * esz <= usize::MAX) by (nonlinear_arith)
                    requires
                        j + 1 <= new_len,
                        taddr + new_len * esz <= usize::MAX,
                ;
            }
            touch_counted(sim, taddr, j, esz, Ghost(s0), Ghost((used1 + j) as nat), Ghost(budget));
            proof {
                lemma_reads_push(s_in, xr + fresh_slots(taddr as nat, j as nat), slot_addr(taddr as nat, j as nat));
                assert((xr + fresh_slots(taddr as nat, j as nat)).push(slot_addr(taddr as nat, j as nat))
                    =~= xr + fresh_slots(taddr as nat, (j + 1) as nat));
            }
            fresh.push(None);
            j = j + 1;
        }
        self.tree = fresh;
        self.tree_addr = taddr;
        let ghost h2: nat = h + 1;
        proof {
            lemma_full_height(h2);
            lemma_pow2_unfold(h2);
            assert(new_len == pow2(h2) - 1);
            assert(ancestors_ok(ancestors@, h2, 0, 0));
            assert forall|d2: nat, q2: nat|
                in_subtree(0, 0, d2, q2) && d2 < h2 && q2 < pow2(d2) implies #[trigger] self.tree@[vpos(
                h2,
                d2,
                q2,
            ) as int] is None by {
                lemma_vpos_bound(h2, d2, q2);
            }
            assert(self.scratch@.subrange(0, k as int) =~= e);
            lemma_room(s0, sim@, (used1 + new_len) as nat, budget, 2 * k as nat);
        }
        let lookup2 = table(new_len);
        let ghost sl = sim@;
        layout(
            lookup2.as_slice(),
            &self.scratch,
            0,
            k,
            0,
            1,
            ancestors,
            &mut self.tree,
            sim,
            self.tree_addr,
            self.scratch_addr,
            Ghost(h2),
            Ghost(0),
        );
        proof {
            lemma_counted_trans(s0, sl, sim@, (used1 + new_len) as nat, 2 * k as nat);
            lemma_counted_mono(s0, sim@, (used1 + new_len + 2 * k) as nat, (used + 9 * n + 5) as nat);
            assert(nf2 + new_len * 8 + 16 <= usize::MAX);
            let fr = fresh_slots(taddr as nat, new_len as nat);
            let lr = layout_reads(h2, 0, 0, 0, k as nat, taddr as nat, saddr as nat);
            lemma_elem_reads_concat(s_in, 0, 1, xr + fr, lr);
            assert(saddr == nf0);
            assert(taddr == round16((nf0 + new_len * 8) as nat));
            assert(new_len == 2 * t0.len() + 1);
        }
        let saddr2 = sim.alloc_bytes(new_len * 8);
        self.scratch = scratch_words(new_len);
        self.scratch_addr = saddr2;
        proof {
            let tf = self.tree@;
            assert(keys(tf, h2) == e);
            lemma_root_subtree(tf, h2);
            assert(self.height() == h2);
        }
    }

    /// Puts `value` in below the last level, at the empty child with
    /// breadth-first number `bfs_at` that the search for it reached.
    /// Walking up from there, reading each ancestor's slot, the first
    /// ancestor whose subtree would stay below its density limit (see
    /// `density_limit`) with one more key has its subtree rebuilt with
    /// `value` in it. When there is none, the tree grows.
    #[verifier::rlimit(60)]
    #[verifier::spinoff_prover]
    fn rebalance_and_insert(
        &mut self,
        ancestors: &mut [usize; 64],
        depth: u32,
        value: u64,
        bfs_at: usize,
        sim: &mut Simalloc,
        Ghost(qa): Ghost<nat>,
    )
        requires
            old(self).wf(),
            old(self).capacity() > 0,
            old(self).capacity() < 0x2000_0000_0000_0000,
            depth == old(self).height(),
            qa < pow2(old(self).height()),
            bfs_at == pow2(old(self).height()) + qa,
            path_ok(old(self).tree@, old(self).height(), value, old(self).height(), qa),
            ancestors_ok(old(ancestors)@, old(self).height(), old(self).height(), qa),
            !old(self)@.contains(value),
            old(sim).wf(),
            old(sim).next_free() + 256 * (old(self).capacity() + 1) <= usize::MAX,
            headroom(old(sim)@, 9 * old(self).capacity() + 128),
        ensures
            final(self).wf(),
            inserted(old(self)@, final(self)@, value),
            rebalance_stop(old(self).tree@, old(self).height(), qa, 0) is Some
                ==> final(self).capacity() == old(self).capacity(),
            rebalance_stop(old(self).tree@, old(self).height(), qa, 0) is None
                ==> final(self).capacity() == 2 * old(self).capacity() + 1,
            final(sim).wf(),
            counted_within(old(sim)@, final(sim)@, 9 * old(self).capacity() + 128),
            final(sim).next_free() >= old(sim).next_free(),
            final(sim)@ == elem_reads(
                old(sim)@,
                0,
                1,
                rebalance_reads(
                    old(self).tree@,
                    old(self).height(),
                    value,
                    qa,
                    old(self).tree_addr as nat,
                    old(self).scratch_addr as nat,
                    old(sim).next_free(),
                ),
            ),
    {
        let n = self.tree.len();
        let ghost t0 = self.tree@;
        let ghost h = self.height();
        let ghost s0 = sim@;
        let ghost a0 = ancestors@;
        let ghost ta = self.tree_addr as nat;
        let ghost sa0 = self.scratch_addr as nat;
        let ghost up = ancestors_up(ta, h, qa, h);
        let ghost budget: nat = (9 * n + 128) as nat;
        let esz = core::mem::size_of::<Option<(usize, u64)>>();
        proof {
            lemma_full_height(h);
            lemma_pow2_small();
            assert(h >= 1) by {
                if h == 0 {
                    assert(n == 0);
                }
            }
            lemma_vpos_root(h, qa / pow2(h));
            assert(ancestors@[0] == vpos(h, 0, qa / pow2((h - 0) as nat)));
            lemma_pow2_unfold(h);
            lemma_height_fits(h);
            lemma2_to64();
            if h > 61 {
                lemma_pow2_strictly_increases(61, h);
            }
        }
        let lookup = table(n);
        let hmax = lookup.len();
        let mut i: usize = 0;
        let mut pow2v: usize = 2;
        let mut bfs_pos = bfs_at / 2;
        let mut d: u32 = depth;
        proof {
            assert(counted_within(s0, sim@, 0));
            lemma_parent_path(h, qa);
            lemma_pow2_unfold(1);
            assert(qa / pow2(1) == qa / 2);
            assert(up.take(0) =~= Seq::<nat>::empty());
        }
        while d > 0
            invariant
                self.wf(),
                *self == *old(self),
                self.tree@ == t0,
                n == t0.len(),
                n == pow2(h) - 1,
                h == self.height(),
                1 <= h <= 61,
                hmax == h,
                table_valid(lookup@, h),
                esz == slot_bytes(),
                d + i == h,
                pow2v == pow2((i + 1) as nat),
                d > 0 ==> bfs_pos == pow2((d - 1) as nat) + qa / pow2((h - d + 1) as nat),
                ancestors@ == a0,
                ancestors_ok(a0, h, h, qa),
                a0[0] == 0,
                qa < pow2(h),
                bfs_at == pow2(h) + qa,
                path_ok(t0, h, value, h, qa),
                !keys(t0, h).contains(value),
                sim.wf(),
                sim.next_free() == old(sim).next_free(),
                old(sim)@ == s0,
                old(sim).next_free() + 256 * (n + 1) <= usize::MAX,
                headroom(s0, budget),
                budget == 9 * n + 128,
                counted_within(s0, sim@, i as nat),
                ta == self.tree_addr,
                sa0 == self.scratch_addr,
                up == ancestors_up(ta, h, qa, h),
                sim@ == elem_reads(s0, 0, 1, up.take(i as int)),
                rebalance_stop(t0, h, qa, 0) == rebalance_stop(t0, h, qa, i as nat),
            decreases d,
        {
            d = d - 1;
            let ghost dd = d as nat;
            let ghost qq = qa / pow2((h - dd) as nat);
            proof {
                lemma_pow2_pos((i + 1) as nat);
            }
            let capacity = pow2v - 1;
            let a = ancestors[d as usize];
            proof {
                lemma_ancestor_path(h, qa, dd);
                lemma_path_at(t0, h, value, h, qa, dd);
                lemma_vpos_bound(h, dd, qq);
                assert(a == vpos(h, dd, qq));
                assert(self.tree_addr + (a + 1) * esz <= usize::MAX) by (nonlinear_arith)
                    requires
                        a + 1 <= n,
                        self.tree_addr + n * esz <= usize::MAX,
                ;
                lemma_inorder_len(t0, h, dd, qq);
                if dd > 0 {
                    lemma_pow2_strictly_increases((h - dd) as nat, h);
                }
                assert((h - dd) as nat == (i + 1) as nat);
            }
            touch_counted(sim, self.tree_addr, a, esz, Ghost(s0), Ghost(i as nat), Ghost(budget));
            proof {
                assert(up[i as int] == slot_addr(ta, a as nat));
                lemma_reads_push(s0, up.take(i as int), slot_addr(ta, a as nat));
                assert(up.take(i as int).push(slot_addr(ta, a as nat)) =~= up.take(i + 1));
            }
            let size = self.tree[a].unwrap().0 + 1;
            let limit = compute_density_limit(capacity, i, hmax);
            proof {
                assert(size == count_of(t0, h, dd, qq) + 1);
                assert(dd == (h - 1 - i) as nat);
            }
            let ghost sb = sim@;
            if size < limit {
                proof {
                    assert(bfs_pos == pow2(dd) + qq);
                }
                let ghost rb0 = rebuild_reads(
                    self.tree@,
                    self.height(),
                    d as nat,
                    value,
                    qa,
                    self.tree_addr as nat,
                    self.scratch_addr as nat,
                );
                proof {
                    assert(rb0 == rebuild_reads(t0, h, dd, value, qa, ta, sa0));
                }
                self.rebuild_subtree(
                    &lookup,
                    ancestors,
                    d,
                    bfs_pos,
                    value,
                    bfs_at,
                    sim,
                    Ghost(qa),
                    Ghost(s0),
                    Ghost((i + 1) as nat),
                    Ghost(budget),
                );
                proof {
                    lemma_counted_mono(s0, sim@, (i + 1 + 7 * n + 4 + h) as nat, budget);
                    assert(rebalance_stop(t0, h, qa, i as nat) == Some(i as nat));
                    let rb = rebuild_reads(t0, h, dd, value, qa, ta, sa0);
                    assert(sb == elem_reads(s0, 0, 1, up.take(i + 1)));
                    assert(sim@ == elem_reads(sb, 0, 1, rb0));
                    lemma_elem_reads_concat(s0, 0, 1, up.take(i + 1), rb);
                    assert(rebalance_reads(t0, h, value, qa, ta, sa0, old(sim).next_free()) == up.take(i + 1) + rb);
                }
                return;
            }
            proof {
                if d > 0 {
                    let x = qa / pow2((h - dd) as nat);
                    lemma_pow2_unfold((h - dd + 1) as nat);
                    lemma_pow2_pos((h - dd) as nat);
                    lemma_div_denominator(qa as int, pow2((h - dd) as nat) as int, 2);
                    assert(pow2((h - dd) as nat) * 2 == pow2((h - dd + 1) as nat));
                    lemma_parent_path(dd, x);
                    lemma_pow2_unfold(dd);
                }
                lemma_pow2_unfold((i + 2) as nat);
                lemma_pow2_strictly_increases((i + 2) as nat, h + 2);
                lemma_height_fits(h + 1);
            }
            proof {
                assert(rebalance_stop(t0, h, qa, i as nat) == rebalance_stop(t0, h, qa, (i + 1) as nat));
            }
            i = i + 1;
            pow2v = pow2v * 2;
            bfs_pos = bfs_pos / 2;
        }
        let ghost sg = sim@;
        proof {
            assert(i == h);
            assert(rebalance_stop(t0, h, qa, h) == None::<nat>);
            assert(up.take(h as int) =~= up);
        }
        self.grow(
            &lookup,
            ancestors,
            value,
            bfs_at,
            sim,
            Ghost(qa),
            Ghost(s0),
            Ghost(h),
            Ghost(budget),
        );
        proof {
            lemma_counted_mono(s0, sim@, (h + 9 * n + 5) as nat, budget);
            lemma_elem_reads_concat(s0, 0, 1, up, grow_reads(t0, h, value, qa, ta, old(sim).next_free()));
        }
    }
}


/// Putting `v` into the empty slot at the node at depth `d` with path `q`:
/// the node then heads a subtree in order holding just `v`, and nothing
/// outside that subtree changes.
proof fn lemma_place_leaf(t0: Slots, h: nat, v: u64, d: nat, q: nat)
    requires
        tree_ok(t0, h),
        d < h,
        q < pow2(d),
        !present(t0, h, d, q),
    ensures
        ({
            let tl = t0.update(vpos(h, d, q) as int, Some((1usize, v)));
            &&& tl.len() == t0.len()
            &&& same_slots_outside(t0, tl, h, d, q)
            &&& subtree_ok(tl, h, d, q)
            &&& present(tl, h, d, q)
            &&& inserted(inorder(t0, h, d, q), inorder(tl, h, d, q), v)
        }),
{
    let pos = vpos(h, d, q);
    let tl = t0.update(pos as int, Some((1usize, v)));
    lemma_vpos_bound(h, d, q);
    lemma_tree_ok_subtree(t0, h, d, q);
    lemma_subtree_ok_hangs(t0, h, d, q);
    lemma_absent_subtree(t0, h, d, q);
    lemma_child_path(d, q);
    lemma_in_subtree_self(d, q);
    assert forall|d2: nat, q2: nat|
        d2 < h && q2 < pow2(d2) && vpos(h, d2, q2) == pos implies d2 == d && q2 == q by {
        lemma_vpos_injective(h, d2, q2, d, q);
    }
    // below the node, every slot is still empty
    assert forall|d2: nat, q2: nat|
        in_subtree(d, q, d2, q2) && d < d2 < h && q2 < pow2(d2) implies !#[trigger] present(tl, h, d2, q2) by {
        lemma_vpos_bound(h, d2, q2);
        assert(t0[vpos(h, d2, q2) as int] is None);
        if vpos(h, d2, q2) == pos {
            assert(d2 == d);
        }
    }
    assert forall|c: nat| c < 2 implies inorder(tl, h, d + 1, #[trigger] (2 * q + c)) =~= Seq::<u64>::empty() by {
        if d + 1 < h {
            lemma_child_in_subtree(d, q, c);
            assert(!present(tl, h, d + 1, 2 * q + c));
        }
    }
    assert(inorder(tl, h, d + 1, 2 * q + 0) =~= Seq::<u64>::empty());
    assert(inorder(tl, h, d, q) =~= seq![v]);
    assert(inorder(t0, h, d, q) =~= Seq::<u64>::empty());
    assert forall|d2: nat, q2: nat|
        d2 < h && q2 < pow2(d2) && in_subtree(d, q, d2, q2) && #[trigger] present(tl, h, d2, q2)
            implies count_of(tl, h, d2, q2) == inorder(tl, h, d2, q2).len() by {
        if d2 > d {
            assert(!present(tl, h, d2, q2));
        } else {
            lemma_pow2_small();
            assert(q2 / pow2(0) == q2);
        }
    }
    assert forall|d2: nat, q2: nat|
        d2 < h && q2 < pow2(d2) && !in_subtree(d, q, d2, q2) implies #[trigger] tl[vpos(h, d2, q2) as int]
        == t0[vpos(h, d2, q2) as int] by {
        lemma_vpos_bound(h, d2, q2);
    }
    lemma_single_inserted(v);
    assert(subtree_ok(tl, h, d, q));
    assert(same_slots_outside(t0, tl, h, d, q));
}

/// One key put into none.
proof fn lemma_single_inserted(v: u64)
    ensures
        inserted(Seq::<u64>::empty(), seq![v], v),
{
    let s = seq![v];
    assert(s.len() == 1);
    assert forall|x: u64| s.contains(x) == (Seq::<u64>::empty().contains(x) || x == v) by {
        if x == v {
            assert(s[0] == v);
        }
        if s.contains(x) {
            let i = choose|i: int| 0 <= i < s.len() && s[i] == x;
            assert(i == 0);
        }
    }
    assert(strictly_increasing(s));
}

impl Tree {
    /// Puts `value` in; a key the tree holds already leaves it as it is
    /// (the slot's count is not reset to 1 nor are the nodes above counted
    /// again: every count stays the size of its subtree, which the density
    /// test of later insertions reads). A tree without slots gets three, `value` at the root. Otherwise the
    /// search for `value` either stops at an empty slot, which takes it,
    /// each node above recording one more key (each slot read as it is
    /// written, the deepest first), or runs below the last level, where
    /// `rebalance_and_insert` takes over.
    #[verifier::rlimit(100)]
    #[verifier::spinoff_prover]
    pub fn insert(&mut self, value: u64, sim: &mut Simalloc)
        requires
            old(self).wf(),
            old(sim).wf(),
            old(self).insert_room(old(sim)@, old(sim).next_free()),
        ensures
            final(self).wf(),
            old(self)@.contains(value) ==> final(self)@ == old(self)@,
            !old(self)@.contains(value) ==> inserted(old(self)@, final(self)@, value),
            final(sim).wf(),
            final(sim)@ == elem_reads(old(sim)@, 0, 1, old(self).insert_reads(value, old(sim).next_free())),
            final(self).capacity() == old(self).insert_capacity(value),
            old(self).capacity() == 0 ==> final(self).capacity() == 3,
            old(self)@.contains(value) ==> final(self).capacity() == old(self).capacity(),
            counted_within(old(sim)@, final(sim)@, 16 * old(self).capacity() + 256),
            final(sim).next_free() >= old(sim).next_free(),
    {
        let ghost s0 = sim@;
        let ghost self0 = *self;
        let ghost s0_nf = sim.next_free();
        let ghost n = self.tree@.len();
        let ghost budget: nat = (16 * n + 256) as nat;
        let esz = core::mem::size_of::<Option<(usize, u64)>>();
        if self.tree.len() == 0 {
            proof {
                assert(3 * esz <= 192);
            }
            let taddr = sim.alloc_bytes(3 * esz);
            let saddr = sim.alloc_bytes(3 * 8);
            let mut t: Vec<Option<(usize, u64)>> = Vec::new();
            t.push(Some((1, value)));
            t.push(None);
            t.push(None);
            self.tree = t;
            self.scratch = scratch_words(3);
            self.tree_addr = taddr;
            self.scratch_addr = saddr;
            proof {
                let tf = self.tree@;
                lemma_full_height(2);
                lemma2_to64();
                lemma_pow2_small();
                assert(pow2(2) == 4);
                assert(self.height() == 2);
                lemma_vpos_root(2, 0);
                assert forall|q: nat| q < pow2(1) implies !#[trigger] present(tf, 2, 1, q) by {
                    lemma_vpos_bound(2, 1, q);
                    if vpos(2, 1, q) == 0 {
                        lemma_vpos_injective(2, 1, q, 0, 0);
                    }
                }
                assert(!present(tf, 2, 1, 0));
                assert(!present(tf, 2, 1, 1));
                assert(inorder(tf, 2, 1, 0) =~= Seq::<u64>::empty());
                assert(inorder(tf, 2, 1, 1) =~= Seq::<u64>::empty());
                assert(keys(tf, 2) =~= seq![value]);
                assert forall|d: nat, q: nat|
                    d < 2 && q < pow2(d) && #[trigger] present(tf, 2, d, q) implies count_of(tf, 2, d, q)
                    == inorder(tf, 2, d, q).len() by {
                    if d == 0 {
                        assert(q == 0);
                    }
                }
                lemma_single_inserted(value);
                assert(tree_ok(tf, 2));
                assert(keys(Seq::<Option<(usize, u64)>>::empty(), 0) =~= Seq::<u64>::empty());
                assert(old(self)@ =~= Seq::<u64>::empty()) by {
                    lemma_full_height(0);
                }
                assert(counted_within(s0, sim@, 0));
                assert(self0.insert_capacity(value) == 3) by {
                    reveal(Tree::insert_capacity);
                }
            }
            return;
        }
        let mut ancestors = [0usize; 64];
        let (pos, Ghost(q)) = self.index(&mut ancestors, value, sim);
        let ghost t0 = self.tree@;
        let ghost h = self.height();
        let ghost ta = self.tree_addr as nat;
        let ghost sr = slot_addrs(ta, search_slots(t0, h, value));
        let ghost s_idx = sim@;
        proof {
            lemma_full_height(h);
            lemma_pow2_small();
            lemma_slot_addrs(s0, ta, search_slots(t0, h, value));
            assert(s_idx == elem_reads(s0, 0, 1, sr));
        }
        match pos {
            Ok(found) => {
                proof {
                    let d = found.1 as nat;
                    lemma_path_membership(t0, h, value, d, q);
                    let l = inorder(t0, h, d + 1, 2 * q);
                    assert(inorder(t0, h, d, q)[l.len() as int] == value);
                    lemma_counted_mono(s0, sim@, 64, budget);
                    lemma_search_stop(t0, h, value, d, q);
                    assert(self0.insert_reads(value, s0_nf) == sr);
                    assert(self0.insert_capacity(value) == t0.len()) by {
                        reveal(Tree::insert_capacity);
                    }
                }
            },
            Err(end) => {
                let i = end.0;
                let depth = end.1;
                let bfs = end.2;
                proof {
                    lemma_path_membership(t0, h, value, depth as nat, q);
                    if (depth as nat) < h {
                        assert(!present(t0, h, depth as nat, q) || i >= t0.len());
                    }
                    assert(inorder(t0, h, depth as nat, q) =~= Seq::<u64>::empty()) by {
                        if i < t0.len() {
                            assert(!present(t0, h, depth as nat, q));
                        }
                    }
                    assert(!keys(t0, h).contains(value));
                }
                if i < self.tree.len() {
                    let ghost d = depth as nat;
                    let ghost s1 = sim@;
                    proof {
                        lemma_vpos_bound(h, d, q);
                        assert(self.tree_addr + (i + 1) * esz <= usize::MAX) by (nonlinear_arith)
                            requires
                                i + 1 <= t0.len(),
                                self.tree_addr + t0.len() * esz <= usize::MAX,
                        ;
                    }
                    touch_counted(sim, self.tree_addr, i, esz, Ghost(s0), Ghost(64), Ghost(budget));
                    self.tree.set(i, Some((1, value)));
                    let ghost tl = self.tree@;
                    proof {
                        lemma_place_leaf(t0, h, value, d, q);
                        lemma_ancestor_slots(t0, tl, h, value, d, q, ancestors@);
                    }
                    let ghost sb = sim@;
                    proof {
                        lemma_reads_push(s0, sr, slot_addr(ta, i as nat));
                        assert(sb == elem_reads(s0, 0, 1, sr.push(slot_addr(ta, i as nat))));
                    }
                    bump_ancestors(
                        &mut self.tree,
                        &ancestors,
                        depth,
                        sim,
                        self.tree_addr,
                        Ghost(s0),
                        Ghost(65),
                        Ghost(budget),
                    );
                    proof {
                        lemma_rebuild_compose(t0, tl, self.tree@, h, value, d, q, ancestors@);
                        lemma_counted_mono(s0, sim@, 65 + d, budget);
                        lemma_bump_reads_path(ta, ancestors@, h, d, q);
                        lemma_elem_reads_concat(s0, 0, 1, sr.push(slot_addr(ta, i as nat)), path_up(ta, h, d, q));
                        lemma_search_stop(t0, h, value, d, q);
                        assert(sr.push(slot_addr(ta, i as nat)) + path_up(ta, h, d, q) =~= sr + seq![slot_addr(
                            ta,
                            vpos(h, d, q),
                        )] + path_up(ta, h, d, q));
                        assert(self0.insert_capacity(value) == t0.len()) by {
                        reveal(Tree::insert_capacity);
                    }
                    }
                } else {
                    let ghost s1 = sim@;
                    proof {
                        lemma_room(s0, s1, 64, budget, 9 * n + 128);
                    }
                    self.rebalance_and_insert(&mut ancestors, depth, value, bfs, sim, Ghost(q));
                    proof {
                        lemma_counted_trans(s0, s1, sim@, 64, 9 * n + 128);
                        lemma_counted_mono(s0, sim@, 64 + 9 * n + 128, budget);
                        lemma_search_stop(t0, h, value, depth as nat, q);
                        lemma_elem_reads_concat(
                            s0,
                            0,
                            1,
                            sr,
                            rebalance_reads(t0, h, value, q, ta, self0.scratch_addr as nat, s0_nf),
                        );
                        assert(self0.insert_capacity(value) == if rebalance_stop(t0, h, q, 0) is None {
                            2 * t0.len() + 1
                        } else {
                            t0.len()
                        }) by {
                            reveal(Tree::insert_capacity);
                        }
                    }
                }
            },
        }
    }
}


impl Tree {
    /// An insertion fits: few enough slots to double, addresses for what a
    /// rebuild allocates, counters for what it reads.
    pub open spec fn insert_room(&self, s: HierarchyView, next_free: nat) -> bool {
        &&& self.capacity() < 0x2000_0000_0000_0000
        &&& next_free + 256 * (self.capacity() + 1) <= usize::MAX
        &&& headroom(s, 16 * self.capacity() + 256)
    }

    /// Whether an insertion fits (see `insert_room`).
    pub fn room_for_insert(&self, sim: &Simalloc) -> (b: bool)
        requires
            sim.wf(),
        ensures
            b == self.insert_room(sim@, sim.next_free()),
    {
        let cap = self.tree.len();
        if cap as u64 >= 0x2000_0000_0000_0000 {
            return false;
        }
        let free = sim.free_from();
        if (usize::MAX - free) / 256 <= cap {
            return false;
        }
        proof {
            assert(free + 256 * (cap + 1) <= usize::MAX) by (nonlinear_arith)
                requires
                    (usize::MAX - free) / 256 >= cap + 1,
                    free <= usize::MAX,
            ;
        }
        sim.has_room(16 * (cap as u64) + 256)
    }

    /// Whether a lookup fits the counters.
    pub fn room_for_get(&self, sim: &Simalloc) -> (b: bool)
        requires
            sim.wf(),
        ensures
            b == headroom(sim@, 65),
    {
        sim.has_room(65)
    }
}


/// The keys of a tree increase from first to last: each key is held once,
/// in order.
pub proof fn lemma_keys_sorted(t: &Tree)
    requires
        t.wf(),
    ensures
        strictly_increasing(t@),
{
}

/// A tree's slots always fill a complete tree: one fewer than a power of
/// two.
pub proof fn lemma_capacity_full(t: &Tree)
    requires
        t.wf(),
    ensures
        t.capacity() + 1 == pow2(t.height()),
{
}

/// After an insertion, the key inserted is there, every key that was there
/// still is, no other key is, and the keys still increase.
pub proof fn lemma_inserted_found(before: Seq<u64>, after: Seq<u64>, v: u64)
    requires
        strictly_increasing(before),
        inserted(before, after, v) || (before.contains(v) && after == before),
    ensures
        after.contains(v),
        forall|x: u64| before.contains(x) ==> #[trigger] after.contains(x),
        forall|x: u64| #[trigger] after.contains(x) ==> before.contains(x) || x == v,
        strictly_increasing(after),
{
}

} // verus!

