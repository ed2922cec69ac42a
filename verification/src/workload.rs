//! The experiments' loops: simulated searches of trees too large to build,
//! and insertions into and lookups in trees built in simulated memory.

use vstd::prelude::*;
use vstd::layout::size_of;
use vstd::arithmetic::mul::*;
use rand_pcg::Mcg128Xsl64;
use crate::hierarchy::{
    Hierarchy, HierarchyView, hierarchy_idle, headroom, counted_within, lemma_counted_trans,
    lemma_room,
};
use crate::rng::{random_below, random_below_u32, next_u64};
use crate::veb::{ceil_log2, lemma_ceil_log2};
use vstd::arithmetic::power::pow;
use vstd::arithmetic::power2::{lemma_pow2_strictly_increases, lemma_pow2_adds, lemma_pow2_pos, lemma2_to64};
use crate::simalloc::Simalloc;
use crate::veb::layout_fits;
use crate::btree::{BTree, NodePtr, node_bytes, level_cost, pow2_usize, btree_walk};
use crate::trees_of_small_height::{Tree, slot_bytes, walk_outcome, lookup_height};
use crate::simalloc::elem_reads;
use crate::tree_shape::inserted;
use vstd::arithmetic::power2::pow2;

verus! {

/// Why a run of insertions or lookups stopped early.
pub enum Shortfall {
    /// The counters or the addresses of the simulated memory ran out.
    NoRoom,
    /// A lookup did not find this key.
    Missing(u64),
}

/// `k + 1` searches of `c` accesses each fit a budget of `n * r * c` when
/// `k` is below `i * r + j` with `i < n` and `j < r`.
proof fn lemma_run_budget(k: nat, i: nat, j: nat, n: nat, r: nat, c: nat)
    requires
        k == i * r + j,
        i < n,
        j < r,
    ensures
        k * c + c <= n * r * c,
        k + 1 <= n * r,
{
    assert(k + 1 <= n * r) by (nonlinear_arith)
        requires
            k == i * r + j,
            i < n,
            j < r,
    ;
    assert(k * c + c <= n * r * c) by (nonlinear_arith)
        requires
            k + 1 <= n * r,
    ;
}

/// Search `k` of a run over `roots`, at the root `roots[k % roots.len()]`:
/// it matches after the drawn number `step.0` of nodes, below `max_until`,
/// takes the turns `step.1`, returns `step.2`, and takes the hierarchy from
/// `a` to `b` (see `trees_of_small_height::sim_get`).
pub open spec fn veb_step(
    roots: Seq<usize>,
    tree_size: nat,
    max_until: nat,
    k: int,
    step: (nat, Seq<bool>, Option<usize>),
    a: HierarchyView,
    b: HierarchyView,
) -> bool {
    &&& step.0 < max_until
    &&& walk_outcome(
        tree_size,
        lookup_height(tree_size),
        step.0,
        roots[k % roots.len() as int] as nat,
        size_of::<Option<u64>>(),
        a,
        step.1,
        step.2,
        b,
    )
}

/// The searches `steps` of a run over `roots`, in order, taking the
/// hierarchy through `states`.
pub open spec fn veb_steps(
    roots: Seq<usize>,
    tree_size: nat,
    max_until: nat,
    steps: Seq<(nat, Seq<bool>, Option<usize>)>,
    states: Seq<HierarchyView>,
) -> bool {
    &&& states.len() == steps.len() + 1
    &&& forall|k: int|
        0 <= k < steps.len() ==> #[trigger] veb_step(roots, tree_size, max_until, k, steps[k], states[k], states[k + 1])
}

/// Search `k` of a run over the B-trees at `roots`: it matches after the
/// drawn number `step.0` of probes that miss, below `max_until`, makes the
/// random choices `step.1` with nodes laid out by pages of `page` bytes,
/// returns `step.2`, and takes the hierarchy from `a` to `b` (see
/// `btree::sim_get`).
pub open spec fn btree_step(
    roots: Seq<usize>,
    height: nat,
    node_cap: nat,
    page: nat,
    max_until: nat,
    k: int,
    step: (nat, Seq<(nat, bool, nat)>, Option<usize>),
    a: HierarchyView,
    b: HierarchyView,
) -> bool {
    &&& step.0 < max_until
    &&& btree_walk::<u64>(a, roots[k % roots.len() as int] as nat, 0, height, step.0, node_cap, page, step.1, step.2, b)
}

/// The searches `steps` of a run over the B-trees at `roots`, in order,
/// taking the hierarchy through `states`.
pub open spec fn btree_steps(
    roots: Seq<usize>,
    height: nat,
    node_cap: nat,
    page: nat,
    max_until: nat,
    steps: Seq<(nat, Seq<(nat, bool, nat)>, Option<usize>)>,
    states: Seq<HierarchyView>,
) -> bool {
    &&& states.len() == steps.len() + 1
    &&& forall|k: int|
        0 <= k < steps.len() ==> #[trigger] btree_step(roots, height, node_cap, page, max_until, k, steps[k], states[k], states[k + 1])
}

/// How many of `steps` returned something.
pub open spec fn found_count<A, B>(steps: Seq<(A, B, Option<usize>)>) -> nat
    decreases steps.len(),
{
    if steps.len() == 0 {
        0
    } else {
        found_count(steps.drop_last()) + if steps.last().2 is Some {
            1nat
        } else {
            0nat
        }
    }
}

/// Runs `num_values` rounds of simulated searches, in each round one search
/// of the tree at each of `roots`: trees of `tree_size` slots of
/// `Option<u64>` in the small-height layout, each search matching after a
/// number of nodes drawn below `max_until` by `element_rng` and turning at
/// random by `tree_rng` (see `trees_of_small_height::sim_get`). Returns how
/// many searches found their key.
pub fn veb_gets(
    roots: &Vec<usize>,
    num_values: usize,
    tree_size: usize,
    max_until: u32,
    hier: &mut Hierarchy,
    element_rng: &mut Mcg128Xsl64,
    tree_rng: &mut Mcg128Xsl64,
) -> (hits: usize)
    requires
        old(hier).wf(),
        hierarchy_idle(old(hier)@),
        max_until > 0,
        layout_fits(tree_size as nat),
        size_of::<Option<u64>>() > 0,
        forall|k: int|
            0 <= k < roots@.len() ==> #[trigger] roots@[k] + tree_size * size_of::<Option<u64>>()
                <= usize::MAX,
        num_values * roots@.len() <= usize::MAX,
        headroom(
            old(hier)@,
            (num_values * roots@.len() * (64 * (size_of::<Option<u64>>() + 1))) as nat,
        ),
    ensures
        final(hier).wf(),
        hierarchy_idle(final(hier)@),
        hits <= num_values * roots@.len(),
        counted_within(
            old(hier)@,
            final(hier)@,
            (num_values * roots@.len() * (64 * (size_of::<Option<u64>>() + 1))) as nat,
        ),
        exists|steps: Seq<(nat, Seq<bool>, Option<usize>)>, states: Seq<HierarchyView>|
            #[trigger] veb_steps(roots@, tree_size as nat, max_until as nat, steps, states)
                && steps.len() == num_values * roots@.len() && states[0] == old(hier)@ && states.last()
                == final(hier)@ && hits == found_count(steps),
{
    let ghost s0 = hier@;
    let ghost c: nat = (64 * (size_of::<Option<u64>>() + 1)) as nat;
    let ghost n = num_values as nat;
    let ghost r = roots@.len();
    let ghost budget: nat = n * r * c;
    let mut hits: usize = 0;
    let mut i: usize = 0;
    let ghost mut steps: Seq<(nat, Seq<bool>, Option<usize>)> = Seq::empty();
    let ghost mut states: Seq<HierarchyView> = seq![s0];
    proof {
        assert(counted_within(s0, s0, 0));
        assert(0 * r == 0);
        assert(0 * c == 0);
    }
    while i < num_values
        invariant
            i <= num_values,
            n == num_values,
            r == roots@.len(),
            c == 64 * (size_of::<Option<u64>>() + 1),
            budget == n * r * c,
            max_until > 0,
            layout_fits(tree_size as nat),
            size_of::<Option<u64>>() > 0,
            forall|k: int|
                0 <= k < roots@.len() ==> #[trigger] roots@[k] + tree_size * size_of::<Option<u64>>()
                    <= usize::MAX,
            num_values * roots@.len() <= usize::MAX,
            hier.wf(),
            hierarchy_idle(hier@),
            headroom(s0, budget),
            hits <= i * r,
            counted_within(s0, hier@, (i * r * c) as nat),
            veb_steps(roots@, tree_size as nat, max_until as nat, steps, states),
            steps.len() == i * r,
            states[0] == s0,
            states.last() == hier@,
            hits == found_count(steps),
        decreases num_values - i,
    {
        let mut j: usize = 0;
        while j < roots.len()
            invariant
                i < num_values,
                j <= roots@.len(),
                n == num_values,
                r == roots@.len(),
                c == 64 * (size_of::<Option<u64>>() + 1),
                budget == n * r * c,
                max_until > 0,
                layout_fits(tree_size as nat),
                size_of::<Option<u64>>() > 0,
                forall|k: int|
                    0 <= k < roots@.len() ==> #[trigger] roots@[k] + tree_size * size_of::<Option<u64>>()
                        <= usize::MAX,
                num_values * roots@.len() <= usize::MAX,
                hier.wf(),
                hierarchy_idle(hier@),
                headroom(s0, budget),
                hits <= i * r + j,
                counted_within(s0, hier@, ((i * r + j) * c) as nat),
                veb_steps(roots@, tree_size as nat, max_until as nat, steps, states),
                steps.len() == i * r + j,
                states[0] == s0,
                states.last() == hier@,
                hits == found_count(steps),
            decreases roots@.len() - j,
        {
            let ghost k: nat = (i * r + j) as nat;
            proof {
                lemma_run_budget(k, i as nat, j as nat, n, r, c);
                assert(k * c == (i * r + j) * c);
                lemma_room(s0, hier@, k * c, budget, c);
            }
            let until = random_below_u32(element_rng, max_until) as usize;
            let ghost before = hier@;
            let hit = crate::trees_of_small_height::sim_get::<u64>(
                roots[j],
                until,
                tree_size,
                hier,
                tree_rng,
            );
            proof {
                lemma_counted_trans(s0, before, hier@, k * c, c);
                assert(k * c + c == (k + 1) * c) by (nonlinear_arith);
            }
            if hit.is_some() {
                hits = hits + 1;
            }
            proof {
                let t = choose|t: Seq<bool>|
                    #[trigger] walk_outcome(
                        tree_size as nat,
                        lookup_height(tree_size as nat),
                        until as nat,
                        roots@[j as int] as nat,
                        size_of::<Option<u64>>(),
                        before,
                        t,
                        hit,
                        hier@,
                    );
                let step = (until as nat, t, hit);
                assert((k as int) % (r as int) == j) by {
                    vstd::arithmetic::div_mod::lemma_mod_multiples_vanish(i as int, j as int, r as int);
                    vstd::arithmetic::div_mod::lemma_small_mod(j as nat, r);
                    assert(r * i + j == k) by (nonlinear_arith)
                        requires
                            k == i * r + j,
                    ;
                }
                let steps2 = steps.push(step);
                let states2 = states.push(hier@);
                assert(veb_step(roots@, tree_size as nat, max_until as nat, k as int, step, before, hier@));
                assert forall|m: int| 0 <= m < steps2.len() implies #[trigger] veb_step(
                    roots@,
                    tree_size as nat,
                    max_until as nat,
                    m,
                    steps2[m],
                    states2[m],
                    states2[m + 1],
                ) by {
                    if m < steps.len() {
                        assert(steps2[m] == steps[m]);
                        assert(states2[m] == states[m]);
                        assert(states2[m + 1] == states[m + 1]);
                        assert(veb_step(roots@, tree_size as nat, max_until as nat, m, steps[m], states[m], states[m + 1]));
                    } else {
                        assert(m == k);
                        assert(states2[m] == before);
                    }
                }
                assert(steps2.drop_last() =~= steps);
                steps = steps2;
                states = states2;
            }
            j = j + 1;
        }
        proof {
            assert(i * r + r == (i + 1) * r) by (nonlinear_arith);
        }
        i = i + 1;
    }
    proof {
        assert(n * r * c >= 0) by (nonlinear_arith);
        assert(veb_steps(roots@, tree_size as nat, max_until as nat, steps, states));
    }
    hits
}

/// Runs `num_values` rounds of simulated searches, in each round one search
/// of the B-tree whose root is at each of `roots`: trees of `height`
/// levels of `node_size`-byte nodes of `node_cap` keys, each search
/// matching after a number of keys drawn below `max_until` by
/// `element_rng`, the nodes below the roots placed by `tree_rng` (see
/// `btree::sim_get`). Returns how many searches found their key.
pub fn btree_gets(
    roots: &Vec<usize>,
    num_values: usize,
    height: u8,
    max_until: u32,
    node_cap: usize,
    node_size: usize,
    hier: &mut Hierarchy,
    element_rng: &mut Mcg128Xsl64,
    tree_rng: &mut Mcg128Xsl64,
) -> (hits: usize)
    requires
        old(hier).wf(),
        hierarchy_idle(old(hier)@),
        max_until > 0,
        height > 0,
        node_size > 0,
        node_cap < usize::MAX,
        size_of::<NodePtr>() > 0,
        pow2(63) + node_bytes::<u64>(node_cap as nat) + 4 <= usize::MAX,
        forall|k: int|
            0 <= k < roots@.len() ==> #[trigger] roots@[k] + node_bytes::<u64>(node_cap as nat) + 4
                <= usize::MAX,
        num_values * roots@.len() <= usize::MAX,
        headroom(old(hier)@, (num_values * roots@.len() * (height * level_cost::<u64>())) as nat),
    ensures
        final(hier).wf(),
        hierarchy_idle(final(hier)@),
        hits <= num_values * roots@.len(),
        counted_within(
            old(hier)@,
            final(hier)@,
            (num_values * roots@.len() * (height * level_cost::<u64>())) as nat,
        ),
        exists|steps: Seq<(nat, Seq<(nat, bool, nat)>, Option<usize>)>, states: Seq<HierarchyView>|
            #[trigger] btree_steps(roots@, height as nat, node_cap as nat, node_size as nat, max_until as nat, steps, states)
                && steps.len() == num_values * roots@.len() && states[0] == old(hier)@ && states.last()
                == final(hier)@ && hits == found_count(steps),
{
    broadcast use vstd::layout::layout_of_primitives;

    let ghost s0 = hier@;
    let ghost c: nat = (height * level_cost::<u64>()) as nat;
    let ghost n = num_values as nat;
    let ghost r = roots@.len();
    let ghost budget: nat = n * r * c;
    let mut hits: usize = 0;
    let mut i: usize = 0;
    let ghost mut steps: Seq<(nat, Seq<(nat, bool, nat)>, Option<usize>)> = Seq::empty();
    let ghost mut states: Seq<HierarchyView> = seq![s0];
    proof {
        assert(counted_within(s0, s0, 0));
        assert(0 * r == 0);
        assert(0 * c == 0);
    }
    while i < num_values
        invariant
            i <= num_values,
            n == num_values,
            r == roots@.len(),
            c == height * level_cost::<u64>(),
            budget == n * r * c,
            max_until > 0,
            height > 0,
            node_size > 0,
            node_cap < usize::MAX,
            size_of::<NodePtr>() > 0,
            pow2(63) + node_bytes::<u64>(node_cap as nat) + 4 <= usize::MAX,
            forall|k: int|
                0 <= k < roots@.len() ==> #[trigger] roots@[k] + node_bytes::<u64>(node_cap as nat) + 4
                    <= usize::MAX,
            num_values * roots@.len() <= usize::MAX,
            hier.wf(),
            hierarchy_idle(hier@),
            headroom(s0, budget),
            hits <= i * r,
            counted_within(s0, hier@, (i * r * c) as nat),
            btree_steps(roots@, height as nat, node_cap as nat, node_size as nat, max_until as nat, steps, states),
            steps.len() == i * r,
            states[0] == s0,
            states.last() == hier@,
            hits == found_count(steps),
        decreases num_values - i,
    {
        let mut j: usize = 0;
        while j < roots.len()
            invariant
                i < num_values,
                j <= roots@.len(),
                n == num_values,
                r == roots@.len(),
                c == height * level_cost::<u64>(),
                budget == n * r * c,
                max_until > 0,
                height > 0,
                node_size > 0,
                node_cap < usize::MAX,
                size_of::<NodePtr>() > 0,
                pow2(63) + node_bytes::<u64>(node_cap as nat) + 4 <= usize::MAX,
                forall|k: int|
                    0 <= k < roots@.len() ==> #[trigger] roots@[k] + node_bytes::<u64>(node_cap as nat)
                        + 4 <= usize::MAX,
                num_values * roots@.len() <= usize::MAX,
                hier.wf(),
                hierarchy_idle(hier@),
                headroom(s0, budget),
                hits <= i * r + j,
                counted_within(s0, hier@, ((i * r + j) * c) as nat),
                btree_steps(roots@, height as nat, node_cap as nat, node_size as nat, max_until as nat, steps, states),
                steps.len() == i * r + j,
                states[0] == s0,
                states.last() == hier@,
                hits == found_count(steps),
            decreases roots@.len() - j,
        {
            let ghost k: nat = (i * r + j) as nat;
            proof {
                lemma_run_budget(k, i as nat, j as nat, n, r, c);
                assert(k * c == (i * r + j) * c);
                lemma_room(s0, hier@, k * c, budget, c);
                assert(c == ((height - 0) * level_cost::<u64>()) as nat);
            }
            let until = random_below_u32(element_rng, max_until) as usize;
            let ghost before = hier@;
            let hit = crate::btree::sim_get::<u64>(
                roots[j],
                0,
                height,
                until,
                node_cap,
                node_size,
                hier,
                tree_rng,
            );
            proof {
                lemma_counted_trans(s0, before, hier@, k * c, c);
                assert(k * c + c == (k + 1) * c) by (nonlinear_arith);
            }
            if hit.is_some() {
                hits = hits + 1;
            }
            proof {
                let ch = choose|ch: Seq<(nat, bool, nat)>|
                    #[trigger] btree_walk::<u64>(
                        before,
                        roots@[j as int] as nat,
                        0,
                        height as nat,
                        until as nat,
                        node_cap as nat,
                        node_size as nat,
                        ch,
                        hit,
                        hier@,
                    );
                let step = (until as nat, ch, hit);
                assert((k as int) % (r as int) == j) by {
                    vstd::arithmetic::div_mod::lemma_mod_multiples_vanish(i as int, j as int, r as int);
                    vstd::arithmetic::div_mod::lemma_small_mod(j as nat, r);
                    assert(r * i + j == k) by (nonlinear_arith)
                        requires
                            k == i * r + j,
                    ;
                }
                let steps2 = steps.push(step);
                let states2 = states.push(hier@);
                assert(btree_step(roots@, height as nat, node_cap as nat, node_size as nat, max_until as nat, k as int, step, before, hier@));
                assert forall|m: int| 0 <= m < steps2.len() implies #[trigger] btree_step(
                    roots@,
                    height as nat,
                    node_cap as nat,
                    node_size as nat,
                    max_until as nat,
                    m,
                    steps2[m],
                    states2[m],
                    states2[m + 1],
                ) by {
                    if m < steps.len() {
                        assert(steps2[m] == steps[m]);
                        assert(states2[m] == states[m]);
                        assert(states2[m + 1] == states[m + 1]);
                        assert(btree_step(roots@, height as nat, node_cap as nat, node_size as nat, max_until as nat, m, steps[m], states[m], states[m + 1]));
                    } else {
                        assert(m == k);
                        assert(states2[m] == before);
                    }
                }
                assert(steps2.drop_last() =~= steps);
                steps = steps2;
                states = states2;
            }
            j = j + 1;
        }
        proof {
            assert(i * r + r == (i + 1) * r) by (nonlinear_arith);
        }
        i = i + 1;
    }
    proof {
        assert(btree_steps(roots@, height as nat, node_cap as nat, node_size as nat, max_until as nat, steps, states));
    }
    hits
}


/// Insertion `k` of a run of `veb_inserts` over the trees `t0`: the value
/// `values[step.0]` goes into tree `step.1` (`k` counts the insertions in
/// order, a round of one value into every tree at a time). Before it, that
/// tree is `step.2`: well formed and holding its first keys and
/// `values[..step.0]`; the next address to hand out is `step.3`. The
/// insertion takes the hierarchy from `a` to `b` (see `Tree::insert`).
pub open spec fn veb_insert_step(
    t0: Seq<Tree>,
    values: Seq<u64>,
    k: int,
    step: (int, int, Tree, nat),
    a: HierarchyView,
    b: HierarchyView,
) -> bool {
    &&& 0 <= step.0 < values.len()
    &&& 0 <= step.1 < t0.len()
    &&& k == step.0 * t0.len() + step.1
    &&& step.2.wf()
    &&& forall|x: u64|
        #[trigger] step.2@.contains(x) == (t0[step.1]@.contains(x) || values.subrange(0, step.0).contains(x))
    &&& b == elem_reads(a, 0, 1, step.2.insert_reads(values[step.0], step.3))
}

/// The insertions `steps` of a run of `veb_inserts`, in order, taking the
/// hierarchy through `states`.
pub open spec fn veb_insert_steps(
    t0: Seq<Tree>,
    values: Seq<u64>,
    steps: Seq<(int, int, Tree, nat)>,
    states: Seq<HierarchyView>,
) -> bool {
    &&& states.len() == steps.len() + 1
    &&& forall|k: int|
        0 <= k < steps.len() ==> #[trigger] veb_insert_step(t0, values, k, steps[k], states[k], states[k + 1])
}

/// Insertion `k` of a run of `btree_inserts`, as `veb_insert_step` says
/// (see `BTree::insert`).
pub open spec fn btree_insert_step(
    t0: Seq<BTree>,
    values: Seq<u64>,
    k: int,
    step: (int, int, BTree, nat),
    a: HierarchyView,
    b: HierarchyView,
) -> bool {
    &&& 0 <= step.0 < values.len()
    &&& 0 <= step.1 < t0.len()
    &&& k == step.0 * t0.len() + step.1
    &&& step.2.wf()
    &&& forall|x: u64|
        #[trigger] step.2@.contains(x) == (t0[step.1]@.contains(x) || values.subrange(0, step.0).contains(x))
    &&& b == elem_reads(a, 0, 1, step.2.insert_reads(values[step.0], step.3))
}

/// The insertions `steps` of a run of `btree_inserts`, in order, taking the
/// hierarchy through `states`.
pub open spec fn btree_insert_steps(
    t0: Seq<BTree>,
    values: Seq<u64>,
    steps: Seq<(int, int, BTree, nat)>,
    states: Seq<HierarchyView>,
) -> bool {
    &&& states.len() == steps.len() + 1
    &&& forall|k: int|
        0 <= k < steps.len() ==> #[trigger] btree_insert_step(t0, values, k, steps[k], states[k], states[k + 1])
}

/// Puts each of `values`, in order, into each of `trees` in turn (see
/// `Tree::insert`), after checking that the insertion fits the simulated
/// memory; stops with `NoRoom` where one does not.
#[verifier::rlimit(40)]
pub fn veb_inserts(trees: &mut Vec<Tree>, values: &Vec<u64>, sim: &mut Simalloc) -> (r: Result<(), Shortfall>)
    requires
        forall|k: int| 0 <= k < old(trees)@.len() ==> (#[trigger] old(trees)@[k]).wf(),
        old(sim).wf(),
    ensures
        final(trees)@.len() == old(trees)@.len(),
        forall|k: int| 0 <= k < final(trees)@.len() ==> (#[trigger] final(trees)@[k]).wf(),
        final(sim).wf(),
        final(sim).next_free() >= old(sim).next_free(),
        r is Ok ==> forall|k: int, x: u64|
            0 <= k < final(trees)@.len() ==> #[trigger] final(trees)@[k]@.contains(x) == (old(
                trees,
            )@[k]@.contains(x) || values@.contains(x)),
        r matches Err(e) ==> e is NoRoom,
        r is Err ==> exists|k: int|
            0 <= k < final(trees)@.len() && !(#[trigger] final(trees)@[k]).insert_room(
                final(sim)@,
                final(sim).next_free(),
            ),
        forall|k: int, x: u64|
            0 <= k < final(trees)@.len() && #[trigger] final(trees)@[k]@.contains(x) ==> old(
                trees,
            )@[k]@.contains(x) || values@.contains(x),
        exists|steps: Seq<(int, int, Tree, nat)>, states: Seq<HierarchyView>|
            #[trigger] veb_insert_steps(old(trees)@, values@, steps, states) && states[0] == old(sim)@
                && states.last() == final(sim)@ && (r is Ok ==> steps.len() == values@.len()
                * old(trees)@.len()),
{
    let ghost t0 = trees@;
    let ghost s0 = sim@;
    let ghost mut steps: Seq<(int, int, Tree, nat)> = Seq::empty();
    let ghost mut states: Seq<HierarchyView> = seq![s0];
    let mut i: usize = 0;
    while i < values.len()
        invariant
            i <= values@.len(),
            t0 == old(trees)@,
            trees@.len() == t0.len(),
            forall|k: int| 0 <= k < trees@.len() ==> (#[trigger] trees@[k]).wf(),
            forall|k: int, x: u64|
                0 <= k < trees@.len() ==> #[trigger] trees@[k]@.contains(x) == (t0[k]@.contains(x)
                    || values@.subrange(0, i as int).contains(x)),
            sim.wf(),
            sim.next_free() >= old(sim).next_free(),
            s0 == old(sim)@,
            veb_insert_steps(t0, values@, steps, states),
            steps.len() == i * t0.len(),
            states[0] == s0,
            states.last() == sim@,
        decreases values@.len() - i,
    {
        let v = values[i];
        let ghost before = trees@;
        let mut j: usize = 0;
        while j < trees.len()
            invariant
                i < values@.len(),
                v == values@[i as int],
                j <= trees@.len(),
                t0 == old(trees)@,
                trees@.len() == t0.len(),
                before.len() == t0.len(),
                forall|k: int| 0 <= k < trees@.len() ==> (#[trigger] trees@[k]).wf(),
                forall|k: int, x: u64|
                    0 <= k < before.len() ==> #[trigger] before[k]@.contains(x) == (t0[k]@.contains(x)
                        || values@.subrange(0, i as int).contains(x)),
                forall|k: int, x: u64|
                    0 <= k < j ==> #[trigger] trees@[k]@.contains(x) == (before[k]@.contains(x) || x
                        == v),
                forall|k: int| j <= k < trees@.len() ==> #[trigger] trees@[k] == before[k],
                sim.wf(),
                sim.next_free() >= old(sim).next_free(),
                s0 == old(sim)@,
                veb_insert_steps(t0, values@, steps, states),
                steps.len() == i * t0.len() + j,
                states[0] == s0,
                states.last() == sim@,
            decreases trees@.len() - j,
        {
            let ghost pre = trees@;
            let mut t = trees.remove(j);
            if !t.room_for_insert(sim) {
                trees.insert(j, t);
                proof {
                    assert(trees@ =~= pre);
                    assert forall|k: int, x: u64|
                        0 <= k < trees@.len() && #[trigger] trees@[k]@.contains(x) implies t0[k]@.contains(x)
                        || values@.contains(x) by {
                        if k >= j {
                            assert(trees@[k] == before[k]);
                        }
                        if values@.subrange(0, i as int).contains(x) {
                            let a = choose|a: int| 0 <= a < i && values@.subrange(0, i as int)[a] == x;
                            assert(values@[a] == x);
                        }
                        if x == v {
                            assert(values@[i as int] == x);
                        }
                    }
                    assert(!trees@[j as int].insert_room(sim@, sim.next_free()));
                }
                return Err(Shortfall::NoRoom);
            }
            let ghost tb = t;
            let ghost nf = sim.next_free();
            let ghost sb = sim@;
            t.insert(v, sim);
            proof {
                let step = (i as int, j as int, tb, nf);
                let steps2 = steps.push(step);
                let states2 = states.push(sim@);
                assert(tb == before[j as int]);
                assert(veb_insert_step(t0, values@, steps.len() as int, step, sb, sim@));
                assert forall|m: int| 0 <= m < steps2.len() implies #[trigger] veb_insert_step(
                    t0,
                    values@,
                    m,
                    steps2[m],
                    states2[m],
                    states2[m + 1],
                ) by {
                    if m < steps.len() {
                        assert(steps2[m] == steps[m]);
                        assert(states2[m] == states[m]);
                        assert(states2[m + 1] == states[m + 1]);
                    }
                }
                steps = steps2;
                states = states2;
            }
            proof {
                assert forall|x: u64| #[trigger] t@.contains(x) == (tb@.contains(x) || x == v) by {}
            }
            trees.insert(j, t);
            j = j + 1;
        }
        proof {
            assert forall|k: int, x: u64| 0 <= k < trees@.len() implies #[trigger] trees@[k]@.contains(x)
                == (t0[k]@.contains(x) || values@.subrange(0, i + 1).contains(x)) by {
                assert(trees@[k]@.contains(x) == (before[k]@.contains(x) || x == v));
                assert(values@.subrange(0, i + 1) =~= values@.subrange(0, i as int).push(v));
                if values@.subrange(0, i as int).contains(x) {
                    let a = choose|a: int| 0 <= a < i && values@.subrange(0, i as int)[a] == x;
                    assert(values@.subrange(0, i + 1)[a] == x);
                }
                if x == v {
                    assert(values@.subrange(0, i + 1)[i as int] == x);
                }
                let longer = values@.subrange(0, i + 1);
                if longer.contains(x) {
                    let a = choose|a: int| 0 <= a < longer.len() && #[trigger] longer[a] == x;
                    if a < i {
                        assert(values@.subrange(0, i as int)[a] == x);
                    }
                }
            }
        }
        proof {
            assert(i * t0.len() + t0.len() == (i + 1) * t0.len()) by (nonlinear_arith);
        }
        i = i + 1;
    }
    proof {
        assert(values@.subrange(0, values@.len() as int) =~= values@);
    }
    Ok(())
}

/// The hierarchy after a lookup of `v` in each of `trees[..k]` in turn.
pub open spec fn veb_round(h: HierarchyView, trees: Seq<Tree>, v: u64, k: nat) -> HierarchyView
    decreases k,
{
    if k == 0 {
        h
    } else {
        let t = trees[k - 1];
        elem_reads(veb_round(h, trees, v, (k - 1) as nat), t.slots_base(), slot_bytes(), t.lookup_reads(v))
    }
}

/// The hierarchy after the lookups of `values[..i]`, each in every tree in
/// turn.
pub open spec fn veb_rounds(h: HierarchyView, trees: Seq<Tree>, values: Seq<u64>, i: nat) -> HierarchyView
    decreases i,
{
    if i == 0 {
        h
    } else {
        veb_round(veb_rounds(h, trees, values, (i - 1) as nat), trees, values[i - 1], trees.len())
    }
}

/// The hierarchy after a lookup of `v` in each of `trees[..k]` in turn.
pub open spec fn btree_round(h: HierarchyView, trees: Seq<BTree>, v: u64, k: nat) -> HierarchyView
    decreases k,
{
    if k == 0 {
        h
    } else {
        elem_reads(btree_round(h, trees, v, (k - 1) as nat), 0, 1, trees[k - 1].lookup_reads(v))
    }
}

/// The hierarchy after the lookups of `values[..i]`, each in every tree in
/// turn.
pub open spec fn btree_rounds(h: HierarchyView, trees: Seq<BTree>, values: Seq<u64>, i: nat) -> HierarchyView
    decreases i,
{
    if i == 0 {
        h
    } else {
        btree_round(btree_rounds(h, trees, values, (i - 1) as nat), trees, values[i - 1], trees.len())
    }
}

/// Looks each of `values`, in order, up in each of `trees` in turn (see
/// `Tree::get`), after checking that the lookup fits the counters; stops
/// with `NoRoom` where one does not, and with `Missing(v)` at the first
/// key `v` that a tree does not hold.
pub fn veb_reads(trees: &Vec<Tree>, values: &Vec<u64>, sim: &mut Simalloc) -> (r: Result<(), Shortfall>)
    requires
        forall|k: int| 0 <= k < trees@.len() ==> (#[trigger] trees@[k]).wf(),
        old(sim).wf(),
    ensures
        final(sim).wf(),
        final(sim).next_free() == old(sim).next_free(),
        r is Ok ==> forall|k: int, a: int|
            0 <= k < trees@.len() && 0 <= a < values@.len() ==> #[trigger] trees@[k]@.contains(
                #[trigger] values@[a],
            ),
        r matches Err(Shortfall::Missing(v)) ==> values@.contains(v) && exists|k: int|
            0 <= k < trees@.len() && !(#[trigger] trees@[k]@.contains(v)),
        r is Ok ==> final(sim)@ == veb_rounds(old(sim)@, trees@, values@, values@.len()),
        r matches Err(Shortfall::NoRoom) ==> !headroom(final(sim)@, 65),
{
    let ghost s0 = sim@;
    let mut i: usize = 0;
    while i < values.len()
        invariant
            i <= values@.len(),
            forall|k: int| 0 <= k < trees@.len() ==> (#[trigger] trees@[k]).wf(),
            forall|k: int, a: int|
                0 <= k < trees@.len() && 0 <= a < i ==> #[trigger] trees@[k]@.contains(#[trigger] values@[a]),
            sim.wf(),
            sim.next_free() == old(sim).next_free(),
            sim@ == veb_rounds(s0, trees@, values@, i as nat),
        decreases values@.len() - i,
    {
        let v = values[i];
        let mut j: usize = 0;
        let ghost base = sim@;
        while j < trees.len()
            invariant
                i < values@.len(),
                v == values@[i as int],
                j <= trees@.len(),
                forall|k: int| 0 <= k < trees@.len() ==> (#[trigger] trees@[k]).wf(),
                forall|k: int, a: int|
                    0 <= k < trees@.len() && 0 <= a < i ==> #[trigger] trees@[k]@.contains(
                        #[trigger] values@[a],
                    ),
                forall|k: int| 0 <= k < j ==> #[trigger] trees@[k]@.contains(v),
                sim.wf(),
                sim.next_free() == old(sim).next_free(),
                base == veb_rounds(s0, trees@, values@, i as nat),
                sim@ == veb_round(base, trees@, v, j as nat),
            decreases trees@.len() - j,
        {
            if !trees[j].room_for_get(sim) {
                return Err(Shortfall::NoRoom);
            }
            let found = trees[j].get(&v, sim);
            if found.is_none() {
                proof {
                    assert(values@[i as int] == v);
                    assert(values@.contains(v));
                    assert(!trees@[j as int]@.contains(v));
                }
                return Err(Shortfall::Missing(v));
            }
            j = j + 1;
        }
        proof {
            assert(values@[i as int] == v);
            assert(veb_rounds(s0, trees@, values@, (i + 1) as nat) == veb_round(base, trees@, v, trees@.len()));
        }
        i = i + 1;
    }
    Ok(())
}

/// Puts each of `values`, in order, into each of `trees` in turn (see
/// `BTree::insert`), after checking that the insertion fits the simulated
/// memory; stops with `NoRoom` where one does not.
#[verifier::rlimit(40)]
pub fn btree_inserts(trees: &mut Vec<BTree>, values: &Vec<u64>, sim: &mut Simalloc) -> (r: Result<(), Shortfall>)
    requires
        forall|k: int| 0 <= k < old(trees)@.len() ==> (#[trigger] old(trees)@[k]).wf(),
        old(sim).wf(),
    ensures
        final(trees)@.len() == old(trees)@.len(),
        forall|k: int| 0 <= k < final(trees)@.len() ==> (#[trigger] final(trees)@[k]).wf(),
        final(sim).wf(),
        final(sim).next_free() >= old(sim).next_free(),
        r is Ok ==> forall|k: int, x: u64|
            0 <= k < final(trees)@.len() ==> #[trigger] final(trees)@[k]@.contains(x) == (old(
                trees,
            )@[k]@.contains(x) || values@.contains(x)),
        r matches Err(e) ==> e is NoRoom,
        r is Err ==> exists|k: int|
            0 <= k < final(trees)@.len() && !(#[trigger] final(trees)@[k]).insert_room(
                final(sim)@,
                final(sim).next_free(),
            ),
        forall|k: int, x: u64|
            0 <= k < final(trees)@.len() && #[trigger] final(trees)@[k]@.contains(x) ==> old(
                trees,
            )@[k]@.contains(x) || values@.contains(x),
        exists|steps: Seq<(int, int, BTree, nat)>, states: Seq<HierarchyView>|
            #[trigger] btree_insert_steps(old(trees)@, values@, steps, states) && states[0] == old(sim)@
                && states.last() == final(sim)@ && (r is Ok ==> steps.len() == values@.len()
                * old(trees)@.len()),
{
    let ghost t0 = trees@;
    let ghost s0 = sim@;
    let ghost mut steps: Seq<(int, int, BTree, nat)> = Seq::empty();
    let ghost mut states: Seq<HierarchyView> = seq![s0];
    let mut i: usize = 0;
    while i < values.len()
        invariant
            i <= values@.len(),
            t0 == old(trees)@,
            trees@.len() == t0.len(),
            forall|k: int| 0 <= k < trees@.len() ==> (#[trigger] trees@[k]).wf(),
            forall|k: int, x: u64|
                0 <= k < trees@.len() ==> #[trigger] trees@[k]@.contains(x) == (t0[k]@.contains(x)
                    || values@.subrange(0, i as int).contains(x)),
            sim.wf(),
            sim.next_free() >= old(sim).next_free(),
            s0 == old(sim)@,
            btree_insert_steps(t0, values@, steps, states),
            steps.len() == i * t0.len(),
            states[0] == s0,
            states.last() == sim@,
        decreases values@.len() - i,
    {
        let v = values[i];
        let ghost before = trees@;
        let mut j: usize = 0;
        while j < trees.len()
            invariant
                i < values@.len(),
                v == values@[i as int],
                j <= trees@.len(),
                t0 == old(trees)@,
                trees@.len() == t0.len(),
                before.len() == t0.len(),
                forall|k: int| 0 <= k < trees@.len() ==> (#[trigger] trees@[k]).wf(),
                forall|k: int, x: u64|
                    0 <= k < before.len() ==> #[trigger] before[k]@.contains(x) == (t0[k]@.contains(x)
                        || values@.subrange(0, i as int).contains(x)),
                forall|k: int, x: u64|
                    0 <= k < j ==> #[trigger] trees@[k]@.contains(x) == (before[k]@.contains(x) || x
                        == v),
                forall|k: int| j <= k < trees@.len() ==> #[trigger] trees@[k] == before[k],
                sim.wf(),
                sim.next_free() >= old(sim).next_free(),
                s0 == old(sim)@,
                btree_insert_steps(t0, values@, steps, states),
                steps.len() == i * t0.len() + j,
                states[0] == s0,
                states.last() == sim@,
            decreases trees@.len() - j,
        {
            let ghost pre = trees@;
            let mut t = trees.remove(j);
            if !t.room_for_insert(sim) {
                trees.insert(j, t);
                proof {
                    assert(trees@ =~= pre);
                    assert forall|k: int, x: u64|
                        0 <= k < trees@.len() && #[trigger] trees@[k]@.contains(x) implies t0[k]@.contains(x)
                        || values@.contains(x) by {
                        if k >= j {
                            assert(trees@[k] == before[k]);
                        }
                        if values@.subrange(0, i as int).contains(x) {
                            let a = choose|a: int| 0 <= a < i && values@.subrange(0, i as int)[a] == x;
                            assert(values@[a] == x);
                        }
                        if x == v {
                            assert(values@[i as int] == x);
                        }
                    }
                    assert(!trees@[j as int].insert_room(sim@, sim.next_free()));
                }
                return Err(Shortfall::NoRoom);
            }
            let ghost tb = t;
            let ghost nf = sim.next_free();
            let ghost sb = sim@;
            t.insert(v, sim);
            proof {
                let step = (i as int, j as int, tb, nf);
                let steps2 = steps.push(step);
                let states2 = states.push(sim@);
                assert(tb == before[j as int]);
                assert(btree_insert_step(t0, values@, steps.len() as int, step, sb, sim@));
                assert forall|m: int| 0 <= m < steps2.len() implies #[trigger] btree_insert_step(
                    t0,
                    values@,
                    m,
                    steps2[m],
                    states2[m],
                    states2[m + 1],
                ) by {
                    if m < steps.len() {
                        assert(steps2[m] == steps[m]);
                        assert(states2[m] == states[m]);
                        assert(states2[m + 1] == states[m + 1]);
                    }
                }
                steps = steps2;
                states = states2;
            }
            proof {
                assert forall|x: u64| #[trigger] t@.contains(x) == (tb@.contains(x) || x == v) by {}
            }
            trees.insert(j, t);
            j = j + 1;
        }
        proof {
            assert forall|k: int, x: u64| 0 <= k < trees@.len() implies #[trigger] trees@[k]@.contains(x)
                == (t0[k]@.contains(x) || values@.subrange(0, i + 1).contains(x)) by {
                assert(trees@[k]@.contains(x) == (before[k]@.contains(x) || x == v));
                if values@.subrange(0, i as int).contains(x) {
                    let a = choose|a: int| 0 <= a < i && values@.subrange(0, i as int)[a] == x;
                    assert(values@.subrange(0, i + 1)[a] == x);
                }
                if x == v {
                    assert(values@.subrange(0, i + 1)[i as int] == x);
                }
                let longer = values@.subrange(0, i + 1);
                if longer.contains(x) {
                    let a = choose|a: int| 0 <= a < longer.len() && #[trigger] longer[a] == x;
                    if a < i {
                        assert(values@.subrange(0, i as int)[a] == x);
                    }
                }
            }
        }
        proof {
            assert(i * t0.len() + t0.len() == (i + 1) * t0.len()) by (nonlinear_arith);
        }
        i = i + 1;
    }
    proof {
        assert(values@.subrange(0, values@.len() as int) =~= values@);
    }
    Ok(())
}

/// Looks each of `values`, in order, up in each of `trees` in turn (see
/// `BTree::get`), after checking that the lookup fits the counters; stops
/// with `NoRoom` where one does not, and with `Missing(v)` at the first
/// key `v` that a tree does not hold.
pub fn btree_reads(trees: &Vec<BTree>, values: &Vec<u64>, sim: &mut Simalloc) -> (r: Result<(), Shortfall>)
    requires
        forall|k: int| 0 <= k < trees@.len() ==> (#[trigger] trees@[k]).wf(),
        old(sim).wf(),
    ensures
        final(sim).wf(),
        final(sim).next_free() == old(sim).next_free(),
        r is Ok ==> forall|k: int, a: int|
            0 <= k < trees@.len() && 0 <= a < values@.len() ==> #[trigger] trees@[k]@.contains(
                #[trigger] values@[a],
            ),
        r matches Err(Shortfall::Missing(v)) ==> values@.contains(v) && exists|k: int|
            0 <= k < trees@.len() && !(#[trigger] trees@[k]@.contains(v)),
        r is Ok ==> final(sim)@ == btree_rounds(old(sim)@, trees@, values@, values@.len()),
        r matches Err(Shortfall::NoRoom) ==> exists|k: int|
            0 <= k < trees@.len() && !headroom(final(sim)@, (#[trigger] trees@[k]).get_cost()),
{
    let ghost s0 = sim@;
    let mut i: usize = 0;
    while i < values.len()
        invariant
            i <= values@.len(),
            forall|k: int| 0 <= k < trees@.len() ==> (#[trigger] trees@[k]).wf(),
            forall|k: int, a: int|
                0 <= k < trees@.len() && 0 <= a < i ==> #[trigger] trees@[k]@.contains(#[trigger] values@[a]),
            sim.wf(),
            sim.next_free() == old(sim).next_free(),
            sim@ == btree_rounds(s0, trees@, values@, i as nat),
        decreases values@.len() - i,
    {
        let v = values[i];
        let mut j: usize = 0;
        let ghost base = sim@;
        while j < trees.len()
            invariant
                i < values@.len(),
                v == values@[i as int],
                j <= trees@.len(),
                forall|k: int| 0 <= k < trees@.len() ==> (#[trigger] trees@[k]).wf(),
                forall|k: int, a: int|
                    0 <= k < trees@.len() && 0 <= a < i ==> #[trigger] trees@[k]@.contains(
                        #[trigger] values@[a],
                    ),
                forall|k: int| 0 <= k < j ==> #[trigger] trees@[k]@.contains(v),
                sim.wf(),
                sim.next_free() == old(sim).next_free(),
                base == btree_rounds(s0, trees@, values@, i as nat),
                sim@ == btree_round(base, trees@, v, j as nat),
            decreases trees@.len() - j,
        {
            if !trees[j].room_for_get(sim) {
                return Err(Shortfall::NoRoom);
            }
            let found = trees[j].get(&v, sim);
            if found.is_none() {
                proof {
                    assert(values@[i as int] == v);
                    assert(values@.contains(v));
                    assert(!trees@[j as int]@.contains(v));
                }
                return Err(Shortfall::Missing(v));
            }
            j = j + 1;
        }
        proof {
            assert(values@[i as int] == v);
            assert(btree_rounds(s0, trees@, values@, (i + 1) as nat) == btree_round(base, trees@, v, trees@.len()));
        }
        i = i + 1;
    }
    Ok(())
}


/// Trees in the small-height layout that started empty and took `values`
/// by a run of insertions hold exactly those values: a lookup
/// (`Tree::get`) finds each of them and nothing else.
pub proof fn lemma_veb_run_holds_values(t0: Seq<Tree>, t1: Seq<Tree>, values: Seq<u64>)
    requires
        t1.len() == t0.len(),
        forall|k: int| 0 <= k < t0.len() ==> (#[trigger] t0[k])@.len() == 0,
        forall|k: int, x: u64|
            0 <= k < t1.len() ==> #[trigger] t1[k]@.contains(x) == (t0[k]@.contains(x) || values.contains(x)),
    ensures
        forall|k: int, x: u64| 0 <= k < t1.len() ==> #[trigger] t1[k]@.contains(x) == values.contains(x),
{
    assert forall|k: int, x: u64| 0 <= k < t1.len() implies #[trigger] t1[k]@.contains(x) == values.contains(x) by {
        assert(t0[k]@.len() == 0);
        assert(t1[k]@.contains(x) == (t0[k]@.contains(x) || values.contains(x)));
    }
}

/// B-trees that started empty and took `values` by a run of insertions
/// hold exactly those values: a lookup (`BTree::get`) finds each of them
/// and nothing else.
pub proof fn lemma_btree_run_holds_values(t0: Seq<BTree>, t1: Seq<BTree>, values: Seq<u64>)
    requires
        t1.len() == t0.len(),
        forall|k: int| 0 <= k < t0.len() ==> (#[trigger] t0[k])@ == Set::<u64>::empty(),
        forall|k: int, x: u64|
            0 <= k < t1.len() ==> #[trigger] t1[k]@.contains(x) == (t0[k]@.contains(x) || values.contains(x)),
    ensures
        forall|k: int, x: u64| 0 <= k < t1.len() ==> #[trigger] t1[k]@.contains(x) == values.contains(x),
{
    assert forall|k: int, x: u64| 0 <= k < t1.len() implies #[trigger] t1[k]@.contains(x) == values.contains(x) by {
        assert(t0[k]@ == Set::<u64>::empty());
        assert(t1[k]@.contains(x) == (t0[k]@.contains(x) || values.contains(x)));
    }
}

/// A tree in the small-height layout that starts empty and takes `values`
/// one by one through `Tree::insert` (each step as its contract says:
/// unchanged where the key is held, else the key put in) holds exactly
/// those values at the end: `Tree::get` finds each of them and nothing
/// else. `ts[i]` is the tree before the insertion of `values[i]`.
pub proof fn lemma_veb_inserts_found(ts: Seq<Tree>, values: Seq<u64>)
    requires
        ts.len() == values.len() + 1,
        ts[0]@.len() == 0,
        forall|i: int|
            0 <= i < values.len() ==> (ts[i]@.contains(values[i]) ==> #[trigger] ts[i + 1]@ == ts[i]@)
                && (!ts[i]@.contains(values[i]) ==> inserted(ts[i]@, ts[i + 1]@, values[i])),
    ensures
        forall|x: u64| #[trigger] ts.last()@.contains(x) == values.contains(x),
    decreases values.len(),
{
    if values.len() > 0 {
        let k = values.len() - 1;
        let front = values.drop_last();
        let tf = ts.drop_last();
        assert forall|i: int| 0 <= i < front.len() implies (tf[i]@.contains(front[i]) ==> #[trigger] tf[i
            + 1]@ == tf[i]@) && (!tf[i]@.contains(front[i]) ==> inserted(tf[i]@, tf[i + 1]@, front[i])) by {
            assert(ts[i + 1]@ == ts[i]@ || !ts[i]@.contains(values[i]));
        }
        lemma_veb_inserts_found(tf, front);
        assert(tf.last() == ts[k]);
        assert forall|x: u64| #[trigger] ts.last()@.contains(x) == values.contains(x) by {
            assert(ts[k + 1]@ == ts[k]@ || !ts[k]@.contains(values[k]));
            assert(values =~= front.push(values[k]));
            if front.contains(x) {
                let a = choose|a: int| 0 <= a < front.len() && front[a] == x;
                assert(values[a] == x);
            }
            if values.contains(x) {
                let a = choose|a: int| 0 <= a < values.len() && values[a] == x;
                if a < k {
                    assert(front[a] == x);
                }
            }
        }
    }
}

/// A B-tree that starts empty and takes `values` one by one through
/// `BTree::insert` holds exactly those values at the end: `BTree::get` finds
/// each of them and nothing else. `ts[i]` is the tree before the insertion
/// of `values[i]`.
pub proof fn lemma_btree_inserts_found(ts: Seq<BTree>, values: Seq<u64>)
    requires
        ts.len() == values.len() + 1,
        ts[0]@ == Set::<u64>::empty(),
        forall|i: int| 0 <= i < values.len() ==> #[trigger] ts[i + 1]@ == ts[i]@.insert(values[i]),
    ensures
        forall|x: u64| #[trigger] ts.last()@.contains(x) == values.contains(x),
    decreases values.len(),
{
    if values.len() > 0 {
        let k = values.len() - 1;
        let front = values.drop_last();
        let tf = ts.drop_last();
        assert forall|i: int| 0 <= i < front.len() implies #[trigger] tf[i + 1]@ == tf[i]@.insert(front[i]) by {
            assert(ts[i + 1]@ == ts[i]@.insert(values[i]));
        }
        lemma_btree_inserts_found(tf, front);
        assert(tf.last() == ts[k]);
        assert forall|x: u64| #[trigger] ts.last()@.contains(x) == values.contains(x) by {
            assert(ts[k + 1]@ == ts[k]@.insert(values[k]));
            assert(values =~= front.push(values[k]));
            if front.contains(x) {
                let a = choose|a: int| 0 <= a < front.len() && front[a] == x;
                assert(values[a] == x);
            }
            if values.contains(x) {
                let a = choose|a: int| 0 <= a < values.len() && values[a] == x;
                if a < k {
                    assert(front[a] == x);
                }
            }
        }
    }
}

/// A tree in the small-height layout and a B-tree that took the same keys
/// into empty trees hold the same keys.
pub proof fn lemma_trees_agree(t: &Tree, b: &BTree, values: Seq<u64>)
    requires
        forall|x: u64| #[trigger] t@.contains(x) == values.contains(x),
        forall|x: u64| #[trigger] b@.contains(x) == values.contains(x),
    ensures
        t@.to_set() == b@,
{
    assert(t@.to_set() =~= b@);
}


/// The trees that a run can cover.
#[derive(PartialEq, Eq, Structural, Clone, Copy, Debug)]
pub enum TreeSpec {
    VEB,
    BTree4k,
    BTree2,
    Interleaved,
    All,
}

/// The order in which a run's keys come: ascending from 0, or drawn at
/// random.
#[derive(PartialEq, Eq, Structural, Clone, Copy, Debug)]
pub enum TestOrder {
    Asc,
    Rng,
}

/// Whether a run over `datastructure` covers `which`: it does where
/// `which` or `All` is listed.
pub fn runs(datastructure: &Vec<TreeSpec>, which: TreeSpec) -> (b: bool)
    ensures
        b == (datastructure@.contains(which) || datastructure@.contains(TreeSpec::All)),
{
    let mut i: usize = 0;
    while i < datastructure.len()
        invariant
            i <= datastructure@.len(),
            forall|j: int| 0 <= j < i ==> #[trigger] datastructure@[j] != which && datastructure@[j] != TreeSpec::All,
        decreases datastructure@.len() - i,
    {
        if datastructure[i] == which || datastructure[i] == TreeSpec::All {
            assert(datastructure@[i as int] == which || datastructure@[i as int] == TreeSpec::All);
            return true;
        }
        i = i + 1;
    }
    false
}

/// The keys of a run: `0, 1, ..., num_values - 1` in ascending order, or
/// `num_values` draws of 64 bits from `rng`.
pub fn test_values(order: TestOrder, num_values: usize, rng: &mut Mcg128Xsl64) -> (v: Vec<u64>)
    ensures
        v@.len() == num_values,
        order is Asc ==> forall|i: int| 0 <= i < num_values ==> #[trigger] v@[i] == i,
{
    let mut v: Vec<u64> = Vec::new();
    let mut i: usize = 0;
    while i < num_values
        invariant
            i <= num_values,
            v@.len() == i,
            order is Asc ==> forall|k: int| 0 <= k < i ==> #[trigger] v@[k] == k,
        decreases num_values - i,
    {
        let x = match order {
            TestOrder::Asc => i as u64,
            TestOrder::Rng => next_u64(rng),
        };
        v.push(x);
        i = i + 1;
    }
    v
}

/// The base addresses of `num_trees` trees spread at random over the lower
/// half of the address space, each a multiple of `2^align_log2`: each is a
/// draw below `2^(63 - align_log2)` from `rng`, shifted up by `align_log2`
/// bits.
pub fn random_roots(num_trees: usize, align_log2: u32, rng: &mut Mcg128Xsl64) -> (roots: Vec<usize>)
    requires
        align_log2 < 63,
        pow2(63) <= usize::MAX,
    ensures
        roots@.len() == num_trees,
        forall|k: int|
            0 <= k < num_trees ==> (#[trigger] roots@[k] as nat) % pow2(align_log2 as nat) == 0 && roots@[k] < pow2(63),
{
    proof {
        lemma_pow2_adds((63 - align_log2) as nat, align_log2 as nat);
        lemma_pow2_strictly_increases(align_log2 as nat, 63);
        if align_log2 > 0 {
            lemma_pow2_strictly_increases((63 - align_log2) as nat, 63);
        }
        lemma_pow2_pos(align_log2 as nat);
        lemma_pow2_pos((63 - align_log2) as nat);
    }
    let span = pow2_usize(63 - align_log2);
    let step = pow2_usize(align_log2);
    let mut roots: Vec<usize> = Vec::new();
    let mut i: usize = 0;
    while i < num_trees
        invariant
            i <= num_trees,
            roots@.len() == i,
            span == pow2((63 - align_log2) as nat),
            step == pow2(align_log2 as nat),
            span * step == pow2(63),
            step > 0,
            span > 0,
            pow2(63) <= usize::MAX,
            forall|k: int|
                0 <= k < i ==> (#[trigger] roots@[k] as nat) % pow2(align_log2 as nat) == 0 && roots@[k] < pow2(63),
        decreases num_trees - i,
    {
        let r = random_below(rng, span);
        proof {
            lemma_mul_strict_inequality(r as int, span as int, step as int);
            lemma_mul_is_commutative(r as int, step as int);
            vstd::arithmetic::div_mod::lemma_mod_multiples_basic(r as int, step as int);
        }
        let root = r * step;
        roots.push(root);
        i = i + 1;
    }
    roots
}

/// The slots of the complete tree that a layout of `set_size` keys spans:
/// one less than the least power of two above `set_size` (as
/// `next_power_of_two` gives it).
pub fn veb_tree_size(set_size: usize) -> (n: usize)
    requires
        pow2(ceil_log2(set_size as nat + 1)) <= usize::MAX,
    ensures
        n + 1 == pow2(ceil_log2(set_size as nat + 1)),
{
    let ghost c = ceil_log2(set_size as nat + 1);
    proof {
        lemma_ceil_log2(set_size as nat + 1);
    }
    let mut p: usize = 1;
    let ghost mut k: nat = 0;
    proof {
        lemma2_to64();
    }
    while p <= set_size
        invariant
            p == pow2(k),
            k <= c,
            pow2(c) <= usize::MAX,
            pow2(c) >= set_size + 1,
            c > 0 ==> pow2((c - 1) as nat) < set_size + 1,
            k > 0 ==> pow2((k - 1) as nat) <= set_size,
        decreases c - k,
    {
        proof {
            if k == c {
                assert(false);
            }
            lemma_pow2_strictly_increases(k, c);
            if k + 1 < c {
                lemma_pow2_strictly_increases(k + 1, c);
            }
            vstd::arithmetic::power2::lemma_pow2_unfold(k + 1);
        }
        p = p * 2;
        proof {
            k = k + 1;
        }
    }
    proof {
        if k + 1 < c {
            lemma_pow2_strictly_increases(k, (c - 1) as nat);
        }
    }
    p - 1
}

/// `x.ilog(base)`: the greatest `r` with `base^r <= x`.
pub fn int_log(x: usize, base: usize) -> (r: u32)
    requires
        x > 0,
        base >= 2,
    ensures
        pow(base as int, r as nat) <= x < pow(base as int, r as nat + 1),
{
    let mut r: u32 = 0;
    let mut p: usize = 1;
    proof {
        reveal(pow);
        lemma2_to64();
    }
    while p <= x / base
        invariant
            1 <= p <= x,
            base >= 2,
            p == pow(base as int, r as nat),
            pow2(r as nat) <= p,
            x <= usize::MAX,
        decreases x - p,
    {
        proof {
            assert(p * base <= x) by (nonlinear_arith)
                requires
                    p <= x / base,
                    base >= 2,
            ;
            assert(p * base >= 2 * p) by (nonlinear_arith)
                requires
                    base >= 2,
                    p >= 1,
            ;
            vstd::arithmetic::power2::lemma_pow2_unfold(r as nat + 1);
            if r >= 64 {
                if r > 64 {
                    lemma_pow2_strictly_increases(64, r as nat);
                }
                vstd::arithmetic::power2::lemma2_to64_rest();
                assert(false);
            }
            reveal(pow);
            assert(pow(base as int, r as nat + 1) == base * pow(base as int, r as nat));
            lemma_mul_is_commutative(p as int, base as int);
        }
        p = p * base;
        r = r + 1;
    }
    proof {
        assert(p * base > x) by (nonlinear_arith)
            requires
                p > x / base,
                base >= 2,
        ;
        reveal(pow);
        assert(pow(base as int, r as nat + 1) == base * pow(base as int, r as nat));
        lemma_mul_is_commutative(p as int, base as int);
    }
    r
}

} // verus!
