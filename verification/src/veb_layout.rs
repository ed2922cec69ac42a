//! The mathematics of the van Emde Boas (vEB) layout of a complete binary
//! tree: where each node lands in the array, and the per-depth table that
//! lets that position be computed from the positions of a node's ancestors.

use vstd::prelude::*;
use vstd::arithmetic::power2::*;
use vstd::arithmetic::div_mod::*;
use vstd::arithmetic::mul::*;

verus! {

/// Height of the top tree when a tree of height `h` is cut in two.
pub open spec fn top_height(h: nat) -> nat {
    if h <= 1 {
        0
    } else {
        ((h + 1) / 2) as nat
    }
}

/// Position, in the vEB layout of a complete tree of height `h`, of the node
/// at depth `r` whose path from the root is the `r`-bit number `q`
/// (bit `r - 1` is the first turn, 0 meaning left).
pub open spec fn vpos(h: nat, r: nat, q: nat) -> nat
    decreases h,
{
    if h <= 1 {
        0
    } else {
        let t = top_height(h);
        let b = (h - t) as nat;
        if r < t {
            vpos(t, r, q)
        } else {
            let k = (r - t) as nat;
            ((pow2(t) - 1) + (q / pow2(k)) * (pow2(b) - 1) + vpos(b, k, q % pow2(k))) as nat
        }
    }
}

/// The first two powers of two.
pub proof fn lemma_pow2_small()
    ensures
        pow2(0) == 1,
        pow2(1) == 2,
{
    lemma2_to64();
}

/// The root of every layout is at position 0.
pub proof fn lemma_vpos_root(h: nat, q: nat)
    ensures
        vpos(h, 0, q) == 0,
    decreases h,
{
    if h > 1 {
        lemma_vpos_root(top_height(h), q);
    }
}

/// Every node of a complete tree of height `h` lands inside its `2^h - 1` slots.
pub proof fn lemma_vpos_bound(h: nat, r: nat, q: nat)
    requires
        r < h,
        q < pow2(r),
    ensures
        vpos(h, r, q) < pow2(h) - 1,
    decreases h,
{
    lemma_pow2_small();
    if h > 1 {
        let t = top_height(h);
        let b = (h - t) as nat;
        lemma_pow2_adds(t, b);
        lemma_pow2_pos(t);
        lemma_pow2_pos(b);
        if r < t {
            lemma_vpos_bound(t, r, q);
            lemma_pow2_strictly_increases(t, h);
        } else {
            let k = (r - t) as nat;
            lemma_pow2_adds(t, k);
            lemma_pow2_pos(k);
            let pk = pow2(k) as int;
            let pt = pow2(t) as int;
            let pb = pow2(b) as int;
            let j = q as int / pk;
            lemma_fundamental_div_mod(q as int, pk);
            lemma_mod_bound(q as int, pk);
            assert(j < pt) by (nonlinear_arith)
                requires
                    q == pk * j + (q as int % pk),
                    0 <= q as int % pk,
                    q < pt * pk,
                    pk > 0,
            ;
            lemma_vpos_bound(b, k, q % pow2(k));
            let inner = vpos(b, k, q % pow2(k)) as int;
            assert(j * (pb - 1) + inner < pt * pb - pt) by (nonlinear_arith)
                requires
                    0 <= j < pt,
                    0 <= inner < pb - 1,
                    pb >= 2,
            ;
        }
    }
}


/// Distinct nodes of a complete tree land in distinct slots.
pub proof fn lemma_vpos_injective(h: nat, r1: nat, q1: nat, r2: nat, q2: nat)
    requires
        r1 < h,
        q1 < pow2(r1),
        r2 < h,
        q2 < pow2(r2),
        vpos(h, r1, q1) == vpos(h, r2, q2),
    ensures
        r1 == r2,
        q1 == q2,
    decreases h,
{
    lemma_pow2_small();
    if h > 1 {
        let t = top_height(h);
        let b = (h - t) as nat;
        lemma_pow2_pos(t);
        lemma_pow2_pos(b);
        lemma_pow2_strictly_increases(0, b);
        if r1 < t && r2 < t {
            lemma_vpos_injective(t, r1, q1, r2, q2);
        } else if r1 < t {
            lemma_vpos_bound(t, r1, q1);
            lemma_vpos_injective_top_bottom(h, r1, q1, r2, q2);
        } else if r2 < t {
            lemma_vpos_bound(t, r2, q2);
            lemma_vpos_injective_top_bottom(h, r2, q2, r1, q1);
        } else {
            let k1 = (r1 - t) as nat;
            let k2 = (r2 - t) as nat;
            lemma_pow2_pos(k1);
            lemma_pow2_pos(k2);
            lemma_mod_bound(q1 as int, pow2(k1) as int);
            lemma_mod_bound(q2 as int, pow2(k2) as int);
            lemma_vpos_bound(b, k1, q1 % pow2(k1));
            lemma_vpos_bound(b, k2, q2 % pow2(k2));
            let j1 = (q1 / pow2(k1)) as int;
            let j2 = (q2 / pow2(k2)) as int;
            let i1 = vpos(b, k1, q1 % pow2(k1)) as int;
            let i2 = vpos(b, k2, q2 % pow2(k2)) as int;
            let bb = pow2(b) - 1;
            assert(j1 * bb + i1 == j2 * bb + i2);
            lemma_fundamental_div_mod_converse(j1 * bb + i1, bb, j1, i1);
            lemma_fundamental_div_mod_converse(j2 * bb + i2, bb, j2, i2);
            lemma_vpos_injective(b, k1, q1 % pow2(k1), k2, q2 % pow2(k2));
            lemma_fundamental_div_mod(q1 as int, pow2(k1) as int);
            lemma_fundamental_div_mod(q2 as int, pow2(k2) as int);
        }
    }
}

proof fn lemma_vpos_injective_top_bottom(h: nat, r1: nat, q1: nat, r2: nat, q2: nat)
    requires
        h > 1,
        r1 < top_height(h) <= r2,
        vpos(top_height(h), r1, q1) < pow2(top_height(h)) - 1,
    ensures
        vpos(h, r1, q1) != vpos(h, r2, q2),
{
    let t = top_height(h);
    let b = (h - t) as nat;
    let k = (r2 - t) as nat;
    lemma_pow2_pos(k);
    lemma_pow2_pos(b);
    let j = (q2 / pow2(k)) as int;
    assert(j * (pow2(b) - 1) >= 0) by (nonlinear_arith)
        requires
            j >= 0,
            pow2(b) >= 1,
    ;
}


/// `(top_tree_size, bottom_tree_size, top_tree_root_depth)` for depth `d`
/// inside a subtree of height `h` whose root sits at depth `root`: the cut of
/// the recursive vEB decomposition at which depth `d` is the root of a bottom
/// tree.
pub open spec fn level_info(h: nat, root: nat, d: nat) -> (nat, nat, nat)
    decreases h,
{
    let t = top_height(h);
    let b = (h - t) as nat;
    if d == root + t {
        ((pow2(t) - 1) as nat, (pow2(b) - 1) as nat, root)
    } else if d < root + t && h > 2 {
        level_info(t, root, d)
    } else if d > root + t && b > 1 {
        level_info(b, root + t, d)
    } else {
        (0, 0, 0)
    }
}

/// Entry `d` of the lookup table for a complete tree of height `height`.
pub open spec fn table_entry(height: nat, d: nat) -> (nat, nat, nat) {
    if d == 0 {
        (0, (pow2(height) - 1) as nat, 0)
    } else {
        level_info(height, 0, d)
    }
}

/// Inside a subtree of height `h` rooted at depth `root` of the whole tree of
/// height `hh`, each node's position is the subtree root's position plus its
/// position in the subtree's own layout.
pub open spec fn frame_ok(hh: nat, h: nat, root: nat) -> bool {
    forall|d: nat, q: nat|
        root <= d < root + h && q < pow2(d) ==> #[trigger] vpos(hh, d, q) == vpos(
            hh,
            root,
            q / pow2((d - root) as nat),
        ) + vpos(h, (d - root) as nat, q % pow2((d - root) as nat))
}

proof fn lemma_frame_whole(hh: nat)
    ensures
        frame_ok(hh, hh, 0),
{
    lemma_vpos_root(hh, 0);
    assert forall|d: nat, q: nat| 0 <= d < 0 + hh && q < pow2(d) implies #[trigger] vpos(hh, d, q)
        == vpos(hh, 0, q / pow2((d - 0) as nat)) + vpos(
        hh,
        (d - 0) as nat,
        q % pow2((d - 0) as nat),
    ) by {
        lemma_pow2_pos(d);
        lemma_small_mod(q, pow2(d));
        lemma_basic_div(q as int, pow2(d) as int);
    }
}

proof fn lemma_frame_top(hh: nat, h: nat, root: nat)
    requires
        h > 1,
        frame_ok(hh, h, root),
    ensures
        frame_ok(hh, top_height(h), root),
{
    let t = top_height(h);
    assert forall|d: nat, q: nat| root <= d < root + t && q < pow2(d) implies #[trigger] vpos(
        hh,
        d,
        q,
    ) == vpos(hh, root, q / pow2((d - root) as nat)) + vpos(
        t,
        (d - root) as nat,
        q % pow2((d - root) as nat),
    ) by {
        assert(root <= d < root + h);
    let r = (d - root) as nat;
        assert(vpos(hh, d, q) == vpos(hh, root, q / pow2(r)) + vpos(h, r, q % pow2(r)));
        lemma_vpos_top(h, r, q % pow2(r));
    }
}

proof fn lemma_split_path(q: nat, k: nat, t: nat)
    ensures
        (q / pow2(k)) / pow2(t) == q / pow2(k + t),
        (q % pow2(k + t)) / pow2(k) == (q / pow2(k)) % pow2(t),
        (q % pow2(k + t)) % pow2(k) == q % pow2(k),
{
    lemma_pow2_pos(k);
    lemma_pow2_pos(t);
    lemma_pow2_adds(k, t);
    let pk = pow2(k) as int;
    let pt = pow2(t) as int;
    lemma_div_denominator(q as int, pk, pt);
    lemma_mod_mod(q as int, pk, pt);
    lemma_mod_breakdown(q as int, pk, pt);
    lemma_mod_bound(q as int, pk);
    lemma_mod_bound(q as int / pk, pt);
    lemma_div_multiples_vanish_fancy((q as int / pk) % pt, q as int % pk, pk);
}

proof fn lemma_frame_bottom(hh: nat, h: nat, root: nat)
    requires
        h > 1,
        frame_ok(hh, h, root),
    ensures
        frame_ok(hh, (h - top_height(h)) as nat, root + top_height(h)),
{
    let t = top_height(h);
    let b = (h - t) as nat;
    let rt = root + t;
    lemma_pow2_small();
    assert forall|d: nat, q: nat| rt <= d < rt + b && q < pow2(d) implies #[trigger] vpos(hh, d, q)
        == vpos(hh, rt, q / pow2((d - rt) as nat)) + vpos(
        b,
        (d - rt) as nat,
        q % pow2((d - rt) as nat),
    ) by {
        lemma_frame_bottom_at(hh, h, root, d, q);
    }
}


proof fn lemma_frame_bottom_at(hh: nat, h: nat, root: nat, d: nat, q: nat)
    requires
        h > 1,
        frame_ok(hh, h, root),
        root + top_height(h) <= d < root + h,
        q < pow2(d),
    ensures
        vpos(hh, d, q) == vpos(hh, root + top_height(h), q / pow2((d - root - top_height(h)) as nat))
            + vpos((h - top_height(h)) as nat, (d - root - top_height(h)) as nat, q % pow2(
            (d - root - top_height(h)) as nat,
        )),
{
    let t = top_height(h);
    let b = (h - t) as nat;
    let rt = root + t;
    lemma_pow2_small();
    let r = (d - root) as nat;
        let k = (d - rt) as nat;
        assert(r == k + t);
        let qb = q / pow2(k);
        lemma_pow2_pos(k);
        lemma_pow2_adds(rt, k);
        lemma_div_by_multiple_is_strongly_ordered_helper(q, pow2(rt), pow2(k));
        assert(qb < pow2(rt));
        assert(root <= rt < root + h);
        assert(vpos(hh, rt, qb) == vpos(hh, root, qb / pow2(t)) + vpos(h, t, qb % pow2(t)));
        assert(vpos(hh, d, q) == vpos(hh, root, q / pow2(r)) + vpos(h, r, q % pow2(r)));
        lemma_split_path(q, k, t);
        lemma_vpos_bottom_root(h, qb % pow2(t));
        lemma_vpos_bottom(h, r, q % pow2(r));
        assert((q % pow2(r)) / pow2(k) == qb % pow2(t));
        assert((q % pow2(r)) % pow2(k) == q % pow2(k));
        assert(qb / pow2(t) == q / pow2(r));
        assert(vpos(h, r, q % pow2(r)) == (pow2(t) - 1) + (qb % pow2(t)) * (pow2(b) - 1) + vpos(
            b,
            k,
            q % pow2(k),
        ));
        let va = vpos(hh, root, q / pow2(r));
        let vb = vpos(hh, root, qb / pow2(t));
        assert(va == vb);
        let x = (qb % pow2(t)) * (pow2(b) - 1);
        assert(vpos(h, t, qb % pow2(t)) == (pow2(t) - 1) + (qb % pow2(t)) * (pow2(b) - 1));
        assert(vpos(h, t, qb % pow2(t)) == (pow2(t) - 1) + x);
        assert(vpos(hh, rt, qb) == vb + vpos(h, t, qb % pow2(t)));
        let y = vpos(h, t, qb % pow2(t));
        let w = vpos(h, r, q % pow2(r));
        let z = vpos(b, k, q % pow2(k));
        let vrt = vpos(hh, rt, qb);
        let vd = vpos(hh, d, q);
        assert(vrt == vb + y);
        assert(y == (pow2(t) - 1) + x);
        assert(w == (pow2(t) - 1) + x + z);
        assert(vd == va + w);
        let p = pow2(t) - 1;
        assert(vd == vrt + z) by (nonlinear_arith)
            requires
                vrt == vb + y,
                y == p + x,
                w == p + x + z,
                vd == va + w,
                va == vb,
        ;
}

/// `q < a * c` implies `q / c < a`.
proof fn lemma_div_by_multiple_is_strongly_ordered_helper(q: nat, a: nat, c: nat)
    requires
        c > 0,
        q < a * c,
    ensures
        q / c < a,
{
    lemma_fundamental_div_mod(q as int, c as int);
    lemma_mod_bound(q as int, c as int);
    let j = q as int / c as int;
    assert(j < a) by (nonlinear_arith)
        requires
            q == c * j + (q as int % c as int),
            0 <= q as int % c as int,
            q < a * c,
            c > 0,
    ;
}

/// The table entry of depth `d` gives its node's position from the position
/// of its ancestor at depth `D`:
/// `pos = pos(ancestor) + T + (path mod (T + 1)) * B`.
proof fn lemma_level_formula(hh: nat, h: nat, root: nat, d: nat, q: nat)
    requires
        frame_ok(hh, h, root),
        root < d < root + h,
        q < pow2(d),
    ensures
        ({
            let (tt, bb, dd) = level_info(h, root, d);
            &&& root <= dd < d
            &&& tt + 1 == pow2((d - dd) as nat)
            &&& bb < pow2(h)
            &&& vpos(hh, d, q) == vpos(hh, dd, q / pow2((d - dd) as nat)) + tt + (q % pow2(
                (d - dd) as nat,
            )) * bb
        }),
    decreases h,
{
    lemma_pow2_small();
    let t = top_height(h);
    let b = (h - t) as nat;
    lemma_pow2_pos(t);
    lemma_pow2_pos(b);
    if d == root + t {
        lemma_vpos_bottom_root(h, q % pow2(t));
        lemma_pow2_strictly_increases(b, h);
        assert(level_info(h, root, d) == ((pow2(t) - 1) as nat, (pow2(b) - 1) as nat, root));
        assert(vpos(hh, d, q) == vpos(hh, root, q / pow2(t)) + vpos(h, t, q % pow2(t)));
    } else if d < root + t {
        assert(h > 2);
        assert(level_info(h, root, d) == level_info(t, root, d));
        lemma_frame_top(hh, h, root);
        lemma_level_formula(hh, t, root, d, q);
        lemma_pow2_strictly_increases(t, h);
    } else {
        assert(b > 1);
        assert(level_info(h, root, d) == level_info(b, root + t, d));
        lemma_frame_bottom(hh, h, root);
        lemma_level_formula(hh, b, root + t, d, q);
        lemma_pow2_strictly_increases(b, h);
    }
}

/// The lookup-table formula, stated for the whole tree: for `1 <= d < height`,
/// with `(T, B, D) = table_entry(height, d)`, the node at depth `d` with path
/// `q` lands at `vpos(ancestor at D) + T + (q mod (T + 1)) * B`.
pub proof fn lemma_table_formula(height: nat, d: nat, q: nat)
    requires
        1 <= d < height,
        q < pow2(d),
    ensures
        ({
            let (tt, bb, dd) = table_entry(height, d);
            &&& dd < d
            &&& tt + 1 == pow2((d - dd) as nat)
            &&& bb < pow2(height)
            &&& vpos(height, d, q) == vpos(height, dd, q / pow2((d - dd) as nat)) + tt + (q
                % pow2((d - dd) as nat)) * bb
        }),
{
    lemma_frame_whole(height);
    lemma_level_formula(height, height, 0, d, q);
    lemma_pow2_strictly_increases((height - top_height(height)) as nat, height);
}


proof fn lemma_vpos_top(h: nat, r: nat, x: nat)
    requires
        h > 1,
        r < top_height(h),
    ensures
        vpos(h, r, x) == vpos(top_height(h), r, x),
{
}

proof fn lemma_vpos_bottom(h: nat, r: nat, x: nat)
    requires
        h > 1,
        top_height(h) <= r,
    ensures
        ({
            let t = top_height(h);
            let b = (h - t) as nat;
            let k = (r - t) as nat;
            vpos(h, r, x) == (pow2(t) - 1) + (x / pow2(k)) * (pow2(b) - 1) + vpos(b, k, x % pow2(k))
        }),
{
    let t = top_height(h);
    let b = (h - t) as nat;
    let k = (r - t) as nat;
    lemma_pow2_pos(b);
    lemma_pow2_pos(t);
    lemma_pow2_pos(k);
    let j = x / pow2(k);
    assert(j * (pow2(b) - 1) >= 0) by (nonlinear_arith)
        requires
            pow2(b) >= 1,
    ;
}

proof fn lemma_vpos_bottom_root(h: nat, x: nat)
    requires
        h > 1,
    ensures
        vpos(h, top_height(h), x) == (pow2(top_height(h)) - 1) + x * (pow2(
            (h - top_height(h)) as nat,
        ) - 1),
{
    lemma_pow2_small();
    lemma_pow2_pos(top_height(h));
    let b = (h - top_height(h)) as nat;
    lemma_pow2_pos(b);
    lemma_vpos_root(b, x % pow2(0));
    lemma_div_basics(x as int);
    assert(x * (pow2(b) - 1) >= 0) by (nonlinear_arith)
        requires
            pow2(b) >= 1,
    ;
    assert(vpos(h, top_height(h), x) == ((pow2(top_height(h)) - 1) + (x / pow2(0)) * (pow2(b) - 1)
        + vpos(b, 0, x % pow2(0))) as nat);
}
} // verus!
