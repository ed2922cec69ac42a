//! B-tree nodes: how many keys fit a node of a given size, and searches of a
//! B-tree of such nodes run against a simulated cache hierarchy.

use vstd::prelude::*;
use vstd::arithmetic::power2::*;
use vstd::arithmetic::div_mod::*;
use vstd::layout::{size_of, align_of, layout_for_type_is_valid};
use rand_pcg::Mcg128Xsl64;
use crate::hierarchy::{
    Hierarchy, HierarchyView, addr_step, hierarchy_idle, headroom, access_list, counted_within,
    lemma_counted_trans, lemma_headroom_after,
};
use crate::rng::{next_u32, random_at_most, seeded_below, seeded_draw_below};
use crate::simalloc::{Simalloc, touch_counted, elem_reads, lemma_elem_reads_push, lemma_elem_reads_concat, round16};
use crate::hierarchy::{lemma_room, lemma_counted_mono};
use vstd::arithmetic::mul::*;

verus! {

/// The header at the start of every node; it is aligned for the keys that
/// follow it.
pub struct Header<T> {
    pub num_elements: u16,
    pub max_elements: u16,
    pub node_size: u16,
    pub is_leaf: bool,
    _alignment: [T; 0],
}

/// A link from a node to a child, as a node stores it: an owning pointer,
/// or none.
pub type NodePtr = Option<Box<Node>>;

/// A node of a B-tree of `u64` keys: its keys in increasing order, a link
/// before, between and after them (all empty in a leaf, all set above one),
/// the most keys it takes, and where its memory lies in simulated memory.
pub struct Node {
    keys: Vec<u64>,
    ptrs: Vec<NodePtr>,
    max_elements: u16,
    is_leaf: bool,
    addr: usize,
}

/// `x` rounded up to a multiple of `a`.
pub open spec fn align_up(x: nat, a: nat) -> nat {
    if x % a > 0 {
        (x + a - x % a) as nat
    } else {
        x
    }
}

/// Offset of the child links in a node with room for `n` keys: after the
/// header and the keys, aligned for the links.
pub open spec fn ptrs_offset<T>(n: nat) -> nat {
    align_up(size_of::<Header<T>>() + n * size_of::<T>(), align_of::<NodePtr>())
}

/// Bytes of a node with room for `n` keys: header, keys, padding, and
/// `n + 1` child links.
pub open spec fn node_bytes<T>(n: nat) -> nat {
    ptrs_offset::<T>(n) + (n + 1) * size_of::<NodePtr>()
}

/// The smallest node size that `num_elements_for_node_size` accepts: room
/// for a header, a key, two links, and the worst padding between them.
pub open spec fn min_node_bytes<T>() -> nat {
    size_of::<Header<T>>() + 2 * size_of::<NodePtr>() + (if align_of::<NodePtr>() > align_of::<T>() {
        (align_of::<NodePtr>() - align_of::<T>()) as nat
    } else {
        0
    }) + size_of::<T>()
}

/// The smallest node size that `num_elements_for_node_size` accepts.
pub fn min_node_size<T>() -> (r: usize)
    requires
        min_node_bytes::<T>() <= usize::MAX,
    ensures
        r == min_node_bytes::<T>(),
{
    layout_for_type_is_valid::<Header<T>>();
    layout_for_type_is_valid::<NodePtr>();
    layout_for_type_is_valid::<T>();
    core::mem::size_of::<Header<T>>() + 2 * core::mem::size_of::<NodePtr>()
        + core::mem::align_of::<NodePtr>().saturating_sub(core::mem::align_of::<T>())
        + core::mem::size_of::<T>()
}

/// `x` rounded up to a multiple of `a`.
fn align_up_usize(x: usize, a: usize) -> (r: usize)
    requires
        a > 0,
        align_up(x as nat, a as nat) <= usize::MAX,
    ensures
        r == align_up(x as nat, a as nat),
{
    let rem = x % a;
    if rem > 0 {
        x + (a - rem)
    } else {
        x
    }
}

/// Bytes of a node with room for `num_elements` keys.
pub fn node_size_for_num_elements<T>(num_elements: usize) -> (r: usize)
    requires
        num_elements < usize::MAX,
        node_bytes::<T>(num_elements as nat) <= usize::MAX,
    ensures
        r == node_bytes::<T>(num_elements as nat),
{
    layout_for_type_is_valid::<Header<T>>();
    layout_for_type_is_valid::<NodePtr>();
    layout_for_type_is_valid::<T>();
    let ghost n = num_elements as nat;
    let ghost he = size_of::<Header<T>>() + n * size_of::<T>();
    let ghost a = align_of::<NodePtr>();
    proof {
        assert(he <= align_up(he, a));
        assert(ptrs_offset::<T>(n) <= node_bytes::<T>(n)) by (nonlinear_arith)
            requires
                node_bytes::<T>(n) == ptrs_offset::<T>(n) + (n + 1) * size_of::<NodePtr>(),
        ;
        assert(n * size_of::<T>() <= he);
        assert((n + 1) * size_of::<NodePtr>() <= node_bytes::<T>(n));
    }
    let header_and_elems_size = core::mem::size_of::<Header<T>>() + num_elements * core::mem::size_of::<T>();
    let ptrs_offset = align_up_usize(header_and_elems_size, core::mem::align_of::<NodePtr>());
    ptrs_offset + (num_elements + 1) * core::mem::size_of::<NodePtr>()
}

/// The most keys a node of `node_size` bytes holds: the largest count at or
/// below `(node_size - header - link) / key + link` whose node fits, counting
/// down (and 0 when none does).
pub fn num_elements_for_node_size<T>(node_size: usize) -> (r: usize)
    requires
        node_size >= min_node_bytes::<T>(),
        size_of::<T>() > 0,
        ((node_size - size_of::<Header<T>>() - size_of::<NodePtr>()) as nat / size_of::<T>())
            + size_of::<NodePtr>() < usize::MAX,
        node_bytes::<T>(
            ((node_size - size_of::<Header<T>>() - size_of::<NodePtr>()) as nat / size_of::<T>())
                + size_of::<NodePtr>(),
        ) <= usize::MAX,
    ensures
        ({
            let start = ((node_size - size_of::<Header<T>>() - size_of::<NodePtr>()) as nat
                / size_of::<T>()) + size_of::<NodePtr>();
            &&& r <= start
            &&& r == 0 || node_bytes::<T>(r as nat) <= node_size
            &&& forall|m: nat| r < m <= start ==> #[trigger] node_bytes::<T>(m) > node_size
        }),
        node_bytes::<T>((r + 1) as nat) > node_size,
        r >= 1 <==> node_bytes::<T>(1) <= node_size,
{
    layout_for_type_is_valid::<Header<T>>();
    layout_for_type_is_valid::<NodePtr>();
    layout_for_type_is_valid::<T>();
    let elems_and_ptrs_size = node_size - core::mem::size_of::<Header<T>>() - core::mem::size_of::<NodePtr>();
    let mut max_elems = elems_and_ptrs_size / core::mem::size_of::<T>() + core::mem::size_of::<NodePtr>();
    let ghost start = max_elems as nat;
    proof {
        lemma_node_bytes_monotone::<T>(0, start);
    }
    while max_elems > 0 && node_size_for_num_elements::<T>(max_elems) > node_size
        invariant
            max_elems <= start,
            start < usize::MAX,
            node_bytes::<T>(start) <= usize::MAX,
            node_bytes::<T>(max_elems as nat) <= usize::MAX,
            start == ((node_size - size_of::<Header<T>>() - size_of::<NodePtr>()) as nat / size_of::<T>())
                + size_of::<NodePtr>(),
            forall|m: nat| max_elems < m <= start ==> #[trigger] node_bytes::<T>(m) > node_size,
        decreases max_elems,
    {
        max_elems -= 1;
        proof {
            lemma_node_bytes_monotone::<T>(max_elems as nat, start);
        }
    }
    proof {
        if max_elems > 0 {
            lemma_node_bytes_monotone::<T>(max_elems as nat, start);
        }
        if max_elems == start {
            lemma_node_bytes_past_start::<T>(node_size as nat, start);
        }
        if max_elems >= 1 {
            lemma_node_bytes_monotone::<T>(1, max_elems as nat);
        }
    }
    max_elems
}

/// A node with room for one key more than the first guess of
/// `num_elements_for_node_size` does not fit in `size` bytes.
proof fn lemma_node_bytes_past_start<T>(size: nat, start: nat)
    requires
        size >= size_of::<Header<T>>() + size_of::<NodePtr>(),
        size_of::<T>() > 0,
        start == ((size - size_of::<Header<T>>() - size_of::<NodePtr>()) as nat / size_of::<T>())
            + size_of::<NodePtr>(),
    ensures
        node_bytes::<T>(start + 1) > size,
{
    let h = size_of::<Header<T>>();
    let p = size_of::<NodePtr>();
    let t = size_of::<T>();
    let num = (size - h - p) as nat;
    let q = num / t;
    let m = start + 1;
    lemma_fundamental_div_mod(num as int, t as int);
    lemma_mod_bound(num as int, t as int);
    assert((q + 1) * t > num) by (nonlinear_arith)
        requires
            num == t * q + num % t,
            0 <= num % t < t,
            t > 0,
    ;
    assert(m * t >= (q + 1) * t) by (nonlinear_arith)
        requires
            m >= q + 1,
    ;
    assert((m + 1) * p >= p) by (nonlinear_arith);
    let x = h + m * t;
    let al = align_of::<NodePtr>();
    if al > 0 {
        lemma_fundamental_div_mod(x as int, al as int);
        lemma_mod_bound(x as int, al as int);
    }
    assert(ptrs_offset::<T>(m) >= x);
}

/// Bigger nodes take more bytes.
pub proof fn lemma_node_bytes_monotone<T>(a: nat, b: nat)
    requires
        a <= b,
    ensures
        node_bytes::<T>(a) <= node_bytes::<T>(b),
{
    let x = size_of::<Header<T>>() + a * size_of::<T>();
    let y = size_of::<Header<T>>() + b * size_of::<T>();
    let al = align_of::<NodePtr>();
    assert(a * size_of::<T>() <= b * size_of::<T>()) by (nonlinear_arith)
        requires
            a <= b,
    ;
    assert((a + 1) * size_of::<NodePtr>() <= (b + 1) * size_of::<NodePtr>()) by (nonlinear_arith)
        requires
            a <= b,
    ;
    if al > 0 {
        lemma_align_up_monotone(x, y, al);
    }
}

/// Rounding up keeps order.
proof fn lemma_align_up_monotone(x: nat, y: nat, a: nat)
    requires
        x <= y,
        a > 0,
    ensures
        align_up(x, a) <= align_up(y, a),
{
    let qx = x as int / a as int;
    let qy = y as int / a as int;
    let rx = x as int % a as int;
    let ry = y as int % a as int;
    lemma_fundamental_div_mod(x as int, a as int);
    lemma_fundamental_div_mod(y as int, a as int);
    lemma_mod_bound(x as int, a as int);
    lemma_mod_bound(y as int, a as int);
    lemma_div_is_ordered(x as int, y as int, a as int);
    assert(align_up(x, a) <= align_up(y, a)) by (nonlinear_arith)
        requires
            x == a * qx + rx,
            y == a * qy + ry,
            0 <= rx < a,
            0 <= ry < a,
            qx <= qy,
            x <= y,
            align_up(x, a) == if rx > 0 { x + a - rx } else { x as int },
            align_up(y, a) == if ry > 0 { y + a - ry } else { y as int },
    ;
}


/// Slots that a binary search for `idx` probes in `base .. base + size`, in
/// order: the middle of the range, then the half that holds `idx`.
pub open spec fn find_probes(base: nat, size: nat, idx: nat) -> Seq<nat>
    decreases size,
{
    if size <= 1 {
        Seq::empty()
    } else {
        let half = size / 2;
        let mid = base + half;
        seq![mid] + find_probes(if mid > idx { base } else { mid }, (size - half) as nat, idx)
    }
}

/// The slot where that binary search ends.
pub open spec fn find_base(base: nat, size: nat, idx: nat) -> nat
    decreases size,
{
    if size <= 1 {
        base
    } else {
        let half = size / 2;
        let mid = base + half;
        find_base(if mid > idx { base } else { mid }, (size - half) as nat, idx)
    }
}

/// How many of its probes miss `idx`.
pub open spec fn find_misses(base: nat, size: nat, idx: nat) -> nat
    decreases size,
{
    if size <= 1 {
        0
    } else {
        let half = size / 2;
        let mid = base + half;
        (if mid != idx {
            1nat
        } else {
            0nat
        }) + find_misses(if mid > idx { base } else { mid }, (size - half) as nat, idx)
    }
}

/// The binary search ends at `idx`, or at the last slot when `idx` lies past
/// it.
pub proof fn lemma_find_base(base: nat, size: nat, idx: nat)
    requires
        size >= 1,
        base <= idx,
    ensures
        find_base(base, size, idx) == if idx < base + size - 1 {
            idx
        } else {
            (base + size - 1) as nat
        },
    decreases size,
{
    if size > 1 {
        let half = size / 2;
        let mid = base + half;
        if mid > idx {
            lemma_find_base(base, (size - half) as nat, idx);
        } else {
            lemma_find_base(mid, (size - half) as nat, idx);
        }
    }
}

/// A range of at most `2^k` slots takes at most `k` probes.
pub proof fn lemma_find_probes_len(base: nat, size: nat, idx: nat, k: nat)
    requires
        size <= pow2(k),
    ensures
        find_probes(base, size, idx).len() <= k,
        find_misses(base, size, idx) <= find_probes(base, size, idx).len(),
    decreases size,
{
    if size > 1 {
        let half = size / 2;
        let mid = base + half;
        lemma_pow2_pos(k);
        if k == 0 {
            lemma2_to64();
            assert(false);
        }
        lemma_pow2_unfold(k);
        let next = if mid > idx { base } else { mid };
        lemma_find_probes_len(next, (size - half) as nat, idx, (k - 1) as nat);
    }
}

/// The reads of a node's search: the header's key count, then each probed
/// key, then the key where the search ends.
pub open spec fn find_accesses<T>(addr: nat, n: nat, idx: nat) -> Seq<(nat, nat)> {
    let values = addr + size_of::<Header<T>>();
    if n == 0 {
        seq![(addr, 2nat)]
    } else {
        seq![(addr, 2nat)] + find_probes(0, n, idx).map_values(
            |p: nat| (values + p * size_of::<T>(), size_of::<T>()),
        ) + seq![(values + find_base(0, n, idx) * size_of::<T>(), size_of::<T>())]
    }
}

/// What a node's search returns: `Ok` of the slot where it ends when the
/// match is due, else `Err` of where `value` would go, by `gt`.
pub open spec fn find_result(n: nat, idx: nat, gt: bool, until: nat) -> Result<usize, usize> {
    if n == 0 {
        Err(0)
    } else {
        let b = if idx < n - 1 {
            idx
        } else {
            (n - 1) as nat
        };
        if until == 0 {
            Ok(b as usize)
        } else if gt {
            Err(b as usize)
        } else {
            Err((b + 1) as usize)
        }
    }
}

/// The countdown after the probes that miss: `until - misses`, at least 0.
pub open spec fn counted_down(until: nat, misses: nat) -> nat {
    if until >= misses {
        (until - misses) as nat
    } else {
        0
    }
}

/// Simulates a binary search of the `num_elements` keys of the node at
/// `addr` for the key at slot `idx`: reads the node's key count and each
/// probed key through `sim`, counting `until` down for each probe that
/// misses. The search matches when the count reaches 0; otherwise it ends
/// to the left or right of the last slot by `gt`.
pub fn sim_find<T>(
    sim: &mut Hierarchy,
    addr: usize,
    num_elements: usize,
    idx: usize,
    gt: bool,
    until: &mut usize,
) -> (r: Result<usize, usize>)
    requires
        old(sim).wf(),
        hierarchy_idle(old(sim)@),
        headroom(old(sim)@, 66 * (size_of::<T>() + 3)),
        size_of::<T>() > 0,
        idx <= num_elements,
        addr + size_of::<Header<T>>() + num_elements * size_of::<T>() <= usize::MAX,
        addr + 2 <= usize::MAX,
    ensures
        final(sim).wf(),
        hierarchy_idle(final(sim)@),
        counted_within(old(sim)@, final(sim)@, 66 * (size_of::<T>() + 3)),
        final(sim)@ == access_list(
            old(sim)@,
            find_accesses::<T>(addr as nat, num_elements as nat, idx as nat),
        ),
        *final(until) == counted_down(
            *old(until) as nat,
            find_misses(0, num_elements as nat, idx as nat),
        ),
        r == find_result(num_elements as nat, idx as nat, gt, *final(until) as nat),
{
    broadcast use vstd::layout::layout_of_primitives;

    layout_for_type_is_valid::<Header<T>>();
    layout_for_type_is_valid::<T>();
    let szt = core::mem::size_of::<T>();
    let hdr = core::mem::size_of::<Header<T>>();
    let ghost s0 = sim@;
    let ghost u0 = *until as nat;
    let ghost n = num_elements as nat;
    let ghost m: nat = (szt + 3) as nat;
    proof {
        assert(66 * m >= 3);
    }
    sim.access_addr(addr, core::mem::size_of::<u16>());
    let ghost s1 = sim@;
    proof {
        assert(seq![(addr as nat, 2nat)].drop_last() =~= Seq::<(nat, nat)>::empty());
        assert(access_list(s0, Seq::<(nat, nat)>::empty()) == s0);
        assert(core::mem::size_of::<u16>() == 2);
        assert(sim@ == access_list(s0, seq![(addr as nat, 2nat)]));
        lemma_headroom_after(s0, s1, 66 * m, 3);
    }
    let values = addr + hdr;
    let mut size = num_elements;
    if size == 0 {
        return Err(0);
    }
    let ghost f = |p: nat| (values as nat + p * szt as nat, szt as nat);
    let mut base: usize = 0;
    let ghost mut done: Seq<nat> = Seq::empty();
    let ghost mut misses: nat = 0;
    proof {
        lemma2_to64();
        vstd::arithmetic::power2::lemma2_to64_rest();
        lemma_find_probes_len(0, n, idx as nat, 64);
    }
    while size > 1
        invariant
            n == num_elements,
            n > 0,
            idx <= num_elements,
            szt == size_of::<T>(),
            szt > 0,
            m == szt + 3,
            values == addr + size_of::<Header<T>>(),
            values + num_elements * szt <= usize::MAX,
            f == (|p: nat| (values as nat + p * szt as nat, szt as nat)),
            size >= 1,
            base + size <= num_elements,
            done + find_probes(base as nat, size as nat, idx as nat) == find_probes(0, n, idx as nat),
            misses + find_misses(base as nat, size as nat, idx as nat) == find_misses(0, n, idx as nat),
            find_base(base as nat, size as nat, idx as nat) == find_base(0, n, idx as nat),
            find_probes(0, n, idx as nat).len() <= 64,
            *until == counted_down(u0, misses),
            sim.wf(),
            hierarchy_idle(sim@),
            sim@ == access_list(s0, seq![(addr as nat, 2nat)] + done.map_values(f)),
            counted_within(s0, sim@, 3 + done.len() * m),
            headroom(s0, 66 * m),
        decreases size,
    {
        let half = size / 2;
        let mid = base + half;
        let ghost before = sim@;
        proof {
            let rest = find_probes(mid as nat, (size - half) as nat, idx as nat);
            let rest2 = find_probes(base as nat, (size - half) as nat, idx as nat);
            assert(find_probes(base as nat, size as nat, idx as nat)[0] == mid);
            assert(done.len() + 1 <= find_probes(0, n, idx as nat).len()) by {
                assert((done + find_probes(base as nat, size as nat, idx as nat)).len() == done.len()
                    + find_probes(base as nat, size as nat, idx as nat).len());
            }
            assert(values + szt * mid + szt <= usize::MAX) by (nonlinear_arith)
                requires
                    mid < num_elements,
                    values + num_elements * szt <= usize::MAX,
            ;
            assert(3 + done.len() * m + m <= 66 * m) by (nonlinear_arith)
                requires
                    done.len() + 1 <= 64,
                    m >= 3,
            ;
            lemma_headroom_after(s0, before, 66 * m, 3 + done.len() * m);
            assert(66 * m - (3 + done.len() * m) >= szt + 1);
        }
        sim.access_addr(values + szt * mid, szt);
        if mid != idx {
            if *until > 0 {
                *until = *until - 1;
            }
        }
        base = if mid > idx { base } else { mid };
        size -= half;
        proof {
            let d2 = done.push(mid as nat);
            assert(d2.map_values(f) =~= done.map_values(f).push(f(mid as nat)));
            let l2 = seq![(addr as nat, 2nat)] + d2.map_values(f);
            assert(l2 =~= (seq![(addr as nat, 2nat)] + done.map_values(f)).push(f(mid as nat)));
            assert(l2.drop_last() =~= seq![(addr as nat, 2nat)] + done.map_values(f));
            assert((mid as nat) * (szt as nat) == szt * mid) by (nonlinear_arith);
            assert(f(mid as nat) == ((values + szt * mid) as nat, szt as nat));
            assert(sim@ == access_list(s0, l2));
            assert(done + (seq![mid as nat] + find_probes(base as nat, size as nat, idx as nat)) =~= d2
                + find_probes(base as nat, size as nat, idx as nat));
            lemma_counted_trans(s0, before, sim@, 3 + done.len() * m, szt as nat + 1);
            assert(3 + done.len() * m + (szt + 1) <= 3 + d2.len() * m) by (nonlinear_arith)
                requires
                    d2.len() == done.len() + 1,
                    m == szt + 3,
            ;
            done = d2;
            misses = misses + if mid != idx { 1nat } else { 0nat };
        }
    }
    let ghost before = sim@;
    proof {
        assert(find_probes(base as nat, size as nat, idx as nat) =~= Seq::<nat>::empty());
        assert(done =~= find_probes(0, n, idx as nat));
        assert(values + szt * base + szt <= usize::MAX) by (nonlinear_arith)
            requires
                base < num_elements,
                values + num_elements * szt <= usize::MAX,
        ;
        assert(3 + done.len() * m + m <= 66 * m) by (nonlinear_arith)
            requires
                done.len() <= 64,
                m >= 3,
        ;
        lemma_headroom_after(s0, before, 66 * m, 3 + done.len() * m);
    }
    sim.access_addr(values + szt * base, szt);
    proof {
        let l1 = seq![(addr as nat, 2nat)] + done.map_values(f);
        let last = ((values + base * szt) as nat, szt as nat);
        assert((base as nat) * (szt as nat) == szt * base) by (nonlinear_arith);
        assert(find_base(0, n, idx as nat) == base);
        assert(sim@ == addr_step(access_list(s0, l1), last.0, last.1, false));
        assert(find_accesses::<T>(addr as nat, n, idx as nat) =~= l1.push(last));
        assert(l1.push(last).drop_last() =~= l1);
        lemma_counted_trans(s0, before, sim@, 3 + done.len() * m, szt as nat + 1);
        assert(3 + done.len() * m + (szt + 1) <= 66 * m) by (nonlinear_arith)
            requires
                done.len() <= 64,
                m == szt + 3,
        ;
        lemma_find_base(0, n, idx as nat);
    }
    if *until == 0 {
        Ok(base)
    } else if gt {
        Err(base)
    } else {
        Err(base + 1)
    }
}


/// Powers of two grow with the exponent.
proof fn lemma_pow2_mono(a: nat, b: nat)
    requires
        a <= b,
    ensures
        pow2(a) <= pow2(b),
{
    if a < b {
        lemma_pow2_strictly_increases(a, b);
    }
}

/// `2^e`.
pub(crate) fn pow2_usize(e: u32) -> (r: usize)
    requires
        pow2(e as nat) <= usize::MAX,
    ensures
        r == pow2(e as nat),
{
    let mut r: usize = 1;
    let mut i: u32 = 0;
    proof {
        lemma2_to64();
    }
    while i < e
        invariant
            i <= e,
            r == pow2(i as nat),
            pow2(e as nat) <= usize::MAX,
        decreases e - i,
    {
        proof {
            lemma_pow2_unfold((i + 1) as nat);
            if i + 1 < e {
                lemma_pow2_strictly_increases((i + 1) as nat, e as nat);
            }
        }
        r = r * 2;
        i = i + 1;
    }
    r
}

/// The floor of the base-2 logarithm of `p`: the `r` with
/// `2^r <= p < 2^(r+1)` (see `lemma_page_shift`).
pub open spec fn page_shift(p: nat) -> nat {
    choose|r: nat| #[trigger] pow2(r) <= p < pow2(r + 1)
}

/// At most one `r` has `2^r <= p < 2^(r+1)`, and `page_shift` is it.
pub proof fn lemma_page_shift(p: nat, r: nat)
    requires
        pow2(r) <= p < pow2(r + 1),
    ensures
        page_shift(p) == r,
{
    let c = page_shift(p);
    assert(pow2(c) <= p < pow2(c + 1));
    if c < r {
        if c + 1 < r {
            lemma_pow2_strictly_increases(c + 1, r);
        }
        assert(false);
    } else if r < c {
        if r + 1 < c {
            lemma_pow2_strictly_increases(r + 1, c);
        }
        assert(false);
    }
}

/// The floor of the base-2 logarithm of `x`.
fn ilog2_usize(x: usize) -> (r: u32)
    requires
        x > 0,
    ensures
        pow2(r as nat) <= x < pow2(r as nat + 1),
        r == page_shift(x as nat),
{
    let mut p: usize = 1;
    let mut r: u32 = 0;
    proof {
        lemma2_to64();
    }
    while p <= x / 2
        invariant
            p == pow2(r as nat),
            1 <= p <= x,
            r < 64,
        decreases x - p,
    {
        proof {
            lemma_pow2_unfold((r + 1) as nat);
            if r + 1 >= 64 {
                vstd::arithmetic::power2::lemma2_to64_rest();
                lemma_pow2_mono(64, (r + 1) as nat);
                assert(false);
            }
        }
        p = p * 2;
        r = r + 1;
    }
    proof {
        lemma_pow2_unfold((r + 1) as nat);
        lemma_page_shift(x as nat, r as nat);
    }
    r
}

/// Address of the key at slot `i` of the node at `node`.
pub open spec fn entry_addr<T>(node: nat, i: nat) -> nat {
    node + size_of::<Header<T>>() + i * size_of::<T>()
}

/// Room in each level's counter that one level of a search may use.
pub open spec fn level_cost<T>() -> nat {
    70 * (size_of::<T>() + size_of::<NodePtr>() + 3)
}

/// One simulated search of a B-tree from the node at `base`, at depth
/// `depth` of `height`, matching after `until` probes that miss, with the
/// random choices `ch`, one per node that it visits: the slot that the
/// node's search aims at, the side it ends on, and where the next node
/// lies. It takes the hierarchy from `s0` to `s1` and returns `r`. At each
/// node: the reads of `sim_find`, then a read of the key count; on a match
/// the key's address is returned; else the count of links and the link
/// that the search follows are read, and above the last level the search
/// goes on at the next node: the draw below `2^(63 - s)` of a generator
/// seeded with the node's address and advanced by the link's slot, in units
/// of `2^s` bytes, where `2^s` is the largest power of two up to `page`.
pub open spec fn btree_walk<T>(
    s0: HierarchyView,
    base: nat,
    depth: nat,
    height: nat,
    until: nat,
    cap: nat,
    page: nat,
    ch: Seq<(nat, bool, nat)>,
    r: Option<usize>,
    s1: HierarchyView,
) -> bool
    decreases ch.len(),
{
    if ch.len() == 0 {
        false
    } else {
        let idx = ch[0].0;
        let gt = ch[0].1;
        let next = ch[0].2;
        let u1 = counted_down(until, find_misses(0, cap, idx));
        let sa = addr_step(access_list(s0, find_accesses::<T>(base, cap, idx)), base, 2, false);
        &&& idx <= cap
        &&& match find_result(cap, idx, gt, u1) {
            Ok(i) => ch.len() == 1 && r == Some(entry_addr::<T>(base, i as nat) as usize) && s1 == sa,
            Err(i) => {
                let sb = addr_step(
                    addr_step(sa, base + 2, 2, false),
                    (base + ptrs_offset::<T>(cap) + i * size_of::<NodePtr>()) as nat,
                    size_of::<NodePtr>(),
                    false,
                );
                if depth + 1 >= height {
                    ch.len() == 1 && r is None && s1 == sb
                } else {
                    &&& next == seeded_draw_below(
                        base as u64,
                        i as u128,
                        pow2((63 - page_shift(page)) as nat) as usize,
                    ) * pow2(page_shift(page))
                    &&& next < pow2(63)
                    &&& btree_walk::<T>(sb, next, depth + 1, height, u1, cap, page, ch.drop_first(), r, s1)
                }
            },
        }
    }
}

/// Simulates a search of a B-tree of `height` levels with nodes of
/// `node_cap` keys, from the node at `base_addr` at depth `depth`: searches
/// the node for a random slot (by `global_rng`, see `sim_find`); on a match
/// returns the key's address, else reads the link to the child where the
/// search goes on and continues there, at an address drawn from a generator
/// seeded with the node's address, until the last level.
pub fn sim_get<T>(
    base_addr: usize,
    depth: u8,
    height: u8,
    num_elements_until_match: usize,
    node_cap: usize,
    page_size: usize,
    sim: &mut Hierarchy,
    global_rng: &mut Mcg128Xsl64,
) -> (r: Option<usize>)
    requires
        old(sim).wf(),
        hierarchy_idle(old(sim)@),
        depth < height,
        headroom(old(sim)@, ((height - depth) * level_cost::<T>()) as nat),
        size_of::<T>() > 0,
        size_of::<NodePtr>() > 0,
        page_size > 0,
        node_cap < usize::MAX,
        base_addr + node_bytes::<T>(node_cap as nat) + 4 <= usize::MAX,
        pow2(63) + node_bytes::<T>(node_cap as nat) + 4 <= usize::MAX,
    ensures
        final(sim).wf(),
        hierarchy_idle(final(sim)@),
        counted_within(old(sim)@, final(sim)@, ((height - depth) * level_cost::<T>()) as nat),
        r matches Some(a) ==> exists|node: nat, i: nat|
            #![trigger entry_addr::<T>(node, i)]
            i < node_cap && a == entry_addr::<T>(node, i) && node + node_bytes::<T>(node_cap as nat)
                <= usize::MAX,
        exists|ch: Seq<(nat, bool, nat)>|
            #[trigger] btree_walk::<T>(
                old(sim)@,
                base_addr as nat,
                depth as nat,
                height as nat,
                num_elements_until_match as nat,
                node_cap as nat,
                page_size as nat,
                ch,
                r,
                final(sim)@,
            ),
    decreases height - depth,
{
    broadcast use vstd::layout::layout_of_primitives;

    layout_for_type_is_valid::<Header<T>>();
    layout_for_type_is_valid::<T>();
    layout_for_type_is_valid::<NodePtr>();
    let szt = core::mem::size_of::<T>();
    let szp = core::mem::size_of::<NodePtr>();
    let hdr = core::mem::size_of::<Header<T>>();
    let ghost s0 = sim@;
    let ghost lc = level_cost::<T>();
    let ghost m: nat = (szt + 3) as nat;
    let ghost cap = node_cap as nat;
    proof {
        let po = ptrs_offset::<T>(cap);
        assert(hdr + cap * szt <= po);
        assert(po + (cap + 1) * szp == node_bytes::<T>(cap));
        assert((cap + 1) * szp >= szp) by (nonlinear_arith)
            requires
                szp > 0,
        ;
        assert((height - depth) * lc >= lc) by (nonlinear_arith)
            requires
                depth < height,
        ;
        assert(lc >= 66 * m + szp + 7);
        lemma_headroom_after(s0, s0, ((height - depth) * lc) as nat, 0);
        assert(headroom(s0, 66 * m));
    }
    let num_elements = node_cap;
    let idx = random_at_most(global_rng, num_elements);
    let gt = next_u32(global_rng) % 2 == 1;
    let mut until = num_elements_until_match;
    let found = sim_find::<T>(sim, base_addr, num_elements, idx, gt, &mut until);
    let ghost s1 = sim@;
    match found {
        Ok(i) => {
            proof {
                lemma_headroom_after(s0, s1, ((height - depth) * lc) as nat, 66 * m);
            }
            sim.access_addr(base_addr, core::mem::size_of::<u16>());
            proof {
                let ch = seq![(idx as nat, gt, 0nat)];
                assert(btree_walk::<T>(s0, base_addr as nat, depth as nat, height as nat,
                    num_elements_until_match as nat, node_cap as nat, page_size as nat, ch, Some((base_addr + hdr + i * szt) as usize), sim@));
                lemma_counted_trans(s0, s1, sim@, 66 * m, 3);
                assert(i < node_cap);
                assert(i * szt <= cap * szt) by (nonlinear_arith)
                    requires
                        i < cap,
                ;
                assert(entry_addr::<T>(base_addr as nat, i as nat) == base_addr + hdr + i * szt);
                assert((i as nat) * (szt as nat) == i * szt);
            }
            Some(base_addr + hdr + i * szt)
        },
        Err(i) => {
            proof {
                lemma_headroom_after(s0, s1, ((height - depth) * lc) as nat, 66 * m);
            }
            sim.access_addr(base_addr, core::mem::size_of::<u16>());
            let ghost s2 = sim@;
            proof {
                lemma_counted_trans(s0, s1, s2, 66 * m, 3);
                lemma_headroom_after(s0, s2, ((height - depth) * lc) as nat, 66 * m + 3);
            }
            sim.access_addr(base_addr + core::mem::size_of::<u16>(), core::mem::size_of::<u16>());
            let ghost s3 = sim@;
            proof {
                lemma_counted_trans(s0, s2, s3, 66 * m + 3, 3);
                lemma_headroom_after(s0, s3, ((height - depth) * lc) as nat, 66 * m + 6);
                assert(hdr + szt * node_cap <= usize::MAX) by (nonlinear_arith)
                    requires
                        hdr + cap * szt <= usize::MAX,
                        cap == node_cap,
                ;
                assert(szt * node_cap == cap * szt) by (nonlinear_arith)
                    requires
                        cap == node_cap,
                ;
            }
            let mut offset = hdr + szt * node_cap;
            let align = core::mem::align_of::<NodePtr>();
            offset = align_up_usize(offset, align);
            let next = base_addr + offset;
            proof {
                assert(i <= node_cap);
                assert(szp * i + szp <= (cap + 1) * szp) by (nonlinear_arith)
                    requires
                        i <= cap,
                ;
            }
            sim.access_addr(next + i * szp, szp);
            let ghost s4 = sim@;
            proof {
                lemma_counted_trans(s0, s3, s4, 66 * m + 6, szp as nat + 1);
            }
            proof {
                assert(offset == ptrs_offset::<T>(cap));
            }
            if depth + 1 >= height {
                proof {
                    assert(66 * m + 6 + szp + 1 <= (height - depth) * lc);
                    let ch = seq![(idx as nat, gt, 0nat)];
                    assert(btree_walk::<T>(s0, base_addr as nat, depth as nat, height as nat,
                        num_elements_until_match as nat, node_cap as nat, page_size as nat, ch, None, sim@));
                }
                return None;
            }
            let shift = ilog2_usize(page_size);
            proof {
                lemma2_to64();
                vstd::arithmetic::power2::lemma2_to64_rest();
                if shift > 63 {
                    lemma_pow2_mono(64, shift as nat);
                }
                assert(shift <= 63);
                lemma_pow2_mono((63 - shift) as nat, 63);
                lemma_pow2_mono(shift as nat, 63);
                lemma_pow2_adds((63 - shift) as nat, shift as nat);
            }
            let slot = seeded_below(base_addr as u64, i as u128, pow2_usize(63 - shift));
            let unit = pow2_usize(shift);
            proof {
                lemma_pow2_pos(shift as nat);
                assert(slot * unit < pow2(63)) by (nonlinear_arith)
                    requires
                        slot < pow2((63 - shift) as nat),
                        unit == pow2(shift as nat),
                        unit > 0,
                        pow2((63 - shift) as nat) * pow2(shift as nat) == pow2(63),
                ;
            }
            let next_addr = slot * unit;
            proof {
                assert((height - depth) * lc == lc + (height - (depth + 1)) * lc) by (nonlinear_arith);
                lemma_headroom_after(s0, s4, ((height - depth) * lc) as nat, lc);
            }
            let r = sim_get::<T>(next_addr, depth + 1, height, until, node_cap, page_size, sim, global_rng);
            proof {
                lemma_counted_trans(s0, s4, sim@, lc, ((height - (depth + 1)) * lc) as nat);
                let ch2 = choose|ch2: Seq<(nat, bool, nat)>| #[trigger] btree_walk::<T>(
                    s4, next_addr as nat, (depth + 1) as nat, height as nat, until as nat, node_cap as nat, page_size as nat, ch2, r, sim@);
                let ch = seq![(idx as nat, gt, next_addr as nat)] + ch2;
                assert(ch.drop_first() =~= ch2);
                assert(btree_walk::<T>(s0, base_addr as nat, depth as nat, height as nat,
                    num_elements_until_match as nat, node_cap as nat, page_size as nat, ch, r, sim@));
            }
            r
        },
    }
}


/// The lower bound of the keys below link `i`: the key before it, or `lo`.
pub open spec fn lower(keys: Seq<u64>, lo: int, i: int) -> int {
    if i == 0 {
        lo
    } else {
        keys[i - 1] as int
    }
}

/// The upper bound of the keys below link `i`: the key after it, or `hi`.
pub open spec fn upper(keys: Seq<u64>, hi: int, i: int) -> int {
    if i == keys.len() {
        hi
    } else {
        keys[i] as int
    }
}

/// `keys` increase and lie strictly between `lo` and `hi`.
pub open spec fn keys_between(keys: Seq<u64>, lo: int, hi: int) -> bool {
    &&& forall|a: int, b: int| 0 <= a < b < keys.len() ==> keys[a] < keys[b]
    &&& forall|a: int| 0 <= a < keys.len() ==> lo < #[trigger] keys[a] < hi
}

/// A node of height `ht` (0 for a leaf) holding at most `max` keys, all
/// strictly between `lo` and `hi`, whose subtrees are in order between the
/// keys around their links and one level lower.
spec fn node_ok(n: Node, lo: int, hi: int, max: nat, ht: nat) -> bool
    decreases n, 1int,
{
    &&& n.max_elements == max
    &&& n.keys@.len() <= max
    &&& n.is_leaf == (ht == 0)
    &&& n.addr % 8 == 0
    &&& n.addr + node_bytes::<u64>(max) <= usize::MAX
    &&& parts_ok(n.keys@, n.ptrs@, ht, lo, hi, max)
}

/// Keys and links as `node_ok` wants them.
spec fn parts_ok(keys: Seq<u64>, ptrs: Seq<NodePtr>, ht: nat, lo: int, hi: int, max: nat) -> bool
    decreases ptrs, 0int,
{
    &&& ptrs.len() == keys.len() + 1
    &&& keys_between(keys, lo, hi)
    &&& forall|i: int| 0 <= i < ptrs.len() ==> (#[trigger] ptrs[i] is Some) == (ht > 0)
    &&& forall|i: int|
        0 <= i < ptrs.len() ==> (#[trigger] ptrs[i] is Some && ht > 0 ==> node_ok(
            *ptrs[i]->0,
            lower(keys, lo, i),
            upper(keys, hi, i),
            max,
            (ht - 1) as nat,
        ))
}

/// The subtree below the node holds `x`.
spec fn has_key(n: Node, x: u64) -> bool
    decreases n, 1int,
{
    parts_has(n.keys@, n.ptrs@, x)
}

/// The keys, or the subtrees below the links, hold `x`.
spec fn parts_has(keys: Seq<u64>, ptrs: Seq<NodePtr>, x: u64) -> bool
    decreases ptrs, 0int,
{
    ||| keys.contains(x)
    ||| exists|i: int| 0 <= i < ptrs.len() && #[trigger] ptrs[i] is Some && has_key(*ptrs[i]->0, x)
}


/// The layout of nodes of `u64` keys: a header of whole words, links of one
/// word aligned to a word.
pub open spec fn btree_layout_ok() -> bool {
    &&& size_of::<Header<u64>>() % 8 == 0
    &&& size_of::<Header<u64>>() <= 64
    &&& size_of::<NodePtr>() == 8
    &&& align_of::<NodePtr>() == 8
}

/// Where the keys and the links of a node with room for `max` keys start,
/// and how far it reaches.
proof fn lemma_node_offsets(max: nat)
    requires
        btree_layout_ok(),
    ensures
        ptrs_offset::<u64>(max) == size_of::<Header<u64>>() + 8 * max,
        node_bytes::<u64>(max) == size_of::<Header<u64>>() + 8 * max + 8 * (max + 1),
        (size_of::<Header<u64>>() + 8 * max) % 8 == 0,
{
    broadcast use vstd::layout::layout_of_primitives;

    let h = size_of::<Header<u64>>();
    assert((h + 8 * max) % 8 == 0) by {
        lemma_fundamental_div_mod(h as int, 8);
        lemma_mod_multiples_vanish((h / 8 + max) as int, 0, 8);
        assert(h + 8 * max == 8 * (h / 8 + max));
    }
    assert((max + 1) * 8 == 8 * (max + 1)) by {
        lemma_mul_is_commutative((max + 1) as int, 8);
    }
    assert(max * size_of::<u64>() == 8 * max) by {
        lemma_mul_is_commutative(max as int, 8);
    }
}

/// The keys below a node lie between its bounds.
proof fn lemma_key_bounds(n: Node, lo: int, hi: int, max: nat, ht: nat, x: u64)
    requires
        node_ok(n, lo, hi, max, ht),
        has_key(n, x),
    ensures
        lo < x < hi,
    decreases n, 1int,
{
    lemma_parts_bounds(n.keys@, n.ptrs@, ht, lo, hi, max, x);
}

proof fn lemma_parts_bounds(keys: Seq<u64>, ptrs: Seq<NodePtr>, ht: nat, lo: int, hi: int, max: nat, x: u64)
    requires
        parts_ok(keys, ptrs, ht, lo, hi, max),
        parts_has(keys, ptrs, x),
    ensures
        lo < x < hi,
    decreases ptrs, 0int,
{
    if keys.contains(x) {
        let a = choose|a: int| 0 <= a < keys.len() && keys[a] == x;
        assert(lo < keys[a] < hi);
    } else {
        let i = choose|i: int| 0 <= i < ptrs.len() && #[trigger] ptrs[i] is Some && has_key(*ptrs[i]->0, x);
        assert(ptrs[i] is Some);
        lemma_key_bounds(*ptrs[i]->0, lower(keys, lo, i), upper(keys, hi, i), max, (ht - 1) as nat, x);
        if i > 0 {
            assert(lo < keys[i - 1]);
        }
        if i < keys.len() {
            assert(keys[i] < hi);
        }
    }
}

/// Where a search of a node's keys for `x` ends without a match, `x` is
/// below the node exactly when it is below the link there.
proof fn lemma_search_child(keys: Seq<u64>, ptrs: Seq<NodePtr>, ht: nat, lo: int, hi: int, max: nat, x: u64, i: int)
    requires
        parts_ok(keys, ptrs, ht, lo, hi, max),
        0 <= i <= keys.len(),
        forall|j: int| 0 <= j < i ==> keys[j] < x,
        forall|j: int| i <= j < keys.len() ==> keys[j] > x,
    ensures
        !keys.contains(x),
        parts_has(keys, ptrs, x) == (ptrs[i] is Some && has_key(*ptrs[i]->0, x)),
{
    if keys.contains(x) {
        let a = choose|a: int| 0 <= a < keys.len() && keys[a] == x;
        if a < i {
        } else {
        }
    }
    if parts_has(keys, ptrs, x) {
        let j = choose|j: int| 0 <= j < ptrs.len() && #[trigger] ptrs[j] is Some && has_key(*ptrs[j]->0, x);
        assert(ptrs[j] is Some);
        lemma_key_bounds(*ptrs[j]->0, lower(keys, lo, j), upper(keys, hi, j), max, (ht - 1) as nat, x);
        if j < i {
            assert(keys[j] < x);
        } else if j > i {
            assert(keys[j - 1] > x);
        }
    }
}

/// Addresses of the keys that a binary search for `v` probes among `size`
/// keys from index `base`, for keys of 8 bytes from address `at`: the
/// middle one while more than one is left, then the one left.
spec fn probe_reads(keys: Seq<u64>, v: u64, at: nat, base: nat, size: nat) -> Seq<nat>
    decreases size,
{
    if size <= 1 {
        seq![at + 8 * base]
    } else {
        let mid = base + size / 2;
        seq![at + 8 * mid] + probe_reads(
            keys,
            v,
            at,
            if keys[mid as int] > v { base } else { mid },
            (size - size / 2) as nat,
        )
    }
}

/// The words that a search of `n`'s keys for `v` reads, in order: its
/// header, then the keys it probes.
spec fn find_reads(n: Node, v: u64) -> Seq<nat> {
    let len = n.keys@.len();
    seq![n.addr as nat] + if len == 0 {
        Seq::empty()
    } else {
        probe_reads(n.keys@, v, (n.addr + size_of::<Header<u64>>()) as nat, 0, len)
    }
}

/// `v` goes after the first `i` keys and before the others.
spec fn splits_at(keys: Seq<u64>, v: u64, i: nat) -> bool {
    &&& i <= keys.len()
    &&& forall|j: int| 0 <= j < i ==> keys[j] < v
    &&& forall|j: int| i <= j < keys.len() ==> keys[j] >= v
}

/// Where `v` goes among `keys`.
spec fn split_index(keys: Seq<u64>, v: u64) -> nat {
    choose|i: nat| #[trigger] splits_at(keys, v, i)
}

proof fn lemma_split_index(keys: Seq<u64>, v: u64, i: nat)
    requires
        splits_at(keys, v, i),
    ensures
        split_index(keys, v) == i,
{
    let w = split_index(keys, v);
    assert(splits_at(keys, v, w));
    if w < i {
        assert(keys[w as int] < v);
    } else if w > i {
        assert(keys[i as int] < v);
    }
}

/// The words that a lookup of `v` below `n` reads, in order: those of the
/// search of `n`'s keys; then, on a match, the header and the key; else the
/// header twice and the link where the search goes on, and below it.
spec fn get_reads(n: Node, v: u64) -> Seq<nat>
    decreases n, 1int,
{
    let i = split_index(n.keys@, v);
    let f = find_reads(n, v);
    if i < n.keys@.len() && n.keys@[i as int] == v {
        f + seq![n.addr as nat, (n.addr + size_of::<Header<u64>>() + 8 * i) as nat]
    } else {
        f + seq![n.addr as nat, n.addr as nat, (n.addr + ptrs_offset::<u64>(n.max_elements as nat) + 8 * i) as nat]
            + link_reads(n.ptrs@, i as int, v)
    }
}

/// The words that a lookup of `v` below link `i` reads.
spec fn link_reads(ptrs: Seq<NodePtr>, i: int, v: u64) -> Seq<nat>
    decreases ptrs, 0int,
{
    if 0 <= i < ptrs.len() {
        match ptrs[i] {
            Some(c) => get_reads(*c, v),
            None => Seq::empty(),
        }
    } else {
        Seq::empty()
    }
}


/// Searches the node's keys for `value` as std's binary search does: reads
/// the node's header for the number of keys, then each key it compares.
/// `Ok(i)`: key `i` is `value`; `Err(i)`: the keys before `i` are smaller,
/// the others larger.
#[verifier::spinoff_prover]
fn find(
    node: &Node,
    value: u64,
    sim: &mut Simalloc,
    Ghost(s0): Ghost<HierarchyView>,
    Ghost(used): Ghost<nat>,
    Ghost(budget): Ghost<nat>,
) -> (r: Result<usize, usize>)
    requires
        btree_layout_ok(),
        node.addr % 8 == 0,
        node.addr + node_bytes::<u64>(node.max_elements as nat) <= usize::MAX,
        node.keys@.len() <= node.max_elements,
        forall|a: int, b: int| 0 <= a < b < node.keys@.len() ==> node.keys@[a] < node.keys@[b],
        old(sim).wf(),
        headroom(s0, budget),
        counted_within(s0, old(sim)@, used),
        used + node.keys@.len() + 1 <= budget,
    ensures
        final(sim).wf(),
        counted_within(s0, final(sim)@, used + node.keys@.len() + 1),
        final(sim).next_free() == old(sim).next_free(),
        final(sim)@ == elem_reads(old(sim)@, 0, 1, find_reads(*node, value)),
        match r {
            Ok(i) => i < node.keys@.len() && node.keys@[i as int] == value,
            Err(i) => i <= node.keys@.len() && (forall|j: int| 0 <= j < i ==> node.keys@[j] < value)
                && (forall|j: int| i <= j < node.keys@.len() ==> node.keys@[j] > value),
        },
{
    let hdr = core::mem::size_of::<Header<u64>>();
    let ghost len = node.keys@.len();
    let ghost max = node.max_elements as nat;
    proof {
        lemma_node_offsets(max);
        assert(node.addr + 8 <= usize::MAX);
        assert(node.addr + (0 + 1) * 8 <= usize::MAX);
    }
    let ghost s1 = sim@;
    let ghost at: nat = (node.addr + hdr) as nat;
    let ghost first = seq![node.addr as nat];
    touch_counted(sim, node.addr, 0, 8, Ghost(s0), Ghost(used), Ghost(budget));
    proof {
        lemma_elem_reads_push(s1, 0, 1, Seq::empty(), node.addr as nat);
        assert(Seq::<nat>::empty().push(node.addr as nat) =~= first);
    }
    let mut size = node.keys.len();
    if size == 0 {
        proof {
            lemma_counted_mono(s0, sim@, used + 1, used + len + 1);
            assert(find_reads(*node, value) =~= first);
        }
        return Err(0);
    }
    let mut base: usize = 0;
    let ghost mut probes: nat = 0;
    let ghost mut done: Seq<nat> = Seq::empty();
    proof {
        assert(first + done + probe_reads(node.keys@, value, at, 0, len) =~= find_reads(*node, value));
        assert(first + done =~= first);
    }
    while size > 1
        invariant
            btree_layout_ok(),
            hdr == size_of::<Header<u64>>(),
            len == node.keys@.len(),
            len <= max,
            max == node.max_elements,
            node.addr % 8 == 0,
            node.addr + node_bytes::<u64>(max) <= usize::MAX,
            node_bytes::<u64>(max) == hdr + 8 * max + 8 * (max + 1),
            (hdr + 8 * max) % 8 == 0,
            forall|a: int, b: int| 0 <= a < b < node.keys@.len() ==> node.keys@[a] < node.keys@[b],
            1 <= size,
            base + size <= len,
            base == 0 || node.keys@[base as int] <= value,
            forall|j: int| base + size <= j < len ==> node.keys@[j] > value,
            probes + size <= len,
            sim.wf(),
            sim.next_free() == old(sim).next_free(),
            headroom(s0, budget),
            counted_within(s0, sim@, used + 1 + probes),
            used + len + 1 <= budget,
            at == node.addr + hdr,
            sim@ == elem_reads(s1, 0, 1, first + done),
            first + done + probe_reads(node.keys@, value, at, base as nat, size as nat) == find_reads(*node, value),
        decreases size,
    {
        let half = size / 2;
        let mid = base + half;
        proof {
            assert(hdr % 8 == 0);
            assert(node.addr + hdr + (mid + 1) * 8 <= usize::MAX);
        }
        let ghost before = sim@;
        let ghost rest = probe_reads(node.keys@, value, at, base as nat, size as nat);
        let ghost pm: nat = (at + 8 * mid) as nat;
        touch_counted(sim, node.addr + hdr, mid, 8, Ghost(s0), Ghost(used + 1 + probes), Ghost(budget));
        let greater = node.keys[mid] > value;
        base = if greater { base } else { mid };
        size = size - half;
        proof {
            probes = probes + 1;
            lemma_elem_reads_push(s1, 0, 1, first + done, pm);
            assert((first + done).push(pm) =~= first + done.push(pm));
            assert(rest == seq![pm] + probe_reads(node.keys@, value, at, base as nat, size as nat));
            assert(first + done.push(pm) + probe_reads(node.keys@, value, at, base as nat, size as nat)
                =~= first + done + rest);
            done = done.push(pm);
        }
    }
    proof {
        assert(node.addr + hdr + (base + 1) * 8 <= usize::MAX);
    }
    touch_counted(sim, node.addr + hdr, base, 8, Ghost(s0), Ghost(used + 1 + probes), Ghost(budget));
    proof {
        lemma_counted_mono(s0, sim@, used + 1 + probes + 1, used + len + 1);
        let pb: nat = (at + 8 * base) as nat;
        lemma_elem_reads_push(s1, 0, 1, first + done, pb);
        assert(probe_reads(node.keys@, value, at, base as nat, size as nat) == seq![pb]);
        assert((first + done).push(pb) =~= first + done + seq![pb]);
    }
    let k = node.keys[base];
    if k == value {
        Ok(base)
    } else if k < value {
        Err(base + 1)
    } else {
        Err(base)
    }
}


/// Looks `value` up below `node` of height `ht`: searches the node's keys
/// (see `find`); on a match reads the header and the key, else reads the
/// header twice (for the number of keys, then for where the links start)
/// and the link where the search goes on, and goes on below it.
#[verifier::spinoff_prover]
fn node_get<'a>(
    node: &'a Node,
    value: u64,
    sim: &mut Simalloc,
    Ghost(lo): Ghost<int>,
    Ghost(hi): Ghost<int>,
    Ghost(max): Ghost<nat>,
    Ghost(ht): Ghost<nat>,
    Ghost(s0): Ghost<HierarchyView>,
    Ghost(used): Ghost<nat>,
    Ghost(budget): Ghost<nat>,
) -> (r: Option<&'a u64>)
    requires
        btree_layout_ok(),
        node_ok(*node, lo, hi, max, ht),
        old(sim).wf(),
        headroom(s0, budget),
        counted_within(s0, old(sim)@, used),
        used + (ht + 1) * (max + 4) <= budget,
    ensures
        r is Some == has_key(*node, value),
        r matches Some(x) ==> *x == value,
        final(sim).wf(),
        counted_within(s0, final(sim)@, used + (ht + 1) * (max + 4)),
        final(sim).next_free() == old(sim).next_free(),
        final(sim)@ == elem_reads(old(sim)@, 0, 1, get_reads(*node, value)),
    decreases ht,
{
    let ghost len = node.keys@.len();
    let ghost c: nat = max + 4;
    let ghost s_in = sim@;
    let ghost fr = find_reads(*node, value);
    proof {
        lemma_node_offsets(max);
        assert((ht + 1) * c == ht * c + c) by (nonlinear_arith);
        assert(ht * c >= 0) by (nonlinear_arith);
    }
    let f = find(node, value, sim, Ghost(s0), Ghost(used), Ghost(budget));
    let ghost u1: nat = used + len + 1;
    let hdr = core::mem::size_of::<Header<u64>>();
    match f {
        Ok(i) => {
            proof {
                assert(node.addr + 8 <= usize::MAX);
                assert(node.addr + (0 + 1) * 8 <= usize::MAX);
                assert(node.addr + hdr + (i + 1) * 8 <= usize::MAX);
            }
            touch_counted(sim, node.addr, 0, 8, Ghost(s0), Ghost(u1), Ghost(budget));
            touch_counted(sim, node.addr + hdr, i, 8, Ghost(s0), Ghost(u1 + 1), Ghost(budget));
            proof {
                lemma_counted_mono(s0, sim@, u1 + 2, used + (ht + 1) * c);
                assert(node.keys@.contains(value));
                assert(splits_at(node.keys@, value, i as nat));
                lemma_split_index(node.keys@, value, i as nat);
                let a: nat = node.addr as nat;
                let b: nat = (node.addr + hdr + 8 * i) as nat;
                lemma_elem_reads_push(s_in, 0, 1, fr, a);
                lemma_elem_reads_push(s_in, 0, 1, fr.push(a), b);
                assert(fr.push(a).push(b) =~= fr + seq![a, b]);
            }
            Some(&node.keys[i])
        },
        Err(i) => {
            let po = ptrs_offset_of(node.max_elements);
            proof {
                assert(node.addr + (0 + 1) * 8 <= usize::MAX);
                assert(node.addr + po + (i + 1) * 8 <= usize::MAX);
                lemma_search_child(node.keys@, node.ptrs@, ht, lo, hi, max, value, i as int);
            }
            touch_counted(sim, node.addr, 0, 8, Ghost(s0), Ghost(u1), Ghost(budget));
            touch_counted(sim, node.addr, 0, 8, Ghost(s0), Ghost(u1 + 1), Ghost(budget));
            touch_counted(sim, node.addr + po, i, 8, Ghost(s0), Ghost(u1 + 2), Ghost(budget));
            let ghost three = seq![node.addr as nat, node.addr as nat, (node.addr + po + 8 * i) as nat];
            proof {
                assert(splits_at(node.keys@, value, i as nat));
                lemma_split_index(node.keys@, value, i as nat);
                let a: nat = node.addr as nat;
                let b: nat = (node.addr + po + 8 * i) as nat;
                lemma_elem_reads_push(s_in, 0, 1, fr, a);
                lemma_elem_reads_push(s_in, 0, 1, fr.push(a), a);
                lemma_elem_reads_push(s_in, 0, 1, fr.push(a).push(a), b);
                assert(fr.push(a).push(a).push(b) =~= fr + three);
                assert(get_reads(*node, value) == fr + three + link_reads(node.ptrs@, i as int, value));
            }
            match &node.ptrs[i] {
                None => {
                    proof {
                        lemma_counted_mono(s0, sim@, u1 + 3, used + (ht + 1) * c);
                        assert(fr + three + link_reads(node.ptrs@, i as int, value) =~= fr + three);
                    }
                    None
                },
                Some(child) => {
                    proof {
                        assert(node.ptrs@[i as int] is Some);
                        assert(ht > 0);
                    }
                    let ghost mid = sim@;
                    let r = node_get(
                        child,
                        value,
                        sim,
                        Ghost(lower(node.keys@, lo, i as int)),
                        Ghost(upper(node.keys@, hi, i as int)),
                        Ghost(max),
                        Ghost((ht - 1) as nat),
                        Ghost(s0),
                        Ghost(used + c),
                        Ghost(budget),
                    );
                    proof {
                        assert(link_reads(node.ptrs@, i as int, value) == get_reads(**child, value));
                        lemma_elem_reads_concat(s_in, 0, 1, fr + three, get_reads(**child, value));
                    }
                    r
                },
            }
        },
    }
}

/// Offset of the links in a node with room for `max_elements` keys.
fn ptrs_offset_of(max_elements: u16) -> (r: usize)
    requires
        btree_layout_ok(),
    ensures
        r == ptrs_offset::<u64>(max_elements as nat),
        r == size_of::<Header<u64>>() + 8 * max_elements,
{
    proof {
        lemma_node_offsets(max_elements as nat);
    }
    let offset = core::mem::size_of::<Header<u64>>() + core::mem::size_of::<u64>() * (max_elements as usize);
    align_up_usize(offset, core::mem::align_of::<NodePtr>())
}


/// The subtree behind link `p` holds `x`.
spec fn ptr_has(p: NodePtr, x: u64) -> bool {
    p is Some && has_key(*p->0, x)
}

/// A subtree behind a link other than link `i` holds `x`.
spec fn others_have(ptrs: Seq<NodePtr>, i: int, x: u64) -> bool {
    exists|j: int| 0 <= j < ptrs.len() && j != i && #[trigger] ptr_has(ptrs[j], x)
}

/// What the keys and links hold: the keys, link `i`'s subtree, the others'.
proof fn lemma_has_at(keys: Seq<u64>, ptrs: Seq<NodePtr>, i: int, x: u64)
    requires
        0 <= i < ptrs.len(),
    ensures
        parts_has(keys, ptrs, x) == (keys.contains(x) || ptr_has(ptrs[i], x) || others_have(ptrs, i, x)),
{
    if parts_has(keys, ptrs, x) && !keys.contains(x) {
        let j = choose|j: int| 0 <= j < ptrs.len() && #[trigger] ptrs[j] is Some && has_key(*ptrs[j]->0, x);
        assert(ptr_has(ptrs[j], x));
    }
    if ptr_has(ptrs[i], x) {
        assert(ptrs[i] is Some);
    }
    if others_have(ptrs, i, x) {
        let j = choose|j: int| 0 <= j < ptrs.len() && j != i && #[trigger] ptr_has(ptrs[j], x);
        assert(ptrs[j] is Some);
    }
}

/// Replacing link `i` replaces what it holds.
proof fn lemma_has_update(keys: Seq<u64>, ptrs: Seq<NodePtr>, i: int, c: NodePtr, x: u64)
    requires
        0 <= i < ptrs.len(),
    ensures
        parts_has(keys, ptrs.update(i, c), x) == (keys.contains(x) || ptr_has(c, x) || others_have(
            ptrs,
            i,
            x,
        )),
{
    let p2 = ptrs.update(i, c);
    lemma_has_at(keys, p2, i, x);
    if others_have(p2, i, x) {
        let j = choose|j: int| 0 <= j < p2.len() && j != i && #[trigger] ptr_has(p2[j], x);
        assert(ptr_has(ptrs[j], x));
    }
    if others_have(ptrs, i, x) {
        let j = choose|j: int| 0 <= j < ptrs.len() && j != i && #[trigger] ptr_has(ptrs[j], x);
        assert(ptr_has(p2[j], x));
    }
}

/// Putting key `k` in at `i`, with `left` before it and `right` after it
/// in place of link `i`, adds what they hold.
proof fn lemma_has_insert(keys: Seq<u64>, ptrs: Seq<NodePtr>, i: int, k: u64, left: NodePtr, right: NodePtr, x: u64)
    requires
        ptrs.len() == keys.len() + 1,
        0 <= i <= keys.len(),
    ensures
        parts_has(keys.insert(i, k), ptrs.update(i, left).insert(i + 1, right), x) == (keys.contains(x)
            || x == k || ptr_has(left, x) || ptr_has(right, x) || others_have(ptrs, i, x)),
{
    let k2 = keys.insert(i, k);
    let p2 = ptrs.update(i, left).insert(i + 1, right);
    assert(k2.contains(x) == (keys.contains(x) || x == k)) by {
        if k2.contains(x) {
            let a = choose|a: int| 0 <= a < k2.len() && k2[a] == x;
            if a < i {
                assert(keys[a] == x);
            } else if a > i {
                assert(keys[a - 1] == x);
            }
        }
        if keys.contains(x) {
            let a = choose|a: int| 0 <= a < keys.len() && keys[a] == x;
            if a < i {
                assert(k2[a] == x);
            } else {
                assert(k2[a + 1] == x);
            }
        }
        if x == k {
            assert(k2[i] == x);
        }
    }
    if parts_has(k2, p2, x) && !k2.contains(x) {
        let j = choose|j: int| 0 <= j < p2.len() && #[trigger] p2[j] is Some && has_key(*p2[j]->0, x);
        if j < i {
            assert(ptr_has(ptrs[j], x));
        } else if j == i {
            assert(ptr_has(left, x));
        } else if j == i + 1 {
            assert(ptr_has(right, x));
        } else {
            assert(ptr_has(ptrs[j - 1], x));
        }
    }
    if ptr_has(left, x) {
        assert(p2[i] == left);
    }
    if ptr_has(right, x) {
        assert(p2[i + 1] == right);
    }
    if others_have(ptrs, i, x) {
        let j = choose|j: int| 0 <= j < ptrs.len() && j != i && #[trigger] ptr_has(ptrs[j], x);
        if j < i {
            assert(p2[j] == ptrs[j]);
        } else {
            assert(p2[j + 1] == ptrs[j]);
        }
    }
}

/// Keys and links split at key `m`: what they hold is what the part
/// before it holds, the key, and what the part after it holds.
proof fn lemma_has_split(keys: Seq<u64>, ptrs: Seq<NodePtr>, m: int, x: u64)
    requires
        ptrs.len() == keys.len() + 1,
        0 <= m < keys.len(),
    ensures
        parts_has(keys, ptrs, x) == (parts_has(keys.subrange(0, m), ptrs.subrange(0, m + 1), x) || x
            == keys[m] || parts_has(keys.subrange(m + 1, keys.len() as int), ptrs.subrange(m + 1, ptrs.len() as int), x)),
{
    let kl = keys.subrange(0, m);
    let pl = ptrs.subrange(0, m + 1);
    let kr = keys.subrange(m + 1, keys.len() as int);
    let pr = ptrs.subrange(m + 1, ptrs.len() as int);
    if keys.contains(x) {
        let a = choose|a: int| 0 <= a < keys.len() && keys[a] == x;
        if a < m {
            assert(kl[a] == x);
        } else if a > m {
            assert(kr[a - m - 1] == x);
        }
    }
    if kl.contains(x) {
        let a = choose|a: int| 0 <= a < kl.len() && kl[a] == x;
        assert(keys[a] == x);
    }
    if kr.contains(x) {
        let a = choose|a: int| 0 <= a < kr.len() && kr[a] == x;
        assert(keys[a + m + 1] == x);
    }
    if x == keys[m] {
        assert(keys.contains(x));
    }
    if parts_has(keys, ptrs, x) && !keys.contains(x) {
        let j = choose|j: int| 0 <= j < ptrs.len() && #[trigger] ptrs[j] is Some && has_key(*ptrs[j]->0, x);
        if j <= m {
            assert(pl[j] == ptrs[j]);
        } else {
            assert(pr[j - m - 1] == ptrs[j]);
        }
    }
    if parts_has(kl, pl, x) && !kl.contains(x) {
        let j = choose|j: int| 0 <= j < pl.len() && #[trigger] pl[j] is Some && has_key(*pl[j]->0, x);
        assert(ptrs[j] == pl[j]);
    }
    if parts_has(kr, pr, x) && !kr.contains(x) {
        let j = choose|j: int| 0 <= j < pr.len() && #[trigger] pr[j] is Some && has_key(*pr[j]->0, x);
        assert(ptrs[j + m + 1] == pr[j]);
    }
}


/// Link `i` may be replaced by another subtree in order between the same
/// keys.
proof fn lemma_parts_update(keys: Seq<u64>, ptrs: Seq<NodePtr>, ht: nat, lo: int, hi: int, max: nat, i: int, c: NodePtr)
    requires
        parts_ok(keys, ptrs, ht, lo, hi, max),
        0 <= i < ptrs.len(),
        (c is Some) == (ht > 0),
        ht > 0 ==> node_ok(*c->0, lower(keys, lo, i), upper(keys, hi, i), max, (ht - 1) as nat),
    ensures
        parts_ok(keys, ptrs.update(i, c), ht, lo, hi, max),
{
    let p2 = ptrs.update(i, c);
    assert forall|j: int| 0 <= j < p2.len() implies (#[trigger] p2[j] is Some) == (ht > 0) by {
        if j != i {
            assert(ptrs[j] is Some == (ht > 0));
        }
    }
    assert forall|j: int| 0 <= j < p2.len() implies (#[trigger] p2[j] is Some && ht > 0 ==> node_ok(
        *p2[j]->0,
        lower(keys, lo, j),
        upper(keys, hi, j),
        max,
        (ht - 1) as nat,
    )) by {
        if j != i {
            assert(ptrs[j] is Some && ht > 0 ==> node_ok(
                *ptrs[j]->0,
                lower(keys, lo, j),
                upper(keys, hi, j),
                max,
                (ht - 1) as nat,
            ));
        }
    }
}

/// Key `k`, between the keys around link `i`, may go in at `i`, with
/// subtrees in order on either side of it in place of link `i`.
proof fn lemma_parts_insert(
    keys: Seq<u64>,
    ptrs: Seq<NodePtr>,
    ht: nat,
    lo: int,
    hi: int,
    max: nat,
    i: int,
    k: u64,
    left: NodePtr,
    right: NodePtr,
)
    requires
        parts_ok(keys, ptrs, ht, lo, hi, max),
        0 <= i <= keys.len(),
        lower(keys, lo, i) < k < upper(keys, hi, i),
        (left is Some) == (ht > 0),
        (right is Some) == (ht > 0),
        ht > 0 ==> node_ok(*left->0, lower(keys, lo, i), k as int, max, (ht - 1) as nat),
        ht > 0 ==> node_ok(*right->0, k as int, upper(keys, hi, i), max, (ht - 1) as nat),
    ensures
        parts_ok(keys.insert(i, k), ptrs.update(i, left).insert(i + 1, right), ht, lo, hi, max),
{
    let k2 = keys.insert(i, k);
    let p2 = ptrs.update(i, left).insert(i + 1, right);
    assert forall|a: int, b: int| 0 <= a < b < k2.len() implies k2[a] < k2[b] by {
        if i > 0 {
            assert(lo < keys[i - 1]);
        }
        if a < i && b > i {
            assert(keys[a] <= keys[i - 1]) by {
                if a < i - 1 {
                    assert(keys[a] < keys[i - 1]);
                }
            }
        }
        if b > i + 1 && a < i {
            assert(keys[a] < keys[b - 1]);
        }
        if a == i && b > i + 1 {
            assert(keys[i] <= keys[b - 1]) by {
                if i < b - 1 {
                    assert(keys[i] < keys[b - 1]);
                }
            }
        }
        if a > i {
            assert(keys[a - 1] < keys[b - 1]);
        }
    }
    assert forall|a: int| 0 <= a < k2.len() implies lo < #[trigger] k2[a] < hi by {
        if a < i {
            assert(lo < keys[a] < hi);
        } else if a > i {
            assert(lo < keys[a - 1] < hi);
        } else {
            if i > 0 {
                assert(lo < keys[i - 1]);
            }
            if i < keys.len() {
                assert(keys[i as int] < hi);
            }
        }
    }
    assert forall|j: int| 0 <= j < p2.len() implies (#[trigger] p2[j] is Some) == (ht > 0) by {
        if j < i {
            assert(ptrs[j] is Some == (ht > 0));
        } else if j > i + 1 {
            assert(ptrs[j - 1] is Some == (ht > 0));
        }
    }
    assert forall|j: int| 0 <= j < p2.len() implies (#[trigger] p2[j] is Some && ht > 0 ==> node_ok(
        *p2[j]->0,
        lower(k2, lo, j),
        upper(k2, hi, j),
        max,
        (ht - 1) as nat,
    )) by {
        if j < i {
            assert(ptrs[j] is Some && ht > 0 ==> node_ok(
                *ptrs[j]->0,
                lower(keys, lo, j),
                upper(keys, hi, j),
                max,
                (ht - 1) as nat,
            ));
            assert(lower(k2, lo, j) == lower(keys, lo, j));
            assert(upper(k2, hi, j) == upper(keys, hi, j));
        } else if j > i + 1 {
            assert(ptrs[j - 1] is Some && ht > 0 ==> node_ok(
                *ptrs[j - 1]->0,
                lower(keys, lo, j - 1),
                upper(keys, hi, j - 1),
                max,
                (ht - 1) as nat,
            ));
            assert(lower(k2, lo, j) == lower(keys, lo, j - 1));
            assert(upper(k2, hi, j) == upper(keys, hi, j - 1));
        } else if j == i {
            assert(lower(k2, lo, j) == lower(keys, lo, i));
            assert(upper(k2, hi, j) == k);
        } else {
            assert(lower(k2, lo, j) == k);
            assert(upper(k2, hi, j) == upper(keys, hi, i));
        }
    }
}

/// Keys and links in order split at key `m` into two parts in order, the
/// key between them.
proof fn lemma_parts_split(keys: Seq<u64>, ptrs: Seq<NodePtr>, ht: nat, lo: int, hi: int, max: nat, m: int)
    requires
        parts_ok(keys, ptrs, ht, lo, hi, max),
        0 <= m < keys.len(),
    ensures
        lo < keys[m] < hi,
        parts_ok(keys.subrange(0, m), ptrs.subrange(0, m + 1), ht, lo, keys[m] as int, max),
        parts_ok(
            keys.subrange(m + 1, keys.len() as int),
            ptrs.subrange(m + 1, ptrs.len() as int),
            ht,
            keys[m] as int,
            hi,
            max,
        ),
{
    let kl = keys.subrange(0, m);
    let pl = ptrs.subrange(0, m + 1);
    let kr = keys.subrange(m + 1, keys.len() as int);
    let pr = ptrs.subrange(m + 1, ptrs.len() as int);
    assert(lo < keys[m] < hi);
    assert forall|a: int, b: int| 0 <= a < b < kl.len() implies kl[a] < kl[b] by {
        assert(keys[a] < keys[b]);
    }
    assert forall|a: int| 0 <= a < kl.len() implies lo < #[trigger] kl[a] < keys[m] by {
        assert(keys[a] < keys[m]);
        assert(lo < keys[a]);
    }
    assert forall|a: int, b: int| 0 <= a < b < kr.len() implies kr[a] < kr[b] by {
        assert(keys[a + m + 1] < keys[b + m + 1]);
    }
    assert forall|a: int| 0 <= a < kr.len() implies keys[m] < #[trigger] kr[a] < hi by {
        assert(keys[m] < keys[a + m + 1]);
        assert(keys[a + m + 1] < hi);
    }
    assert forall|j: int| 0 <= j < pl.len() implies (#[trigger] pl[j] is Some) == (ht > 0) by {
        assert(ptrs[j] is Some == (ht > 0));
    }
    assert forall|j: int| 0 <= j < pr.len() implies (#[trigger] pr[j] is Some) == (ht > 0) by {
        assert(ptrs[j + m + 1] is Some == (ht > 0));
    }
    assert forall|j: int| 0 <= j < pl.len() implies (#[trigger] pl[j] is Some && ht > 0 ==> node_ok(
        *pl[j]->0,
        lower(kl, lo, j),
        upper(kl, keys[m] as int, j),
        max,
        (ht - 1) as nat,
    )) by {
        assert(ptrs[j] is Some && ht > 0 ==> node_ok(
            *ptrs[j]->0,
            lower(keys, lo, j),
            upper(keys, hi, j),
            max,
            (ht - 1) as nat,
        ));
    }
    assert forall|j: int| 0 <= j < pr.len() implies (#[trigger] pr[j] is Some && ht > 0 ==> node_ok(
        *pr[j]->0,
        lower(kr, keys[m] as int, j),
        upper(kr, hi, j),
        max,
        (ht - 1) as nat,
    )) by {
        assert(ptrs[j + m + 1] is Some && ht > 0 ==> node_ok(
            *ptrs[j + m + 1]->0,
            lower(keys, lo, j + m + 1),
            upper(keys, hi, j + m + 1),
            max,
            (ht - 1) as nat,
        ));
    }
}


/// The node memory that a B-tree with room for `max` keys per node needs:
/// the layout as `btree_layout_ok` says, and a node size that its header's
/// 16-bit field holds.
pub open spec fn node_size_ok(max: nat) -> bool {
    &&& btree_layout_ok()
    &&& node_bytes::<u64>(max) <= 0xffff
}

/// Where the next allocation of a node with room for `max` keys leaves the
/// next free address, from `nf`.
pub open spec fn after_alloc(nf: nat, max: nat) -> nat {
    round16(nf + node_bytes::<u64>(max))
}

/// The addresses of `count` consecutive words from `base`.
pub open spec fn run_reads(base: nat, count: nat) -> Seq<nat> {
    Seq::new(count, |j: int| word_addr(base, j))
}

/// The address of word `j` from `base`.
pub open spec fn word_addr(base: nat, j: int) -> nat {
    (base + 8 * j) as nat
}

/// The words that moving the words `to .. from` of the run at `base` one
/// place up reads: each pair from the top down, then word `to`.
pub open spec fn shift_reads(base: nat, to: nat, from: nat) -> Seq<nat>
    decreases from - to,
{
    if from <= to {
        seq![base + 8 * to]
    } else {
        seq![(base + 8 * (from - 1)) as nat, base + 8 * from] + shift_reads(base, to, (from - 1) as nat)
    }
}

/// Reading one word more, by address.
proof fn lemma_reads_one(s: HierarchyView, a: Seq<nat>, x: nat)
    ensures
        elem_reads(s, 0, 1, a.push(x)) == addr_step(elem_reads(s, 0, 1, a), x, size_of::<usize>(), false),
{
    lemma_elem_reads_push(s, 0, 1, a, x);
    assert(0 + x * 1 == x);
}


/// An empty node with room for `max_elements` keys in fresh simulated
/// memory; writing its header reads it once.
fn with_capacity(
    max_elements: u16,
    leaf: bool,
    sim: &mut Simalloc,
    Ghost(s0): Ghost<HierarchyView>,
    Ghost(used): Ghost<nat>,
    Ghost(budget): Ghost<nat>,
) -> (n: Node)
    requires
        node_size_ok(max_elements as nat),
        old(sim).wf(),
        old(sim).next_free() + node_bytes::<u64>(max_elements as nat) + 16 <= usize::MAX,
        headroom(s0, budget),
        counted_within(s0, old(sim)@, used),
        used + 1 <= budget,
    ensures
        n.keys@ == Seq::<u64>::empty(),
        n.ptrs@ == seq![None::<Box<Node>>],
        n.max_elements == max_elements,
        n.is_leaf == leaf,
        n.addr % 8 == 0,
        n.addr + node_bytes::<u64>(max_elements as nat) <= usize::MAX,
        final(sim).wf(),
        counted_within(s0, final(sim)@, used + 1),
        old(sim).next_free() <= final(sim).next_free() <= old(sim).next_free() + node_bytes::<u64>(
            max_elements as nat,
        ) + 16,
        n.addr == old(sim).next_free(),
        final(sim).next_free() == after_alloc(old(sim).next_free(), max_elements as nat),
        final(sim)@ == elem_reads(old(sim)@, 0, 1, seq![n.addr as nat]),
{
    proof {
        lemma_node_offsets(max_elements as nat);
    }
    let size = node_size_for_num_elements::<u64>(max_elements as usize);
    let addr = sim.alloc_bytes(size);
    proof {
        assert(addr + (0 + 1) * 8 <= usize::MAX);
    }
    let ghost sa = sim@;
    touch_counted(sim, addr, 0, 8, Ghost(s0), Ghost(used), Ghost(budget));
    proof {
        lemma_reads_one(sa, Seq::empty(), addr as nat);
        assert(Seq::<nat>::empty().push(addr as nat) =~= seq![addr as nat]);
    }
    let mut ptrs: Vec<NodePtr> = Vec::new();
    ptrs.push(None);
    Node { keys: Vec::new(), ptrs, max_elements, is_leaf: leaf, addr }
}

/// Touches reading the `count` words from word `from` down to word
/// `to + 1` of the stretch at `base`, each word after the one before it,
/// as shifting them up by one word does, then word `to`.
fn shift_touches(
    sim: &mut Simalloc,
    base: usize,
    to: usize,
    from: usize,
    Ghost(s0): Ghost<HierarchyView>,
    Ghost(used): Ghost<nat>,
    Ghost(budget): Ghost<nat>,
)
    requires
        to <= from,
        base % 8 == 0,
        base + (from + 1) * 8 <= usize::MAX,
        old(sim).wf(),
        headroom(s0, budget),
        counted_within(s0, old(sim)@, used),
        used + 2 * (from - to) + 1 <= budget,
    ensures
        final(sim).wf(),
        counted_within(s0, final(sim)@, (used + 2 * (from - to) + 1) as nat),
        final(sim).next_free() == old(sim).next_free(),
        final(sim)@ == elem_reads(old(sim)@, 0, 1, shift_reads(base as nat, to as nat, from as nat)),
{
    let ghost s_in = sim@;
    let ghost mut done: Seq<nat> = Seq::empty();
    let mut j = from;
    proof {
        assert(done + shift_reads(base as nat, to as nat, from as nat) =~= shift_reads(base as nat, to as nat, from as nat));
    }
    while j > to
        invariant
            to <= j <= from,
            base % 8 == 0,
            base + (from + 1) * 8 <= usize::MAX,
            sim.wf(),
            sim.next_free() == old(sim).next_free(),
            headroom(s0, budget),
            counted_within(s0, sim@, (used + 2 * (from - j)) as nat),
            used + 2 * (from - to) + 1 <= budget,
            sim@ == elem_reads(s_in, 0, 1, done),
            done + shift_reads(base as nat, to as nat, j as nat) == shift_reads(base as nat, to as nat, from as nat),
        decreases j,
    {
        let ghost a: nat = (base + 8 * (j - 1)) as nat;
        let ghost b: nat = (base + 8 * j) as nat;
        touch_counted(sim, base, j - 1, 8, Ghost(s0), Ghost((used + 2 * (from - j)) as nat), Ghost(budget));
        proof {
            lemma_reads_one(s_in, done, a);
        }
        touch_counted(sim, base, j, 8, Ghost(s0), Ghost((used + 2 * (from - j) + 1) as nat), Ghost(budget));
        proof {
            lemma_reads_one(s_in, done.push(a), b);
            assert(shift_reads(base as nat, to as nat, j as nat) == seq![a, b] + shift_reads(
                base as nat,
                to as nat,
                (j - 1) as nat,
            ));
            assert(done.push(a).push(b) + shift_reads(base as nat, to as nat, (j - 1) as nat) =~= done
                + shift_reads(base as nat, to as nat, j as nat));
            done = done.push(a).push(b);
        }
        j = j - 1;
    }
    touch_counted(sim, base, to, 8, Ghost(s0), Ghost((used + 2 * (from - to)) as nat), Ghost(budget));
    proof {
        lemma_reads_one(s_in, done, (base + 8 * to) as nat);
        assert(done.push((base + 8 * to) as nat) =~= done + shift_reads(base as nat, to as nat, to as nat));
    }
}

/// The words that putting a key (and, with `has_ptr`, a link after it) in
/// at `idx` in node `n` reads: the header; the keys from `idx` on, moved one
/// place up; with a link, the header again and the links from `idx + 1` on,
/// moved the same way; the header once more.
spec fn place_reads(n: Node, idx: nat, has_ptr: bool) -> Seq<nat> {
    let a = n.addr as nat;
    let num = n.keys@.len();
    seq![a] + shift_reads(a + size_of::<Header<u64>>(), idx, num) + (if has_ptr {
        seq![a] + shift_reads(a + ptrs_offset::<u64>(n.max_elements as nat), idx + 1, num + 1)
    } else {
        Seq::empty()
    }) + seq![a]
}

/// The words that trying to put a key in at `idx` in node `n` reads: the
/// header, then, where the node has room, what `place_reads` says.
spec fn try_place_reads(n: Node, idx: nat, has_ptr: bool) -> Seq<nat> {
    seq![n.addr as nat] + if n.keys@.len() >= n.max_elements {
        Seq::empty()
    } else {
        place_reads(n, idx, has_ptr)
    }
}


/// Puts `val` in at key `idx` of a node with room for it and, when `ptr`
/// is a link, `ptr` right after it; the keys (and links) from there on move
/// up by one, each read and written, then the header records one more key.
#[verifier::spinoff_prover]
fn place_at(
    node: &mut Node,
    idx: usize,
    val: u64,
    ptr: NodePtr,
    sim: &mut Simalloc,
    Ghost(s0): Ghost<HierarchyView>,
    Ghost(used): Ghost<nat>,
    Ghost(budget): Ghost<nat>,
)
    requires
        btree_layout_ok(),
        old(node).keys@.len() < old(node).max_elements,
        idx <= old(node).keys@.len(),
        old(node).ptrs@.len() == old(node).keys@.len() + 1,
        old(node).addr % 8 == 0,
        old(node).addr + node_bytes::<u64>(old(node).max_elements as nat) <= usize::MAX,
        old(sim).wf(),
        headroom(s0, budget),
        counted_within(s0, old(sim)@, used),
        used + 4 * old(node).max_elements + 5 <= budget,
    ensures
        final(node).keys@ == old(node).keys@.insert(idx as int, val),
        final(node).ptrs@ == old(node).ptrs@.insert(idx + 1, ptr),
        final(node).max_elements == old(node).max_elements,
        final(node).is_leaf == old(node).is_leaf,
        final(node).addr == old(node).addr,
        final(sim).wf(),
        counted_within(s0, final(sim)@, (used + 4 * old(node).max_elements + 5) as nat),
        final(sim).next_free() == old(sim).next_free(),
        final(sim)@ == elem_reads(old(sim)@, 0, 1, place_reads(*old(node), idx as nat, ptr is Some)),
{
    let ghost max = node.max_elements as nat;
    let ghost n0 = *node;
    let ghost s_in = sim@;
    let num = node.keys.len();
    let hdr = core::mem::size_of::<Header<u64>>();
    proof {
        lemma_node_offsets(max);
        assert(node.addr + (0 + 1) * 8 <= usize::MAX);
        assert(node.addr + hdr + (num + 1) * 8 <= usize::MAX);
    }
    let ghost a: nat = node.addr as nat;
    let ghost sk = shift_reads((a + hdr) as nat, idx as nat, num as nat);
    touch_counted(sim, node.addr, 0, 8, Ghost(s0), Ghost(used), Ghost(budget));
    proof {
        lemma_reads_one(s_in, Seq::empty(), a);
        assert(Seq::<nat>::empty().push(a) =~= seq![a]);
    }
    shift_touches(sim, node.addr + hdr, idx, num, Ghost(s0), Ghost(used + 1), Ghost(budget));
    proof {
        lemma_elem_reads_concat(s_in, 0, 1, seq![a], sk);
    }
    let ghost mut tr: Seq<nat> = seq![a] + sk;
    let ghost u1: nat = (used + 1 + 2 * (num - idx) + 1) as nat;
    let ghost u2: nat;
    if ptr.is_some() {
        let po = ptrs_offset_of(node.max_elements);
        proof {
            assert(node.addr + po + (num + 1 + 1) * 8 <= usize::MAX);
        }
        touch_counted(sim, node.addr, 0, 8, Ghost(s0), Ghost(u1), Ghost(budget));
        proof {
            lemma_reads_one(s_in, tr, a);
        }
        shift_touches(sim, node.addr + po, idx + 1, num + 1, Ghost(s0), Ghost(u1 + 1), Ghost(budget));
        proof {
            u2 = (u1 + 1 + 2 * (num - idx) + 1) as nat;
            let sp = shift_reads((a + po) as nat, (idx + 1) as nat, (num + 1) as nat);
            lemma_elem_reads_concat(s_in, 0, 1, tr.push(a), sp);
            assert(tr.push(a) + sp =~= tr + (seq![a] + sp));
            tr = tr + (seq![a] + sp);
        }
    } else {
        proof {
            u2 = u1;
            assert(tr + Seq::<nat>::empty() =~= tr);
        }
    }
    touch_counted(sim, node.addr, 0, 8, Ghost(s0), Ghost(u2), Ghost(budget));
    proof {
        lemma_reads_one(s_in, tr, a);
        assert(tr.push(a) =~= place_reads(n0, idx as nat, ptr is Some));
    }
    proof {
        lemma_counted_mono(s0, sim@, u2 + 1, (used + 4 * max + 5) as nat);
    }
    node.keys.insert(idx, val);
    node.ptrs.insert(idx + 1, ptr);
}

/// Places `value` (and `ptr`) at key `idx` (see `place_at`) after reading
/// the header, unless the node is full: then hands them back.
#[verifier::spinoff_prover]
fn try_place_at(
    node: &mut Node,
    idx: usize,
    value: u64,
    ptr: NodePtr,
    sim: &mut Simalloc,
    Ghost(s0): Ghost<HierarchyView>,
    Ghost(used): Ghost<nat>,
    Ghost(budget): Ghost<nat>,
) -> (r: Option<(u64, NodePtr)>)
    requires
        btree_layout_ok(),
        old(node).keys@.len() <= old(node).max_elements,
        idx <= old(node).keys@.len(),
        old(node).ptrs@.len() == old(node).keys@.len() + 1,
        old(node).addr % 8 == 0,
        old(node).addr + node_bytes::<u64>(old(node).max_elements as nat) <= usize::MAX,
        old(sim).wf(),
        headroom(s0, budget),
        counted_within(s0, old(sim)@, used),
        used + 4 * old(node).max_elements + 6 <= budget,
    ensures
        r is Some == (old(node).keys@.len() == old(node).max_elements),
        r matches Some(back) ==> back == (value, ptr) && *final(node) == *old(node)
            && counted_within(s0, final(sim)@, used + 1),
        r is None ==> final(node).keys@ == old(node).keys@.insert(idx as int, value)
            && final(node).ptrs@ == old(node).ptrs@.insert(idx + 1, ptr),
        final(node).max_elements == old(node).max_elements,
        final(node).is_leaf == old(node).is_leaf,
        final(node).addr == old(node).addr,
        final(sim).wf(),
        counted_within(s0, final(sim)@, (used + 4 * old(node).max_elements + 6) as nat),
        final(sim).next_free() == old(sim).next_free(),
        final(sim)@ == elem_reads(old(sim)@, 0, 1, try_place_reads(*old(node), idx as nat, ptr is Some)),
{
    let ghost max = node.max_elements as nat;
    let ghost n0 = *node;
    let ghost s_in = sim@;
    proof {
        lemma_node_offsets(max);
        assert(node.addr + (0 + 1) * 8 <= usize::MAX);
    }
    touch_counted(sim, node.addr, 0, 8, Ghost(s0), Ghost(used), Ghost(budget));
    proof {
        lemma_reads_one(s_in, Seq::empty(), node.addr as nat);
        assert(Seq::<nat>::empty().push(node.addr as nat) =~= seq![node.addr as nat]);
    }
    let max_elements = node.max_elements as usize;
    let num_elements = node.keys.len();
    if num_elements >= max_elements || idx >= max_elements {
        proof {
            assert(try_place_reads(n0, idx as nat, ptr is Some) =~= seq![n0.addr as nat]);
        }
        proof {
            lemma_counted_mono(s0, sim@, used + 1, (used + 4 * max + 6) as nat);
        }
        return Some((value, ptr));
    }
    let ghost sp = sim@;
    place_at(node, idx, value, ptr, sim, Ghost(s0), Ghost(used + 1), Ghost(budget));
    proof {
        lemma_elem_reads_concat(s_in, 0, 1, seq![n0.addr as nat], place_reads(n0, idx as nat, ptr is Some));
    }
    None
}


/// Touches reading the `count` words of the stretch at `base`, first to
/// last.
fn touch_run(
    sim: &mut Simalloc,
    base: usize,
    count: usize,
    Ghost(s0): Ghost<HierarchyView>,
    Ghost(used): Ghost<nat>,
    Ghost(budget): Ghost<nat>,
)
    requires
        base % 8 == 0,
        base + count * 8 <= usize::MAX,
        old(sim).wf(),
        headroom(s0, budget),
        counted_within(s0, old(sim)@, used),
        used + count <= budget,
    ensures
        final(sim).wf(),
        counted_within(s0, final(sim)@, (used + count) as nat),
        final(sim).next_free() == old(sim).next_free(),
        final(sim)@ == elem_reads(old(sim)@, 0, 1, run_reads(base as nat, count as nat)),
{
    let ghost s_in = sim@;
    let mut j: usize = 0;
    proof {
        assert(run_reads(base as nat, 0) =~= Seq::<nat>::empty());
    }
    while j < count
        invariant
            j <= count,
            base % 8 == 0,
            base + count * 8 <= usize::MAX,
            sim.wf(),
            sim.next_free() == old(sim).next_free(),
            headroom(s0, budget),
            counted_within(s0, sim@, (used + j) as nat),
            used + count <= budget,
            sim@ == elem_reads(s_in, 0, 1, run_reads(base as nat, j as nat)),
        decreases count - j,
    {
        touch_counted(sim, base, j, 8, Ghost(s0), Ghost((used + j) as nat), Ghost(budget));
        proof {
            lemma_reads_one(s_in, run_reads(base as nat, j as nat), word_addr(base as nat, j as int));
            assert(run_reads(base as nat, j as nat).push(word_addr(base as nat, j as int)) =~= run_reads(
                base as nat,
                (j + 1) as nat,
            ));
        }
        j = j + 1;
    }
}

/// Where a full node's keys, with one more put in, split: after the
/// middle key, or one further when their count is even.
pub open spec fn split_point(len: nat) -> nat {
    if len % 2 == 0 {
        len / 2 + 1
    } else {
        len / 2
    }
}

/// A split of a full node whose keys, with the one that comes in, number
/// `len` (at least 3) keeps the lowest keys in the node and promotes the
/// next one: for odd `len` the middle key, each half keeping `(len - 1) / 2`
/// keys; for even `len` the key at `len / 2 + 1`, the node keeping one more
/// than half. The new sibling is never empty for odd `len`, nor for even
/// `len` of 6 or more.
pub proof fn lemma_split_median(len: nat)
    requires
        len >= 3,
    ensures
        len % 2 == 1 ==> 2 * split_point(len) + 1 == len,
        len % 2 == 0 ==> 2 * split_point(len) == len + 2,
        split_point(len) < len,
        len % 2 == 1 ==> len - split_point(len) - 1 == split_point(len) >= 1,
        len % 2 == 0 && len >= 6 ==> len - split_point(len) - 1 >= 1,
{
}

/// Splits a full node as `value` (and, after it, `ptr`) go in at key `i`:
/// reads the header and copies the keys out, reads each link as it takes
/// it out, puts the new key and link in, then moves the keys and links
/// after the split point (see `split_point`) to a new node, writing its
/// header and each key and link, and writes the keys and links before the
/// split point back. Returns the key at the split point and the new node.
/// The header at `a`, read twice, then `count` words from `a + off`.
pub open spec fn header_run(a: nat, off: nat, count: nat) -> Seq<nat> {
    seq![a, a] + run_reads(a + off, count)
}

/// Reads the header at `addr` twice, then `count` consecutive words from
/// `addr + off`.
fn touch_header_run(
    sim: &mut Simalloc,
    addr: usize,
    off: usize,
    count: usize,
    Ghost(s0): Ghost<HierarchyView>,
    Ghost(used): Ghost<nat>,
    Ghost(budget): Ghost<nat>,
)
    requires
        addr % 8 == 0,
        off % 8 == 0,
        addr + 8 <= usize::MAX,
        addr + off + count * 8 <= usize::MAX,
        old(sim).wf(),
        headroom(s0, budget),
        counted_within(s0, old(sim)@, used),
        used + count + 2 <= budget,
    ensures
        final(sim).wf(),
        counted_within(s0, final(sim)@, (used + count + 2) as nat),
        final(sim).next_free() == old(sim).next_free(),
        final(sim)@ == elem_reads(old(sim)@, 0, 1, header_run(addr as nat, off as nat, count as nat)),
{
    let ghost s_in = sim@;
    proof {
        assert(addr + (0 + 1) * 8 <= usize::MAX);
    }
    touch_counted(sim, addr, 0, 8, Ghost(s0), Ghost(used), Ghost(budget));
    proof {
        lemma_reads_one(s_in, Seq::empty(), addr as nat);
    }
    touch_counted(sim, addr, 0, 8, Ghost(s0), Ghost(used + 1), Ghost(budget));
    proof {
        lemma_reads_one(s_in, Seq::<nat>::empty().push(addr as nat), addr as nat);
        assert(Seq::<nat>::empty().push(addr as nat).push(addr as nat) =~= seq![addr as nat, addr as nat]);
    }
    touch_run(sim, addr + off, count, Ghost(s0), Ghost(used + 2), Ghost(budget));
    proof {
        lemma_elem_reads_concat(s_in, 0, 1, seq![addr as nat, addr as nat], run_reads((addr + off) as nat, count as nat));
    }
}

/// The words that splitting the full node `n` reads when the next free
/// address is `nf` (where the new sibling goes): the header twice and every
/// key, the header twice and every link (taking them out); the sibling's
/// header as it is made, then twice and the keys it takes, twice and the
/// links it takes; the header twice and the keys that stay, twice and the
/// links that stay.
spec fn split_reads(n: Node, nf: nat) -> Seq<nat> {
    let a = n.addr as nat;
    let num = n.keys@.len();
    let hdr = size_of::<Header<u64>>();
    let po = ptrs_offset::<u64>(n.max_elements as nat);
    let median = split_point(num + 1);
    let sl = (num + 1 - (median + 1)) as nat;
    header_run(a, hdr, num) + header_run(a, po, num + 1) + seq![nf] + header_run(nf, hdr, sl) + header_run(
        nf,
        po,
        sl + 1,
    ) + header_run(a, hdr, median) + header_run(a, po, median + 1)
}

#[verifier::rlimit(100)]
#[verifier::spinoff_prover]
fn split(
    node: &mut Node,
    i: usize,
    value: u64,
    ptr: NodePtr,
    sim: &mut Simalloc,
    Ghost(s0): Ghost<HierarchyView>,
    Ghost(used): Ghost<nat>,
    Ghost(budget): Ghost<nat>,
) -> (r: (u64, Box<Node>))
    requires
        node_size_ok(old(node).max_elements as nat),
        2 <= old(node).max_elements,
        old(node).keys@.len() == old(node).max_elements,
        i <= old(node).keys@.len(),
        old(node).ptrs@.len() == old(node).keys@.len() + 1,
        old(node).addr % 8 == 0,
        old(node).addr + node_bytes::<u64>(old(node).max_elements as nat) <= usize::MAX,
        old(sim).wf(),
        old(sim).next_free() + node_bytes::<u64>(old(node).max_elements as nat) + 16 <= usize::MAX,
        headroom(s0, budget),
        counted_within(s0, old(sim)@, used),
        used + 4 * old(node).max_elements + 16 <= budget,
    ensures
        ({
            let k = old(node).keys@.insert(i as int, value);
            let p = old(node).ptrs@.insert(i + 1, ptr);
            let m = split_point(k.len()) as int;
            &&& 0 <= m < k.len()
            &&& r.0 == k[m]
            &&& final(node).keys@ == k.subrange(0, m)
            &&& final(node).ptrs@ == p.subrange(0, m + 1)
            &&& r.1.keys@ == k.subrange(m + 1, k.len() as int)
            &&& r.1.ptrs@ == p.subrange(m + 1, p.len() as int)
        }),
        final(node).max_elements == old(node).max_elements,
        final(node).is_leaf == old(node).is_leaf,
        final(node).addr == old(node).addr,
        r.1.max_elements == old(node).max_elements,
        r.1.is_leaf == old(node).is_leaf,
        r.1.addr % 8 == 0,
        r.1.addr + node_bytes::<u64>(old(node).max_elements as nat) <= usize::MAX,
        final(sim).wf(),
        counted_within(s0, final(sim)@, (used + 4 * old(node).max_elements + 16) as nat),
        old(sim).next_free() <= final(sim).next_free() <= old(sim).next_free() + node_bytes::<u64>(
            old(node).max_elements as nat,
        ) + 16,
        r.1.addr == old(sim).next_free(),
        final(sim).next_free() == after_alloc(old(sim).next_free(), old(node).max_elements as nat),
        final(sim)@ == elem_reads(old(sim)@, 0, 1, split_reads(*old(node), old(sim).next_free())),
{
    let ghost max = node.max_elements as nat;
    let ghost k0 = node.keys@;
    let ghost p0 = node.ptrs@;
    let ghost n0 = *node;
    let ghost s_in = sim@;
    let ghost nf0 = sim.next_free();
    let ghost a: nat = node.addr as nat;
    let max_elements = node.max_elements;
    let is_leaf = node.is_leaf;
    let num = node.keys.len();
    let hdr = core::mem::size_of::<Header<u64>>();
    let po = ptrs_offset_of(max_elements);
    proof {
        lemma_node_offsets(max);
        assert(node.addr + (0 + 1) * 8 <= usize::MAX);
        assert(node.addr + hdr + num * 8 <= usize::MAX);
        assert(node.addr + po + (num + 1) * 8 <= usize::MAX);
    }
    // the header, then the keys, copied out
    touch_header_run(sim, node.addr, hdr, num, Ghost(s0), Ghost(used), Ghost(budget));
    let ghost mut tr: Seq<nat> = header_run(a, hdr as nat, num as nat);
    let mut keys: Vec<u64> = Vec::new();
    let mut j: usize = 0;
    while j < num
        invariant
            j <= num,
            num == node.keys@.len(),
            node.keys@ == k0,
            keys@ == k0.subrange(0, j as int),
        decreases num - j,
    {
        keys.push(node.keys[j]);
        j = j + 1;
        proof {
            assert(keys@ =~= k0.subrange(0, j as int));
        }
    }
    // the links, each taken out
    let ghost u1: nat = (used + 2 + num) as nat;
    touch_header_run(sim, node.addr, po, num + 1, Ghost(s0), Ghost(u1), Ghost(budget));
    proof {
        lemma_elem_reads_concat(s_in, 0, 1, tr, header_run(a, po as nat, (num + 1) as nat));
        tr = tr + header_run(a, po as nat, (num + 1) as nat);
    }
    let mut pointers: Vec<NodePtr> = Vec::new();
    core::mem::swap(&mut pointers, &mut node.ptrs);
    let ghost u2: nat = (u1 + 2 + num + 1) as nat;
    proof {
        assert(keys@ =~= k0);
    }
    keys.insert(i, value);
    pointers.insert(i + 1, ptr);
    let ghost k = keys@;
    let ghost p = pointers@;
    let ghost sw = sim@;
    let mut new_sibling = with_capacity(max_elements, is_leaf, sim, Ghost(s0), Ghost(u2), Ghost(budget));
    let ghost b: nat = new_sibling.addr as nat;
    proof {
        lemma_elem_reads_concat(s_in, 0, 1, tr, seq![b]);
        tr = tr + seq![b];
    }
    let median = if keys.len() % 2 == 0 {
        keys.len() / 2 + 1
    } else {
        keys.len() / 2
    };
    let for_new_sib = median + 1;
    let new_sib_len = keys.len() - for_new_sib;
    proof {
        lemma_node_offsets(max);
        assert(new_sibling.addr + (0 + 1) * 8 <= usize::MAX);
        assert(new_sibling.addr + hdr + new_sib_len * 8 <= usize::MAX);
        assert(new_sibling.addr + po + (new_sib_len + 1) * 8 <= usize::MAX);
    }
    // the new node: its header, its keys, its links
    let sib_keys = keys.split_off(for_new_sib);
    touch_header_run(sim, new_sibling.addr, hdr, new_sib_len, Ghost(s0), Ghost(u2 + 1), Ghost(budget));
    proof {
        lemma_elem_reads_concat(s_in, 0, 1, tr, header_run(b, hdr as nat, new_sib_len as nat));
        tr = tr + header_run(b, hdr as nat, new_sib_len as nat);
    }
    let ghost u3: nat = (u2 + 3 + new_sib_len) as nat;
    let sib_ptrs = pointers.split_off(for_new_sib);
    touch_header_run(sim, new_sibling.addr, po, new_sib_len + 1, Ghost(s0), Ghost(u3), Ghost(budget));
    proof {
        lemma_elem_reads_concat(s_in, 0, 1, tr, header_run(b, po as nat, (new_sib_len + 1) as nat));
        tr = tr + header_run(b, po as nat, (new_sib_len + 1) as nat);
    }
    let ghost u4: nat = (u3 + 2 + new_sib_len + 1) as nat;
    new_sibling.keys = sib_keys;
    new_sibling.ptrs = sib_ptrs;
    let pivot = keys.pop().unwrap();
    proof {
        assert(node.addr + hdr + median * 8 <= usize::MAX);
        assert(node.addr + po + (median + 1) * 8 <= usize::MAX);
    }
    // this node: its header, its keys, its links
    touch_header_run(sim, node.addr, hdr, median, Ghost(s0), Ghost(u4), Ghost(budget));
    proof {
        lemma_elem_reads_concat(s_in, 0, 1, tr, header_run(a, hdr as nat, median as nat));
        tr = tr + header_run(a, hdr as nat, median as nat);
    }
    let ghost u5: nat = (u4 + 2 + median) as nat;
    touch_header_run(sim, node.addr, po, median + 1, Ghost(s0), Ghost(u5), Ghost(budget));
    proof {
        lemma_elem_reads_concat(s_in, 0, 1, tr, header_run(a, po as nat, (median + 1) as nat));
        tr = tr + header_run(a, po as nat, (median + 1) as nat);
        assert(b == nf0);
        assert(median == split_point((num + 1) as nat));
        assert(tr =~= split_reads(n0, nf0));
    }
    proof {
        lemma_counted_mono(s0, sim@, (u5 + 2 + median + 1) as nat, (used + 4 * max + 16) as nat);
        assert(keys@ =~= k.subrange(0, median as int));
        assert(pointers@ =~= p.subrange(0, median + 1));
    }
    node.keys = keys;
    node.ptrs = pointers;
    (pivot, Box::new(new_sibling))
}


/// Accesses that one level of an insertion may count.
pub open spec fn level_cost_of(max: nat) -> nat {
    5 * max + 24
}

/// Bytes that one level of an insertion may allocate.
pub open spec fn level_bytes(max: nat) -> nat {
    node_bytes::<u64>(max) + 16
}

/// Puts `value` in below `node` (height `ht`, keys between `lo` and `hi`).
/// Searches the node (see `find`); a key equal to it is written over
/// (reading the header and the key). Otherwise, after reading the header:
/// a leaf takes it where the search ended, or splits when full (see
/// `try_place_at`, `split`); above the leaves, the header is read twice
/// and the link where the search ended read, the value goes in below it,
/// and a key and node that the child hands back from a split are placed
/// here in turn, or split this node. Returns what a split here hands
/// back.
/// What placing into and splitting a node read depends only on where it
/// lies, how many keys it holds, and how many it takes.
proof fn lemma_reads_fields(n1: Node, n2: Node, i: nat, has_ptr: bool, nf: nat)
    requires
        n1.addr == n2.addr,
        n1.keys@.len() == n2.keys@.len(),
        n1.max_elements == n2.max_elements,
    ensures
        try_place_reads(n1, i, has_ptr) == try_place_reads(n2, i, has_ptr),
        split_reads(n1, nf) == split_reads(n2, nf),
{
}

/// Whether putting `v` in below `n` splits `n`: not where `n` holds `v`;
/// in a leaf, where it is full; else where the child the search goes on to
/// splits and `n` is full.
spec fn ins_splits(n: Node, v: u64) -> bool
    decreases n, 1int,
{
    let i = split_index(n.keys@, v);
    if i < n.keys@.len() && n.keys@[i as int] == v {
        false
    } else if n.is_leaf {
        n.keys@.len() >= n.max_elements
    } else {
        link_splits(n.ptrs@, i as int, v) && n.keys@.len() >= n.max_elements
    }
}

/// Whether putting `v` in behind link `i` splits the node there.
spec fn link_splits(ptrs: Seq<NodePtr>, i: int, v: u64) -> bool
    decreases ptrs, 0int,
{
    if 0 <= i < ptrs.len() {
        match ptrs[i] {
            Some(c) => ins_splits(*c, v),
            None => false,
        }
    } else {
        false
    }
}

/// The next free address after putting `v` in below `n`, from `nf`: one
/// node more for each split.
spec fn ins_nf(n: Node, v: u64, nf: nat) -> nat
    decreases n, 1int,
{
    let i = split_index(n.keys@, v);
    let full = n.keys@.len() >= n.max_elements;
    if i < n.keys@.len() && n.keys@[i as int] == v {
        nf
    } else if n.is_leaf {
        if full {
            after_alloc(nf, n.max_elements as nat)
        } else {
            nf
        }
    } else {
        let nc = link_nf(n.ptrs@, i as int, v, nf);
        if link_splits(n.ptrs@, i as int, v) && full {
            after_alloc(nc, n.max_elements as nat)
        } else {
            nc
        }
    }
}

/// The next free address after putting `v` in behind link `i`, from `nf`.
spec fn link_nf(ptrs: Seq<NodePtr>, i: int, v: u64, nf: nat) -> nat
    decreases ptrs, 0int,
{
    if 0 <= i < ptrs.len() {
        match ptrs[i] {
            Some(c) => ins_nf(*c, v, nf),
            None => nf,
        }
    } else {
        nf
    }
}

/// The words that putting `v` in below `n` reads, in order, when the next
/// free address is `nf`: the search of `n`'s keys; where `n` holds `v`, the
/// header and the key; else the header, and in a leaf what trying to place
/// `v` reads and, when `n` is full, what splitting it reads; above the
/// leaves, the header twice more and the link the search follows, what
/// putting `v` in below it reads, and, when that node split, what trying
/// to place its middle key here reads and, when `n` is full, what splitting
/// `n` reads.
spec fn ins_reads(n: Node, v: u64, nf: nat) -> Seq<nat>
    decreases n, 1int,
{
    let i = split_index(n.keys@, v);
    let f = find_reads(n, v);
    let a = n.addr as nat;
    let full = n.keys@.len() >= n.max_elements;
    if i < n.keys@.len() && n.keys@[i as int] == v {
        f + seq![a, a + size_of::<Header<u64>>() + 8 * i]
    } else if n.is_leaf {
        f + seq![a] + try_place_reads(n, i, false) + if full {
            split_reads(n, nf)
        } else {
            Seq::empty()
        }
    } else {
        let nc = link_nf(n.ptrs@, i as int, v, nf);
        f + seq![a, a, a, a + ptrs_offset::<u64>(n.max_elements as nat) + 8 * i] + link_ins_reads(
            n.ptrs@,
            i as int,
            v,
            nf,
        ) + if link_splits(n.ptrs@, i as int, v) {
            try_place_reads(n, i, true) + if full {
                split_reads(n, nc)
            } else {
                Seq::empty()
            }
        } else {
            Seq::empty()
        }
    }
}

/// The words that putting `v` in behind link `i` reads.
spec fn link_ins_reads(ptrs: Seq<NodePtr>, i: int, v: u64, nf: nat) -> Seq<nat>
    decreases ptrs, 0int,
{
    if 0 <= i < ptrs.len() {
        match ptrs[i] {
            Some(c) => ins_reads(*c, v, nf),
            None => Seq::empty(),
        }
    } else {
        Seq::empty()
    }
}

#[verifier::rlimit(100)]
#[verifier::spinoff_prover]
fn node_insert(
    node: &mut Node,
    value: u64,
    sim: &mut Simalloc,
    Ghost(lo): Ghost<int>,
    Ghost(hi): Ghost<int>,
    Ghost(max): Ghost<nat>,
    Ghost(ht): Ghost<nat>,
    Ghost(s0): Ghost<HierarchyView>,
    Ghost(used): Ghost<nat>,
    Ghost(budget): Ghost<nat>,
) -> (r: Option<(u64, Box<Node>)>)
    requires
        node_size_ok(max),
        2 <= max,
        node_ok(*old(node), lo, hi, max, ht),
        lo < value < hi,
        old(sim).wf(),
        old(sim).next_free() + (ht + 1) * level_bytes(max) <= usize::MAX,
        headroom(s0, budget),
        counted_within(s0, old(sim)@, used),
        used + (ht + 1) * level_cost_of(max) <= budget,
    ensures
        match r {
            None => node_ok(*final(node), lo, hi, max, ht) && forall|x: u64|
                #[trigger] has_key(*final(node), x) == (has_key(*old(node), x) || x == value),
            Some(split) => lo < split.0 < hi && node_ok(*final(node), lo, split.0 as int, max, ht)
                && node_ok(*split.1, split.0 as int, hi, max, ht) && forall|x: u64|
                (#[trigger] has_key(*final(node), x) || x == split.0 || has_key(*split.1, x)) == (
                has_key(*old(node), x) || x == value),
        },
        r matches Some(split) ==> final(node).keys@.len() == split_point(
            (old(node).keys@.len() + 1) as nat,
        ) && split.1.keys@.len() + split_point((old(node).keys@.len() + 1) as nat)
            == old(node).keys@.len(),
        ht == 0 && old(node).keys@.len() < max ==> r is None,
        final(sim).wf(),
        counted_within(s0, final(sim)@, used + (ht + 1) * level_cost_of(max)),
        old(sim).next_free() <= final(sim).next_free() <= old(sim).next_free() + (ht + 1)
            * level_bytes(max),
        r is Some == ins_splits(*old(node), value),
        final(sim).next_free() == ins_nf(*old(node), value, old(sim).next_free()),
        final(sim)@ == elem_reads(old(sim)@, 0, 1, ins_reads(*old(node), value, old(sim).next_free())),
    decreases ht,
{
    let ghost n0 = *node;
    let ghost s_in = sim@;
    let ghost nf0 = sim.next_free();
    let ghost fr = find_reads(*node, value);
    let ghost a: nat = node.addr as nat;
    let ghost k0 = node.keys@;
    let ghost p0 = node.ptrs@;
    let ghost c = level_cost_of(max);
    let ghost lb = level_bytes(max);
    let ghost len = k0.len();
    proof {
        lemma_node_offsets(max);
        assert((ht + 1) * c == ht * c + c) by (nonlinear_arith);
        assert((ht + 1) * lb == ht * lb + lb) by (nonlinear_arith);
        assert(ht * c >= 0) by (nonlinear_arith);
        assert(ht * lb >= 0) by (nonlinear_arith);
    }
    let f = find(node, value, sim, Ghost(s0), Ghost(used), Ghost(budget));
    let ghost u1: nat = used + len + 1;
    let hdr = core::mem::size_of::<Header<u64>>();
    match f {
        Ok(i) => {
            proof {
                assert(node.addr + (0 + 1) * 8 <= usize::MAX);
                assert(node.addr + hdr + (i + 1) * 8 <= usize::MAX);
            }
            touch_counted(sim, node.addr, 0, 8, Ghost(s0), Ghost(u1), Ghost(budget));
            proof {
                lemma_reads_one(s_in, fr, a);
            }
            touch_counted(sim, node.addr + hdr, i, 8, Ghost(s0), Ghost(u1 + 1), Ghost(budget));
            proof {
                let b: nat = (a + hdr + 8 * i) as nat;
                lemma_reads_one(s_in, fr.push(a), b);
                assert(splits_at(k0, value, i as nat));
                lemma_split_index(k0, value, i as nat);
                assert(fr.push(a).push(b) =~= fr + seq![a, b]);
                assert(ins_reads(n0, value, nf0) == fr + seq![a, b]);
            }
            proof {
                lemma_counted_mono(s0, sim@, u1 + 2, used + (ht + 1) * c);
                assert(*node == n0);
                assert(k0[i as int] == value);
                assert(k0.contains(value));
                assert(parts_has(k0, p0, value));
                assert(has_key(n0, value));
                assert forall|x: u64| #[trigger] has_key(*node, x) == (has_key(n0, x) || x == value) by {
                    if x == value {
                        assert(has_key(n0, value));
                    }
                }
                assert(node_ok(*node, lo, hi, max, ht));
            }
            None
        },
        Err(i) => {
            proof {
                assert(node.addr + (0 + 1) * 8 <= usize::MAX);
                lemma_search_child(k0, p0, ht, lo, hi, max, value, i as int);
                assert(lower(k0, lo, i as int) < value < upper(k0, hi, i as int));
            }
            touch_counted(sim, node.addr, 0, 8, Ghost(s0), Ghost(u1), Ghost(budget));
            proof {
                lemma_reads_one(s_in, fr, a);
                assert(splits_at(k0, value, i as nat));
                lemma_split_index(k0, value, i as nat);
                assert(!(i < k0.len() && k0[i as int] == value));
            }
            let ghost tr1 = fr.push(a);
            if node.is_leaf {
                let ghost k2 = k0.insert(i as int, value);
                let ghost p2 = p0.update(i as int, None).insert(i + 1, None);
                proof {
                    assert(p0[i as int] is None);
                    assert(p0.update(i as int, None) =~= p0);
                    lemma_parts_insert(k0, p0, ht, lo, hi, max, i as int, value, None, None);
                    assert forall|x: u64| parts_has(k2, p2, x) == (parts_has(k0, p0, x) || x == value) by {
                        lemma_has_insert(k0, p0, i as int, value, None, None, x);
                        lemma_has_at(k0, p0, i as int, x);
                    }
                }
                let t = try_place_at(node, i, value, None, sim, Ghost(s0), Ghost(u1 + 1), Ghost(budget));
                let ghost tpr = try_place_reads(n0, i as nat, false);
                proof {
                    lemma_elem_reads_concat(s_in, 0, 1, tr1, tpr);
                    assert(tr1 =~= fr + seq![a]);
                }
                match t {
                    None => {
                        proof {
                            assert(ins_reads(n0, value, nf0) =~= tr1 + tpr);
                            lemma_counted_mono(s0, sim@, u1 + 1 + 4 * max + 6, used + (ht + 1) * c);
                            assert(node.keys@ == k2);
                            assert(node.ptrs@ == p2);
                            assert(node_ok(*node, lo, hi, max, ht));
                            assert forall|x: u64| #[trigger] has_key(*node, x) == (has_key(n0, x) || x == value) by {
                                assert(parts_has(k2, p2, x) == (parts_has(k0, p0, x) || x == value));
                            }
                        }
                        None
                    },
                    Some(back) => {
                        proof {
                            assert(node.addr + node_bytes::<u64>(max) <= usize::MAX);
                        }
                        let sp = split(node, i, back.0, back.1, sim, Ghost(s0), Ghost(u1 + 2), Ghost(budget));
                        proof {
                            lemma_elem_reads_concat(s_in, 0, 1, tr1 + tpr, split_reads(n0, nf0));
                            assert(ins_reads(n0, value, nf0) =~= tr1 + tpr + split_reads(n0, nf0));
                        }
                        proof {
                            let m = split_point(k2.len()) as int;
                            lemma_parts_split(k2, p2, ht, lo, hi, max, m);
                            assert forall|x: u64|
                                (#[trigger] has_key(*node, x) || x == sp.0 || has_key(*sp.1, x)) == (
                                has_key(n0, x) || x == value) by {
                                lemma_has_split(k2, p2, m, x);
                            }
                            lemma_counted_mono(s0, sim@, u1 + 2 + 4 * max + 16, used + (ht + 1) * c);
                        }
                        Some(sp)
                    },
                }
            } else {
                let po = ptrs_offset_of(node.max_elements);
                proof {
                    assert(node.addr + po + (i + 1) * 8 <= usize::MAX);
                }
                touch_counted(sim, node.addr, 0, 8, Ghost(s0), Ghost(u1 + 1), Ghost(budget));
                proof {
                    lemma_reads_one(s_in, tr1, a);
                }
                touch_counted(sim, node.addr, 0, 8, Ghost(s0), Ghost(u1 + 2), Ghost(budget));
                proof {
                    lemma_reads_one(s_in, tr1.push(a), a);
                }
                touch_counted(sim, node.addr + po, i, 8, Ghost(s0), Ghost(u1 + 3), Ghost(budget));
                let ghost lk: nat = (a + po + 8 * i) as nat;
                let ghost tr2 = fr + seq![a, a, a, lk];
                proof {
                    lemma_reads_one(s_in, tr1.push(a).push(a), lk);
                    assert(tr1.push(a).push(a).push(lk) =~= tr2);
                }
                let ghost clo = lower(k0, lo, i as int);
                let ghost chi = upper(k0, hi, i as int);
                proof {
                    assert(p0[i as int] is Some);
                    assert(node_ok(*p0[i as int]->0, clo, chi, max, (ht - 1) as nat));
                }
                let mut child = node.ptrs.remove(i).unwrap();
                let ghost c0 = *child;
                let ghost sc = sim@;
                let cr = node_insert(
                    &mut *child,
                    value,
                    sim,
                    Ghost(clo),
                    Ghost(chi),
                    Ghost(max),
                    Ghost((ht - 1) as nat),
                    Ghost(s0),
                    Ghost(u1 + 4),
                    Ghost(budget),
                );
                let ghost u2: nat = u1 + 4 + ht * c;
                let ghost c1 = *child;
                let ghost lir = ins_reads(c0, value, nf0);
                let ghost nc = ins_nf(c0, value, nf0);
                proof {
                    lemma_elem_reads_concat(s_in, 0, 1, tr2, lir);
                    assert(p0[i as int] == Some(Box::new(c0)));
                    assert(link_ins_reads(p0, i as int, value, nf0) == lir);
                    assert(link_nf(p0, i as int, value, nf0) == nc);
                    assert(link_splits(p0, i as int, value) == ins_splits(c0, value));
                }
                proof {
                    assert(cr is None ==> node_ok(c1, clo, chi, max, (ht - 1) as nat));
                    if cr is Some {
                        let b = cr->0;
                        assert(forall|x: u64| (#[trigger] has_key(c1, x) || x == b.0 || has_key(*b.1, x)) == (has_key(c0, x) || x == value));
                    }
                }
                let ghost child_link: NodePtr = Some(child);
                node.ptrs.insert(i, Some(child));
                let ghost p1 = node.ptrs@;
                proof {
                    assert(p1 =~= p0.update(i as int, child_link));
                }
                match cr {
                    None => {
                        proof {
                            assert(ins_reads(n0, value, nf0) =~= tr2 + lir);
                            lemma_parts_update(k0, p0, ht, lo, hi, max, i as int, child_link);
                            assert forall|x: u64| #[trigger] has_key(*node, x) == (has_key(n0, x) || x == value) by {
                                lemma_has_update(k0, p0, i as int, child_link, x);
                                lemma_has_at(k0, p0, i as int, x);
                            }
                            lemma_counted_mono(s0, sim@, u2, used + (ht + 1) * c);
                        }
                        None
                    },
                    Some(back) => {
                        proof {
                            assert(cr == Some(back));
                        }
                        let ghost k2 = k0.insert(i as int, back.0);
                        let ghost p2 = p0.update(i as int, child_link).insert(i + 1, Some(back.1));
                        proof {
                            lemma_parts_insert(k0, p0, ht, lo, hi, max, i as int, back.0, child_link, Some(back.1));
                            assert forall|x: u64| parts_has(k2, p2, x) == (parts_has(k0, p0, x) || x == value) by {
                                lemma_has_insert(k0, p0, i as int, back.0, child_link, Some(back.1), x);
                                lemma_has_at(k0, p0, i as int, x);
                                assert((has_key(c1, x) || x == back.0 || has_key(*back.1, x)) == (has_key(c0, x) || x == value));
                            }
                        }
                        let ghost nt = *node;
                        let t = try_place_at(node, i, back.0, Some(back.1), sim, Ghost(s0), Ghost(u2), Ghost(budget));
                        let ghost tpr = try_place_reads(n0, i as nat, true);
                        proof {
                            lemma_reads_fields(nt, n0, i as nat, true, nc);
                            lemma_elem_reads_concat(s_in, 0, 1, tr2 + lir, tpr);
                        }
                        match t {
                            None => {
                                proof {
                                    assert(ins_reads(n0, value, nf0) =~= tr2 + lir + tpr);
                                    lemma_counted_mono(s0, sim@, u2 + 4 * max + 6, used + (ht + 1) * c);
                                    assert(node.keys@ == k2);
                                    assert(node.ptrs@ =~= p2);
                                    assert(node_ok(*node, lo, hi, max, ht));
                                    assert forall|x: u64| #[trigger] has_key(*node, x) == (has_key(n0, x) || x == value) by {
                                        assert(parts_has(k2, p2, x) == (parts_has(k0, p0, x) || x == value));
                                    }
                                }
                                None
                            },
                            Some(back2) => {
                                let sp = split(node, i, back2.0, back2.1, sim, Ghost(s0), Ghost(u2 + 1), Ghost(budget));
                                proof {
                                    lemma_reads_fields(nt, n0, i as nat, true, nc);
                                    lemma_elem_reads_concat(s_in, 0, 1, tr2 + lir + tpr, split_reads(n0, nc));
                                    assert(ins_reads(n0, value, nf0) =~= tr2 + lir + tpr + split_reads(n0, nc));
                                }
                                proof {
                                    assert(p1.insert(i + 1, Some(back.1)) =~= p2);
                                    let m = split_point(k2.len()) as int;
                                    lemma_parts_split(k2, p2, ht, lo, hi, max, m);
                                    assert forall|x: u64|
                                        (#[trigger] has_key(*node, x) || x == sp.0 || has_key(*sp.1, x)) == (
                                        has_key(n0, x) || x == value) by {
                                        lemma_has_split(k2, p2, m, x);
                                    }
                                    lemma_counted_mono(s0, sim@, u2 + 1 + 4 * max + 16, used + (ht + 1) * c);
                                }
                                Some(sp)
                            },
                        }
                    },
                }
            }
        },
    }
}


/// The words that making a root reads when the next free address is `nf`
/// (where it goes): its header as it is made, then, each read as it is
/// written, the header twice, the key, the header twice, and the two links.
spec fn root_reads(nf: nat, max: nat) -> Seq<nat> {
    let hdr = size_of::<Header<u64>>();
    let po = ptrs_offset::<u64>(max);
    seq![nf, nf, nf, nf + hdr, nf, nf, nf + po, nf + po + 8]
}

/// The words that putting a key into an empty tree reads when the next free
/// address is `nf` (where the leaf goes): its header as it is made; the
/// search of its keys (the header); the header; trying to place the key
/// (the header, then the header, the key's word, the header).
spec fn first_reads(nf: nat) -> Seq<nat> {
    let hdr = size_of::<Header<u64>>();
    seq![nf, nf, nf, nf, nf, nf + hdr, nf]
}

/// A root above `left` and `right`, with `pivot` between them, in fresh
/// simulated memory: writing its header, then the number of keys, the key
/// and the two links, each read as it is written.
fn root_with_capacity(
    max_elements: u16,
    pivot: u64,
    left: Box<Node>,
    right: Box<Node>,
    sim: &mut Simalloc,
    Ghost(s0): Ghost<HierarchyView>,
    Ghost(used): Ghost<nat>,
    Ghost(budget): Ghost<nat>,
) -> (n: Node)
    requires
        node_size_ok(max_elements as nat),
        1 <= max_elements,
        old(sim).wf(),
        old(sim).next_free() + level_bytes(max_elements as nat) <= usize::MAX,
        headroom(s0, budget),
        counted_within(s0, old(sim)@, used),
        used + 8 <= budget,
    ensures
        n.keys@ == seq![pivot],
        n.ptrs@ == seq![Some(left), Some(right)],
        n.max_elements == max_elements,
        !n.is_leaf,
        n.addr % 8 == 0,
        n.addr + node_bytes::<u64>(max_elements as nat) <= usize::MAX,
        final(sim).wf(),
        counted_within(s0, final(sim)@, used + 8),
        old(sim).next_free() <= final(sim).next_free() <= old(sim).next_free() + level_bytes(
            max_elements as nat,
        ),
        n.addr == old(sim).next_free(),
        final(sim).next_free() == after_alloc(old(sim).next_free(), max_elements as nat),
        final(sim)@ == elem_reads(old(sim)@, 0, 1, root_reads(old(sim).next_free(), max_elements as nat)),
{
    let ghost s_in = sim@;
    let ghost nf0 = sim.next_free();
    let mut this = with_capacity(max_elements, false, sim, Ghost(s0), Ghost(used), Ghost(budget));
    let hdr = core::mem::size_of::<Header<u64>>();
    let po = ptrs_offset_of(max_elements);
    proof {
        lemma_node_offsets(max_elements as nat);
        assert(this.addr + (0 + 1) * 8 <= usize::MAX);
        assert(this.addr + hdr + (0 + 1) * 8 <= usize::MAX);
        assert(this.addr + po + (1 + 1) * 8 <= usize::MAX);
    }
    let ghost r: nat = this.addr as nat;
    let ghost mut tr: Seq<nat> = seq![r];
    touch_counted(sim, this.addr, 0, 8, Ghost(s0), Ghost(used + 1), Ghost(budget));
    proof {
        lemma_reads_one(s_in, tr, r);
        tr = tr.push(r);
    }
    touch_counted(sim, this.addr, 0, 8, Ghost(s0), Ghost(used + 2), Ghost(budget));
    proof {
        lemma_reads_one(s_in, tr, r);
        tr = tr.push(r);
    }
    touch_counted(sim, this.addr + hdr, 0, 8, Ghost(s0), Ghost(used + 3), Ghost(budget));
    proof {
        lemma_reads_one(s_in, tr, (r + hdr) as nat);
        tr = tr.push((r + hdr) as nat);
    }
    touch_counted(sim, this.addr, 0, 8, Ghost(s0), Ghost(used + 4), Ghost(budget));
    proof {
        lemma_reads_one(s_in, tr, r);
        tr = tr.push(r);
    }
    touch_counted(sim, this.addr, 0, 8, Ghost(s0), Ghost(used + 5), Ghost(budget));
    proof {
        lemma_reads_one(s_in, tr, r);
        tr = tr.push(r);
    }
    touch_counted(sim, this.addr + po, 0, 8, Ghost(s0), Ghost(used + 6), Ghost(budget));
    proof {
        lemma_reads_one(s_in, tr, (r + po) as nat);
        tr = tr.push((r + po) as nat);
    }
    touch_counted(sim, this.addr + po, 1, 8, Ghost(s0), Ghost(used + 7), Ghost(budget));
    proof {
        lemma_reads_one(s_in, tr, (r + po + 8) as nat);
        tr = tr.push((r + po + 8) as nat);
        assert(tr =~= root_reads(nf0, max_elements as nat));
    }
    this.keys.push(pivot);
    let mut ptrs: Vec<NodePtr> = Vec::new();
    ptrs.push(Some(left));
    ptrs.push(Some(right));
    this.ptrs = ptrs;
    this
}

/// Bounds that no `u64` key reaches.
pub open spec fn below_keys() -> int {
    -1
}

pub open spec fn above_keys() -> int {
    0x1_0000_0000_0000_0000
}

/// A B-tree of `u64` keys whose nodes, of room for `max_elements` keys
/// each, lie in simulated memory; `height` counts the levels below the
/// root.
pub struct BTree {
    root: NodePtr,
    max_elements: u16,
    height: usize,
}

impl View for BTree {
    type V = Set<u64>;

    /// The keys.
    closed spec fn view(&self) -> Set<u64> {
        Set::new(|x: u64| ptr_has(self.root, x))
    }
}

impl BTree {
    pub closed spec fn wf(&self) -> bool {
        &&& node_size_ok(self.max_elements as nat)
        &&& 2 <= self.max_elements
        &&& self.height < 0xffff_ffff
        &&& match self.root {
            None => self.height == 0,
            Some(r) => node_ok(*r, below_keys(), above_keys(), self.max_elements as nat, self.height as nat),
        }
    }

    /// The most keys a node takes.
    pub closed spec fn capacity(&self) -> nat {
        self.max_elements as nat
    }

    /// The addresses of the words that an insertion of `v` reads, in order,
    /// when the next free address of the simulated memory is `nf`: into an
    /// empty tree, making a leaf there and putting `v` in; else putting `v`
    /// in below the root, and, where the root splits, making a new root.
    pub closed spec fn insert_reads(&self, v: u64, nf: nat) -> Seq<nat> {
        match self.root {
            None => first_reads(nf),
            Some(r) => ins_reads(*r, v, nf) + if ins_splits(*r, v) {
                root_reads(ins_nf(*r, v, nf), self.max_elements as nat)
            } else {
                Seq::empty()
            },
        }
    }

    /// The addresses of the words that a lookup of `v` reads, in order: for
    /// each node on its way down from the root, the node's header, the keys
    /// that a binary search for `v` probes, then the header and the key
    /// where `v` is there, else the header twice and the link that the
    /// search follows.
    pub closed spec fn lookup_reads(&self, v: u64) -> Seq<nat> {
        match self.root {
            None => Seq::empty(),
            Some(r) => get_reads(*r, v),
        }
    }

    /// Accesses that an insertion may count.
    pub closed spec fn insert_cost(&self) -> nat {
        ((self.height + 1) * level_cost_of(self.max_elements as nat) + 8) as nat
    }

    /// Bytes that an insertion may allocate.
    pub closed spec fn insert_bytes(&self) -> nat {
        ((self.height + 2) * level_bytes(self.max_elements as nat)) as nat
    }

    /// Accesses that a lookup may count.
    pub closed spec fn get_cost(&self) -> nat {
        ((self.height + 1) * (self.max_elements + 4)) as nat
    }

    /// An insertion fits: the height leaves room for one more level, the
    /// counters for its accesses, the addresses for its allocations.
    pub closed spec fn insert_room(&self, s: HierarchyView, next_free: nat) -> bool {
        &&& self.height + 1 < 0xffff_ffff
        &&& headroom(s, self.insert_cost())
        &&& next_free + self.insert_bytes() <= usize::MAX
    }

    /// An empty tree whose nodes take `cap` keys each.
    pub fn with_node_capacity_in_sim(cap: u16) -> (t: BTree)
        requires
            node_size_ok(cap as nat),
            2 <= cap,
        ensures
            t.wf(),
            t@ == Set::<u64>::empty(),
            t.capacity() == cap,
    {
        let t = BTree { root: None, max_elements: cap, height: 0 };
        proof {
            assert(t@ =~= Set::<u64>::empty());
        }
        t
    }

    /// An empty tree whose nodes take as many keys as fit `size` bytes
    /// (see `num_elements_for_node_size`).
    pub fn with_node_size_in_sim(size: usize) -> (t: BTree)
        requires
            btree_layout_ok(),
            node_bytes::<u64>(2) <= size <= 0xffff,
        ensures
            t.wf(),
            t@ == Set::<u64>::empty(),
            node_bytes::<u64>(t.capacity()) <= size,
            node_bytes::<u64>(t.capacity() + 1) > size,
    {
        proof {
            lemma_node_offsets(2);
            lemma_node_offsets(0);
            lemma_fundamental_div_mod((size - size_of::<Header<u64>>() - 8) as int, 8);
        }
        let num_elems = num_elements_for_node_size::<u64>(size);
        proof {
            let start = ((size - size_of::<Header<u64>>() - size_of::<NodePtr>()) as nat / size_of::<u64>())
                + size_of::<NodePtr>();
            lemma_node_offsets(num_elems as nat);
            lemma_node_offsets((num_elems + 1) as nat);
            lemma_node_offsets(start);
            assert(num_elems >= 2) by {
                if num_elems < 2 {
                    assert(node_bytes::<u64>(2) > size);
                }
            }
            if num_elems + 1 > start {
                lemma_node_offsets(start + 1);
            }
        }
        Self::with_node_capacity_in_sim(num_elems as u16)
    }

    /// The most keys a node takes.
    pub fn node_capacity(&self) -> (c: u16)
        ensures
            c == self.capacity(),
    {
        self.max_elements
    }

    /// Whether an insertion fits (see `insert_room`).
    pub fn room_for_insert(&self, sim: &Simalloc) -> (b: bool)
        requires
            self.wf(),
            sim.wf(),
        ensures
            b == self.insert_room(sim@, sim.next_free()),
    {
        proof {
            lemma_node_offsets(self.max_elements as nat);
        }
        if self.height >= 0xffff_fffe {
            return false;
        }
        let h = self.height as u64;
        let m = self.max_elements as u64;
        proof {
            assert((h + 1) * (5 * m + 24) + 8 <= 0x1_0000_0000 * (5 * 0xffff + 24) + 8) by (nonlinear_arith)
                requires
                    h < 0xffff_ffff,
                    m <= 0xffff,
            ;
        }
        let cost: u64 = (h + 1) * (5 * m + 24) + 8;
        let size = node_size_for_num_elements::<u64>(self.max_elements as usize) as u64;
        proof {
            assert((h + 2) * (size + 16) <= 0x1_0000_0001 * (0xffff + 16)) by (nonlinear_arith)
                requires
                    h < 0xffff_ffff,
                    size <= 0xffff,
            ;
        }
        let bytes: u64 = (h + 2) * (size + 16);
        if !sim.has_room(cost) {
            return false;
        }
        let free = sim.free_from() as u64;
        proof {
            assert(cost == self.insert_cost());
            assert(bytes == self.insert_bytes());
        }
        (usize::MAX as u64) - free >= bytes
    }

    /// Whether a lookup fits the counters.
    pub fn room_for_get(&self, sim: &Simalloc) -> (b: bool)
        requires
            self.wf(),
            sim.wf(),
        ensures
            b == headroom(sim@, self.get_cost()),
    {
        let h = self.height as u64;
        let m = self.max_elements as u64;
        proof {
            assert((h + 1) * (m + 4) <= 0x1_0000_0000 * (0xffff + 4)) by (nonlinear_arith)
                requires
                    h < 0xffff_ffff,
                    m <= 0xffff,
            ;
        }
        sim.has_room((h + 1) * (m + 4))
    }

    /// The key equal to `value`, if the tree holds it (see `node_get`).
    pub fn get(&self, value: &u64, sim: &mut Simalloc) -> (r: Option<&u64>)
        requires
            self.wf(),
            old(sim).wf(),
            headroom(old(sim)@, self.get_cost()),
        ensures
            r is Some == self@.contains(*value),
            r matches Some(x) ==> *x == *value,
            final(sim).wf(),
            final(sim)@ == elem_reads(old(sim)@, 0, 1, self.lookup_reads(*value)),
            counted_within(old(sim)@, final(sim)@, self.get_cost()),
            final(sim).next_free() == old(sim).next_free(),
    {
        let ghost s0 = sim@;
        proof {
            assert(counted_within(s0, s0, 0));
        }
        match &self.root {
            None => None,
            Some(node) => node_get(
                node,
                *value,
                sim,
                Ghost(below_keys()),
                Ghost(above_keys()),
                Ghost(self.max_elements as nat),
                Ghost(self.height as nat),
                Ghost(s0),
                Ghost(0),
                Ghost(self.get_cost()),
            ),
        }
    }

    /// Puts `value` in: into a new leaf root when the tree is empty; else
    /// below the root (see `node_insert`), and when the root splits, under
    /// a new root (see `root_with_capacity`).
    #[verifier::rlimit(50)]
    #[verifier::spinoff_prover]
    pub fn insert(&mut self, value: u64, sim: &mut Simalloc)
        requires
            old(self).wf(),
            old(sim).wf(),
            old(self).insert_room(old(sim)@, old(sim).next_free()),
        ensures
            final(self).wf(),
            final(self)@ == old(self)@.insert(value),
            final(self).capacity() == old(self).capacity(),
            final(sim).wf(),
            final(sim)@ == elem_reads(old(sim)@, 0, 1, old(self).insert_reads(value, old(sim).next_free())),
            counted_within(old(sim)@, final(sim)@, old(self).insert_cost()),
            final(sim).next_free() >= old(sim).next_free(),
    {
        let ghost s0 = sim@;
        let ghost nf0 = sim.next_free();
        let ghost self0 = *self;
        let ghost max = self.max_elements as nat;
        let ghost ht = self.height as nat;
        let ghost budget = self.insert_cost();
        let ghost old_view = self@;
        proof {
            assert(counted_within(s0, s0, 0));
            lemma_node_offsets(max);
            assert((ht + 1) * level_cost_of(max) >= level_cost_of(max)) by (nonlinear_arith);
            assert((ht + 2) * level_bytes(max) == (ht + 1) * level_bytes(max) + level_bytes(max))
                by (nonlinear_arith);
            assert((ht + 1) * level_bytes(max) >= level_bytes(max)) by (nonlinear_arith);
        }
        if self.root.is_none() {
            let mut root = with_capacity(self.max_elements, true, sim, Ghost(s0), Ghost(0), Ghost(budget));
            proof {
                assert(node_ok(root, below_keys(), above_keys(), max, 0)) by {
                    assert(keys_between(root.keys@, below_keys(), above_keys()));
                }
                assert(1 * level_cost_of(max) == level_cost_of(max));
                assert(1 * level_bytes(max) == level_bytes(max));
            }
            let ghost r0 = root;
            let ghost nf1 = sim.next_free();
            let r = node_insert(
                &mut root,
                value,
                sim,
                Ghost(below_keys()),
                Ghost(above_keys()),
                Ghost(max),
                Ghost(0),
                Ghost(s0),
                Ghost(1),
                Ghost(budget),
            );
            proof {
                let a: nat = r0.addr as nat;
                assert(a == nf0);
                assert(splits_at(r0.keys@, value, 0));
                lemma_split_index(r0.keys@, value, 0);
                assert(find_reads(r0, value) =~= seq![a]);
                assert(shift_reads((a + size_of::<Header<u64>>()) as nat, 0, 0) == seq![a + size_of::<Header<u64>>()]);
                assert(place_reads(r0, 0, false) =~= seq![a, a + size_of::<Header<u64>>(), a]);
                assert(try_place_reads(r0, 0, false) =~= seq![a, a, a + size_of::<Header<u64>>(), a]);
                assert(ins_reads(r0, value, nf1) =~= seq![a, a, a, a, a + size_of::<Header<u64>>(), a]);
                lemma_elem_reads_concat(s0, 0, 1, seq![a], ins_reads(r0, value, nf1));
                assert(seq![a] + ins_reads(r0, value, nf1) =~= first_reads(nf0));
                assert(self0.insert_reads(value, nf0) == first_reads(nf0));
            }
            proof {
                assert(r is None);
                assert forall|x: u64| !has_key(r0, x) by {
                    assert(!r0.keys@.contains(x));
                    if parts_has(r0.keys@, r0.ptrs@, x) {
                        let j = choose|j: int| 0 <= j < r0.ptrs@.len() && #[trigger] r0.ptrs@[j] is Some
                            && has_key(*r0.ptrs@[j]->0, x);
                        assert(r0.ptrs@[j] is None);
                    }
                }
                lemma_counted_mono(s0, sim@, 1 + level_cost_of(max), budget);
            }
            self.root = Some(Box::new(root));
            self.height = 0;
            proof {
                assert(self@ =~= old_view.insert(value));
            }
        } else {
            let mut root = self.root.take().unwrap();
            let ghost r0 = *root;
            let r = node_insert(
                &mut *root,
                value,
                sim,
                Ghost(below_keys()),
                Ghost(above_keys()),
                Ghost(max),
                Ghost(ht),
                Ghost(s0),
                Ghost(0),
                Ghost(budget),
            );
            match r {
                None => {
                    self.root = Some(root);
                    proof {
                        assert(self@ =~= old_view.insert(value));
                        lemma_counted_mono(s0, sim@, (ht + 1) * level_cost_of(max), budget);
                        assert(self0.insert_reads(value, nf0) =~= ins_reads(r0, value, nf0));
                    }
                },
                Some(back) => {
                    let ghost left = *root;
                    let ghost right = *back.1;
                    let new_root = root_with_capacity(
                        self.max_elements,
                        back.0,
                        root,
                        back.1,
                        sim,
                        Ghost(s0),
                        Ghost((ht + 1) * level_cost_of(max)),
                        Ghost(budget),
                    );
                    let ghost nr = new_root;
                    self.root = Some(Box::new(new_root));
                    self.height = self.height + 1;
                    proof {
                        lemma_elem_reads_concat(
                            s0,
                            0,
                            1,
                            ins_reads(r0, value, nf0),
                            root_reads(ins_nf(r0, value, nf0), max),
                        );
                        assert(self0.insert_reads(value, nf0) == ins_reads(r0, value, nf0) + root_reads(
                            ins_nf(r0, value, nf0),
                            max,
                        ));
                    }
                    proof {
                        let ks = nr.keys@;
                        let ps = nr.ptrs@;
                        assert(keys_between(ks, below_keys(), above_keys()));
                        assert(parts_ok(ks, ps, ht + 1, below_keys(), above_keys(), max));
                        assert(node_ok(nr, below_keys(), above_keys(), max, ht + 1));
                        assert forall|x: u64| has_key(nr, x) == (x == back.0 || has_key(left, x) || has_key(right, x)) by {
                            if has_key(nr, x) && x != back.0 {
                                assert(!ks.contains(x)) by {
                                    if ks.contains(x) {
                                        let a = choose|a: int| 0 <= a < ks.len() && ks[a] == x;
                                    }
                                }
                                let j = choose|j: int| 0 <= j < ps.len() && #[trigger] ps[j] is Some && has_key(*ps[j]->0, x);
                                if j == 0 {
                                } else {
                                }
                            }
                            if x == back.0 {
                                assert(ks[0] == x);
                                assert(ks.contains(x));
                            }
                            if has_key(left, x) {
                                assert(ps[0] is Some);
                            }
                            if has_key(right, x) {
                                assert(ps[1] is Some);
                            }
                        }
                        assert forall|x: u64| self@.contains(x) == old_view.insert(value).contains(x) by {
                            assert(self@.contains(x) == has_key(nr, x));
                            assert(old_view.contains(x) == has_key(r0, x));
                            assert((has_key(left, x) || x == back.0 || has_key(right, x)) == (has_key(r0, x) || x == value));
                        }
                        assert(self@ =~= old_view.insert(value));
                    }
                },
            }
        }
    }
}


/// After an insertion, the key inserted is there, every key that was there
/// still is, and no other key is; inserting a key already there changes
/// nothing.
pub proof fn lemma_btree_insert_found(before: &BTree, after: &BTree, v: u64)
    requires
        before.wf(),
        after@ == before@.insert(v),
    ensures
        after@.contains(v),
        forall|x: u64| before@.contains(x) ==> #[trigger] after@.contains(x),
        forall|x: u64| #[trigger] after@.contains(x) ==> before@.contains(x) || x == v,
        before@.contains(v) ==> after@ == before@,
{
    if before@.contains(v) {
        assert(after@ =~= before@);
    }
}


/// What the picture of a node shows: its address, its level (the root's
/// is 0), its keys, and for each link that is set, the link's number and
/// the address of the node it leads to.
pub struct DotNode {
    pub addr: usize,
    pub level: usize,
    pub keys: Vec<u64>,
    pub links: Vec<(usize, usize)>,
}

/// The nodes that the links lead to, in order.
spec fn children(ptrs: Seq<NodePtr>) -> Seq<Node>
    decreases ptrs.len(),
{
    if ptrs.len() == 0 {
        Seq::empty()
    } else {
        children(ptrs.drop_last()) + match ptrs.last() {
            Some(b) => seq![*b],
            None => Seq::empty(),
        }
    }
}

/// The set links, each as its number and the address of its node.
spec fn links_of(ptrs: Seq<NodePtr>) -> Seq<(usize, usize)>
    decreases ptrs.len(),
{
    if ptrs.len() == 0 {
        Seq::empty()
    } else {
        links_of(ptrs.drop_last()) + match ptrs.last() {
            Some(b) => seq![((ptrs.len() - 1) as usize, b.addr)],
            None => Seq::empty(),
        }
    }
}

/// The nodes one level below `level`, left to right.
spec fn next_level(level: Seq<Node>) -> Seq<Node>
    decreases level.len(),
{
    if level.len() == 0 {
        Seq::empty()
    } else {
        next_level(level.drop_last()) + children(level.last().ptrs@)
    }
}

/// The nodes `h` levels below `root`, left to right.
spec fn level_nodes(root: Node, h: nat) -> Seq<Node>
    decreases h,
{
    if h == 0 {
        seq![root]
    } else {
        next_level(level_nodes(root, (h - 1) as nat))
    }
}

/// The picture of a node at level `h`.
spec fn picture(n: Node, h: nat) -> (usize, nat, Seq<u64>, Seq<(usize, usize)>) {
    (n.addr, h, n.keys@, links_of(n.ptrs@))
}

/// The pictures of the nodes of `level`, all at level `h`, in order.
spec fn level_pictures(level: Seq<Node>, h: nat) -> Seq<(usize, nat, Seq<u64>, Seq<(usize, usize)>)> {
    level.map_values(|n: Node| picture(n, h))
}

/// The pictures of the nodes of the first `h` levels below `root`, level
/// by level, each left to right.
spec fn pictures_upto(root: Node, h: nat) -> Seq<(usize, nat, Seq<u64>, Seq<(usize, usize)>)>
    decreases h,
{
    if h == 0 {
        Seq::empty()
    } else {
        pictures_upto(root, (h - 1) as nat) + level_pictures(level_nodes(root, (h - 1) as nat), (h - 1) as nat)
    }
}

/// What a `DotNode` shows.
pub open spec fn dot_view(d: DotNode) -> (usize, nat, Seq<u64>, Seq<(usize, usize)>) {
    (d.addr, d.level as nat, d.keys@, d.links@)
}

/// The nodes behind a row of references.
spec fn nodes_of(q: Seq<&Node>) -> Seq<Node> {
    q.map_values(|r: &Node| *r)
}

proof fn lemma_children_step(ptrs: Seq<NodePtr>, j: int)
    requires
        0 <= j < ptrs.len(),
    ensures
        children(ptrs.subrange(0, j + 1)) == children(ptrs.subrange(0, j)) + match ptrs[j] {
            Some(b) => seq![*b],
            None => Seq::<Node>::empty(),
        },
        links_of(ptrs.subrange(0, j + 1)) == links_of(ptrs.subrange(0, j)) + match ptrs[j] {
            Some(b) => seq![(j as usize, b.addr)],
            None => Seq::<(usize, usize)>::empty(),
        },
{
    let p = ptrs.subrange(0, j + 1);
    assert(p.drop_last() =~= ptrs.subrange(0, j));
    assert(p.last() == ptrs[j]);
}

proof fn lemma_level_step(q: Seq<Node>, i: int, h: nat)
    requires
        0 <= i < q.len(),
    ensures
        next_level(q.subrange(0, i + 1)) == next_level(q.subrange(0, i)) + children(q[i].ptrs@),
        level_pictures(q.subrange(0, i + 1), h) == level_pictures(q.subrange(0, i), h).push(picture(q[i], h)),
{
    let p = q.subrange(0, i + 1);
    assert(p.drop_last() =~= q.subrange(0, i));
    assert(p.last() == q[i]);
    assert(level_pictures(p, h) =~= level_pictures(q.subrange(0, i), h).push(picture(q[i], h)));
}

impl BTree {
    /// The pictures of the nodes, level by level from the root down, each
    /// level left to right: a node's address, its level, its keys, and its
    /// links that are set.
    pub closed spec fn pictures(&self) -> Seq<(usize, nat, Seq<u64>, Seq<(usize, usize)>)> {
        match self.root {
            None => Seq::empty(),
            Some(r) => pictures_upto(*r, self.height as nat + 1),
        }
    }

    /// The picture of every node, level by level from the root down, each
    /// level left to right.
    pub fn dot_nodes(&self) -> (out: Vec<DotNode>)
        requires
            self.wf(),
        ensures
            out@.map_values(|d: DotNode| dot_view(d)) == self.pictures(),
    {
        let mut out: Vec<DotNode> = Vec::new();
        let root: &Node = match &self.root {
            None => {
                assert(out@.map_values(|d: DotNode| dot_view(d)) =~= Seq::empty());
                return out;
            },
            Some(b) => &**b,
        };
        let ghost ht = self.height as nat;
        let mut queue: Vec<&Node> = Vec::new();
        queue.push(root);
        let mut h: usize = 0;
        proof {
            assert(nodes_of(queue@) =~= seq![*root]);
            assert(out@.map_values(|d: DotNode| dot_view(d)) =~= pictures_upto(*root, 0));
        }
        while h <= self.height
            invariant
                self.wf(),
                ht == self.height,
                self.root matches Some(r) && *r == *root,
                h <= ht + 1,
                nodes_of(queue@) == level_nodes(*root, h as nat),
                out@.map_values(|d: DotNode| dot_view(d)) == pictures_upto(*root, h as nat),
            decreases ht + 1 - h,
        {
            let mut next: Vec<&Node> = Vec::new();
            let mut i: usize = 0;
            let ghost q = nodes_of(queue@);
            let ghost out0 = out@.map_values(|d: DotNode| dot_view(d));
            proof {
                assert(nodes_of(next@) =~= next_level(q.subrange(0, 0)));
                assert(out@.map_values(|d: DotNode| dot_view(d)) =~= out0 + level_pictures(q.subrange(0, 0), h as nat));
            }
            while i < queue.len()
                invariant
                    q == nodes_of(queue@),
                    i <= queue@.len(),
                    h <= ht,
                    nodes_of(next@) == next_level(q.subrange(0, i as int)),
                    out@.map_values(|d: DotNode| dot_view(d)) == out0 + level_pictures(q.subrange(0, i as int), h as nat),
                decreases queue@.len() - i,
            {
                let n: &Node = queue[i];
                assert(*n == q[i as int]);
                let mut keys: Vec<u64> = Vec::new();
                let mut k: usize = 0;
                while k < n.keys.len()
                    invariant
                        k <= n.keys@.len(),
                        keys@ == n.keys@.subrange(0, k as int),
                    decreases n.keys@.len() - k,
                {
                    keys.push(n.keys[k]);
                    k = k + 1;
                    assert(keys@ =~= n.keys@.subrange(0, k as int));
                }
                assert(keys@ =~= n.keys@);
                let mut links: Vec<(usize, usize)> = Vec::new();
                let ghost next0 = nodes_of(next@);
                let mut j: usize = 0;
                proof {
                    assert(links@ =~= links_of(n.ptrs@.subrange(0, 0)));
                    assert(nodes_of(next@) =~= next0 + children(n.ptrs@.subrange(0, 0)));
                }
                while j < n.ptrs.len()
                    invariant
                        j <= n.ptrs@.len(),
                        links@ == links_of(n.ptrs@.subrange(0, j as int)),
                        nodes_of(next@) == next0 + children(n.ptrs@.subrange(0, j as int)),
                    decreases n.ptrs@.len() - j,
                {
                    proof {
                        lemma_children_step(n.ptrs@, j as int);
                    }
                    match &n.ptrs[j] {
                        Some(b) => {
                            let c: &Node = &**b;
                            links.push((j, c.addr));
                            let ghost nb = next@;
                            next.push(c);
                            assert(nodes_of(next@) =~= nodes_of(nb).push(*c));
                            assert(nodes_of(next@) =~= next0 + children(n.ptrs@.subrange(0, j + 1)));
                            assert(links@ =~= links_of(n.ptrs@.subrange(0, j + 1)));
                        },
                        None => {
                            assert(nodes_of(next@) =~= next0 + children(n.ptrs@.subrange(0, j + 1)));
                            assert(links@ =~= links_of(n.ptrs@.subrange(0, j + 1)));
                        },
                    }
                    j = j + 1;
                }
                assert(n.ptrs@.subrange(0, n.ptrs@.len() as int) =~= n.ptrs@);
                let d = DotNode { addr: n.addr, level: h, keys, links };
                let ghost before = out@;
                out.push(d);
                proof {
                    lemma_level_step(q, i as int, h as nat);
                    assert(dot_view(d) == picture(q[i as int], h as nat));
                    assert(out@.map_values(|d: DotNode| dot_view(d)) =~= before.map_values(|d: DotNode| dot_view(d)).push(dot_view(d)));
                    assert(nodes_of(next@) =~= next_level(q.subrange(0, i + 1)));
                }
                i = i + 1;
            }
            proof {
                assert(q.subrange(0, q.len() as int) =~= q);
            }
            queue = next;
            h = h + 1;
        }
        out
    }
}

} // verus!
