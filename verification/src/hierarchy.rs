//! A hierarchy of simulated caches, accessed level by level.

use vstd::prelude::*;
use crate::lru_cache::{
    LruCache, LruView, Access, access_step, access_ok, access_all, access_all_ok, unpin_step,
    unpin_all, unpin_span, span_blocks, reset_step, idle, lemma_idle_all, lemma_span_len,
    lemma_idle_step, lemma_access_counts,
};

verus! {

/// The shape of one level: how many blocks of what size, and whether a hit
/// there lets the access go on to the next level (inclusive) or stops it.
pub struct CacheSpec {
    pub num_blocks: usize,
    pub block_size: usize,
    pub inclusive: bool,
}

/// The counters of one level.
pub struct CacheStats {
    pub num_blocks: usize,
    pub blocksize: usize,
    pub accesses: u64,
    pub hits: u64,
    pub inclusive: bool,
}

pub struct Hierarchy {
    level: Vec<LruCache>,
    inclusive: Vec<bool>,
}

/// The state of a `Hierarchy`: each level's cache and whether it is
/// inclusive.
pub struct HierarchyView {
    pub levels: Seq<LruView>,
    pub inclusive: Seq<bool>,
}

impl View for Hierarchy {
    type V = HierarchyView;

    closed spec fn view(&self) -> HierarchyView {
        HierarchyView { levels: self.level@.map_values(|c: LruCache| c@), inclusive: self.inclusive@ }
    }
}

/// A hit at level `i` ends the access there: the level is not inclusive, or
/// its blocks are larger than those of the next level.
pub open spec fn stops_at(levels: Seq<LruView>, inclusive: Seq<bool>, i: int) -> bool {
    !inclusive[i] || (i + 1 < levels.len() && levels[i].block_size > levels[i + 1].block_size)
}

/// The access of `block` reaches level `j`: no level before it hit and ended
/// the access.
pub open spec fn reached(levels: Seq<LruView>, inclusive: Seq<bool>, block: usize, j: int) -> bool {
    forall|k: int|
        0 <= k < j ==> !(#[trigger] levels[k].mapped.contains_key(block) && stops_at(levels, inclusive, k))
}

/// Whether to pin at level `j`: only while every level before it is inclusive.
pub open spec fn pin_at(inclusive: Seq<bool>, pin: bool, j: int) -> bool {
    pin && forall|k: int| 0 <= k < j ==> #[trigger] inclusive[k]
}

/// The accesses of level `j` for the bytes `addr .. addr + num_bytes`.
pub open spec fn level_addr_access(levels: Seq<LruView>, inclusive: Seq<bool>, addr: nat, num_bytes: nat, pin: bool, j: int) -> (LruView, bool) {
    access_all(levels[j], span_blocks(levels[j].block_size, addr, num_bytes), pin_at(inclusive, pin, j))
}

/// The access of the bytes `addr .. addr + num_bytes` reaches level `j`: no
/// level before it, not inclusive, hit on every block.
pub open spec fn reached_addr(levels: Seq<LruView>, inclusive: Seq<bool>, addr: nat, num_bytes: nat, pin: bool, j: int) -> bool {
    forall|k: int|
        0 <= k < j ==> !(#[trigger] level_addr_access(levels, inclusive, addr, num_bytes, pin, k).1
            && !inclusive[k])
}

/// In a hierarchy whose levels are all inclusive and all have blocks of one
/// size, an access of a block (`access_or_pin`, or a read through
/// `block_step`) goes on to every level whether it hits or not: every level
/// counts one access more, and one hit more exactly where it held the block.
pub proof fn lemma_uniform_inclusive_reaches_all(h: HierarchyView, block: usize, pin: bool)
    requires
        h.inclusive.len() == h.levels.len(),
        forall|j: int| 0 <= j < h.inclusive.len() ==> #[trigger] h.inclusive[j],
        forall|j: int, k: int|
            0 <= j < h.levels.len() && 0 <= k < h.levels.len() ==> #[trigger] h.levels[j].block_size
                == #[trigger] h.levels[k].block_size,
    ensures
        forall|j: int| 0 <= j < h.levels.len() ==> #[trigger] reached(h.levels, h.inclusive, block, j),
        forall|j: int|
            0 <= j < h.levels.len() ==> #[trigger] access_step(h.levels[j], block, pin).accs == h.levels[j].accs + 1
                && access_step(h.levels[j], block, pin).hits == h.levels[j].hits + (if h.levels[j].mapped.contains_key(
                block,
            ) {
                1int
            } else {
                0
            }),
        forall|j: int|
            0 <= j < h.levels.len() ==> (#[trigger] block_step(h, block).levels[j]).accs == h.levels[j].accs + 1,
{
    assert forall|j: int| 0 <= j < h.levels.len() implies #[trigger] reached(h.levels, h.inclusive, block, j) by {
        assert forall|k: int| 0 <= k < j implies !(#[trigger] h.levels[k].mapped.contains_key(block)
            && stops_at(h.levels, h.inclusive, k)) by {
            assert(h.inclusive[k]);
            if k + 1 < h.levels.len() {
                assert(h.levels[k].block_size == h.levels[k + 1].block_size);
            }
        }
    }
    assert forall|j: int| 0 <= j < h.levels.len() implies #[trigger] access_step(h.levels[j], block, pin).accs
        == h.levels[j].accs + 1 && access_step(h.levels[j], block, pin).hits == h.levels[j].hits + (
    if h.levels[j].mapped.contains_key(block) {
        1int
    } else {
        0
    }) by {
        lemma_access_counts(h.levels[j], block, pin);
    }
    assert forall|j: int| 0 <= j < h.levels.len() implies (#[trigger] block_step(h, block).levels[j]).accs
        == h.levels[j].accs + 1 by {
        assert(reached(h.levels, h.inclusive, block, j));
        lemma_access_counts(h.levels[j], block, false);
    }
}

/// Sum of the hits of levels `0 .. k`.
pub open spec fn sum_hits(levels: Seq<LruView>, k: int) -> int
    decreases k,
{
    if k <= 0 {
        0
    } else {
        sum_hits(levels, k - 1) + levels[k - 1].hits
    }
}

/// The state after accessing the bytes `addr .. addr + num_bytes` (see
/// `Hierarchy::access_or_pin_addr`).
pub open spec fn addr_step(h: HierarchyView, addr: nat, num_bytes: nat, pin: bool) -> HierarchyView {
    HierarchyView {
        levels: Seq::new(
            h.levels.len(),
            |j: int|
                if reached_addr(h.levels, h.inclusive, addr, num_bytes, pin, j) {
                    level_addr_access(h.levels, h.inclusive, addr, num_bytes, pin, j).0
                } else {
                    h.levels[j]
                },
        ),
        inclusive: h.inclusive,
    }
}

/// The state after reading `block` without pinning it (see
/// `Hierarchy::access`).
pub open spec fn block_step(h: HierarchyView, block: usize) -> HierarchyView {
    HierarchyView {
        levels: Seq::new(
            h.levels.len(),
            |j: int|
                if reached(h.levels, h.inclusive, block, j) {
                    access_step(h.levels[j], block, false)
                } else {
                    h.levels[j]
                },
        ),
        inclusive: h.inclusive,
    }
}

/// The state after reading each of `blocks`, in order, without pinning.
pub open spec fn blocks_run(h: HierarchyView, blocks: Seq<usize>) -> HierarchyView
    decreases blocks.len(),
{
    if blocks.len() == 0 {
        h
    } else {
        block_step(blocks_run(h, blocks.drop_last()), blocks.last())
    }
}

/// Whether accessing the bytes `addr .. addr + num_bytes` hits: some level
/// reached hits on every block.
pub open spec fn addr_hit(h: HierarchyView, addr: nat, num_bytes: nat, pin: bool) -> bool {
    exists|j: int|
        0 <= j < h.levels.len() && reached_addr(h.levels, h.inclusive, addr, num_bytes, pin, j)
            && (#[trigger] level_addr_access(h.levels, h.inclusive, addr, num_bytes, pin, j)).1
}

/// The hierarchy after reading, in order, each `(addr, num_bytes)` of
/// `accesses` without pinning.
pub open spec fn access_list(h: HierarchyView, accesses: Seq<(nat, nat)>) -> HierarchyView
    decreases accesses.len(),
{
    if accesses.len() == 0 {
        h
    } else {
        addr_step(access_list(h, accesses.drop_last()), accesses.last().0, accesses.last().1, false)
    }
}

/// From `h0` to `h1` each level counted at most `k` accesses.
pub open spec fn counted_within(h0: HierarchyView, h1: HierarchyView, k: nat) -> bool {
    &&& h1.levels.len() == h0.levels.len()
    &&& forall|j: int|
        0 <= j < h0.levels.len() ==> h0.levels[j].accs <= (#[trigger] h1.levels[j]).accs <= h0.levels[j].accs + k
}

/// Counts add up along a run of accesses.
pub proof fn lemma_counted_trans(h0: HierarchyView, h1: HierarchyView, h2: HierarchyView, a: nat, b: nat)
    requires
        counted_within(h0, h1, a),
        counted_within(h1, h2, b),
    ensures
        counted_within(h0, h2, a + b),
{
    assert forall|j: int| 0 <= j < h0.levels.len() implies h0.levels[j].accs <= (
    #[trigger] h2.levels[j]).accs <= h0.levels[j].accs + a + b by {
        assert(h0.levels[j].accs <= h1.levels[j].accs <= h0.levels[j].accs + a);
    }
}

/// Room left after counting at most `a` accesses out of room for `k`.
pub proof fn lemma_headroom_after(h0: HierarchyView, h1: HierarchyView, k: nat, a: nat)
    requires
        headroom(h0, k),
        counted_within(h0, h1, a),
        a <= k,
    ensures
        headroom(h1, (k - a) as nat),
{
    assert forall|j: int| 0 <= j < h1.levels.len() implies (#[trigger] h1.levels[j]).accs + (k - a) <= u64::MAX by {
        assert(h0.levels[j].accs + k <= u64::MAX);
    }
}

/// Every level is idle (see `idle`): nothing was ever pinned.
pub open spec fn hierarchy_idle(h: HierarchyView) -> bool {
    forall|j: int| 0 <= j < h.levels.len() ==> idle(#[trigger] h.levels[j])
}

/// Every level's access counter has room for `k` more accesses.
pub open spec fn headroom(h: HierarchyView, k: nat) -> bool {
    forall|j: int| 0 <= j < h.levels.len() ==> (#[trigger] h.levels[j]).accs + k <= u64::MAX
}

/// Every access reaches the first level, which counts each block that the
/// bytes touch: the first level's counter is the hierarchy's access count.
pub proof fn lemma_first_level_counts(h: HierarchyView, addr: nat, num_bytes: nat)
    requires
        h.levels.len() > 0,
        idle(h.levels[0]),
        num_bytes > 0,
        h.levels[0].accs + num_bytes + 1 <= u64::MAX,
    ensures
        addr_step(h, addr, num_bytes, false).levels[0].accs == h.levels[0].accs + span_blocks(
            h.levels[0].block_size,
            addr,
            num_bytes,
        ).len(),
{
    assert(reached_addr(h.levels, h.inclusive, addr, num_bytes, false, 0));
    lemma_span_len(h.levels[0].block_size, addr, num_bytes);
    lemma_idle_all(h.levels[0], span_blocks(h.levels[0].block_size, addr, num_bytes));
}

/// A level that is not inclusive and hits on every block ends the access:
/// no later level changes.
pub proof fn lemma_exclusive_hit_stops(h: HierarchyView, addr: nat, num_bytes: nat, pin: bool, k: int)
    requires
        0 <= k < h.levels.len(),
        h.levels.len() == h.inclusive.len(),
        !h.inclusive[k],
        reached_addr(h.levels, h.inclusive, addr, num_bytes, pin, k),
        level_addr_access(h.levels, h.inclusive, addr, num_bytes, pin, k).1,
    ensures
        addr_hit(h, addr, num_bytes, pin),
        forall|j: int|
            k < j < h.levels.len() ==> #[trigger] addr_step(h, addr, num_bytes, pin).levels[j]
                == h.levels[j],
{
    assert forall|j: int| k < j < h.levels.len() implies #[trigger] addr_step(h, addr, num_bytes, pin).levels[j]
        == h.levels[j] by {
        assert(!reached_addr(h.levels, h.inclusive, addr, num_bytes, pin, j)) by {
            assert(level_addr_access(h.levels, h.inclusive, addr, num_bytes, pin, k).1 && !h.inclusive[k]);
        }
    }
}

proof fn lemma_sum_hits_monotone(levels: Seq<LruView>, a: int, b: int)
    requires
        0 <= a <= b <= levels.len(),
    ensures
        sum_hits(levels, a) <= sum_hits(levels, b),
    decreases b - a,
{
    if a < b {
        lemma_sum_hits_monotone(levels, a, b - 1);
    }
}

impl Hierarchy {
    pub closed spec fn wf(&self) -> bool {
        &&& self.level@.len() == self.inclusive@.len()
        &&& forall|i: int| 0 <= i < self.level@.len() ==> (#[trigger] self.level@[i]).wf()
    }

    /// Accesses `block` at each level in turn, pinning it on a miss when
    /// `pin`, until a level hits that is not inclusive or whose blocks are
    /// larger than the next level's; `Hit` when any level reached hit.
    pub fn access_or_pin(&mut self, block: usize, pin: bool) -> (a: Access)
        requires
            old(self).wf(),
            forall|j: int|
                0 <= j < old(self)@.levels.len() && reached(old(self)@.levels, old(self)@.inclusive, block, j)
                    ==> access_ok(#[trigger] old(self)@.levels[j], block),
        ensures
            final(self).wf(),
            final(self)@.inclusive == old(self)@.inclusive,
            final(self)@.levels.len() == old(self)@.levels.len(),
            forall|j: int|
                0 <= j < old(self)@.levels.len() ==> #[trigger] final(self)@.levels[j] == if reached(
                    old(self)@.levels,
                    old(self)@.inclusive,
                    block,
                    j,
                ) {
                    access_step(old(self)@.levels[j], block, pin)
                } else {
                    old(self)@.levels[j]
                },
            (a == Access::Hit) == exists|j: int|
                0 <= j < old(self)@.levels.len() && reached(old(self)@.levels, old(self)@.inclusive, block, j)
                    && #[trigger] old(self)@.levels[j].mapped.contains_key(block),
    {
        let ghost s0 = self@;
        let n = self.level.len();
        let mut res = Access::Miss;
        let mut i: usize = 0;
        while i < n
            invariant
                self.wf(),
                old(self)@ == s0,
                n == s0.levels.len(),
                self@.inclusive == s0.inclusive,
                self@.levels.len() == n,
                i <= n,
                forall|j: int|
                    0 <= j < n && reached(s0.levels, s0.inclusive, block, j) ==> access_ok(
                        #[trigger] s0.levels[j],
                        block,
                    ),
                reached(s0.levels, s0.inclusive, block, i as int),
                forall|j: int|
                    0 <= j < n ==> #[trigger] self@.levels[j] == if j < i {
                        access_step(s0.levels[j], block, pin)
                    } else {
                        s0.levels[j]
                    },
                (res == Access::Hit) == exists|j: int|
                    0 <= j < i && #[trigger] s0.levels[j].mapped.contains_key(block),
            decreases n - i,
        {
            let ghost before = self.level@;
            proof {
                assert(self.inclusive@ == s0.inclusive);
                assert(self@.levels[i as int] == self.level@[i as int]@);
                assert(access_ok(s0.levels[i as int], block));
            }
            let access = self.level[i].access_or_pin(block, pin);
            proof {
                assert forall|j: int| 0 <= j < n implies (#[trigger] self.level@[j]).wf() by {
                    if j != i {
                        assert(self.level@[j] == before[j]);
                    }
                }
                assert forall|j: int| 0 <= j < n implies #[trigger] self@.levels[j] == if j < i + 1 {
                    access_step(s0.levels[j], block, pin)
                } else {
                    s0.levels[j]
                } by {
                    assert(self@.levels[j] == self.level@[j]@);
                    assert(before.map_values(|c: LruCache| c@)[j] == before[j]@);
                    if j != i {
                        assert(self.level@[j] == before[j]);
                    }
                }
            }
            proof {
                assert(self@.levels[i as int] == self.level@[i as int]@);
                if i + 1 < n {
                    assert(self@.levels[i + 1] == self.level@[i + 1]@);
                }
            }
            let stop = !self.inclusive[i] || (i + 1 < n && self.level[i].blocksize()
                > self.level[i + 1].blocksize());
            proof {
                assert(stop == stops_at(s0.levels, s0.inclusive, i as int));
                assert((access == Access::Hit) == s0.levels[i as int].mapped.contains_key(block));
            }
            match access {
                Access::Hit => {
                    if stop {
                        proof {
                            assert(stops_at(s0.levels, s0.inclusive, i as int));
                            assert forall|j: int| 0 <= j < n implies #[trigger] self@.levels[j] == if reached(
                                s0.levels,
                                s0.inclusive,
                                block,
                                j,
                            ) {
                                access_step(s0.levels[j], block, pin)
                            } else {
                                s0.levels[j]
                            } by {
                                if j > i {
                                    assert(!reached(s0.levels, s0.inclusive, block, j)) by {
                                        assert(s0.levels[i as int].mapped.contains_key(block));
                                    }
                                } else if j < i {
                                    assert forall|k: int| 0 <= k < j implies !(#[trigger] s0.levels[k].mapped.contains_key(block)
                                        && stops_at(s0.levels, s0.inclusive, k)) by {
                                        assert(reached(s0.levels, s0.inclusive, block, i as int));
                                    }
                                }
                            }
                            assert(reached(s0.levels, s0.inclusive, block, i as int) && s0.levels[i as int].mapped.contains_key(block));
                            assert(self.inclusive@ == s0.inclusive);
                            assert(self@.inclusive == s0.inclusive);
                            assert(self@.levels.len() == n);
                        }
                        return Access::Hit;
                    }
                    res = Access::Hit;
                },
                Access::Miss => {},
            }
            proof {
                assert forall|k: int| 0 <= k < i + 1 implies !(#[trigger] s0.levels[k].mapped.contains_key(block)
                    && stops_at(s0.levels, s0.inclusive, k)) by {
                    if k < i {
                        assert(reached(s0.levels, s0.inclusive, block, i as int));
                    }
                }
            }
            i = i + 1;
        }
        proof {
            assert forall|j: int| 0 <= j < n implies #[trigger] self@.levels[j] == if reached(
                s0.levels,
                s0.inclusive,
                block,
                j,
            ) {
                access_step(s0.levels[j], block, pin)
            } else {
                s0.levels[j]
            } by {
                assert forall|k: int| 0 <= k < j implies !(#[trigger] s0.levels[k].mapped.contains_key(block)
                    && stops_at(s0.levels, s0.inclusive, k)) by {
                    assert(reached(s0.levels, s0.inclusive, block, n as int));
                }
            }
            if res == Access::Hit {
                let j = choose|j: int| 0 <= j < n && #[trigger] s0.levels[j].mapped.contains_key(block);
                assert forall|k: int| 0 <= k < j implies !(#[trigger] s0.levels[k].mapped.contains_key(block)
                    && stops_at(s0.levels, s0.inclusive, k)) by {
                    assert(reached(s0.levels, s0.inclusive, block, n as int));
                }
                assert(reached(s0.levels, s0.inclusive, block, j));
            }
        }
        res
    }

    /// Accesses the bytes `addr .. addr + num_bytes` at each level in turn
    /// (each level by its own blocks), until a level that is not inclusive
    /// hits on all of them; after a level that is not inclusive, the rest are
    /// accessed without pinning. `Hit` when some level reached hit on all.
    pub fn access_or_pin_addr(&mut self, addr: usize, num_bytes: usize, pin: bool) -> (a: Access)
        requires
            old(self).wf(),
            num_bytes > 0,
            addr + num_bytes <= usize::MAX,
            forall|j: int|
                0 <= j < old(self)@.levels.len() && reached_addr(
                    old(self)@.levels,
                    old(self)@.inclusive,
                    addr as nat,
                    num_bytes as nat,
                    pin,
                    j,
                ) ==> (#[trigger] old(self)@.levels[j]).block_size > 0 && access_all_ok(
                    old(self)@.levels[j],
                    span_blocks(old(self)@.levels[j].block_size, addr as nat, num_bytes as nat),
                    pin_at(old(self)@.inclusive, pin, j),
                ),
        ensures
            final(self).wf(),
            final(self)@.inclusive == old(self)@.inclusive,
            final(self)@.levels.len() == old(self)@.levels.len(),
            forall|j: int|
                0 <= j < old(self)@.levels.len() ==> #[trigger] final(self)@.levels[j] == if reached_addr(
                    old(self)@.levels,
                    old(self)@.inclusive,
                    addr as nat,
                    num_bytes as nat,
                    pin,
                    j,
                ) {
                    level_addr_access(
                        old(self)@.levels,
                        old(self)@.inclusive,
                        addr as nat,
                        num_bytes as nat,
                        pin,
                        j,
                    ).0
                } else {
                    old(self)@.levels[j]
                },
            (a == Access::Hit) == exists|j: int|
                0 <= j < old(self)@.levels.len() && reached_addr(
                    old(self)@.levels,
                    old(self)@.inclusive,
                    addr as nat,
                    num_bytes as nat,
                    pin,
                    j,
                ) && (#[trigger] level_addr_access(
                    old(self)@.levels,
                    old(self)@.inclusive,
                    addr as nat,
                    num_bytes as nat,
                    pin,
                    j,
                )).1,
    {
        let ghost s0 = self@;
        let ghost pin0 = pin;
        let ghost an = addr as nat;
        let ghost nn = num_bytes as nat;
        let n = self.level.len();
        let mut res = Access::Miss;
        let mut pin_cur = pin;
        let mut i: usize = 0;
        while i < n
            invariant
                self.wf(),
                old(self)@ == s0,
                n == s0.levels.len(),
                self@.inclusive == s0.inclusive,
                self@.levels.len() == n,
                i <= n,
                num_bytes > 0,
                addr + num_bytes <= usize::MAX,
                an == addr,
                nn == num_bytes,
                pin_cur == pin_at(s0.inclusive, pin0, i as int),
                pin0 == pin,
                forall|j: int|
                    0 <= j < n && reached_addr(s0.levels, s0.inclusive, an, nn, pin0, j) ==> (
                    #[trigger] s0.levels[j]).block_size > 0 && access_all_ok(
                        s0.levels[j],
                        span_blocks(s0.levels[j].block_size, an, nn),
                        pin_at(s0.inclusive, pin0, j),
                    ),
                reached_addr(s0.levels, s0.inclusive, an, nn, pin0, i as int),
                forall|j: int|
                    0 <= j < n ==> #[trigger] self@.levels[j] == if j < i {
                        level_addr_access(s0.levels, s0.inclusive, an, nn, pin0, j).0
                    } else {
                        s0.levels[j]
                    },
                (res == Access::Hit) == exists|j: int|
                    0 <= j < i && (#[trigger] level_addr_access(s0.levels, s0.inclusive, an, nn, pin0, j)).1,
            decreases n - i,
        {
            let ghost before = self.level@;
            proof {
                assert(self.inclusive@ == s0.inclusive);
                assert(self@.levels[i as int] == self.level@[i as int]@);
            }
            let access = self.level[i].access_or_pin_addr(addr, num_bytes, pin_cur);
            let ghost r = level_addr_access(s0.levels, s0.inclusive, an, nn, pin0, i as int);
            proof {
                assert forall|j: int| 0 <= j < n implies (#[trigger] self.level@[j]).wf() by {
                    if j != i {
                        assert(self.level@[j] == before[j]);
                    }
                }
                assert forall|j: int| 0 <= j < n implies #[trigger] self@.levels[j] == if j < i + 1 {
                    level_addr_access(s0.levels, s0.inclusive, an, nn, pin0, j).0
                } else {
                    s0.levels[j]
                } by {
                    assert(self@.levels[j] == self.level@[j]@);
                    assert(before.map_values(|c: LruCache| c@)[j] == before[j]@);
                    if j != i {
                        assert(self.level@[j] == before[j]);
                    }
                }
                assert((access == Access::Hit) == r.1);
            }
            let inclusive_i = self.inclusive[i];
            match access {
                Access::Hit => {
                    if !inclusive_i {
                        proof {
                            assert(!s0.inclusive[i as int]);
                            assert(r.1);
                            assert forall|j: int| 0 <= j < n implies #[trigger] self@.levels[j] == if reached_addr(
                                s0.levels,
                                s0.inclusive,
                                an,
                                nn,
                                pin0,
                                j,
                            ) {
                                level_addr_access(s0.levels, s0.inclusive, an, nn, pin0, j).0
                            } else {
                                s0.levels[j]
                            } by {
                                if j > i {
                                    assert(!reached_addr(s0.levels, s0.inclusive, an, nn, pin0, j)) by {
                                        assert(level_addr_access(s0.levels, s0.inclusive, an, nn, pin0, i as int).1);
                                    }
                                } else if j < i {
                                    assert forall|k: int| 0 <= k < j implies !(#[trigger] level_addr_access(s0.levels, s0.inclusive, an, nn, pin0, k).1
                                        && !s0.inclusive[k]) by {
                                        assert(reached_addr(s0.levels, s0.inclusive, an, nn, pin0, i as int));
                                    }
                                }
                            }
                            assert(self.inclusive@ == s0.inclusive);
                            assert(self@.inclusive == s0.inclusive);
                            assert(self@.levels.len() == n);
                            assert(reached_addr(s0.levels, s0.inclusive, an, nn, pin0, i as int)
                                && level_addr_access(s0.levels, s0.inclusive, an, nn, pin0, i as int).1);
                        }
                        return Access::Hit;
                    }
                    res = Access::Hit;
                },
                Access::Miss => {},
            }
            if !inclusive_i {
                pin_cur = false;
            }
            proof {
                assert forall|k: int| 0 <= k < i + 1 implies !(#[trigger] level_addr_access(s0.levels, s0.inclusive, an, nn, pin0, k).1
                    && !s0.inclusive[k]) by {
                    if k < i {
                        assert(reached_addr(s0.levels, s0.inclusive, an, nn, pin0, i as int));
                    }
                }
                assert(pin_cur == pin_at(s0.inclusive, pin0, i + 1)) by {
                    if pin0 && !pin_at(s0.inclusive, pin0, i + 1) {
                        let k = choose|k: int| 0 <= k < i + 1 && !(#[trigger] s0.inclusive[k]);
                        if k < i {
                            assert(!pin_at(s0.inclusive, pin0, i as int));
                        }
                    }
                }
            }
            i = i + 1;
        }
        proof {
            assert forall|j: int| 0 <= j < n implies #[trigger] self@.levels[j] == if reached_addr(
                s0.levels,
                s0.inclusive,
                an,
                nn,
                pin0,
                j,
            ) {
                level_addr_access(s0.levels, s0.inclusive, an, nn, pin0, j).0
            } else {
                s0.levels[j]
            } by {
                assert forall|k: int| 0 <= k < j implies !(#[trigger] level_addr_access(s0.levels, s0.inclusive, an, nn, pin0, k).1
                    && !s0.inclusive[k]) by {
                    assert(reached_addr(s0.levels, s0.inclusive, an, nn, pin0, n as int));
                }
            }
            if res == Access::Hit {
                let j = choose|j: int| 0 <= j < n && (#[trigger] level_addr_access(s0.levels, s0.inclusive, an, nn, pin0, j)).1;
                assert forall|k: int| 0 <= k < j implies !(#[trigger] level_addr_access(s0.levels, s0.inclusive, an, nn, pin0, k).1
                    && !s0.inclusive[k]) by {
                    assert(reached_addr(s0.levels, s0.inclusive, an, nn, pin0, n as int));
                }
                assert(reached_addr(s0.levels, s0.inclusive, an, nn, pin0, j));
            }
        }
        res
    }

    /// Accesses the bytes `addr .. addr + num_bytes` without pinning (see
    /// `access_or_pin_addr`). On a hierarchy that was never pinned into, with
    /// room in every counter, this is always possible and keeps it so.
    pub fn access_addr(&mut self, addr: usize, num_bytes: usize) -> (a: Access)
        requires
            old(self).wf(),
            hierarchy_idle(old(self)@),
            headroom(old(self)@, num_bytes as nat + 1),
            num_bytes > 0,
            addr + num_bytes <= usize::MAX,
        ensures
            final(self).wf(),
            final(self)@ == addr_step(old(self)@, addr as nat, num_bytes as nat, false),
            (a == Access::Hit) == addr_hit(old(self)@, addr as nat, num_bytes as nat, false),
            hierarchy_idle(final(self)@),
            counted_within(old(self)@, final(self)@, num_bytes as nat + 1),
            forall|j: int|
                0 <= j < old(self)@.levels.len() ==> (#[trigger] final(self)@.levels[j]).block_size
                    == old(self)@.levels[j].block_size,
    {
        let ghost s0 = self@;
        let ghost an = addr as nat;
        let ghost nn = num_bytes as nat;
        proof {
            assert forall|j: int|
                0 <= j < s0.levels.len() && reached_addr(s0.levels, s0.inclusive, an, nn, false, j)
                    implies (#[trigger] s0.levels[j]).block_size > 0 && access_all_ok(
                    s0.levels[j],
                    span_blocks(s0.levels[j].block_size, an, nn),
                    pin_at(s0.inclusive, false, j),
                ) by {
                assert(idle(s0.levels[j]));
                lemma_span_len(s0.levels[j].block_size, an, nn);
                lemma_idle_all(s0.levels[j], span_blocks(s0.levels[j].block_size, an, nn));
            }
        }
        let a = self.access_or_pin_addr(addr, num_bytes, false);
        proof {
            let t = addr_step(s0, an, nn, false);
            assert(self@.levels =~= t.levels);
            assert forall|j: int| 0 <= j < self@.levels.len() implies idle(#[trigger] self@.levels[j])
                && s0.levels[j].accs <= self@.levels[j].accs <= s0.levels[j].accs + nn + 1
                && self@.levels[j].block_size == s0.levels[j].block_size by {
                assert(idle(s0.levels[j]));
                if reached_addr(s0.levels, s0.inclusive, an, nn, false, j) {
                    lemma_span_len(s0.levels[j].block_size, an, nn);
                    lemma_idle_all(s0.levels[j], span_blocks(s0.levels[j].block_size, an, nn));
                }
            }
        }
        a
    }

    /// Unpins `block` once at every level.
    pub fn unpin(&mut self, block: usize)
        requires
            old(self).wf(),
        ensures
            final(self).wf(),
            final(self)@.inclusive == old(self)@.inclusive,
            final(self)@.levels.len() == old(self)@.levels.len(),
            forall|j: int|
                0 <= j < old(self)@.levels.len() ==> #[trigger] final(self)@.levels[j] == unpin_step(
                    old(self)@.levels[j],
                    block,
                ),
    {
        let ghost s0 = self@;
        let n = self.level.len();
        let mut i: usize = 0;
        while i < n
            invariant
                self.wf(),
                n == s0.levels.len(),
                self@.inclusive == s0.inclusive,
                self@.levels.len() == n,
                i <= n,
                forall|j: int|
                    0 <= j < n ==> #[trigger] self@.levels[j] == if j < i {
                        unpin_step(s0.levels[j], block)
                    } else {
                        s0.levels[j]
                    },
            decreases n - i,
        {
            let ghost before = self.level@;
            proof {
                assert(self@.levels[i as int] == self.level@[i as int]@);
            }
            self.level[i].unpin(block);
            proof {
                assert forall|j: int| 0 <= j < n implies (#[trigger] self.level@[j]).wf() by {
                    if j != i {
                        assert(self.level@[j] == before[j]);
                    }
                }
                assert forall|j: int| 0 <= j < n implies #[trigger] self@.levels[j] == if j < i + 1 {
                    unpin_step(s0.levels[j], block)
                } else {
                    s0.levels[j]
                } by {
                    assert(self@.levels[j] == self.level@[j]@);
                    assert(before.map_values(|c: LruCache| c@)[j] == before[j]@);
                    if j != i {
                        assert(self.level@[j] == before[j]);
                    }
                }
            }
            i = i + 1;
        }
    }

    /// Unpins the bytes `addr .. addr + num_bytes` at every level (see
    /// `LruCache::unpin_addr`).
    pub fn unpin_addr(&mut self, addr: usize, num_bytes: usize)
        requires
            old(self).wf(),
            forall|j: int|
                0 <= j < old(self)@.levels.len() ==> (#[trigger] old(self)@.levels[j]).block_size > 0
                    && (addr as int / old(self)@.levels[j].block_size as int) * old(self)@.levels[j].block_size
                    + (num_bytes + old(self)@.levels[j].block_size - 1) / old(self)@.levels[j].block_size as int
                    <= usize::MAX,
        ensures
            final(self).wf(),
            final(self)@.inclusive == old(self)@.inclusive,
            final(self)@.levels.len() == old(self)@.levels.len(),
            forall|j: int|
                0 <= j < old(self)@.levels.len() ==> #[trigger] final(self)@.levels[j] == unpin_all(
                    old(self)@.levels[j],
                    unpin_span(old(self)@.levels[j].block_size, addr as nat, num_bytes as nat),
                ),
    {
        let ghost s0 = self@;
        let n = self.level.len();
        let mut i: usize = 0;
        while i < n
            invariant
                self.wf(),
                n == s0.levels.len(),
                self@.inclusive == s0.inclusive,
                self@.levels.len() == n,
                i <= n,
                forall|j: int|
                    0 <= j < n ==> (#[trigger] s0.levels[j]).block_size > 0 && (addr as int
                        / s0.levels[j].block_size as int) * s0.levels[j].block_size + (num_bytes
                        + s0.levels[j].block_size - 1) / s0.levels[j].block_size as int <= usize::MAX,
                forall|j: int|
                    0 <= j < n ==> #[trigger] self@.levels[j] == if j < i {
                        unpin_all(s0.levels[j], unpin_span(s0.levels[j].block_size, addr as nat, num_bytes as nat))
                    } else {
                        s0.levels[j]
                    },
            decreases n - i,
        {
            let ghost before = self.level@;
            proof {
                assert(self@.levels[i as int] == self.level@[i as int]@);
                assert(s0.levels[i as int].block_size > 0);
            }
            self.level[i].unpin_addr(addr, num_bytes);
            proof {
                assert forall|j: int| 0 <= j < n implies (#[trigger] self.level@[j]).wf() by {
                    if j != i {
                        assert(self.level@[j] == before[j]);
                    }
                }
                assert forall|j: int| 0 <= j < n implies #[trigger] self@.levels[j] == if j < i + 1 {
                    unpin_all(s0.levels[j], unpin_span(s0.levels[j].block_size, addr as nat, num_bytes as nat))
                } else {
                    s0.levels[j]
                } by {
                    assert(self@.levels[j] == self.level@[j]@);
                    assert(before.map_values(|c: LruCache| c@)[j] == before[j]@);
                    if j != i {
                        assert(self.level@[j] == before[j]);
                    }
                }
            }
            i = i + 1;
        }
    }

    /// Resets every level (see `reset_step`).
    pub fn reset(&mut self)
        requires
            old(self).wf(),
        ensures
            final(self).wf(),
            final(self)@.inclusive == old(self)@.inclusive,
            final(self)@.levels.len() == old(self)@.levels.len(),
            forall|j: int|
                0 <= j < old(self)@.levels.len() ==> #[trigger] final(self)@.levels[j] == reset_step(
                    old(self)@.levels[j],
                ),
    {
        let ghost s0 = self@;
        let n = self.level.len();
        let mut i: usize = 0;
        while i < n
            invariant
                self.wf(),
                n == s0.levels.len(),
                self@.inclusive == s0.inclusive,
                self@.levels.len() == n,
                i <= n,
                forall|j: int|
                    0 <= j < n ==> #[trigger] self@.levels[j] == if j < i {
                        reset_step(s0.levels[j])
                    } else {
                        s0.levels[j]
                    },
            decreases n - i,
        {
            let ghost before = self.level@;
            proof {
                assert(self@.levels[i as int] == self.level@[i as int]@);
            }
            self.level[i].reset();
            proof {
                assert forall|j: int| 0 <= j < n implies (#[trigger] self.level@[j]).wf() by {
                    if j != i {
                        assert(self.level@[j] == before[j]);
                    }
                }
                assert forall|j: int| 0 <= j < n implies #[trigger] self@.levels[j] == if j < i + 1 {
                    reset_step(s0.levels[j])
                } else {
                    s0.levels[j]
                } by {
                    assert(self@.levels[j] == self.level@[j]@);
                    assert(before.map_values(|c: LruCache| c@)[j] == before[j]@);
                    if j != i {
                        assert(self.level@[j] == before[j]);
                    }
                }
            }
            i = i + 1;
        }
    }

    /// The sum of the hits of all levels.
    pub fn hits(&self) -> (h: u64)
        requires
            sum_hits(self@.levels, self@.levels.len() as int) <= u64::MAX,
        ensures
            h == sum_hits(self@.levels, self@.levels.len() as int),
    {
        let n = self.level.len();
        let mut total: u64 = 0;
        let mut i: usize = 0;
        proof {
            lemma_sum_hits_monotone(self@.levels, 0, n as int);
        }
        while i < n
            invariant
                n == self@.levels.len(),
                i <= n,
                total == sum_hits(self@.levels, i as int),
                sum_hits(self@.levels, n as int) <= u64::MAX,
            decreases n - i,
        {
            proof {
                assert(self@.levels[i as int] == self.level@[i as int]@);
                lemma_sum_hits_monotone(self@.levels, i as int + 1, n as int);
            }
            total = total + self.level[i].hits();
            i = i + 1;
        }
        total
    }

    /// The accesses of the first level: every access of the hierarchy.
    pub fn accs(&self) -> (a: u64)
        requires
            self@.levels.len() > 0,
        ensures
            a == self@.levels[0].accs,
    {
        proof {
            assert(self@.levels[0] == self.level@[0]@);
        }
        self.level[0].accs()
    }

    /// The accesses that no level hit: the first level's accesses less the
    /// hits of all levels (which must not be more).
    pub fn misses(&self) -> (m: u64)
        requires
            self@.levels.len() > 0,
            sum_hits(self@.levels, self@.levels.len() as int) <= self@.levels[0].accs,
        ensures
            m == self@.levels[0].accs - sum_hits(self@.levels, self@.levels.len() as int),
    {
        let a = self.accs();
        let h = self.hits();
        a - h
    }

    /// Reads `block` without pinning it (see `access_or_pin`).
    pub fn access(&mut self, block: usize) -> (a: Access)
        requires
            old(self).wf(),
            forall|j: int|
                0 <= j < old(self)@.levels.len() && reached(old(self)@.levels, old(self)@.inclusive, block, j)
                    ==> access_ok(#[trigger] old(self)@.levels[j], block),
        ensures
            final(self).wf(),
            final(self)@ == block_step(old(self)@, block),
            (a == Access::Hit) == exists|j: int|
                0 <= j < old(self)@.levels.len() && reached(old(self)@.levels, old(self)@.inclusive, block, j)
                    && #[trigger] old(self)@.levels[j].mapped.contains_key(block),
    {
        let ghost s0 = self@;
        let a = self.access_or_pin(block, false);
        proof {
            assert(self@.levels =~= block_step(s0, block).levels);
        }
        a
    }

    /// Reads the bytes `addr .. addr + num_bytes`, pinning their blocks on a
    /// miss (see `access_or_pin_addr`).
    pub fn pin_addr(&mut self, addr: usize, num_bytes: usize) -> (a: Access)
        requires
            old(self).wf(),
            num_bytes > 0,
            addr + num_bytes <= usize::MAX,
            forall|j: int|
                0 <= j < old(self)@.levels.len() && reached_addr(
                    old(self)@.levels,
                    old(self)@.inclusive,
                    addr as nat,
                    num_bytes as nat,
                    true,
                    j,
                ) ==> (#[trigger] old(self)@.levels[j]).block_size > 0 && access_all_ok(
                    old(self)@.levels[j],
                    span_blocks(old(self)@.levels[j].block_size, addr as nat, num_bytes as nat),
                    pin_at(old(self)@.inclusive, true, j),
                ),
        ensures
            final(self).wf(),
            final(self)@ == addr_step(old(self)@, addr as nat, num_bytes as nat, true),
            (a == Access::Hit) == addr_hit(old(self)@, addr as nat, num_bytes as nat, true),
    {
        let ghost s0 = self@;
        let a = self.access_or_pin_addr(addr, num_bytes, true);
        proof {
            assert(self@.levels =~= addr_step(s0, addr as nat, num_bytes as nat, true).levels);
        }
        a
    }

    /// Reads each of `blocks`, in order, without pinning them.
    pub fn run_to_end(&mut self, blocks: &Vec<usize>)
        requires
            old(self).wf(),
            hierarchy_idle(old(self)@),
            headroom(old(self)@, blocks@.len()),
        ensures
            final(self).wf(),
            hierarchy_idle(final(self)@),
            final(self)@ == blocks_run(old(self)@, blocks@),
    {
        let ghost s0 = self@;
        let mut i: usize = 0;
        proof {
            assert(blocks@.subrange(0, 0) =~= Seq::<usize>::empty());
        }
        while i < blocks.len()
            invariant
                i <= blocks@.len(),
                self.wf(),
                hierarchy_idle(self@),
                self@.levels.len() == s0.levels.len(),
                forall|j: int| 0 <= j < s0.levels.len() ==> #[trigger] self@.levels[j].accs + (blocks@.len() - i) <= u64::MAX,
                self@ == blocks_run(s0, blocks@.subrange(0, i as int)),
            decreases blocks@.len() - i,
        {
            let ghost before = self@;
            let b = blocks[i];
            proof {
                assert forall|j: int|
                    0 <= j < before.levels.len() && reached(before.levels, before.inclusive, b, j)
                        implies access_ok(#[trigger] before.levels[j], b) by {
                    lemma_idle_step(before.levels[j], b);
                }
            }
            self.access(b);
            proof {
                assert forall|j: int| 0 <= j < self@.levels.len() implies idle(#[trigger] self@.levels[j])
                    && self@.levels[j].accs <= before.levels[j].accs + 1 by {
                    lemma_idle_step(before.levels[j], b);
                }
                let pre = blocks@.subrange(0, i + 1);
                assert(pre.drop_last() =~= blocks@.subrange(0, i as int));
                assert(pre.last() == b);
            }
            i = i + 1;
        }
        proof {
            assert(blocks@.subrange(0, blocks@.len() as int) =~= blocks@);
        }
    }

    /// The counters of each level, first to last.
    pub fn stats(&self) -> (stats: Vec<CacheStats>)
        requires
            self.wf(),
        ensures
            stats@.len() == self@.levels.len(),
            forall|j: int|
                0 <= j < stats@.len() ==> (#[trigger] stats@[j]).num_blocks == self@.levels[j].blocks.len()
                    && stats@[j].blocksize == self@.levels[j].block_size && stats@[j].accesses
                    == self@.levels[j].accs && stats@[j].hits == self@.levels[j].hits
                    && stats@[j].inclusive == self@.inclusive[j],
    {
        let n = self.level.len();
        let mut stats: Vec<CacheStats> = Vec::new();
        let mut i: usize = 0;
        while i < n
            invariant
                self.wf(),
                n == self@.levels.len(),
                i <= n,
                stats@.len() == i,
                forall|j: int|
                    0 <= j < i ==> (#[trigger] stats@[j]).num_blocks == self@.levels[j].blocks.len()
                        && stats@[j].blocksize == self@.levels[j].block_size && stats@[j].accesses
                        == self@.levels[j].accs && stats@[j].hits == self@.levels[j].hits
                        && stats@[j].inclusive == self@.inclusive[j],
            decreases n - i,
        {
            let l = &self.level[i];
            proof {
                assert(self@.levels[i as int] == self.level@[i as int]@);
            }
            stats.push(
                CacheStats {
                    num_blocks: l.num_blocks(),
                    blocksize: l.blocksize(),
                    accesses: l.accs(),
                    hits: l.hits(),
                    inclusive: self.inclusive[i],
                },
            );
            i = i + 1;
        }
        stats
    }

    /// Number of levels.
    pub fn num_levels(&self) -> (n: usize)
        ensures
            n == self@.levels.len(),
    {
        self.level.len()
    }

    /// Whether `access_or_pin(block, _)` can run: every level it reaches can
    /// take the access.
    pub fn can_access(&self, block: usize) -> (b: bool)
        requires
            self.wf(),
        ensures
            b == forall|j: int|
                0 <= j < self@.levels.len() && reached(self@.levels, self@.inclusive, block, j)
                    ==> access_ok(#[trigger] self@.levels[j], block),
    {
        let n = self.level.len();
        let mut i: usize = 0;
        while i < n
            invariant
                self.wf(),
                n == self@.levels.len(),
                i <= n,
                reached(self@.levels, self@.inclusive, block, i as int),
                forall|j: int| 0 <= j < i ==> access_ok(#[trigger] self@.levels[j], block),
            decreases n - i,
        {
            proof {
                assert(self@.levels[i as int] == self.level@[i as int]@);
                if i + 1 < n {
                    assert(self@.levels[i + 1] == self.level@[i + 1]@);
                }
            }
            if !self.level[i].can_access(block) {
                return false;
            }
            let hit = self.level[i].is_cached(block);
            let stop = !self.inclusive[i] || (i + 1 < n && self.level[i].blocksize()
                > self.level[i + 1].blocksize());
            if hit && stop {
                proof {
                    assert forall|j: int|
                        0 <= j < self@.levels.len() && reached(self@.levels, self@.inclusive, block, j)
                            implies access_ok(#[trigger] self@.levels[j], block) by {
                        if j > i {
                            assert(!reached(self@.levels, self@.inclusive, block, j)) by {
                                assert(self@.levels[i as int].mapped.contains_key(block));
                            }
                        }
                    }
                }
                return true;
            }
            proof {
                assert forall|k: int| 0 <= k < i + 1 implies !(#[trigger] self@.levels[k].mapped.contains_key(block)
                    && stops_at(self@.levels, self@.inclusive, k)) by {
                    if k < i {
                        assert(reached(self@.levels, self@.inclusive, block, i as int));
                    }
                }
            }
            i = i + 1;
        }
        true
    }

    /// A hierarchy with one level per entry of `sizes`, first to last.
    pub fn new(sizes: Vec<CacheSpec>) -> (h: Hierarchy)
        requires
            forall|i: int| 0 <= i < sizes@.len() ==> #[trigger] sizes@[i].num_blocks < usize::MAX / 128,
        ensures
            h.wf(),
            h@.levels.len() == sizes@.len(),
            forall|i: int|
                0 <= i < sizes@.len() ==> #[trigger] h@.levels[i].blocks.len() == sizes@[i].num_blocks
                    && h@.levels[i].block_size == sizes@[i].block_size && h@.levels[i].accs == 0
                    && h@.levels[i].hits == 0 && h@.levels[i].mapped.len() == 0 && h@.levels[i].pinned.len() == 0
                    && h@.inclusive[i] == sizes@[i].inclusive,
            forall|i: int|
                0 <= i < sizes@.len() && sizes@[i].num_blocks > 0 && sizes@[i].block_size > 0
                    ==> idle(#[trigger] h@.levels[i]),
    {
        let mut level: Vec<LruCache> = Vec::new();
        let mut inclusive: Vec<bool> = Vec::new();
        let mut i: usize = 0;
        while i < sizes.len()
            invariant
                i <= sizes@.len(),
                level@.len() == i,
                inclusive@.len() == i,
                forall|j: int| 0 <= j < sizes@.len() ==> #[trigger] sizes@[j].num_blocks < usize::MAX / 128,
                forall|j: int|
                    0 <= j < i ==> (#[trigger] level@[j]).wf() && level@[j]@.blocks.len() == sizes@[j].num_blocks
                        && level@[j]@.block_size == sizes@[j].block_size && level@[j]@.accs == 0
                        && level@[j]@.hits == 0 && level@[j]@.mapped.len() == 0 && level@[j]@.pinned.len() == 0
                        && inclusive@[j] == sizes@[j].inclusive,
                forall|j: int|
                    0 <= j < i && sizes@[j].num_blocks > 0 && sizes@[j].block_size > 0
                        ==> idle(#[trigger] level@[j]@),
            decreases sizes@.len() - i,
        {
            let spec = &sizes[i];
            let ghost old_level = level@;
            let c = LruCache::new(spec.num_blocks, spec.block_size);
            proof {
                assert(c@.mapped.dom() =~= Set::<usize>::empty());
            }
            level.push(c);
            inclusive.push(spec.inclusive);
            proof {
                assert forall|j: int| 0 <= j < i + 1 implies (#[trigger] level@[j]).wf() && level@[j]@.blocks.len() == sizes@[j].num_blocks
                        && level@[j]@.block_size == sizes@[j].block_size && level@[j]@.accs == 0
                        && level@[j]@.hits == 0 && level@[j]@.mapped.len() == 0 && level@[j]@.pinned.len() == 0
                        && inclusive@[j] == sizes@[j].inclusive by {
                    if j < i {
                        assert(level@[j] == old_level[j]);
                    }
                }
                assert forall|j: int|
                    0 <= j < i + 1 && sizes@[j].num_blocks > 0 && sizes@[j].block_size > 0
                        implies idle(#[trigger] level@[j]@) by {
                    if j < i {
                        assert(level@[j] == old_level[j]);
                    } else {
                        assert(level@[j] == c);
                        assert forall|k: int| 0 <= k < c@.lru.len() implies #[trigger] c@.lru[k] < c@.blocks.len() by {
                            assert(c@.lru[k] == k as usize);
                        }
                    }
                }
            }
            i = i + 1;
        }
        let h = Hierarchy { level, inclusive };
        proof {
            assert forall|j: int|
                0 <= j < sizes@.len() && sizes@[j].num_blocks > 0 && sizes@[j].block_size > 0
                    implies idle(#[trigger] h@.levels[j]) by {
                assert(h@.levels[j] == h.level@[j]@);
            }
        }
        h
    }
}

/// Room is left for `k` more accesses when at most `used` of a budget of
/// `budget >= used + k` have been counted.
pub proof fn lemma_room(s0: HierarchyView, s: HierarchyView, used: nat, budget: nat, k: nat)
    requires
        headroom(s0, budget),
        counted_within(s0, s, used),
        used + k <= budget,
    ensures
        headroom(s, k),
{
    assert forall|j: int| 0 <= j < s.levels.len() implies (#[trigger] s.levels[j]).accs + k <= u64::MAX by {
        assert(s0.levels[j].accs + budget <= u64::MAX);
    }
}

/// A count within `a` is within any larger bound.
pub proof fn lemma_counted_mono(s0: HierarchyView, s: HierarchyView, a: nat, b: nat)
    requires
        counted_within(s0, s, a),
        a <= b,
    ensures
        counted_within(s0, s, b),
{
    assert forall|j: int| 0 <= j < s0.levels.len() implies s0.levels[j].accs <= (
    #[trigger] s.levels[j]).accs <= s0.levels[j].accs + b by {}
}


} // verus!
