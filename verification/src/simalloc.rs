//! Simulated memory: addresses handed out in order, and reads of them run
//! through a cache hierarchy. A read pins the bytes it reads for the time it
//! reads them, then unpins them.

use vstd::prelude::*;
use vstd::arithmetic::div_mod::*;
use vstd::arithmetic::mul::*;
use crate::hierarchy::{
    Hierarchy, HierarchyView, CacheSpec, CacheStats, addr_step, hierarchy_idle, headroom,
    counted_within, lemma_counted_trans, lemma_room, reached_addr, level_addr_access, pin_at,
};
use crate::lru_cache::{
    LruView, idle, access_step, access_all, access_all_ok, access_ok, unpin_step, unpin_all,
    unpin_span, span_blocks, reset_step, lemma_idle_step, lemma_pin_unpin_is_access,
};

verus! {

/// `x` rounded up to a multiple of 16.
pub open spec fn round16(x: nat) -> nat {
    if x % 16 == 0 {
        x
    } else {
        (x + (16 - x % 16)) as nat
    }
}

/// Every level's blocks are a multiple of 8 bytes. A read pins the word it
/// reads and then unpins `ceil(n / block_size)` consecutive block numbers
/// from the first block it touched (see `unpin_span`); where a word could
/// straddle two blocks, the second would stay pinned, and once every block
/// of a level is pinned the next miss has no victim. With blocks of whole
/// words, an 8-aligned word lies in one block and every read releases what
/// it pinned.
pub open spec fn aligned_levels(h: HierarchyView) -> bool {
    forall|j: int| 0 <= j < h.levels.len() ==> (#[trigger] h.levels[j]).block_size % 8 == 0
}

/// A cache hierarchy and the next address to hand out.
pub struct Simalloc {
    cache_hierarchy: Hierarchy,
    next_addr: usize,
}

/// The first address handed out.
pub const FIRST_ADDR: usize = 4096;

/// The bytes `addr .. addr + n` lie in one block of a level with blocks of
/// `bs` bytes.
proof fn lemma_one_block(bs: nat, addr: nat, n: nat)
    requires
        bs > 0,
        bs % 8 == 0,
        addr % 8 == 0,
        0 < n <= 8,
    ensures
        span_blocks(bs, addr, n) == seq![((addr / bs) * bs) as usize],
        unpin_span(bs, addr, n) == seq![((addr / bs) * bs) as usize],
{
    let b = (addr / bs) * bs;
    lemma_fundamental_div_mod(addr as int, bs as int);
    lemma_mod_bound(addr as int, bs as int);
    lemma_mul_is_commutative(bs as int, addr as int / bs as int);
    let r = addr % bs;
    assert(r % 8 == 0) by {
        lemma_mod_mod(addr as int, 8, (bs / 8) as int);
        assert(bs == 8 * (bs / 8)) by {
            lemma_fundamental_div_mod(bs as int, 8);
        }
    }
    assert(r + n <= bs) by {
        lemma_fundamental_div_mod(r as int, 8);
        lemma_fundamental_div_mod(bs as int, 8);
        assert(r + 8 <= bs) by (nonlinear_arith)
            requires
                r == 8 * (r / 8),
                bs == 8 * (bs / 8),
                r < bs,
        ;
    }
    assert(addr + n - b == r + n);
    assert((r + n + bs - 1) / bs as int == 1) by (nonlinear_arith)
        requires
            0 < r + n <= bs,
    {
        lemma_fundamental_div_mod_converse((r + n + bs - 1) as int, bs as int, 1, (r + n - 1) as int);
    }
    assert((n + bs - 1) / bs as int == 1) by (nonlinear_arith)
        requires
            0 < n <= bs,
    {
        lemma_fundamental_div_mod_converse((n + bs - 1) as int, bs as int, 1, (n - 1) as int);
    }
    assert(span_blocks(bs, addr, n) =~= seq![b as usize]);
    assert(unpin_span(bs, addr, n) =~= seq![b as usize]);
}

/// Accessing, or unpinning, a single block.
proof fn lemma_single(s: LruView, b: usize, p: bool)
    ensures
        access_all(s, seq![b], p) == (access_step(s, b, p), s.mapped.contains_key(b)),
        access_all_ok(s, seq![b], p) == access_ok(s, b),
        unpin_all(s, seq![b]) == unpin_step(s, b),
{
    assert(seq![b].drop_last() =~= Seq::<usize>::empty());
    assert(seq![b].last() == b);
    assert(access_all(s, Seq::<usize>::empty(), p) == (s, true));
    assert(access_all_ok(s, Seq::<usize>::empty(), p));
    assert(unpin_all(s, Seq::<usize>::empty()) == s);
}

/// Unpinning a block of an idle cache changes nothing.
proof fn lemma_unpin_idle(s: LruView, b: usize)
    requires
        idle(s),
    ensures
        unpin_step(s, b) == s,
{
    if s.mapped.contains_key(b) {
        let node = s.mapped[b];
        assert(s.lru.contains(node));
        let k = s.lru.index_of(node);
        assert(node < s.blocks.len());
        assert(s.pins[node as int] == 0);
    }
}

/// After pinning the bytes `an .. an + nn` of an idle hierarchy whose
/// blocks are whole words, unpinning them is in range.
proof fn lemma_touch_unpin_ok(h0: HierarchyView, h1: HierarchyView, an: nat, nn: nat)
    requires
        hierarchy_idle(h0),
        aligned_levels(h0),
        an % 8 == 0,
        0 < nn <= 8,
        an + nn <= usize::MAX,
        headroom(h0, 1),
        forall|j: int| 0 <= j < h0.levels.len() ==> (#[trigger] h0.levels[j]).block_size > 0,
        h1 == addr_step(h0, an, nn, true),
    ensures
        forall|j: int|
            0 <= j < h1.levels.len() ==> (#[trigger] h1.levels[j]).block_size > 0 && (an as int
                / h1.levels[j].block_size as int) * h1.levels[j].block_size + (nn + h1.levels[j].block_size - 1)
                / h1.levels[j].block_size as int <= usize::MAX,
{
    let addr = an;
    let num_bytes = nn;
        assert forall|j: int| 0 <= j < h1.levels.len() implies (#[trigger] h1.levels[j]).block_size
            > 0 && (addr as int / h1.levels[j].block_size as int) * h1.levels[j].block_size + (
        num_bytes + h1.levels[j].block_size - 1) / h1.levels[j].block_size as int <= usize::MAX by {
            let bs = h0.levels[j].block_size;
            let b = ((an / bs) * bs) as usize;
            assert(idle(h0.levels[j]));
            lemma_one_block(bs, an, nn);
            lemma_single(h0.levels[j], b, pin_at(h0.inclusive, true, j));
            lemma_idle_step(h0.levels[j], b);
            assert(h1.levels[j].block_size == bs);
            lemma_fundamental_div_mod(addr as int, bs as int);
            lemma_mod_bound(addr as int, bs as int);
            lemma_mul_is_commutative(bs as int, addr as int / bs as int);
            assert((num_bytes + bs - 1) / bs as int == 1) by (nonlinear_arith)
                requires
                    0 < num_bytes <= 8,
                    bs % 8 == 0,
                    bs > 0,
            {
                lemma_fundamental_div_mod_converse((num_bytes + bs - 1) as int, bs as int, 1, (num_bytes - 1) as int);
            }
        }
}

/// Pinning, then unpinning, the bytes `an .. an + nn` of an idle hierarchy
/// whose blocks are whole words reads them as a read without pinning does,
/// leaves the hierarchy idle, and counts at most one access per level.
proof fn lemma_touch_result(h0: HierarchyView, h1: HierarchyView, h2: HierarchyView, an: nat, nn: nat)
    requires
        hierarchy_idle(h0),
        aligned_levels(h0),
        an % 8 == 0,
        0 < nn <= 8,
        an + nn <= usize::MAX,
        headroom(h0, 1),
        forall|j: int| 0 <= j < h0.levels.len() ==> (#[trigger] h0.levels[j]).block_size > 0,
        h1 == addr_step(h0, an, nn, true),
        h2.inclusive == h1.inclusive,
        h2.levels.len() == h1.levels.len(),
        forall|j: int|
            0 <= j < h1.levels.len() ==> #[trigger] h2.levels[j] == unpin_all(
                h1.levels[j],
                unpin_span(h1.levels[j].block_size, an, nn),
            ),
    ensures
        h2 == addr_step(h0, an, nn, false),
        hierarchy_idle(h2),
        aligned_levels(h2),
        counted_within(h0, h2, 1),
{
    let addr = an;
    let num_bytes = nn;
        let t = addr_step(h0, an, nn, false);
        // the accesses hit or miss alike, pinning or not
        assert forall|k: int| 0 <= k < h0.levels.len() implies #[trigger] level_addr_access(
            h0.levels,
            h0.inclusive,
            an,
            nn,
            true,
            k,
        ).1 == level_addr_access(h0.levels, h0.inclusive, an, nn, false, k).1 by {
            let bs = h0.levels[k].block_size;
            let b = ((an / bs) * bs) as usize;
            assert(idle(h0.levels[k]));
            lemma_one_block(bs, an, nn);
            lemma_single(h0.levels[k], b, pin_at(h0.inclusive, true, k));
            lemma_single(h0.levels[k], b, pin_at(h0.inclusive, false, k));
        }
        assert forall|j: int| 0 <= j < h0.levels.len() implies #[trigger] reached_addr(
            h0.levels,
            h0.inclusive,
            an,
            nn,
            true,
            j,
        ) == reached_addr(h0.levels, h0.inclusive, an, nn, false, j) by {
            if reached_addr(h0.levels, h0.inclusive, an, nn, true, j) {
                assert forall|k: int| 0 <= k < j implies !(#[trigger] level_addr_access(
                    h0.levels,
                    h0.inclusive,
                    an,
                    nn,
                    false,
                    k,
                ).1 && !h0.inclusive[k]) by {
                    assert(level_addr_access(h0.levels, h0.inclusive, an, nn, true, k).1
                        == level_addr_access(h0.levels, h0.inclusive, an, nn, false, k).1);
                }
            }
            if reached_addr(h0.levels, h0.inclusive, an, nn, false, j) {
                assert forall|k: int| 0 <= k < j implies !(#[trigger] level_addr_access(
                    h0.levels,
                    h0.inclusive,
                    an,
                    nn,
                    true,
                    k,
                ).1 && !h0.inclusive[k]) by {
                    assert(level_addr_access(h0.levels, h0.inclusive, an, nn, true, k).1
                        == level_addr_access(h0.levels, h0.inclusive, an, nn, false, k).1);
                }
            }
        }
        assert forall|j: int| 0 <= j < h2.levels.len() implies #[trigger] h2.levels[j] == t.levels[j]
            && idle(h2.levels[j]) && h2.levels[j].block_size % 8 == 0 by {
            let l = h0.levels[j];
            let bs = l.block_size;
            let b = ((an / bs) * bs) as usize;
            assert(idle(l));
            lemma_one_block(bs, an, nn);
            lemma_single(l, b, pin_at(h0.inclusive, true, j));
            lemma_single(l, b, false);
            lemma_idle_step(l, b);
            let p = pin_at(h0.inclusive, true, j);
            let l1 = h1.levels[j];
            lemma_single(l1, b, false);
            assert(h2.levels[j] == unpin_step(l1, b));
            if reached_addr(h0.levels, h0.inclusive, an, nn, true, j) {
                assert(l1 == access_step(l, b, p));
                if p {
                    lemma_pin_unpin_is_access(l, b);
                } else {
                    lemma_unpin_idle(access_step(l, b, false), b);
                }
            } else {
                assert(l1 == l);
                lemma_unpin_idle(l, b);
            }
        }
        assert(h2.levels =~= t.levels);
        assert(h2.inclusive == t.inclusive);
        assert forall|j: int| 0 <= j < h0.levels.len() implies h0.levels[j].accs <= (
        #[trigger] h2.levels[j]).accs <= h0.levels[j].accs + 1 by {
            let l = h0.levels[j];
            let bs = l.block_size;
            let b = ((an / bs) * bs) as usize;
            lemma_one_block(bs, an, nn);
            lemma_single(l, b, false);
            lemma_idle_step(l, b);
        }
}

impl View for Simalloc {
    type V = HierarchyView;

    closed spec fn view(&self) -> HierarchyView {
        self.cache_hierarchy@
    }
}

impl Simalloc {
    pub closed spec fn wf(&self) -> bool {
        &&& self.cache_hierarchy.wf()
        &&& hierarchy_idle(self.cache_hierarchy@)
        &&& aligned_levels(self.cache_hierarchy@)
        &&& self.next_addr % 16 == 0
    }

    /// The next address to hand out.
    pub closed spec fn next_free(&self) -> nat {
        self.next_addr as nat
    }

    /// Simulated memory behind a hierarchy with one level per entry of
    /// `sizes`, first to last, handing out addresses from `FIRST_ADDR` on.
    pub fn new(sizes: Vec<CacheSpec>) -> (s: Simalloc)
        requires
            forall|i: int|
                0 <= i < sizes@.len() ==> 0 < (#[trigger] sizes@[i]).num_blocks < usize::MAX / 128
                    && sizes@[i].block_size > 0 && sizes@[i].block_size % 8 == 0,
        ensures
            s.wf(),
            s.next_free() == FIRST_ADDR,
            s@.levels.len() == sizes@.len(),
            forall|i: int|
                0 <= i < sizes@.len() ==> #[trigger] s@.levels[i].blocks.len() == sizes@[i].num_blocks
                    && s@.levels[i].block_size == sizes@[i].block_size && s@.levels[i].accs == 0
                    && s@.levels[i].hits == 0 && s@.inclusive[i] == sizes@[i].inclusive,
    {
        let ghost sz = sizes@;
        let h = Hierarchy::new(sizes);
        proof {
            assert forall|j: int| 0 <= j < h@.levels.len() implies idle(#[trigger] h@.levels[j]) by {
                assert(sz[j].num_blocks > 0 && sz[j].block_size > 0);
            }
            assert forall|j: int| 0 <= j < h@.levels.len() implies (#[trigger] h@.levels[j]).block_size
                % 8 == 0 by {
                assert(sz[j].block_size % 8 == 0);
            }
        }
        Simalloc { cache_hierarchy: h, next_addr: FIRST_ADDR }
    }

    /// Hands out `num_bytes` bytes at the next address that is a multiple
    /// of 16.
    pub fn alloc_bytes(&mut self, num_bytes: usize) -> (addr: usize)
        requires
            old(self).wf(),
            old(self).next_free() + num_bytes + 16 <= usize::MAX,
        ensures
            final(self).wf(),
            final(self)@ == old(self)@,
            addr == old(self).next_free(),
            addr % 16 == 0,
            final(self).next_free() >= addr + num_bytes,
            final(self).next_free() <= addr + num_bytes + 16,
            final(self).next_free() == round16((addr + num_bytes) as nat),
    {
        let addr = self.next_addr;
        let end = addr + num_bytes;
        let rem = end % 16;
        self.next_addr = if rem == 0 { end } else { end + (16 - rem) };
        proof {
            lemma_fundamental_div_mod(end as int, 16);
            if rem != 0 {
                assert((end + (16 - rem)) % 16 == 0) by {
                    lemma_fundamental_div_mod_converse((end + (16 - rem)) as int, 16, end as int / 16 + 1, 0);
                }
            }
        }
        addr
    }

    /// Reads the `num_bytes` bytes at `addr` (at most 8, at an address that
    /// is a multiple of 8): pins them through the hierarchy, then unpins
    /// them. The hierarchy ends as a read without pinning leaves it.
    pub fn touch(&mut self, addr: usize, num_bytes: usize)
        requires
            old(self).wf(),
            addr % 8 == 0,
            0 < num_bytes <= 8,
            addr + num_bytes <= usize::MAX,
            headroom(old(self)@, 1),
        ensures
            final(self).wf(),
            final(self)@ == addr_step(old(self)@, addr as nat, num_bytes as nat, false),
            counted_within(old(self)@, final(self)@, 1),
            final(self).next_free() == old(self).next_free(),
    {
        let ghost h0 = self.cache_hierarchy@;
        let ghost an = addr as nat;
        let ghost nn = num_bytes as nat;
        proof {
            assert forall|j: int| 0 <= j < h0.levels.len() implies (#[trigger] h0.levels[j]).block_size
                > 0 && span_blocks(h0.levels[j].block_size, an, nn) == seq![((an / h0.levels[j].block_size) * h0.levels[j].block_size) as usize]
                && unpin_span(h0.levels[j].block_size, an, nn) == seq![((an / h0.levels[j].block_size) * h0.levels[j].block_size) as usize] by {
                assert(idle(h0.levels[j]));
                lemma_one_block(h0.levels[j].block_size, an, nn);
            }
            assert forall|j: int|
                0 <= j < h0.levels.len() && reached_addr(h0.levels, h0.inclusive, an, nn, true, j)
                    implies (#[trigger] h0.levels[j]).block_size > 0 && access_all_ok(
                    h0.levels[j],
                    span_blocks(h0.levels[j].block_size, an, nn),
                    pin_at(h0.inclusive, true, j),
                ) by {
                let b = ((an / h0.levels[j].block_size) * h0.levels[j].block_size) as usize;
                lemma_single(h0.levels[j], b, pin_at(h0.inclusive, true, j));
                lemma_idle_step(h0.levels[j], b);
            }
        }
        self.cache_hierarchy.access_or_pin_addr(addr, num_bytes, true);
        let ghost h1 = self.cache_hierarchy@;
        proof {
            assert(h1.levels =~= addr_step(h0, an, nn, true).levels);
            lemma_touch_unpin_ok(h0, h1, an, nn);
        }
        self.cache_hierarchy.unpin_addr(addr, num_bytes);
        proof {
            lemma_touch_result(h0, h1, self.cache_hierarchy@, an, nn);
        }
    }

    /// Reads the `num_bytes` bytes at `addr` without pinning them.
    pub fn access_ref(&mut self, addr: usize, num_bytes: usize)
        requires
            old(self).wf(),
            num_bytes > 0,
            addr + num_bytes <= usize::MAX,
            headroom(old(self)@, num_bytes as nat + 1),
        ensures
            final(self).wf(),
            final(self)@ == addr_step(old(self)@, addr as nat, num_bytes as nat, false),
            counted_within(old(self)@, final(self)@, num_bytes as nat + 1),
            final(self).next_free() == old(self).next_free(),
    {
        self.cache_hierarchy.access_addr(addr, num_bytes);
        proof {
            assert forall|j: int| 0 <= j < self.cache_hierarchy@.levels.len() implies (
            #[trigger] self.cache_hierarchy@.levels[j]).block_size % 8 == 0 by {
                assert(self.cache_hierarchy@.levels[j].block_size == old(self)@.levels[j].block_size);
            }
        }
    }

    /// The next address to hand out.
    pub fn free_from(&self) -> (a: usize)
        ensures
            a == self.next_free(),
    {
        self.next_addr
    }

    /// Whether every counter has room for `k` more accesses.
    pub fn has_room(&self, k: u64) -> (b: bool)
        requires
            self.wf(),
        ensures
            b == headroom(self@, k as nat),
    {
        let stats = self.cache_hierarchy.stats();
        let mut i: usize = 0;
        while i < stats.len()
            invariant
                i <= stats@.len(),
                stats@.len() == self@.levels.len(),
                forall|j: int| 0 <= j < stats@.len() ==> (#[trigger] stats@[j]).accesses == self@.levels[j].accs,
                forall|j: int| 0 <= j < i ==> (#[trigger] self@.levels[j]).accs + k <= u64::MAX,
            decreases stats@.len() - i,
        {
            if stats[i].accesses > u64::MAX - k {
                return false;
            }
            i = i + 1;
        }
        true
    }

    /// The counters of each level, first to last.
    pub fn stats(&self) -> (stats: Vec<CacheStats>)
        requires
            self.wf(),
        ensures
            stats@.len() == self@.levels.len(),
            forall|j: int|
                0 <= j < stats@.len() ==> (#[trigger] stats@[j]).num_blocks == self@.levels[j].blocks.len()
                    && stats@[j].blocksize == self@.levels[j].block_size && stats@[j].accesses
                    == self@.levels[j].accs && stats@[j].hits == self@.levels[j].hits
                    && stats@[j].inclusive == self@.inclusive[j],
    {
        self.cache_hierarchy.stats()
    }

    /// Clears every level's counters and contents.
    pub fn reset(&mut self)
        requires
            old(self).wf(),
        ensures
            final(self).wf(),
            final(self).next_free() == old(self).next_free(),
            final(self)@.inclusive == old(self)@.inclusive,
            final(self)@.levels.len() == old(self)@.levels.len(),
            forall|j: int|
                0 <= j < old(self)@.levels.len() ==> #[trigger] final(self)@.levels[j] == reset_step(
                    old(self)@.levels[j],
                ),
    {
        self.cache_hierarchy.reset();
        proof {
            let h = self.cache_hierarchy@;
            assert forall|j: int| 0 <= j < h.levels.len() implies idle(#[trigger] h.levels[j])
                && h.levels[j].block_size % 8 == 0 by {
                let l = old(self)@.levels[j];
                assert(idle(l));
                assert(l.pinned =~= Seq::<usize>::empty());
                assert(h.levels[j].lru =~= l.lru);
            }
        }
    }
}

/// The word at the start of element `i` of `esz`-byte elements at `base`
/// lies inside them and starts at a multiple of 8.
proof fn lemma_elem_addr(base: nat, i: nat, esz: nat)
    requires
        base % 8 == 0,
        esz % 8 == 0,
        esz >= 8,
    ensures
        (base + i * esz) % 8 == 0,
        base + i * esz + 8 <= base + (i + 1) * esz,
{
    lemma_mul_is_distributive_add(esz as int, i as int, 1);
    lemma_mul_is_commutative(esz as int, i as int);
    lemma_mul_is_commutative(esz as int, (i + 1) as int);
    lemma_fundamental_div_mod(esz as int, 8);
    lemma_mul_is_associative(8, (esz / 8) as int, i as int);
    lemma_mod_multiples_vanish((esz / 8 * i) as int, base as int, 8);
    assert(i * esz == 8 * (esz / 8 * i)) by {
        lemma_mul_is_commutative(i as int, esz as int);
    }
    lemma_mod_multiples_basic((esz / 8 * i) as int, 8);
    assert((8 * (esz / 8 * i) + base) % 8 == base % 8) by {
        lemma_mod_multiples_vanish((esz / 8 * i) as int, base as int, 8);
    }
}

/// The hierarchy after reading, in order, the words at the start of the
/// elements `elems` (by index) of the `esz`-byte elements at `base`.
pub open spec fn elem_reads(h: HierarchyView, base: nat, esz: nat, elems: Seq<nat>) -> HierarchyView
    decreases elems.len(),
{
    if elems.len() == 0 {
        h
    } else {
        addr_step(
            elem_reads(h, base, esz, elems.drop_last()),
            base + elems.last() * esz,
            vstd::layout::size_of::<usize>(),
            false,
        )
    }
}

/// Reading one element more.
pub proof fn lemma_elem_reads_push(h: HierarchyView, base: nat, esz: nat, elems: Seq<nat>, i: nat)
    ensures
        elem_reads(h, base, esz, elems.push(i)) == addr_step(
            elem_reads(h, base, esz, elems),
            base + i * esz,
            vstd::layout::size_of::<usize>(),
            false,
        ),
{
    assert(elems.push(i).drop_last() =~= elems);
}

/// Reading `a`, then `b`, is reading `a + b`.
pub proof fn lemma_elem_reads_concat(h: HierarchyView, base: nat, esz: nat, a: Seq<nat>, b: Seq<nat>)
    ensures
        elem_reads(elem_reads(h, base, esz, a), base, esz, b) == elem_reads(h, base, esz, a + b),
    decreases b.len(),
{
    if b.len() == 0 {
        assert(a + b =~= a);
    } else {
        lemma_elem_reads_concat(h, base, esz, a, b.drop_last());
        assert((a + b).drop_last() =~= a + b.drop_last());
        assert((a + b).last() == b.last());
    }
}

/// Reads element `i` of the `esz`-byte elements at `base` as a pinned
/// reference to it is read: the word at its start, pinned, then released.
pub(crate) fn touch_elem(sim: &mut Simalloc, base: usize, i: usize, esz: usize)
    requires
        old(sim).wf(),
        base % 8 == 0,
        esz % 8 == 0,
        esz >= 8,
        base + (i + 1) * esz <= usize::MAX,
        headroom(old(sim)@, 1),
    ensures
        final(sim).wf(),
        final(sim)@ == addr_step(old(sim)@, (base + i * esz) as nat, vstd::layout::size_of::<usize>(), false),
        counted_within(old(sim)@, final(sim)@, 1),
        final(sim).next_free() == old(sim).next_free(),
{
    broadcast use vstd::layout::layout_of_primitives;
    let w = core::mem::size_of::<usize>();
    proof {
        lemma_elem_addr(base as nat, i as nat, esz as nat);
        assert(w == 4 || w == 8);
    }
    sim.touch(base + i * esz, w);
}

/// `touch_elem` within a budget: `used` of `budget` accesses counted since
/// `s0`, one more after.
pub(crate) fn touch_counted(
    sim: &mut Simalloc,
    base: usize,
    i: usize,
    esz: usize,
    Ghost(s0): Ghost<HierarchyView>,
    Ghost(used): Ghost<nat>,
    Ghost(budget): Ghost<nat>,
)
    requires
        old(sim).wf(),
        base % 8 == 0,
        esz % 8 == 0,
        esz >= 8,
        base + (i + 1) * esz <= usize::MAX,
        headroom(s0, budget),
        counted_within(s0, old(sim)@, used),
        used + 1 <= budget,
    ensures
        final(sim).wf(),
        final(sim)@ == addr_step(old(sim)@, (base + i * esz) as nat, vstd::layout::size_of::<usize>(), false),
        counted_within(s0, final(sim)@, used + 1),
        final(sim).next_free() == old(sim).next_free(),
{
    let ghost before = sim@;
    proof {
        lemma_room(s0, before, used, budget, 1);
    }
    touch_elem(sim, base, i, esz);
    proof {
        lemma_counted_trans(s0, before, sim@, used, 1);
    }
}

} // verus!
