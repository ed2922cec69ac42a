//! A simulated cache of fixed-size blocks with least-recently-used
//! replacement and pinning.

use vstd::prelude::*;
use vstd::arithmetic::div_mod::{lemma_fundamental_div_mod, lemma_mod_bound};
use vstd::arithmetic::mul::lemma_mul_is_commutative;
use crate::index_list::{IndexList, NIL};

verus! {

/// Whether an access found its block in the cache.
#[derive(PartialEq, Eq, Structural, Clone, Copy, Debug)]
pub enum Access {
    Miss,
    Hit,
}

impl Access {
    /// `Hit` only when both accesses hit.
    pub fn bitand(self, rhs: Access) -> (r: Access)
        ensures
            r == (if self == Access::Hit && rhs == Access::Hit {
                Access::Hit
            } else {
                Access::Miss
            }),
    {
        match (self, rhs) {
            (Access::Hit, Access::Hit) => Access::Hit,
            (Access::Hit, Access::Miss) => Access::Miss,
            (Access::Miss, Access::Hit) => Access::Miss,
            (Access::Miss, Access::Miss) => Access::Miss,
        }
    }
}

/// The blocks that `span_to_blocks` lists: multiples of `block_size` from the
/// block that holds `addr` up to (not including) `addr + num_bytes`.
pub open spec fn span_blocks(block_size: nat, addr: nat, num_bytes: nat) -> Seq<usize> {
    let start = (addr / block_size) * block_size;
    let end = addr + num_bytes;
    Seq::new(
        ((end - start + block_size - 1) / block_size as int) as nat,
        |k: int| (start + k * block_size) as usize,
    )
}

/// The blocks that the bytes `addr .. addr + num_bytes` touch, each given by
/// its first address.
pub fn span_to_blocks(block_size: usize, addr: usize, num_bytes: usize) -> (blocks: Vec<usize>)
    requires
        num_bytes > 0,
        block_size > 0,
        addr + num_bytes <= usize::MAX,
    ensures
        blocks@ == span_blocks(block_size as nat, addr as nat, num_bytes as nat),
{
    proof {
        lemma_fundamental_div_mod(addr as int, block_size as int);
        lemma_mod_bound(addr as int, block_size as int);
        lemma_mul_is_commutative(block_size as int, addr as int / block_size as int);
    }
    let start = (addr / block_size) * block_size;
    let end = addr + num_bytes;
    let ghost want = span_blocks(block_size as nat, addr as nat, num_bytes as nat);
    proof {
        assert(want.len() >= 1) by (nonlinear_arith)
            requires
                want.len() == (end - start + block_size - 1) / block_size as int,
                end > start,
                block_size > 0,
        ;
    }
    let mut blocks: Vec<usize> = Vec::new();
    let mut b = start;
    let ghost mut k: int = 0;
    while b < end
        invariant
            start == (addr / block_size) * block_size,
            end == addr + num_bytes,
            want == span_blocks(block_size as nat, addr as nat, num_bytes as nat),
            start <= b,
            start <= end <= usize::MAX,
            b == start + k * block_size,
            k >= 0,
            blocks@ == want.subrange(0, k),
            want.len() == (end - start + block_size - 1) / block_size as int,
            b < end ==> k < want.len(),
            b >= end ==> k == want.len(),
            block_size > 0,
        decreases end - b,
    {
        blocks.push(b);
        proof {
            assert(0 <= k < want.len());
            assert(start == (addr as nat / block_size as nat) * block_size as nat);
            assert(want[k] == (start + k * block_size) as usize);
            assert(want[k] == b);
            assert(blocks@ =~= want.subrange(0, k + 1));
        }
        if end - b <= block_size {
            proof {
                assert(k + 1 == want.len()) by (nonlinear_arith)
                    requires
                        b == start + k * block_size,
                        b < end,
                        end - b <= block_size,
                        want.len() == (end - start + block_size - 1) / block_size as int,
                        block_size > 0,
                ;
                assert(blocks@ =~= want);
            }
            return blocks;
        }
        proof {
            assert(k + 1 < want.len()) by (nonlinear_arith)
                requires
                    b == start + k * block_size,
                    end - b > block_size,
                    want.len() == (end - start + block_size - 1) / block_size as int,
                    block_size > 0,
            ;
        }
        b = b + block_size;
        proof {
            assert(b == start + (k + 1) * block_size) by (nonlinear_arith)
                requires
                    b == start + k * block_size + block_size,
            ;
            k = k + 1;
        }
    }
    blocks
}


/// The blocks in the cache and the node that holds each: a
/// `hashbrown::HashMap` from block to node.
#[verifier::external_body]
pub struct BlockMap {
    inner: hashbrown::HashMap<usize, usize>,
}

/// The entries of a `BlockMap`.
pub uninterp spec fn block_map_entries(m: BlockMap) -> Map<usize, usize>;

/// `hashbrown::HashMap::with_capacity`: an empty map. The allocation for
/// `capacity` entries does not overflow below the bound.
#[verifier::external_body]
fn block_map_with_capacity(capacity: usize) -> (m: BlockMap)
    requires
        capacity < usize::MAX / 128,
    ensures
        block_map_entries(m) =~= Map::empty(),
{
    BlockMap { inner: hashbrown::HashMap::with_capacity(capacity) }
}

/// `hashbrown::HashMap::get`: the value stored for `key`, if any.
#[verifier::external_body]
fn block_map_get(m: &BlockMap, key: usize) -> (r: Option<usize>)
    ensures
        r == (if block_map_entries(*m).contains_key(key) {
            Some(block_map_entries(*m)[key])
        } else {
            None
        }),
{
    m.inner.get(&key).copied()
}

/// `hashbrown::HashMap::insert`: stores `value` for `key`, replacing any
/// earlier value. Growing a table of fewer entries than the bound does not
/// overflow.
#[verifier::external_body]
fn block_map_insert(m: &mut BlockMap, key: usize, value: usize)
    requires
        block_map_entries(*old(m)).len() < usize::MAX / 128,
    ensures
        block_map_entries(*final(m)) == block_map_entries(*old(m)).insert(key, value),
{
    m.inner.insert(key, value);
}

/// `hashbrown::HashMap::remove`: removes the entry of `key`, if any.
#[verifier::external_body]
fn block_map_remove(m: &mut BlockMap, key: usize)
    ensures
        block_map_entries(*final(m)) == block_map_entries(*old(m)).remove(key),
{
    m.inner.remove(&key);
}

/// `hashbrown::HashMap::clear`: removes every entry.
#[verifier::external_body]
fn block_map_clear(m: &mut BlockMap)
    ensures
        block_map_entries(*final(m)) =~= Map::empty(),
{
    m.inner.clear();
}

/// A cache of `num_blocks` nodes, each holding one block (named by its first
/// address), replaced least recently used first. A pinned node is never
/// replaced until it is unpinned as often as it was pinned.
pub struct LruCache {
    cache: BlockMap,
    lru: IndexList,
    pinned: IndexList,
    block_ids: Vec<usize>,
    pin_counts: Vec<usize>,
    num_pinned: usize,
    block_size: usize,
    accs: u64,
    hits: u64,
}

/// The state of an `LruCache`.
pub struct LruView {
    /// Block to the node that holds it, for the blocks in the cache.
    pub mapped: Map<usize, usize>,
    /// The unpinned nodes, most recently used first.
    pub lru: Seq<usize>,
    /// The pinned nodes, most recently pinned first.
    pub pinned: Seq<usize>,
    /// The block last placed in each node (0 for a node never used).
    pub blocks: Seq<usize>,
    /// How often each node is pinned.
    pub pins: Seq<usize>,
    pub block_size: nat,
    pub accs: nat,
    pub hits: nat,
}

impl View for LruCache {
    type V = LruView;

    closed spec fn view(&self) -> LruView {
        LruView {
            mapped: block_map_entries(self.cache),
            lru: self.lru@,
            pinned: self.pinned@,
            blocks: self.block_ids@,
            pins: self.pin_counts@,
            block_size: self.block_size as nat,
            accs: self.accs as nat,
            hits: self.hits as nat,
        }
    }
}

/// An access of `block` is possible: no counter overflows, and a miss finds an
/// unpinned node to replace.
pub open spec fn access_ok(s: LruView, block: usize) -> bool {
    &&& s.accs < u64::MAX
    &&& s.mapped.contains_key(block) ==> s.pins[s.mapped[block] as int] < usize::MAX
    &&& !s.mapped.contains_key(block) ==> s.lru.len() > 0
}

/// The state after an access of `block` (pinning it on a miss when `pin`).
/// A hit on an unpinned node makes it the most recently used; a hit on a
/// pinned node pins it once more. A miss replaces the least recently used
/// unpinned node, which then holds `block`.
pub open spec fn access_step(s: LruView, block: usize, pin: bool) -> LruView {
    if s.mapped.contains_key(block) {
        let node = s.mapped[block];
        if s.pins[node as int] == 0 {
            LruView {
                lru: seq![node] + s.lru.remove(s.lru.index_of(node)),
                accs: s.accs + 1,
                hits: s.hits + 1,
                ..s
            }
        } else {
            LruView {
                pins: s.pins.update(node as int, (s.pins[node as int] + 1) as usize),
                accs: s.accs + 1,
                hits: s.hits + 1,
                ..s
            }
        }
    } else {
        let victim = s.lru.last();
        let mapped = s.mapped.remove(s.blocks[victim as int]).insert(block, victim);
        let blocks = s.blocks.update(victim as int, block);
        let accs = s.accs + 1;
        if pin {
            LruView {
                mapped,
                blocks,
                accs,
                lru: s.lru.drop_last(),
                pinned: seq![victim] + s.pinned,
                pins: s.pins.update(victim as int, 1),
                ..s
            }
        } else {
            LruView {
                mapped,
                blocks,
                accs,
                lru: seq![victim] + s.lru.drop_last(),
                pins: s.pins.update(victim as int, 0),
                ..s
            }
        }
    }
}

/// Every node that ever held a block other than 0 still holds it, and the
/// block maps to it: no two nodes share such a block. A new cache has this
/// property and accesses and unpins keep it; `reset` can lose it, since it
/// empties the map but leaves each node's block.
pub open spec fn unique_blocks(s: LruView) -> bool {
    forall|i: int|
        0 <= i < s.blocks.len() && #[trigger] s.blocks[i] != 0 ==> s.mapped.contains_key(s.blocks[i])
            && s.mapped[s.blocks[i]] == i
}

/// The state after unpinning `block` once: nothing changes unless the block
/// is in the cache and pinned; a node whose last pin goes becomes the most
/// recently used unpinned node.
pub open spec fn unpin_step(s: LruView, block: usize) -> LruView {
    if !s.mapped.contains_key(block) {
        s
    } else {
        let node = s.mapped[block];
        if s.pins[node as int] == 0 {
            s
        } else if s.pins[node as int] > 1 {
            LruView { pins: s.pins.update(node as int, (s.pins[node as int] - 1) as usize), ..s }
        } else {
            LruView {
                pins: s.pins.update(node as int, 0),
                pinned: s.pinned.remove(s.pinned.index_of(node)),
                lru: seq![node] + s.lru,
                ..s
            }
        }
    }
}

/// Unpinning each of `blocks` in turn.
pub open spec fn unpin_all(s: LruView, blocks: Seq<usize>) -> LruView
    decreases blocks.len(),
{
    if blocks.len() == 0 {
        s
    } else {
        unpin_step(unpin_all(s, blocks.drop_last()), blocks.last())
    }
}

/// Accessing each of `blocks` in turn: the state after, and whether every
/// access hit.
pub open spec fn access_all(s: LruView, blocks: Seq<usize>, pin: bool) -> (LruView, bool)
    decreases blocks.len(),
{
    if blocks.len() == 0 {
        (s, true)
    } else {
        let (s1, all_hit) = access_all(s, blocks.drop_last(), pin);
        (access_step(s1, blocks.last(), pin), all_hit && s1.mapped.contains_key(blocks.last()))
    }
}

/// Each access of `access_all` is possible.
pub open spec fn access_all_ok(s: LruView, blocks: Seq<usize>, pin: bool) -> bool
    decreases blocks.len(),
{
    blocks.len() == 0 || (access_all_ok(s, blocks.drop_last(), pin) && access_ok(
        access_all(s, blocks.drop_last(), pin).0,
        blocks.last(),
    ))
}

/// The blocks that `unpin_addr` unpins: `num_bytes` divided by the block size
/// (rounded up) consecutive numbers from the block that holds `addr`.
pub open spec fn unpin_span(block_size: nat, addr: nat, num_bytes: nat) -> Seq<usize> {
    let block = (addr / block_size) * block_size;
    Seq::new(
        ((num_bytes + block_size - 1) / block_size as int) as nat,
        |off: int| (block + off) as usize,
    )
}

/// The state after `reset`: counters cleared, the cache emptied, and the
/// pinned nodes unpinned behind the unpinned ones.
pub open spec fn reset_step(s: LruView) -> LruView {
    LruView {
        mapped: Map::empty(),
        lru: s.lru + s.pinned,
        pinned: Seq::empty(),
        pins: Seq::new(s.pins.len(), |i: int| 0usize),
        accs: 0,
        hits: 0,
        ..s
    }
}

/// Every prefix of a possible run of accesses is possible.
pub proof fn lemma_access_all_ok_prefix(s: LruView, blocks: Seq<usize>, pin: bool, k: int)
    requires
        access_all_ok(s, blocks, pin),
        0 <= k <= blocks.len(),
    ensures
        access_all_ok(s, blocks.subrange(0, k), pin),
    decreases blocks.len(),
{
    if k < blocks.len() {
        assert(blocks.drop_last().subrange(0, k) =~= blocks.subrange(0, k));
        lemma_access_all_ok_prefix(s, blocks.drop_last(), pin, k);
    } else {
        assert(blocks.subrange(0, k) =~= blocks);
    }
}

/// `a` divided by `b`, rounded up.
fn div_ceil(a: usize, b: usize) -> (r: usize)
    requires
        b > 0,
    ensures
        r == (a + b - 1) / b as int,
{
    let q = a / b;
    let rem = a % b;
    proof {
        vstd::arithmetic::div_mod::lemma_fundamental_div_mod(a as int, b as int);
        vstd::arithmetic::div_mod::lemma_mod_bound(a as int, b as int);
    }
    if rem > 0 {
        proof {
            assert(q < usize::MAX) by (nonlinear_arith)
                requires
                    a == b * q + rem,
                    0 < rem < b,
                    a <= usize::MAX,
            ;
            assert((a + b - 1) / b as int == q + 1) by (nonlinear_arith)
                requires
                    a == b * q + rem,
                    0 < rem < b,
            {
                vstd::arithmetic::div_mod::lemma_fundamental_div_mod_converse(
                    a + b - 1,
                    b as int,
                    q + 1,
                    rem - 1,
                );
            }
        }
        q + 1
    } else {
        proof {
            assert((a + b - 1) / b as int == q) by (nonlinear_arith)
                requires
                    a == b * q,
                    b > 0,
            {
                vstd::arithmetic::div_mod::lemma_fundamental_div_mod_converse(
                    a + b - 1,
                    b as int,
                    q as int,
                    b - 1,
                );
            }
        }
        q
    }
}

/// The entries of a map whose values are distinct nodes holding their keys
/// number at most the nodes.
proof fn lemma_mapped_len(mapped: Map<usize, usize>, blocks: Seq<usize>)
    requires
        mapped.dom().finite(),
        forall|b: usize|
            #[trigger] mapped.contains_key(b) ==> mapped[b] < blocks.len() && blocks[mapped[b] as int]
                == b,
    ensures
        mapped.len() <= blocks.len(),
{
    assert(mapped.dom().subset_of(blocks.to_set())) by {
        assert forall|b: usize| mapped.dom().contains(b) implies blocks.to_set().contains(b) by {
            assert(mapped.contains_key(b));
            assert(blocks.contains(blocks[mapped[b] as int]));
        }
    }
    blocks.lemma_cardinality_of_set();
    vstd::set_lib::lemma_len_subset(mapped.dom(), blocks.to_set());
}

impl LruCache {
    pub closed spec fn wf(&self) -> bool {
        let cap = self.block_ids@.len();
        let m = block_map_entries(self.cache);
        &&& self.pin_counts@.len() == cap
        &&& self.lru.wf()
        &&& self.pinned.wf()
        &&& self.lru.capacity() == cap
        &&& self.pinned.capacity() == cap
        &&& cap < usize::MAX / 128
        &&& forall|i: int|
            0 <= i < cap ==> (self.lru@.contains(i as usize) <==> #[trigger] self.pin_counts@[i]
                == 0)
        &&& forall|i: int|
            0 <= i < cap ==> (self.pinned@.contains(i as usize) <==> #[trigger] self.pin_counts@[i]
                > 0)
        &&& forall|b: usize|
            #[trigger] m.contains_key(b) ==> m[b] < cap && self.block_ids@[m[b] as int] == b
        &&& m.dom().finite()
        &&& self.num_pinned == self.pinned@.len()
        &&& self.hits <= self.accs
    }

    /// A cache of `max_blocks` nodes for blocks of `block_size` bytes: all
    /// nodes unpinned and unused (each holding block 0 without it being in
    /// the cache), least recently used in order of their numbers.
    pub fn new(max_blocks: usize, block_size: usize) -> (c: LruCache)
        requires
            max_blocks < usize::MAX / 128,
        ensures
            c.wf(),
            unique_blocks(c@),
            c@.mapped =~= Map::<usize, usize>::empty(),
            c@.lru =~= Seq::new(max_blocks as nat, |i: int| i as usize),
            c@.pinned =~= Seq::<usize>::empty(),
            c@.blocks =~= Seq::new(max_blocks as nat, |i: int| 0usize),
            c@.pins =~= Seq::new(max_blocks as nat, |i: int| 0usize),
            c@.block_size == block_size,
            c@.accs == 0,
            c@.hits == 0,
    {
        let mut lru = IndexList::new(max_blocks);
        let pinned = IndexList::new(max_blocks);
        let mut block_ids: Vec<usize> = Vec::new();
        let mut pin_counts: Vec<usize> = Vec::new();
        let mut i: usize = 0;
        while i < max_blocks
            invariant
                i <= max_blocks < usize::MAX / 128,
                lru.wf(),
                lru.capacity() == max_blocks,
                lru@ =~= Seq::new(i as nat, |k: int| k as usize),
                block_ids@ =~= Seq::new(i as nat, |k: int| 0usize),
                pin_counts@ =~= Seq::new(i as nat, |k: int| 0usize),
            decreases max_blocks - i,
        {
            proof {
                if lru@.contains(i) {
                    let k = lru@.index_of(i);
                    assert(lru@[k] == k as usize);
                }
            }
            lru.push_back(i);
            block_ids.push(0);
            pin_counts.push(0);
            i = i + 1;
        }
        let c = LruCache {
            cache: block_map_with_capacity(max_blocks),
            lru,
            pinned,
            block_ids,
            pin_counts,
            num_pinned: 0,
            block_size,
            accs: 0,
            hits: 0,
        };
        proof {
            assert forall|k: int| 0 <= k < max_blocks implies (c.lru@.contains(k as usize) <==> #[trigger] c.pin_counts@[k] == 0) by {
                assert(c.lru@[k] == k as usize);
            }
        }
        c
    }

    /// Accesses block `block_num`, pinning it when it misses and `pin` holds
    /// (see `access_step`); `Hit` when the block was in the cache.
    pub fn access_or_pin(&mut self, block_num: usize, pin: bool) -> (a: Access)
        requires
            old(self).wf(),
            access_ok(old(self)@, block_num),
        ensures
            final(self).wf(),
            final(self)@ == access_step(old(self)@, block_num, pin),
            a == (if old(self)@.mapped.contains_key(block_num) {
                Access::Hit
            } else {
                Access::Miss
            }),
            unique_blocks(old(self)@) ==> unique_blocks(final(self)@),
    {
        proof {
            self.lemma_wf();
            self.lru.lemma_members();
            self.pinned.lemma_members();
        }
        let ghost s0 = self@;
        let ghost cap = self.block_ids@.len();
        self.accs = self.accs + 1;
        match block_map_get(&self.cache, block_num) {
            Some(node) => {
                self.hits = self.hits + 1;
                if self.pin_counts[node] == 0 {
                    proof {
                        assert(self.lru@.contains(node));
                    }
                    self.lru.remove(node);
                    proof {
                        let k = s0.lru.index_of(node);
                        assert(s0.lru[k] == node);
                        assert forall|j: int| 0 <= j < self.lru@.len() implies self.lru@[j] != node by {
                            let oj = if j < k { j } else { j + 1 };
                            assert(self.lru@[j] == s0.lru[oj]);
                        }
                    }
                    self.lru.push_front(node);
                    proof {
                        let k = s0.lru.index_of(node);
                        assert forall|i: int| 0 <= i < cap implies (self.lru@.contains(i as usize)
                            <==> #[trigger] self.pin_counts@[i] == 0) by {
                            if i as usize == node {
                                assert(self.lru@[0] == node);
                            } else if self.pin_counts@[i] == 0 {
                                assert(s0.lru.contains(i as usize));
                                let ki = s0.lru.index_of(i as usize);
                                assert(s0.lru[ki] == i as usize);
                                let nj = if ki < k { ki + 1 } else { ki };
                                assert(self.lru@[nj] == i as usize);
                            } else {
                                if self.lru@.contains(i as usize) {
                                    let j = self.lru@.index_of(i as usize);
                                    assert(self.lru@[j] == i as usize);
                                    let oj = if j - 1 < k { j - 1 } else { j };
                                    assert(s0.lru[oj] == i as usize);
                                    assert(s0.lru.contains(i as usize));
                                }
                            }
                        }
                    }
                } else {
                    let c = self.pin_counts[node];
                    self.pin_counts.set(node, c + 1);
                    proof {
                        assert forall|i: int| 0 <= i < cap implies (self.lru@.contains(i as usize)
                            <==> #[trigger] self.pin_counts@[i] == 0) by {
                            assert(s0.pins[i] == 0 <==> self.pin_counts@[i] == 0);
                        }
                        assert forall|i: int| 0 <= i < cap implies (self.pinned@.contains(i as usize)
                            <==> #[trigger] self.pin_counts@[i] > 0) by {
                            assert(s0.pins[i] > 0 <==> self.pin_counts@[i] > 0);
                        }
                    }
                }
                return Access::Hit;
            },
            None => {},
        }
        let victim = self.lru.pop_back().unwrap();
        let old_block = self.block_ids[victim];
        proof {
            assert(s0.lru.contains(victim)) by {
                assert(s0.lru[s0.lru.len() - 1] == victim);
            }
            assert(s0.pins[victim as int] == 0);
            assert(!self.lru@.contains(victim)) by {
                if self.lru@.contains(victim) {
                    let j = self.lru@.index_of(victim);
                    assert(s0.lru[j] == victim);
                }
            }
        }
        block_map_remove(&mut self.cache, old_block);
        self.block_ids.set(victim, block_num);
        let ghost m1 = block_map_entries(self.cache);
        proof {
            assert forall|b: usize| #[trigger] m1.contains_key(b) implies m1[b] < self.block_ids@.len()
                && self.block_ids@[m1[b] as int] == b by {
                assert(s0.mapped.contains_key(b));
                if s0.mapped[b] == victim {
                    assert(s0.blocks[victim as int] == b);
                }
            }
            lemma_mapped_len(m1, self.block_ids@);
        }
        block_map_insert(&mut self.cache, block_num, victim);
        if pin {
            self.pin_counts.set(victim, 1);
            proof {
                assert(!self.pinned@.contains(victim));
            }
            self.pinned.push_front(victim);
            self.num_pinned = self.num_pinned + 1;
        } else {
            self.pin_counts.set(victim, 0);
            self.lru.push_front(victim);
        }
        proof {
            let m2 = block_map_entries(self.cache);
            assert forall|b: usize| #[trigger] m2.contains_key(b) implies m2[b] < cap
                && self.block_ids@[m2[b] as int] == b by {
                if b != block_num {
                    assert(m1.contains_key(b));
                }
            }
            if unique_blocks(s0) {
            assert forall|i: int| 0 <= i < cap && #[trigger] self.block_ids@[i] != 0 implies m2.contains_key(
                self.block_ids@[i],
            ) && m2[self.block_ids@[i]] == i by {
                if i != victim {
                    let b = s0.blocks[i];
                    assert(s0.mapped.contains_key(b) && s0.mapped[b] == i);
                    assert(b != block_num);
                    if b == old_block {
                        assert(old_block != 0);
                        assert(s0.mapped[old_block] == victim);
                    }
                }
            }
            }
            let lru1 = s0.lru.drop_last();
            assert forall|i: int| 0 <= i < cap implies (self.lru@.contains(i as usize)
                <==> #[trigger] self.pin_counts@[i] == 0) by {
                if i != victim {
                    if s0.lru.contains(i as usize) {
                        let k = s0.lru.index_of(i as usize);
                        assert(s0.lru[k] == i as usize);
                        assert(k != s0.lru.len() - 1);
                        assert(lru1[k] == i as usize);
                        if !pin {
                            assert(self.lru@[k + 1] == i as usize);
                        }
                    }
                    if self.lru@.contains(i as usize) {
                        let k = self.lru@.index_of(i as usize);
                        assert(self.lru@[k] == i as usize);
                        if pin {
                            assert(s0.lru[k] == i as usize);
                        } else {
                            assert(s0.lru[k - 1] == i as usize);
                        }
                        assert(s0.lru.contains(i as usize));
                    }
                } else if !pin {
                    assert(self.lru@[0] == victim);
                }
            }
            assert forall|i: int| 0 <= i < cap implies (self.pinned@.contains(i as usize)
                <==> #[trigger] self.pin_counts@[i] > 0) by {
                if i != victim {
                    if s0.pinned.contains(i as usize) && pin {
                        let k = s0.pinned.index_of(i as usize);
                        assert(self.pinned@[k + 1] == i as usize);
                    }
                    if self.pinned@.contains(i as usize) && pin {
                        let k = self.pinned@.index_of(i as usize);
                        assert(s0.pinned[k - 1] == i as usize);
                    }
                } else if pin {
                    assert(self.pinned@[0] == victim);
                }
            }
            assert(self@.mapped == access_step(s0, block_num, pin).mapped);
        }
        Access::Miss
    }

    /// Unpins block `block` once (see `unpin_step`).
    pub fn unpin(&mut self, block: usize)
        requires
            old(self).wf(),
        ensures
            final(self).wf(),
            final(self)@ == unpin_step(old(self)@, block),
    {
        proof {
            self.lemma_wf();
            self.lru.lemma_members();
            self.pinned.lemma_members();
        }
        let ghost s0 = self@;
        let ghost cap = self.block_ids@.len();
        let node = match block_map_get(&self.cache, block) {
            Some(node) => node,
            None => {
                return;
            },
        };
        if self.pin_counts[node] == 0 {
            return;
        }
        let c = self.pin_counts[node] - 1;
        self.pin_counts.set(node, c);
        if c > 0 {
            proof {
                assert forall|i: int| 0 <= i < cap implies (self.lru@.contains(i as usize)
                    <==> #[trigger] self.pin_counts@[i] == 0) by {
                    assert(s0.pins[i] == 0 <==> self.pin_counts@[i] == 0);
                }
                assert forall|i: int| 0 <= i < cap implies (self.pinned@.contains(i as usize)
                    <==> #[trigger] self.pin_counts@[i] > 0) by {
                    assert(s0.pins[i] > 0 <==> self.pin_counts@[i] > 0);
                }
            }
            return;
        }
        proof {
            assert(self.pinned@.contains(node));
            assert(!self.lru@.contains(node));
        }
        self.pinned.remove(node);
        self.lru.push_front(node);
        self.num_pinned = self.num_pinned - 1;
        proof {
            let k = s0.pinned.index_of(node);
            assert(s0.pinned[k] == node);
            assert forall|i: int| 0 <= i < cap implies (self.lru@.contains(i as usize)
                <==> #[trigger] self.pin_counts@[i] == 0) by {
                if i as usize == node {
                    assert(self.lru@[0] == node);
                } else {
                    if s0.lru.contains(i as usize) {
                        let j = s0.lru.index_of(i as usize);
                        assert(self.lru@[j + 1] == i as usize);
                    }
                    if self.lru@.contains(i as usize) {
                        let j = self.lru@.index_of(i as usize);
                        assert(s0.lru[j - 1] == i as usize);
                    }
                }
            }
            assert forall|i: int| 0 <= i < cap implies (self.pinned@.contains(i as usize)
                <==> #[trigger] self.pin_counts@[i] > 0) by {
                if i as usize == node {
                    if self.pinned@.contains(node) {
                        let j = self.pinned@.index_of(node);
                        let oj = if j < k { j } else { j + 1 };
                        assert(s0.pinned[oj] == node);
                    }
                } else {
                    if s0.pinned.contains(i as usize) {
                        let j = s0.pinned.index_of(i as usize);
                        assert(s0.pinned[j] == i as usize);
                        let nj = if j < k { j } else { j - 1 };
                        assert(self.pinned@[nj] == i as usize);
                    }
                    if self.pinned@.contains(i as usize) {
                        let j = self.pinned@.index_of(i as usize);
                        let oj = if j < k { j } else { j + 1 };
                        assert(s0.pinned[oj] == i as usize);
                    }
                }
            }
        }
    }

    /// Accesses every block that the bytes `addr .. addr + num_bytes` touch,
    /// in order (see `access_all`); `Hit` when every access hit.
    pub fn access_or_pin_addr(&mut self, addr: usize, num_bytes: usize, pin: bool) -> (a: Access)
        requires
            old(self).wf(),
            old(self)@.block_size > 0,
            num_bytes > 0,
            addr + num_bytes <= usize::MAX,
            access_all_ok(
                old(self)@,
                span_blocks(old(self)@.block_size, addr as nat, num_bytes as nat),
                pin,
            ),
        ensures
            final(self).wf(),
            final(self)@ == access_all(
                old(self)@,
                span_blocks(old(self)@.block_size, addr as nat, num_bytes as nat),
                pin,
            ).0,
            (a == Access::Hit) == access_all(
                old(self)@,
                span_blocks(old(self)@.block_size, addr as nat, num_bytes as nat),
                pin,
            ).1,
            unique_blocks(old(self)@) ==> unique_blocks(final(self)@),
    {
        let ghost s0 = self@;
        let blocks = span_to_blocks(self.block_size, addr, num_bytes);
        let mut access = Access::Hit;
        let mut i: usize = 0;
        assert(blocks@.subrange(0, 0) =~= Seq::<usize>::empty());
        while i < blocks.len()
            invariant
                self.wf(),
                i <= blocks@.len(),
                access_all_ok(s0, blocks@, pin),
                self@ == access_all(s0, blocks@.subrange(0, i as int), pin).0,
                (access == Access::Hit) == access_all(s0, blocks@.subrange(0, i as int), pin).1,
                unique_blocks(s0) ==> unique_blocks(self@),
            decreases blocks@.len() - i,
        {
            proof {
                lemma_access_all_ok_prefix(s0, blocks@, pin, i + 1);
                assert(blocks@.subrange(0, i + 1).drop_last() =~= blocks@.subrange(0, i as int));
            }
            let info = self.access_or_pin(blocks[i], pin);
            access = access.bitand(info);
            i = i + 1;
        }
        proof {
            assert(blocks@.subrange(0, i as int) =~= blocks@);
        }
        access
    }

    /// Unpins, once each, the blocks of `unpin_span` for the bytes
    /// `addr .. addr + num_bytes`.
    pub fn unpin_addr(&mut self, addr: usize, num_bytes: usize)
        requires
            old(self).wf(),
            old(self)@.block_size > 0,
            (addr as int / old(self)@.block_size as int) * old(self)@.block_size + (num_bytes
                + old(self)@.block_size - 1) / old(self)@.block_size as int <= usize::MAX,
        ensures
            final(self).wf(),
            final(self)@ == unpin_all(
                old(self)@,
                unpin_span(old(self)@.block_size, addr as nat, num_bytes as nat),
            ),
    {
        let ghost s0 = self@;
        let ghost span = unpin_span(self.block_size as nat, addr as nat, num_bytes as nat);
        proof {
            vstd::arithmetic::div_mod::lemma_fundamental_div_mod(addr as int, self.block_size as int);
            vstd::arithmetic::div_mod::lemma_mod_bound(addr as int, self.block_size as int);
            vstd::arithmetic::mul::lemma_mul_is_commutative(
                self.block_size as int,
                addr as int / self.block_size as int,
            );
        }
        let block = (addr / self.block_size) * self.block_size;
        let num_blocks = div_ceil(num_bytes, self.block_size);
        let mut off: usize = 0;
        assert(span.subrange(0, 0) =~= Seq::<usize>::empty());
        while off < num_blocks
            invariant
                self.wf(),
                off <= num_blocks,
                span.len() == num_blocks,
                block + num_blocks <= usize::MAX,
                span == unpin_span(s0.block_size, addr as nat, num_bytes as nat),
                block == (addr as int / s0.block_size as int) * s0.block_size,
                self@ == unpin_all(s0, span.subrange(0, off as int)),
            decreases num_blocks - off,
        {
            self.unpin(block + off);
            proof {
                assert(span[off as int] == block + off);
                assert(span.subrange(0, off + 1).drop_last() =~= span.subrange(0, off as int));
            }
            off = off + 1;
        }
        proof {
            assert(span.subrange(0, off as int) =~= span);
        }
    }

    /// Reads `block` without pinning it.
    pub fn access(&mut self, block: usize) -> (a: Access)
        requires
            old(self).wf(),
            access_ok(old(self)@, block),
        ensures
            final(self).wf(),
            final(self)@ == access_step(old(self)@, block, false),
            a == (if old(self)@.mapped.contains_key(block) {
                Access::Hit
            } else {
                Access::Miss
            }),
            unique_blocks(old(self)@) ==> unique_blocks(final(self)@),
    {
        self.access_or_pin(block, false)
    }

    /// Reads the blocks that the bytes `addr .. addr + num_bytes` touch,
    /// without pinning them.
    pub fn access_addr(&mut self, addr: usize, num_bytes: usize) -> (a: Access)
        requires
            old(self).wf(),
            old(self)@.block_size > 0,
            num_bytes > 0,
            addr + num_bytes <= usize::MAX,
            access_all_ok(old(self)@, span_blocks(old(self)@.block_size, addr as nat, num_bytes as nat), false),
        ensures
            final(self).wf(),
            final(self)@ == access_all(
                old(self)@,
                span_blocks(old(self)@.block_size, addr as nat, num_bytes as nat),
                false,
            ).0,
            (a == Access::Hit) == access_all(
                old(self)@,
                span_blocks(old(self)@.block_size, addr as nat, num_bytes as nat),
                false,
            ).1,
    {
        self.access_or_pin_addr(addr, num_bytes, false)
    }

    /// Reads the blocks that the bytes `addr .. addr + num_bytes` touch,
    /// pinning each on a miss.
    pub fn pin_addr(&mut self, addr: usize, num_bytes: usize) -> (a: Access)
        requires
            old(self).wf(),
            old(self)@.block_size > 0,
            num_bytes > 0,
            addr + num_bytes <= usize::MAX,
            access_all_ok(old(self)@, span_blocks(old(self)@.block_size, addr as nat, num_bytes as nat), true),
        ensures
            final(self).wf(),
            final(self)@ == access_all(
                old(self)@,
                span_blocks(old(self)@.block_size, addr as nat, num_bytes as nat),
                true,
            ).0,
            (a == Access::Hit) == access_all(
                old(self)@,
                span_blocks(old(self)@.block_size, addr as nat, num_bytes as nat),
                true,
            ).1,
    {
        self.access_or_pin_addr(addr, num_bytes, true)
    }

    /// Reads each of `blocks`, in order, without pinning them.
    pub fn run_to_end(&mut self, blocks: &Vec<usize>)
        requires
            old(self).wf(),
            access_all_ok(old(self)@, blocks@, false),
        ensures
            final(self).wf(),
            final(self)@ == access_all(old(self)@, blocks@, false).0,
    {
        let ghost s0 = self@;
        let mut i: usize = 0;
        proof {
            assert(blocks@.subrange(0, 0) =~= Seq::<usize>::empty());
        }
        while i < blocks.len()
            invariant
                i <= blocks@.len(),
                self.wf(),
                access_all_ok(s0, blocks@, false),
                self@ == access_all(s0, blocks@.subrange(0, i as int), false).0,
            decreases blocks@.len() - i,
        {
            proof {
                lemma_access_all_ok_prefix(s0, blocks@, false, i + 1);
                let pre = blocks@.subrange(0, i + 1);
                assert(pre.drop_last() =~= blocks@.subrange(0, i as int));
                assert(pre.last() == blocks@[i as int]);
            }
            self.access(blocks[i]);
            proof {
                let pre = blocks@.subrange(0, i + 1);
                assert(pre.drop_last() =~= blocks@.subrange(0, i as int));
            }
            i = i + 1;
        }
        proof {
            assert(blocks@.subrange(0, blocks@.len() as int) =~= blocks@);
        }
    }


    /// Clears the counters and the cache, and unpins every pinned node
    /// (see `reset_step`).
    pub fn reset(&mut self)
        requires
            old(self).wf(),
        ensures
            final(self).wf(),
            final(self)@ == reset_step(old(self)@),
    {
        proof {
            self.lemma_wf();
            self.lru.lemma_members();
            self.pinned.lemma_members();
        }
        let ghost s0 = self@;
        let ghost cap = self.block_ids@.len();
        self.accs = 0;
        self.hits = 0;
        self.num_pinned = 0;
        let ghost mut k: int = 0;
        while !self.pinned.is_empty()
            invariant
                self.lru.wf(),
                self.pinned.wf(),
                self.lru.capacity() == cap,
                self.pinned.capacity() == cap,
                self.block_ids@.len() == cap,
                self.pin_counts@.len() == cap,
                0 <= k <= s0.pinned.len(),
                self.lru@ == s0.lru + s0.pinned.subrange(0, k),
                self.pinned@ == s0.pinned.subrange(k, s0.pinned.len() as int),
                forall|i: int| 0 <= i < cap && !self.pinned@.contains(i as usize) ==> #[trigger] self.pin_counts@[i] == 0,
                forall|i: int| 0 <= i < s0.lru.len() ==> s0.pins[#[trigger] s0.lru[i] as int] == 0,
                forall|i: int| 0 <= i < s0.pinned.len() ==> s0.pins[#[trigger] s0.pinned[i] as int] > 0,
                s0.pinned.no_duplicates(),
                self.hits == 0,
                self.accs == 0,
                self.num_pinned == 0,
                self.block_ids@ == s0.blocks,
                self.block_size == s0.block_size,
                block_map_entries(self.cache) == s0.mapped,
            decreases s0.pinned.len() - k,
        {
            proof {
                self.pinned.lemma_members();
            }
            let next = self.pinned.pop_front();
            match next {
                None => {},
                Some(node) => {
                    proof {
                        assert(node == s0.pinned[k]);
                        assert(!self.lru@.contains(node)) by {
                            if self.lru@.contains(node) {
                                let j = self.lru@.index_of(node);
                                if j < s0.lru.len() {
                                    assert(s0.lru[j] == node);
                                } else {
                                    assert(s0.pinned[j - s0.lru.len()] == node);
                                }
                            }
                        }
                    }
                    self.pin_counts.set(node, 0);
                    self.lru.push_back(node);
                    proof {
                        let old_p = s0.pinned.subrange(k, s0.pinned.len() as int);
                        assert forall|i: int| 0 <= i < cap && !self.pinned@.contains(i as usize) implies #[trigger] self.pin_counts@[i] == 0 by {
                            if i != node as int && old_p.contains(i as usize) {
                                let j = old_p.index_of(i as usize);
                                assert(j != 0);
                                assert(self.pinned@[j - 1] == i as usize);
                            }
                        }
                        assert(self.lru@ =~= s0.lru + s0.pinned.subrange(0, k + 1));
                        assert(self.pinned@ =~= s0.pinned.subrange(k + 1, s0.pinned.len() as int));
                        k = k + 1;
                    }
                },
            }
        }
        block_map_clear(&mut self.cache);
        proof {
            assert(self.pinned@.len() == 0);
            assert(s0.pinned.subrange(0, k) =~= s0.pinned);
            assert forall|i: int| 0 <= i < cap implies (self.lru@.contains(i as usize)
                <==> #[trigger] self.pin_counts@[i] == 0) by {
                if s0.pins[i] == 0 {
                    assert(s0.lru.contains(i as usize));
                    let j = s0.lru.index_of(i as usize);
                    assert(self.lru@[j] == i as usize);
                } else {
                    assert(s0.pinned.contains(i as usize));
                    let j = s0.pinned.index_of(i as usize);
                    assert(self.lru@[s0.lru.len() + j] == i as usize);
                }
            }
            assert(self.pin_counts@ =~= Seq::new(cap, |i: int| 0usize));
            assert(self.pinned@ =~= Seq::<usize>::empty());
            assert(self@.mapped =~= Map::<usize, usize>::empty());
            assert(self@.lru =~= s0.lru + s0.pinned);
        }
    }

    /// Size of a block in bytes.
    pub fn blocksize(&self) -> (b: usize)
        ensures
            b == self@.block_size,
    {
        self.block_size
    }

    /// Number of nodes.
    pub fn num_blocks(&self) -> (n: usize)
        ensures
            n == self@.blocks.len(),
    {
        self.block_ids.len()
    }

    /// Number of accesses since creation or the last `reset`.
    pub fn accs(&self) -> (a: u64)
        ensures
            a == self@.accs,
    {
        self.accs
    }

    /// Number of accesses that hit.
    pub fn hits(&self) -> (h: u64)
        ensures
            h == self@.hits,
    {
        self.hits
    }

    /// Number of accesses that missed.
    pub fn misses(&self) -> (m: u64)
        requires
            self.wf(),
        ensures
            m == self@.accs - self@.hits,
    {
        self.accs - self.hits
    }

    /// Whether an access of `block` is possible now (see `access_ok`).
    pub fn can_access(&self, block: usize) -> (b: bool)
        requires
            self.wf(),
        ensures
            b == access_ok(self@, block),
    {
        if self.accs == u64::MAX {
            return false;
        }
        match block_map_get(&self.cache, block) {
            Some(node) => self.pin_counts[node] < usize::MAX,
            None => !self.lru.is_empty(),
        }
    }

    /// Whether `block` is in the cache.
    pub fn is_cached(&self, block: usize) -> (b: bool)
        ensures
            b == self@.mapped.contains_key(block),
    {
        block_map_get(&self.cache, block).is_some()
    }

    /// Number of pinned nodes.
    pub fn num_pinned(&self) -> (n: usize)
        requires
            self.wf(),
        ensures
            n == self@.pinned.len(),
    {
        self.num_pinned
    }

    /// What every well-formed cache satisfies.
    pub proof fn lemma_wf(&self)
        requires
            self.wf(),
        ensures
            self@.hits <= self@.accs,
            self@.pins.len() == self@.blocks.len(),
            self@.lru.len() + self@.pinned.len() == self@.blocks.len(),
            forall|b: usize|
                #[trigger] self@.mapped.contains_key(b) ==> self@.mapped[b] < self@.blocks.len()
                    && self@.blocks[self@.mapped[b] as int] == b,
            forall|i: int| 0 <= i < self@.lru.len() ==> self@.pins[#[trigger] self@.lru[i] as int] == 0
                && self@.lru[i] < self@.blocks.len(),
            forall|i: int| 0 <= i < self@.pinned.len() ==> #[trigger] self@.pinned[i] < self@.blocks.len(),
            self@.lru.no_duplicates(),
            self@.pinned.no_duplicates(),
            forall|i: int|
                0 <= i < self@.pinned.len() ==> self@.pins[#[trigger] self@.pinned[i] as int] > 0,
    {
        self.lru.lemma_members();
        self.pinned.lemma_members();
        let cap = self.block_ids@.len();
        assert forall|i: int| 0 <= i < self@.lru.len() implies self@.pins[#[trigger] self@.lru[i] as int]
            == 0 by {
            assert(self.lru@.contains(self.lru@[i]));
        }
        assert forall|i: int| 0 <= i < self@.pinned.len() implies self@.pins[
            #[trigger] self@.pinned[i] as int] > 0 by {
            assert(self.pinned@.contains(self.pinned@[i]));
        }
        // every node is in exactly one of the two lists
        let all = self.lru@ + self.pinned@;
        let ln = self.lru@.len() as int;
        assert forall|i: int, j: int| 0 <= i < j < all.len() implies all[i] != all[j] by {
            if j < ln {
                assert(all[i] == self.lru@[i] && all[j] == self.lru@[j]);
            } else if i >= ln {
                assert(all[i] == self.pinned@[i - ln] && all[j] == self.pinned@[j - ln]);
            } else {
                assert(all[i] == self.lru@[i] && all[j] == self.pinned@[j - ln]);
                assert(self.lru@.contains(all[i]));
                assert(self.pinned@.contains(all[j]));
                let a = all[i] as int;
                assert(self.pin_counts@[a] == 0);
                if all[i] == all[j] {
                    assert(self.pin_counts@[a] > 0);
                }
            }
        }
        assert forall|i: int| 0 <= i < all.len() implies #[trigger] all[i] < cap by {
            if i < self.lru@.len() {
            } else {
                assert(all[i] == self.pinned@[i - self.lru@.len()]);
            }
        }
        crate::index_list::lemma_distinct_below(all, cap);
        let complete = Seq::new(cap, |i: int| i as usize);
        assert forall|i: int| 0 <= i < complete.len() implies all.contains(#[trigger] complete[i]) by {
            if self.pin_counts@[i] == 0 {
                let k = self.lru@.index_of(i as usize);
                assert(all[k] == i as usize);
            } else {
                let k = self.pinned@.index_of(i as usize);
                assert(all[self.lru@.len() + k] == i as usize);
            }
        }
        assert forall|i: int, j: int| 0 <= i < j < complete.len() implies complete[i] != complete[j] by {}
        assert forall|i: int| 0 <= i < complete.len() implies #[trigger] complete[i] < cap by {}
        lemma_covering_len(complete, all);
    }
}

/// After an access of `block`, the block is in the cache: accessing it again
/// right away hits.
pub proof fn lemma_access_caches(s: LruView, block: usize, pin: bool)
    ensures
        access_step(s, block, pin).mapped.contains_key(block),
{
}

/// Every access counts once, and a hit counts once more.
pub proof fn lemma_access_counts(s: LruView, block: usize, pin: bool)
    ensures
        access_step(s, block, pin).accs == s.accs + 1,
        access_step(s, block, pin).hits == s.hits + (if s.mapped.contains_key(block) { 1int } else { 0 }),
        access_step(s, block, pin).block_size == s.block_size,
{
}

/// Accessing a run of blocks counts one access per block, and the run hits
/// exactly when every access of it hits.
pub proof fn lemma_access_all_counts(s: LruView, blocks: Seq<usize>, pin: bool)
    ensures
        access_all(s, blocks, pin).0.accs == s.accs + blocks.len(),
        access_all(s, blocks, pin).1 == forall|k: int|
            0 <= k < blocks.len() ==> #[trigger] access_all(s, blocks.take(k), pin).0.mapped.contains_key(
                blocks[k],
            ),
    decreases blocks.len(),
{
    if blocks.len() > 0 {
        let front = blocks.drop_last();
        lemma_access_all_counts(s, front, pin);
        let s1 = access_all(s, front, pin).0;
        lemma_access_counts(s1, blocks.last(), pin);
        assert forall|k: int| 0 <= k < front.len() implies #[trigger] blocks.take(k) == front.take(k)
            && blocks[k] == front[k] by {
            assert(blocks.take(k) =~= front.take(k));
        }
        assert(blocks.take(front.len() as int) =~= front);
        if access_all(s, blocks, pin).1 {
            assert forall|k: int| 0 <= k < blocks.len() implies #[trigger] access_all(
                s,
                blocks.take(k),
                pin,
            ).0.mapped.contains_key(blocks[k]) by {
                if k < front.len() {
                    assert(blocks.take(k) == front.take(k));
                    assert(access_all(s, front.take(k), pin).0.mapped.contains_key(front[k]));
                }
            }
        }
        if forall|k: int|
            0 <= k < blocks.len() ==> #[trigger] access_all(s, blocks.take(k), pin).0.mapped.contains_key(
                blocks[k],
            ) {
            assert forall|k: int| 0 <= k < front.len() implies #[trigger] access_all(
                s,
                front.take(k),
                pin,
            ).0.mapped.contains_key(front[k]) by {
                assert(blocks.take(k) == front.take(k));
                assert(access_all(s, blocks.take(k), pin).0.mapped.contains_key(blocks[k]));
            }
            assert(access_all(s, blocks.take(front.len() as int), pin).0.mapped.contains_key(
                blocks[front.len() as int],
            ));
        }
    }
}

/// A pinned block (other than 0) stays in the same node while other blocks
/// are accessed, as long as no two nodes share a block.
pub proof fn lemma_pinned_stays(c: &LruCache, block: usize, other: usize, pin: bool)
    requires
        c.wf(),
        unique_blocks(c@),
        block != 0,
        block != other,
        c@.mapped.contains_key(block),
        c@.pins[c@.mapped[block] as int] > 0,
        access_ok(c@, other),
    ensures
        access_step(c@, other, pin).mapped.contains_key(block),
        access_step(c@, other, pin).mapped[block] == c@.mapped[block],
        access_step(c@, other, pin).pins[c@.mapped[block] as int] >= c@.pins[c@.mapped[block] as int],
{
    c.lemma_wf();
    let s = c@;
    let n = s.mapped[block];
    assert(s.blocks[n as int] == block);
    if !s.mapped.contains_key(other) {
        let v = s.lru[s.lru.len() - 1];
        assert(s.pins[v as int] == 0);
        assert(v != n);
        if s.blocks[v as int] == block {
            assert(s.blocks[v as int] != 0);
            assert(s.mapped[block] == v);
        }
    } else {
        let m = s.mapped[other];
        assert(s.blocks[m as int] == other);
    }
}

/// Unpinning a block as often as it was pinned by a miss leaves it unpinned
/// and most recently used.
pub proof fn lemma_pin_then_unpin(c: &LruCache, block: usize)
    requires
        c.wf(),
        !c@.mapped.contains_key(block),
        access_ok(c@, block),
    ensures
        ({
            let s1 = access_step(c@, block, true);
            let s2 = unpin_step(s1, block);
            let n = s1.mapped[block];
            &&& s1.pins[n as int] == 1
            &&& s2.pins[n as int] == 0
            &&& s2.lru[0] == n
            &&& s2.mapped == s1.mapped
            &&& s2.pinned == c@.pinned
        }),
{
    c.lemma_wf();
    let s1 = access_step(c@, block, true);
    let n = s1.mapped[block];
    let v = c@.lru[c@.lru.len() - 1];
    assert(n == v);
    assert(v < c@.blocks.len());
    assert(s1.pinned[0] == n);
    assert(s1.pinned.index_of(n) == 0) by {
        c.pinned.lemma_members();
        assert(s1.pinned.contains(n));
        if s1.pinned.index_of(n) != 0 {
            let k = s1.pinned.index_of(n);
            assert(c@.pinned[k - 1] == n);
            assert(c@.pins[n as int] > 0);
            assert(c@.lru.contains(n));
            assert(c@.pins[n as int] == 0);
        }
    }
    assert(s1.pinned.remove(0) =~= c@.pinned);
}

/// A cache that has never been pinned into: every node unpinned and on the
/// recency list, so every access can find a node to replace.
pub open spec fn idle(s: LruView) -> bool {
    &&& s.block_size > 0
    &&& s.blocks.len() > 0
    &&& s.pinned.len() == 0
    &&& s.lru.len() == s.blocks.len()
    &&& s.pins.len() == s.blocks.len()
    &&& forall|i: int| 0 <= i < s.pins.len() ==> #[trigger] s.pins[i] == 0
    &&& forall|i: int| 0 <= i < s.lru.len() ==> #[trigger] s.lru[i] < s.blocks.len()
    &&& forall|b: usize| #[trigger] s.mapped.contains_key(b) ==> s.lru.contains(s.mapped[b])
}

/// On an idle cache, pinning a block on access and unpinning it right after
/// leaves the cache as an access without pinning would.
pub proof fn lemma_pin_unpin_is_access(s: LruView, block: usize)
    requires
        idle(s),
        s.accs < u64::MAX,
    ensures
        unpin_step(access_step(s, block, true), block) == access_step(s, block, false),
{
    lemma_idle_step(s, block);
    let a = access_step(s, block, true);
    let b = access_step(s, block, false);
    if s.mapped.contains_key(block) {
        assert(s.pins[s.mapped[block] as int] == 0);
    } else {
        let victim = s.lru.last();
        assert(a.mapped[block] == victim);
        assert(a.pins[victim as int] == 1);
        assert(a.pinned == seq![victim]);
        assert(a.pinned.index_of(victim) == 0) by {
            assert(a.pinned[0] == victim);
        }
        let u = unpin_step(a, block);
        assert(u.pinned =~= Seq::<usize>::empty());
        assert(u.pins =~= b.pins);
        assert(u.lru =~= b.lru);
        assert(b.pinned =~= Seq::<usize>::empty());
        assert(u.mapped == b.mapped);
        assert(u.blocks == b.blocks);
        assert(u == b);
    }
}

/// An access without pinning keeps a cache idle and counts once.
pub proof fn lemma_idle_step(s: LruView, block: usize)
    requires
        idle(s),
        s.accs < u64::MAX,
    ensures
        access_ok(s, block),
        idle(access_step(s, block, false)),
        access_step(s, block, false).accs == s.accs + 1,
        access_step(s, block, false).block_size == s.block_size,
        access_step(s, block, false).blocks.len() == s.blocks.len(),
{
    let t = access_step(s, block, false);
    if s.mapped.contains_key(block) {
        let node = s.mapped[block];
        assert(s.lru.contains(node));
        let k = s.lru.index_of(node);
        let rest = s.lru.remove(k);
        assert(t.lru == seq![node] + rest);
        assert forall|i: int| 0 <= i < t.lru.len() implies #[trigger] t.lru[i] < t.blocks.len() by {
            if i > 0 {
                assert(t.lru[i] == rest[i - 1]);
                if i - 1 < k {
                    assert(rest[i - 1] == s.lru[i - 1]);
                } else {
                    assert(rest[i - 1] == s.lru[i]);
                }
            }
        }
        assert forall|b: usize| #[trigger] t.mapped.contains_key(b) implies t.lru.contains(t.mapped[b]) by {
            let m = s.mapped[b];
            if m == node {
                assert(t.lru[0] == node);
            } else {
                let j = s.lru.index_of(m);
                if j < k {
                    assert(t.lru[j + 1] == m);
                } else {
                    assert(j != k);
                    assert(t.lru[j] == m);
                }
            }
        }
    } else {
        let victim = s.lru.last();
        let rest = s.lru.drop_last();
        assert(t.lru == seq![victim] + rest);
        assert forall|i: int| 0 <= i < t.lru.len() implies #[trigger] t.lru[i] < t.blocks.len() by {
            if i > 0 {
                assert(t.lru[i] == s.lru[i - 1]);
            }
        }
        assert forall|i: int| 0 <= i < t.pins.len() implies #[trigger] t.pins[i] == 0 by {
            if i != victim as int {
                assert(t.pins[i] == s.pins[i]);
            }
        }
        assert forall|b: usize| #[trigger] t.mapped.contains_key(b) implies t.lru.contains(t.mapped[b]) by {
            if b == block {
                assert(t.lru[0] == victim);
            } else {
                let m = s.mapped[b];
                let j = s.lru.index_of(m);
                if j == s.lru.len() - 1 {
                    assert(t.lru[0] == m);
                } else {
                    assert(t.lru[j + 1] == m);
                }
            }
        }
    }
}

/// Accesses without pinning, as many as the counter has room for, are all
/// possible on an idle cache, keep it idle, and count once each.
pub proof fn lemma_idle_all(s: LruView, blocks: Seq<usize>)
    requires
        idle(s),
        s.accs + blocks.len() <= u64::MAX,
    ensures
        access_all_ok(s, blocks, false),
        idle(access_all(s, blocks, false).0),
        access_all(s, blocks, false).0.accs == s.accs + blocks.len(),
        access_all(s, blocks, false).0.block_size == s.block_size,
        access_all(s, blocks, false).0.blocks.len() == s.blocks.len(),
    decreases blocks.len(),
{
    if blocks.len() > 0 {
        lemma_idle_all(s, blocks.drop_last());
        lemma_idle_step(access_all(s, blocks.drop_last(), false).0, blocks.last());
    }
}

/// The bytes `addr .. addr + num_bytes` touch at most `num_bytes + 1`
/// blocks.
pub proof fn lemma_span_len(block_size: nat, addr: nat, num_bytes: nat)
    requires
        block_size > 0,
        num_bytes > 0,
    ensures
        span_blocks(block_size, addr, num_bytes).len() <= num_bytes + 1,
        span_blocks(block_size, addr, num_bytes).len() >= 1,
{
    let start = (addr / block_size) * block_size;
    lemma_fundamental_div_mod(addr as int, block_size as int);
    lemma_mod_bound(addr as int, block_size as int);
    lemma_mul_is_commutative(block_size as int, addr as int / block_size as int);
    assert(0 <= addr - start < block_size);
    let len = span_blocks(block_size, addr, num_bytes).len();
    assert(len == (addr + num_bytes - start + block_size - 1) / block_size as int);
    assert((addr + num_bytes - start + block_size - 1) / block_size as int <= num_bytes + 1) by (nonlinear_arith)
        requires
            0 <= addr - start < block_size,
            num_bytes > 0,
            block_size > 0,
    {
        assert(addr + num_bytes - start + block_size - 1 < (num_bytes + 2) * block_size);
    }
    assert((addr + num_bytes - start + block_size - 1) / block_size as int >= 1) by (nonlinear_arith)
        requires
            0 <= addr - start,
            num_bytes > 0,
            block_size > 0,
    ;
}

/// A cache never holds more blocks than it has nodes.
pub proof fn lemma_within_capacity(c: &LruCache)
    requires
        c.wf(),
    ensures
        c@.mapped.len() <= c@.blocks.len(),
{
    c.lemma_wf();
    lemma_mapped_len(c@.mapped, c@.blocks);
}

/// `b` holds every member of `a`, which are distinct: `b` is no shorter.
proof fn lemma_covering_len(a: Seq<usize>, b: Seq<usize>)
    requires
        a.no_duplicates(),
        forall|i: int| 0 <= i < a.len() ==> b.contains(#[trigger] a[i]),
    ensures
        a.len() <= b.len(),
{
    a.unique_seq_to_set();
    b.lemma_cardinality_of_set();
    assert(a.to_set().subset_of(b.to_set())) by {
        assert forall|x: usize| a.to_set().contains(x) implies b.to_set().contains(x) by {
            let i = a.index_of(x);
            assert(b.contains(a[i]));
        }
    }
    vstd::set_lib::lemma_len_subset(a.to_set(), b.to_set());
}

} // verus!
