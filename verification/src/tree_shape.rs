//! The shape of a search tree kept in the van Emde Boas layout with room to
//! grow: each slot holds a key and the size of the subtree below it, or is
//! empty. The in-order sequence of the keys, the search path of a key, and
//! what the dynamic tree's operations do to both.

use vstd::prelude::*;
use vstd::arithmetic::power2::*;
use vstd::arithmetic::div_mod::*;
use crate::veb_layout::{vpos, lemma_pow2_small, lemma_vpos_injective, lemma_vpos_bound};
use crate::veb::{
    in_subtree, strictly_increasing, lemma_in_subtree_self, lemma_in_subtree_parent,
    lemma_in_subtree_child,
};

verus! {

/// The slots of a tree: the size of the subtree below a node and its key,
/// or nothing.
pub type Slots = Seq<Option<(usize, u64)>>;

/// The key at the node at depth `d` with path `q`, if the node is there.
pub open spec fn key_at(s: Slots, h: nat, d: nat, q: nat) -> Option<u64> {
    if d < h {
        match s[vpos(h, d, q) as int] {
            Some(e) => Some(e.1),
            None => None,
        }
    } else {
        None
    }
}

/// The node at depth `d` with path `q` is there.
pub open spec fn present(s: Slots, h: nat, d: nat, q: nat) -> bool {
    key_at(s, h, d, q) is Some
}

/// The key of a node that is there.
pub open spec fn key_of(s: Slots, h: nat, d: nat, q: nat) -> u64 {
    key_at(s, h, d, q)->0
}

/// The size that a node that is there records for its subtree.
pub open spec fn count_of(s: Slots, h: nat, d: nat, q: nat) -> nat {
    (s[vpos(h, d, q) as int]->0).0 as nat
}

/// The keys of the subtree below the node at depth `d` with path `q`, in
/// order.
pub open spec fn inorder(s: Slots, h: nat, d: nat, q: nat) -> Seq<u64>
    decreases h - d,
{
    if present(s, h, d, q) {
        inorder(s, h, d + 1, 2 * q) + seq![key_of(s, h, d, q)] + inorder(s, h, d + 1, 2 * q + 1)
    } else {
        Seq::empty()
    }
}

/// The keys of the tree, in order.
pub open spec fn keys(s: Slots, h: nat) -> Seq<u64> {
    inorder(s, h, 0, 0)
}

/// A tree of height `h`: `2^h - 1` slots; every node below the root hangs
/// from a node; every node records the size of its subtree; the keys
/// increase in order.
pub open spec fn tree_ok(s: Slots, h: nat) -> bool {
    &&& s.len() == pow2(h) - 1
    &&& forall|d: nat, q: nat|
        0 < d < h && q < pow2(d) && #[trigger] present(s, h, d, q) ==> present(
            s,
            h,
            (d - 1) as nat,
            q / 2,
        )
    &&& forall|d: nat, q: nat|
        d < h && q < pow2(d) && #[trigger] present(s, h, d, q) ==> count_of(s, h, d, q)
            == inorder(s, h, d, q).len()
    &&& strictly_increasing(keys(s, h))
}

/// Two slot sequences hold the same nodes and keys in the subtree below the
/// node at depth `d` with path `q`.
pub open spec fn same_keys_below(s1: Slots, s2: Slots, h: nat, d: nat, q: nat) -> bool {
    forall|d2: nat, q2: nat|
        in_subtree(d, q, d2, q2) && d2 < h && q2 < pow2(d2) ==> #[trigger] key_at(s1, h, d2, q2)
            == key_at(s2, h, d2, q2)
}

/// The in-order keys of a subtree depend only on its nodes' keys.
pub proof fn lemma_inorder_frame(s1: Slots, s2: Slots, h: nat, d: nat, q: nat)
    requires
        q < pow2(d),
        same_keys_below(s1, s2, h, d, q),
    ensures
        inorder(s1, h, d, q) == inorder(s2, h, d, q),
    decreases h - d,
{
    if d < h {
        lemma_in_subtree_self(d, q);
        assert(key_at(s1, h, d, q) == key_at(s2, h, d, q));
        if present(s1, h, d, q) {
            lemma_child_path(d, q);
            assert forall|c: nat| c < 2 implies #[trigger] same_keys_below(s1, s2, h, d + 1, 2 * q + c) by {
                assert forall|d2: nat, q2: nat|
                    in_subtree(d + 1, 2 * q + c, d2, q2) && d2 < h && q2 < pow2(d2) implies #[trigger] key_at(
                    s1,
                    h,
                    d2,
                    q2,
                ) == key_at(s2, h, d2, q2) by {
                    lemma_in_subtree_parent(d, q, c, d2, q2);
                }
            }
            assert(same_keys_below(s1, s2, h, d + 1, 2 * q + 0));
            assert(same_keys_below(s1, s2, h, d + 1, 2 * q + 1));
            lemma_inorder_frame(s1, s2, h, d + 1, 2 * q);
            lemma_inorder_frame(s1, s2, h, d + 1, 2 * q + 1);
        }
    }
}

/// The children's paths fit their depth.
pub proof fn lemma_child_path(d: nat, q: nat)
    requires
        q < pow2(d),
    ensures
        2 * q < pow2(d + 1),
        2 * q + 1 < pow2(d + 1),
        (2 * q) / 2 == q,
        (2 * q + 1) / 2 == q,
        (2 * q) % 2 == 0,
        (2 * q + 1) % 2 == 1,
{
    lemma_pow2_unfold(d + 1);
}

/// Below a node, the in-order keys of its subtree are those of its left
/// subtree, its key, then those of its right subtree; when they increase,
/// so do both sides', and the key separates them.
pub proof fn lemma_sorted_split(s: Slots, h: nat, d: nat, q: nat)
    requires
        present(s, h, d, q),
        strictly_increasing(inorder(s, h, d, q)),
    ensures
        strictly_increasing(inorder(s, h, d + 1, 2 * q)),
        strictly_increasing(inorder(s, h, d + 1, 2 * q + 1)),
        forall|i: int|
            0 <= i < inorder(s, h, d + 1, 2 * q).len() ==> #[trigger] inorder(s, h, d + 1, 2 * q)[i]
                < key_of(s, h, d, q),
        forall|i: int|
            0 <= i < inorder(s, h, d + 1, 2 * q + 1).len() ==> key_of(s, h, d, q) < #[trigger] inorder(
                s,
                h,
                d + 1,
                2 * q + 1,
            )[i],
{
    let l = inorder(s, h, d + 1, 2 * q);
    let r = inorder(s, h, d + 1, 2 * q + 1);
    let k = key_of(s, h, d, q);
    let all = inorder(s, h, d, q);
    assert(all == l + seq![k] + r);
    assert forall|a: int, b: int| 0 <= a < b < l.len() implies l[a] < l[b] by {
        assert(all[a] == l[a] && all[b] == l[b]);
    }
    assert forall|a: int, b: int| 0 <= a < b < r.len() implies r[a] < r[b] by {
        assert(all[l.len() + 1 + a] == r[a] && all[l.len() + 1 + b] == r[b]);
    }
    assert forall|i: int| 0 <= i < l.len() implies #[trigger] l[i] < k by {
        assert(all[i] == l[i] && all[l.len() as int] == k);
    }
    assert forall|i: int| 0 <= i < r.len() implies k < #[trigger] r[i] by {
        assert(all[l.len() + 1 + i] == r[i] && all[l.len() as int] == k);
    }
}

/// The path that a search for `v` takes down to the node at depth `d` with
/// path `q`: every node above it is there, holds another key, and sends `v`
/// left exactly when `v` is smaller than its key.
pub open spec fn path_ok(s: Slots, h: nat, v: u64, d: nat, q: nat) -> bool
    decreases d,
{
    d == 0 || (path_ok(s, h, v, (d - 1) as nat, q / 2) && present(s, h, (d - 1) as nat, q / 2)
        && key_of(s, h, (d - 1) as nat, q / 2) != v && ((v < key_of(s, h, (d - 1) as nat, q / 2))
        == (q % 2 == 0)))
}

/// Where a search for `v` that has reached depth `d`, path `q`, stops: at
/// the first node on its way that is missing or holds `v`, or at depth `h`,
/// below the last level. At each node it goes left when `v` is smaller than
/// the node's key, else right.
pub open spec fn search_stop(s: Slots, h: nat, v: u64, d: nat, q: nat) -> (nat, nat)
    decreases h - d,
{
    if d >= h || !present(s, h, d, q) || key_of(s, h, d, q) == v {
        (d, q)
    } else {
        search_stop(s, h, v, d + 1, 2 * q + if v < key_of(s, h, d, q) { 0nat } else { 1nat })
    }
}

/// The positions of the slots that a search for `v` from the root reads, in
/// order: one per node it passes, then the one it stops at where that lies
/// within the tree.
pub open spec fn search_slots(s: Slots, h: nat, v: u64) -> Seq<nat> {
    let (d, q) = search_stop(s, h, v, 0, 0);
    Seq::new(if d < h { d + 1 } else { d }, |k: int| path_pos(h, d, q, k))
}

/// The position of the node at depth `k` on the way down to the node at
/// depth `d`, path `q`.
pub open spec fn path_pos(h: nat, d: nat, q: nat, k: int) -> nat {
    vpos(h, k as nat, q / pow2((d - k) as nat))
}

proof fn lemma_search_stop_from(s: Slots, h: nat, v: u64, dd: nat, qq: nat, k: nat)
    requires
        path_ok(s, h, v, dd, qq),
        qq < pow2(dd),
        dd <= h,
        dd >= h || !present(s, h, dd, qq) || key_of(s, h, dd, qq) == v,
        k <= dd,
    ensures
        search_stop(s, h, v, k, qq / pow2((dd - k) as nat)) == (dd, qq),
    decreases dd - k,
{
    if k == dd {
        lemma_pow2_small();
        assert(qq / pow2(0) == qq);
    } else {
        lemma_search_stop_from(s, h, v, dd, qq, k + 1);
        lemma_path_at(s, h, v, dd, qq, k);
        lemma_ancestor_path(dd, qq, k);
        let qk = qq / pow2((dd - k) as nat);
        let c: nat = if v < key_of(s, h, k, qk) { 0 } else { 1 };
        assert(2 * qk + c == qq / pow2((dd - (k + 1)) as nat));
    }
}

/// A search for `v` that follows its path down to depth `dd`, path `qq`,
/// and stops there, is where the search from the root stops.
pub proof fn lemma_search_stop(s: Slots, h: nat, v: u64, dd: nat, qq: nat)
    requires
        path_ok(s, h, v, dd, qq),
        qq < pow2(dd),
        dd <= h,
        dd >= h || !present(s, h, dd, qq) || key_of(s, h, dd, qq) == v,
    ensures
        search_stop(s, h, v, 0, 0) == (dd, qq),
{
    lemma_search_stop_from(s, h, v, dd, qq, 0);
    assert(qq / pow2(dd) == 0) by {
        vstd::arithmetic::power2::lemma_pow2_pos(dd);
        lemma_basic_div(qq as int, pow2(dd) as int);
    }
}

/// Along the search path of `v`, `v` is among the keys exactly when it is
/// in the subtree the path has reached, and that subtree's keys increase.
pub proof fn lemma_path_membership(s: Slots, h: nat, v: u64, d: nat, q: nat)
    requires
        tree_ok(s, h),
        path_ok(s, h, v, d, q),
        q < pow2(d),
    ensures
        keys(s, h).contains(v) == inorder(s, h, d, q).contains(v),
        strictly_increasing(inorder(s, h, d, q)),
    decreases d,
{
    if d == 0 {
        lemma_pow2_small();
        assert(q == 0);
    } else {
        let pd = (d - 1) as nat;
        let pq = q / 2;
        lemma_parent_path(d, q);
        lemma_path_membership(s, h, v, pd, pq);
        lemma_sorted_split(s, h, pd, pq);
        assert(pd + 1 == d);
        let l = inorder(s, h, d, 2 * pq);
        let r = inorder(s, h, d, 2 * pq + 1);
        let k = key_of(s, h, pd, pq);
        assert(inorder(s, h, pd, pq) == l + seq![k] + r);
        assert(strictly_increasing(l));
        assert(strictly_increasing(r));
        if q % 2 == 0 {
            assert(q == 2 * pq);
            if inorder(s, h, pd, pq).contains(v) {
                let i = choose|i: int| 0 <= i < inorder(s, h, pd, pq).len() && inorder(s, h, pd, pq)[i] == v;
                if i >= l.len() {
                    if i == l.len() {
                        assert(false);
                    } else {
                        assert(r[i - l.len() - 1] == v);
                        assert(false);
                    }
                }
                assert(l[i] == v);
            }
            if l.contains(v) {
                let i = choose|i: int| 0 <= i < l.len() && l[i] == v;
                assert(inorder(s, h, pd, pq)[i] == v);
            }
        } else {
            assert(q == 2 * pq + 1);
            if inorder(s, h, pd, pq).contains(v) {
                let i = choose|i: int| 0 <= i < inorder(s, h, pd, pq).len() && inorder(s, h, pd, pq)[i] == v;
                if i <= l.len() {
                    if i == l.len() {
                        assert(false);
                    } else {
                        assert(l[i] == v);
                        assert(false);
                    }
                }
                assert(r[i - l.len() - 1] == v);
            }
            if r.contains(v) {
                let i = choose|i: int| 0 <= i < r.len() && r[i] == v;
                assert(inorder(s, h, pd, pq)[l.len() + 1 + i] == v);
            }
        }
    }
}

/// The parent of a node lies one level up, at half the path.
pub proof fn lemma_parent_path(d: nat, q: nat)
    requires
        d > 0,
        q < pow2(d),
    ensures
        q / 2 < pow2((d - 1) as nat),
        q == 2 * (q / 2) + q % 2,
{
    lemma_pow2_unfold(d);
}


/// `new` is `old` with `v` put in: one key more, still increasing, and
/// holding exactly `old`'s keys and `v`.
pub open spec fn inserted(old: Seq<u64>, new: Seq<u64>, v: u64) -> bool {
    &&& new.len() == old.len() + 1
    &&& strictly_increasing(new)
    &&& forall|x: u64| new.contains(x) == (old.contains(x) || x == v)
}

/// The in-order keys of the subtree below the node at depth `d` with path
/// `q`, with `v` put in where the empty child with path `qa` at depth `h`
/// hangs from a last-level node.
pub open spec fn ext_inorder(s: Slots, h: nat, d: nat, q: nat, v: u64, qa: nat) -> Seq<u64>
    decreases h - d,
{
    if present(s, h, d, q) {
        let lv = if d + 1 == h && 2 * q == qa {
            seq![v]
        } else {
            Seq::empty()
        };
        let rv = if d + 1 == h && 2 * q + 1 == qa {
            seq![v]
        } else {
            Seq::empty()
        };
        lv + ext_inorder(s, h, d + 1, 2 * q, v, qa) + seq![key_of(s, h, d, q)] + rv + ext_inorder(
            s,
            h,
            d + 1,
            2 * q + 1,
            v,
            qa,
        )
    } else {
        Seq::empty()
    }
}

/// The ancestor at depth `k` of the node at depth `dd` with path `qq`.
pub proof fn lemma_ancestor_path(dd: nat, qq: nat, k: nat)
    requires
        k < dd,
        qq < pow2(dd),
    ensures
        qq / pow2((dd - k) as nat) < pow2(k),
        (qq / 2) / pow2((dd - 1 - k) as nat) == qq / pow2((dd - k) as nat),
        qq / pow2((dd - k - 1) as nat) == 2 * (qq / pow2((dd - k) as nat)) + (qq / pow2(
            (dd - k - 1) as nat,
        )) % 2,
        (qq / pow2((dd - k - 1) as nat)) / 2 == qq / pow2((dd - k) as nat),
{
    let m = (dd - k - 1) as nat;
    lemma_pow2_unfold(m + 1);
    lemma_pow2_pos(m);
    lemma_pow2_pos(k);
    lemma_div_denominator(qq as int, pow2(m) as int, 2);
    lemma_div_denominator(qq as int, 2, pow2(m) as int);
    assert(pow2(m) * 2 == 2 * pow2(m));
    lemma_fundamental_div_mod((qq / pow2(m)) as int, 2);
    lemma_pow2_adds(m + 1, k);
    assert(m + 1 + k == dd);
    lemma_multiply_divide_lt(qq as int, pow2(m + 1) as int, pow2(k) as int);
}

/// What the search path of `v` down to depth `dd`, path `qq`, says of the
/// node it passes at depth `k`.
pub proof fn lemma_path_at(s: Slots, h: nat, v: u64, dd: nat, qq: nat, k: nat)
    requires
        path_ok(s, h, v, dd, qq),
        k < dd,
        qq < pow2(dd),
    ensures
        present(s, h, k, qq / pow2((dd - k) as nat)),
        key_of(s, h, k, qq / pow2((dd - k) as nat)) != v,
        (v < key_of(s, h, k, qq / pow2((dd - k) as nat))) == ((qq / pow2((dd - k - 1) as nat)) % 2
            == 0),
        path_ok(s, h, v, k, qq / pow2((dd - k) as nat)),
    decreases dd,
{
    lemma_ancestor_path(dd, qq, k);
    lemma_pow2_small();
    if k == dd - 1 {
        assert(qq / pow2(0) == qq);
    } else {
        lemma_parent_path(dd, qq);
        lemma_path_at(s, h, v, (dd - 1) as nat, qq / 2, k);
        assert((dd - 1 - k) as nat == (dd - k - 1) as nat);
        lemma_ancestor_path((dd - 1) as nat, qq / 2, k);
        assert((qq / 2) / pow2((dd - 1 - k - 1) as nat) == qq / pow2((dd - k - 1) as nat)) by {
            let m = (dd - k - 2) as nat;
            lemma_pow2_unfold(m + 1);
            lemma_pow2_pos(m);
            lemma_div_denominator(qq as int, 2, pow2(m) as int);
        }
    }
}

/// Away from the empty child where `v` goes, putting `v` in changes
/// nothing.
pub proof fn lemma_ext_elsewhere(s: Slots, h: nat, d: nat, q: nat, v: u64, qa: nat)
    requires
        q < pow2(d),
        !in_subtree(d, q, h, qa),
    ensures
        ext_inorder(s, h, d, q, v, qa) == inorder(s, h, d, q),
    decreases h - d,
{
    if present(s, h, d, q) {
        lemma_child_path(d, q);
        lemma_pow2_small();
        if d + 1 == h && (2 * q == qa || 2 * q + 1 == qa) {
            lemma_pow2_unfold(1);
            assert(qa / pow2((h - d) as nat) == q);
        }
        assert forall|c: nat| c < 2 implies !#[trigger] in_subtree(d + 1, 2 * q + c, h, qa) by {
            if in_subtree(d + 1, 2 * q + c, h, qa) {
                lemma_in_subtree_parent(d, q, c, h, qa);
            }
        }
        assert(!in_subtree(d + 1, 2 * q + 0, h, qa));
        lemma_ext_elsewhere(s, h, d + 1, 2 * q, v, qa);
        lemma_ext_elsewhere(s, h, d + 1, 2 * q + 1, v, qa);
    }
}

/// On the search path of `v` down to the empty child with path `qa` at
/// depth `h`, putting `v` in there puts it in the subtree's keys in order.
pub proof fn lemma_ext_on_path(s: Slots, h: nat, v: u64, qa: nat, d: nat)
    requires
        path_ok(s, h, v, h, qa),
        qa < pow2(h),
        d < h,
        strictly_increasing(inorder(s, h, d, qa / pow2((h - d) as nat))),
        !inorder(s, h, d, qa / pow2((h - d) as nat)).contains(v),
    ensures
        inserted(
            inorder(s, h, d, qa / pow2((h - d) as nat)),
            ext_inorder(s, h, d, qa / pow2((h - d) as nat), v, qa),
            v,
        ),
    decreases h - d,
{
    let q = qa / pow2((h - d) as nat);
    lemma_path_at(s, h, v, h, qa, d);
    lemma_ancestor_path(h, qa, d);
    let c = (qa / pow2((h - d - 1) as nat)) % 2;
    let kk = key_of(s, h, d, q);
    lemma_sorted_split(s, h, d, q);
    lemma_child_path(d, q);
    let l = inorder(s, h, d + 1, 2 * q);
    let r = inorder(s, h, d + 1, 2 * q + 1);
    assert(inorder(s, h, d, q) == l + seq![kk] + r);
    let e = ext_inorder(s, h, d, q, v, qa);
    if d + 1 == h {
        lemma_pow2_small();
        assert(qa / pow2(0) == qa);
        assert(qa == 2 * q + c);
        assert(!present(s, h, d + 1, 2 * q) && !present(s, h, d + 1, 2 * q + 1));
        assert(l =~= Seq::<u64>::empty() && r =~= Seq::<u64>::empty());
        assert(ext_inorder(s, h, d + 1, 2 * q, v, qa) =~= Seq::<u64>::empty());
        assert(ext_inorder(s, h, d + 1, 2 * q + 1, v, qa) =~= Seq::<u64>::empty());
        assert(inorder(s, h, d, q) =~= seq![kk]);
        if c == 0 {
            assert(v < kk);
            assert(e =~= seq![v, kk]);
            assert forall|x: u64| e.contains(x) == (seq![kk].contains(x) || x == v) by {
                if e.contains(x) {
                    let i = choose|i: int| 0 <= i < e.len() && e[i] == x;
                }
                if x == v {
                    assert(e[0] == x);
                }
                if seq![kk].contains(x) {
                    assert(seq![kk][0] == x);
                    assert(e[1] == x);
                }
            }
        } else {
            assert(kk < v);
            assert(e =~= seq![kk, v]);
            assert forall|x: u64| e.contains(x) == (seq![kk].contains(x) || x == v) by {
                if e.contains(x) {
                    let i = choose|i: int| 0 <= i < e.len() && e[i] == x;
                }
                if x == v {
                    assert(e[1] == x);
                }
                if seq![kk].contains(x) {
                    assert(seq![kk][0] == x);
                    assert(e[0] == x);
                }
            }
        }
        assert(inserted(inorder(s, h, d, q), e, v));
    } else {
        let cq = 2 * q + c;
        let oq = (2 * q + (1 - c)) as nat;
        assert(qa / pow2((h - (d + 1)) as nat) == cq);
        // the other child does not lead to where v goes
        assert(!in_subtree(d + 1, oq, h, qa)) by {
            if in_subtree(d + 1, oq, h, qa) {
                assert(qa / pow2((h - (d + 1)) as nat) == oq);
            }
        }
        lemma_ext_elsewhere(s, h, d + 1, oq, v, qa);
        let lc = if c == 0 { l } else { r };
        assert(inorder(s, h, d + 1, cq) == lc);
        assert(!lc.contains(v)) by {
            if lc.contains(v) {
                let i = choose|i: int| 0 <= i < lc.len() && lc[i] == v;
                if c == 0 {
                    assert(inorder(s, h, d, q)[i] == v);
                } else {
                    assert(inorder(s, h, d, q)[l.len() + 1 + i] == v);
                }
            }
        }
        lemma_ext_on_path(s, h, v, qa, d + 1);
        let ec = ext_inorder(s, h, d + 1, cq, v, qa);
        assert(inserted(lc, ec, v));
        assert(ext_inorder(s, h, d + 1, oq, v, qa) == inorder(s, h, d + 1, oq));
        if c == 0 {
            assert(e =~= ec + seq![kk] + r);
            assert forall|i: int| 0 <= i < ec.len() implies #[trigger] ec[i] < kk by {
                assert(ec.contains(ec[i]));
                if ec[i] != v {
                    let j = choose|j: int| 0 <= j < l.len() && l[j] == ec[i];
                }
            }
            assert(oq == 2 * q + 1);
            lemma_concat_sorted(ec, kk, r);
            lemma_concat_contains(ec, kk, r);
            lemma_concat_contains(l, kk, r);
            assert(e.len() == inorder(s, h, d, q).len() + 1);
            assert(strictly_increasing(e));
            assert forall|x: u64| e.contains(x) == (inorder(s, h, d, q).contains(x) || x == v) by {
                assert(ec.contains(x) == (l.contains(x) || x == v));
            }
            assert(inserted(inorder(s, h, d, q), e, v));
        } else {
            assert(e =~= l + seq![kk] + ec);
            assert forall|i: int| 0 <= i < ec.len() implies kk < #[trigger] ec[i] by {
                assert(ec.contains(ec[i]));
                if ec[i] != v {
                    let j = choose|j: int| 0 <= j < r.len() && r[j] == ec[i];
                }
            }
            assert(oq == 2 * q);
            lemma_concat_sorted(l, kk, ec);
            lemma_concat_contains(l, kk, ec);
            lemma_concat_contains(l, kk, r);
            assert(e.len() == inorder(s, h, d, q).len() + 1);
            assert(strictly_increasing(e));
            assert forall|x: u64| e.contains(x) == (inorder(s, h, d, q).contains(x) || x == v) by {
                assert(ec.contains(x) == (r.contains(x) || x == v));
            }
            assert(inserted(inorder(s, h, d, q), e, v));
        }
    }
}

/// Increasing sides around a key that separates them increase together.
pub proof fn lemma_concat_sorted(a: Seq<u64>, k: u64, b: Seq<u64>)
    requires
        strictly_increasing(a),
        strictly_increasing(b),
        forall|i: int| 0 <= i < a.len() ==> #[trigger] a[i] < k,
        forall|i: int| 0 <= i < b.len() ==> k < #[trigger] b[i],
    ensures
        strictly_increasing(a + seq![k] + b),
{
    let all = a + seq![k] + b;
    assert forall|x: int, y: int| 0 <= x < y < all.len() implies all[x] < all[y] by {
        if y < a.len() {
        } else if y == a.len() {
            assert(all[x] == a[x]);
        } else if x < a.len() {
            assert(all[x] == a[x] && all[y] == b[y - a.len() - 1]);
            assert(a[x] < k && k < b[y - a.len() - 1]);
        } else if x == a.len() {
            assert(all[y] == b[y - a.len() - 1]);
        } else {
            assert(all[x] == b[x - a.len() - 1] && all[y] == b[y - a.len() - 1]);
        }
    }
}

/// The keys of `a`, `k`, then `b`.
pub proof fn lemma_concat_contains(a: Seq<u64>, k: u64, b: Seq<u64>)
    ensures
        forall|x: u64| (a + seq![k] + b).contains(x) == (a.contains(x) || x == k || b.contains(x)),
{
    let all = a + seq![k] + b;
    assert forall|x: u64| all.contains(x) == (a.contains(x) || x == k || b.contains(x)) by {
        if all.contains(x) {
            let i = choose|i: int| 0 <= i < all.len() && all[i] == x;
            if i < a.len() {
                assert(a[i] == x);
            } else if i > a.len() {
                assert(b[i - a.len() - 1] == x);
            }
        }
        if a.contains(x) {
            let i = choose|i: int| 0 <= i < a.len() && a[i] == x;
            assert(all[i] == x);
        }
        if x == k {
            assert(all[a.len() as int] == x);
        }
        if b.contains(x) {
            let i = choose|i: int| 0 <= i < b.len() && b[i] == x;
            assert(all[a.len() + 1 + i] == x);
        }
    }
}


/// The path of the ancestor at depth `k` of the node at depth `dd` with
/// path `qq`.
pub open spec fn anc(qq: nat, dd: nat, k: nat) -> nat {
    qq / pow2((dd - k) as nat)
}

/// `s2` holds the keys of `s` at every node outside the subtree below the
/// node at depth `dd` with path `qq`.
pub open spec fn same_keys_outside(s: Slots, s2: Slots, h: nat, dd: nat, qq: nat) -> bool {
    forall|d2: nat, q2: nat|
        d2 < h && q2 < pow2(d2) && !in_subtree(dd, qq, d2, q2) ==> #[trigger] key_at(s2, h, d2, q2)
            == key_at(s, h, d2, q2)
}

/// When the keys change only below a node on the search path of `v`, and
/// there `v` is put in, `v` is put in at every node above it up to the root.
pub proof fn lemma_replace_on_path(s: Slots, s2: Slots, h: nat, v: u64, dd: nat, qq: nat)
    requires
        tree_ok(s, h),
        path_ok(s, h, v, dd, qq),
        qq < pow2(dd),
        dd < h,
        same_keys_outside(s, s2, h, dd, qq),
        inserted(inorder(s, h, dd, qq), inorder(s2, h, dd, qq), v),
    ensures
        forall|k: nat|
            k <= dd ==> inserted(
                inorder(s, h, k, anc(qq, dd, k)),
                #[trigger] inorder(s2, h, k, anc(qq, dd, k)),
                v,
            ),
    decreases dd,
{
    lemma_pow2_small();
    assert((dd - dd) as nat == 0nat);
    assert(qq as int / 1 == qq) by (nonlinear_arith);
    assert(anc(qq, dd, dd) == qq);
    if dd > 0 {
        let pd = (dd - 1) as nat;
        let pq = qq / 2;
        lemma_parent_path(dd, qq);
        let c = qq % 2;
        let sq = (2 * pq + (1 - c)) as nat;
        assert(pd + 1 == dd);
        // the parent is outside the subtree, with the same key in both
        assert(!in_subtree(dd, qq, pd, pq));
        assert(key_at(s2, h, pd, pq) == key_at(s, h, pd, pq));
        let kk = key_of(s, h, pd, pq);
        // the sibling's subtree is untouched
        lemma_child_path(pd, pq);
        assert(same_keys_below(s, s2, h, dd, sq)) by {
            assert forall|d2: nat, q2: nat|
                in_subtree(dd, sq, d2, q2) && d2 < h && q2 < pow2(d2) implies #[trigger] key_at(
                s,
                h,
                d2,
                q2,
            ) == key_at(s2, h, d2, q2) by {
                assert(!in_subtree(dd, qq, d2, q2));
            }
        }
        lemma_inorder_frame(s, s2, h, dd, sq);
        lemma_path_membership(s, h, v, pd, pq);
        lemma_sorted_split(s, h, pd, pq);
        let l = inorder(s, h, dd, 2 * pq);
        let r = inorder(s, h, dd, 2 * pq + 1);
        let e = inorder(s2, h, dd, qq);
        assert(inorder(s, h, pd, pq) == l + seq![kk] + r);
        lemma_concat_contains(l, kk, r);
        if c == 0 {
            assert(qq == 2 * pq && sq == 2 * pq + 1);
            assert(inorder(s2, h, pd, pq) == e + seq![kk] + r);
            assert forall|i: int| 0 <= i < e.len() implies #[trigger] e[i] < kk by {
                assert(e.contains(e[i]));
                if e[i] != v {
                    let j = choose|j: int| 0 <= j < l.len() && l[j] == e[i];
                }
            }
            lemma_concat_sorted(e, kk, r);
            lemma_concat_contains(e, kk, r);
        } else {
            assert(qq == 2 * pq + 1 && sq == 2 * pq);
            assert(inorder(s2, h, pd, pq) == l + seq![kk] + e);
            assert forall|i: int| 0 <= i < e.len() implies kk < #[trigger] e[i] by {
                assert(e.contains(e[i]));
                if e[i] != v {
                    let j = choose|j: int| 0 <= j < r.len() && r[j] == e[i];
                }
            }
            lemma_concat_sorted(l, kk, e);
            lemma_concat_contains(l, kk, e);
        }
        let o = inorder(s, h, pd, pq);
        let n2 = inorder(s2, h, pd, pq);
        assert(n2.len() == o.len() + 1);
        assert(strictly_increasing(n2));
        assert forall|x: u64| n2.contains(x) == (o.contains(x) || x == v) by {
            assert(e.contains(x) == (inorder(s, h, dd, qq).contains(x) || x == v));
        }
        assert(inserted(o, n2, v));
        assert(same_keys_outside(s, s2, h, pd, pq)) by {
            assert forall|d2: nat, q2: nat|
                d2 < h && q2 < pow2(d2) && !in_subtree(pd, pq, d2, q2) implies #[trigger] key_at(
                s2,
                h,
                d2,
                q2,
            ) == key_at(s, h, d2, q2) by {
                if in_subtree(dd, qq, d2, q2) {
                    lemma_in_subtree_parent(pd, pq, c, d2, q2);
                }
            }
        }
        lemma_replace_on_path(s, s2, h, v, pd, pq);
        assert forall|k: nat| k <= dd implies inserted(
            inorder(s, h, k, anc(qq, dd, k)),
            #[trigger] inorder(s2, h, k, anc(qq, dd, k)),
            v,
        ) by {
            if k < dd {
                lemma_ancestor_path(dd, qq, k);
                assert(anc(qq, dd, k) == anc(pq, pd, k));
                assert(inserted(
                    inorder(s, h, k, anc(pq, pd, k)),
                    inorder(s2, h, k, anc(pq, pd, k)),
                    v,
                ));
            }
        }
    }
}

/// Two nodes neither of which lies below the other have no node below both.
pub proof fn lemma_subtrees_apart(d: nat, q: nat, dd: nat, qq: nat, d2: nat, q2: nat)
    requires
        !in_subtree(d, q, dd, qq),
        !in_subtree(dd, qq, d, q),
        in_subtree(d, q, d2, q2),
    ensures
        !in_subtree(dd, qq, d2, q2),
{
    if in_subtree(dd, qq, d2, q2) {
        if d <= dd {
            let a = (d2 - dd) as nat;
            let b = (dd - d) as nat;
            lemma_pow2_pos(a);
            lemma_pow2_pos(b);
            lemma_div_denominator(q2 as int, pow2(a) as int, pow2(b) as int);
            lemma_pow2_adds(a, b);
            assert(a + b == d2 - d);
        } else {
            let a = (d2 - d) as nat;
            let b = (d - dd) as nat;
            lemma_pow2_pos(a);
            lemma_pow2_pos(b);
            lemma_div_denominator(q2 as int, pow2(a) as int, pow2(b) as int);
            lemma_pow2_adds(a, b);
            assert(a + b == d2 - dd);
        }
    }
}


/// Subtrees nest.
pub proof fn lemma_in_subtree_trans(d1: nat, q1: nat, d2: nat, q2: nat, d3: nat, q3: nat)
    requires
        in_subtree(d1, q1, d2, q2),
        in_subtree(d2, q2, d3, q3),
    ensures
        in_subtree(d1, q1, d3, q3),
{
    let a = (d3 - d2) as nat;
    let b = (d2 - d1) as nat;
    lemma_pow2_pos(a);
    lemma_pow2_pos(b);
    lemma_div_denominator(q3 as int, pow2(a) as int, pow2(b) as int);
    lemma_pow2_adds(a, b);
    assert(a + b == d3 - d1);
}

/// A child lies below its parent.
pub proof fn lemma_child_in_subtree(d: nat, q: nat, c: nat)
    requires
        c < 2,
    ensures
        in_subtree(d, q, d + 1, 2 * q + c),
{
    lemma_pow2_small();
    assert((d + 1 - d) as nat == 1nat);
}

/// A subtree of height `h - d` holds fewer than `2^(h - d)` keys.
pub proof fn lemma_inorder_len(s: Slots, h: nat, d: nat, q: nat)
    requires
        d <= h,
    ensures
        inorder(s, h, d, q).len() <= pow2((h - d) as nat) - 1,
    decreases h - d,
{
    lemma_pow2_small();
    lemma_pow2_pos((h - d) as nat);
    if present(s, h, d, q) {
        lemma_inorder_len(s, h, d + 1, 2 * q);
        lemma_inorder_len(s, h, d + 1, 2 * q + 1);
        lemma_pow2_unfold((h - d) as nat);
        assert((h - (d + 1)) as nat == ((h - d) as nat - 1) as nat);
    }
}

/// `s2` differs from `s` only in the subtree below the node at depth `dd`
/// with path `qq`, and in the sizes that the nodes above it record, each one
/// more.
pub open spec fn changed_below(s: Slots, s2: Slots, h: nat, dd: nat, qq: nat) -> bool {
    &&& s2.len() == s.len()
    &&& forall|d2: nat, q2: nat|
        d2 < h && q2 < pow2(d2) && !in_subtree(dd, qq, d2, q2) && !in_subtree(d2, q2, dd, qq)
            ==> #[trigger] s2[vpos(h, d2, q2) as int] == s[vpos(h, d2, q2) as int]
    &&& forall|k: nat|
        k < dd ==> #[trigger] s2[vpos(h, k, anc(qq, dd, k)) as int] == Some(
            (
                ((s[vpos(h, k, anc(qq, dd, k)) as int]->0).0 + 1) as usize,
                (s[vpos(h, k, anc(qq, dd, k)) as int]->0).1,
            ),
        )
}

/// Below the node at depth `dd` with path `qq`, every node hangs from its
/// parent and records the size of its subtree.
pub open spec fn subtree_ok(s: Slots, h: nat, dd: nat, qq: nat) -> bool {
    &&& forall|d2: nat, q2: nat|
        dd < d2 < h && q2 < pow2(d2) && in_subtree(dd, qq, d2, q2) && #[trigger] present(
            s,
            h,
            d2,
            q2,
        ) ==> present(s, h, (d2 - 1) as nat, q2 / 2)
    &&& forall|d2: nat, q2: nat|
        d2 < h && q2 < pow2(d2) && in_subtree(dd, qq, d2, q2) && #[trigger] present(s, h, d2, q2)
            ==> count_of(s, h, d2, q2) == inorder(s, h, d2, q2).len()
}

/// A tree stays a tree when the subtree below a node on the search path of
/// `v` is rebuilt with `v` put in, and each node above records one more.
pub proof fn lemma_rebuild(s: Slots, s2: Slots, h: nat, v: u64, dd: nat, qq: nat)
    requires
        tree_ok(s, h),
        s.len() <= usize::MAX,
        path_ok(s, h, v, dd, qq),
        qq < pow2(dd),
        dd < h,
        changed_below(s, s2, h, dd, qq),
        subtree_ok(s2, h, dd, qq),
        present(s2, h, dd, qq),
        inserted(inorder(s, h, dd, qq), inorder(s2, h, dd, qq), v),
    ensures
        tree_ok(s2, h),
        inserted(keys(s, h), keys(s2, h), v),
{
    lemma_pow2_small();
    // the ancestors are there in s, and keep their keys
    assert forall|k: nat| k < dd implies #[trigger] present(s, h, k, anc(qq, dd, k)) && key_at(
        s2,
        h,
        k,
        anc(qq, dd, k),
    ) == key_at(s, h, k, anc(qq, dd, k)) && present(s2, h, k, anc(qq, dd, k)) by {
        lemma_path_at(s, h, v, dd, qq, k);
        lemma_ancestor_path(dd, qq, k);
        assert(s2[vpos(h, k, anc(qq, dd, k)) as int] == Some(
            (
                ((s[vpos(h, k, anc(qq, dd, k)) as int]->0).0 + 1) as usize,
                (s[vpos(h, k, anc(qq, dd, k)) as int]->0).1,
            ),
        ));
    }
    // a node above (dd, qq) is an ancestor
    assert forall|d2: nat, q2: nat|
        d2 < h && q2 < pow2(d2) && in_subtree(d2, q2, dd, qq) && d2 < dd implies q2 == anc(
        qq,
        dd,
        d2,
    ) by {}
    assert(same_keys_outside(s, s2, h, dd, qq)) by {
        assert forall|d2: nat, q2: nat|
            d2 < h && q2 < pow2(d2) && !in_subtree(dd, qq, d2, q2) implies #[trigger] key_at(
            s2,
            h,
            d2,
            q2,
        ) == key_at(s, h, d2, q2) by {
            if in_subtree(d2, q2, dd, qq) {
                if d2 == dd {
                    assert(q2 == qq);
                    lemma_in_subtree_self(dd, qq);
                }
                assert(q2 == anc(qq, dd, d2));
                assert(present(s, h, d2, anc(qq, dd, d2)));
            }
        }
    }
    lemma_replace_on_path(s, s2, h, v, dd, qq);
    assert(anc(qq, dd, 0) == 0) by {
        if dd > 0 {
            lemma_ancestor_path(dd, qq, 0);
            assert(anc(qq, dd, 0) < pow2(0));
        } else {
            assert(qq as int / 1 == qq) by (nonlinear_arith);
        }
    }
    assert(inorder(s2, h, 0, anc(qq, dd, 0)) == keys(s2, h));
    // no holes
    assert forall|d2: nat, q2: nat|
        0 < d2 < h && q2 < pow2(d2) && #[trigger] present(s2, h, d2, q2) implies present(
        s2,
        h,
        (d2 - 1) as nat,
        q2 / 2,
    ) by {
        let pd = (d2 - 1) as nat;
        let pq = q2 / 2;
        lemma_parent_path(d2, q2);
        lemma_child_in_subtree(pd, pq, q2 % 2);
        if in_subtree(dd, qq, d2, q2) {
            if d2 == dd {
                assert(q2 == qq);
                lemma_ancestor_path(dd, qq, pd);
                assert(pq == anc(qq, dd, pd));
            }
        } else if in_subtree(d2, q2, dd, qq) {
            lemma_in_subtree_trans(pd, pq, d2, q2, dd, qq);
            assert(pq == anc(qq, dd, pd));
        } else {
            assert(s2[vpos(h, d2, q2) as int] == s[vpos(h, d2, q2) as int]);
            assert(present(s, h, d2, q2));
            assert(present(s, h, pd, pq));
            if in_subtree(dd, qq, pd, pq) {
                lemma_in_subtree_trans(dd, qq, pd, pq, d2, q2);
            } else if in_subtree(pd, pq, dd, qq) {
                if pd == dd {
                    lemma_in_subtree_self(dd, qq);
                    assert(pq == qq);
                    lemma_in_subtree_trans(dd, qq, pd, pq, d2, q2);
                }
                assert(pq == anc(qq, dd, pd));
            } else {
                assert(s2[vpos(h, pd, pq) as int] == s[vpos(h, pd, pq) as int]);
            }
        }
    }
    // sizes
    assert forall|d2: nat, q2: nat|
        d2 < h && q2 < pow2(d2) && #[trigger] present(s2, h, d2, q2) implies count_of(s2, h, d2, q2)
        == inorder(s2, h, d2, q2).len() by {
        if in_subtree(dd, qq, d2, q2) {
        } else if in_subtree(d2, q2, dd, qq) {
            if d2 == dd {
                lemma_in_subtree_self(dd, qq);
                assert(q2 == qq);
            }
            assert(q2 == anc(qq, dd, d2));
            assert(present(s, h, d2, q2));
            assert(count_of(s, h, d2, q2) == inorder(s, h, d2, q2).len());
            assert(inserted(inorder(s, h, d2, anc(qq, dd, d2)), inorder(s2, h, d2, anc(qq, dd, d2)), v));
            lemma_inorder_len(s2, h, d2, q2);
            lemma_pow2_sub_bound(h, d2);
            assert(inorder(s, h, d2, q2).len() + 1 <= usize::MAX);
        } else {
            assert(same_keys_below(s, s2, h, d2, q2)) by {
                assert forall|d3: nat, q3: nat|
                    in_subtree(d2, q2, d3, q3) && d3 < h && q3 < pow2(d3) implies #[trigger] key_at(
                    s,
                    h,
                    d3,
                    q3,
                ) == key_at(s2, h, d3, q3) by {
                    lemma_subtrees_apart(d2, q2, dd, qq, d3, q3);
                    if in_subtree(d3, q3, dd, qq) {
                        lemma_in_subtree_trans(d2, q2, d3, q3, dd, qq);
                    }
                    assert(s2[vpos(h, d3, q3) as int] == s[vpos(h, d3, q3) as int]);
                }
            }
            lemma_inorder_frame(s, s2, h, d2, q2);
            assert(s2[vpos(h, d2, q2) as int] == s[vpos(h, d2, q2) as int]);
        }
    }
}

/// A subtree has room for no more nodes than the whole tree.
proof fn lemma_pow2_sub_bound(h: nat, d: nat)
    requires
        d < h,
    ensures
        pow2((h - d) as nat) <= pow2(h),
{
    if d > 0 {
        lemma_pow2_strictly_increases((h - d) as nat, h);
    }
}


/// Putting `v` in below a subtree depends only on its nodes' keys.
pub proof fn lemma_ext_frame(s1: Slots, s2: Slots, h: nat, d: nat, q: nat, v: u64, qa: nat)
    requires
        q < pow2(d),
        same_keys_below(s1, s2, h, d, q),
    ensures
        ext_inorder(s1, h, d, q, v, qa) == ext_inorder(s2, h, d, q, v, qa),
    decreases h - d,
{
    if d < h {
        lemma_in_subtree_self(d, q);
        assert(key_at(s1, h, d, q) == key_at(s2, h, d, q));
        if present(s1, h, d, q) {
            lemma_child_path(d, q);
            assert forall|c: nat| c < 2 implies #[trigger] same_keys_below(s1, s2, h, d + 1, 2 * q + c) by {
                assert forall|d2: nat, q2: nat|
                    in_subtree(d + 1, 2 * q + c, d2, q2) && d2 < h && q2 < pow2(d2) implies #[trigger] key_at(
                    s1,
                    h,
                    d2,
                    q2,
                ) == key_at(s2, h, d2, q2) by {
                    lemma_in_subtree_parent(d, q, c, d2, q2);
                }
            }
            assert(same_keys_below(s1, s2, h, d + 1, 2 * q + 0));
            lemma_ext_frame(s1, s2, h, d + 1, 2 * q, v, qa);
            lemma_ext_frame(s1, s2, h, d + 1, 2 * q + 1, v, qa);
        }
    }
}

/// Every node below the root hangs from its parent.
pub open spec fn no_holes(s: Slots, h: nat) -> bool {
    forall|d: nat, q: nat|
        0 < d < h && q < pow2(d) && #[trigger] present(s, h, d, q) ==> present(
            s,
            h,
            (d - 1) as nat,
            q / 2,
        )
}

/// Below a node that is not there, no node is.
pub proof fn lemma_absent_below(s: Slots, h: nat, d: nat, q: nat, d2: nat, q2: nat)
    requires
        no_holes(s, h),
        !present(s, h, d, q),
        in_subtree(d, q, d2, q2),
        q2 < pow2(d2),
    ensures
        !present(s, h, d2, q2),
    decreases d2 - d,
{
    if d2 > d && d2 < h {
        lemma_parent_path(d2, q2);
        let pd = (d2 - 1) as nat;
        let pq = q2 / 2;
        assert(in_subtree(d, q, pd, pq)) by {
            let k = (d2 - d - 1) as nat;
            lemma_pow2_unfold(k + 1);
            lemma_pow2_pos(k);
            lemma_div_denominator(q2 as int, 2, pow2(k) as int);
        }
        lemma_absent_below(s, h, d, q, pd, pq);
    } else if d2 == d {
        lemma_pow2_small();
        assert(q2 / pow2(0) == q2) by {
            assert(q2 as int / 1 == q2) by (nonlinear_arith);
        }
    }
}

/// A subtree's in-order keys put together as those of its left subtree, its
/// key, and those of its right subtree, with `v` where it goes.
pub proof fn lemma_ext_parts(s: Slots, h: nat, d: nat, q: nat, v: u64, qa: nat)
    requires
        present(s, h, d, q),
    ensures
        ext_inorder(s, h, d, q, v, qa) == (if d + 1 == h && 2 * q == qa {
            seq![v]
        } else {
            Seq::<u64>::empty()
        }) + ext_inorder(s, h, d + 1, 2 * q, v, qa) + seq![key_of(s, h, d, q)] + (if d + 1 == h && 2
            * q + 1 == qa {
            seq![v]
        } else {
            Seq::<u64>::empty()
        }) + ext_inorder(s, h, d + 1, 2 * q + 1, v, qa),
{
}


/// Two slot sequences agree on every slot of the subtree below the node at
/// depth `d` with path `q`.
pub open spec fn same_slots_below(s1: Slots, s2: Slots, h: nat, d: nat, q: nat) -> bool {
    forall|d2: nat, q2: nat|
        #![trigger s1[vpos(h, d2, q2) as int]]
        #![trigger s2[vpos(h, d2, q2) as int]]
        in_subtree(d, q, d2, q2) && d2 < h && q2 < pow2(d2) ==> s1[vpos(h, d2, q2) as int]
            == s2[vpos(h, d2, q2) as int]
}

/// Every slot of the subtree below the node at depth `d` with path `q` is
/// empty.
pub open spec fn subtree_empty(s: Slots, h: nat, d: nat, q: nat) -> bool {
    forall|d2: nat, q2: nat|
        in_subtree(d, q, d2, q2) && d2 < h && q2 < pow2(d2) ==> #[trigger] s[vpos(h, d2, q2) as int]
            is None
}

/// The parent of a node strictly below another node is in that node's
/// subtree too.
pub proof fn lemma_parent_in_subtree(d: nat, q: nat, d2: nat, q2: nat)
    requires
        in_subtree(d, q, d2, q2),
        d < d2,
    ensures
        in_subtree(d, q, (d2 - 1) as nat, q2 / 2),
{
    let k = (d2 - d - 1) as nat;
    lemma_pow2_unfold(k + 1);
    lemma_pow2_pos(k);
    lemma_div_denominator(q2 as int, 2, pow2(k) as int);
}

/// What a subtree's keys, sizes and shape say depends only on its slots.
pub proof fn lemma_slots_frame(s1: Slots, s2: Slots, h: nat, d: nat, q: nat)
    requires
        q < pow2(d),
        same_slots_below(s1, s2, h, d, q),
    ensures
        same_keys_below(s1, s2, h, d, q),
        inorder(s1, h, d, q) == inorder(s2, h, d, q),
        subtree_ok(s1, h, d, q) ==> subtree_ok(s2, h, d, q),
        present(s1, h, d, q) == present(s2, h, d, q),
{
    lemma_in_subtree_self(d, q);
    assert forall|d2: nat, q2: nat|
        in_subtree(d, q, d2, q2) && d2 < h && q2 < pow2(d2) implies #[trigger] key_at(s1, h, d2, q2)
        == key_at(s2, h, d2, q2) by {
        assert(s1[vpos(h, d2, q2) as int] == s2[vpos(h, d2, q2) as int]);
    }
    lemma_inorder_frame(s1, s2, h, d, q);
    if subtree_ok(s1, h, d, q) {
        assert forall|d2: nat, q2: nat|
            d < d2 < h && q2 < pow2(d2) && in_subtree(d, q, d2, q2) && #[trigger] present(
                s2,
                h,
                d2,
                q2,
            ) implies present(s2, h, (d2 - 1) as nat, q2 / 2) by {
            assert(key_at(s1, h, d2, q2) == key_at(s2, h, d2, q2));
            assert(present(s1, h, d2, q2));
            lemma_parent_path(d2, q2);
            lemma_parent_in_subtree(d, q, d2, q2);
            assert(present(s1, h, (d2 - 1) as nat, q2 / 2));
            assert(key_at(s1, h, (d2 - 1) as nat, q2 / 2) == key_at(s2, h, (d2 - 1) as nat, q2 / 2));
        }
        assert forall|d2: nat, q2: nat|
            d2 < h && q2 < pow2(d2) && in_subtree(d, q, d2, q2) && #[trigger] present(s2, h, d2, q2)
                implies count_of(s2, h, d2, q2) == inorder(s2, h, d2, q2).len() by {
            assert(key_at(s1, h, d2, q2) == key_at(s2, h, d2, q2));
            assert(s1[vpos(h, d2, q2) as int] == s2[vpos(h, d2, q2) as int]);
            assert forall|d3: nat, q3: nat|
                in_subtree(d2, q2, d3, q3) && d3 < h && q3 < pow2(d3) implies #[trigger] key_at(
                s1,
                h,
                d3,
                q3,
            ) == key_at(s2, h, d3, q3) by {
                lemma_in_subtree_trans(d, q, d2, q2, d3, q3);
                assert(key_at(s1, h, d3, q3) == key_at(s2, h, d3, q3));
            }
            lemma_inorder_frame(s1, s2, h, d2, q2);
        }
    }
}

/// A node that is there, records the size of its subtree, and whose two
/// children's subtrees are in order, heads a subtree in order.
pub proof fn lemma_subtree_ok_join(s: Slots, h: nat, d: nat, q: nat)
    requires
        q < pow2(d),
        d < h,
        present(s, h, d, q),
        count_of(s, h, d, q) == inorder(s, h, d, q).len(),
        subtree_ok(s, h, d + 1, 2 * q),
        subtree_ok(s, h, d + 1, 2 * q + 1),
    ensures
        subtree_ok(s, h, d, q),
{
    lemma_child_path(d, q);
    assert forall|d2: nat, q2: nat|
        d < d2 < h && q2 < pow2(d2) && in_subtree(d, q, d2, q2) && #[trigger] present(s, h, d2, q2)
            implies present(s, h, (d2 - 1) as nat, q2 / 2) by {
        lemma_in_subtree_child(d, q, d2, q2);
        let c = (q2 / pow2((d2 - d - 1) as nat)) % 2;
        if d2 == d + 1 {
            lemma_pow2_small();
            assert(q2 / pow2(0) == q2);
            assert(q2 / 2 == q);
        } else if c == 0 {
            assert(in_subtree(d + 1, 2 * q + 0, d2, q2));
        } else {
            assert(in_subtree(d + 1, 2 * q + 1, d2, q2));
        }
    }
    assert forall|d2: nat, q2: nat|
        d2 < h && q2 < pow2(d2) && in_subtree(d, q, d2, q2) && #[trigger] present(s, h, d2, q2)
            implies count_of(s, h, d2, q2) == inorder(s, h, d2, q2).len() by {
        if d2 == d {
            lemma_pow2_small();
            assert(q2 / pow2(0) == q2);
        } else {
            lemma_in_subtree_child(d, q, d2, q2);
            let c = (q2 / pow2((d2 - d - 1) as nat)) % 2;
            if c == 0 {
                assert(in_subtree(d + 1, 2 * q + 0, d2, q2));
            } else {
                assert(in_subtree(d + 1, 2 * q + 1, d2, q2));
            }
        }
    }
}


/// No node lies below both children of a node.
pub proof fn lemma_siblings_apart(d: nat, q: nat, d2: nat, q2: nat)
    ensures
        !(in_subtree(d + 1, 2 * q, d2, q2) && in_subtree(d + 1, 2 * q + 1, d2, q2)),
{
    lemma_pow2_small();
    assert((2 * q + 1) / pow2(0) == 2 * q + 1);
    assert((2 * q) / pow2(0) == 2 * q);
    if in_subtree(d + 1, 2 * q, d2, q2) {
        lemma_subtrees_apart(d + 1, 2 * q, d + 1, 2 * q + 1, d2, q2);
    }
}


/// `s2` agrees with `s1` on every slot outside the subtree below the node
/// at depth `d` with path `q`.
pub open spec fn same_slots_outside(s1: Slots, s2: Slots, h: nat, d: nat, q: nat) -> bool {
    forall|d2: nat, q2: nat|
        d2 < h && q2 < pow2(d2) && !in_subtree(d, q, d2, q2) ==> #[trigger] s2[vpos(h, d2, q2) as int]
            == s1[vpos(h, d2, q2) as int]
}

/// Filling an empty subtree: once its two children's subtrees hold `l` and
/// `r` in order, writing the node with key `k` and size `|l| + 1 + |r|`
/// gives a subtree in order holding `l`, `k`, `r`, and leaves every slot
/// outside it as it was.
pub proof fn lemma_join_children(
    t0: Slots,
    t1: Slots,
    t2: Slots,
    h: nat,
    d: nat,
    q: nat,
    l: Seq<u64>,
    k: u64,
    r: Seq<u64>,
    size: usize,
)
    requires
        d < h,
        q < pow2(d),
        t0.len() == pow2(h) - 1,
        subtree_empty(t0, h, d, q),
        t1.len() == t0.len(),
        inorder(t1, h, d + 1, 2 * q) == l,
        subtree_ok(t1, h, d + 1, 2 * q),
        same_slots_outside(t0, t1, h, d + 1, 2 * q),
        t2.len() == t0.len(),
        inorder(t2, h, d + 1, 2 * q + 1) == r,
        subtree_ok(t2, h, d + 1, 2 * q + 1),
        same_slots_outside(t1, t2, h, d + 1, 2 * q + 1),
        size == l.len() + 1 + r.len(),
    ensures
        ({
            let t3 = t2.update(vpos(h, d, q) as int, Some((size, k)));
            &&& inorder(t3, h, d, q) == l + seq![k] + r
            &&& subtree_ok(t3, h, d, q)
            &&& present(t3, h, d, q)
            &&& same_slots_outside(t0, t3, h, d, q)
        }),
{
    let pos = vpos(h, d, q);
    let t3 = t2.update(pos as int, Some((size, k)));
    lemma_vpos_bound(h, d, q);
    lemma_child_path(d, q);
    lemma_pow2_small();
    // the node's own slot lies in neither child's subtree
    assert forall|d2: nat, q2: nat|
        d2 < h && q2 < pow2(d2) && vpos(h, d2, q2) == pos implies d2 == d && q2 == q by {
        lemma_vpos_injective(h, d2, q2, d, q);
    }
    assert forall|d2: nat, q2: nat|
        #![trigger t1[vpos(h, d2, q2) as int]]
        #![trigger t3[vpos(h, d2, q2) as int]]
        in_subtree(d + 1, 2 * q, d2, q2) && d2 < h && q2 < pow2(d2) implies t1[vpos(
        h,
        d2,
        q2,
    ) as int] == t3[vpos(h, d2, q2) as int] by {
        lemma_vpos_bound(h, d2, q2);
        lemma_siblings_apart(d, q, d2, q2);
        assert(t2[vpos(h, d2, q2) as int] == t1[vpos(h, d2, q2) as int]);
        if vpos(h, d2, q2) == pos {
            assert(d2 == d);
        }
    }
    lemma_slots_frame(t1, t3, h, d + 1, 2 * q);
    assert forall|d2: nat, q2: nat|
        #![trigger t2[vpos(h, d2, q2) as int]]
        #![trigger t3[vpos(h, d2, q2) as int]]
        in_subtree(d + 1, 2 * q + 1, d2, q2) && d2 < h && q2 < pow2(d2) implies t2[vpos(
        h,
        d2,
        q2,
    ) as int] == t3[vpos(h, d2, q2) as int] by {
        lemma_vpos_bound(h, d2, q2);
        if vpos(h, d2, q2) == pos {
            assert(d2 == d);
        }
    }
    lemma_slots_frame(t2, t3, h, d + 1, 2 * q + 1);
    assert(present(t3, h, d, q));
    assert(key_of(t3, h, d, q) == k);
    assert(count_of(t3, h, d, q) == inorder(t3, h, d, q).len());
    lemma_subtree_ok_join(t3, h, d, q);
    assert forall|d2: nat, q2: nat|
        d2 < h && q2 < pow2(d2) && !in_subtree(d, q, d2, q2) implies #[trigger] t3[vpos(
        h,
        d2,
        q2,
    ) as int] == t0[vpos(h, d2, q2) as int] by {
        lemma_vpos_bound(h, d2, q2);
        if in_subtree(d + 1, 2 * q, d2, q2) {
            lemma_in_subtree_parent(d, q, 0, d2, q2);
        }
        if in_subtree(d + 1, 2 * q + 1, d2, q2) {
            lemma_in_subtree_parent(d, q, 1, d2, q2);
        }
        if vpos(h, d2, q2) == pos {
            assert(d2 == d && q2 == q);
            lemma_in_subtree_self(d, q);
        }
        assert(t2[vpos(h, d2, q2) as int] == t1[vpos(h, d2, q2) as int]);
    }
}


/// `s` with the stretch from `at` on overwritten by `e`.
pub open spec fn splice(s: Seq<u64>, at: int, e: Seq<u64>) -> Seq<u64> {
    s.subrange(0, at) + e + s.subrange(at + e.len(), s.len() as int)
}

/// Overwriting with nothing changes nothing.
pub proof fn lemma_splice_empty(s: Seq<u64>, at: int)
    requires
        0 <= at <= s.len(),
    ensures
        splice(s, at, Seq::empty()) == s,
{
    assert(splice(s, at, Seq::empty()) =~= s);
}

/// Overwriting a stretch, then the stretch right after it, overwrites both.
pub proof fn lemma_splice_concat(s: Seq<u64>, at: int, a: Seq<u64>, b: Seq<u64>)
    requires
        0 <= at,
        at + a.len() + b.len() <= s.len(),
    ensures
        splice(splice(s, at, a), at + a.len(), b) == splice(s, at, a + b),
{
    assert(splice(splice(s, at, a), at + a.len(), b) =~= splice(s, at, a + b));
}

/// Writing one more word after an overwritten stretch extends it.
pub proof fn lemma_splice_push(s: Seq<u64>, at: int, a: Seq<u64>, x: u64)
    requires
        0 <= at,
        at + a.len() + 1 <= s.len(),
    ensures
        splice(s, at, a).update(at + a.len(), x) == splice(s, at, a.push(x)),
        splice(s, at, a).len() == s.len(),
{
    assert(splice(s, at, a).update(at + a.len(), x) =~= splice(s, at, a.push(x)));
}

/// Below the node at depth `d` with path `q`, every node that is there
/// hangs from its parent.
pub open spec fn hangs_below(s: Slots, h: nat, d: nat, q: nat) -> bool {
    forall|d2: nat, q2: nat|
        d < d2 < h && q2 < pow2(d2) && in_subtree(d, q, d2, q2) && #[trigger] present(s, h, d2, q2)
            ==> present(s, h, (d2 - 1) as nat, q2 / 2)
}

/// Below a node that is not there, in a subtree where nodes hang from their
/// parents, every slot is empty.
pub proof fn lemma_absent_subtree(s: Slots, h: nat, d: nat, q: nat)
    requires
        q < pow2(d),
        hangs_below(s, h, d, q),
        !present(s, h, d, q),
    ensures
        subtree_empty(s, h, d, q),
{
    assert forall|d2: nat, q2: nat|
        in_subtree(d, q, d2, q2) && d2 < h && q2 < pow2(d2) implies #[trigger] s[vpos(h, d2, q2) as int]
        is None by {
        lemma_absent_subtree_at(s, h, d, q, d2, q2);
    }
}

proof fn lemma_absent_subtree_at(s: Slots, h: nat, d: nat, q: nat, d2: nat, q2: nat)
    requires
        q < pow2(d),
        hangs_below(s, h, d, q),
        !present(s, h, d, q),
        in_subtree(d, q, d2, q2),
        d2 < h,
        q2 < pow2(d2),
    ensures
        !present(s, h, d2, q2),
        s[vpos(h, d2, q2) as int] is None,
    decreases d2 - d,
{
    if d2 == d {
        lemma_pow2_small();
        assert(q2 / pow2(0) == q2);
    } else {
        lemma_parent_path(d2, q2);
        lemma_parent_in_subtree(d, q, d2, q2);
        lemma_absent_subtree_at(s, h, d, q, (d2 - 1) as nat, q2 / 2);
        if present(s, h, d2, q2) {
            assert(present(s, h, (d2 - 1) as nat, q2 / 2));
        }
    }
    assert(key_at(s, h, d2, q2) is None);
}

/// A subtree in order is in order below each of its nodes' children.
pub proof fn lemma_subtree_ok_child(s: Slots, h: nat, d: nat, q: nat, c: nat)
    requires
        c < 2,
        subtree_ok(s, h, d, q),
    ensures
        subtree_ok(s, h, d + 1, 2 * q + c),
        hangs_below(s, h, d + 1, 2 * q + c),
{
    assert forall|d2: nat, q2: nat| in_subtree(d + 1, 2 * q + c, d2, q2) implies #[trigger] in_subtree(
        d,
        q,
        d2,
        q2,
    ) by {
        lemma_in_subtree_parent(d, q, c, d2, q2);
    }
}

/// A subtree in order hangs together.
pub proof fn lemma_subtree_ok_hangs(s: Slots, h: nat, d: nat, q: nat)
    requires
        subtree_ok(s, h, d, q),
    ensures
        hangs_below(s, h, d, q),
{
}

/// Breadth-first numbers name nodes one to one.
pub proof fn lemma_bfs_eq(d1: nat, q1: nat, d2: nat, q2: nat)
    requires
        q1 < pow2(d1),
        q2 < pow2(d2),
    ensures
        (pow2(d1) + q1 == pow2(d2) + q2) == (d1 == d2 && q1 == q2),
{
    if d1 < d2 {
        lemma_pow2_unfold(d1 + 1);
        if d1 + 1 < d2 {
            lemma_pow2_strictly_increases(d1 + 1, d2);
        }
    } else if d2 < d1 {
        lemma_pow2_unfold(d2 + 1);
        if d2 + 1 < d1 {
            lemma_pow2_strictly_increases(d2 + 1, d1);
        }
    }
}

/// Emptying an in-order subtree: once the left child's subtree is emptied,
/// the node taken out, and the right child's subtree emptied, the whole
/// subtree is empty and every slot outside it is as it was.
pub proof fn lemma_clear_children(t0: Slots, t1: Slots, t3: Slots, h: nat, d: nat, q: nat)
    requires
        d < h,
        q < pow2(d),
        t0.len() == pow2(h) - 1,
        t1.len() == t0.len(),
        subtree_empty(t1, h, d + 1, 2 * q),
        same_slots_outside(t0, t1, h, d + 1, 2 * q),
        t3.len() == t0.len(),
        subtree_empty(t3, h, d + 1, 2 * q + 1),
        same_slots_outside(t1.update(vpos(h, d, q) as int, None), t3, h, d + 1, 2 * q + 1),
    ensures
        subtree_empty(t3, h, d, q),
        same_slots_outside(t0, t3, h, d, q),
{
    let pos = vpos(h, d, q);
    let t2 = t1.update(pos as int, None);
    lemma_vpos_bound(h, d, q);
    lemma_child_path(d, q);
    lemma_pow2_small();
    assert forall|d2: nat, q2: nat|
        d2 < h && q2 < pow2(d2) && vpos(h, d2, q2) == pos implies d2 == d && q2 == q by {
        lemma_vpos_injective(h, d2, q2, d, q);
    }
    assert forall|d2: nat, q2: nat|
        in_subtree(d, q, d2, q2) && d2 < h && q2 < pow2(d2) implies #[trigger] t3[vpos(h, d2, q2) as int]
        is None by {
        lemma_vpos_bound(h, d2, q2);
        if d2 == d {
            assert(q2 / pow2(0) == q2);
            lemma_pow2_small();
            assert(!in_subtree(d + 1, 2 * q + 1, d2, q2));
        } else {
            lemma_in_subtree_child(d, q, d2, q2);
            let c = (q2 / pow2((d2 - d - 1) as nat)) % 2;
            if c == 0 {
                assert(in_subtree(d + 1, 2 * q + 0, d2, q2));
                lemma_siblings_apart(d, q, d2, q2);
                assert(t1[vpos(h, d2, q2) as int] is None);
                if vpos(h, d2, q2) == pos {
                    assert(d2 == d);
                }
                assert(t2[vpos(h, d2, q2) as int] is None);
            } else {
                assert(in_subtree(d + 1, 2 * q + 1, d2, q2));
            }
        }
    }
    assert forall|d2: nat, q2: nat|
        d2 < h && q2 < pow2(d2) && !in_subtree(d, q, d2, q2) implies #[trigger] t3[vpos(
        h,
        d2,
        q2,
    ) as int] == t0[vpos(h, d2, q2) as int] by {
        lemma_vpos_bound(h, d2, q2);
        if in_subtree(d + 1, 2 * q, d2, q2) {
            lemma_in_subtree_parent(d, q, 0, d2, q2);
        }
        if in_subtree(d + 1, 2 * q + 1, d2, q2) {
            lemma_in_subtree_parent(d, q, 1, d2, q2);
        }
        if vpos(h, d2, q2) == pos {
            assert(d2 == d && q2 == q);
            lemma_in_subtree_self(d, q);
        }
        assert(t2[vpos(h, d2, q2) as int] == t1[vpos(h, d2, q2) as int]);
    }
}


/// Emptying the left child's subtree and taking the node out leaves the
/// right child's subtree as it was.
pub proof fn lemma_right_untouched(t0: Slots, t1: Slots, h: nat, d: nat, q: nat)
    requires
        d < h,
        q < pow2(d),
        t0.len() == pow2(h) - 1,
        t1.len() == t0.len(),
        same_slots_outside(t0, t1, h, d + 1, 2 * q),
    ensures
        same_slots_below(t0, t1.update(vpos(h, d, q) as int, None), h, d + 1, 2 * q + 1),
{
    let pos = vpos(h, d, q);
    let t2 = t1.update(pos as int, None);
    lemma_vpos_bound(h, d, q);
    assert forall|d2: nat, q2: nat|
        #![trigger t0[vpos(h, d2, q2) as int]]
        #![trigger t2[vpos(h, d2, q2) as int]]
        in_subtree(d + 1, 2 * q + 1, d2, q2) && d2 < h && q2 < pow2(d2) implies t0[vpos(
        h,
        d2,
        q2,
    ) as int] == t2[vpos(h, d2, q2) as int] by {
        lemma_vpos_bound(h, d2, q2);
        lemma_siblings_apart(d, q, d2, q2);
        assert(t1[vpos(h, d2, q2) as int] == t0[vpos(h, d2, q2) as int]);
        if vpos(h, d2, q2) == pos {
            lemma_vpos_injective(h, d2, q2, d, q);
        }
    }
}

} // verus!
