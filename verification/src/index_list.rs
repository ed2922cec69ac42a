//! A doubly linked list of node indices `0 .. capacity`, kept in two arrays of
//! links, with constant-time insertion at either end, removal at the back,
//! and removal of any member.

use vstd::prelude::*;

verus! {

/// The link value that marks "no node".
pub const NIL: usize = usize::MAX;

/// A sequence of distinct indices below `cap` has at most `cap` members.
pub proof fn lemma_distinct_below(s: Seq<usize>, cap: nat)
    requires
        s.no_duplicates(),
        forall|i: int| 0 <= i < s.len() ==> #[trigger] s[i] < cap,
    ensures
        s.len() <= cap,
    decreases cap,
{
    if cap == 0 {
        if s.len() > 0 {
            assert(s[0] < 0);
        }
    } else {
        let top = (cap - 1) as usize;
        let s2 = if s.contains(top) {
            s.remove(s.index_of(top))
        } else {
            s
        };
        if s.contains(top) {
            let k = s.index_of(top);
            assert forall|i: int, j: int| 0 <= i < j < s2.len() implies s2[i] != s2[j] by {
                let oi = if i < k { i } else { i + 1 };
                let oj = if j < k { j } else { j + 1 };
                assert(s2[i] == s[oi] && s2[j] == s[oj]);
            }
            assert forall|i: int| 0 <= i < s2.len() implies #[trigger] s2[i] < cap - 1 by {
                let oi = if i < k { i } else { i + 1 };
                assert(s2[i] == s[oi]);
                assert(s[oi] != s[k]);
            }
        } else {
            assert forall|i: int| 0 <= i < s2.len() implies #[trigger] s2[i] < cap - 1 by {
                assert(s.contains(s[i]));
            }
        }
        lemma_distinct_below(s2, (cap - 1) as nat);
    }
}

pub struct IndexList {
    next: Vec<usize>,
    prev: Vec<usize>,
    head: usize,
    tail: usize,
    len: usize,
    order: Ghost<Seq<usize>>,
}

impl View for IndexList {
    type V = Seq<usize>;

    /// The members, front to back.
    closed spec fn view(&self) -> Seq<usize> {
        self.order@
    }
}

impl IndexList {
    /// The number of node indices the list can hold.
    pub closed spec fn capacity(&self) -> nat {
        self.next@.len()
    }

    pub closed spec fn wf(&self) -> bool {
        let s = self.order@;
        &&& self.next@.len() == self.prev@.len()
        &&& self.next@.len() < NIL
        &&& self.len == s.len()
        &&& s.no_duplicates()
        &&& forall|i: int| 0 <= i < s.len() ==> #[trigger] s[i] < self.next@.len()
        &&& (s.len() == 0 ==> self.head == NIL && self.tail == NIL)
        &&& (s.len() > 0 ==> self.head == s[0] && self.tail == s[s.len() - 1])
        &&& forall|i: int|
            0 <= i < s.len() ==> #[trigger] self.next@[s[i] as int] == (if i + 1 < s.len() {
                s[i + 1]
            } else {
                NIL
            })
        &&& forall|i: int|
            0 <= i < s.len() ==> #[trigger] self.prev@[s[i] as int] == (if i > 0 {
                s[i - 1]
            } else {
                NIL
            })
    }

    /// The members are distinct indices below the capacity.
    pub proof fn lemma_members(&self)
        requires
            self.wf(),
        ensures
            self@.no_duplicates(),
            forall|i: int| 0 <= i < self@.len() ==> #[trigger] self@[i] < self.capacity(),
            self@.len() <= self.capacity(),
            self.capacity() < NIL,
    {
        lemma_distinct_below(self@, self.capacity());
    }

    /// An empty list for node indices below `capacity`.
    pub fn new(capacity: usize) -> (l: IndexList)
        requires
            capacity < NIL,
        ensures
            l.wf(),
            l@ == Seq::<usize>::empty(),
            l.capacity() == capacity,
    {
        let mut next: Vec<usize> = Vec::new();
        let mut prev: Vec<usize> = Vec::new();
        let mut i: usize = 0;
        while i < capacity
            invariant
                i <= capacity,
                next@.len() == i,
                prev@.len() == i,
            decreases capacity - i,
        {
            next.push(NIL);
            prev.push(NIL);
            i = i + 1;
        }
        IndexList { next, prev, head: NIL, tail: NIL, len: 0, order: Ghost(Seq::empty()) }
    }

    pub fn len(&self) -> (n: usize)
        requires
            self.wf(),
        ensures
            n == self@.len(),
    {
        self.len
    }

    /// Whether the list is empty.
    pub fn is_empty(&self) -> (b: bool)
        requires
            self.wf(),
        ensures
            b == (self@.len() == 0),
    {
        self.len == 0
    }

    /// Inserts `x` at the front.
    pub fn push_front(&mut self, x: usize)
        requires
            old(self).wf(),
            x < old(self).capacity(),
            !old(self)@.contains(x),
        ensures
            final(self).wf(),
            final(self).capacity() == old(self).capacity(),
            final(self)@ == seq![x] + old(self)@,
    {
        let ghost s = self.order@;
        let ghost s2 = seq![x] + s;
        proof {
            lemma_distinct_below(s, self.next@.len() as nat);
            assert(!s.contains(x));
            let s3 = s.push(x);
            assert forall|i: int, j: int| 0 <= i < j < s3.len() implies s3[i] != s3[j] by {
                if j == s.len() {
                    assert(s.contains(s3[i]));
                }
            }
            lemma_distinct_below(s3, self.next@.len() as nat);
        }
        let h = self.head;
        self.next.set(x, h);
        self.prev.set(x, NIL);
        if h != NIL {
            self.prev.set(h, x);
        } else {
            self.tail = x;
        }
        self.head = x;
        self.len = self.len + 1;
        self.order = Ghost(s2);
        proof {
            assert forall|i: int, j: int| 0 <= i < j < s2.len() implies s2[i] != s2[j] by {
                if i == 0 {
                    assert(s.contains(s2[j]));
                }
            }
            assert forall|i: int| 0 <= i < s2.len() implies #[trigger] self.next@[s2[i] as int] == (
            if i + 1 < s2.len() {
                s2[i + 1]
            } else {
                NIL
            }) by {
                if i > 0 {
                    assert(s2[i] == s[i - 1]);
                    assert(s.contains(s[i - 1]));
                }
            }
            assert forall|i: int| 0 <= i < s2.len() implies #[trigger] self.prev@[s2[i] as int] == (
            if i > 0 {
                s2[i - 1]
            } else {
                NIL
            }) by {
                if i > 1 {
                    assert(s2[i] == s[i - 1]);
                    assert(s.contains(s[i - 1]));
                    assert(s[i - 1] != s[0]);
                }
            }
        }
    }

    /// Inserts `x` at the back.
    pub fn push_back(&mut self, x: usize)
        requires
            old(self).wf(),
            x < old(self).capacity(),
            !old(self)@.contains(x),
        ensures
            final(self).wf(),
            final(self).capacity() == old(self).capacity(),
            final(self)@ == old(self)@.push(x),
    {
        let ghost s = self.order@;
        let ghost s2 = s.push(x);
        proof {
            let s3 = s.push(x);
            assert forall|i: int, j: int| 0 <= i < j < s3.len() implies s3[i] != s3[j] by {
                if j == s.len() {
                    assert(s.contains(s3[i]));
                }
            }
            lemma_distinct_below(s3, self.next@.len() as nat);
        }
        let t = self.tail;
        self.prev.set(x, t);
        self.next.set(x, NIL);
        if t != NIL {
            self.next.set(t, x);
        } else {
            self.head = x;
        }
        self.tail = x;
        self.len = self.len + 1;
        self.order = Ghost(s2);
        proof {
            assert forall|i: int, j: int| 0 <= i < j < s2.len() implies s2[i] != s2[j] by {
                if j == s.len() {
                    assert(s.contains(s2[i]));
                }
            }
            assert forall|i: int| 0 <= i < s2.len() implies #[trigger] self.next@[s2[i] as int] == (
            if i + 1 < s2.len() {
                s2[i + 1]
            } else {
                NIL
            }) by {
                if i < s.len() - 1 {
                    assert(s.contains(s[i]));
                    assert(s[i] != s[s.len() - 1]);
                }
                if i < s.len() {
                    assert(s.contains(s[i]));
                }
            }
            assert forall|i: int| 0 <= i < s2.len() implies #[trigger] self.prev@[s2[i] as int] == (
            if i > 0 {
                s2[i - 1]
            } else {
                NIL
            }) by {
                if i < s.len() {
                    assert(s.contains(s[i]));
                }
            }
        }
    }

    /// Removes `x`, which must be a member, wherever it stands.
    pub fn remove(&mut self, x: usize)
        requires
            old(self).wf(),
            old(self)@.contains(x),
        ensures
            final(self).wf(),
            final(self).capacity() == old(self).capacity(),
            final(self)@ == old(self)@.remove(old(self)@.index_of(x)),
    {
        let ghost s = self.order@;
        let ghost k = s.index_of(x);
        let ghost s2 = s.remove(k);
        proof {
            assert(s[k] == x);
        }
        let p = self.prev[x];
        let nx = self.next[x];
        if p != NIL {
            self.next.set(p, nx);
        } else {
            self.head = nx;
        }
        if nx != NIL {
            self.prev.set(nx, p);
        } else {
            self.tail = p;
        }
        self.len = self.len - 1;
        self.order = Ghost(s2);
        proof {
            assert(p != NIL ==> k > 0 && p == s[k - 1]);
            assert(nx != NIL ==> k + 1 < s.len() && nx == s[k + 1]);
            assert forall|i: int, j: int| 0 <= i < j < s2.len() implies s2[i] != s2[j] by {
                let oi = if i < k { i } else { i + 1 };
                let oj = if j < k { j } else { j + 1 };
                assert(s2[i] == s[oi] && s2[j] == s[oj]);
            }
            assert forall|i: int| 0 <= i < s2.len() implies #[trigger] s2[i] < self.next@.len() by {
                let oi = if i < k { i } else { i + 1 };
                assert(s2[i] == s[oi]);
            }
            assert forall|i: int| 0 <= i < s2.len() implies #[trigger] self.next@[s2[i] as int] == (
            if i + 1 < s2.len() {
                s2[i + 1]
            } else {
                NIL
            }) by {
                let oi = if i < k { i } else { i + 1 };
                assert(s2[i] == s[oi]);
                assert(s[oi] != x);
            }
            assert forall|i: int| 0 <= i < s2.len() implies #[trigger] self.prev@[s2[i] as int] == (
            if i > 0 {
                s2[i - 1]
            } else {
                NIL
            }) by {
                let oi = if i < k { i } else { i + 1 };
                assert(s2[i] == s[oi]);
                assert(s[oi] != x);
                if i == k {
                    assert(s[oi] == nx);
                }
            }
        }
    }

    /// Removes and returns the member at the back, if any.
    pub fn pop_back(&mut self) -> (r: Option<usize>)
        requires
            old(self).wf(),
        ensures
            final(self).wf(),
            final(self).capacity() == old(self).capacity(),
            old(self)@.len() == 0 ==> r is None && final(self)@ == old(self)@,
            old(self)@.len() > 0 ==> r == Some(old(self)@.last()) && final(self)@
                == old(self)@.drop_last(),
    {
        if self.tail == NIL {
            return None;
        }
        let x = self.tail;
        proof {
            let s = self.order@;
            assert(s.contains(x));
            assert(s.index_of(x) == s.len() - 1) by {
                assert(s[s.len() - 1] == x);
            }
            assert(s.remove(s.len() - 1) =~= s.drop_last());
        }
        self.remove(x);
        Some(x)
    }

    /// Removes and returns the member at the front, if any.
    pub fn pop_front(&mut self) -> (r: Option<usize>)
        requires
            old(self).wf(),
        ensures
            final(self).wf(),
            final(self).capacity() == old(self).capacity(),
            old(self)@.len() == 0 ==> r is None && final(self)@ == old(self)@,
            old(self)@.len() > 0 ==> r == Some(old(self)@[0]) && final(self)@ == old(self)@.drop_first(),
    {
        if self.head == NIL {
            return None;
        }
        let x = self.head;
        proof {
            let s = self.order@;
            assert(s.contains(x));
            assert(s.index_of(x) == 0) by {
                assert(s[0] == x);
            }
            assert(s.remove(0) =~= s.drop_first());
        }
        self.remove(x);
        Some(x)
    }
}

} // verus!
