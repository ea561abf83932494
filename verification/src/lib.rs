//! A doubly-linked list stored in a flat growable arena.
//!
//! Every node lives in a slot of one `Vec`; its index in that `Vec` is the
//! stable handle by which callers name the node.  The live slots are wired
//! into a single circular ring through `prev`/`next` indices, so insertion
//! and removal at a known handle cost O(1) and never move other elements.
//! Removed slots are tombstoned and their indices kept in a free pool for
//! reuse, which bounds storage growth by the high-water mark of live
//! elements.
//!
//! The abstract value of a list is the sequence of its elements in logical
//! (head-to-tail) order, available as `self@`.  The ring itself is reflected
//! by `self.ring()`, the sequence of handles in logical order, through which
//! the contracts pin down handle stability and slot reuse.
use vstd::prelude::*;

verus! {

/// A vector's abstract length always fits in `usize`.
proof fn lemma_vec_len_bound<A>(v: &Vec<A>)
    ensures
        v@.len() <= usize::MAX,
{
    broadcast use vstd::std_specs::vec::group_vec_axioms;

    assert(v.len() == v@.len());
}

/// Position after `k` on a ring of `n` positions.
pub open spec fn next_pos(n: int, k: int) -> int {
    if k + 1 == n {
        0
    } else {
        k + 1
    }
}

/// Position before `k` on a ring of `n` positions.
pub open spec fn prev_pos(n: int, k: int) -> int {
    if k == 0 {
        n - 1
    } else {
        k - 1
    }
}

/// `s` read circularly from position `p`: the elements from `p` to the end,
/// then those before `p`.
pub open spec fn rotated<A>(s: Seq<A>, p: int) -> Seq<A>
    recommends
        0 <= p <= s.len(),
{
    s.subrange(p, s.len() as int) + s.subrange(0, p)
}

/// Pointwise description of `rotated`.
pub proof fn lemma_rotated_index<A>(s: Seq<A>, p: int)
    requires
        0 <= p <= s.len(),
    ensures
        rotated(s, p).len() == s.len(),
        forall|k: int|
            0 <= k < s.len() ==> #[trigger] rotated(s, p)[k] == (if p + k < s.len() {
                s[p + k]
            } else {
                s[p + k - s.len()]
            }),
{
}

/// Membership and distinctness carry over from `s` to `rotated(s, p)`.
proof fn lemma_rotated_membership(s: Seq<int>, p: int)
    requires
        0 <= p <= s.len(),
    ensures
        forall|y: int| #[trigger] rotated(s, p).contains(y) <==> s.contains(y),
        s.no_duplicates() ==> rotated(s, p).no_duplicates(),
{
    let n = s.len() as int;
    lemma_rotated_index(s, p);
    assert forall|y: int| #[trigger] rotated(s, p).contains(y) implies s.contains(y) by {
        let k = choose|k: int| 0 <= k < rotated(s, p).len() && rotated(s, p)[k] == y;
        if p + k < n {
            assert(s[p + k] == y);
        } else {
            assert(s[p + k - n] == y);
        }
    }
    assert forall|y: int| s.contains(y) implies #[trigger] rotated(s, p).contains(y) by {
        let k = choose|k: int| 0 <= k < s.len() && s[k] == y;
        let k1 = if k >= p {
            k - p
        } else {
            k + n - p
        };
        assert(rotated(s, p)[k1] == y);
    }
    if s.no_duplicates() {
        assert forall|a: int, b: int|
            0 <= a < n && 0 <= b < n && a != b implies rotated(s, p)[a] != rotated(s, p)[b] by {
            let a0 = if p + a < n {
                p + a
            } else {
                p + a - n
            };
            let b0 = if p + b < n {
                p + b
            } else {
                p + b - n
            };
            assert(rotated(s, p)[a] == s[a0] && rotated(s, p)[b] == s[b0]);
        }
    }
}

/// Stepping the start of a rotation: dropping the front of the window.
proof fn lemma_rotated_drop_first<A>(s: Seq<A>, p: int, c: int)
    requires
        0 <= p < s.len(),
        1 <= c <= s.len(),
    ensures
        rotated(s, p).take(c)[0] == s[p],
        rotated(s, next_pos(s.len() as int, p)).take(c - 1) =~= rotated(s, p).take(c).drop_first(),
{
    let n = s.len() as int;
    lemma_rotated_index(s, p);
    lemma_rotated_index(s, next_pos(n, p));
}

/// Removing the element a rotation starts at: the rest of the window in
/// order.
proof fn lemma_rotated_remove<A>(s: Seq<A>, p: int)
    requires
        0 <= p < s.len(),
        s.len() > 1,
    ensures
        rotated(s, p)[0] == s[p],
        rotated(s.remove(p), if p == s.len() - 1 {
            0int
        } else {
            p
        }) =~= rotated(s, p).drop_first(),
{
    let n = s.len() as int;
    let p2: int = if p == n - 1 {
        0
    } else {
        p
    };
    lemma_rotated_index(s, p);
    s.remove_ensures(p);
    lemma_rotated_index(s.remove(p), p2);
    assert forall|k: int| 0 <= k < n - 1 implies rotated(s.remove(p), p2)[k] == rotated(s, p).drop_first()[k] by {
        let w = if p2 + k < n - 1 {
            p2 + k
        } else {
            p2 + k - (n - 1)
        };
        assert(rotated(s.remove(p), p2)[k] == s.remove(p)[w]);
        assert(rotated(s, p).drop_first()[k] == rotated(s, p)[k + 1]);
    }
}

/// Membership and distinctness carry over from `s` to `s.insert(i, x)`.
proof fn lemma_insert_membership(s: Seq<int>, i: int, x: int)
    requires
        0 <= i <= s.len(),
    ensures
        forall|y: int| #[trigger] s.insert(i, x).contains(y) <==> (s.contains(y) || y == x),
        s.no_duplicates() && !s.contains(x) ==> s.insert(i, x).no_duplicates(),
{
    s.insert_ensures(i, x);
    assert forall|y: int| #[trigger] s.insert(i, x).contains(y) implies (s.contains(y) || y == x) by {
        let k = choose|k: int| 0 <= k < s.insert(i, x).len() && s.insert(i, x)[k] == y;
        if k < i {
            assert(s[k] == y);
        } else if k > i {
            assert(s[k - 1] == y);
        }
    }
    assert forall|y: int| (s.contains(y) || y == x) implies #[trigger] s.insert(i, x).contains(y) by {
        if y == x {
            assert(s.insert(i, x)[i] == y);
        } else {
            let k = choose|k: int| 0 <= k < s.len() && s[k] == y;
            if k < i {
                assert(s.insert(i, x)[k] == y);
            } else {
                assert(s.insert(i, x)[k + 1] == y);
            }
        }
    }
    if s.no_duplicates() && !s.contains(x) {
        assert forall|a: int, b: int|
            0 <= a < s.insert(i, x).len() && 0 <= b < s.insert(i, x).len() && a != b implies s.insert(
            i,
            x,
        )[a] != s.insert(i, x)[b] by {
            if a != i && b != i {
                let a0 = if a < i { a } else { a - 1 };
                let b0 = if b < i { b } else { b - 1 };
                assert(s.insert(i, x)[a] == s[a0]);
                assert(s.insert(i, x)[b] == s[b0]);
            } else {
                let c = if a == i { b } else { a };
                let c0 = if c < i { c } else { c - 1 };
                assert(s.insert(i, x)[c] == s[c0]);
                assert(!s.contains(x));
            }
        }
    }
}

/// Membership and distinctness carry over from `s` to `s.remove(i)`.
proof fn lemma_remove_membership(s: Seq<int>, i: int)
    requires
        0 <= i < s.len(),
        s.no_duplicates(),
    ensures
        forall|y: int| #[trigger] s.remove(i).contains(y) <==> (s.contains(y) && y != s[i]),
        s.remove(i).no_duplicates(),
{
    s.remove_ensures(i);
    assert forall|y: int| #[trigger] s.remove(i).contains(y) implies (s.contains(y) && y != s[i]) by {
        let k = choose|k: int| 0 <= k < s.remove(i).len() && s.remove(i)[k] == y;
        if k < i {
            assert(s[k] == y);
        } else {
            assert(s[k + 1] == y);
        }
    }
    assert forall|y: int| (s.contains(y) && y != s[i]) implies #[trigger] s.remove(i).contains(y) by {
        let k = choose|k: int| 0 <= k < s.len() && s[k] == y;
        if k < i {
            assert(s.remove(i)[k] == y);
        } else {
            assert(s.remove(i)[k - 1] == y);
        }
    }
    assert forall|a: int, b: int|
        0 <= a < s.remove(i).len() && 0 <= b < s.remove(i).len() && a != b implies s.remove(i)[a]
        != s.remove(i)[b] by {
        let a0 = if a < i { a } else { a + 1 };
        let b0 = if b < i { b } else { b + 1 };
        assert(s.remove(i)[a] == s[a0]);
        assert(s.remove(i)[b] == s[b0]);
    }
}

/// Membership and distinctness carry over from `s` to `s.push(x)`.
proof fn lemma_push_membership(s: Seq<usize>, x: usize)
    ensures
        forall|y: usize| #[trigger] s.push(x).contains(y) <==> (s.contains(y) || y == x),
        s.no_duplicates() && !s.contains(x) ==> s.push(x).no_duplicates(),
{
    assert forall|y: usize| #[trigger] s.push(x).contains(y) implies (s.contains(y) || y == x) by {
        let k = choose|k: int| 0 <= k < s.push(x).len() && s.push(x)[k] == y;
        if k < s.len() {
            assert(s[k] == y);
        }
    }
    assert forall|y: usize| (s.contains(y) || y == x) implies #[trigger] s.push(x).contains(y) by {
        if y == x {
            assert(s.push(x)[s.len() as int] == y);
        } else {
            let k = choose|k: int| 0 <= k < s.len() && s[k] == y;
            assert(s.push(x)[k] == y);
        }
    }
}

/// Membership and distinctness carry over from `s` to `s.drop_last()`.
proof fn lemma_drop_last_membership(s: Seq<usize>)
    requires
        s.len() > 0,
        s.no_duplicates(),
    ensures
        forall|y: usize| #[trigger] s.drop_last().contains(y) <==> (s.contains(y) && y != s.last()),
        s.drop_last().no_duplicates(),
{
    assert forall|y: usize| #[trigger] s.drop_last().contains(y) implies (s.contains(y) && y
        != s.last()) by {
        let k = choose|k: int| 0 <= k < s.drop_last().len() && s.drop_last()[k] == y;
        assert(s[k] == y);
    }
    assert forall|y: usize| (s.contains(y) && y != s.last()) implies #[trigger] s.drop_last().contains(
        y,
    ) by {
        let k = choose|k: int| 0 <= k < s.len() && s[k] == y;
        assert(k != s.len() - 1);
        assert(s.drop_last()[k] == y);
    }
}

/// One arena slot: the element together with the handles of its ring
/// neighbours.
struct Node<T> {
    val: T,
    prev: usize,
    next: usize,
}

/// A doubly-linked list whose nodes live in a flat arena of reusable slots.
pub struct VecLinkedList<T> {
    data: Vec<Option<Node<T>>>,
    head: Option<usize>,
    available: Vec<usize>,
    len: usize,
    ring: Ghost<Seq<int>>,
}

impl<T> View for VecLinkedList<T> {
    type V = Seq<T>;

    /// The elements in logical order, from head to tail.
    closed spec fn view(&self) -> Seq<T> {
        Seq::new(self.ring@.len(), |k: int| self.data@[self.ring@[k]]->0.val)
    }
}

impl<T> VecLinkedList<T> {
    /// The handles of the live nodes in logical order; `ring()[0]` is the
    /// head.  `ring()` and `self@` always have the same length.
    pub closed spec fn ring(&self) -> Seq<int> {
        self.ring@
    }

    /// `h` names a live node.
    pub open spec fn live(&self, h: usize) -> bool {
        self.ring().contains(h as int)
    }

    /// The logical position of the live node named by `h`.
    pub open spec fn pos(&self, h: usize) -> int {
        self.ring().index_of(h as int)
    }

    /// The handle of the node after `h` on the ring.
    pub open spec fn next_of(&self, h: usize) -> usize {
        self.ring()[next_pos(self.ring().len() as int, self.pos(h))] as usize
    }

    /// The handle of the node before `h` on the ring.
    pub open spec fn prev_of(&self, h: usize) -> usize {
        self.ring()[prev_pos(self.ring().len() as int, self.pos(h))] as usize
    }

    /// Number of arena slots, live or tombstoned.
    pub closed spec fn storage_size(&self) -> int {
        self.data@.len() as int
    }

    /// Number of tombstoned slots awaiting reuse.
    pub closed spec fn free_size(&self) -> int {
        self.available@.len() as int
    }

    /// Well-formedness: the live slots form exactly one circular ring in
    /// logical order, the head marks its first position, and the free pool
    /// holds exactly the tombstoned slots.
    pub closed spec fn wf(&self) -> bool {
        let r = self.ring@;
        let n = r.len() as int;
        &&& self.len as int == n
        &&& self.len as int + self.available@.len() as int == self.data@.len() as int
        &&& (self.head is Some <==> n > 0)
        &&& (n > 0 ==> self.head->0 as int == r[0])
        &&& (forall|k: int| 0 <= k < n ==> 0 <= #[trigger] r[k] < self.data@.len())
        &&& r.no_duplicates()
        &&& (forall|k: int|
            0 <= k < n ==> {
                &&& (#[trigger] self.data@[r[k]]) is Some
                &&& self.data@[r[k]]->0.prev as int == r[prev_pos(n, k)]
                &&& self.data@[r[k]]->0.next as int == r[next_pos(n, k)]
            })
        &&& (forall|i: int|
            0 <= i < self.data@.len() ==> {
                &&& ((#[trigger] self.data@[i]) is Some <==> r.contains(i))
                &&& (self.data@[i] is None <==> self.available@.contains(i as usize))
            })
        &&& self.available@.no_duplicates()
        &&& (forall|a: int|
            0 <= a < self.available@.len() ==> #[trigger] self.available@[a] < self.data@.len())
    }

    /// `pos` really is the unique ring position of a live handle.
    pub proof fn lemma_pos(&self, h: usize)
        requires
            self.wf(),
            self.live(h),
        ensures
            0 <= self.pos(h) < self.ring().len(),
            self.ring()[self.pos(h)] == h as int,
            (h as int) < self.storage_size(),
            forall|k: int| 0 <= k < self.ring().len() && self.ring()[k] == h as int ==> k == self.pos(h),
    {
        assert(exists|i: int| 0 <= i < self.ring@.len() && self.ring@[i] == h as int);
    }

    /// The arena partitions into the live nodes and the free pool.
    pub proof fn lemma_size_partition(&self)
        requires
            self.wf(),
        ensures
            self.storage_size() == self@.len() + self.free_size(),
            self@.len() == self.ring().len(),
    {
    }

    /// Constructs a new, empty `VecLinkedList<T>`.
    pub fn new() -> (r: Self)
        ensures
            r.wf(),
            r@ == Seq::<T>::empty(),
            r.ring() == Seq::<int>::empty(),
            r.storage_size() == 0,
            r.free_size() == 0,
    {
        let r = Self {
            data: Vec::new(),
            head: None,
            available: Vec::new(),
            len: 0,
            ring: Ghost(Seq::empty()),
        };
        proof {
            assert(r@ =~= Seq::<T>::empty());
        }
        r
    }

    /// Same as `new`, but pre-reserves arena capacity; the capacity is a
    /// performance hint with no observable effect on the contents.
    pub fn with_capacity(capacity: usize) -> (r: Self)
        ensures
            r.wf(),
            r@ == Seq::<T>::empty(),
            r.ring() == Seq::<int>::empty(),
            r.storage_size() == 0,
            r.free_size() == 0,
    {
        let r = Self {
            data: Vec::with_capacity(capacity),
            head: None,
            available: Vec::new(),
            len: 0,
            ring: Ghost(Seq::empty()),
        };
        proof {
            assert(r@ =~= Seq::<T>::empty());
        }
        r
    }

    /// The number of elements in the list.
    pub fn len(&self) -> (r: usize)
        requires
            self.wf(),
        ensures
            r == self@.len(),
    {
        self.len
    }

    /// The handle of the first logical element, or `None` when the list is
    /// empty.
    pub fn head(&self) -> (r: Option<usize>)
        requires
            self.wf(),
        ensures
            r is Some <==> self@.len() > 0,
            self@.len() > 0 ==> r->0 as int == self.ring()[0] && self.live(r->0),
    {
        self.head
    }

    /// The handle of the ring neighbour after `node`.
    pub fn get_next_node(&self, node: usize) -> (r: usize)
        requires
            self.wf(),
            self.live(node),
        ensures
            r == self.next_of(node),
            self.live(r),
    {
        proof {
            self.lemma_pos(node);
        }
        self.data[node].as_ref().unwrap().next
    }

    /// The handle of the ring neighbour before `node`.
    pub fn get_prev_node(&self, node: usize) -> (r: usize)
        requires
            self.wf(),
            self.live(node),
        ensures
            r == self.prev_of(node),
            self.live(r),
    {
        proof {
            self.lemma_pos(node);
        }
        self.data[node].as_ref().unwrap().prev
    }

    /// The handle `k` ring steps after `h`.
    pub open spec fn follow_next(&self, h: usize, k: nat) -> usize
        decreases k,
    {
        if k == 0 {
            h
        } else {
            self.next_of(self.follow_next(h, (k - 1) as nat))
        }
    }

    /// The handle `k` ring steps before `h`.
    pub open spec fn follow_prev(&self, h: usize, k: nat) -> usize
        decreases k,
    {
        if k == 0 {
            h
        } else {
            self.prev_of(self.follow_prev(h, (k - 1) as nat))
        }
    }

    /// Walks `offset` steps forward (negative: backward) along the ring from
    /// `node`.  Steps wrap around, so walking `len()` steps in either
    /// direction comes back to `node`.
    pub fn offset(&self, node: usize, offset: isize) -> (r: usize)
        requires
            self.wf(),
            self.live(node),
        ensures
            offset >= 0 ==> r == self.follow_next(node, offset as nat),
            offset < 0 ==> r == self.follow_prev(node, (-(offset as int)) as nat),
            self.live(r),
    {
        let mut node = node;
        let mut off = offset;
        let ghost onode = node;
        let ghost ooff = off as int;
        if off < 0 {
            while off < 0
                invariant
                    self.wf(),
                    self.live(node),
                    ooff <= off as int <= 0,
                    node == self.follow_prev(onode, (off as int - ooff) as nat),
                decreases -(off as int),
            {
                node = self.get_prev_node(node);
                off = off + 1;
            }
            node
        } else {
            while off > 0
                invariant
                    self.wf(),
                    self.live(node),
                    0 <= off as int <= ooff,
                    node == self.follow_next(onode, (ooff - off as int) as nat),
                decreases off as int,
            {
                node = self.get_next_node(node);
                off = off - 1;
            }
            node
        }
    }

    /// Returns a reference to the element named by `node`, or `None` when
    /// `node` is out of bounds or tombstoned.  Probing a stale handle this
    /// way is an expected, recoverable use.
    pub fn get(&self, node: usize) -> (r: Option<&T>)
        requires
            self.wf(),
        ensures
            r is Some <==> self.live(node),
            self.live(node) ==> *r->0 == self@[self.pos(node)],
    {
        proof {
            if self.live(node) {
                self.lemma_pos(node);
            }
        }
        if node < self.data.len() {
            match &self.data[node] {
                Some(nd) => Some(&nd.val),
                None => None,
            }
        } else {
            None
        }
    }

    /// Overwrites the `prev` link of the slot at `node`, which must be live.
    fn setprev(&mut self, node: usize, prev: usize)
        requires
            (node as int) < old(self).data@.len(),
            old(self).data@[node as int] is Some,
        ensures
            final(self).data@.len() == old(self).data@.len(),
            final(self).data@[node as int] is Some,
            final(self).data@[node as int]->0.val == old(self).data@[node as int]->0.val,
            final(self).data@[node as int]->0.next == old(self).data@[node as int]->0.next,
            final(self).data@[node as int]->0.prev == prev,
            forall|i: int|
                0 <= i < old(self).data@.len() && i != node as int ==> final(self).data@[i]
                    == old(self).data@[i],
            final(self).head == old(self).head,
            final(self).available == old(self).available,
            final(self).len == old(self).len,
            final(self).ring == old(self).ring,
    {
        let slot = &mut self.data[node];
        match slot {
            Some(nd) => {
                nd.prev = prev;
            },
            None => {},
        }
    }

    /// Overwrites the `next` link of the slot at `node`, which must be live.
    fn setnext(&mut self, node: usize, next: usize)
        requires
            (node as int) < old(self).data@.len(),
            old(self).data@[node as int] is Some,
        ensures
            final(self).data@.len() == old(self).data@.len(),
            final(self).data@[node as int] is Some,
            final(self).data@[node as int]->0.val == old(self).data@[node as int]->0.val,
            final(self).data@[node as int]->0.prev == old(self).data@[node as int]->0.prev,
            final(self).data@[node as int]->0.next == next,
            forall|i: int|
                0 <= i < old(self).data@.len() && i != node as int ==> final(self).data@[i]
                    == old(self).data@[i],
            final(self).head == old(self).head,
            final(self).available == old(self).available,
            final(self).len == old(self).len,
            final(self).ring == old(self).ring,
    {
        let slot = &mut self.data[node];
        match slot {
            Some(nd) => {
                nd.next = next;
            },
            None => {},
        }
    }

    /// Puts `nd` into a slot of its own: a reused tombstone when one is
    /// available, else a freshly appended slot.  Links and head are left for
    /// the caller to wire up.
    fn allocate(&mut self, nd: Node<T>) -> (ind: usize)
        requires
            old(self).wf(),
        ensures
            final(self).head == old(self).head,
            final(self).len == old(self).len,
            final(self).ring == old(self).ring,
            !old(self).ring@.contains(ind as int),
            (ind as int) < final(self).data@.len(),
            old(self).data@.len() <= final(self).data@.len(),
            final(self).data@[ind as int] == Some(nd),
            forall|i: int|
                0 <= i < final(self).data@.len() && i != ind as int ==> i < old(self).data@.len()
                    && final(self).data@[i] == old(self).data@[i],
            old(self).available@.len() > 0 ==> final(self).data@.len() == old(self).data@.len()
                && final(self).available@ == old(self).available@.drop_last()
                && ind == old(self).available@.last(),
            old(self).available@.len() == 0 ==> final(self).data@.len() == old(self).data@.len()
                + 1 && final(self).available@ == old(self).available@ && ind as int == old(self).data@.len(),
    {
        match self.available.pop() {
            Some(i) => {
                let slot = &mut self.data[i];
                *slot = Some(nd);
                i
            },
            None => {
                let i = self.data.len();
                self.data.push(Some(nd));
                i
            },
        }
    }

    /// After wiring a fresh slot `ind` in after `node`, the list is again
    /// well-formed and its contents are the old ones with `val` inserted
    /// after position `j`.
    #[verifier::rlimit(100)]
    proof fn lemma_insert_restores(pre: Self, post: Self, node: usize, next: usize, ind: usize, j: int, val: T)
        requires
            pre.wf(),
            0 <= j < pre.ring@.len(),
            pre.ring@[j] == node as int,
            next as int == pre.ring@[next_pos(pre.ring@.len() as int, j)],
            !pre.ring@.contains(ind as int),
            node != ind && next != ind,
            pre.ring@.len() > 1 ==> next != node,
            post.ring@ == pre.ring@.insert(j + 1, ind as int),
            post.len as int == pre.len as int + 1,
            post.head == pre.head,
            post.data@.len() == if pre.available@.len() > 0 {
                pre.data@.len() as int
            } else {
                pre.data@.len() as int + 1
            },
            (ind as int) < post.data@.len(),
            post.data@[ind as int] == Some(Node { val, prev: node, next }),
            post.data@[node as int] is Some,
            post.data@[node as int]->0.val == pre.data@[node as int]->0.val,
            post.data@[node as int]->0.next == ind,
            post.data@[node as int]->0.prev == if pre.ring@.len() == 1 {
                ind
            } else {
                pre.data@[node as int]->0.prev
            },
            next != node ==> post.data@[next as int] is Some
                && post.data@[next as int]->0.val == pre.data@[next as int]->0.val
                && post.data@[next as int]->0.prev == ind
                && post.data@[next as int]->0.next == pre.data@[next as int]->0.next,
            forall|i: int|
                0 <= i < post.data@.len() && i != ind as int && i != node as int && i != next as int
                    ==> i < pre.data@.len() && post.data@[i] == pre.data@[i],
            post.available@ == if pre.available@.len() > 0 {
                pre.available@.drop_last()
            } else {
                pre.available@
            },
            pre.available@.len() > 0 ==> ind == pre.available@.last(),
            pre.available@.len() == 0 ==> ind as int == pre.data@.len(),
        ensures
            post.wf(),
            post.live(node),
            post.live(ind),
            post@ == pre@.insert(j + 1, val),
            post.pos(node) == j,
            post.pos(ind) == j + 1,
            post.next_of(node) == ind,
            post.prev_of(ind) == node,
    {
        let r0 = pre.ring@;
        let n = r0.len() as int;
        let q = next_pos(n, j);
        lemma_vec_len_bound(&pre.data);
        lemma_vec_len_bound(&post.data);

        let r1 = post.ring@;
        let m = n + 1;
        let d = post.data@;
        r0.insert_ensures(j + 1, ind as int);
        lemma_insert_membership(r0, j + 1, ind as int);
        // the ring after insertion: old handles shifted around the new one
        assert(r1.len() == m);
        assert(r1[j + 1] == ind as int);
        assert(forall|k: int| 0 <= k < j + 1 ==> r1[k] == r0[k]);
        assert(forall|k: int| j + 1 <= k < n ==> r1[k + 1] == r0[k]);
        assert(r1.no_duplicates());
        // every slot named by the new ring is in bounds
        assert forall|k: int| 0 <= k < m implies 0 <= #[trigger] r1[k] < d.len() by {
            if k != j + 1 {
                let k0 = if k < j + 1 {
                    k
                } else {
                    k - 1
                };
                assert(r1[k] == r0[k0]);
            }
        }
        // the links of every live slot match its ring neighbours
        assert forall|k: int| 0 <= k < m implies {
            &&& (#[trigger] d[r1[k]]) is Some
            &&& d[r1[k]]->0.prev as int == r1[prev_pos(m, k)]
            &&& d[r1[k]]->0.next as int == r1[next_pos(m, k)]
        } by {
            if k == j + 1 {
                // the fresh node: prev is `node` at j, next is the old successor
                assert(d[r1[k]]->0.prev == node);
                assert(d[r1[k]]->0.next == next);
                assert(r1[j] == r0[j]);
                if j == n - 1 {
                    assert(next_pos(m, k) == 0 && r1[0] == r0[0] && q == 0);
                } else {
                    assert(next_pos(m, k) == j + 2 && r1[j + 2] == r0[j + 1] && q == j + 1);
                }
            } else {
                let k0 = if k < j + 1 {
                    k
                } else {
                    k - 1
                };
                assert(r1[k] == r0[k0]);
                let s = r0[k0];
                if s == node as int {
                    assert(k0 == j);
                    assert(k == j);
                    assert(d[s]->0.next == ind);
                    assert(next_pos(m, j) == j + 1);
                    if n == 1 {
                        assert(d[s]->0.prev == ind);
                        assert(prev_pos(m, j) == 1 && r1[1] == ind as int);
                    } else if s == next as int {
                        assert(false);
                    } else {
                        assert(d[s]->0.prev as int == r0[prev_pos(n, j)]);
                        if j == 0 {
                            assert(prev_pos(m, 0) == m - 1 && r1[m - 1] == r0[n - 1]);
                        } else {
                            assert(prev_pos(m, k) == k - 1 && r1[k - 1] == r0[j - 1]);
                        }
                    }
                } else if s == next as int {
                    assert(k0 == q);
                    assert(d[s]->0.prev == ind);
                    assert(d[s]->0.next as int == r0[next_pos(n, q)]);
                    if q == 0 {
                        // inserted after the last node: the old head now follows it
                        assert(j == n - 1 && k == 0);
                        assert(prev_pos(m, 0) == m - 1 && r1[m - 1] == ind as int);
                        if n == 1 {
                            assert(false);
                        } else {
                            assert(next_pos(m, 0) == 1 && r1[1] == r0[1]);
                        }
                    } else {
                        assert(q == j + 1 && k == j + 2);
                        assert(prev_pos(m, k) == j + 1 && r1[j + 1] == ind as int);
                        if q == n - 1 {
                            assert(next_pos(m, k) == 0 && r1[0] == r0[0]);
                        } else {
                            assert(next_pos(m, k) == k + 1 && r1[k + 1] == r0[q + 1]);
                        }
                    }
                } else {
                    // untouched slot: both neighbours keep their handles
                    assert(d[s] == pre.data@[s]);
                    assert(d[s]->0.prev as int == r0[prev_pos(n, k0)]);
                    assert(d[s]->0.next as int == r0[next_pos(n, k0)]);
                    assert(r0[prev_pos(n, k0)] == r1[prev_pos(m, k)]) by {
                        let p0 = prev_pos(n, k0);
                        let p1 = prev_pos(m, k);
                        assert(r1[p1] == if p1 < j + 1 {
                            r0[p1]
                        } else if p1 == j + 1 {
                            ind as int
                        } else {
                            r0[p1 - 1]
                        });
                    }
                    assert(r0[next_pos(n, k0)] == r1[next_pos(m, k)]) by {
                        let p0 = next_pos(n, k0);
                        let p1 = next_pos(m, k);
                        assert(r1[p1] == if p1 < j + 1 {
                            r0[p1]
                        } else if p1 == j + 1 {
                            ind as int
                        } else {
                            r0[p1 - 1]
                        });
                    }
                }
            }
        }
        // the arena still splits into live slots and the free pool
        assert forall|i: int| 0 <= i < d.len() implies {
            &&& ((#[trigger] d[i]) is Some <==> r1.contains(i))
            &&& (d[i] is None <==> post.available@.contains(i as usize))
        } by {
            if i == ind as int {
                assert(r1[j + 1] == i);
                assert(r1.contains(i));
                assert(!post.available@.contains(i as usize)) by {
                    if post.available@.contains(i as usize) {
                        let a = choose|a: int|
                            0 <= a < post.available@.len() && post.available@[a] == i as usize;
                        if pre.available@.len() > 0 {
                            assert(pre.available@[a] == i as usize);
                            assert(pre.available@.last() == i as usize);
                        } else {
                            assert(false);
                        }
                    }
                }
            } else {
                assert(d[i] is Some <==> pre.data@[i] is Some) by {
                    if i != node as int && i != next as int {
                        assert(d[i] == pre.data@[i]);
                    }
                }
                assert(r1.contains(i) <==> (r0.contains(i) || i == ind as int));
                if pre.available@.len() > 0 {
                    assert(post.available@ == pre.available@.drop_last());
                    assert(post.available@.contains(i as usize) <==> pre.available@.contains(i as usize)) by {
                        if pre.available@.contains(i as usize) {
                            let a = choose|a: int|
                                0 <= a < pre.available@.len() && pre.available@[a]
                                    == i as usize;
                            assert(a != pre.available@.len() - 1);
                            assert(post.available@[a] == i as usize);
                        } else {
                            if post.available@.contains(i as usize) {
                                let a = choose|a: int|
                                    0 <= a < post.available@.len() && post.available@[a]
                                        == i as usize;
                                assert(pre.available@[a] == i as usize);
                            }
                        }
                    }
                }
            }
        }
        // free-pool entries stay distinct and in bounds
        assert(post.available@.no_duplicates()) by {
            if pre.available@.len() > 0 {
                assert forall|a: int, b: int|
                    0 <= a < post.available@.len() && 0 <= b < post.available@.len() && a != b
                        implies post.available@[a] != post.available@[b] by {
                    assert(post.available@[a] == pre.available@[a]);
                    assert(post.available@[b] == pre.available@[b]);
                }
            }
        }
        assert forall|a: int| 0 <= a < post.available@.len() implies #[trigger] post.available@[a]
            < d.len() by {
            assert(post.available@[a] == pre.available@[a]);
        }
        assert(post.wf());
        // handle bookkeeping for the contract
        post.lemma_pos(node);
        assert(post.pos(node) == j) by {
            assert(r1[j] == node as int);
        }
        post.lemma_pos(ind);
        assert(post.pos(ind) == j + 1) by {
            assert(r1[j + 1] == ind as int);
        }
        assert(post.next_of(node) == ind) by {
            assert(next_pos(m, j) == j + 1);
        }
        assert(post.prev_of(ind) == node) by {
            assert(prev_pos(m, j + 1) == j);
        }
        assert(post@ =~= pre@.insert(j + 1, val)) by {
            pre@.insert_ensures(j + 1, val);
            assert forall|k: int| 0 <= k < m implies post@[k] == pre@.insert(j + 1, val)[k] by {
                if k == j + 1 {
                    assert(post@[k] == d[ind as int]->0.val);
                } else {
                    let k0 = if k < j + 1 {
                        k
                    } else {
                        k - 1
                    };
                    assert(r1[k] == r0[k0]);
                    assert(d[r0[k0]]->0.val == pre.data@[r0[k0]]->0.val);
                    assert(pre@[k0] == pre.data@[r0[k0]]->0.val);
                }
            }
        }
        
        assert(post.live(node)) by {
            assert(post.ring@[j] == node as int);
        }
        assert(post.live(ind)) by {
            assert(post.ring@[j + 1] == ind as int);
        }
    }

    /// Inserts `val` immediately after the live node named by `node` and
    /// returns the fresh handle.  Every other element keeps its handle and
    /// its relative order; a tombstoned slot is reused whenever one exists,
    /// so storage grows only when the free pool is empty.
    #[verifier::rlimit(100)]
    pub fn insert(&mut self, node: usize, val: T) -> (r: usize)
        requires
            old(self).wf(),
            old(self).live(node),
        ensures
            final(self).wf(),
            final(self).live(r),
            !old(self).live(r),
            final(self).ring() == old(self).ring().insert(old(self).pos(node) + 1, r as int),
            final(self)@ == old(self)@.insert(old(self).pos(node) + 1, val),
            final(self).next_of(node) == r,
            final(self).prev_of(r) == node,
            final(self).pos(r) == old(self).pos(node) + 1,
            final(self)@[old(self).pos(node) + 1] == val,
            final(self).storage_size() == if old(self).free_size() > 0 {
                old(self).storage_size()
            } else {
                old(self).storage_size() + 1
            },
            final(self).free_size() == if old(self).free_size() > 0 {
                old(self).free_size() - 1
            } else {
                0
            },
    {
        proof {
            self.lemma_pos(node);
        }
        let ghost r0 = self.ring@;
        let ghost n = r0.len() as int;
        let ghost j = self.pos(node);
        let next = self.get_next_node(node);
        proof {
            self.lemma_pos(next);
        }
        let ghost q = next_pos(n, j);
        let ind = self.allocate(Node { val, prev: node, next });
        let total = self.data.len();
        proof {
            // the arena is never smaller than the element count, so the
            // length update below cannot overflow
            assert(self.len < total);
            assert(next as int == r0[q]);
            assert(self.pos(next) == q) by {
                assert(r0[q] == next as int);
            }
            assert(!r0.contains(ind as int));
            assert(node as int != ind as int && next as int != ind as int);
        }
        self.setprev(next, ind);
        self.setnext(node, ind);
        self.len = self.len + 1;
        self.ring = Ghost(r0.insert(j + 1, ind as int));
        proof {
            if n > 1 && next == node {
                assert(next_pos(n, j) != j);
                assert(r0[next_pos(n, j)] == r0[j]);
                assert(false);
            }
            Self::lemma_insert_restores(*old(self), *self, node, next, ind, j, val);
            old(self)@.insert_ensures(j + 1, val);
        }

        ind
    }

    /// The handle of the last logical element, or `None` when the list is
    /// empty.
    pub fn tail(&self) -> (r: Option<usize>)
        requires
            self.wf(),
        ensures
            r is Some <==> self@.len() > 0,
            self@.len() > 0 ==> r->0 as int == self.ring()[self.ring().len() - 1] && self.live(
                r->0,
            ),
    {
        match self.head {
            Some(h) => {
                proof {
                    assert(self.ring@[0] == h as int);
                    assert(self.live(h));
                    self.lemma_pos(h);
                    assert(self.pos(h) == 0);
                }
                let t = self.offset(h, -1);
                proof {
                    lemma_vec_len_bound(&self.data);
                    assert(self.follow_prev(h, 1nat) == self.prev_of(h)) by {
                        assert(self.follow_prev(h, 0nat) == h);
                    }
                }
                Some(t)
            },
            None => None,
        }
    }

    /// Appends `val` as the new last element and returns its handle.  On an
    /// empty list this creates a self-referential single-node ring, reusing
    /// a tombstoned slot when one exists.
    pub fn push(&mut self, val: T) -> (r: usize)
        requires
            old(self).wf(),
        ensures
            final(self).wf(),
            final(self).live(r),
            !old(self).live(r),
            final(self).ring() == old(self).ring().push(r as int),
            final(self)@ == old(self)@.push(val),
            final(self).pos(r) == old(self)@.len(),
            final(self).storage_size() == if old(self).free_size() > 0 {
                old(self).storage_size()
            } else {
                old(self).storage_size() + 1
            },
            final(self).free_size() == if old(self).free_size() > 0 {
                old(self).free_size() - 1
            } else {
                0
            },
    {
        let ghost r0 = self.ring@;
        let ghost n = r0.len() as int;
        match self.tail() {
            Some(t) => {
                proof {
                    self.lemma_pos(t);
                    assert(self.pos(t) == n - 1) by {
                        assert(r0[n - 1] == t as int);
                    }
                }
                let r = self.insert(t, val);
                proof {
                    assert(self.ring@ =~= r0.push(r as int)) by {
                        r0.insert_ensures(n, r as int);
                    }
                    assert(self@ =~= old(self)@.push(val)) by {
                        old(self)@.insert_ensures(n, val);
                    }
                    self.lemma_pos(r);
                    assert(self.pos(r) == n) by {
                        assert(self.ring@[n] == r as int);
                    }
                }
                r
            },
            None => {
                let ind = self.allocate(Node { val, prev: 0, next: 0 });
                self.setprev(ind, ind);
                self.setnext(ind, ind);
                self.head = Some(ind);
                self.len = 1;
                let ghost rnew: Seq<int> = seq![ind as int];
                self.ring = Ghost(rnew);
                proof {
                    lemma_vec_len_bound(&self.data);
                    let r1 = self.ring@;
                    let d = self.data@;
                    assert(r1.len() == 1 && r1[0] == ind as int);
                    assert(r1.no_duplicates());
                    assert forall|y: int| #[trigger] r1.contains(y) implies y == ind as int by {}
                    assert(d[ind as int] is Some && d[ind as int]->0.prev == ind && d[ind
                        as int]->0.next == ind);
                    assert(d[ind as int]->0.val == val);
                    // the arena still splits into the one live slot and the pool
                    assert forall|i: int| 0 <= i < d.len() implies {
                        &&& ((#[trigger] d[i]) is Some <==> r1.contains(i))
                        &&& (d[i] is None <==> self.available@.contains(i as usize))
                    } by {
                        if i == ind as int {
                            assert(r1.contains(i)) by {
                                assert(r1[0] == i);
                            }
                            if old(self).available@.len() > 0 {
                                lemma_drop_last_membership(old(self).available@);
                            }
                        } else {
                            assert(d[i] == old(self).data@[i]);
                            assert(old(self).data@[i] is None) by {
                                if old(self).data@[i] is Some {
                                    assert(r0.contains(i));
                                }
                            }
                            assert(!r1.contains(i));
                            if old(self).available@.len() > 0 {
                                lemma_drop_last_membership(old(self).available@);
                                assert(self.available@.contains(i as usize) <==> old(self).available@.contains(i as usize));
                            }
                            assert(old(self).available@.contains(i as usize));
                        }
                    }
                    assert(self.available@.no_duplicates()) by {
                        if old(self).available@.len() > 0 {
                            lemma_drop_last_membership(old(self).available@);
                        }
                    }
                    assert forall|a: int| 0 <= a < self.available@.len() implies #[trigger]
                        self.available@[a] < d.len() by {
                        assert(self.available@[a] == old(self).available@[a]);
                    }
                    assert(self.wf());
                    self.lemma_pos(ind);
                    assert(self.ring@ =~= r0.push(ind as int));
                    assert(self@ =~= old(self)@.push(val));
                }
                ind
            },
        }
    }

    /// Detaches the live node named by `node` from the ring and returns its
    /// element.  The slot is tombstoned and its index joins the free pool;
    /// every other element keeps its handle and relative order.  When the
    /// head itself is removed, the head advances to its successor.
    #[verifier::rlimit(100)]
    pub fn remove(&mut self, node: usize) -> (r: T)
        requires
            old(self).wf(),
            old(self).live(node),
        ensures
            final(self).wf(),
            r == old(self)@[old(self).pos(node)],
            final(self).ring() == old(self).ring().remove(old(self).pos(node)),
            final(self)@ == old(self)@.remove(old(self).pos(node)),
            !final(self).live(node),
            final(self).storage_size() == old(self).storage_size(),
            final(self).free_size() == old(self).free_size() + 1,
    {
        proof {
            self.lemma_pos(node);
        }
        let ghost r0 = self.ring@;
        let ghost n = r0.len() as int;
        let ghost j = self.pos(node);
        let nxt = self.get_next_node(node);
        let prv = self.get_prev_node(node);
        proof {
            self.lemma_pos(nxt);
            self.lemma_pos(prv);
            assert(nxt as int == r0[next_pos(n, j)]);
            assert(prv as int == r0[prev_pos(n, j)]);
            assert(self.pos(nxt) == next_pos(n, j)) by {
                assert(r0[next_pos(n, j)] == nxt as int);
            }
            assert(self.pos(prv) == prev_pos(n, j)) by {
                assert(r0[prev_pos(n, j)] == prv as int);
            }
        }
        if self.len == 1 {
            self.head = None;
        } else if self.head.unwrap() == node {
            self.head = Some(nxt);
        }
        self.setnext(prv, nxt);
        self.setprev(nxt, prv);
        let slot = &mut self.data[node];
        let taken = slot.take();
        let val = taken.unwrap().val;
        self.available.push(node);
        self.len = self.len - 1;
        self.ring = Ghost(r0.remove(j));
        proof {
            lemma_vec_len_bound(&self.data);
            let r1 = self.ring@;
            let m = n - 1;
            let d = self.data@;
            r0.remove_ensures(j);
            lemma_remove_membership(r0, j);
            lemma_push_membership(old(self).available@, node);
            assert(r1.len() == m);
            assert(forall|k: int| 0 <= k < j ==> r1[k] == r0[k]);
            assert(forall|k: int| j <= k < m ==> r1[k] == r0[k + 1]);
            assert(r1.no_duplicates());
            // head: gone, advanced past the removed node, or untouched
            assert(self.head is Some <==> m > 0);
            if m > 0 {
                assert(self.head->0 as int == r1[0]) by {
                    if j == 0 {
                        assert(old(self).head->0 == node);
                        assert(next_pos(n, 0) == 1);
                    } else {
                        assert(old(self).head->0 != node) by {
                            assert(r0[0] == old(self).head->0 as int);
                        }
                    }
                }
            }
            assert forall|k: int| 0 <= k < m implies 0 <= #[trigger] r1[k] < d.len() by {
                let k0 = if k < j {
                    k
                } else {
                    k + 1
                };
                assert(r1[k] == r0[k0]);
            }
            // the links of every remaining slot match its ring neighbours
            assert forall|k: int| 0 <= k < m implies {
                &&& (#[trigger] d[r1[k]]) is Some
                &&& d[r1[k]]->0.prev as int == r1[prev_pos(m, k)]
                &&& d[r1[k]]->0.next as int == r1[next_pos(m, k)]
            } by {
                let k0 = if k < j {
                    k
                } else {
                    k + 1
                };
                assert(r1[k] == r0[k0]);
                let s = r0[k0];
                assert(s != node as int);
                assert(d[s] is Some);
                assert(d[s]->0.val == old(self).data@[s]->0.val);
                // the next link of r1[k]
                if s == prv as int {
                    assert(k0 == prev_pos(n, j));
                    assert(d[s]->0.next == nxt);
                    if j == 0 {
                        assert(k0 == n - 1 && k == m - 1);
                        assert(next_pos(m, k) == 0 && r1[0] == r0[1]);
                        assert(nxt as int == r0[1]);
                    } else {
                        assert(k0 == j - 1 && k == j - 1);
                        if j == n - 1 {
                            assert(next_pos(m, k) == 0 && r1[0] == r0[0]);
                            assert(nxt as int == r0[0]);
                        } else {
                            assert(next_pos(m, k) == j && r1[j] == r0[j + 1]);
                            assert(nxt as int == r0[j + 1]);
                        }
                    }
                } else {
                    assert(d[s]->0.next == old(self).data@[s]->0.next);
                    let p0 = next_pos(n, k0);
                    assert(old(self).data@[s]->0.next as int == r0[p0]);
                    assert(p0 != j) by {
                        if p0 == j {
                            assert(k0 == prev_pos(n, j));
                        }
                    }
                    let p1 = if p0 < j {
                        p0
                    } else {
                        p0 - 1
                    };
                    assert(r1[p1] == r0[p0]);
                    assert(next_pos(m, k) == p1);
                }
                // the prev link of r1[k]
                if s == nxt as int {
                    assert(k0 == next_pos(n, j));
                    assert(d[s]->0.prev == prv);
                    if j == n - 1 {
                        assert(k0 == 0 && k == 0);
                        assert(prev_pos(m, 0) == m - 1 && r1[m - 1] == r0[n - 2]);
                        assert(prv as int == r0[n - 2]);
                    } else {
                        assert(k0 == j + 1 && k == j);
                        if j == 0 {
                            assert(prev_pos(m, 0) == m - 1 && r1[m - 1] == r0[n - 1]);
                            assert(prv as int == r0[n - 1]);
                        } else {
                            assert(prev_pos(m, k) == j - 1 && r1[j - 1] == r0[j - 1]);
                            assert(prv as int == r0[j - 1]);
                        }
                    }
                } else {
                    assert(d[s]->0.prev == old(self).data@[s]->0.prev);
                    let p0 = prev_pos(n, k0);
                    assert(old(self).data@[s]->0.prev as int == r0[p0]);
                    assert(p0 != j) by {
                        if p0 == j {
                            assert(k0 == next_pos(n, j));
                        }
                    }
                    let p1 = if p0 < j {
                        p0
                    } else {
                        p0 - 1
                    };
                    assert(r1[p1] == r0[p0]);
                    assert(prev_pos(m, k) == p1);
                }
            }
            // the arena still splits into live slots and the free pool
            assert forall|i: int| 0 <= i < d.len() implies {
                &&& ((#[trigger] d[i]) is Some <==> r1.contains(i))
                &&& (d[i] is None <==> self.available@.contains(i as usize))
            } by {
                if i == node as int {
                    assert(d[i] is None);
                    assert(!r1.contains(i));
                    assert(self.available@.contains(i as usize));
                } else {
                    assert(d[i] is Some <==> old(self).data@[i] is Some) by {
                        if i != prv as int && i != nxt as int {
                            assert(d[i] == old(self).data@[i]);
                        }
                    }
                    assert(r1.contains(i) <==> r0.contains(i));
                    assert(self.available@.contains(i as usize) <==> old(self).available@.contains(
                        i as usize,
                    ));
                }
            }
            assert(self.available@.no_duplicates()) by {
                assert(!old(self).available@.contains(node)) by {
                    assert(old(self).data@[node as int] is Some);
                }
            }
            assert forall|a: int| 0 <= a < self.available@.len() implies #[trigger] self.available@[a]
                < d.len() by {
                if a < old(self).available@.len() {
                    assert(self.available@[a] == old(self).available@[a]);
                } else {
                    assert(self.available@[a] == node);
                }
            }
            assert(self.wf());
            assert(!self.live(node));
            // the returned element and the remaining sequence
            assert(val == old(self)@[j]) by {
                assert(old(self)@[j] == old(self).data@[r0[j]]->0.val);
            }
            assert(self@ =~= old(self)@.remove(j)) by {
                old(self)@.remove_ensures(j);
                assert forall|k: int| 0 <= k < m implies self@[k] == old(self)@.remove(j)[k] by {
                    let k0 = if k < j {
                        k
                    } else {
                        k + 1
                    };
                    assert(r1[k] == r0[k0]);
                    assert(d[r0[k0]]->0.val == old(self).data@[r0[k0]]->0.val);
                    assert(old(self)@[k0] == old(self).data@[r0[k0]]->0.val);
                }
            }
        }
        val
    }

    /// Makes the live node `nhead` the new head.  The ring is unchanged, so
    /// the logical order becomes its rotation starting at `nhead`.
    pub fn set_head(&mut self, nhead: usize)
        requires
            old(self).wf(),
            old(self).live(nhead),
        ensures
            final(self).wf(),
            final(self).ring() == rotated(old(self).ring(), old(self).pos(nhead)),
            final(self)@ == rotated(old(self)@, old(self).pos(nhead)),
            final(self).storage_size() == old(self).storage_size(),
            final(self).free_size() == old(self).free_size(),
    {
        proof {
            self.lemma_pos(nhead);
        }
        let ghost r0 = self.ring@;
        let ghost n = r0.len() as int;
        let ghost j = self.pos(nhead);
        self.head = Some(nhead);
        self.ring = Ghost(rotated(r0, j));
        proof {
            let r1 = self.ring@;
            let d = self.data@;
            lemma_rotated_index(r0, j);
            lemma_rotated_membership(r0, j);
            assert(r1[0] == r0[j]);
            assert forall|k: int| 0 <= k < n implies 0 <= #[trigger] r1[k] < d.len() by {
                let k0 = if j + k < n {
                    j + k
                } else {
                    j + k - n
                };
                assert(r1[k] == r0[k0]);
            }
            // rotating the ring leaves every link in step with its neighbours
            assert forall|k: int| 0 <= k < n implies {
                &&& (#[trigger] d[r1[k]]) is Some
                &&& d[r1[k]]->0.prev as int == r1[prev_pos(n, k)]
                &&& d[r1[k]]->0.next as int == r1[next_pos(n, k)]
            } by {
                let k0 = if j + k < n {
                    j + k
                } else {
                    j + k - n
                };
                assert(r1[k] == r0[k0]);
                let pk = prev_pos(n, k);
                let p0 = if j + pk < n {
                    j + pk
                } else {
                    j + pk - n
                };
                assert(r1[pk] == r0[p0]);
                assert(p0 == prev_pos(n, k0));
                let nk = next_pos(n, k);
                let q0 = if j + nk < n {
                    j + nk
                } else {
                    j + nk - n
                };
                assert(r1[nk] == r0[q0]);
                assert(q0 == next_pos(n, k0));
            }
            assert(self.wf());
            assert(self@ =~= rotated(old(self)@, j)) by {
                lemma_rotated_index(old(self)@, j);
                assert forall|k: int| 0 <= k < n implies self@[k] == rotated(old(self)@, j)[k] by {
                    let k0 = if j + k < n {
                        j + k
                    } else {
                        j + k - n
                    };
                    assert(r1[k] == r0[k0]);
                    assert(old(self)@[k0] == d[r0[k0]]->0.val);
                }
            }
        }
    }

    /// Returns a mutable reference to the element named by `node`, or
    /// `None` when `node` is out of bounds or tombstoned.  Only the element
    /// behind the reference can change; the ring and the handles stay as
    /// they are.
    pub fn get_mut(&mut self, node: usize) -> (r: Option<&mut T>)
        requires
            old(self).wf(),
        ensures
            r is Some <==> old(self).live(node),
            r is None ==> final(self)@ == old(self)@ && final(self).wf() && final(self).ring()
                == old(self).ring() && final(self).storage_size() == old(self).storage_size()
                && final(self).free_size() == old(self).free_size(),
            r is Some ==> *r->0 == old(self)@[old(self).pos(node)] && final(self).wf()
                && final(self).ring() == old(self).ring() && final(self)@ =~= old(self)@.update(
                old(self).pos(node),
                *final(r->0),
            ) && final(self).storage_size() == old(self).storage_size() && final(self).free_size()
                == old(self).free_size(),
    {
        proof {
            if self.live(node) {
                self.lemma_pos(node);
            }
        }
        if node < self.data.len() {
            let slot = &mut self.data[node];
            match slot {
                Some(nd) => Some(&mut nd.val),
                None => None,
            }
        } else {
            None
        }
    }

    /// Builds a list from `vals`, pushing each element in order; the logical
    /// order of the result is exactly the order of `vals`.
    pub fn from_vec(vals: Vec<T>) -> (r: Self)
        ensures
            r.wf(),
            r@ == vals@,
    {
        let ghost all = vals@;
        let mut list = Self::new();
        let mut vals = vals;
        while vals.len() > 0
            invariant
                list.wf(),
                list@ + vals@ == all,
            decreases vals@.len(),
        {
            let v = vals.remove(0);
            list.push(v);
            proof {
                assert(list@ + vals@ =~= all);
            }
        }
        proof {
            assert(list@ =~= all);
        }
        list
    }

    /// A borrowing iterator over the whole list, starting at the head.
    pub fn iter(&self) -> (r: VecLinkedListIter<'_, T>)
        requires
            self.wf(),
        ensures
            r.wf(),
            r.list() == *self,
            r.future() == self@,
    {
        let start = self.head.unwrap_or(0);
        let r = VecLinkedListIter { v: self, curnode: start, amt: 0 };
        proof {
            if self@.len() > 0 {
                assert(self.live(start)) by {
                    assert(self.ring@[0] == start as int);
                }
                self.lemma_pos(start);
                assert(self.pos(start) == 0) by {
                    assert(self.ring@[0] == start as int);
                }
                assert(r.future() =~= self@) by {
                    lemma_rotated_index(self@, 0);
                }
            } else {
                assert(r.future() =~= self@);
            }
        }
        r
    }

    /// A borrowing iterator that starts at the live node `start` and still
    /// visits all `len()` elements, wrapping around the ring.
    pub fn iter_with_start(&self, start: usize) -> (r: VecLinkedListIter<'_, T>)
        requires
            self.wf(),
            self@.len() > 0 ==> self.live(start),
        ensures
            r.wf(),
            r.list() == *self,
            r.future() == if self@.len() == 0 {
                Seq::<T>::empty()
            } else {
                rotated(self@, self.pos(start))
            },
    {
        let r = VecLinkedListIter { v: self, curnode: start, amt: 0 };
        proof {
            if self@.len() > 0 {
                self.lemma_pos(start);
                assert(r.future() =~= rotated(self@, self.pos(start))) by {
                    lemma_rotated_index(self@, self.pos(start));
                }
            } else {
                assert(r.future() =~= Seq::<T>::empty());
            }
        }
        r
    }

    /// A consuming iterator over the whole list, starting at the head: each
    /// step removes the node it yields, so running it to completion drains
    /// the list.
    pub fn into_iter(self) -> (r: VecLinkedListIntoIter<T>)
        requires
            self.wf(),
        ensures
            r.wf(),
            r.future() == self@,
    {
        let start = self.head.unwrap_or(0);
        let ghost pre = self;
        let r = VecLinkedListIntoIter { v: self, curnode: start };
        proof {
            if pre@.len() > 0 {
                assert(pre.live(start)) by {
                    assert(pre.ring@[0] == start as int);
                }
                pre.lemma_pos(start);
                assert(pre.pos(start) == 0) by {
                    assert(pre.ring@[0] == start as int);
                }
                assert(r.future() =~= pre@) by {
                    lemma_rotated_index(pre@, 0);
                }
            } else {
                assert(r.future() =~= pre@);
            }
        }
        r
    }

    /// A consuming iterator that starts draining at the live node `start`
    /// and wraps around the ring.
    pub fn into_iter_with_start(self, start: usize) -> (r: VecLinkedListIntoIter<T>)
        requires
            self.wf(),
            self@.len() > 0 ==> self.live(start),
        ensures
            r.wf(),
            r.future() == if self@.len() == 0 {
                Seq::<T>::empty()
            } else {
                rotated(self@, self.pos(start))
            },
    {
        let ghost pre = self;
        let r = VecLinkedListIntoIter { v: self, curnode: start };
        proof {
            if pre@.len() > 0 {
                pre.lemma_pos(start);
            } else {
                assert(r.future() =~= Seq::<T>::empty());
            }
        }
        r
    }

    /// Walking forward lands `k` positions further along the ring, modulo
    /// its length.
    proof fn lemma_follow_next_at(&self, h: usize, k: nat)
        requires
            self.wf(),
            self.live(h),
            k <= self.ring().len(),
        ensures
            self.live(self.follow_next(h, k)),
            self.pos(self.follow_next(h, k)) == if self.pos(h) + k < self.ring().len() {
                self.pos(h) + k
            } else {
                self.pos(h) + k - self.ring().len()
            },
        decreases k,
    {
        let n = self.ring@.len() as int;
        self.lemma_pos(h);
        lemma_vec_len_bound(&self.data);
        if k > 0 {
            self.lemma_follow_next_at(h, (k - 1) as nat);
            let g = self.follow_next(h, (k - 1) as nat);
            self.lemma_pos(g);
            let q = next_pos(n, self.pos(g));
            assert(self.follow_next(h, k) == self.next_of(g));
            assert(self.live(self.next_of(g))) by {
                assert(self.ring@[q] == self.next_of(g) as int);
            }
            self.lemma_pos(self.next_of(g));
            assert(self.pos(self.next_of(g)) == q) by {
                assert(self.ring@[q] == self.next_of(g) as int);
            }
        }
    }

    /// Walking backward lands `k` positions back along the ring, modulo its
    /// length.
    proof fn lemma_follow_prev_at(&self, h: usize, k: nat)
        requires
            self.wf(),
            self.live(h),
            k <= self.ring().len(),
        ensures
            self.live(self.follow_prev(h, k)),
            self.pos(self.follow_prev(h, k)) == if self.pos(h) - k >= 0 {
                self.pos(h) - k
            } else {
                self.pos(h) - k + self.ring().len()
            },
        decreases k,
    {
        let n = self.ring@.len() as int;
        self.lemma_pos(h);
        lemma_vec_len_bound(&self.data);
        if k > 0 {
            self.lemma_follow_prev_at(h, (k - 1) as nat);
            let g = self.follow_prev(h, (k - 1) as nat);
            self.lemma_pos(g);
            let q = prev_pos(n, self.pos(g));
            assert(self.follow_prev(h, k) == self.prev_of(g));
            assert(self.live(self.prev_of(g))) by {
                assert(self.ring@[q] == self.prev_of(g) as int);
            }
            self.lemma_pos(self.prev_of(g));
            assert(self.pos(self.prev_of(g)) == q) by {
                assert(self.ring@[q] == self.prev_of(g) as int);
            }
        }
    }

    /// Ring closure: from any live node, following `next` exactly `len()`
    /// times returns to that node, and likewise for `prev`.
    pub proof fn lemma_ring_closure(&self, h: usize)
        requires
            self.wf(),
            self.live(h),
        ensures
            self.follow_next(h, self@.len() as nat) == h,
            self.follow_prev(h, self@.len() as nat) == h,
    {
        let n = self.ring().len() as nat;
        self.lemma_pos(h);
        self.lemma_follow_next_at(h, n);
        let f = self.follow_next(h, n);
        self.lemma_pos(f);
        assert(f as int == self.ring()[self.pos(h)]);
        self.lemma_follow_prev_at(h, n);
        let b = self.follow_prev(h, n);
        self.lemma_pos(b);
        assert(b as int == self.ring()[self.pos(h)]);
    }

    /// Handle stability under insertion: when `post` is `pre` with `val`
    /// inserted after `node` at the fresh handle, every handle that was
    /// live stays live and still names the same element.
    pub proof fn lemma_insert_stability(pre: Self, post: Self, node: usize, fresh: usize, val: T, h: usize)
        requires
            pre.wf(),
            post.wf(),
            pre.live(node),
            !pre.live(fresh),
            pre.live(h),
            post.ring() == pre.ring().insert(pre.pos(node) + 1, fresh as int),
            post@ == pre@.insert(pre.pos(node) + 1, val),
        ensures
            post.live(h),
            post.pos(h) == if pre.pos(h) <= pre.pos(node) {
                pre.pos(h)
            } else {
                pre.pos(h) + 1
            },
            post@[post.pos(h)] == pre@[pre.pos(h)],
    {
        let j = pre.pos(node);
        let k = pre.pos(h);
        pre.lemma_pos(node);
        pre.lemma_pos(h);
        pre.ring().insert_ensures(j + 1, fresh as int);
        pre@.insert_ensures(j + 1, val);
        let k1 = if k <= j {
            k
        } else {
            k + 1
        };
        assert(post.ring()[k1] == h as int);
        assert(post.live(h)) by {
            assert(post.ring()[k1] == h as int);
        }
        post.lemma_pos(h);
        assert(post.pos(h) == k1) by {
            assert(post.ring()[k1] == h as int);
        }
        assert(post@[k1] == pre@[k]);
    }

    /// Handle stability under removal: when `post` is `pre` with the node
    /// at `node` removed, every other live handle stays live and still
    /// names the same element.
    pub proof fn lemma_remove_stability(pre: Self, post: Self, node: usize, h: usize)
        requires
            pre.wf(),
            post.wf(),
            pre.live(node),
            pre.live(h),
            h != node,
            post.ring() == pre.ring().remove(pre.pos(node)),
            post@ == pre@.remove(pre.pos(node)),
        ensures
            post.live(h),
            post.pos(h) == if pre.pos(h) < pre.pos(node) {
                pre.pos(h)
            } else {
                pre.pos(h) - 1
            },
            post@[post.pos(h)] == pre@[pre.pos(h)],
    {
        let j = pre.pos(node);
        let k = pre.pos(h);
        pre.lemma_pos(node);
        pre.lemma_pos(h);
        assert(k != j) by {
            if k == j {
                assert(pre.ring()[k] == h as int && pre.ring()[j] == node as int);
            }
        }
        pre.ring().remove_ensures(j);
        pre@.remove_ensures(j);
        let k1 = if k < j {
            k
        } else {
            k - 1
        };
        assert(post.ring()[k1] == h as int);
        assert(post.live(h)) by {
            assert(post.ring()[k1] == h as int);
        }
        post.lemma_pos(h);
        assert(post.pos(h) == k1) by {
            assert(post.ring()[k1] == h as int);
        }
        assert(post@[k1] == pre@[k]);
    }
}

/// A borrowing forward iterator: yields references to all `len()` elements,
/// starting at a chosen node and wrapping around the ring.
pub struct VecLinkedListIter<'a, T> {
    v: &'a VecLinkedList<T>,
    curnode: usize,
    amt: usize,
}

impl<'a, T> VecLinkedListIter<'a, T> {
    /// The list being iterated.
    pub closed spec fn list(&self) -> VecLinkedList<T> {
        *self.v
    }

    /// The elements still to be yielded, in order.
    pub closed spec fn future(&self) -> Seq<T> {
        if self.amt as int >= self.v@.len() {
            Seq::<T>::empty()
        } else {
            rotated(self.v@, self.v.pos(self.curnode)).take(self.v@.len() - self.amt as int)
        }
    }

    /// The iterator's cursor is a live node until all elements are yielded.
    pub closed spec fn wf(&self) -> bool {
        &&& self.v.wf()
        &&& self.amt as int <= self.v@.len()
        &&& ((self.amt as int) < self.v@.len() ==> self.v.live(self.curnode))
    }

    /// Yields the next element, or `None` once `len()` elements have been
    /// yielded.
    pub fn next(&mut self) -> (r: Option<&'a T>)
        requires
            old(self).wf(),
        ensures
            final(self).wf(),
            final(self).list() == old(self).list(),
            old(self).future().len() == 0 ==> r is None && final(self).future() == old(self).future(),
            old(self).future().len() > 0 ==> r is Some && *r->0 == old(self).future()[0] && final(self).future() == old(self).future().drop_first(),
    {
        if self.amt < self.v.len() {
            let ghost n = self.v@.len() as int;
            let ghost p = self.v.pos(self.curnode);
            let ghost c = n - self.amt as int;
            proof {
                self.v.lemma_pos(self.curnode);
            }
            let thisnode = self.curnode;
            self.curnode = self.v.offset(self.curnode, 1);
            self.amt = self.amt + 1;
            let r = self.v.get(thisnode);
            proof {
                assert(self.v.follow_next(thisnode, 1nat) == self.v.next_of(thisnode)) by {
                    assert(self.v.follow_next(thisnode, 0nat) == thisnode);
                }
                let q = next_pos(n, p);
                assert(self.curnode as int == self.v.ring@[q]);
                self.v.lemma_pos(self.curnode);
                assert(self.v.pos(self.curnode) == q) by {
                    assert(self.v.ring@[q] == self.curnode as int);
                }
                lemma_rotated_drop_first(self.v@, p, c);
                if c == 1 {
                    assert(final(self).future() =~= old(self).future().drop_first());
                } else {
                    assert(final(self).future() =~= old(self).future().drop_first());
                }
            }
            r
        } else {
            None
        }
    }
}

/// A consuming forward iterator: removes and yields each visited node, so
/// exhausting it leaves the list it took over empty.
pub struct VecLinkedListIntoIter<T> {
    v: VecLinkedList<T>,
    curnode: usize,
}

impl<T> VecLinkedListIntoIter<T> {
    /// The elements still to be yielded, in order.
    pub closed spec fn future(&self) -> Seq<T> {
        if self.v@.len() == 0 {
            Seq::<T>::empty()
        } else {
            rotated(self.v@, self.v.pos(self.curnode))
        }
    }

    /// The iterator's cursor is a live node of the not-yet-drained rest.
    pub closed spec fn wf(&self) -> bool {
        &&& self.v.wf()
        &&& (self.v@.len() > 0 ==> self.v.live(self.curnode))
    }

    /// Removes the node under the cursor and yields its element, or `None`
    /// once the underlying list is empty.
    pub fn next(&mut self) -> (r: Option<T>)
        requires
            old(self).wf(),
        ensures
            final(self).wf(),
            old(self).future().len() == 0 ==> r is None && final(self).future() == old(self).future(),
            old(self).future().len() > 0 ==> r == Some(old(self).future()[0]) && final(self).future() == old(self).future().drop_first(),
    {
        if self.v.len() > 0 {
            let ghost s = self.v@;
            let ghost n = s.len() as int;
            let ghost p = self.v.pos(self.curnode);
            proof {
                self.v.lemma_pos(self.curnode);
            }
            let nextnode = self.v.offset(self.curnode, 1);
            let val = self.v.remove(self.curnode);
            self.curnode = nextnode;
            proof {
                assert(old(self).v.follow_next(old(self).curnode, 1nat) == old(self).v.next_of(
                    old(self).curnode,
                )) by {
                    assert(old(self).v.follow_next(old(self).curnode, 0nat) == old(self).curnode);
                }
                lemma_rotated_index(s, p);
                let q = next_pos(n, p);
                assert(nextnode as int == old(self).v.ring@[q]);
                if n > 1 {
                    lemma_rotated_remove(s, p);
                    let p2: int = if p == n - 1 {
                        0
                    } else {
                        p
                    };
                    old(self).v.ring@.remove_ensures(p);
                    assert(self.v.ring@[p2] == nextnode as int);
                    assert(self.v.live(nextnode)) by {
                        assert(self.v.ring@[p2] == nextnode as int);
                    }
                    self.v.lemma_pos(nextnode);
                    assert(self.v.pos(nextnode) == p2) by {
                        assert(self.v.ring@[p2] == nextnode as int);
                    }
                    assert(self.v@ == s.remove(p));
                    assert(final(self).future() == old(self).future().drop_first());
                } else {
                    assert(self.v@.len() == 0);
                    assert(final(self).future() =~= old(self).future().drop_first());
                }
            }
            Some(val)
        } else {
            None
        }
    }
}

} // verus!
