use vstd::prelude::*;

verus! {

/// A node of the arrays that hold the lists: (next, prev) by index.
pub type Links = Seq<(int, int)>;

/// Every link points at a node of the arrays.
#[verifier::opaque]
pub open spec fn links_in_range(s: Links) -> bool {
    forall|i: int| #![trigger s[i]] 0 <= i < s.len() ==> 0 <= s[i].0 < s.len() && 0 <= s[i].1 < s.len()
}

/// The links are consistent: the successor's predecessor and the predecessor's successor of
/// each node are the node itself, so the nodes fall into disjoint rings.
#[verifier::opaque]
pub open spec fn links_consistent(s: Links) -> bool {
    forall|i: int| 0 <= i < s.len() ==> s[(#[trigger] s[i]).0].1 == i && s[s[i].1].0 == i
}

pub proof fn lemma_in_range_at(s: Links, j: int)
    requires
        links_in_range(s),
        0 <= j < s.len(),
    ensures
        0 <= s[j].0 < s.len(),
        0 <= s[j].1 < s.len(),
{
    reveal(links_in_range);
}

pub proof fn lemma_consistent_at(s: Links, j: int)
    requires
        links_consistent(s),
        0 <= j < s.len(),
    ensures
        s[s[j].0].1 == j,
        s[s[j].1].0 == j,
{
    reveal(links_consistent);
}

/// `link(prev, next)`: `next` follows `prev`.
pub open spec fn spec_link(s: Links, p: int, n: int) -> Links {
    Seq::new(
        s.len(),
        |j: int|
            if j == n {
                (if n == p { n } else { s[n].0 }, p)
            } else if j == p {
                (n, s[p].1)
            } else {
                s[j]
            },
    )
}

/// `del(i)`: takes `i` out of its ring (nothing changes when `i` is alone).
pub open spec fn spec_del(s: Links, i: int) -> Links {
    if s[i].1 == i {
        s
    } else {
        spec_link(spec_link(s, s[i].1, s[i].0), i, i)
    }
}

/// `insert(list, e)`: `e` leaves its ring and goes in front of the head `node`, at the end of its list.
pub open spec fn spec_insert(s: Links, node: int, e: int) -> Links {
    let s1 = spec_del(s, e);
    let prev = s1[node].1;
    spec_link(spec_link(s1, prev, e), e, node)
}

/// `insert_first(list, e)`: `e` leaves its ring; then the first node after the head `node` is
/// linked to `e` and `e` to the head.
pub open spec fn spec_insert_first(s: Links, node: int, e: int) -> Links {
    let s1 = spec_del(s, e);
    let first = s1[node].0;
    spec_link(spec_link(s1, first, e), e, node)
}

/// Following successors from `p` meets a node at or above `cap` (a list head) within `fuel` steps.
pub open spec fn reaches_head(s: Links, cap: int, p: int, fuel: nat) -> bool
    decreases fuel,
{
    p >= cap || (fuel > 0 && 0 <= p < s.len() && reaches_head(s, cap, s[p].0, (fuel - 1) as nat))
}

struct ListNode {
    next: i32,
    prev: i32,
}

/// `list_num` circular doubly linked lists over the elements `0 .. cap`, kept in arrays;
/// node `cap + k` is the head of list `k`.
pub struct LinkList {
    cap: i32,
    list_num: i32,
    a: Vec<ListNode>,
}

impl View for LinkList {
    type V = Links;

    closed spec fn view(&self) -> Links {
        self.a@.map_values(|n: ListNode| (n.next as int, n.prev as int))
    }
}

impl LinkList {
    /// Number of elements.
    pub closed spec fn spec_cap(&self) -> int {
        self.cap as int
    }

    /// Number of lists.
    pub closed spec fn spec_list_num(&self) -> int {
        self.list_num as int
    }

    /// The arrays hold one node per element and per list, and every link is in range.
    pub closed spec fn inv(&self) -> bool {
        &&& 0 <= self.cap
        &&& 0 <= self.list_num
        &&& self.cap + self.list_num <= i32::MAX
        &&& self.a@.len() == self.cap + self.list_num
        &&& links_in_range(self@)
    }

    pub proof fn lemma_inv(&self)
        requires
            self.inv(),
        ensures
            self@.len() == self.spec_cap() + self.spec_list_num(),
            0 <= self.spec_cap(),
            0 <= self.spec_list_num(),
            self.spec_cap() + self.spec_list_num() <= i32::MAX,
            links_in_range(self@),
    {
    }

    fn get(&self, i: i32) -> (r: (i32, i32))
        requires
            self.inv(),
            0 <= i < self@.len(),
        ensures
            r.0 == self@[i as int].0,
            r.1 == self@[i as int].1,
            0 <= r.0 < self@.len(),
            0 <= r.1 < self@.len(),
    {
        proof {
            lemma_in_range_at(self@, i as int);
        }
        let n = &self.a[i as usize];
        (n.next, n.prev)
    }

    fn link(&mut self, prev: i32, next: i32)
        requires
            old(self).inv(),
            0 <= prev < old(self)@.len(),
            0 <= next < old(self)@.len(),
        ensures
            final(self).inv(),
            final(self)@ == spec_link(old(self)@, prev as int, next as int),
            final(self).spec_cap() == old(self).spec_cap(),
            final(self).spec_list_num() == old(self).spec_list_num(),
    {
        let pp = self.a[prev as usize].prev;
        self.a.set(prev as usize, ListNode { next: next, prev: pp });
        let nn = self.a[next as usize].next;
        self.a.set(next as usize, ListNode { next: nn, prev: prev });
        assert(self@ =~= spec_link(old(self)@, prev as int, next as int));
        proof {
            reveal(links_in_range);
            assert forall|i: int| 0 <= i < self@.len() implies 0 <= #[trigger] self@[i].0 < self@.len() && 0 <= self@[i].1 < self@.len() by {
                lemma_in_range_at(old(self)@, i);
            }
        }
    }

    /// Takes element `index` out of the list that holds it.
    pub fn del(&mut self, index: i32)
        requires
            old(self).inv(),
            0 <= index < old(self)@.len(),
        ensures
            final(self).inv(),
            final(self)@ == spec_del(old(self)@, index as int),
            final(self).spec_cap() == old(self).spec_cap(),
            final(self).spec_list_num() == old(self).spec_list_num(),
    {
        let (n, p) = self.get(index);
        if p == index {
            return;
        }
        self.link(p, n);
        self.link(index, index);
    }

    /// Moves element `elem` to the end of list `list_id`.
    pub fn insert(&mut self, list_id: i32, elem: i32)
        requires
            old(self).inv(),
            0 <= list_id + old(self).spec_cap() < old(self)@.len(),
            0 <= elem < old(self)@.len(),
        ensures
            final(self).inv(),
            final(self)@ == spec_insert(old(self)@, list_id + old(self).spec_cap(), elem as int),
            final(self).spec_cap() == old(self).spec_cap(),
            final(self).spec_list_num() == old(self).spec_list_num(),
    {
        self.del(elem);
        let node = list_id + self.cap;
        let (_, prev) = self.get(node);
        self.link(prev, elem);
        self.link(elem, node);
    }

    /// Removes `elem` from its list, then links the first node after the head of list
    /// `list_id` to `elem`, and `elem` to the head.
    pub fn insert_first(&mut self, list_id: i32, elem: i32)
        requires
            old(self).inv(),
            0 <= list_id + old(self).spec_cap() < old(self)@.len(),
            0 <= elem < old(self)@.len(),
        ensures
            final(self).inv(),
            final(self)@ == spec_insert_first(old(self)@, list_id + old(self).spec_cap(), elem as int),
            final(self).spec_cap() == old(self).spec_cap(),
            final(self).spec_list_num() == old(self).spec_list_num(),
    {
        self.del(elem);
        let node = list_id + self.cap;
        let (first, _) = self.get(node);
        self.link(first, elem);
        self.link(elem, node);
    }

    /// The node after the head of list `list_id`.
    pub fn get_first(&self, list_id: i32) -> (r: i32)
        requires
            self.inv(),
            0 <= list_id + self.spec_cap() < self@.len(),
        ensures
            r == self@[list_id + self.spec_cap()].0,
            0 <= r < self@.len(),
    {
        let (n, _) = self.get(list_id + self.cap);
        n
    }

    /// The node after `index`.
    pub fn next(&self, index: i32) -> (r: i32)
        requires
            self.inv(),
            0 <= index < self@.len(),
        ensures
            r == self@[index as int].0,
            0 <= r < self@.len(),
    {
        let (n, _) = self.get(index);
        n
    }

    /// Whether `index` is a list head rather than an element.
    pub fn is_head(&self, index: i32) -> (r: bool)
        ensures
            r == (index >= self.spec_cap()),
    {
        index >= self.cap
    }

    /// Whether `index` is in no list.
    pub fn is_alone(&self, index: i32) -> (r: bool)
        requires
            self.inv(),
            0 <= index < self@.len(),
        ensures
            r == (self@[index as int].0 == index),
    {
        let (n, _) = self.get(index);
        n == index
    }

    /// `n` empty lists over `c` elements, each node alone.
    pub fn new(c: i32, n: i32) -> (r: Self)
        requires
            0 <= c,
            0 <= n,
            c + n <= i32::MAX,
        ensures
            r.inv(),
            r.spec_cap() == c,
            r.spec_list_num() == n,
            r@ == Seq::new((c + n) as nat, |i: int| (i, i)),
    {
        let total = c + n;
        let mut v: Vec<ListNode> = Vec::with_capacity(total as usize);
        let mut i: i32 = 0;
        while i < total
            invariant
                0 <= i <= total,
                v@.len() == i,
                forall|j: int| 0 <= j < i ==> (#[trigger] v@[j]).next == j && v@[j].prev == j,
            decreases total - i,
        {
            v.push(ListNode { next: i, prev: i });
            i = i + 1;
        }
        let r = Self { cap: c, list_num: n, a: v };
        assert(r@ =~= Seq::new((c + n) as nat, |i: int| (i, i)));
        proof {
            reveal(links_in_range);
        }
        r
    }
}


/// The links after taking `i` (not alone) out of its ring, node by node.
pub open spec fn del_result(s: Links, i: int) -> Links {
    let p = s[i].1;
    let n = s[i].0;
    Seq::new(
        s.len(),
        |j: int|
            if j == i {
                (i, i)
            } else if j == p && j == n {
                (p, p)
            } else if j == n {
                (s[n].0, p)
            } else if j == p {
                (n, s[p].1)
            } else {
                s[j]
            },
    )
}

proof fn lemma_del_result_at(s: Links, i: int, j: int)
    requires
        links_in_range(s),
        links_consistent(s),
        0 <= i < s.len(),
        0 <= j < s.len(),
        s[i].1 != i,
    ensures
        ({
            let r = del_result(s, i);
            r[r[j].0].1 == j && r[r[j].1].0 == j && 0 <= r[j].0 < s.len() && 0 <= r[j].1 < s.len()
        }),
{
    let p = s[i].1;
    let n = s[i].0;
    lemma_consistent_at(s, i);
    lemma_in_range_at(s, i);
    lemma_consistent_at(s, j);
    lemma_in_range_at(s, j);
    lemma_consistent_at(s, n);
    lemma_in_range_at(s, n);
    lemma_consistent_at(s, p);
    lemma_in_range_at(s, p);
    let a = s[j].0;
    let b = s[j].1;
    lemma_consistent_at(s, a);
    lemma_consistent_at(s, b);
    let sa = s[n].0;
    let sb = s[p].1;
    lemma_consistent_at(s, sa);
    lemma_consistent_at(s, sb);
    lemma_in_range_at(s, sa);
    lemma_in_range_at(s, sb);
}

/// Taking a node out of its ring keeps the links consistent and leaves the node alone.
pub proof fn lemma_del_keeps_rings(s: Links, i: int)
    requires
        links_in_range(s),
        links_consistent(s),
        0 <= i < s.len(),
    ensures
        links_in_range(spec_del(s, i)),
        links_consistent(spec_del(s, i)),
        spec_del(s, i)[i] == (i, i),
        spec_del(s, i).len() == s.len(),
{
    let p = s[i].1;
    let n = s[i].0;
    lemma_consistent_at(s, i);
    lemma_in_range_at(s, i);
    if p != i {
        let s1 = spec_link(s, p, n);
        let s2 = spec_link(s1, i, i);
        let r = del_result(s, i);
        assert(s2 =~= r);
        assert(s2 == spec_del(s, i));
        reveal(links_consistent);
        reveal(links_in_range);
        assert forall|j: int| 0 <= j < r.len() implies r[(#[trigger] r[j]).0].1 == j && r[r[j].1].0 == j by {
            lemma_del_result_at(s, i, j);
        }
        assert forall|j: int| 0 <= j < r.len() implies 0 <= #[trigger] r[j].0 < r.len() && 0 <= r[j].1 < r.len() by {
            lemma_del_result_at(s, i, j);
        }
    } else {
        lemma_consistent_at(s, i);
    }
}

/// The links after linking alone `e` between `prev` and `next`, node by node.
pub open spec fn splice_result(t: Links, prev: int, e: int, next: int) -> Links {
    Seq::new(
        t.len(),
        |j: int|
            if j == e {
                (next, prev)
            } else if j == next && j == prev {
                (e, e)
            } else if j == next {
                (t[next].0, e)
            } else if j == prev {
                (e, t[prev].1)
            } else {
                t[j]
            },
    )
}

proof fn lemma_splice_result_at(t: Links, prev: int, e: int, next: int, j: int)
    requires
        links_in_range(t),
        links_consistent(t),
        0 <= prev < t.len(),
        0 <= e < t.len(),
        0 <= j < t.len(),
        t[e] == (e, e),
        t[prev].0 == next,
        e != next,
    ensures
        ({
            let r = splice_result(t, prev, e, next);
            r[r[j].0].1 == j && r[r[j].1].0 == j && 0 <= r[j].0 < t.len() && 0 <= r[j].1 < t.len()
        }),
{
    lemma_consistent_at(t, prev);
    lemma_in_range_at(t, prev);
    lemma_consistent_at(t, e);
    lemma_consistent_at(t, j);
    lemma_in_range_at(t, j);
    lemma_in_range_at(t, next);
    lemma_consistent_at(t, next);
    let a = t[j].0;
    let b = t[j].1;
    lemma_consistent_at(t, a);
    lemma_consistent_at(t, b);
    let na = t[next].0;
    let pb = t[prev].1;
    lemma_consistent_at(t, na);
    lemma_consistent_at(t, pb);
    lemma_in_range_at(t, na);
    lemma_in_range_at(t, pb);
}

/// Linking an alone node `e` between `prev` and the node `next` that follows `prev` keeps
/// the links consistent.
pub proof fn lemma_splice_keeps_rings(t: Links, prev: int, e: int, next: int)
    requires
        links_in_range(t),
        links_consistent(t),
        0 <= prev < t.len(),
        0 <= e < t.len(),
        t[e] == (e, e),
        t[prev].0 == next,
        e != next,
    ensures
        links_in_range(spec_link(spec_link(t, prev, e), e, next)),
        links_consistent(spec_link(spec_link(t, prev, e), e, next)),
        spec_link(spec_link(t, prev, e), e, next)[e] == (next, prev),
        spec_link(spec_link(t, prev, e), e, next)[next].1 == e,
        spec_link(spec_link(t, prev, e), e, next).len() == t.len(),
{
    lemma_consistent_at(t, prev);
    lemma_in_range_at(t, prev);
    assert(prev != e);
    let s3 = spec_link(spec_link(t, prev, e), e, next);
    let r = splice_result(t, prev, e, next);
    assert(s3 =~= r);
    reveal(links_consistent);
    reveal(links_in_range);
    assert forall|j: int| 0 <= j < r.len() implies r[(#[trigger] r[j]).0].1 == j && r[r[j].1].0 == j by {
        lemma_splice_result_at(t, prev, e, next, j);
    }
    assert forall|j: int| 0 <= j < r.len() implies 0 <= #[trigger] r[j].0 < r.len() && 0 <= r[j].1 < r.len() by {
        lemma_splice_result_at(t, prev, e, next, j);
    }
}

/// Putting a node at the end of a list keeps the links consistent; the node then sits just
/// before the head.
pub proof fn lemma_insert_keeps_rings(s: Links, node: int, e: int)
    requires
        links_in_range(s),
        links_consistent(s),
        0 <= node < s.len(),
        0 <= e < s.len(),
        node != e,
    ensures
        links_in_range(spec_insert(s, node, e)),
        links_consistent(spec_insert(s, node, e)),
        spec_insert(s, node, e)[e].0 == node,
        spec_insert(s, node, e)[node].1 == e,
        spec_insert(s, node, e).len() == s.len(),
{
    lemma_del_keeps_rings(s, e);
    let s1 = spec_del(s, e);
    let prev = s1[node].1;
    lemma_consistent_at(s1, node);
    lemma_in_range_at(s1, node);
    lemma_splice_keeps_rings(s1, prev, e, node);
}

/// `insert_first` keeps the links consistent when, once the node is taken out, the list holds
/// at most one element (the first node after the head is followed by the head).
pub proof fn lemma_insert_first_keeps_rings(s: Links, node: int, e: int)
    requires
        links_in_range(s),
        links_consistent(s),
        0 <= node < s.len(),
        0 <= e < s.len(),
        node != e,
        spec_del(s, e)[spec_del(s, e)[node].0].0 == node,
    ensures
        links_in_range(spec_insert_first(s, node, e)),
        links_consistent(spec_insert_first(s, node, e)),
        spec_insert_first(s, node, e)[e].0 == node,
        spec_insert_first(s, node, e)[node].1 == e,
        spec_insert_first(s, node, e).len() == s.len(),
{
    lemma_del_keeps_rings(s, e);
    let s1 = spec_del(s, e);
    let first = s1[node].0;
    lemma_in_range_at(s1, node);
    lemma_splice_keeps_rings(s1, first, e, node);
}

/// Fresh lists are consistent.
pub proof fn lemma_new_rings(len: nat)
    ensures
        links_in_range(Seq::new(len, |i: int| (i, i))),
        links_consistent(Seq::new(len, |i: int| (i, i))),
{
    reveal(links_in_range);
    reveal(links_consistent);
}

} // verus!
