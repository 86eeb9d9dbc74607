use vstd::prelude::*;
use super::linklist::{LinkList, Links, links_consistent, links_in_range, reaches_head, spec_del, spec_insert_first, spec_link, lemma_del_keeps_rings, lemma_consistent_at, lemma_in_range_at};

verus! {

/// Division rounding toward zero, as Rust divides signed integers.
pub open spec fn tdiv(a: int, b: int) -> int {
    if a >= 0 { a / b } else { 0 - ((0 - a) / b) }
}

/// The remainder that goes with `tdiv`.
pub open spec fn trem(a: int, b: int) -> int {
    if a >= 0 { a % b } else { 0 - ((0 - a) % b) }
}

/// The list that the key pair `(k1, k2)` hashes to.
pub open spec fn spec_hash(k1: int, k2: int, m: int) -> int {
    trem(tdiv((k1 + k2) * (k1 + k2 + 1), 2) + k2, m)
}

/// The arithmetic of the hash stays within `i32`.
pub open spec fn hash_fits(k1: int, k2: int, m: int) -> bool {
    &&& m != 0
    &&& i32::MIN <= k1 + k2 <= i32::MAX
    &&& i32::MIN <= k1 + k2 + 1 <= i32::MAX
    &&& i32::MIN <= (k1 + k2) * (k1 + k2 + 1) <= i32::MAX
    &&& i32::MIN <= tdiv((k1 + k2) * (k1 + k2 + 1), 2) + k2 <= i32::MAX
    &&& !(tdiv((k1 + k2) * (k1 + k2 + 1), 2) + k2 == i32::MIN && m == -1)
}

/// The result of walking from `p` toward the head: the first node whose keys are `(k1, k2)`,
/// or -1 when a head comes first.
pub open spec fn find_walk(l: Links, cap: int, keys: Seq<(int, int)>, p: int, k1: int, k2: int, fuel: nat) -> int
    decreases fuel,
{
    if p >= cap || fuel == 0 || p < 0 || p >= l.len() {
        -1
    } else if keys[p] == (k1, k2) {
        p
    } else {
        find_walk(l, cap, keys, l[p].0, k1, k2, (fuel - 1) as nat)
    }
}

struct DataNode {
    key1: i32,
    key2: i32,
}

/// A map from key pairs to the elements `0 .. c`, with the elements of each hash value on a list.
pub struct Hashmap {
    modd: i32,
    list: LinkList,
    a: Vec<DataNode>,
}

impl Hashmap {
    /// The key pair of each element.
    pub closed spec fn keys(&self) -> Seq<(int, int)> {
        self.a@.map_values(|n: DataNode| (n.key1 as int, n.key2 as int))
    }

    /// The lists of elements by hash value.
    pub closed spec fn links(&self) -> Links {
        self.list@
    }

    /// Number of elements.
    pub closed spec fn spec_cap(&self) -> int {
        self.list.spec_cap()
    }

    /// The modulus of the hash.
    pub closed spec fn spec_modd(&self) -> int {
        self.modd as int
    }

    pub closed spec fn inv(&self) -> bool {
        &&& self.list.inv()
        &&& self.a@.len() == self.list.spec_cap()
        &&& self.modd == self.list.spec_list_num()
    }

    pub proof fn lemma_inv(&self)
        requires
            self.inv(),
        ensures
            self.keys().len() == self.spec_cap(),
            self.links().len() == self.spec_cap() + self.spec_modd(),
            0 <= self.spec_cap(),
            0 <= self.spec_modd(),
            links_in_range(self.links()),
    {
        self.list.lemma_inv();
    }

    fn hash(&self, k1: i32, k2: i32) -> (r: i32)
        requires
            hash_fits(k1 as int, k2 as int, self.modd as int),
        ensures
            r == spec_hash(k1 as int, k2 as int, self.modd as int),
    {
        let s = k1 + k2;
        let t = s + 1;
        let prod = s * t;
        let half = prod / 2;
        assert(half == tdiv(prod as int, 2));
        let v = half + k2;
        v % self.modd
    }

    /// The element that holds the key pair `(k1, k2)`, or -1 when none does.
    pub fn find_index(&self, k1: i32, k2: i32) -> (r: i32)
        requires
            self.inv(),
            hash_fits(k1 as int, k2 as int, self.spec_modd()),
            0 <= spec_hash(k1 as int, k2 as int, self.spec_modd()) + self.spec_cap() < self.links().len(),
            reaches_head(
                self.links(),
                self.spec_cap(),
                self.links()[spec_hash(k1 as int, k2 as int, self.spec_modd()) + self.spec_cap()].0,
                self.links().len(),
            ),
        ensures
            r == find_walk(
                self.links(),
                self.spec_cap(),
                self.keys(),
                self.links()[spec_hash(k1 as int, k2 as int, self.spec_modd()) + self.spec_cap()].0,
                k1 as int,
                k2 as int,
                self.links().len(),
            ),
    {
        let h = self.hash(k1, k2);
        let mut p = self.list.get_first(h);
        let ghost start = p as int;
        let ghost mut fuel: nat = self.list@.len();
        proof {
            self.list.lemma_inv();
        }
        while !self.list.is_head(p)
            invariant
                self.inv(),
                0 <= p < self.list@.len(),
                reaches_head(self.list@, self.list.spec_cap(), p as int, fuel),
                find_walk(self.list@, self.list.spec_cap(), self.keys(), start, k1 as int, k2 as int, self.list@.len())
                    == find_walk(self.list@, self.list.spec_cap(), self.keys(), p as int, k1 as int, k2 as int, fuel),
            ensures
                0 <= p < self.list@.len(),
                reaches_head(self.list@, self.list.spec_cap(), p as int, fuel),
                find_walk(self.list@, self.list.spec_cap(), self.keys(), start, k1 as int, k2 as int, self.list@.len())
                    == find_walk(self.list@, self.list.spec_cap(), self.keys(), p as int, k1 as int, k2 as int, fuel),
                p >= self.list.spec_cap() || self.keys()[p as int] == (k1 as int, k2 as int),
            decreases fuel,
        {
            let pu = p as usize;
            assert(self.keys()[p as int] == (self.a@[p as int].key1 as int, self.a@[p as int].key2 as int));
            if self.a[pu].key1 == k1 && self.a[pu].key2 == k2 {
                break;
            }
            p = self.list.next(p);
            proof {
                fuel = (fuel - 1) as nat;
            }
        }
        if self.list.is_head(p) {
            -1
        } else {
            p
        }
    }

    /// Puts element `index` under the key pair `(k1, k2)`: it leaves its list, the first node
    /// of the list for the new hash is linked to it and it to the list head.
    pub fn replace(&mut self, index: i32, k1: i32, k2: i32)
        requires
            old(self).inv(),
            0 <= index < old(self).spec_cap(),
            hash_fits(k1 as int, k2 as int, old(self).spec_modd()),
            0 <= spec_hash(k1 as int, k2 as int, old(self).spec_modd()) + old(self).spec_cap() < old(self).links().len(),
        ensures
            final(self).inv(),
            final(self).spec_cap() == old(self).spec_cap(),
            final(self).spec_modd() == old(self).spec_modd(),
            final(self).keys() == old(self).keys().update(index as int, (k1 as int, k2 as int)),
            final(self).links() == spec_insert_first(
                old(self).links(),
                spec_hash(k1 as int, k2 as int, old(self).spec_modd()) + old(self).spec_cap(),
                index as int,
            ),
    {
        let h = self.hash(k1, k2);
        proof {
            self.list.lemma_inv();
        }
        self.list.insert_first(h, index);
        self.a.set(index as usize, DataNode { key1: k1, key2: k2 });
        assert(self.keys() =~= old(self).keys().update(index as int, (k1 as int, k2 as int)));
    }

    /// Takes element `index` out of its list and clears its keys to `(-1, -1)`.
    pub fn remove(&mut self, index: i32)
        requires
            old(self).inv(),
            0 <= index < old(self).spec_cap(),
        ensures
            final(self).inv(),
            final(self).spec_cap() == old(self).spec_cap(),
            final(self).spec_modd() == old(self).spec_modd(),
            final(self).keys() == old(self).keys().update(index as int, (-1int, -1int)),
            final(self).links() == spec_del(old(self).links(), index as int),
    {
        proof {
            self.list.lemma_inv();
        }
        self.list.del(index);
        self.a.set(index as usize, DataNode { key1: -1, key2: -1 });
        assert(self.keys() =~= old(self).keys().update(index as int, (-1int, -1int)));
    }

    /// The key pair of element `index`.
    pub fn get_keys(&self, index: i32) -> (r: (i32, i32))
        requires
            self.inv(),
            0 <= index < self.spec_cap(),
        ensures
            (r.0 as int, r.1 as int) == self.keys()[index as int],
    {
        let n = &self.a[index as usize];
        (n.key1, n.key2)
    }

    /// `c` elements with no keys, over `m` hash lists.
    pub fn new(c: i32, m: i32) -> (r: Self)
        requires
            0 <= c,
            0 <= m,
            c + m <= i32::MAX,
        ensures
            r.inv(),
            r.spec_cap() == c,
            r.spec_modd() == m,
            r.keys() == Seq::new(c as nat, |i: int| (-1int, -1int)),
            r.links() == Seq::new((c + m) as nat, |i: int| (i, i)),
    {
        let mut v: Vec<DataNode> = Vec::with_capacity(c as usize);
        let mut i: i32 = 0;
        while i < c
            invariant
                0 <= i <= c,
                v@.len() == i,
                forall|j: int| 0 <= j < i ==> (#[trigger] v@[j]).key1 == -1 && v@[j].key2 == -1,
            decreases c - i,
        {
            v.push(DataNode { key1: -1, key2: -1 });
            i = i + 1;
        }
        let r = Self { modd: m, a: v, list: LinkList::new(c, m) };
        assert(r.keys() =~= Seq::new(c as nat, |i: int| (-1int, -1int)));
        r
    }
}


/// A walk that starts away from an alone node never meets it.
pub proof fn lemma_walk_avoids_alone(l: Links, cap: int, keys: Seq<(int, int)>, p: int, k1: int, k2: int, fuel: nat, i: int)
    requires
        links_in_range(l),
        links_consistent(l),
        0 <= i < l.len(),
        l[i] == (i, i),
        p != i,
    ensures
        find_walk(l, cap, keys, p, k1, k2, fuel) != i,
    decreases fuel,
{
    if !(p >= cap || fuel == 0 || p < 0 || p >= l.len()) && keys[p] != (k1, k2) {
        lemma_consistent_at(l, p);
        lemma_consistent_at(l, i);
        let q = l[p].0;
        lemma_walk_avoids_alone(l, cap, keys, q, k1, k2, (fuel - 1) as nat, i);
    }
}

/// Once an element is removed, looking up any key pair never finds it.
pub proof fn lemma_find_after_remove(l: Links, cap: int, keys: Seq<(int, int)>, i: int, head: int, k1: int, k2: int)
    requires
        links_in_range(l),
        links_consistent(l),
        0 <= i < cap,
        cap <= head < l.len(),
    ensures
        find_walk(
            spec_del(l, i),
            cap,
            keys.update(i, (-1int, -1int)),
            spec_del(l, i)[head].0,
            k1,
            k2,
            l.len(),
        ) != i,
{
    lemma_del_keeps_rings(l, i);
    let l1 = spec_del(l, i);
    let first = l1[head].0;
    lemma_consistent_at(l1, head);
    lemma_walk_avoids_alone(l1, cap, keys.update(i, (-1int, -1int)), first, k1, k2, l.len(), i);
}

/// Putting an element under a key pair makes a lookup of that pair find it, when the first
/// element of its list (if any) is under another key pair.
pub proof fn lemma_find_after_replace(l: Links, cap: int, keys: Seq<(int, int)>, i: int, node: int, k1: int, k2: int)
    requires
        links_in_range(l),
        links_consistent(l),
        keys.len() == cap,
        0 <= i < cap,
        cap <= node < l.len(),
        ({
            let first = spec_del(l, i)[node].0;
            first == node || (first < cap && keys[first] != (k1, k2))
        }),
    ensures
        find_walk(
            spec_insert_first(l, node, i),
            cap,
            keys.update(i, (k1, k2)),
            spec_insert_first(l, node, i)[node].0,
            k1,
            k2,
            l.len(),
        ) == i,
{
    lemma_del_keeps_rings(l, i);
    let l1 = spec_del(l, i);
    let first = l1[node].0;
    let l2 = spec_link(l1, first, i);
    let l3 = spec_link(l2, i, node);
    let ks = keys.update(i, (k1, k2));
    assert(l3 == spec_insert_first(l, node, i));
    assert(l.len() >= 2);
    lemma_consistent_at(l1, node);
    lemma_consistent_at(l1, i);
    lemma_in_range_at(l1, node);
    if first == node {
        assert(l3[node].0 == i);
        assert(find_walk(l3, cap, ks, i, k1, k2, l.len()) == i);
    } else {
        assert(first != i);
        assert(l3[node].0 == first);
        assert(l3[first].0 == i);
        assert(ks[first] == keys[first]);
        assert(find_walk(l3, cap, ks, i, k1, k2, (l.len() - 1) as nat) == i);
        assert(find_walk(l3, cap, ks, first, k1, k2, l.len()) == i);
    }
}

/// After `replace` puts element `index` under `(k1, k2)` (taking `before` to `after`, as its
/// contract states), a lookup of `(k1, k2)` in `after` finds `index`, when no other element is
/// under that pair, the lists form consistent rings, and the first node of the pair's list,
/// once `index` has left it, is an element or the list head itself.
pub proof fn lemma_replace_then_find(before: Hashmap, after: Hashmap, index: int, k1: int, k2: int)
    requires
        before.inv(),
        0 <= index < before.spec_cap(),
        hash_fits(k1, k2, before.spec_modd()),
        0 <= spec_hash(k1, k2, before.spec_modd()) + before.spec_cap() < before.links().len(),
        0 <= spec_hash(k1, k2, before.spec_modd()),
        links_consistent(before.links()),
        forall|j: int| 0 <= j < before.spec_cap() && j != index ==> (#[trigger] before.keys()[j]) != (k1, k2),
        ({
            let head = spec_hash(k1, k2, before.spec_modd()) + before.spec_cap();
            let first = spec_del(before.links(), index)[head].0;
            first == head || first < before.spec_cap()
        }),
        after.spec_cap() == before.spec_cap(),
        after.spec_modd() == before.spec_modd(),
        after.keys() == before.keys().update(index, (k1, k2)),
        after.links() == spec_insert_first(
            before.links(),
            spec_hash(k1, k2, before.spec_modd()) + before.spec_cap(),
            index,
        ),
    ensures
        find_walk(
            after.links(),
            after.spec_cap(),
            after.keys(),
            after.links()[spec_hash(k1, k2, after.spec_modd()) + after.spec_cap()].0,
            k1,
            k2,
            after.links().len(),
        ) == index,
{
    before.lemma_inv();
    let l = before.links();
    let cap = before.spec_cap();
    let head = spec_hash(k1, k2, before.spec_modd()) + cap;
    let first = spec_del(l, index)[head].0;
    lemma_del_keeps_rings(l, index);
    lemma_in_range_at(spec_del(l, index), head);
    if first != head {
        if first == index {
            lemma_consistent_at(spec_del(l, index), head);
        } else {
            assert(before.keys()[first] != (k1, k2));
        }
    }
    lemma_find_after_replace(l, cap, before.keys(), index, head, k1, k2);
    assert(after.links().len() == l.len());
}

/// In a new map (`Hashmap::new(c, m)`), after `replace` puts element `index` under a key
/// pair of non-negative numbers (taking `before` to `after`, as its contract states), the
/// element holds that pair, `find_index` can look the pair up, and it finds `index`.
pub proof fn lemma_new_replace_find(before: Hashmap, after: Hashmap, index: int, k1: int, k2: int)
    requires
        before.inv(),
        before.keys() == Seq::new(before.spec_cap() as nat, |i: int| (-1int, -1int)),
        before.links() == Seq::new((before.spec_cap() + before.spec_modd()) as nat, |i: int| (i, i)),
        0 <= index < before.spec_cap(),
        0 <= k1,
        0 <= k2,
        before.spec_modd() > 0,
        hash_fits(k1, k2, before.spec_modd()),
        after.spec_cap() == before.spec_cap(),
        after.spec_modd() == before.spec_modd(),
        after.keys() == before.keys().update(index, (k1, k2)),
        after.links() == spec_insert_first(
            before.links(),
            spec_hash(k1, k2, before.spec_modd()) + before.spec_cap(),
            index,
        ),
    ensures
        after.keys()[index] == (k1, k2),
        after.findable(k1, k2),
        find_walk(
            after.links(),
            after.spec_cap(),
            after.keys(),
            after.links()[spec_hash(k1, k2, after.spec_modd()) + after.spec_cap()].0,
            k1,
            k2,
            after.links().len(),
        ) == index,
{
    before.lemma_inv();
    let l = before.links();
    let cap = before.spec_cap();
    let m = before.spec_modd();
    let t = (k1 + k2) * (k1 + k2 + 1);
    assert(t >= 0) by (nonlinear_arith)
        requires k1 >= 0, k2 >= 0, t == (k1 + k2) * (k1 + k2 + 1);
    let h = spec_hash(k1, k2, m);
    assert(0 <= h < m);
    let head = h + cap;
    assert(links_consistent(l)) by {
        reveal(links_consistent);
    }
    assert(spec_del(l, index) == l);
    assert(l[head].0 == head);
    assert forall|j: int| 0 <= j < cap && j != index implies (#[trigger] before.keys()[j]) != (k1, k2) by {}
    lemma_replace_then_find(before, after, index, k1, k2);
    let a = after.links();
    let l2 = spec_link(l, head, index);
    assert(a == spec_link(l2, index, head));
    assert(a[head].0 == index);
    assert(a[index].0 == head);
    assert(reaches_head(a, cap, head, (a.len() - 1) as nat));
    assert(reaches_head(a, cap, index, a.len()));
    assert(reaches_head(a, cap, a[head].0, a.len()));
}

impl Hashmap {
    /// `find_index` can look up `(k1, k2)`: the hash stays within `i32`, and the walk along
    /// its list meets a list head within as many steps as there are nodes.
    pub open spec fn findable(&self, k1: int, k2: int) -> bool {
        &&& hash_fits(k1, k2, self.spec_modd())
        &&& 0 <= spec_hash(k1, k2, self.spec_modd()) + self.spec_cap() < self.links().len()
        &&& reaches_head(
            self.links(),
            self.spec_cap(),
            self.links()[spec_hash(k1, k2, self.spec_modd()) + self.spec_cap()].0,
            self.links().len(),
        )
    }

    /// Whether `find_index` can look up `(k1, k2)`.
    pub fn can_find(&self, k1: i32, k2: i32) -> (r: bool)
        requires
            self.inv(),
        ensures
            r == self.findable(k1 as int, k2 as int),
    {
        proof {
            self.list.lemma_inv();
        }
        if self.modd == 0 {
            return false;
        }
        let s: i128 = k1 as i128 + k2 as i128;
        let t: i128 = s + 1;
        if s < i32::MIN as i128 || s > i32::MAX as i128 || t > i32::MAX as i128 {
            return false;
        }
        assert(-0x8000_0000 <= s <= 0x7fff_ffff);
        assert(s * t <= 0x4000_0000_0000_0000) by (nonlinear_arith)
            requires
                -0x8000_0000 <= s <= 0x7fff_ffff,
                t == s + 1,
        ;
        assert(s * t >= -0x4000_0000_0000_0000) by (nonlinear_arith)
            requires
                -0x8000_0000 <= s <= 0x7fff_ffff,
                t == s + 1,
        ;
        let prod: i128 = s * t;
        if prod < i32::MIN as i128 || prod > i32::MAX as i128 {
            return false;
        }
        let half: i128 = prod / 2;
        assert(half == tdiv(prod as int, 2));
        let v: i128 = half + k2 as i128;
        if v < i32::MIN as i128 || v > i32::MAX as i128 {
            return false;
        }
        if v == i32::MIN as i128 && self.modd == -1 {
            return false;
        }
        let h = self.hash(k1, k2);
        let cap = self.a.len();
        if (h as i64) + (cap as i64) < 0 || h >= self.modd {
            return false;
        }
        let n = cap + self.modd as usize;
        let start = self.list.get_first(h);
        let mut p = start;
        let mut fuel: usize = n;
        while !self.list.is_head(p) && fuel > 0
            invariant
                self.inv(),
                n == self.list@.len(),
                0 <= p < self.list@.len(),
                fuel <= n,
                reaches_head(self.list@, self.list.spec_cap(), start as int, n as nat) == reaches_head(
                    self.list@,
                    self.list.spec_cap(),
                    p as int,
                    fuel as nat,
                ),
            decreases fuel,
        {
            p = self.list.next(p);
            fuel = fuel - 1;
        }
        self.list.is_head(p)
    }
}

} // verus!
