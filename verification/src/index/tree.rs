//! An index tree whose nodes hold their children: the keys of each leaf with the data of
//! their buckets, and the separating keys of each internal node.
use vstd::prelude::*;
use crate::index::btree::RawIndex;
use crate::index::btree::lex_order;
use crate::index::btree::lemma_lex_order_antisymmetric;
use crate::index::btree::lemma_lex_order_transitive;
use crate::index::btree::lower_bound;
use crate::index::btree::upper_bound;
use crate::index::btree::lower_at;
use crate::index::btree::upper_at;
use crate::index::btree::sorted_keys;
use crate::index::btree::keys_like;
use crate::rm::record::Data;

verus! {

/// A node of an index tree. A leaf holds its keys in order, each with the data of its bucket;
/// an internal node holds its separating keys in order and one more child than keys.
pub struct IndexNode {
    pub leaf: bool,
    pub keys: Vec<RawIndex>,
    pub buckets: Vec<Vec<u64>>,
    pub sons: Vec<IndexNode>,
}

/// The entries of a node, in order: each key of its leaves with the data of its bucket.
pub open spec fn entries(n: IndexNode) -> Seq<(Seq<Data>, Seq<u64>)>
    decreases n, 0int,
{
    if n.leaf {
        Seq::new(n.keys@.len(), |i: int| (n.keys@[i].index@, n.buckets@[i]@))
    } else {
        sons_entries(n.sons@, n.sons@.len() as int)
    }
}

/// The entries of the first `k` children, one after another.
pub open spec fn sons_entries(s: Seq<IndexNode>, k: int) -> Seq<(Seq<Data>, Seq<u64>)>
    decreases s, k,
{
    if k <= 0 || k > s.len() {
        Seq::empty()
    } else {
        sons_entries(s, k - 1) + entries(s[k - 1])
    }
}


/// The entries of all the children, one after another.
pub open spec fn cat(s: Seq<IndexNode>) -> Seq<(Seq<Data>, Seq<u64>)> {
    sons_entries(s, s.len() as int)
}

/// The entries of the first `k` children depend on those children only.
proof fn lemma_sons_prefix(s: Seq<IndexNode>, t: Seq<IndexNode>, k: int)
    requires
        0 <= k <= s.len(),
        k <= t.len(),
        forall|i: int| 0 <= i < k ==> s[i] == t[i],
    ensures
        sons_entries(s, k) == sons_entries(t, k),
    decreases k,
{
    if k > 0 {
        lemma_sons_prefix(s, t, k - 1);
    }
}

/// The entries of two runs of children are those of the first, then those of the second.
proof fn lemma_cat_concat(a: Seq<IndexNode>, b: Seq<IndexNode>)
    ensures
        cat(a + b) == cat(a) + cat(b),
    decreases b.len(),
{
    if b.len() == 0 {
        assert(a + b =~= a);
        assert(cat(b) =~= Seq::<(Seq<Data>, Seq<u64>)>::empty());
        assert(cat(a) + cat(b) =~= cat(a));
    } else {
        let b0 = b.drop_last();
        lemma_cat_concat(a, b0);
        let n = (a + b).len() as int;
        lemma_sons_prefix(a + b, a + b0, n - 1);
        lemma_sons_prefix(b, b0, b.len() - 1);
        assert((a + b)[n - 1] == b.last());
        assert(cat(a + b) == sons_entries(a + b, n - 1) + entries(b.last()));
        assert(cat(b) == sons_entries(b, b.len() - 1) + entries(b.last()));
        assert(cat(a + b) =~= cat(a) + cat(b));
    }
}

proof fn lemma_cat_one(x: IndexNode)
    ensures
        cat(seq![x]) == entries(x),
{
    assert(sons_entries(seq![x], 0) =~= Seq::<(Seq<Data>, Seq<u64>)>::empty());
    assert(Seq::<(Seq<Data>, Seq<u64>)>::empty() + entries(x) =~= entries(x));
}

/// The entries' keys have length `len` and increase strictly.
pub open spec fn sorted_es(es: Seq<(Seq<Data>, Seq<u64>)>, len: nat) -> bool {
    &&& forall|i: int| 0 <= i < es.len() ==> (#[trigger] es[i]).0.len() == len
    &&& forall|i: int, j: int| 0 <= i < j < es.len() ==> lex_order((#[trigger] es[i]).0, (#[trigger] es[j]).0) < 0
}

/// `k` is not below the lower bound `lo`, where there is one.
pub open spec fn above_lo(lo: Option<Seq<Data>>, k: Seq<Data>) -> bool {
    match lo {
        Some(l) => lex_order(l, k) <= 0,
        None => true,
    }
}

/// `k` is below the upper bound `hi`, where there is one.
pub open spec fn below_hi(hi: Option<Seq<Data>>, k: Seq<Data>) -> bool {
    match hi {
        Some(h) => lex_order(k, h) < 0,
        None => true,
    }
}

pub open spec fn in_bounds(lo: Option<Seq<Data>>, hi: Option<Seq<Data>>, k: Seq<Data>) -> bool {
    above_lo(lo, k) && below_hi(hi, k)
}

/// Every entry's key is within the bounds.
pub open spec fn es_within(es: Seq<(Seq<Data>, Seq<u64>)>, lo: Option<Seq<Data>>, hi: Option<Seq<Data>>) -> bool {
    forall|i: int| 0 <= i < es.len() ==> in_bounds(lo, hi, (#[trigger] es[i]).0)
}

/// The node's keys and entries are within the bounds.
pub open spec fn node_within(n: IndexNode, lo: Option<Seq<Data>>, hi: Option<Seq<Data>>) -> bool {
    &&& es_within(entries(n), lo, hi)
    &&& forall|i: int| 0 <= i < n.keys@.len() ==> in_bounds(lo, hi, (#[trigger] n.keys@[i]).index@)
}

/// The lower bound of the `j`-th child of a node with the keys `ks`.
pub open spec fn lo_of(ks: Seq<RawIndex>, j: int) -> Option<Seq<Data>> {
    if j <= 0 { None } else { Some(ks[j - 1].index@) }
}

/// The upper bound of the `j`-th child of a node with the keys `ks`.
pub open spec fn hi_of(ks: Seq<RawIndex>, j: int) -> Option<Seq<Data>> {
    if j >= ks.len() { None } else { Some(ks[j].index@) }
}

/// The keys have length `len` and increase strictly.
pub open spec fn keys_ordered(ks: Seq<RawIndex>, len: nat) -> bool {
    &&& forall|i: int| 0 <= i < ks.len() ==> (#[trigger] ks[i]).index@.len() == len
    &&& forall|i: int, j: int| 0 <= i < j < ks.len() ==> lex_order((#[trigger] ks[i]).index@, (#[trigger] ks[j]).index@) < 0
}

/// The lower bound of the `j`-th child of a node with the keys `ks` and the lower bound `lo`.
pub open spec fn clo(lo: Option<Seq<Data>>, ks: Seq<RawIndex>, j: int) -> Option<Seq<Data>> {
    if j <= 0 { lo } else { Some(ks[j - 1].index@) }
}

/// The upper bound of the `j`-th child of a node with the keys `ks` and the upper bound `hi`.
pub open spec fn chi(hi: Option<Seq<Data>>, ks: Seq<RawIndex>, j: int) -> Option<Seq<Data>> {
    if j >= ks.len() { hi } else { Some(ks[j].index@) }
}

/// A well-formed node of keys of length `len`, holding at most `cap` keys, between the bounds
/// `lo` (inclusive) and `hi` (exclusive): its keys and its entries increase and lie within the
/// bounds; a leaf has a bucket per key; an internal node has one more child than keys, the
/// `j`-th child well formed with at most 4 keys, from key `j - 1` (or `lo`) up to key `j` (or
/// `hi`).
pub open spec fn node_wf(n: IndexNode, len: nat, cap: nat, lo: Option<Seq<Data>>, hi: Option<Seq<Data>>) -> bool
    decreases n,
{
    &&& n.keys@.len() <= cap
    &&& keys_ordered(n.keys@, len)
    &&& sorted_es(entries(n), len)
    &&& node_within(n, lo, hi)
    &&& if n.leaf {
        n.buckets@.len() == n.keys@.len()
    } else {
        &&& n.sons@.len() == n.keys@.len() + 1
        &&& forall|j: int|
            0 <= j < n.sons@.len() ==> node_wf(#[trigger] n.sons@[j], len, 4, clo(lo, n.keys@, j), chi(hi, n.keys@, j))
    }
}

/// Bounds that are absent or the same are weaker.
proof fn lemma_within_weaken(n: IndexNode, lo: Option<Seq<Data>>, hi: Option<Seq<Data>>, lo2: Option<Seq<Data>>, hi2: Option<Seq<Data>>)
    requires
        node_within(n, lo, hi),
        lo2 is None || lo2 == lo,
        hi2 is None || hi2 == hi,
    ensures
        node_within(n, lo2, hi2),
{
    assert forall|i: int| 0 <= i < entries(n).len() implies in_bounds(lo2, hi2, (#[trigger] entries(n)[i]).0) by {
        assert(in_bounds(lo, hi, entries(n)[i].0));
    }
    assert forall|i: int| 0 <= i < n.keys@.len() implies in_bounds(lo2, hi2, (#[trigger] n.keys@[i]).index@) by {
        assert(in_bounds(lo, hi, n.keys@[i].index@));
    }
}

/// Well-formed children meet what `lemma_sons_sorted` asks.
proof fn lemma_children(s: Seq<IndexNode>, ks: Seq<RawIndex>, len: nat, lo: Option<Seq<Data>>, hi: Option<Seq<Data>>)
    requires
        s.len() == ks.len() + 1,
        forall|j: int| 0 <= j < s.len() ==> node_wf(#[trigger] s[j], len, 4, clo(lo, ks, j), chi(hi, ks, j)),
    ensures
        forall|j: int| 0 <= j < s.len() ==> sorted_es(entries(#[trigger] s[j]), len),
        forall|j: int| 0 <= j < s.len() ==> node_within(#[trigger] s[j], lo_of(ks, j), hi_of(ks, j)),
{
    assert forall|j: int| 0 <= j < s.len() implies node_within(#[trigger] s[j], lo_of(ks, j), hi_of(ks, j)) by {
        assert(node_wf(s[j], len, 4, clo(lo, ks, j), chi(hi, ks, j)));
        lemma_within_weaken(s[j], clo(lo, ks, j), chi(hi, ks, j), lo_of(ks, j), hi_of(ks, j));
    }
    assert forall|j: int| 0 <= j < s.len() implies sorted_es(entries(#[trigger] s[j]), len) by {
        assert(node_wf(s[j], len, 4, clo(lo, ks, j), chi(hi, ks, j)));
    }
}

/// Two sorted runs of entries, the first wholly below the second, make a sorted run.
proof fn lemma_sorted_concat(a: Seq<(Seq<Data>, Seq<u64>)>, b: Seq<(Seq<Data>, Seq<u64>)>, len: nat)
    requires
        sorted_es(a, len),
        sorted_es(b, len),
        forall|i: int, j: int| 0 <= i < a.len() && 0 <= j < b.len() ==> lex_order((#[trigger] a[i]).0, (#[trigger] b[j]).0) < 0,
    ensures
        sorted_es(a + b, len),
{
    let c = a + b;
    assert forall|i: int| 0 <= i < c.len() implies (#[trigger] c[i]).0.len() == len by {
        if i < a.len() { assert(c[i] == a[i]); } else { assert(c[i] == b[i - a.len()]); }
    }
    assert forall|i: int, j: int| 0 <= i < j < c.len() implies lex_order((#[trigger] c[i]).0, (#[trigger] c[j]).0) < 0 by {
        if j < a.len() {
            assert(c[i] == a[i] && c[j] == a[j]);
        } else if i >= a.len() {
            assert(c[i] == b[i - a.len()] && c[j] == b[j - a.len()]);
        } else {
            assert(c[i] == a[i] && c[j] == b[j - a.len()]);
        }
    }
}

/// The children's entries of a node, one after another, increase, and those of the first `k`
/// children lie below key `k - 1`.
proof fn lemma_sons_sorted(s: Seq<IndexNode>, ks: Seq<RawIndex>, len: nat, k: int)
    requires
        s.len() == ks.len() + 1,
        0 <= k <= s.len(),
        keys_ordered(ks, len),
        forall|j: int| 0 <= j < s.len() ==> sorted_es(entries(#[trigger] s[j]), len),
        forall|j: int| 0 <= j < s.len() ==> node_within(#[trigger] s[j], lo_of(ks, j), hi_of(ks, j)),
    ensures
        sorted_es(sons_entries(s, k), len),
        1 <= k <= ks.len() ==> forall|i: int|
            0 <= i < sons_entries(s, k).len() ==> lex_order((#[trigger] sons_entries(s, k)[i]).0, ks[k - 1].index@) < 0,
    decreases k,
{
    if k > 0 {
        lemma_sons_sorted(s, ks, len, k - 1);
        let a = sons_entries(s, k - 1);
        let b = entries(s[k - 1]);
        assert(sorted_es(b, len));
        assert(node_within(s[k - 1], lo_of(ks, k - 1), hi_of(ks, k - 1)));
        assert forall|i: int, j: int| 0 <= i < a.len() && 0 <= j < b.len() implies lex_order((#[trigger] a[i]).0, (#[trigger] b[j]).0) < 0 by {
            let m = ks[k - 2].index@;
            assert(in_bounds(lo_of(ks, k - 1), hi_of(ks, k - 1), b[j].0));
            lemma_lex_order_transitive(a[i].0, m, b[j].0);
        }
        lemma_sorted_concat(a, b, len);
        if k <= ks.len() {
            let c = a + b;
            assert forall|i: int| 0 <= i < c.len() implies lex_order((#[trigger] c[i]).0, ks[k - 1].index@) < 0 by {
                if i < a.len() {
                    assert(c[i] == a[i]);
                    assert(lex_order(ks[k - 2].index@, ks[k - 1].index@) < 0);
                    lemma_lex_order_transitive(a[i].0, ks[k - 2].index@, ks[k - 1].index@);
                } else {
                    assert(c[i] == b[i - a.len()]);
                    assert(in_bounds(lo_of(ks, k - 1), hi_of(ks, k - 1), b[i - a.len()].0));
                }
            }
        }
    }
}

/// Children whose entries all lie within bounds give entries within those bounds.
proof fn lemma_cat_within(s: Seq<IndexNode>, lo: Option<Seq<Data>>, hi: Option<Seq<Data>>, k: int)
    requires
        0 <= k <= s.len(),
        forall|j: int| 0 <= j < s.len() ==> es_within(entries(#[trigger] s[j]), lo, hi),
    ensures
        es_within(sons_entries(s, k), lo, hi),
    decreases k,
{
    if k > 0 {
        lemma_cat_within(s, lo, hi, k - 1);
        let a = sons_entries(s, k - 1);
        let b = entries(s[k - 1]);
        assert(es_within(b, lo, hi));
        assert forall|i: int| 0 <= i < (a + b).len() implies in_bounds(lo, hi, (#[trigger] (a + b)[i]).0) by {
            if i < a.len() { assert((a + b)[i] == a[i]); } else { assert((a + b)[i] == b[i - a.len()]); }
        }
    }
}

proof fn lemma_lex_refl(a: Seq<Data>)
    ensures
        lex_order(a, a) == 0,
{
    lemma_lex_order_antisymmetric(a, a);
}

/// A copy of a key.
fn copy_key(k: &RawIndex) -> (r: RawIndex)
    ensures
        r.index@ == k.index@,
{
    let mut v: Vec<Data> = Vec::new();
    let mut i: usize = 0;
    while i < k.index.len()
        invariant
            i <= k.index@.len(),
            v@ == k.index@.take(i as int),
        decreases k.index@.len() - i,
    {
        v.push(k.index[i].duplicate());
        i = i + 1;
        assert(v@ =~= k.index@.take(i as int));
    }
    assert(v@ =~= k.index@);
    RawIndex { index: v }
}


impl IndexNode {
    /// Splits a node of five keys: this node keeps the first two keys (and, when internal,
    /// the first three children); the rest goes to the new node returned, with the middle key
    /// (the third) that separates the two. A leaf's new node starts with the middle key; an
    /// internal node's middle key leaves both.
    fn split(&mut self, Ghost(len): Ghost<nat>, Ghost(lo): Ghost<Option<Seq<Data>>>, Ghost(hi): Ghost<Option<Seq<Data>>>) -> (r: (IndexNode, RawIndex))
        requires
            node_wf(*old(self), len, 5, lo, hi),
            old(self).keys@.len() == 5,
        ensures
            node_wf(*final(self), len, 4, lo, Some(r.1.index@)),
            node_wf(r.0, len, 4, Some(r.1.index@), hi),
            final(self).leaf == old(self).leaf,
            r.0.leaf == old(self).leaf,
            entries(*final(self)) + entries(r.0) == entries(*old(self)),
            r.1.index@ == old(self).keys@[2].index@,
    {
        let ghost old_node = *self;
        let ghost ks = self.keys@;
        let ghost es = entries(*self);
        let mid = copy_key(&self.keys[2]);
        let ghost m = mid.index@;
        proof {
            lemma_lex_refl(m);
            assert(node_within(old_node, lo, hi));
        }
        if self.leaf {
            let right_keys = self.keys.split_off(2);
            let right_buckets = self.buckets.split_off(2);
            let right = IndexNode { leaf: true, keys: right_keys, buckets: right_buckets, sons: Vec::new() };
            proof {
                assert(entries(*self) + entries(right) =~= es);
                assert(forall|i: int| 0 <= i < 3 ==> right.keys@[i] == ks[i + 2]);
                assert(forall|i: int| 0 <= i < 2 ==> self.keys@[i] == ks[i]);
                assert(sorted_es(entries(right), len)) by {
                    assert forall|i: int, j: int| 0 <= i < j < entries(right).len() implies lex_order((#[trigger] entries(right)[i]).0, (#[trigger] entries(right)[j]).0) < 0 by {
                        assert(entries(right)[i].0 == ks[i + 2].index@);
                        assert(entries(right)[j].0 == ks[j + 2].index@);
                    }
                }
                assert forall|i: int| 0 <= i < 2 implies in_bounds(lo, Some(m), (#[trigger] self.keys@[i]).index@) by {
                    assert(in_bounds(lo, hi, ks[i].index@));
                }
                assert forall|i: int| 0 <= i < 3 implies in_bounds(Some(m), hi, (#[trigger] right.keys@[i]).index@) by {
                    assert(in_bounds(lo, hi, ks[i + 2].index@));
                }
                assert forall|i: int| 0 <= i < entries(*self).len() implies in_bounds(lo, Some(m), (#[trigger] entries(*self)[i]).0) by {
                    assert(entries(*self)[i].0 == self.keys@[i].index@);
                }
                assert forall|i: int| 0 <= i < entries(right).len() implies in_bounds(Some(m), hi, (#[trigger] entries(right)[i]).0) by {
                    assert(entries(right)[i].0 == right.keys@[i].index@);
                }
            }
            (right, mid)
        } else {
            let right_keys = self.keys.split_off(3);
            let _ = self.keys.pop();
            let right_sons = self.sons.split_off(3);
            let right = IndexNode { leaf: false, keys: right_keys, buckets: Vec::new(), sons: right_sons };
            let ghost s = old_node.sons@;
            proof {
                assert(self.keys@ =~= ks.subrange(0, 2));
                assert(self.sons@ =~= s.subrange(0, 3));
                assert(right.keys@ =~= ks.subrange(3, 5));
                assert(right.sons@ =~= s.subrange(3, 6));
                assert(s =~= self.sons@ + right.sons@);
                lemma_cat_concat(self.sons@, right.sons@);
                assert(entries(*self) + entries(right) == es);
                assert forall|j: int| 0 <= j < self.sons@.len() implies node_wf(#[trigger] self.sons@[j], len, 4, clo(lo, self.keys@, j), chi(Some(m), self.keys@, j)) by {
                    assert(self.sons@[j] == s[j]);
                    assert(node_wf(s[j], len, 4, clo(lo, ks, j), chi(hi, ks, j)));
                    assert(clo(lo, self.keys@, j) == clo(lo, ks, j));
                    assert(chi(Some(m), self.keys@, j) == chi(hi, ks, j));
                }
                assert forall|j: int| 0 <= j < right.sons@.len() implies node_wf(#[trigger] right.sons@[j], len, 4, clo(Some(m), right.keys@, j), chi(hi, right.keys@, j)) by {
                    assert(right.sons@[j] == s[j + 3]);
                    assert(node_wf(s[j + 3], len, 4, clo(lo, ks, j + 3), chi(hi, ks, j + 3)));
                    assert(clo(Some(m), right.keys@, j) == clo(lo, ks, j + 3));
                    assert(chi(hi, right.keys@, j) == chi(hi, ks, j + 3));
                }
                lemma_children(self.sons@, self.keys@, len, lo, Some(m));
                lemma_children(right.sons@, right.keys@, len, Some(m), hi);
                lemma_children(s, ks, len, lo, hi);
                lemma_sons_sorted(self.sons@, self.keys@, len, 3);
                lemma_sons_sorted(right.sons@, right.keys@, len, 3);
                lemma_sons_sorted(s, ks, len, 3);
                lemma_sons_prefix(s, self.sons@, 3);
                // the right part's entries are not below the middle key
                assert forall|j: int| 0 <= j < right.sons@.len() implies es_within(entries(#[trigger] right.sons@[j]), Some(m), None) by {
                    assert(right.sons@[j] == s[j + 3]);
                    assert(node_within(s[j + 3], lo_of(ks, j + 3), hi_of(ks, j + 3)));
                    let l = ks[j + 2].index@;
                    assert forall|i: int| 0 <= i < entries(s[j + 3]).len() implies in_bounds(Some(m), None, (#[trigger] entries(s[j + 3])[i]).0) by {
                        assert(in_bounds(lo_of(ks, j + 3), hi_of(ks, j + 3), entries(s[j + 3])[i].0));
                        if j > 0 {
                            assert(lex_order(m, l) < 0);
                            lemma_lex_order_transitive(m, l, entries(s[j + 3])[i].0);
                        }
                    }
                }
                lemma_cat_within(right.sons@, Some(m), None, 3);
                let el = entries(*self);
                let er = entries(right);
                assert forall|i: int| 0 <= i < el.len() implies in_bounds(lo, Some(m), (#[trigger] el[i]).0) by {
                    assert(es[i] == el[i]);
                    assert(in_bounds(lo, hi, es[i].0));
                }
                assert forall|i: int| 0 <= i < er.len() implies in_bounds(Some(m), hi, (#[trigger] er[i]).0) by {
                    assert(es[i + el.len()] == er[i]);
                    assert(in_bounds(lo, hi, es[i + el.len()].0));
                    assert(in_bounds(Some(m), None, er[i].0));
                }
                assert forall|i: int| 0 <= i < 2 implies in_bounds(lo, Some(m), (#[trigger] self.keys@[i]).index@) by {
                    assert(in_bounds(lo, hi, ks[i].index@));
                }
                assert forall|i: int| 0 <= i < 2 implies in_bounds(Some(m), hi, (#[trigger] right.keys@[i]).index@) by {
                    assert(in_bounds(lo, hi, ks[i + 3].index@));
                }
                assert(node_wf(*self, len, 4, lo, Some(m)));
                assert(node_wf(right, len, 4, Some(m), hi));
            }
            (right, mid)
        }
    }
}

/// Some entry's key equals `k`.
pub open spec fn has_key(es: Seq<(Seq<Data>, Seq<u64>)>, k: Seq<Data>) -> bool {
    exists|i: int| 0 <= i < es.len() && lex_order(#[trigger] es[i].0, k) == 0
}

/// The place of the entry whose key equals `k`.
pub open spec fn key_at(es: Seq<(Seq<Data>, Seq<u64>)>, k: Seq<Data>) -> int {
    choose|i: int| 0 <= i < es.len() && lex_order(#[trigger] es[i].0, k) == 0
}

/// The entries after `data` is put under the key `k`, which they hold: the data joins that
/// key's bucket where duplicates are allowed; else nothing changes.
pub open spec fn added(es: Seq<(Seq<Data>, Seq<u64>)>, k: Seq<Data>, data: u64, allow_duplicate: bool) -> Seq<(Seq<Data>, Seq<u64>)> {
    let i = key_at(es, k);
    if allow_duplicate {
        es.update(i, (es[i].0, es[i].1.push(data)))
    } else {
        es
    }
}

/// `new_es` is `es` after `data` is put under `k`: where `k` was present, as `added` says;
/// else with a new entry of `k` and a bucket holding `data` only, put in somewhere.
pub open spec fn put(
    es: Seq<(Seq<Data>, Seq<u64>)>,
    new_es: Seq<(Seq<Data>, Seq<u64>)>,
    k: Seq<Data>,
    data: u64,
    allow_duplicate: bool,
    present: bool,
) -> bool {
    if present {
        new_es == added(es, k, data, allow_duplicate)
    } else {
        exists|p: int| 0 <= p <= es.len() && new_es == es.insert(p, (k, seq![data]))
    }
}

proof fn lemma_keys_sorted(ks: Seq<RawIndex>, len: nat, key: RawIndex)
    requires
        keys_ordered(ks, len),
        key.index@.len() == len,
    ensures
        sorted_keys(ks),
        keys_like(ks, key),
{
    assert forall|i: int, j: int| 0 <= i <= j < ks.len() implies (#[trigger] ks[i]).index@.len() == (#[trigger] ks[j]).index@.len()
        && lex_order(ks[i].index@, ks[j].index@) <= 0 by {
        if i == j {
            lemma_lex_refl(ks[i].index@);
        }
    }
}

/// In increasing entries, at most one key equals `k`.
proof fn lemma_unique(es: Seq<(Seq<Data>, Seq<u64>)>, len: nat, k: Seq<Data>, a: int, b: int)
    requires
        sorted_es(es, len),
        k.len() == len,
        0 <= a < es.len(),
        0 <= b < es.len(),
        lex_order(es[a].0, k) == 0,
        lex_order(es[b].0, k) == 0,
    ensures
        a == b,
{
    if a < b {
        lemma_lex_order_antisymmetric(es[b].0, k);
        lemma_lex_order_transitive(es[a].0, es[b].0, k);
    } else if b < a {
        lemma_lex_order_antisymmetric(es[a].0, k);
        lemma_lex_order_transitive(es[b].0, es[a].0, k);
    }
}

/// Entries within bounds stay so after a key within them is put in.
proof fn lemma_put_within(
    es: Seq<(Seq<Data>, Seq<u64>)>,
    new_es: Seq<(Seq<Data>, Seq<u64>)>,
    k: Seq<Data>,
    data: u64,
    allow_duplicate: bool,
    present: bool,
    lo: Option<Seq<Data>>,
    hi: Option<Seq<Data>>,
)
    requires
        put(es, new_es, k, data, allow_duplicate, present),
        present ==> has_key(es, k),
        es_within(es, lo, hi),
        in_bounds(lo, hi, k),
    ensures
        es_within(new_es, lo, hi),
{
    if present {
        let i = key_at(es, k);
        assert forall|x: int| 0 <= x < new_es.len() implies in_bounds(lo, hi, (#[trigger] new_es[x]).0) by {
            assert(new_es[x].0 == es[x].0);
        }
    } else {
        let p = choose|p: int| 0 <= p <= es.len() && new_es == es.insert(p, (k, seq![data]));
        assert forall|x: int| 0 <= x < new_es.len() implies in_bounds(lo, hi, (#[trigger] new_es[x]).0) by {
            if x < p {
                assert(new_es[x] == es[x]);
            } else if x > p {
                assert(new_es[x] == es[x - 1]);
            }
        }
    }
}

/// A key below the keys from place `i` on and above those before goes in at `i` in order.
proof fn lemma_insert_key_ordered(ks: Seq<RawIndex>, len: nat, nk: RawIndex, i: int)
    requires
        keys_ordered(ks, len),
        nk.index@.len() == len,
        0 <= i <= ks.len(),
        forall|x: int| 0 <= x < i ==> lex_order((#[trigger] ks[x]).index@, nk.index@) < 0,
        forall|x: int| 0 <= x < ks.len() && x >= i ==> lex_order((#[trigger] ks[x]).index@, nk.index@) > 0,
    ensures
        keys_ordered(ks.insert(i, nk), len),
{
    let nks = ks.insert(i, nk);
    let k = nk.index@;
    assert forall|x: int| 0 <= x < nks.len() implies (#[trigger] nks[x]).index@.len() == len by {
        if x < i { assert(nks[x] == ks[x]); } else if x > i { assert(nks[x] == ks[x - 1]); }
    }
    assert forall|x: int, y: int| 0 <= x < y < nks.len() implies lex_order((#[trigger] nks[x]).index@, (#[trigger] nks[y]).index@) < 0 by {
        if y < i {
            assert(nks[x] == ks[x] && nks[y] == ks[y]);
        } else if x > i {
            assert(nks[x] == ks[x - 1] && nks[y] == ks[y - 1]);
        } else if x == i {
            assert(nks[y] == ks[y - 1]);
            lemma_lex_order_antisymmetric(ks[y - 1].index@, k);
        } else if y == i {
            assert(nks[x] == ks[x]);
        } else {
            assert(nks[x] == ks[x] && nks[y] == ks[y - 1]);
            lemma_lex_order_antisymmetric(ks[y - 1].index@, k);
            lemma_lex_order_transitive(ks[x].index@, k, ks[y - 1].index@);
        }
    }
}

impl IndexNode {
    /// Puts `data` under `key` in this leaf: at the place `lower_bound` finds, a key equal to
    /// `key` takes the data into its bucket where duplicates are allowed; else the key comes in
    /// there with a new bucket holding `data`. Says whether the key was present.
    #[verifier::rlimit(40)]
    fn insert_leaf(&mut self, key: &RawIndex, data: u64, allow_duplicate: bool, Ghost(len): Ghost<nat>, Ghost(lo): Ghost<Option<Seq<Data>>>, Ghost(hi): Ghost<Option<Seq<Data>>>) -> (r: bool)
        requires
            old(self).leaf,
            node_wf(*old(self), len, 4, lo, hi),
            key.index@.len() == len,
            in_bounds(lo, hi, key.index@),
        ensures
            final(self).leaf,
            node_wf(*final(self), len, 5, lo, hi),
            r == has_key(entries(*old(self)), key.index@),
            put(entries(*old(self)), entries(*final(self)), key.index@, data, allow_duplicate, r),
    {
        let ghost ks = self.keys@;
        let ghost es = entries(*self);
        let ghost k = key.index@;
        proof {
            lemma_keys_sorted(ks, len, *key);
        }
        let i = lower_bound(&self.keys, key);
        assert(lower_at(ks, *key, i as int));
        assert(forall|x: int| 0 <= x < es.len() ==> (#[trigger] es[x]).0 == ks[x].index@);
        let present = i < self.keys.len() && self.keys[i].same(key);
        if present {
            proof {
                lemma_lex_order_antisymmetric(ks[i as int].index@, k);
                assert(lex_order(es[i as int].0, k) == 0);
                let c = key_at(es, k);
                lemma_unique(es, len, k, c, i as int);
            }
            if allow_duplicate {
                let mut b = self.buckets.remove(i);
                b.push(data);
                self.buckets.insert(i, b);
                assert(entries(*self) =~= added(es, k, data, allow_duplicate));
            } else {
                assert(entries(*self) =~= added(es, k, data, allow_duplicate));
            }
            true
        } else {
            proof {
                if i < ks.len() {
                    lemma_lex_order_antisymmetric(ks[i as int].index@, k);
                }
                assert forall|x: int| 0 <= x < es.len() implies lex_order(#[trigger] es[x].0, k) != 0 by {
                    if x > i && lex_order(ks[x].index@, k) == 0 {
                        lemma_lex_order_transitive(ks[i as int].index@, ks[x].index@, k);
                    }
                }
            }
            let nk = copy_key(key);
            let mut b: Vec<u64> = Vec::new();
            b.push(data);
            self.keys.insert(i, nk);
            self.buckets.insert(i, b);
            let ghost new_es = entries(*self);
            proof {
                let e = (k, seq![data]);
                assert(new_es =~= es.insert(i as int, e));
                let nks = self.keys@;
                assert forall|x: int| 0 <= x < ks.len() && x >= i implies lex_order((#[trigger] ks[x]).index@, k) > 0 by {
                    assert(lex_order(ks[x].index@, k) >= 0);
                    assert(lex_order(es[x].0, k) != 0);
                }
                lemma_insert_key_ordered(ks, len, nk, i as int);
                assert(nks == ks.insert(i as int, nk));
                assert(forall|x: int| 0 <= x < new_es.len() ==> (#[trigger] new_es[x]).0 == nks[x].index@);
                assert(sorted_es(new_es, len));
                assert forall|x: int| 0 <= x < nks.len() implies in_bounds(lo, hi, (#[trigger] nks[x]).index@) by {
                    if x < i { assert(nks[x] == ks[x]); } else if x > i { assert(nks[x] == ks[x - 1]); }
                }
                lemma_put_within(es, new_es, k, data, allow_duplicate, false, lo, hi);
            }
            false
        }
    }
}

/// The entries of the children around the `j`-th.
proof fn lemma_cat_around(s: Seq<IndexNode>, j: int)
    requires
        0 <= j < s.len(),
    ensures
        cat(s) == cat(s.subrange(0, j)) + entries(s[j]) + cat(s.subrange(j + 1, s.len() as int)),
{
    let pre = s.subrange(0, j);
    let post = s.subrange(j + 1, s.len() as int);
    assert(s =~= pre + seq![s[j]] + post);
    lemma_cat_concat(pre + seq![s[j]], post);
    lemma_cat_concat(pre, seq![s[j]]);
    lemma_cat_one(s[j]);
}

/// The entries of children with two in the middle.
proof fn lemma_cat_two(pre: Seq<IndexNode>, a: IndexNode, b: IndexNode, post: Seq<IndexNode>)
    ensures
        cat(pre + seq![a, b] + post) == cat(pre) + (entries(a) + entries(b)) + cat(post),
{
    assert(seq![a, b] =~= seq![a] + seq![b]);
    lemma_cat_concat(pre + seq![a, b], post);
    lemma_cat_concat(pre, seq![a, b]);
    lemma_cat_concat(seq![a], seq![b]);
    lemma_cat_one(a);
    lemma_cat_one(b);
}

/// Children whose entries have keys of length `len` give entries with keys of that length.
proof fn lemma_cat_len(s: Seq<IndexNode>, len: nat, k: int)
    requires
        0 <= k <= s.len(),
        forall|j: int| 0 <= j < s.len() ==> sorted_es(entries(#[trigger] s[j]), len),
    ensures
        forall|i: int| 0 <= i < sons_entries(s, k).len() ==> (#[trigger] sons_entries(s, k)[i]).0.len() == len,
    decreases k,
{
    if k > 0 {
        lemma_cat_len(s, len, k - 1);
        let a = sons_entries(s, k - 1);
        let b = entries(s[k - 1]);
        assert(sorted_es(b, len));
        assert forall|i: int| 0 <= i < (a + b).len() implies (#[trigger] (a + b)[i]).0.len() == len by {
            if i < a.len() { assert((a + b)[i] == a[i]); } else { assert((a + b)[i] == b[i - a.len()]); }
        }
    }
}

/// The entries of the children before the `j`-th lie below `k`, and those after it above
/// `k`, where `k` is at least key `j - 1` and below key `j`.
proof fn lemma_outside(s: Seq<IndexNode>, ks: Seq<RawIndex>, len: nat, lo: Option<Seq<Data>>, hi: Option<Seq<Data>>, j: int, k: Seq<Data>)
    requires
        s.len() == ks.len() + 1,
        0 <= j < s.len(),
        keys_ordered(ks, len),
        k.len() == len,
        forall|x: int| 0 <= x < s.len() ==> node_wf(#[trigger] s[x], len, 4, clo(lo, ks, x), chi(hi, ks, x)),
        j >= 1 ==> lex_order(ks[j - 1].index@, k) <= 0,
        j < ks.len() ==> lex_order(ks[j].index@, k) > 0,
    ensures
        forall|i: int| 0 <= i < cat(s.subrange(0, j)).len() ==> lex_order((#[trigger] cat(s.subrange(0, j))[i]).0, k) < 0,
        forall|i: int| 0 <= i < cat(s.subrange(j + 1, s.len() as int)).len() ==> lex_order((#[trigger] cat(s.subrange(j + 1, s.len() as int))[i]).0, k) > 0,
{
    lemma_children(s, ks, len, lo, hi);
    lemma_sons_sorted(s, ks, len, j);
    let pre = s.subrange(0, j);
    lemma_sons_prefix(pre, s, j);
    assert forall|i: int| 0 <= i < cat(pre).len() implies lex_order((#[trigger] cat(pre)[i]).0, k) < 0 by {
        let e = cat(pre)[i].0;
        assert(lex_order(e, ks[j - 1].index@) < 0);
        assert(sorted_es(sons_entries(s, j), len));
        lemma_lex_order_transitive(e, ks[j - 1].index@, k);
    }
    let post = s.subrange(j + 1, s.len() as int);
    if j < ks.len() {
        let m = ks[j].index@;
        assert forall|x: int| 0 <= x < post.len() implies es_within(entries(#[trigger] post[x]), Some(m), None) by {
            assert(post[x] == s[x + j + 1]);
            assert(node_within(s[x + j + 1], lo_of(ks, x + j + 1), hi_of(ks, x + j + 1)));
            assert(sorted_es(entries(s[x + j + 1]), len));
            assert forall|i: int| 0 <= i < entries(post[x]).len() implies in_bounds(Some(m), None, (#[trigger] entries(post[x])[i]).0) by {
                assert(in_bounds(lo_of(ks, x + j + 1), hi_of(ks, x + j + 1), entries(s[x + j + 1])[i].0));
                if x > 0 {
                    lemma_lex_order_transitive(m, ks[x + j].index@, entries(s[x + j + 1])[i].0);
                }
            }
        }
        lemma_cat_within(post, Some(m), None, post.len() as int);
        assert forall|x: int| 0 <= x < post.len() implies sorted_es(entries(#[trigger] post[x]), len) by {
            assert(post[x] == s[x + j + 1]);
        }
        lemma_cat_len(post, len, post.len() as int);
        assert forall|i: int| 0 <= i < cat(post).len() implies lex_order((#[trigger] cat(post)[i]).0, k) > 0 by {
            let e = cat(post)[i].0;
            assert(in_bounds(Some(m), None, e));
            lemma_lex_order_antisymmetric(m, k);
            lemma_lex_order_transitive(k, m, e);
            lemma_lex_order_antisymmetric(k, e);
        }
    } else {
        assert(post.len() == 0);
        assert(cat(post) =~= Seq::<(Seq<Data>, Seq<u64>)>::empty());
    }
}

/// Putting `data` under `k` in the middle run of entries puts it under `k` in the whole,
/// where the runs before and after lie below and above `k`.
proof fn lemma_put_lift(
    p: Seq<(Seq<Data>, Seq<u64>)>,
    m: Seq<(Seq<Data>, Seq<u64>)>,
    q: Seq<(Seq<Data>, Seq<u64>)>,
    m1: Seq<(Seq<Data>, Seq<u64>)>,
    k: Seq<Data>,
    data: u64,
    allow_duplicate: bool,
    present: bool,
    len: nat,
)
    requires
        sorted_es(p + m + q, len),
        k.len() == len,
        forall|i: int| 0 <= i < p.len() ==> lex_order((#[trigger] p[i]).0, k) < 0,
        forall|i: int| 0 <= i < q.len() ==> lex_order((#[trigger] q[i]).0, k) > 0,
        present == has_key(m, k),
        put(m, m1, k, data, allow_duplicate, present),
    ensures
        present == has_key(p + m + q, k),
        put(p + m + q, p + m1 + q, k, data, allow_duplicate, present),
{
    let e = p + m + q;
    if has_key(e, k) {
        let x = choose|x: int| 0 <= x < e.len() && lex_order(#[trigger] e[x].0, k) == 0;
        if x < p.len() {
            assert(e[x] == p[x]);
        } else if x >= p.len() + m.len() {
            assert(e[x] == q[x - p.len() - m.len()]);
        } else {
            assert(e[x] == m[x - p.len()]);
        }
    }
    if present {
        let i = key_at(m, k);
        assert(e[p.len() + i] == m[i]);
        let c = key_at(e, k);
        lemma_unique(e, len, k, c, p.len() + i);
        if allow_duplicate {
            assert(p + m1 + q =~= added(e, k, data, allow_duplicate));
        } else {
            assert(p + m1 + q =~= e);
        }
    } else {
        let y = choose|y: int| 0 <= y <= m.len() && m1 == m.insert(y, (k, seq![data]));
        assert(p + m1 + q =~= e.insert(p.len() + y, (k, seq![data])));
    }
}

/// The middle key of a child that split lies between the keys around that child, and within
/// the node's bounds.
proof fn lemma_mid_between(ks: Seq<RawIndex>, len: nat, lo: Option<Seq<Data>>, hi: Option<Seq<Data>>, j: int, son1: IndexNode, mid: RawIndex)
    requires
        keys_ordered(ks, len),
        0 <= j <= ks.len(),
        lo is Some ==> lo.unwrap().len() == len,
        hi is Some ==> hi.unwrap().len() == len,
        node_wf(son1, len, 5, clo(lo, ks, j), chi(hi, ks, j)),
        son1.keys@.len() == 5,
        mid.index@ == son1.keys@[2].index@,
        forall|x: int| 0 <= x < ks.len() ==> in_bounds(lo, hi, (#[trigger] ks[x]).index@),
    ensures
        keys_ordered(ks.insert(j, mid), len),
        in_bounds(lo, hi, mid.index@),
{
    let m = mid.index@;
    let clj = clo(lo, ks, j);
    let chj = chi(hi, ks, j);
    assert(keys_ordered(son1.keys@, len));
    assert(node_within(son1, clj, chj));
    assert(in_bounds(clj, chj, son1.keys@[0].index@));
    assert(in_bounds(clj, chj, son1.keys@[2].index@));
    assert(lex_order(son1.keys@[0].index@, son1.keys@[2].index@) < 0);
    if j > 0 {
        lemma_lex_order_transitive(ks[j - 1].index@, son1.keys@[0].index@, m);
        if lo is Some {
            assert(in_bounds(lo, hi, ks[j - 1].index@));
            lemma_lex_order_transitive(lo.unwrap(), ks[j - 1].index@, m);
        }
    } else if lo is Some {
        lemma_lex_order_transitive(lo.unwrap(), son1.keys@[0].index@, m);
    }
    if j < ks.len() {
        assert(in_bounds(lo, hi, ks[j].index@));
        if hi is Some {
            lemma_lex_order_transitive(m, ks[j].index@, hi.unwrap());
        }
    }
    assert forall|x: int| 0 <= x < ks.len() && x >= j implies lex_order((#[trigger] ks[x]).index@, m) > 0 by {
        lemma_lex_order_antisymmetric(m, ks[j].index@);
        if x > j {
            lemma_lex_order_transitive(m, ks[j].index@, ks[x].index@);
            lemma_lex_order_antisymmetric(m, ks[x].index@);
        }
    }
    assert forall|x: int| 0 <= x < j implies lex_order((#[trigger] ks[x]).index@, m) < 0 by {
        if x < j - 1 {
            lemma_lex_order_transitive(ks[x].index@, ks[j - 1].index@, m);
        }
    }
    lemma_insert_key_ordered(ks, len, mid, j);
}

/// After a child splits into `left` and `right` with the middle key taken in, the children
/// are well formed between the new keys, and their entries increase.
proof fn lemma_split_parent(s: Seq<IndexNode>, ks: Seq<RawIndex>, len: nat, lo: Option<Seq<Data>>, hi: Option<Seq<Data>>, j: int, left: IndexNode, right: IndexNode, mid: RawIndex, ns: Seq<IndexNode>)
    requires
        s.len() == ks.len() + 1,
        0 <= j < s.len(),
        forall|x: int| 0 <= x < s.len() ==> node_wf(#[trigger] s[x], len, 4, clo(lo, ks, x), chi(hi, ks, x)),
        node_wf(left, len, 4, clo(lo, ks, j), Some(mid.index@)),
        node_wf(right, len, 4, Some(mid.index@), chi(hi, ks, j)),
        keys_ordered(ks.insert(j, mid), len),
        ns == s.subrange(0, j) + seq![left, right] + s.subrange(j + 1, s.len() as int),
    ensures
        forall|x: int| 0 <= x < ns.len() ==> node_wf(#[trigger] ns[x], len, 4, clo(lo, ks.insert(j, mid), x), chi(hi, ks.insert(j, mid), x)),
        sorted_es(cat(ns), len),
{
    let nks = ks.insert(j, mid);
    let m = mid.index@;
    assert forall|x: int| 0 <= x < ns.len() implies node_wf(#[trigger] ns[x], len, 4, clo(lo, nks, x), chi(hi, nks, x)) by {
        if x < j {
            assert(ns[x] == s[x]);
            assert(node_wf(s[x], len, 4, clo(lo, ks, x), chi(hi, ks, x)));
            assert(clo(lo, nks, x) == clo(lo, ks, x));
            assert(chi(hi, nks, x) == chi(hi, ks, x));
        } else if x == j {
            assert(ns[x] == left);
            assert(clo(lo, nks, x) == clo(lo, ks, j));
            assert(chi(hi, nks, x) == Some(m));
        } else if x == j + 1 {
            assert(ns[x] == right);
            assert(clo(lo, nks, x) == Some(m));
            assert(chi(hi, nks, x) == chi(hi, ks, j));
        } else {
            assert(ns[x] == s[x - 1]);
            assert(node_wf(s[x - 1], len, 4, clo(lo, ks, x - 1), chi(hi, ks, x - 1)));
            assert(clo(lo, nks, x) == clo(lo, ks, x - 1));
            assert(chi(hi, nks, x) == chi(hi, ks, x - 1));
        }
    }
    lemma_children(ns, nks, len, lo, hi);
    lemma_sons_sorted(ns, nks, len, ns.len() as int);
}

/// After a child changes within its bounds, the children are well formed and their entries
/// increase.
proof fn lemma_update_parent(s: Seq<IndexNode>, ks: Seq<RawIndex>, len: nat, lo: Option<Seq<Data>>, hi: Option<Seq<Data>>, j: int, son1: IndexNode, ns: Seq<IndexNode>)
    requires
        s.len() == ks.len() + 1,
        0 <= j < s.len(),
        keys_ordered(ks, len),
        forall|x: int| 0 <= x < s.len() ==> node_wf(#[trigger] s[x], len, 4, clo(lo, ks, x), chi(hi, ks, x)),
        node_wf(son1, len, 5, clo(lo, ks, j), chi(hi, ks, j)),
        son1.keys@.len() <= 4,
        ns == s.subrange(0, j) + seq![son1] + s.subrange(j + 1, s.len() as int),
    ensures
        forall|x: int| 0 <= x < ns.len() ==> node_wf(#[trigger] ns[x], len, 4, clo(lo, ks, x), chi(hi, ks, x)),
        sorted_es(cat(ns), len),
        cat(ns) == cat(s.subrange(0, j)) + entries(son1) + cat(s.subrange(j + 1, s.len() as int)),
{
    let pre = s.subrange(0, j);
    let post = s.subrange(j + 1, s.len() as int);
    lemma_cat_concat(pre + seq![son1], post);
    lemma_cat_concat(pre, seq![son1]);
    lemma_cat_one(son1);
    assert(node_wf(son1, len, 4, clo(lo, ks, j), chi(hi, ks, j)));
    assert forall|x: int| 0 <= x < ns.len() implies node_wf(#[trigger] ns[x], len, 4, clo(lo, ks, x), chi(hi, ks, x)) by {
        if x < j {
            assert(ns[x] == s[x]);
        } else if x > j {
            assert(ns[x] == s[x]);
        }
    }
    lemma_children(ns, ks, len, lo, hi);
    lemma_sons_sorted(ns, ks, len, ns.len() as int);
}

impl IndexNode {
    /// Puts `data` under `key` in the subtree of this node, whose bounds are `lo` and `hi`:
    /// a leaf takes it as `insert_leaf` says; an internal node passes it to the child at the
    /// place `upper_bound` finds, and where that child then holds more than 4 keys, splits it
    /// and takes the middle key in before the new child. Says whether the key was present.
    #[verifier::rlimit(100)]
    #[verifier::spinoff_prover]
    fn insert_in(&mut self, key: &RawIndex, data: u64, allow_duplicate: bool, Ghost(len): Ghost<nat>, Ghost(lo): Ghost<Option<Seq<Data>>>, Ghost(hi): Ghost<Option<Seq<Data>>>) -> (r: bool)
        requires
            node_wf(*old(self), len, 4, lo, hi),
            key.index@.len() == len,
            in_bounds(lo, hi, key.index@),
            lo is Some ==> lo.unwrap().len() == len,
            hi is Some ==> hi.unwrap().len() == len,
        ensures
            final(self).leaf == old(self).leaf,
            node_wf(*final(self), len, 5, lo, hi),
            r == has_key(entries(*old(self)), key.index@),
            put(entries(*old(self)), entries(*final(self)), key.index@, data, allow_duplicate, r),
        decreases *old(self),
    {
        if self.leaf {
            return self.insert_leaf(key, data, allow_duplicate, Ghost(len), Ghost(lo), Ghost(hi));
        }
        let ghost old_node = *self;
        let ghost ks = self.keys@;
        let ghost s = self.sons@;
        let ghost es = entries(*self);
        let ghost k = key.index@;
        proof {
            lemma_keys_sorted(ks, len, *key);
        }
        let j = upper_bound(&self.keys, key);
        assert(upper_at(ks, *key, j as int));
        let ghost clj = clo(lo, ks, j as int);
        let ghost chj = chi(hi, ks, j as int);
        proof {
            if j < ks.len() {
                lemma_lex_order_antisymmetric(ks[j as int].index@, k);
            }
            assert(in_bounds(clj, chj, k));
            lemma_outside(s, ks, len, lo, hi, j as int, k);
            lemma_cat_around(s, j as int);
        }
        let mut son = self.sons.remove(j);
        assert(son == s[j as int]);
        assert(node_wf(son, len, 4, clj, chj));
        let r = son.insert_in(key, data, allow_duplicate, Ghost(len), Ghost(clj), Ghost(chj));
        let ghost son1 = son;
        let ghost pre = s.subrange(0, j as int);
        let ghost post = s.subrange(j + 1, s.len() as int);
        proof {
            lemma_put_lift(cat(pre), entries(s[j as int]), cat(post), entries(son1), k, data, allow_duplicate, r, len);
        }
        if son.keys.len() > 4 {
            let (right, mid) = son.split(Ghost(len), Ghost(clj), Ghost(chj));
            proof {
                lemma_mid_between(ks, len, lo, hi, j as int, son1, mid);
            }
            let ghost left = son;
            self.sons.insert(j, son);
            self.sons.insert(j + 1, right);
            self.keys.insert(j, mid);
            proof {
                let nks = self.keys@;
                let ns = self.sons@;
                assert(nks == ks.insert(j as int, mid));
                assert(ns =~= pre + seq![left, right] + post);
                lemma_cat_two(pre, left, right, post);
                assert(entries(*self) == cat(pre) + entries(son1) + cat(post));
                lemma_split_parent(s, ks, len, lo, hi, j as int, left, right, mid, ns);
                lemma_put_within(es, entries(*self), k, data, allow_duplicate, r, lo, hi);
                assert forall|x: int| 0 <= x < nks.len() implies in_bounds(lo, hi, (#[trigger] nks[x]).index@) by {
                    if x < j {
                        assert(nks[x] == ks[x]);
                    } else if x > j {
                        assert(nks[x] == ks[x - 1]);
                    }
                }
                assert(node_wf(*self, len, 5, lo, hi));
            }
        } else {
            self.sons.insert(j, son);
            proof {
                let ns = self.sons@;
                assert(ns =~= pre + seq![son1] + post);
                lemma_update_parent(s, ks, len, lo, hi, j as int, son1, ns);
                lemma_put_within(es, entries(*self), k, data, allow_duplicate, r, lo, hi);
                assert(node_wf(*self, len, 5, lo, hi));
            }
        }
        r
    }
}

/// Looking `k` up in the middle run of entries is looking it up in the whole, where the runs
/// before and after lie below and above `k`.
proof fn lemma_find_lift(p: Seq<(Seq<Data>, Seq<u64>)>, m: Seq<(Seq<Data>, Seq<u64>)>, q: Seq<(Seq<Data>, Seq<u64>)>, k: Seq<Data>, len: nat)
    requires
        sorted_es(p + m + q, len),
        k.len() == len,
        forall|i: int| 0 <= i < p.len() ==> lex_order((#[trigger] p[i]).0, k) < 0,
        forall|i: int| 0 <= i < q.len() ==> lex_order((#[trigger] q[i]).0, k) > 0,
    ensures
        has_key(p + m + q, k) == has_key(m, k),
        has_key(m, k) ==> (p + m + q)[key_at(p + m + q, k)] == m[key_at(m, k)],
{
    let e = p + m + q;
    if has_key(e, k) {
        let x = choose|x: int| 0 <= x < e.len() && lex_order(#[trigger] e[x].0, k) == 0;
        if x < p.len() {
            assert(e[x] == p[x]);
        } else if x >= p.len() + m.len() {
            assert(e[x] == q[x - p.len() - m.len()]);
        } else {
            assert(e[x] == m[x - p.len()]);
        }
    }
    if has_key(m, k) {
        let i = key_at(m, k);
        assert(e[p.len() + i] == m[i]);
        lemma_unique(e, len, k, key_at(e, k), p.len() + i);
    }
}

fn copy_bucket(b: &Vec<u64>) -> (r: Vec<u64>)
    ensures
        r@ == b@,
{
    let mut v: Vec<u64> = Vec::new();
    let mut i: usize = 0;
    while i < b.len()
        invariant
            i <= b@.len(),
            v@ == b@.take(i as int),
        decreases b@.len() - i,
    {
        v.push(b[i]);
        i = i + 1;
        assert(v@ =~= b@.take(i as int));
    }
    assert(v@ =~= b@);
    v
}

impl IndexNode {
    /// The data of the bucket of `key` in the subtree of this node, where the key is present:
    /// a leaf looks at the place `lower_bound` finds; an internal node asks the child at the
    /// place `upper_bound` finds.
    fn search_in(&self, key: &RawIndex, Ghost(len): Ghost<nat>, Ghost(cap): Ghost<nat>, Ghost(lo): Ghost<Option<Seq<Data>>>, Ghost(hi): Ghost<Option<Seq<Data>>>) -> (r: Option<Vec<u64>>)
        requires
            node_wf(*self, len, cap, lo, hi),
            key.index@.len() == len,
        ensures
            r is Some == has_key(entries(*self), key.index@),
            r is Some ==> r.unwrap()@ == entries(*self)[key_at(entries(*self), key.index@)].1,
        decreases *self,
    {
        let ghost ks = self.keys@;
        let ghost es = entries(*self);
        let ghost k = key.index@;
        proof {
            lemma_keys_sorted(ks, len, *key);
        }
        if self.leaf {
            let i = lower_bound(&self.keys, key);
            assert(lower_at(ks, *key, i as int));
            assert(forall|x: int| 0 <= x < es.len() ==> (#[trigger] es[x]).0 == ks[x].index@);
            if i < self.keys.len() && self.keys[i].same(key) {
                proof {
                    lemma_lex_order_antisymmetric(ks[i as int].index@, k);
                    assert(lex_order(es[i as int].0, k) == 0);
                    lemma_unique(es, len, k, key_at(es, k), i as int);
                }
                Some(copy_bucket(&self.buckets[i]))
            } else {
                proof {
                    if i < ks.len() {
                        lemma_lex_order_antisymmetric(ks[i as int].index@, k);
                    }
                    assert forall|x: int| 0 <= x < es.len() implies lex_order(#[trigger] es[x].0, k) != 0 by {
                        if x > i && lex_order(ks[x].index@, k) == 0 {
                            lemma_lex_order_transitive(ks[i as int].index@, ks[x].index@, k);
                        }
                    }
                }
                None
            }
        } else {
            let j = upper_bound(&self.keys, key);
            assert(upper_at(ks, *key, j as int));
            let ghost s = self.sons@;
            proof {
                if j < ks.len() {
                    lemma_lex_order_antisymmetric(ks[j as int].index@, k);
                }
                lemma_outside(s, ks, len, lo, hi, j as int, k);
                lemma_cat_around(s, j as int);
                lemma_find_lift(cat(s.subrange(0, j as int)), entries(s[j as int]), cat(s.subrange(j + 1, s.len() as int)), k, len);
                assert(node_wf(s[j as int], len, 4, clo(lo, ks, j as int), chi(hi, ks, j as int)));
            }
            self.sons[j].search_in(key, Ghost(len), Ghost(4), Ghost(clo(lo, ks, j as int)), Ghost(chi(hi, ks, j as int)))
        }
    }
}

/// An index tree of keys of `width` values each.
pub struct IndexTree {
    pub root: IndexNode,
    pub width: usize,
}

impl IndexTree {
    /// The tree is well formed: its root is, with at most 4 keys and no bounds.
    pub open spec fn wf(self) -> bool {
        node_wf(self.root, self.width as nat, 4, None, None)
    }

    /// The entries of the tree, in key order.
    pub open spec fn contents(self) -> Seq<(Seq<Data>, Seq<u64>)> {
        entries(self.root)
    }

    /// An empty tree: one leaf without keys.
    pub fn new(width: usize) -> (r: Self)
        ensures
            r.wf(),
            r.width == width,
            r.root.leaf,
            r.contents() == Seq::<(Seq<Data>, Seq<u64>)>::empty(),
    {
        let r = IndexTree { root: IndexNode { leaf: true, keys: Vec::new(), buckets: Vec::new(), sons: Vec::new() }, width };
        assert(entries(r.root) =~= Seq::<(Seq<Data>, Seq<u64>)>::empty());
        r
    }

    /// Puts `data` under `key`, and says whether the key was present. The root takes the
    /// data as `insert_in` says; where it then holds more than 4 keys, it is split and a new
    /// internal root is made over its two halves, with the middle key as its one key.
    pub fn insert_record(&mut self, key: &RawIndex, data: u64, allow_duplicate: bool) -> (r: bool)
        requires
            old(self).wf(),
            key.index@.len() == old(self).width,
        ensures
            final(self).wf(),
            final(self).width == old(self).width,
            r == has_key(old(self).contents(), key.index@),
            put(old(self).contents(), final(self).contents(), key.index@, data, allow_duplicate, r),
            exists|n: IndexNode|
                {
                    &&& node_wf(n, old(self).width as nat, 5, None, None)
                    &&& n.leaf == old(self).root.leaf
                    &&& put(old(self).contents(), entries(n), key.index@, data, allow_duplicate, r)
                    &&& n.keys@.len() <= 4 ==> final(self).root == n
                    &&& n.keys@.len() > 4 ==> {
                        &&& !final(self).root.leaf
                        &&& final(self).root.keys@.len() == 1
                        &&& final(self).root.keys@[0].index@ == n.keys@[2].index@
                        &&& final(self).root.sons@.len() == 2
                        &&& entries(final(self).root.sons@[0]) + entries(final(self).root.sons@[1]) == entries(n)
                    }
                },
    {
        let ghost w = self.width as nat;
        let r = self.root.insert_in(key, data, allow_duplicate, Ghost(w), Ghost(None), Ghost(None));
        let ghost n = self.root;
        if self.root.keys.len() > 4 {
            let mut root = IndexNode { leaf: true, keys: Vec::new(), buckets: Vec::new(), sons: Vec::new() };
            std::mem::swap(&mut root, &mut self.root);
            let (right, mid) = root.split(Ghost(w), Ghost(None), Ghost(None));
            let ghost left = root;
            let ghost m = mid.index@;
            let mut keys: Vec<RawIndex> = Vec::new();
            keys.push(mid);
            let mut sons: Vec<IndexNode> = Vec::new();
            sons.push(root);
            sons.push(right);
            self.root = IndexNode { leaf: false, keys, buckets: Vec::new(), sons };
            proof {
                let t = self.root;
                assert(t.sons@ =~= seq![left, right]);
                assert(seq![left, right] =~= seq![left] + seq![right]);
                lemma_cat_concat(seq![left], seq![right]);
                lemma_cat_one(left);
                lemma_cat_one(right);
                assert(entries(t) == entries(n));
                assert(keys_ordered(n.keys@, w));
                assert(keys_ordered(t.keys@, w));
                assert(clo(None, t.keys@, 0) == None::<Seq<Data>>);
                assert(chi(None, t.keys@, 0) == Some(m));
                assert(clo(None, t.keys@, 1) == Some(m));
                assert(chi(None, t.keys@, 1) == None::<Seq<Data>>);
                assert forall|x: int| 0 <= x < t.sons@.len() implies node_wf(#[trigger] t.sons@[x], w, 4, clo(None, t.keys@, x), chi(None, t.keys@, x)) by {
                    if x == 0 { assert(t.sons@[x] == left); } else { assert(t.sons@[x] == right); }
                }
                assert(node_within(n, None, None));
                assert forall|i: int| 0 <= i < t.keys@.len() implies in_bounds(None, None, (#[trigger] t.keys@[i]).index@) by {}
                assert(node_within(t, None, None));
                assert(node_wf(t, w, 4, None, None));
            }
        } else {
            assert(node_wf(self.root, w, 4, None, None));
        }
        r
    }
}

impl IndexTree {
    /// The data of the bucket of `key`, where the key is present.
    pub fn search_record(&self, key: &RawIndex) -> (r: Option<Vec<u64>>)
        requires
            self.wf(),
            key.index@.len() == self.width,
        ensures
            r is Some == has_key(self.contents(), key.index@),
            r is Some ==> r.unwrap()@ == self.contents()[key_at(self.contents(), key.index@)].1,
    {
        self.root.search_in(key, Ghost(self.width as nat), Ghost(4), Ghost(None), Ghost(None))
    }
}

/// What a read gives back of a write: after `data` is put under `k` in increasing entries,
/// the key is present; its bucket ends with `data`, unless the key was present already and
/// duplicates are not allowed, in which case the bucket is as it was.
pub proof fn lemma_found_after_put(
    es: Seq<(Seq<Data>, Seq<u64>)>,
    new_es: Seq<(Seq<Data>, Seq<u64>)>,
    k: Seq<Data>,
    data: u64,
    allow_duplicate: bool,
    present: bool,
    len: nat,
)
    requires
        sorted_es(es, len),
        sorted_es(new_es, len),
        k.len() == len,
        present == has_key(es, k),
        put(es, new_es, k, data, allow_duplicate, present),
    ensures
        has_key(new_es, k),
        present && !allow_duplicate ==> new_es[key_at(new_es, k)].1 == es[key_at(es, k)].1,
        !(present && !allow_duplicate) ==> new_es[key_at(new_es, k)].1.last() == data,
{
    lemma_lex_refl(k);
    if present {
        let i = key_at(es, k);
        assert(new_es[i].0 == es[i].0);
        lemma_unique(new_es, len, k, key_at(new_es, k), i);
    } else {
        let p = choose|p: int| 0 <= p <= es.len() && new_es == es.insert(p, (k, seq![data]));
        assert(new_es[p] == (k, seq![data]));
        lemma_unique(new_es, len, k, key_at(new_es, k), p);
    }
}

/// After `data` is put under `k`, a key is present exactly where it was, or where it equals
/// `k`.
pub proof fn lemma_has_key_put(
    es: Seq<(Seq<Data>, Seq<u64>)>,
    new_es: Seq<(Seq<Data>, Seq<u64>)>,
    k: Seq<Data>,
    data: u64,
    allow_duplicate: bool,
    present: bool,
    len: nat,
    x: Seq<Data>,
)
    requires
        sorted_es(es, len),
        k.len() == len,
        x.len() == len,
        present == has_key(es, k),
        put(es, new_es, k, data, allow_duplicate, present),
    ensures
        has_key(new_es, x) == (has_key(es, x) || lex_order(k, x) == 0),
{
    if present {
        let i = key_at(es, k);
        assert forall|y: int| 0 <= y < new_es.len() implies (#[trigger] new_es[y]).0 == es[y].0 by {}
        if has_key(new_es, x) {
            let y = choose|y: int| 0 <= y < new_es.len() && lex_order(#[trigger] new_es[y].0, x) == 0;
            assert(lex_order(es[y].0, x) == 0);
        }
        if has_key(es, x) {
            let y = choose|y: int| 0 <= y < es.len() && lex_order(#[trigger] es[y].0, x) == 0;
            assert(lex_order(new_es[y].0, x) == 0);
        }
        if lex_order(k, x) == 0 {
            lemma_lex_order_antisymmetric(es[i].0, k);
            lemma_lex_order_antisymmetric(k, x);
            lemma_lex_order_transitive(es[i].0, k, x);
            lemma_lex_order_transitive(x, k, es[i].0);
            lemma_lex_order_antisymmetric(es[i].0, x);
            assert(lex_order(es[i].0, x) == 0);
        }
    } else {
        let p = choose|p: int| 0 <= p <= es.len() && new_es == es.insert(p, (k, seq![data]));
        if has_key(new_es, x) {
            let y = choose|y: int| 0 <= y < new_es.len() && lex_order(#[trigger] new_es[y].0, x) == 0;
            if y < p {
                assert(new_es[y] == es[y]);
            } else if y > p {
                assert(new_es[y] == es[y - 1]);
            }
        }
        if has_key(es, x) {
            let y = choose|y: int| 0 <= y < es.len() && lex_order(#[trigger] es[y].0, x) == 0;
            if y < p {
                assert(new_es[y] == es[y]);
            } else {
                assert(new_es[y + 1] == es[y]);
            }
        }
        if lex_order(k, x) == 0 {
            assert(new_es[p].0 == k);
        }
    }
}
} // verus!
