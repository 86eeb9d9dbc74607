use vstd::prelude::*;
use vstd::string::StrSliceExecFns;
use crate::rm::record::Data;
use crate::rm::record::Record;
use crate::rm::record::data_order;
use crate::rm::record::lemma_data_order_antisymmetric;
use crate::rm::record::lemma_data_order_transitive;

verus! {

/// Keys (and buckets) a node holds before it splits.
pub const BTREE_NODE_CAPACITY: usize = 4;

/// Slots of each array of a node: the capacity and room for one more before a split.
pub const NODE_SLOTS: usize = 6;

/// Whether a character is white space, as `char::is_whitespace` says (Unicode `White_Space`).
pub open spec fn is_white(c: char) -> bool {
    let u = c as u32;
    (0x9 <= u <= 0xd) || u == 0x20 || u == 0x85 || u == 0xa0 || u == 0x1680 || (0x2000 <= u <= 0x200a)
        || u == 0x2028 || u == 0x2029 || u == 0x202f || u == 0x205f || u == 0x3000
}

fn white(c: char) -> (r: bool)
    ensures
        r == is_white(c),
{
    let u = c as u32;
    (0x9 <= u && u <= 0xd) || u == 0x20 || u == 0x85 || u == 0xa0 || u == 0x1680 || (0x2000 <= u && u <= 0x200a)
        || u == 0x2028 || u == 0x2029 || u == 0x202f || u == 0x205f || u == 0x3000
}

/// The words of `s`: its maximal runs of characters that are not white space, in order
/// (as `split_whitespace` yields them).
pub open spec fn words(s: Seq<char>) -> Seq<Seq<char>>
    decreases s.len(),
{
    if s.len() == 0 {
        Seq::empty()
    } else {
        let w = words(s.drop_last());
        if is_white(s.last()) {
            w
        } else if s.len() >= 2 && !is_white(s[s.len() - 2]) {
            w.update(w.len() - 1, w.last().push(s.last()))
        } else {
            w.push(seq![s.last()])
        }
    }
}

/// Characters that are not white space, after nothing or after a white space, form one more
/// word.
proof fn lemma_words_append(p: Seq<char>, t: Seq<char>)
    requires
        p.len() == 0 || is_white(p.last()),
        t.len() > 0,
        forall|i: int| 0 <= i < t.len() ==> !is_white(#[trigger] t[i]),
    ensures
        words(p + t) == words(p).push(t),
    decreases t.len(),
{
    let s = p + t;
    assert(s.last() == t.last());
    if t.len() == 1 {
        assert(s.drop_last() =~= p);
        assert(seq![s.last()] =~= t);
    } else {
        let t0 = t.drop_last();
        lemma_words_append(p, t0);
        assert(s.drop_last() =~= p + t0);
        assert(s[s.len() - 2] == t[t.len() - 2]);
        assert(t0.push(t.last()) =~= t);
    }
}

/// A name made of a constraint and a table, each one word, has those two words: the name a
/// foreign-key tree is given by `set_foreign_index_name(constraint, table)` reads back, by
/// `get_foreign_constraint_name` and `get_foreign_table_name`, as `constraint` and `table`.
pub proof fn lemma_foreign_name_words(constraint: Seq<char>, table: Seq<char>)
    requires
        constraint.len() > 0,
        table.len() > 0,
        forall|i: int| 0 <= i < constraint.len() ==> !is_white(#[trigger] constraint[i]),
        forall|i: int| 0 <= i < table.len() ==> !is_white(#[trigger] table[i]),
    ensures
        words(constraint + seq![' '] + table) == seq![constraint, table],
{
    let e = Seq::<char>::empty();
    lemma_words_append(e, constraint);
    assert(e + constraint =~= constraint);
    let c1 = constraint + seq![' '];
    assert(c1.drop_last() =~= constraint);
    assert(is_white(' ')) by {
        assert((' ' as u32) == 0x20);
    }
    assert(words(c1) == words(constraint));
    lemma_words_append(c1, table);
    assert(words(e) =~= Seq::<Seq<char>>::empty());
    assert(words(constraint + seq![' '] + table) =~= seq![constraint, table]);
}

/// The words of `s`, in order.
pub fn split_words(s: &str) -> (r: Vec<String>)
    ensures
        r@.map_values(|w: String| w@) == words(s@),
{
    let len = s.unicode_len();
    let mut done: Vec<String> = Vec::new();
    let mut cur = String::new();
    let mut in_word = false;
    let mut i: usize = 0;
    while i < len
        invariant
            len == s@.len(),
            i <= len,
            in_word == (i > 0 && !is_white(s@[i - 1])),
            in_word ==> words(s@.take(i as int)) == done@.map_values(|w: String| w@).push(cur@),
            !in_word ==> words(s@.take(i as int)) == done@.map_values(|w: String| w@),
            !in_word ==> cur@.len() == 0,
        decreases len - i,
    {
        let c = s.get_char(i);
        let ghost before = done@.map_values(|w: String| w@);
        assert(s@.take(i as int + 1).drop_last() =~= s@.take(i as int));
        assert(s@.take(i as int + 1).last() == c);
        if white(c) {
            if in_word {
                let finished = cur;
                done.push(finished);
                cur = String::new();
                assert(done@.map_values(|w: String| w@) =~= before.push(finished@));
            }
            in_word = false;
        } else {
            if in_word {
                assert(s@.take(i as int + 1)[i - 1] == s@[i - 1]);
                crate::utils::text::push_char(&mut cur, c);
            } else {
                crate::utils::text::push_char(&mut cur, c);
                assert(cur@ =~= seq![c]);
                if i > 0 {
                    assert(s@.take(i as int + 1)[i - 1] == s@[i - 1]);
                }
            }
            in_word = true;
        }
        i = i + 1;
    }
    assert(s@.take(len as int) =~= s@);
    if in_word {
        let ghost before = done@.map_values(|w: String| w@);
        done.push(cur);
        assert(done@.map_values(|w: String| w@) =~= before.push(cur@));
    }
    done
}

/// An index over some columns of a table, kept as a B+ tree in the table's file.
pub struct BTree {
    /// Where the root node is in the file.
    pub root: u64,
    /// The indexed columns, in order.
    pub index_col: Vec<u32>,
    /// `""` for the tree of all records, the key name for the primary key, and
    /// `"constraint table"` for a foreign key.
    pub index_name: String,
    /// 0: all records, 1: primary key, 2: index, 3: foreign key.
    pub ty: u8,
}

impl BTree {
    /// A tree over the columns `index_col` whose (empty) root node was stored at `root`.
    pub fn new(root: u64, index_col: Vec<u32>, index_name: &str, ty: u8) -> (r: Self)
        ensures
            r.root == root,
            r.index_col@ == index_col@,
            r.index_name@ == index_name@,
            r.ty == ty,
    {
        let mut name = String::new();
        crate::utils::text::push_str(&mut name, index_name);
        BTree { root: root, index_col: index_col, index_name: name, ty: ty }
    }

    pub fn is_primary(&self) -> (r: bool)
        ensures
            r == (self.ty == 1),
    {
        self.ty == Self::primary_ty()
    }

    pub fn is_foreign(&self) -> (r: bool)
        ensures
            r == (self.ty == 3),
    {
        self.ty == Self::foreign_ty()
    }

    /// Whether this is a tree made by `create index`.
    pub fn is_index(&self) -> (r: bool)
        ensures
            r == (self.ty == 2),
    {
        self.ty == Self::index_ty()
    }

    pub fn born_ty() -> (r: u8)
        ensures
            r == 0,
    {
        0
    }

    pub fn primary_ty() -> (r: u8)
        ensures
            r == 1,
    {
        1
    }

    pub fn index_ty() -> (r: u8)
        ensures
            r == 2,
    {
        2
    }

    pub fn foreign_ty() -> (r: u8)
        ensures
            r == 3,
    {
        3
    }

    /// The constraint named by a foreign-key tree: the first word of its name.
    pub fn get_foreign_constraint_name(&self) -> (r: String)
        requires
            self.ty == 3,
            words(self.index_name@).len() >= 1,
        ensures
            r@ == words(self.index_name@)[0],
    {
        let mut w = split_words(self.index_name.as_str());
        assert(w@.map_values(|x: String| x@)[0] == w@[0]@);
        w.swap_remove(0)
    }

    /// The table referred to by a foreign-key tree: the second word of its name.
    pub fn get_foreign_table_name(&self) -> (r: String)
        requires
            self.ty == 3,
            words(self.index_name@).len() >= 2,
        ensures
            r@ == words(self.index_name@)[1],
    {
        let mut w = split_words(self.index_name.as_str());
        assert(w@.map_values(|x: String| x@)[1] == w@[1]@);
        w.swap_remove(1)
    }

    /// Names a foreign-key tree after its constraint and the table it refers to.
    pub fn set_foreign_index_name(&mut self, constraint: &str, table: &str)
        requires
            old(self).ty == 3,
        ensures
            final(self).index_name@ == constraint@ + seq![' '] + table@,
            final(self).ty == old(self).ty,
            final(self).root == old(self).root,
            final(self).index_col@ == old(self).index_col@,
    {
        let mut name = String::new();
        crate::utils::text::push_str(&mut name, constraint);
        crate::utils::text::push_char(&mut name, ' ');
        crate::utils::text::push_str(&mut name, table);
        self.index_name = name;
    }

    /// Byte offset of the root pointer in a stored tree.
    pub fn get_offset_root() -> (r: usize)
        ensures
            r == 12,
    {
        4 * 3
    }

    /// Byte offset of the node capacity in a stored tree.
    pub fn get_offset_node_capacity() -> (r: usize)
        ensures
            r == 20,
    {
        4 * 3 + 8
    }

    /// Byte offset of the indexed columns in a stored tree.
    pub fn get_index_col() -> (r: usize)
        ensures
            r == 24,
    {
        4 * 3 + 8 + 4
    }
}

/// The records stored under one key, in a list of buckets that follows key order.
pub struct Bucket {
    pub prev: u64,
    pub next: u64,
    pub data: Vec<u64>,
}

impl Bucket {
    pub fn new() -> (r: Self)
        ensures
            r.prev == 0,
            r.next == 0,
            r.data@ == Seq::<u64>::empty(),
    {
        Bucket { prev: 0, next: 0, data: Vec::new() }
    }

    /// Byte offset of the previous-bucket pointer in a stored bucket.
    pub fn get_offset_prev() -> (r: usize)
        ensures
            r == 12,
    {
        4 * 3
    }

    /// Byte offset of the next-bucket pointer in a stored bucket.
    pub fn get_offset_next() -> (r: usize)
        ensures
            r == 20,
    {
        4 * 3 + 8
    }

    /// Where the bucket before this one is stored, when there is one.
    pub fn prev_bucket(&self) -> (r: Option<u64>)
        ensures
            r == if self.prev == 0 {
                None::<u64>
            } else {
                Some(self.prev)
            },
    {
        if self.prev == 0 {
            None
        } else {
            Some(self.prev)
        }
    }

    /// Where the bucket after this one is stored, when there is one.
    pub fn next_bucket(&self) -> (r: Option<u64>)
        ensures
            r == if self.next == 0 {
                None::<u64>
            } else {
                Some(self.next)
            },
    {
        if self.next == 0 {
            None
        } else {
            Some(self.next)
        }
    }

    /// Byte offset of record pointer `pos` in a stored bucket.
    pub fn get_offset_data(pos: usize) -> (r: usize)
        requires
            28 + pos * 8 <= usize::MAX,
        ensures
            r == 28 + pos * 8,
    {
        4 * 3 + 8 + 8 + pos * 8
    }
}

/// Whether a node is a leaf (it holds buckets) or internal (it holds children).
pub enum BTreeNodeType {
    Leaf,
    Internal,
}

/// The next step of a walk to the first or last bucket of a tree.
pub enum BucketStep {
    /// The walk ends: where the bucket is stored, or `None` for an empty leaf.
    Found(Option<u64>),
    /// The walk goes on from the child stored here.
    Descend(u64),
}

/// The number of keys in use, when the used keys (those not 0) come first.
pub open spec fn key_count(k: Seq<u64>) -> nat {
    if k[0] == 0 {
        0
    } else if k[1] == 0 {
        1
    } else if k[2] == 0 {
        2
    } else if k[3] == 0 {
        3
    } else if k[4] == 0 {
        4
    } else {
        5
    }
}

/// The keys in use come first and at most `BTREE_NODE_CAPACITY + 1` are in use.
pub open spec fn keys_packed(key: Seq<u64>) -> bool {
    &&& key.len() == NODE_SLOTS
    &&& forall|i: int, j: int| 0 <= i < j < NODE_SLOTS && key[j] != 0 ==> key[i] != 0
    &&& key[BTREE_NODE_CAPACITY + 1] == 0
}

/// A node of an index tree: up to `BTREE_NODE_CAPACITY` keys (pointers to stored keys), and
/// per key a bucket (in a leaf) or, one more than the keys, children (in an internal node).
/// Unused slots hold 0.
pub struct BTreeNode {
    pub ty: BTreeNodeType,
    pub key: [u64; NODE_SLOTS],
    pub son: [u64; NODE_SLOTS],
    pub bucket: [u64; NODE_SLOTS],
}

impl BTreeNode {
    /// An empty leaf.
    pub fn new() -> (r: Self)
        ensures
            r.ty is Leaf,
            forall|i: int| 0 <= i < NODE_SLOTS ==> r.key@[i] == 0 && r.son@[i] == 0 && r.bucket@[i] == 0,
    {
        BTreeNode {
            ty: BTreeNodeType::Leaf,
            key: [0u64, 0u64, 0u64, 0u64, 0u64, 0u64],
            son: [0u64, 0u64, 0u64, 0u64, 0u64, 0u64],
            bucket: [0u64, 0u64, 0u64, 0u64, 0u64, 0u64],
        }
    }

    /// Bytes a stored node takes: the type byte and three arrays of 64-bit words.
    pub fn memory_length() -> (r: usize)
        ensures
            r == 1 + 3 * NODE_SLOTS * 8,
    {
        1 + 3 * NODE_SLOTS * 8
    }

    /// Shifts `a[pos .. len]` up by one and puts `val` at `pos`.
    pub fn insert_array(a: &mut [u64], pos: usize, val: u64, len: usize)
        requires
            pos <= len,
            len < old(a)@.len(),
        ensures
            final(a)@ == old(a)@.take(pos as int).push(val) + old(a)@.subrange(pos as int, len as int) + old(a)@.subrange(
                len + 1,
                old(a)@.len() as int,
            ),
    {
        let mut i = len;
        while i > pos
            invariant
                pos <= i <= len < a@.len(),
                a@.len() == old(a)@.len(),
                forall|j: int| 0 <= j <= i ==> a@[j] == old(a)@[j],
                forall|j: int| i < j <= len ==> a@[j] == old(a)@[j - 1],
                forall|j: int| len < j < a@.len() ==> a@[j] == old(a)@[j],
            decreases i - pos,
        {
            let v = a[i - 1];
            a[i] = v;
            i = i - 1;
        }
        a[pos] = val;
        assert(a@ =~= old(a)@.take(pos as int).push(val) + old(a)@.subrange(pos as int, len as int) + old(a)@.subrange(
            len + 1,
            old(a)@.len() as int,
        ));
    }

    /// Takes out `a[pos]`, shifting `a[pos + 1 .. len]` down by one and clearing `a[len - 1]`.
    pub fn remove(a: &mut [u64], pos: usize, len: usize) -> (r: u64)
        requires
            pos < old(a)@.len(),
            1 <= len <= old(a)@.len(),
        ensures
            r == old(a)@[pos as int],
            pos < len ==> final(a)@ == old(a)@.take(pos as int) + old(a)@.subrange(pos + 1, len as int) + seq![0u64]
                + old(a)@.subrange(len as int, old(a)@.len() as int),
            pos >= len ==> final(a)@ == old(a)@.update(len - 1, 0u64),
    {
        let res = a[pos];
        let mut i = pos;
        while i < len - 1
            invariant
                pos <= len - 1 ==> pos <= i <= len - 1,
                pos > len - 1 ==> i == pos,
                1 <= len <= a@.len(),
                a@.len() == old(a)@.len(),
                forall|j: int| 0 <= j < pos ==> a@[j] == old(a)@[j],
                forall|j: int| pos <= j < i ==> a@[j] == old(a)@[j + 1],
                forall|j: int| i <= j < a@.len() ==> a@[j] == old(a)@[j],
            decreases len - 1 - i,
        {
            let v = a[i + 1];
            a[i] = v;
            i = i + 1;
        }
        a[len - 1] = 0;
        if pos < len {
            assert(a@ =~= old(a)@.take(pos as int) + old(a)@.subrange(pos + 1, len as int) + seq![0u64]
                + old(a)@.subrange(len as int, old(a)@.len() as int));
        } else {
            assert(a@ =~= old(a)@.update(len - 1, 0u64));
        }
        res
    }

    /// Moves `a[pos .. len]` out into a fresh array, clearing those slots of `a`.
    pub fn split_off(a: &mut [u64], pos: usize, len: usize) -> (r: [u64; NODE_SLOTS])
        requires
            pos <= len <= old(a)@.len(),
            len - pos <= NODE_SLOTS,
        ensures
            r@ == old(a)@.subrange(pos as int, len as int) + Seq::new((NODE_SLOTS - (len - pos)) as nat, |i: int| 0u64),
            final(a)@ == old(a)@.take(pos as int) + Seq::new((len - pos) as nat, |i: int| 0u64) + old(a)@.subrange(
                len as int,
                old(a)@.len() as int,
            ),
    {
        let mut res = [0u64, 0u64, 0u64, 0u64, 0u64, 0u64];
        let mut i = pos;
        while i < len
            invariant
                pos <= i <= len <= a@.len(),
                len - pos <= NODE_SLOTS,
                a@.len() == old(a)@.len(),
                res@.len() == NODE_SLOTS,
                forall|j: int| 0 <= j < i - pos ==> res@[j] == old(a)@[j + pos],
                forall|j: int| i - pos <= j < NODE_SLOTS ==> res@[j] == 0,
                forall|j: int| 0 <= j < pos ==> a@[j] == old(a)@[j],
                forall|j: int| pos <= j < i ==> a@[j] == 0,
                forall|j: int| i <= j < a@.len() ==> a@[j] == old(a)@[j],
            decreases len - i,
        {
            let v = a[i];
            res.set(i - pos, v);
            a[i] = 0;
            i = i + 1;
        }
        assert(res@ =~= old(a)@.subrange(pos as int, len as int) + Seq::new((NODE_SLOTS - (len - pos)) as nat, |i: int| 0u64));
        assert(a@ =~= old(a)@.take(pos as int) + Seq::new((len - pos) as nat, |i: int| 0u64) + old(a)@.subrange(
            len as int,
            old(a)@.len() as int,
        ));
        res
    }

    /// Takes out the last of the first `len` slots, if there is one.
    pub fn pop(a: &mut [u64], len: usize) -> (r: Option<u64>)
        requires
            len <= old(a)@.len(),
        ensures
            len == 0 ==> r is None && final(a)@ == old(a)@,
            len > 0 ==> r == Some(old(a)@[len - 1]) && final(a)@ == old(a)@.update(len - 1, 0u64),
    {
        if len == 0 {
            None
        } else {
            let res = a[len - 1];
            a[len - 1] = 0;
            Some(res)
        }
    }

    /// Puts `val` in slot `len`.
    pub fn push(a: &mut [u64], val: u64, len: usize)
        requires
            len < old(a)@.len(),
        ensures
            final(a)@ == old(a)@.update(len as int, val),
    {
        a[len] = val;
    }

    /// Moves the first `len_b` slots of `b` to `a` from slot `len_a` on, clearing them in `b`.
    pub fn append(a: &mut [u64], len_a: usize, b: &mut [u64], len_b: usize)
        requires
            len_a + len_b <= old(a)@.len(),
            len_b <= old(b)@.len(),
        ensures
            final(a)@ == old(a)@.take(len_a as int) + old(b)@.take(len_b as int) + old(a)@.subrange(
                len_a + len_b,
                old(a)@.len() as int,
            ),
            final(b)@ == Seq::new(len_b as nat, |i: int| 0u64) + old(b)@.subrange(len_b as int, old(b)@.len() as int),
    {
        let alen = a.len();
        let mut i: usize = 0;
        while i < len_b
            invariant
                i <= len_b,
                alen == a@.len(),
                len_a + len_b <= a@.len(),
                len_b <= b@.len(),
                a@.len() == old(a)@.len(),
                b@.len() == old(b)@.len(),
                forall|j: int| 0 <= j < len_a ==> a@[j] == old(a)@[j],
                forall|j: int| len_a <= j < len_a + i ==> a@[j] == old(b)@[j - len_a],
                forall|j: int| len_a + i <= j < a@.len() ==> a@[j] == old(a)@[j],
                forall|j: int| 0 <= j < i ==> b@[j] == 0,
                forall|j: int| i <= j < b@.len() ==> b@[j] == old(b)@[j],
            decreases len_b - i,
        {
            let v = b[i];
            a[len_a + i] = v;
            b[i] = 0;
            i = i + 1;
        }
        assert(a@ =~= old(a)@.take(len_a as int) + old(b)@.take(len_b as int) + old(a)@.subrange(
            len_a + len_b,
            old(a)@.len() as int,
        ));
        assert(b@ =~= Seq::new(len_b as nat, |i: int| 0u64) + old(b)@.subrange(len_b as int, old(b)@.len() as int));
    }
}


impl BTreeNode {
    /// The number of keys in use, found by a binary search over the first
    /// `BTREE_NODE_CAPACITY + 1` slots for the last key that is not 0.
    fn get_len(&self) -> (r: usize)
        ensures
            r <= BTREE_NODE_CAPACITY + 1,
            keys_packed(self.key@) ==> r == key_count(self.key@),
    {
        let mut res: usize = 0;
        let mut l: usize = 0;
        let mut r: usize = BTREE_NODE_CAPACITY;
        let ghost k = self.key@;
        proof {
            if keys_packed(k) {
                lemma_key_count(k);
            }
        }
        while l <= r
            invariant
                k == self.key@,
                k.len() == NODE_SLOTS,
                r <= BTREE_NODE_CAPACITY,
                res <= BTREE_NODE_CAPACITY + 1,
                l <= BTREE_NODE_CAPACITY + 1,
                keys_packed(k) ==> res == l && l <= key_count(k) <= r + 1,
                keys_packed(k) ==> (forall|i: int|
                    0 <= i < NODE_SLOTS ==> (#[trigger] k[i] != 0 <==> i < key_count(k))),
            ensures
                res <= BTREE_NODE_CAPACITY + 1,
                keys_packed(k) ==> res == key_count(k),
            decreases r + 1 - l,
        {
            let mid = (l + r) / 2;
            if self.key[mid] > 0 {
                res = mid + 1;
                l = mid + 1;
            } else {
                if mid == 0 {
                    break;
                }
                r = mid - 1;
            }
        }
        res
    }

    /// Where the walk to the first bucket goes from this node: the bucket of its first key
    /// in a leaf, its first child in an internal node.
    pub fn first_bucket(&self) -> (r: BucketStep)
        ensures
            self.ty is Leaf ==> r == (if self.bucket@[0] == 0 {
                BucketStep::Found(None)
            } else {
                BucketStep::Found(Some(self.bucket@[0]))
            }),
            self.ty is Internal ==> r == BucketStep::Descend(self.son@[0]),
    {
        match self.ty {
            BTreeNodeType::Leaf => {
                if self.bucket[0] == 0 {
                    BucketStep::Found(None)
                } else {
                    BucketStep::Found(Some(self.bucket[0]))
                }
            },
            BTreeNodeType::Internal => BucketStep::Descend(self.son[0]),
        }
    }

    /// Where the walk to the last bucket goes from this node: the bucket of its last key in
    /// a leaf, its last child in an internal node (from which the walk goes on as to the
    /// first bucket).
    pub fn last_bucket(&self) -> (r: BucketStep)
        requires
            self.ty is Leaf && self.bucket@[0] != 0 ==> key_count(self.key@) >= 1,
            keys_packed(self.key@),
        ensures
            self.ty is Leaf ==> r == (if self.bucket@[0] == 0 {
                BucketStep::Found(None)
            } else {
                BucketStep::Found(Some(self.bucket@[key_count(self.key@) - 1]))
            }),
            self.ty is Internal ==> r == BucketStep::Descend(self.son@[key_count(self.key@) as int]),
    {
        let len = self.get_len();
        match self.ty {
            BTreeNodeType::Leaf => {
                if self.bucket[0] == 0 {
                    BucketStep::Found(None)
                } else {
                    BucketStep::Found(Some(self.bucket[len - 1]))
                }
            },
            BTreeNodeType::Internal => BucketStep::Descend(self.son[len]),
        }
    }

    /// The children to clear before this node is deleted: none for a leaf, the children of
    /// the keys in use and one more for an internal node.
    pub fn clear(&self) -> (r: Vec<u64>)
        requires
            keys_packed(self.key@),
        ensures
            self.ty is Leaf ==> r@ == Seq::<u64>::empty(),
            self.ty is Internal ==> r@ == self.son@.take(key_count(self.key@) as int + 1),
    {
        let len = self.get_len();
        let mut out: Vec<u64> = Vec::new();
        match self.ty {
            BTreeNodeType::Leaf => {},
            BTreeNodeType::Internal => {
                let mut i: usize = 0;
                while i <= len
                    invariant
                        len <= BTREE_NODE_CAPACITY + 1,
                        i <= len + 1,
                        self.son@.len() == NODE_SLOTS,
                        out@ == self.son@.take(i as int),
                    decreases len + 1 - i,
                {
                    out.push(self.son[i]);
                    i = i + 1;
                    assert(out@ =~= self.son@.take(i as int));
                }
            },
        }
        out
    }
}

/// `a` with `val` put in slot `pos` and slots `pos .. len` moved up by one.
pub open spec fn inserted(a: Seq<u64>, pos: int, val: u64, len: int) -> Seq<u64> {
    a.take(pos).push(val) + a.subrange(pos, len) + a.subrange(len + 1, a.len() as int)
}

/// `a` without slot `pos`: slots `pos + 1 .. len` moved down by one and slot `len - 1` cleared.
pub open spec fn removed(a: Seq<u64>, pos: int, len: int) -> Seq<u64> {
    if pos < len {
        a.take(pos) + a.subrange(pos + 1, len) + seq![0u64] + a.subrange(len, a.len() as int)
    } else {
        a.update(len - 1, 0u64)
    }
}

/// `a` with the first `lb` slots of `b` put in from slot `la` on.
pub open spec fn appended(a: Seq<u64>, la: int, b: Seq<u64>, lb: int) -> Seq<u64> {
    a.take(la) + b.take(lb) + a.subrange(la + lb, a.len() as int)
}

/// `b` with its first `lb` slots cleared.
pub open spec fn cleared(b: Seq<u64>, lb: int) -> Seq<u64> {
    Seq::new(lb as nat, |i: int| 0u64) + b.subrange(lb, b.len() as int)
}

/// `NODE_SLOTS - n` slots of 0 after the slots `from .. to` of `a` (`n` of them).
pub open spec fn moved_out(a: Seq<u64>, from: int, to: int) -> Seq<u64> {
    a.subrange(from, to) + Seq::new((NODE_SLOTS - (to - from)) as nat, |i: int| 0u64)
}

/// `a` with the slots `from .. to` cleared.
pub open spec fn cut(a: Seq<u64>, from: int, to: int) -> Seq<u64> {
    a.take(from) + Seq::new((to - from) as nat, |i: int| 0u64) + a.subrange(to, a.len() as int)
}

impl BTreeNode {
    /// Splits an overfull node in two at its middle key. The upper half goes to the returned
    /// node, which is to be stored at `new_ptr`; the parent `father`, where this node is child
    /// `pos`, gets the middle key at `pos` and the new node as child `pos + 1`. A leaf keeps
    /// the middle key in the new node; an internal node moves it up.
    pub fn split(&mut self, father: &mut BTreeNode, pos: usize, new_ptr: u64) -> (r: BTreeNode)
        requires
            keys_packed(old(self).key@),
            keys_packed(old(father).key@),
            old(self).ty is Leaf ==> key_count(old(self).key@) >= 2,
            old(self).ty is Internal ==> key_count(old(self).key@) >= 3,
            pos <= key_count(old(father).key@) <= BTREE_NODE_CAPACITY,
        ensures
            ({
                let len = key_count(old(self).key@) as int;
                let fl = key_count(old(father).key@) as int;
                &&& final(self).ty == old(self).ty
                &&& r.ty == old(self).ty
                &&& final(father).ty == old(father).ty
                &&& final(father).bucket == old(father).bucket
                &&& final(father).son@ == inserted(old(father).son@, pos + 1, new_ptr, fl + 1)
                &&& old(self).ty is Leaf ==> {
                    &&& final(self).key@ == cut(old(self).key@, 2, len)
                    &&& final(self).bucket@ == cut(old(self).bucket@, 2, len)
                    &&& final(self).son == old(self).son
                    &&& r.key@ == moved_out(old(self).key@, 2, len)
                    &&& r.bucket@ == moved_out(old(self).bucket@, 2, len)
                    &&& r.son@ == Seq::new(NODE_SLOTS as nat, |i: int| 0u64)
                    &&& final(father).key@ == inserted(old(father).key@, pos as int, old(self).key@[2], fl)
                }
                &&& old(self).ty is Internal ==> {
                    &&& final(self).key@ == cut(old(self).key@, 3, len).update(2, 0u64)
                    &&& final(self).son@ == cut(old(self).son@, 3, len + 1)
                    &&& final(self).bucket == old(self).bucket
                    &&& r.key@ == moved_out(old(self).key@, 3, len)
                    &&& r.son@ == moved_out(old(self).son@, 3, len + 1)
                    &&& r.bucket@ == Seq::new(NODE_SLOTS as nat, |i: int| 0u64)
                    &&& final(father).key@ == inserted(old(father).key@, pos as int, old(self).key@[2], fl)
                }
            }),
    {
        let mid: usize = BTREE_NODE_CAPACITY / 2;
        let len = self.get_len();
        let father_len = father.get_len();
        let mut new_node = BTreeNode::new();
        match self.ty {
            BTreeNodeType::Leaf => {
                let mid_key = self.key[mid];
                new_node.key = BTreeNode::split_off(&mut self.key, mid, len);
                new_node.bucket = BTreeNode::split_off(&mut self.bucket, mid, len);
                BTreeNode::insert_array(&mut father.key, pos, mid_key, father_len);
                BTreeNode::insert_array(&mut father.son, pos + 1, new_ptr, father_len + 1);
            },
            BTreeNodeType::Internal => {
                new_node.ty = BTreeNodeType::Internal;
                new_node.key = BTreeNode::split_off(&mut self.key, mid + 1, len);
                new_node.son = BTreeNode::split_off(&mut self.son, mid + 1, len + 1);
                let mid_key = BTreeNode::pop(&mut self.key, mid + 1);
                let mid_key = match mid_key {
                    Some(k) => k,
                    None => 0,
                };
                BTreeNode::insert_array(&mut father.key, pos, mid_key, father_len);
                BTreeNode::insert_array(&mut father.son, pos + 1, new_ptr, father_len + 1);
            },
        }
        new_node
    }

    /// Refills a leaf that has too few keys from a sibling `sibling` under the same parent
    /// `father` (where this leaf is child `pos`): the left sibling when `pos > 0`, else the
    /// right one. A sibling with more than half the capacity lends its nearest key and bucket,
    /// and the parent's separating key becomes the lent key; otherwise the two leaves merge
    /// into the left one and the parent loses the separating key and the right child. With no
    /// sibling (a first child of a parent with no key) nothing changes.
    pub fn combine_leaf(&mut self, father: &mut BTreeNode, pos: usize, sibling: &mut BTreeNode)
        requires
            keys_packed(old(self).key@),
            keys_packed(old(father).key@),
            keys_packed(old(sibling).key@),
            pos <= BTREE_NODE_CAPACITY + 1,
            pos > 0 && key_count(old(sibling).key@) <= BTREE_NODE_CAPACITY / 2 ==> key_count(
                old(sibling).key@,
            ) + key_count(old(self).key@) <= NODE_SLOTS && key_count(old(father).key@) >= 1,
            pos == 0 && key_count(old(sibling).key@) <= BTREE_NODE_CAPACITY / 2 ==> key_count(
                old(sibling).key@,
            ) + key_count(old(self).key@) <= NODE_SLOTS,
        ensures
            ({
                let len = key_count(old(self).key@) as int;
                let fl = key_count(old(father).key@) as int;
                let sl = key_count(old(sibling).key@) as int;
                let sk = old(sibling).key@;
                let sb = old(sibling).bucket@;
                &&& final(self).ty == old(self).ty
                &&& final(self).son == old(self).son
                &&& final(father).ty == old(father).ty
                &&& final(father).bucket == old(father).bucket
                &&& final(sibling).ty == old(sibling).ty
                &&& final(sibling).son == old(sibling).son
                &&& pos > 0 && sl > 2 ==> {
                    &&& final(sibling).key@ == sk.update(sl - 1, 0u64)
                    &&& final(sibling).bucket@ == sb.update(sl - 1, 0u64)
                    &&& final(self).key@ == inserted(old(self).key@, 0, sk[sl - 1], len)
                    &&& final(self).bucket@ == inserted(old(self).bucket@, 0, sb[sl - 1], len)
                    &&& final(father).key@ == old(father).key@.update(pos - 1, sk[sl - 1])
                    &&& final(father).son == old(father).son
                }
                &&& pos > 0 && sl <= 2 ==> {
                    &&& final(sibling).key@ == appended(sk, sl, old(self).key@, len)
                    &&& final(sibling).bucket@ == appended(sb, sl, old(self).bucket@, len)
                    &&& final(self).key@ == cleared(old(self).key@, len)
                    &&& final(self).bucket@ == cleared(old(self).bucket@, len)
                    &&& final(father).key@ == removed(old(father).key@, pos - 1, fl)
                    &&& final(father).son@ == removed(old(father).son@, pos as int, fl + 1)
                }
                &&& pos == 0 && pos < fl && sl > 2 ==> {
                    &&& final(sibling).key@ == removed(sk, 0, sl)
                    &&& final(sibling).bucket@ == removed(sb, 0, sl)
                    &&& final(self).key@ == old(self).key@.update(len, sk[0])
                    &&& final(self).bucket@ == old(self).bucket@.update(len, sb[0])
                    &&& final(father).key@ == old(father).key@.update(pos as int, sk[0])
                    &&& final(father).son == old(father).son
                }
                &&& pos == 0 && pos < fl && sl <= 2 ==> {
                    &&& final(self).key@ == appended(old(self).key@, len, sk, sl)
                    &&& final(self).bucket@ == appended(old(self).bucket@, len, sb, sl)
                    &&& final(sibling).key@ == cleared(sk, sl)
                    &&& final(sibling).bucket@ == cleared(sb, sl)
                    &&& final(father).key@ == removed(old(father).key@, pos as int, fl)
                    &&& final(father).son@ == removed(old(father).son@, pos + 1, fl + 1)
                }
                &&& pos == 0 && fl == 0 ==> {
                    &&& final(self).key == old(self).key
                    &&& final(self).bucket == old(self).bucket
                    &&& final(father).key == old(father).key
                    &&& final(father).son == old(father).son
                    &&& final(sibling).key == old(sibling).key
                    &&& final(sibling).bucket == old(sibling).bucket
                }
            }),
    {
        let len = self.get_len();
        let father_len = father.get_len();
        if pos > 0 {
            let sibling_len = sibling.get_len();
            if sibling_len > BTREE_NODE_CAPACITY / 2 {
                let key = BTreeNode::pop(&mut sibling.key, sibling_len);
                let key = match key {
                    Some(k) => k,
                    None => 0,
                };
                BTreeNode::insert_array(&mut self.key, 0, key, len);
                let bucket = BTreeNode::pop(&mut sibling.bucket, sibling_len);
                let bucket = match bucket {
                    Some(b) => b,
                    None => 0,
                };
                BTreeNode::insert_array(&mut self.bucket, 0, bucket, len);
                father.key[pos - 1] = key;
            } else {
                BTreeNode::append(&mut sibling.key, sibling_len, &mut self.key, len);
                BTreeNode::append(&mut sibling.bucket, sibling_len, &mut self.bucket, len);
                BTreeNode::remove(&mut father.key, pos - 1, father_len);
                BTreeNode::remove(&mut father.son, pos, father_len + 1);
            }
        } else if pos < father_len {
            let sibling_len = sibling.get_len();
            if sibling_len > BTREE_NODE_CAPACITY / 2 {
                let key = BTreeNode::remove(&mut sibling.key, 0, sibling_len);
                BTreeNode::push(&mut self.key, key, len);
                let bucket = BTreeNode::remove(&mut sibling.bucket, 0, sibling_len);
                BTreeNode::push(&mut self.bucket, bucket, len);
                father.key[pos] = key;
            } else {
                BTreeNode::append(&mut self.key, len, &mut sibling.key, sibling_len);
                BTreeNode::append(&mut self.bucket, len, &mut sibling.bucket, sibling_len);
                BTreeNode::remove(&mut father.key, pos, father_len);
                BTreeNode::remove(&mut father.son, pos + 1, father_len + 1);
            }
        }
    }
}

impl BTreeNode {
    /// Refills an internal node that has too few keys from a sibling `sibling` under the same
    /// parent `father` (where this node is child `pos`): the left sibling when `pos > 0`, else
    /// the right one. A sibling with more than half the capacity lends its nearest child: the
    /// parent's separating key comes down into this node and the sibling's nearest key goes up
    /// in its place. Otherwise the two nodes merge into the left one around the separating key,
    /// which the parent loses with the right child. With no sibling nothing changes.
    pub fn combine_internal(&mut self, father: &mut BTreeNode, pos: usize, sibling: &mut BTreeNode)
        requires
            keys_packed(old(self).key@),
            keys_packed(old(father).key@),
            keys_packed(old(sibling).key@),
            pos <= BTREE_NODE_CAPACITY + 1,
            key_count(old(sibling).key@) > BTREE_NODE_CAPACITY / 2 ==> key_count(old(self).key@)
                <= BTREE_NODE_CAPACITY,
            pos > 0 && key_count(old(sibling).key@) <= BTREE_NODE_CAPACITY / 2 ==> key_count(
                old(sibling).key@,
            ) + key_count(old(self).key@) + 2 <= NODE_SLOTS && key_count(old(father).key@) >= 1,
            pos == 0 && key_count(old(sibling).key@) <= BTREE_NODE_CAPACITY / 2 ==> key_count(
                old(sibling).key@,
            ) + key_count(old(self).key@) + 2 <= NODE_SLOTS,
        ensures
            ({
                let len = key_count(old(self).key@) as int;
                let fl = key_count(old(father).key@) as int;
                let sl = key_count(old(sibling).key@) as int;
                let sk = old(sibling).key@;
                let ss = old(sibling).son@;
                let fk = old(father).key@;
                &&& final(self).ty == old(self).ty
                &&& final(self).bucket == old(self).bucket
                &&& final(father).ty == old(father).ty
                &&& final(father).bucket == old(father).bucket
                &&& final(sibling).ty == old(sibling).ty
                &&& final(sibling).bucket == old(sibling).bucket
                &&& pos > 0 && sl > 2 ==> {
                    &&& final(sibling).key@ == sk.update(sl - 1, 0u64)
                    &&& final(sibling).son@ == ss.update(sl, 0u64)
                    &&& final(self).key@ == inserted(old(self).key@, 0, fk[pos - 1], len)
                    &&& final(self).son@ == inserted(old(self).son@, 0, ss[sl], len + 1)
                    &&& final(father).key@ == fk.update(pos - 1, sk[sl - 1])
                    &&& final(father).son == old(father).son
                }
                &&& pos > 0 && sl <= 2 ==> {
                    &&& final(sibling).key@ == appended(sk.update(sl, fk[pos - 1]), sl + 1, old(self).key@, len)
                    &&& final(sibling).son@ == appended(ss, sl + 1, old(self).son@, len + 1)
                    &&& final(self).key@ == cleared(old(self).key@, len)
                    &&& final(self).son@ == cleared(old(self).son@, len + 1)
                    &&& final(father).key@ == removed(fk, pos - 1, fl)
                    &&& final(father).son@ == removed(old(father).son@, pos as int, fl + 1)
                }
                &&& pos == 0 && pos < fl && sl > 2 ==> {
                    &&& final(sibling).key@ == removed(sk, 0, sl)
                    &&& final(sibling).son@ == removed(ss, 0, sl + 1)
                    &&& final(self).key@ == old(self).key@.update(len, fk[pos as int])
                    &&& final(self).son@ == old(self).son@.update(len + 1, ss[0])
                    &&& final(father).key@ == fk.update(pos as int, sk[0])
                    &&& final(father).son == old(father).son
                }
                &&& pos == 0 && pos < fl && sl <= 2 ==> {
                    &&& final(self).key@ == appended(old(self).key@.update(len, fk[pos as int]), len + 1, sk, sl)
                    &&& final(self).son@ == appended(old(self).son@, len + 1, ss, sl + 1)
                    &&& final(sibling).key@ == cleared(sk, sl)
                    &&& final(sibling).son@ == cleared(ss, sl + 1)
                    &&& final(father).key@ == removed(fk, pos as int, fl)
                    &&& final(father).son@ == removed(old(father).son@, pos + 1, fl + 1)
                }
                &&& pos == 0 && fl == 0 ==> {
                    &&& final(self).key == old(self).key
                    &&& final(self).son == old(self).son
                    &&& final(father).key == old(father).key
                    &&& final(father).son == old(father).son
                    &&& final(sibling).key == old(sibling).key
                    &&& final(sibling).son == old(sibling).son
                }
            }),
    {
        let len = self.get_len();
        let father_len = father.get_len();
        if pos > 0 {
            let sibling_len = sibling.get_len();
            if sibling_len > BTREE_NODE_CAPACITY / 2 {
                let key = BTreeNode::pop(&mut sibling.key, sibling_len);
                let key = match key {
                    Some(k) => k,
                    None => 0,
                };
                let down = father.key[pos - 1];
                BTreeNode::insert_array(&mut self.key, 0, down, len);
                let son = BTreeNode::pop(&mut sibling.son, sibling_len + 1);
                let son = match son {
                    Some(x) => x,
                    None => 0,
                };
                BTreeNode::insert_array(&mut self.son, 0, son, len + 1);
                father.key[pos - 1] = key;
            } else {
                let down = father.key[pos - 1];
                BTreeNode::push(&mut sibling.key, down, sibling_len);
                BTreeNode::append(&mut sibling.key, sibling_len + 1, &mut self.key, len);
                BTreeNode::append(&mut sibling.son, sibling_len + 1, &mut self.son, len + 1);
                BTreeNode::remove(&mut father.key, pos - 1, father_len);
                BTreeNode::remove(&mut father.son, pos, father_len + 1);
            }
        } else if pos < father_len {
            let sibling_len = sibling.get_len();
            if sibling_len > BTREE_NODE_CAPACITY / 2 {
                let key = BTreeNode::remove(&mut sibling.key, 0, sibling_len);
                let down = father.key[pos];
                BTreeNode::push(&mut self.key, down, len);
                let son = BTreeNode::remove(&mut sibling.son, 0, sibling_len + 1);
                BTreeNode::push(&mut self.son, son, len + 1);
                father.key[pos] = key;
            } else {
                let down = father.key[pos];
                BTreeNode::push(&mut self.key, down, len);
                BTreeNode::append(&mut self.key, len + 1, &mut sibling.key, sibling_len);
                BTreeNode::append(&mut self.son, len + 1, &mut sibling.son, sibling_len + 1);
                BTreeNode::remove(&mut father.key, pos, father_len);
                BTreeNode::remove(&mut father.son, pos + 1, father_len + 1);
            }
        }
    }
}

/// In a packed key array, exactly the first `key_count` keys are in use.
proof fn lemma_key_count(k: Seq<u64>)
    requires
        keys_packed(k),
    ensures
        key_count(k) <= BTREE_NODE_CAPACITY + 1,
        forall|i: int| 0 <= i < NODE_SLOTS ==> (#[trigger] k[i] != 0 <==> i < key_count(k)),
{
    assert forall|i: int| 0 <= i < NODE_SLOTS implies (#[trigger] k[i] != 0 <==> i < key_count(k)) by {
        if k[i] != 0 {
            assert(forall|j: int| 0 <= j < i ==> k[j] != 0);
        }
        if i < key_count(k) {
            assert(k[i] != 0);
        }
    }
}


/// The values of an index key, one per indexed column.
#[derive(Debug)]
pub struct RawIndex {
    pub index: Vec<Data>,
}

/// Keys of equal length compared value by value, the first difference deciding.
pub open spec fn lex_order(a: Seq<Data>, b: Seq<Data>) -> int
    decreases a.len(),
{
    if a.len() == 0 || b.len() == 0 {
        0
    } else if data_order(a[0], b[0]) != 0 {
        data_order(a[0], b[0])
    } else {
        lex_order(a.drop_first(), b.drop_first())
    }
}

/// Keys compared: only keys of the same length compare.
pub open spec fn raw_order(a: Seq<Data>, b: Seq<Data>) -> Option<int> {
    if a.len() != b.len() {
        None
    } else {
        Some(lex_order(a, b))
    }
}

/// Two keys are equal: of the same length and equal value by value.
pub open spec fn raw_equal(a: Seq<Data>, b: Seq<Data>) -> bool {
    a.len() == b.len() && forall|i: int| 0 <= i < a.len() ==> data_order(#[trigger] a[i], b[i]) == 0
}

pub proof fn lemma_lex_order_antisymmetric(a: Seq<Data>, b: Seq<Data>)
    requires
        a.len() == b.len(),
    ensures
        lex_order(a, b) == -lex_order(b, a),
        -1 <= lex_order(a, b) <= 1,
        lex_order(a, b) == 0 <==> raw_equal(a, b),
    decreases a.len(),
{
    if a.len() > 0 {
        lemma_data_order_antisymmetric(a[0], b[0]);
        lemma_lex_order_antisymmetric(a.drop_first(), b.drop_first());
        if data_order(a[0], b[0]) == 0 {
            if raw_equal(a.drop_first(), b.drop_first()) {
                assert forall|i: int| 0 <= i < a.len() implies data_order(#[trigger] a[i], b[i]) == 0 by {
                    if i > 0 {
                        assert(a.drop_first()[i - 1] == a[i]);
                        assert(b.drop_first()[i - 1] == b[i]);
                    }
                }
            }
            if raw_equal(a, b) {
                assert forall|i: int| 0 <= i < a.drop_first().len() implies data_order(
                    #[trigger] a.drop_first()[i],
                    b.drop_first()[i],
                ) == 0 by {
                    assert(a.drop_first()[i] == a[i + 1]);
                    assert(b.drop_first()[i] == b[i + 1]);
                }
            }
        } else {
            assert(!raw_equal(a, b)) by {
                assert(data_order(a[0], b[0]) != 0);
            }
        }
    }
}

pub proof fn lemma_lex_order_transitive(a: Seq<Data>, b: Seq<Data>, c: Seq<Data>)
    requires
        a.len() == b.len(),
        b.len() == c.len(),
        lex_order(a, b) <= 0,
        lex_order(b, c) <= 0,
    ensures
        lex_order(a, c) <= 0,
        lex_order(a, b) < 0 || lex_order(b, c) < 0 ==> lex_order(a, c) < 0,
    decreases a.len(),
{
    if a.len() > 0 {
        lemma_data_order_antisymmetric(a[0], b[0]);
        lemma_data_order_antisymmetric(b[0], c[0]);
        lemma_data_order_antisymmetric(a[0], c[0]);
        if data_order(a[0], b[0]) == 0 && data_order(b[0], c[0]) == 0 {
            crate::rm::record::lemma_data_order_equal(a[0], b[0], c[0]);
            lemma_lex_order_transitive(a.drop_first(), b.drop_first(), c.drop_first());
        } else if data_order(a[0], b[0]) == 0 {
            crate::rm::record::lemma_data_order_equal(a[0], b[0], c[0]);
        } else if data_order(b[0], c[0]) == 0 {
            crate::rm::record::lemma_data_order_equal(b[0], c[0], a[0]);
        } else {
            lemma_data_order_transitive(a[0], b[0], c[0]);
        }
    }
}

impl RawIndex {
    /// The key of one integer: `index` read as a signed number (the same bits).
    pub fn from_u64(index: u64) -> (r: Self)
        ensures
            r.index@ == seq![Data::Int(index as i64)],
    {
        let mut v: Vec<Data> = Vec::new();
        v.push(Data::Int(index as i64));
        assert(v@ =~= seq![Data::Int(index as i64)]);
        RawIndex { index: v }
    }

    /// The key of a record over the columns `sub_col`, none of which may be NULL.
    pub fn from_record(record: &Record, sub_col: &Vec<u32>) -> (r: Self)
        requires
            forall|k: int|
                0 <= k < sub_col@.len() ==> (#[trigger] sub_col@[k]) < record.cols@.len()
                    && record.cols@[sub_col@[k] as int].data is Some,
        ensures
            r.index@.len() == sub_col@.len(),
            forall|k: int|
                0 <= k < sub_col@.len() ==> Some(#[trigger] r.index@[k]) == record.cols@[sub_col@[k] as int].data,
    {
        let mut v: Vec<Data> = Vec::new();
        let mut k: usize = 0;
        while k < sub_col.len()
            invariant
                k <= sub_col@.len(),
                forall|j: int|
                    0 <= j < sub_col@.len() ==> (#[trigger] sub_col@[j]) < record.cols@.len()
                        && record.cols@[sub_col@[j] as int].data is Some,
                v@.len() == k,
                forall|j: int| 0 <= j < k ==> Some(#[trigger] v@[j]) == record.cols@[sub_col@[j] as int].data,
            decreases sub_col@.len() - k,
        {
            let c = sub_col[k] as usize;
            assert(record.cols@[c as int].data is Some);
            match &record.cols[c].data {
                Some(d) => v.push(d.duplicate()),
                None => {},
            }
            k = k + 1;
        }
        RawIndex { index: v }
    }

    /// The order of two keys: `None` for keys of different lengths, else -1, 0 or 1.
    pub fn compare(&self, other: &RawIndex) -> (r: Option<i8>)
        ensures
            match r {
                None => raw_order(self.index@, other.index@) is None,
                Some(c) => raw_order(self.index@, other.index@) == Some(c as int),
            },
    {
        if self.index.len() != other.index.len() {
            return None;
        }
        let mut i: usize = 0;
        let ghost a = self.index@;
        let ghost b = other.index@;
        assert(a.skip(0) =~= a);
        assert(b.skip(0) =~= b);
        while i < self.index.len()
            invariant
                a == self.index@,
                b == other.index@,
                a.len() == b.len(),
                i <= a.len(),
                lex_order(a, b) == lex_order(a.skip(i as int), b.skip(i as int)),
            decreases a.len() - i,
        {
            let c = self.index[i].compare(&other.index[i]);
            assert(a.skip(i as int)[0] == a[i as int]);
            assert(b.skip(i as int)[0] == b[i as int]);
            if c != 0 {
                return Some(c);
            }
            assert(a.skip(i as int).drop_first() =~= a.skip(i as int + 1));
            assert(b.skip(i as int).drop_first() =~= b.skip(i as int + 1));
            i = i + 1;
        }
        Some(0)
    }

    /// Whether two keys are equal: of the same length and equal value by value.
    pub fn same(&self, other: &RawIndex) -> (r: bool)
        ensures
            r == raw_equal(self.index@, other.index@),
    {
        if self.index.len() != other.index.len() {
            return false;
        }
        let mut i: usize = 0;
        while i < self.index.len()
            invariant
                self.index@.len() == other.index@.len(),
                i <= self.index@.len(),
                forall|j: int| 0 <= j < i ==> data_order(#[trigger] self.index@[j], other.index@[j]) == 0,
            decreases self.index@.len() - i,
        {
            if self.index[i].compare(&other.index[i]) != 0 {
                return false;
            }
            i = i + 1;
        }
        true
    }
}


/// The keys are in order: every two have the same length and the earlier is not above the
/// later.
pub open spec fn sorted_keys(keys: Seq<RawIndex>) -> bool {
    forall|i: int, j: int|
        0 <= i <= j < keys.len() ==> (#[trigger] keys[i]).index@.len() == (#[trigger] keys[j]).index@.len()
            && lex_order(keys[i].index@, keys[j].index@) <= 0
}

/// Every key has the length of `key`.
pub open spec fn keys_like(keys: Seq<RawIndex>, key: RawIndex) -> bool {
    forall|i: int| 0 <= i < keys.len() ==> (#[trigger] keys[i]).index@.len() == key.index@.len()
}

/// `a` compares with `key` and is not below it.
pub open spec fn at_least(a: RawIndex, key: RawIndex) -> bool {
    match raw_order(a.index@, key.index@) {
        Some(c) => c >= 0,
        None => false,
    }
}

/// `a` compares with `key` and is above it.
pub open spec fn above(a: RawIndex, key: RawIndex) -> bool {
    match raw_order(a.index@, key.index@) {
        Some(c) => c > 0,
        None => false,
    }
}

/// `i` is the first place whose key is not below `key`.
pub open spec fn lower_at(keys: Seq<RawIndex>, key: RawIndex, i: int) -> bool {
    &&& 0 <= i <= keys.len()
    &&& forall|j: int| 0 <= j < i ==> lex_order((#[trigger] keys[j]).index@, key.index@) < 0
    &&& forall|j: int| i <= j < keys.len() ==> lex_order((#[trigger] keys[j]).index@, key.index@) >= 0
}

/// `i` is the first place whose key is above `key`.
pub open spec fn upper_at(keys: Seq<RawIndex>, key: RawIndex, i: int) -> bool {
    &&& 0 <= i <= keys.len()
    &&& forall|j: int| 0 <= j < i ==> lex_order((#[trigger] keys[j]).index@, key.index@) <= 0
    &&& forall|j: int| i <= j < keys.len() ==> lex_order((#[trigger] keys[j]).index@, key.index@) > 0
}

/// A binary search for the first place whose key is not below `key`. The place found is a
/// boundary: its key (if any) is not below `key`, and the key before it (if any) is not at
/// least `key`. Over keys in order, all of the length of `key`, it is the first such place.
pub fn lower_bound(keys: &Vec<RawIndex>, key: &RawIndex) -> (r: usize)
    ensures
        r <= keys@.len(),
        r < keys@.len() ==> at_least(keys@[r as int], *key),
        r > 0 ==> !at_least(keys@[r - 1], *key),
        sorted_keys(keys@) && keys_like(keys@, *key) ==> lower_at(keys@, *key, r as int),
{
    let len = keys.len();
    if len == 0 {
        return 0;
    }
    let ghost ordered = sorted_keys(keys@) && keys_like(keys@, *key);
    let mut res = len;
    let mut l: usize = 0;
    let mut r: usize = len - 1;
    while l <= r
        invariant_except_break
            res == r + 1,
        invariant
            len == keys@.len(),
            ordered == (sorted_keys(keys@) && keys_like(keys@, *key)),
            r < len,
            l <= res <= len,
            res < len ==> at_least(keys@[res as int], *key),
            l > 0 ==> !at_least(keys@[l - 1], *key),
            ordered ==> forall|i: int| 0 <= i < l ==> lex_order((#[trigger] keys@[i]).index@, key.index@) < 0,
            ordered ==> forall|i: int| res <= i < len ==> lex_order((#[trigger] keys@[i]).index@, key.index@) >= 0,
        ensures
            res > 0 ==> !at_least(keys@[res - 1], *key),
            ordered ==> forall|i: int| 0 <= i < res ==> lex_order((#[trigger] keys@[i]).index@, key.index@) < 0,
        decreases r + 1 - l,
    {
        let mid = l + (r - l) / 2;
        let c = keys[mid].compare(key);
        proof {
            if keys@[mid as int].index@.len() == key.index@.len() {
                lemma_lex_order_antisymmetric(keys@[mid as int].index@, key.index@);
            }
        }
        if c == Some(1i8) || c == Some(0i8) {
            proof {
                if ordered {
                    assert forall|i: int| mid <= i < len implies lex_order((#[trigger] keys@[i]).index@, key.index@)
                        >= 0 by {
                        assert(keys@[mid as int].index@.len() == keys@[i].index@.len());
                        lemma_lex_order_antisymmetric(key.index@, keys@[mid as int].index@);
                        lemma_lex_order_antisymmetric(key.index@, keys@[i].index@);
                        lemma_lex_order_transitive(key.index@, keys@[mid as int].index@, keys@[i].index@);
                    }
                }
            }
            res = mid;
            if mid == 0 {
                break;
            }
            r = mid - 1;
        } else {
            proof {
                if ordered {
                    assert forall|i: int| 0 <= i <= mid implies lex_order((#[trigger] keys@[i]).index@, key.index@)
                        < 0 by {
                        lemma_lex_order_antisymmetric(keys@[mid as int].index@, key.index@);
                        assert(keys@[i].index@.len() == keys@[mid as int].index@.len());
                        lemma_lex_order_transitive(keys@[i].index@, keys@[mid as int].index@, key.index@);
                    }
                }
            }
            l = mid + 1;
        }
    }
    res
}

/// A binary search for the first place whose key is above `key`. The place found is a
/// boundary: its key (if any) is above `key`, and the key before it (if any) is not. Over keys
/// in order, all of the length of `key`, it is the first such place.
pub fn upper_bound(keys: &Vec<RawIndex>, key: &RawIndex) -> (r: usize)
    ensures
        r <= keys@.len(),
        r < keys@.len() ==> above(keys@[r as int], *key),
        r > 0 ==> !above(keys@[r - 1], *key),
        sorted_keys(keys@) && keys_like(keys@, *key) ==> upper_at(keys@, *key, r as int),
{
    let len = keys.len();
    if len == 0 {
        return 0;
    }
    let ghost ordered = sorted_keys(keys@) && keys_like(keys@, *key);
    let mut res = len;
    let mut l: usize = 0;
    let mut r: usize = len - 1;
    while l <= r
        invariant_except_break
            res == r + 1,
        invariant
            len == keys@.len(),
            ordered == (sorted_keys(keys@) && keys_like(keys@, *key)),
            r < len,
            l <= res <= len,
            res < len ==> above(keys@[res as int], *key),
            l > 0 ==> !above(keys@[l - 1], *key),
            ordered ==> forall|i: int| 0 <= i < l ==> lex_order((#[trigger] keys@[i]).index@, key.index@) <= 0,
            ordered ==> forall|i: int| res <= i < len ==> lex_order((#[trigger] keys@[i]).index@, key.index@) > 0,
        ensures
            res > 0 ==> !above(keys@[res - 1], *key),
            ordered ==> forall|i: int| 0 <= i < res ==> lex_order((#[trigger] keys@[i]).index@, key.index@) <= 0,
        decreases r + 1 - l,
    {
        let mid = l + (r - l) / 2;
        let c = keys[mid].compare(key);
        proof {
            if keys@[mid as int].index@.len() == key.index@.len() {
                lemma_lex_order_antisymmetric(keys@[mid as int].index@, key.index@);
            }
        }
        if c == Some(1i8) {
            proof {
                if ordered {
                    assert forall|i: int| mid <= i < len implies lex_order((#[trigger] keys@[i]).index@, key.index@)
                        > 0 by {
                        assert(keys@[mid as int].index@.len() == keys@[i].index@.len());
                        lemma_lex_order_antisymmetric(key.index@, keys@[mid as int].index@);
                        lemma_lex_order_antisymmetric(key.index@, keys@[i].index@);
                        lemma_lex_order_transitive(key.index@, keys@[mid as int].index@, keys@[i].index@);
                    }
                }
            }
            res = mid;
            if mid == 0 {
                break;
            }
            r = mid - 1;
        } else {
            proof {
                if ordered {
                    lemma_lex_order_antisymmetric(keys@[mid as int].index@, key.index@);
                    assert forall|i: int| 0 <= i <= mid implies lex_order((#[trigger] keys@[i]).index@, key.index@)
                        <= 0 by {
                        assert(keys@[i].index@.len() == keys@[mid as int].index@.len());
                        lemma_lex_order_transitive(keys@[i].index@, keys@[mid as int].index@, key.index@);
                    }
                }
            }
            l = mid + 1;
        }
    }
    res
}

/// The next step of a search for a key.
pub enum SearchStep {
    /// The search ends: the bucket of the key, or `None` when the leaf does not hold it.
    Found(Option<u64>),
    /// The search goes on from the child stored here.
    Descend(u64),
}

/// `i` is a place that `lower_bound` may find: its key (if any) is not below `key`, the key
/// before it (if any) is not at least `key`, and over keys in order it is the first such.
pub open spec fn lower_found(keys: Seq<RawIndex>, key: RawIndex, i: int) -> bool {
    &&& 0 <= i <= keys.len()
    &&& i < keys.len() ==> at_least(keys[i], key)
    &&& i > 0 ==> !at_least(keys[i - 1], key)
    &&& sorted_keys(keys) && keys_like(keys, key) ==> lower_at(keys, key, i)
}

/// `i` is a place that `upper_bound` may find.
pub open spec fn upper_found(keys: Seq<RawIndex>, key: RawIndex, i: int) -> bool {
    &&& 0 <= i <= keys.len()
    &&& i < keys.len() ==> above(keys[i], key)
    &&& i > 0 ==> !above(keys[i - 1], key)
    &&& sorted_keys(keys) && keys_like(keys, key) ==> upper_at(keys, key, i)
}

impl BTreeNode {
    /// One step of a search for `key` from this node, whose keys in use are `keys`. In a leaf,
    /// the bucket of the place `lower_bound` finds, where that key equals `key`; in an internal
    /// node, the child at the place `upper_bound` finds.
    pub fn search(&self, keys: &Vec<RawIndex>, key: &RawIndex) -> (r: SearchStep)
        requires
            keys_packed(self.key@),
            keys@.len() == key_count(self.key@),
        ensures
            self.ty is Leaf ==> exists|i: int|
                #[trigger] lower_found(keys@, *key, i) && r == (if i < keys@.len() && raw_equal(
                    keys@[i].index@,
                    key.index@,
                ) {
                    SearchStep::Found(Some(self.bucket@[i]))
                } else {
                    SearchStep::Found(None)
                }),
            self.ty is Internal ==> exists|i: int|
                #[trigger] upper_found(keys@, *key, i) && r == SearchStep::Descend(self.son@[i]),
    {
        proof {
            lemma_key_count(self.key@);
        }
        match self.ty {
            BTreeNodeType::Leaf => {
                let i = lower_bound(keys, key);
                let r = if i < keys.len() && keys[i].same(key) {
                    SearchStep::Found(Some(self.bucket[i]))
                } else {
                    SearchStep::Found(None)
                };
                assert(lower_found(keys@, *key, i as int));
                r
            },
            BTreeNodeType::Internal => {
                let i = upper_bound(keys, key);
                let r = SearchStep::Descend(self.son[i]);
                assert(upper_found(keys@, *key, i as int));
                r
            },
        }
    }
}


/// The next step of an insert of a key with its data.
pub enum InsertStep {
    /// The key goes after the last key of the leaf, with a new bucket linked after `prev` (the
    /// bucket of the last key, 0 in an empty leaf).
    Append { prev: u64 },
    /// The key goes in at place `pos`, with a new bucket linked before `next`, the bucket of
    /// the key now at that place.
    Before { pos: usize, next: u64 },
    /// The key is present, with the bucket `bucket`; `add` says whether the data joins it.
    Present { bucket: u64, add: bool },
    /// The key at the place found does not compare with the new one: nothing changes.
    Keep,
    /// The insert goes on in the child stored at `pos`.
    Descend { pos: usize, son: u64 },
}

/// The step of an insert into a leaf whose keys in use are `keys`, at the place `i` found.
pub open spec fn leaf_step(node: BTreeNode, keys: Seq<RawIndex>, key: RawIndex, allow_duplicate: bool, i: int) -> InsertStep {
    if i == keys.len() {
        InsertStep::Append { prev: if i == 0 { 0 } else { node.bucket@[i - 1] } }
    } else {
        match raw_order(keys[i].index@, key.index@) {
            Some(c) => if c == 0 {
                InsertStep::Present { bucket: node.bucket@[i], add: allow_duplicate }
            } else if c > 0 {
                InsertStep::Before { pos: i as usize, next: node.bucket@[i] }
            } else {
                InsertStep::Keep
            },
            None => InsertStep::Keep,
        }
    }
}

impl BTreeNode {
    /// One step of an insert of `key` into this node, whose keys in use are `keys`. In a
    /// leaf, the place `lower_bound` finds decides: past the last key the key is appended; a
    /// greater key there gets the new key in front of it; an equal one means the key is
    /// present, and the data joins its bucket where duplicates are allowed. In an internal
    /// node, the insert goes on in the child at the place `upper_bound` finds.
    pub fn insert(&self, keys: &Vec<RawIndex>, key: &RawIndex, allow_duplicate: bool) -> (r: InsertStep)
        requires
            keys_packed(self.key@),
            keys@.len() == key_count(self.key@),
        ensures
            self.ty is Leaf ==> exists|i: int|
                #[trigger] lower_found(keys@, *key, i) && r == leaf_step(*self, keys@, *key, allow_duplicate, i),
            self.ty is Internal ==> exists|i: int|
                #[trigger] upper_found(keys@, *key, i) && r == (InsertStep::Descend { pos: i as usize, son: self.son@[i] }),
    {
        proof {
            lemma_key_count(self.key@);
        }
        match self.ty {
            BTreeNodeType::Leaf => {
                let i = lower_bound(keys, key);
                assert(lower_found(keys@, *key, i as int));
                let len = keys.len();
                if i == len {
                    let prev = if len == 0 { 0 } else { self.bucket[len - 1] };
                    return InsertStep::Append { prev };
                }
                match keys[i].compare(key) {
                    Some(c) => {
                        if c == 0 {
                            InsertStep::Present { bucket: self.bucket[i], add: allow_duplicate }
                        } else if c > 0 {
                            InsertStep::Before { pos: i, next: self.bucket[i] }
                        } else {
                            InsertStep::Keep
                        }
                    },
                    None => InsertStep::Keep,
                }
            },
            BTreeNodeType::Internal => {
                let i = upper_bound(keys, key);
                assert(upper_found(keys@, *key, i as int));
                InsertStep::Descend { pos: i, son: self.son[i] }
            },
        }
    }

    /// Puts the key `key_ptr` with the bucket `bucket_ptr` in at place `pos` of this leaf,
    /// moving the keys and buckets from there on up by one.
    pub fn insert_key(&mut self, pos: usize, key_ptr: u64, bucket_ptr: u64)
        requires
            keys_packed(old(self).key@),
            key_count(old(self).key@) <= BTREE_NODE_CAPACITY,
            pos <= key_count(old(self).key@),
            key_ptr != 0,
        ensures
            final(self).ty == old(self).ty,
            final(self).son == old(self).son,
            final(self).key@ == inserted(old(self).key@, pos as int, key_ptr, key_count(old(self).key@) as int),
            final(self).bucket@ == inserted(old(self).bucket@, pos as int, bucket_ptr, key_count(old(self).key@) as int),
            keys_packed(final(self).key@),
            key_count(final(self).key@) == key_count(old(self).key@) + 1,
    {
        proof {
            lemma_key_count(self.key@);
        }
        let len = self.get_len();
        let ghost old_key = self.key@;
        BTreeNode::insert_array(&mut self.key, pos, key_ptr, len);
        BTreeNode::insert_array(&mut self.bucket, pos, bucket_ptr, len);
        proof {
            let k = self.key@;
            assert(k.len() == NODE_SLOTS);
            assert forall|i: int| 0 <= i < NODE_SLOTS implies (#[trigger] k[i] != 0 <==> i < len + 1) by {
                if i < pos {
                    assert(k[i] == old_key[i]);
                } else if i == pos {
                } else if i <= len {
                    assert(k[i] == old_key[i - 1]);
                } else {
                    assert(k[i] == old_key[i]);
                }
            }
            assert(k[BTREE_NODE_CAPACITY + 1] == 0);
            assert(keys_packed(k));
            lemma_key_count(k);
            let kc = key_count(k) as int;
            if kc > len + 1 {
                assert(k[len + 1] != 0 <==> len + 1 < kc);
            } else if kc < len + 1 {
                assert(k[kc] != 0 <==> kc < len + 1);
            }
        }
    }

    /// The node holds more keys than it may keep, and must be split.
    pub fn needs_split(&self) -> (r: bool)
        requires
            keys_packed(self.key@),
        ensures
            r == (key_count(self.key@) > BTREE_NODE_CAPACITY),
    {
        proof {
            lemma_key_count(self.key@);
        }
        self.get_len() > BTREE_NODE_CAPACITY
    }
}

} // verus!
