//! A bitmap over `32 * size` positions with a tree of summary words above it, so that the
//! leftmost set position is found by walking down from one root word.
//!
//! The words form tiers: tier 0 is `data` (one word per 32 positions); each word of tier
//! `t + 1` has bit `j` set exactly when word `32 * i + j` of tier `t` is not zero. The upper
//! tiers are stored one after the other in `inner`, the root word last.
use vstd::prelude::*;
use crate::utils::bit::bit_set;

verus! {

pub const LEAF_BIT: usize = 32;

pub const MAX_INNER_NUM: usize = 67;

pub const BIAS: u32 = 5;

// ---------------------------------------------------------------- the shape of the tiers

/// How many summary tiers stand between `s` leaf words and the root word.
pub open spec fn levels(s: nat) -> nat
    decreases s,
{
    if s <= 32 {
        0
    } else {
        1 + levels(s / 32)
    }
}

/// The number of words of tier `t` over `s` leaf words.
pub open spec fn cnt(s: nat, t: nat) -> nat
    decreases t,
{
    if t == 0 {
        s
    } else {
        cnt(s / 32, (t - 1) as nat)
    }
}

/// Where tier `t` (at least 1) starts in `inner`.
pub open spec fn ioff(s: nat, t: nat) -> nat
    decreases t,
{
    if t <= 1 {
        0
    } else {
        ioff(s, (t - 1) as nat) + cnt(s, (t - 1) as nat)
    }
}

/// Every tier below the one the root summarizes holds a whole number of 32-word blocks
/// (else the summary drops the words of the last partial block).
pub open spec fn well_layered(s: nat) -> bool {
    forall|t: nat| t < levels(s) ==> #[trigger] cnt(s, t) % 32 == 0
}

/// The number of upper-tier words a bitmap over `s` leaf words stores, root included.
pub open spec fn inner_words(s: nat) -> nat {
    ioff(s, levels(s) + 1) + 1
}

pub proof fn lemma_cnt_step(s: nat, t: nat)
    ensures
        cnt(s, t + 1) == cnt(s, t) / 32,
    decreases t,
{
    if t > 0 {
        lemma_cnt_step(s / 32, (t - 1) as nat);
        assert(cnt(s, t + 1) == cnt(s / 32, t));
        assert(cnt(s, t) == cnt(s / 32, (t - 1) as nat));
    } else {
        assert(cnt(s, 1) == cnt(s / 32, 0));
    }
}

pub proof fn lemma_levels(s: nat, t: nat)
    requires
        t <= levels(s),
    ensures
        t < levels(s) <==> cnt(s, t) > 32,
    decreases t,
{
    if t > 0 {
        lemma_levels(s / 32, (t - 1) as nat);
    }
}

pub proof fn lemma_layer_below(s: nat, t: nat)
    requires
        well_layered(s),
        t < levels(s),
    ensures
        cnt(s, t) == 32 * cnt(s, t + 1),
{
    lemma_cnt_step(s, t);
    assert(cnt(s, t) % 32 == 0);
}

pub proof fn lemma_cnt_le(s: nat, t: nat)
    ensures
        cnt(s, t) <= s,
    decreases t,
{
    if t > 0 {
        lemma_cnt_le(s / 32, (t - 1) as nat);
    }
}

/// Tiers lie one after the other.
pub proof fn lemma_ioff_order(s: nat, u: nat, t: nat)
    requires
        1 <= u < t,
    ensures
        ioff(s, u) + cnt(s, u) <= ioff(s, t),
    decreases t,
{
    if u + 1 < t {
        lemma_ioff_order(s, u, (t - 1) as nat);
    }
}

/// No digit, in base 32 and over `n` digits, of `m` is 31.
pub open spec fn digits_ok(m: int, n: nat) -> bool
    decreases n,
{
    n == 0 || (m % 32 != 31 && digits_ok(m / 32, (n - 1) as nat))
}


// ---------------------------------------------------------------- words

/// `w` with bit `b` set to `k`.
fn with_bit(w: u32, b: u32, k: bool) -> (r: u32)
    requires
        b < 32,
    ensures
        forall|j: int| #[trigger] bit_set(r, j) == if j == b { k } else { bit_set(w, j) },
{
    let umask: u32 = 1u32 << b;
    let mask: u32 = !umask;
    let r = (w & mask) | (if k { umask } else { 0u32 });
    proof {
        assert forall|j: int| #[trigger] bit_set(r, j) == if j == b { k } else { bit_set(w, j) } by {
            if 0 <= j < 32 {
                let jj = j as u32;
                if k {
                    assert(((((w & !(1u32 << b)) | (1u32 << b)) >> jj) & 1u32 == 1u32) == (if jj
                        == b {
                        true
                    } else {
                        (w >> jj) & 1u32 == 1u32
                    })) by (bit_vector)
                        requires
                            b < 32,
                            jj < 32,
                    ;
                } else {
                    assert(((((w & !(1u32 << b)) | 0u32) >> jj) & 1u32 == 1u32) == (if jj == b {
                        false
                    } else {
                        (w >> jj) & 1u32 == 1u32
                    })) by (bit_vector)
                        requires
                            b < 32,
                            jj < 32,
                    ;
                }
            }
        }
    }
    r
}

/// A word with no bit set is zero.
proof fn lemma_no_bit_zero(w: u32)
    requires
        forall|j: int| 0 <= j < 32 ==> !#[trigger] bit_set(w, j),
    ensures
        w == 0,
{
    vstd::std_specs::bits::axiom_u32_trailing_zeros(w);
    if w != 0 {
        let tz = vstd::std_specs::bits::u32_trailing_zeros(w);
        assert(bit_set(w, tz as int));
    }
}

/// The position of the lowest set bit of `w`, which is neither zero nor only its top bit.
fn low_index(w: u32) -> (r: u32)
    requires
        w != 0,
        w != 0x8000_0000u32,
    ensures
        r < 32,
        bit_set(w, r as int),
        forall|j: int| 0 <= j < r ==> !bit_set(w, j),
{
    let r = w.trailing_zeros();
    proof {
        vstd::std_specs::bits::axiom_u32_trailing_zeros(w);
        assert forall|j: int| 0 <= j < r implies !bit_set(w, j) by {
            assert((w >> (j as u32)) & 1u32 == 0u32);
        }
    }
    r
}

/// What holds somewhere holds somewhere first.
proof fn lemma_min_exists(f: spec_fn(int) -> bool, i: int)
    requires
        0 <= i,
        f(i),
    ensures
        exists|m: int|
            #![trigger f(m)]
            0 <= m <= i && f(m) && forall|x: int| 0 <= x < m ==> !#[trigger] f(x),
    decreases i,
{
    if exists|x: int| 0 <= x < i && #[trigger] f(x) {
        let x = choose|x: int| 0 <= x < i && #[trigger] f(x);
        lemma_min_exists(f, x);
    } else {
        assert(forall|x: int| 0 <= x < i ==> !#[trigger] f(x));
    }
}

// ---------------------------------------------------------------- the bitmap

pub struct Bitmap {
    data: Vec<u32>,
    size: usize,
    root_bit: usize,
    root_level: usize,
    root_index: usize,
    inner: Vec<u32>,
}

impl Bitmap {
    /// Word `i` of tier `t`.
    pub closed spec fn tw(self, t: nat, i: int) -> u32 {
        if t == 0 {
            self.data@[i]
        } else {
            self.inner@[ioff(self.size as nat, t) + i]
        }
    }

    /// The number of words of tier `t`: one for the root tier.
    pub closed spec fn tcount(self, t: nat) -> nat {
        if t <= self.root_level {
            cnt(self.size as nat, t)
        } else {
            1
        }
    }

    /// Bit `j` of word `i` of tier `t` says whether child `32 * i + j` is not zero.
    pub closed spec fn summary_at(self, t: nat, i: int, j: int) -> bool {
        bit_set(self.tw(t, i), j) <==> (32 * i + j < cnt(self.size as nat, (t - 1) as nat)
            && self.tw((t - 1) as nat, 32 * i + j) != 0)
    }

    pub closed spec fn summary_ok(self, t: nat) -> bool {
        forall|i: int, j: int|
            0 <= i < self.tcount(t) && 0 <= j < 32 ==> #[trigger] self.summary_at(t, i, j)
    }

    /// Tier `t` summarizes tier `t - 1` but perhaps at bit `bj` of word `wi`.
    pub closed spec fn summary_ok_but(self, t: nat, wi: int, bj: int) -> bool {
        forall|i: int, j: int|
            0 <= i < self.tcount(t) && 0 <= j < 32 && !(i == wi && j == bj)
                ==> #[trigger] self.summary_at(t, i, j)
    }

    pub closed spec fn shape_ok(self) -> bool {
        let s = self.size as nat;
        &&& self.data@.len() == s
        &&& self.inner@.len() == MAX_INNER_NUM
        &&& self.root_level == levels(s)
        &&& self.root_bit == cnt(s, levels(s))
        &&& self.root_index == ioff(s, levels(s) + 1)
        &&& self.root_level <= self.root_index
        &&& inner_words(s) <= MAX_INNER_NUM
        &&& well_layered(s)
        &&& 32 * s <= i32::MAX
    }

    pub closed spec fn inv(self) -> bool {
        &&& self.shape_ok()
        &&& forall|t: nat| 1 <= t <= self.root_level + 1 ==> #[trigger] self.summary_ok(t)
    }

    /// The number of positions.
    pub closed spec fn len(self) -> nat {
        (32 * self.size) as nat
    }

    /// Whether position `x` is set.
    pub closed spec fn is_one(self, x: int) -> bool {
        bit_set(self.data@[x / 32], x % 32)
    }

    /// The leftmost set position, when some position is set.
    pub closed spec fn first_one(self) -> int {
        choose|m: int|
            0 <= m < self.len() && self.is_one(m) && forall|x: int| 0 <= x < m ==> !self.is_one(x)
    }

    /// Word `i` is the first word of tier `t` that is not zero.
    pub closed spec fn first_nz_at(self, t: nat, i: int) -> bool {
        0 <= i < self.tcount(t) && self.tw(t, i) != 0 && forall|x: int|
            0 <= x < i ==> #[trigger] self.tw(t, x) == 0
    }

    pub closed spec fn has_nz(self, t: nat) -> bool {
        exists|i: int| 0 <= i < self.tcount(t) && #[trigger] self.tw(t, i) != 0
    }

    pub closed spec fn first_nz(self, t: nat) -> int {
        choose|i: int| self.first_nz_at(t, i)
    }

    /// How many base-32 digits the walk from the root reads.
    pub closed spec fn depth(self) -> nat {
        (self.root_level + 2) as nat
    }
}


impl Bitmap {
    proof fn lemma_first_nz(self, t: nat)
        requires
            self.has_nz(t),
        ensures
            self.first_nz_at(t, self.first_nz(t)),
    {
        let f = |i: int| 0 <= i < self.tcount(t) && self.tw(t, i) != 0;
        let w = choose|i: int| 0 <= i < self.tcount(t) && #[trigger] self.tw(t, i) != 0;
        assert(f(w));
        lemma_min_exists(f, w);
        let m = choose|m: int|
            #![trigger f(m)]
            0 <= m <= w && f(m) && forall|x: int| 0 <= x < m ==> !#[trigger] f(x);
        assert forall|x: int| 0 <= x < m implies #[trigger] self.tw(t, x) == 0 by {
            assert(!f(x));
        }
        assert(self.first_nz_at(t, m));
    }

    proof fn lemma_first_nz_unique(self, t: nat, a: int, b: int)
        requires
            self.first_nz_at(t, a),
            self.first_nz_at(t, b),
        ensures
            a == b,
    {
        if a < b {
            assert(self.tw(t, a) == 0);
        } else if b < a {
            assert(self.tw(t, b) == 0);
        }
    }

    proof fn lemma_zero_no_bit(w: u32, j: int)
        requires
            w == 0,
        ensures
            !bit_set(w, j),
    {
        if 0 <= j < 32 {
            let jj = j as u32;
            assert((0u32 >> jj) & 1u32 == 0u32) by (bit_vector);
        }
    }

    /// The parent of the first word that is not zero is the first such parent.
    proof fn lemma_first_nz_up(self, t: nat, f: int)
        requires
            self.inv(),
            t <= self.root_level,
            self.first_nz_at(t, f),
        ensures
            self.first_nz_at(t + 1, f / 32),
            self.has_nz(t + 1),
    {
        let s = self.size as nat;
        lemma_levels(s, t);
        if t < self.root_level {
            lemma_layer_below(s, t);
        }
        assert(self.summary_ok(t + 1));
        let p = f / 32;
        assert(self.summary_at(t + 1, p, f % 32));
        if self.tw(t + 1, p) == 0 {
            Self::lemma_zero_no_bit(self.tw(t + 1, p), f % 32);
        }
        assert forall|x: int| 0 <= x < p implies #[trigger] self.tw(t + 1, x) == 0 by {
            assert forall|j: int| 0 <= j < 32 implies !#[trigger] bit_set(self.tw(t + 1, x), j) by {
                assert(self.summary_at(t + 1, x, j));
                if 32 * x + j < cnt(s, t) {
                    assert(self.tw(t, 32 * x + j) == 0);
                }
            }
            lemma_no_bit_zero(self.tw(t + 1, x));
        }
        assert(self.first_nz_at(t + 1, p));
    }

    /// Below the first parent that is not zero, its lowest set bit leads to the first child
    /// that is not zero.
    proof fn lemma_first_nz_down(self, t: nat, p: int) -> (f: int)
        requires
            self.inv(),
            1 <= t <= self.root_level + 1,
            self.first_nz_at(t, p),
        ensures
            self.first_nz_at((t - 1) as nat, f),
            p == f / 32,
            bit_set(self.tw(t, p), f % 32),
            forall|j: int| 0 <= j < f % 32 ==> !bit_set(self.tw(t, p), j),
    {
        let s = self.size as nat;
        assert(self.summary_ok(t));
        let w = self.tw(t, p);
        if forall|j: int| 0 <= j < 32 ==> !#[trigger] bit_set(w, j) {
            lemma_no_bit_zero(w);
        }
        let j0 = choose|j: int| 0 <= j < 32 && #[trigger] bit_set(w, j);
        assert(self.summary_at(t, p, j0));
        lemma_levels(s, (t - 1) as nat);
        assert(self.has_nz((t - 1) as nat));
        self.lemma_first_nz((t - 1) as nat);
        let f = self.first_nz((t - 1) as nat);
        self.lemma_first_nz_up((t - 1) as nat, f);
        self.lemma_first_nz_unique(t, p, f / 32);
        assert(self.summary_at(t, p, f % 32));
        assert forall|j: int| 0 <= j < f % 32 implies !bit_set(self.tw(t, p), j) by {
            assert(self.summary_at(t, p, j));
            if 32 * p + j < cnt(s, (t - 1) as nat) {
                assert(self.tw((t - 1) as nat, 32 * p + j) == 0);
            }
        }
        f
    }

    /// Every tier above a tier that is not all zero is not all zero.
    proof fn lemma_has_nz_up(self, t: nat)
        requires
            self.inv(),
            self.has_nz(0),
            t <= self.root_level + 1,
        ensures
            self.has_nz(t),
        decreases t,
    {
        if t > 0 {
            self.lemma_has_nz_up((t - 1) as nat);
            self.lemma_first_nz((t - 1) as nat);
            self.lemma_first_nz_up((t - 1) as nat, self.first_nz((t - 1) as nat));
        }
    }

    /// Digits of the first words that are not zero, tier by tier.
    proof fn lemma_digits(self, u: nat, n: nat)
        requires
            self.inv(),
            self.has_nz(0),
            u + n <= self.root_level + 1,
            digits_ok(self.first_nz(u), n),
        ensures
            forall|v: nat| u <= v < u + n ==> #[trigger] self.first_nz(v) % 32 != 31,
        decreases n,
    {
        if n > 0 {
            self.lemma_has_nz_up(u);
            self.lemma_first_nz(u);
            self.lemma_first_nz_up(u, self.first_nz(u));
            self.lemma_has_nz_up(u + 1);
            self.lemma_first_nz(u + 1);
            self.lemma_first_nz_unique(u + 1, self.first_nz(u) / 32, self.first_nz(u + 1));
            self.lemma_digits(u + 1, (n - 1) as nat);
        }
    }

    // ------------------------------------------------------------ finding

    /// Walks down from word `pos` of tier `level + 1`, the first one there that is not zero,
    /// to the first leaf word that is not zero.
    fn find_from(&self, level: usize, offset: usize, pos: usize, prev_level_cap: usize) -> (r:
        usize)
        requires
            self.inv(),
            self.has_nz(0),
            level <= self.root_level,
            offset == ioff(self.size as nat, (level + 1) as nat),
            prev_level_cap == cnt(self.size as nat, level as nat),
            self.first_nz_at((level + 1) as nat, pos as int),
            forall|v: nat| v <= level ==> #[trigger] self.first_nz(v) % 32 != 31,
        ensures
            self.first_nz_at(0, r as int),
        decreases level,
    {
        let ghost s = self.size as nat;
        proof {
            lemma_levels(s, level as nat);
            if level < self.root_level {
                lemma_ioff_order(s, (level + 1) as nat, (self.root_level + 1) as nat);
            }
            lemma_cnt_le(s, (level + 1) as nat);
        }
        let ghost f = self.lemma_first_nz_down((level + 1) as nat, pos as int);
        proof {
            self.lemma_first_nz((level) as nat);
            self.lemma_first_nz_unique(level as nat, f, self.first_nz(level as nat));
            assert(f % 32 != 31);
            if self.inner@[offset + pos] == 0x8000_0000u32 {
                assert(bit_set(0x8000_0000u32, 31)) by (bit_vector);
                assert forall|j: int| 0 <= j < 32 && j != 31 implies !bit_set(
                    0x8000_0000u32,
                    j,
                ) by {
                    let jj = j as u32;
                    assert(jj != 31 && jj < 32 ==> (0x8000_0000u32 >> jj) & 1u32 == 0u32)
                        by (bit_vector);
                }
            }
        }
        let idx = low_index(self.inner[offset + pos]);
        proof {
            if (idx as int) < f % 32 {
            } else if (idx as int) > f % 32 {
            }
            assert(idx as int == f % 32);
        }
        proof {
            assert(self.shape_ok());
            assert(pos < 0x4000000);
            assert(pos << BIAS == pos * 32) by (bit_vector)
                requires
                    pos < 0x4000000,
            ;
        }
        let npos = (pos << BIAS) + idx as usize;
        if level == 0 {
            npos
        } else {
            proof {
                lemma_layer_below(s, (level - 1) as nat);
                lemma_cnt_le(s, level as nat);
                assert(prev_level_cap < 0x4000000);
                assert(prev_level_cap << BIAS == prev_level_cap * 32) by (bit_vector)
                    requires
                        prev_level_cap < 0x4000000,
                ;
            }
            self.find_from(level - 1, offset - prev_level_cap, npos, prev_level_cap << BIAS)
        }
    }
}


impl Bitmap {
    /// The same bitmap but for one word of an upper tier.
    proof fn lemma_set_word(old: Bitmap, new: Bitmap, t0: nat, p0: int, x: u32)
        requires
            old.shape_ok(),
            new.data == old.data,
            new.size == old.size,
            new.root_bit == old.root_bit,
            new.root_level == old.root_level,
            new.root_index == old.root_index,
            1 <= t0 <= old.root_level + 1,
            0 <= p0 < old.tcount(t0),
            new.inner@ == old.inner@.update(ioff(old.size as nat, t0) + p0, x),
        ensures
            new.shape_ok(),
            new.tw(t0, p0) == x,
            forall|t: nat, i: int|
                t <= old.root_level + 1 && 0 <= i < old.tcount(t) && !(t == t0 && i == p0)
                    ==> #[trigger] new.tw(t, i) == old.tw(t, i),
            forall|u: nat|
                1 <= u <= old.root_level + 1 && u != t0 && u != t0 + 1 && #[trigger] old.summary_ok(
                    u,
                ) ==> new.summary_ok(u),
            t0 + 1 <= old.root_level + 1 && old.summary_ok(t0 + 1) ==> new.summary_ok_but(
                t0 + 1,
                p0 / 32,
                p0 % 32,
            ),
    {
        let s = old.size as nat;
        let l = old.root_level as nat;
        lemma_levels(s, l);
        assert(old.inner@.len() == MAX_INNER_NUM);
        if t0 <= l {
            lemma_ioff_order(s, t0, l + 1);
        }
        assert forall|t: nat, i: int|
            t <= l + 1 && 0 <= i < old.tcount(t) && !(t == t0 && i == p0) implies #[trigger] new.tw(
            t,
            i,
        ) == old.tw(t, i) by {
            if t >= 1 {
                if t < t0 {
                    lemma_ioff_order(s, t, t0);
                } else if t > t0 {
                    lemma_ioff_order(s, t0, t);
                }
                if t <= l {
                    lemma_ioff_order(s, t, l + 1);
                }
            }
        }
        assert forall|u: nat|
            1 <= u <= l + 1 && u != t0 && u != t0 + 1 && #[trigger] old.summary_ok(
                u,
            ) implies new.summary_ok(u) by {
            assert forall|i: int, j: int|
                0 <= i < new.tcount(u) && 0 <= j < 32 implies #[trigger] new.summary_at(
                u,
                i,
                j,
            ) by {
                assert(old.summary_at(u, i, j));
                if 32 * i + j < cnt(s, (u - 1) as nat) {
                    lemma_levels(s, (u - 1) as nat);
                    assert(new.tw((u - 1) as nat, 32 * i + j) == old.tw((u - 1) as nat, 32 * i + j));
                }
            }
        }
        if t0 + 1 <= l + 1 && old.summary_ok(t0 + 1) {
            assert forall|i: int, j: int|
                0 <= i < new.tcount(t0 + 1) && 0 <= j < 32 && !(i == p0 / 32 && j == p0 % 32)
                    implies #[trigger] new.summary_at(t0 + 1, i, j) by {
                assert(old.summary_at(t0 + 1, i, j));
                if 32 * i + j < cnt(s, t0) {
                    lemma_levels(s, t0);
                    assert(new.tw(t0, 32 * i + j) == old.tw(t0, 32 * i + j));
                }
            }
        }
    }

    /// Sets bit `index` of tier `level + 1` (stored from `offset`) to `k`, then mends the
    /// tiers above.
    fn update_inner(&mut self, level: usize, offset: usize, index: usize, level_cap: usize, k: u32)
        requires
            old(self).shape_ok(),
            level <= old(self).root_level,
            offset == ioff(old(self).size as nat, (level + 1) as nat),
            level_cap == cnt(old(self).size as nat, (level + 1) as nat),
            index < old(self).tcount(level as nat),
            (k != 0) == (old(self).tw(level as nat, index as int) != 0),
            old(self).summary_ok_but((level + 1) as nat, index as int / 32, index as int % 32),
            forall|u: nat|
                1 <= u <= old(self).root_level + 1 && u != level + 1 ==> #[trigger] old(
                    self,
                ).summary_ok(u),
        ensures
            final(self).inv(),
            final(self).data == old(self).data,
            final(self).size == old(self).size,
            final(self).root_level == old(self).root_level,
        decreases old(self).root_level - level,
    {
        let ghost s = self.size as nat;
        let ghost l = self.root_level as nat;
        let ghost t0 = (level + 1) as nat;
        proof {
            lemma_levels(s, level as nat);
            if level < self.root_level {
                lemma_layer_below(s, level as nat);
                lemma_ioff_order(s, t0, l + 1);
            }
            lemma_cnt_le(s, level as nat);
        }
        let pos = index >> BIAS;
        let bit = index & 31;
        proof {
            assert(index >> BIAS == index / 32) by (bit_vector);
            assert(index & 31 == index % 32) by (bit_vector);
        }
        let w = self.inner[offset + pos];
        let nw = with_bit(w, bit as u32, k != 0);
        let ghost before = *self;
        self.inner.set(offset + pos, nw);
        proof {
            Self::lemma_set_word(before, *self, t0, pos as int, nw);
            assert forall|i: int, j: int|
                0 <= i < self.tcount(t0) && 0 <= j < 32 implies #[trigger] self.summary_at(
                t0,
                i,
                j,
            ) by {
                if !(i == pos && j == bit) {
                    assert(before.summary_at(t0, i, j));
                    if 32 * i + j < cnt(s, level as nat) {
                        assert(self.tw(level as nat, 32 * i + j) == before.tw(
                            level as nat,
                            32 * i + j,
                        ));
                    }
                    if i == pos {
                        assert(bit_set(nw, j) == bit_set(w, j));
                    } else {
                        assert(self.tw(t0, i) == before.tw(t0, i));
                    }
                } else {
                    assert(self.tw(level as nat, index as int) == before.tw(
                        level as nat,
                        index as int,
                    ));
                }
            }
            assert(self.summary_ok(t0));
            assert forall|u: nat|
                1 <= u <= l + 1 && u != t0 + 1 implies #[trigger] self.summary_ok(u) by {
                if u != t0 {
                    assert(before.summary_ok(u));
                }
            }
        }
        if level == self.root_level {
            return;
        }
        let c: u32 = if nw == 0 { 0 } else { 1 };
        proof {
            lemma_cnt_step(s, t0);
            assert(level_cap >> BIAS == level_cap / 32) by (bit_vector);
        }
        self.update_inner(level + 1, offset + level_cap, pos, level_cap >> BIAS, c);
    }

    /// Sets position `index` to `k` (any value but zero sets it).
    pub fn set_bit(&mut self, index: i32, k: u32)
        requires
            old(self).inv(),
            0 <= index < old(self).len(),
        ensures
            final(self).inv(),
            final(self).len() == old(self).len(),
            forall|x: int|
                0 <= x < final(self).len() ==> #[trigger] final(self).is_one(x) == if x
                    == index {
                    k != 0
                } else {
                    old(self).is_one(x)
                },
    {
        let ghost s = self.size as nat;
        let i = index as usize;
        let p = i >> BIAS;
        let b = i & 31;
        proof {
            assert(i >> BIAS == i / 32) by (bit_vector);
            assert(i & 31 == i % 32) by (bit_vector);
        }
        let w = self.data[p];
        let nw = with_bit(w, b as u32, k != 0);
        let ghost before = *self;
        self.data.set(p, nw);
        proof {
            let l = self.root_level as nat;
            lemma_levels(s, 0);
            assert forall|t: nat, j: int| 1 <= t <= l + 1 && 0 <= j < self.tcount(t) implies #[trigger] self.tw(t, j) == before.tw(t, j) by {}
            assert forall|u: nat| 2 <= u <= l + 1 implies #[trigger] self.summary_ok(u) by {
                assert(before.summary_ok(u));
                assert forall|a: int, j: int|
                    0 <= a < self.tcount(u) && 0 <= j < 32 implies #[trigger] self.summary_at(
                    u,
                    a,
                    j,
                ) by {
                    assert(before.summary_at(u, a, j));
                }
            }
            assert(before.summary_ok(1));
            assert forall|a: int, j: int|
                0 <= a < self.tcount(1) && 0 <= j < 32 && !(a == p / 32 && j == p % 32)
                    implies #[trigger] self.summary_at(1, a, j) by {
                assert(before.summary_at(1, a, j));
                if 32 * a + j < cnt(s, 0) {
                    assert(self.tw(0, 32 * a + j) == before.tw(0, 32 * a + j));
                }
            }
            assert(self.summary_ok_but(1, p as int / 32, p as int % 32));
        }
        let c: u32 = if nw == 0 { 0 } else { 1 };
        proof {
            lemma_cnt_step(s, 0);
            let sz = self.size;
            assert(sz >> BIAS == sz / 32) by (bit_vector);
        }
        self.update_inner(0, 0, p, self.size >> BIAS, c);
        proof {
            assert forall|x: int|
                0 <= x < self.len() implies #[trigger] self.is_one(x) == if x == index {
                k != 0
            } else {
                before.is_one(x)
            } by {
                if x / 32 == p as int {
                    assert(bit_set(nw, x % 32) == if x % 32 == b { k != 0 } else { bit_set(w, x % 32) });
                }
            }
        }
    }

    /// The leftmost set position. The walk from the root reads, tier by tier, the lowest set
    /// bit of a word; a word whose lowest set bit is its top bit cannot be read, so no
    /// base-32 digit of the answer may be 31.
    pub fn find_left_one(&self) -> (r: i32)
        requires
            self.inv(),
            exists|x: int| 0 <= x < self.len() && self.is_one(x),
            digits_ok(self.first_one(), self.depth()),
        ensures
            r == self.first_one(),
            0 <= r < self.len(),
            self.is_one(r as int),
            forall|x: int| 0 <= x < r ==> !self.is_one(x),
    {
        let ghost s = self.size as nat;
        let ghost l = self.root_level as nat;
        let ghost m = self.first_one();
        proof {
            let f = |x: int| 0 <= x < self.len() && self.is_one(x);
            let w = choose|x: int| 0 <= x < self.len() && self.is_one(x);
            assert(f(w));
            lemma_min_exists(f, w);
            let mm = choose|mm: int|
                #![trigger f(mm)]
                0 <= mm <= w && f(mm) && forall|x: int| 0 <= x < mm ==> !#[trigger] f(x);
            assert forall|x: int| 0 <= x < mm implies !self.is_one(x) by {
                assert(!f(x));
            }
            assert(0 <= m < self.len() && self.is_one(m) && forall|x: int|
                0 <= x < m ==> !self.is_one(x));
            // the first leaf word that is not zero holds the first set position
            assert forall|a: int| 0 <= a < m / 32 implies #[trigger] self.tw(0, a) == 0 by {
                assert forall|j: int| 0 <= j < 32 implies !#[trigger] bit_set(self.tw(0, a), j) by {
                    assert(!self.is_one(32 * a + j));
                }
                lemma_no_bit_zero(self.tw(0, a));
            }
            if self.tw(0, m / 32) == 0 {
                Self::lemma_zero_no_bit(self.tw(0, m / 32), m % 32);
            }
            assert(self.first_nz_at(0, m / 32));
            assert(self.has_nz(0));
            self.lemma_first_nz(0);
            self.lemma_first_nz_unique(0, m / 32, self.first_nz(0));
            assert(digits_ok(m / 32, l + 1));
            self.lemma_digits(0, l + 1);
            self.lemma_has_nz_up(l + 1);
            self.lemma_first_nz(l + 1);
            assert(self.first_nz(l + 1) == 0);
            lemma_levels(s, l);
        }
        let i = self.find_from(self.root_level, self.root_index, 0, self.root_bit);
        proof {
            self.lemma_first_nz_unique(0, i as int, m / 32);
            assert forall|j: int| 0 <= j < m % 32 implies !bit_set(self.data@[i as int], j) by {
                assert(!self.is_one(32 * (i as int) + j));
            }
            if self.data@[i as int] == 0x8000_0000u32 {
                assert forall|j: int| 0 <= j < 32 && j != 31 implies !bit_set(
                    0x8000_0000u32,
                    j,
                ) by {
                    let jj = j as u32;
                    assert(jj != 31 && jj < 32 ==> (0x8000_0000u32 >> jj) & 1u32 == 0u32)
                        by (bit_vector);
                }
            }
        }
        let idx = low_index(self.data[i]);
        proof {
            if (idx as int) < m % 32 {
            } else if (idx as int) > m % 32 {
            }
            assert(idx as int == m % 32);
            assert(i < 0x4000000);
            assert(i << BIAS == i * 32) by (bit_vector)
                requires
                    i < 0x4000000,
            ;
        }
        ((i << BIAS) + idx as usize) as i32
    }
}


impl Bitmap {
    /// Word `a` of tier `t` summarizes its children.
    closed spec fn word_ok(self, t: nat, a: int) -> bool {
        forall|j: int| 0 <= j < 32 ==> #[trigger] self.summary_at(t, a, j)
    }

    /// Child `j` of word `i` of the tier being built from `start` over `bit_num` children.
    fn child_word(&self, start: usize, bit_num: usize, i: usize, j: usize) -> (r: u32)
        requires
            i < 0x4000000,
            j < 32,
            self.inner@.len() == MAX_INNER_NUM,
            start == 0 ==> 32 * i + j < self.data@.len(),
            start != 0 ==> bit_num <= start && start - bit_num + 32 * i + j < self.inner@.len(),
        ensures
            r == if start == 0 {
                self.data@[32 * i + j]
            } else {
                self.inner@[start - bit_num + 32 * i + j]
            },
    {
        proof {
            assert(i << BIAS == i * 32) by (bit_vector)
                requires
                    i < 0x4000000,
            ;
        }
        let index = (i << BIAS) + j;
        if start == 0 {
            self.data[index]
        } else {
            let base = start - bit_num;
            self.inner[base + index]
        }
    }

    /// The summary word of the children `32 * i ..` (fewer than 32 when `n` ends first) of the
    /// tier below the one that starts at `root_index`.
    fn summarize(&self, s: usize, i: usize, n: usize) -> (w: u32)
        requires
            self.data@.len() == self.size,
            self.inner@.len() == MAX_INNER_NUM,
            32 * self.size <= i32::MAX,
            s == cnt(self.size as nat, self.root_level as nat),
            self.root_index == ioff(self.size as nat, (self.root_level + 1) as nat),
            (self.root_level == 0) == (self.root_index == 0),
            self.root_index <= MAX_INNER_NUM,
            n <= 32,
            32 * i + n <= s,
        ensures
            forall|j: int|
                #![trigger bit_set(w, j)]
                0 <= j < 32 ==> (bit_set(w, j) <==> (j < n && self.tw(
                    self.root_level as nat,
                    32 * i + j,
                ) != 0)),
    {
        let ghost sz = self.size as nat;
        let ghost l = self.root_level as nat;
        proof {
            lemma_cnt_le(sz, l);
            assert forall|jj: int| !bit_set(0u32, jj) by {
                Self::lemma_zero_no_bit(0u32, jj);
            }
        }
        let mut w: u32 = 0;
        let mut j: usize = 0;
        while j < n
            invariant
                self.data@.len() == self.size,
                self.inner@.len() == MAX_INNER_NUM,
                32 * self.size <= i32::MAX,
                sz == self.size,
                l == self.root_level,
                s == cnt(sz, l),
                self.root_index == ioff(sz, l + 1),
                (l == 0) == (self.root_index == 0),
                self.root_index <= MAX_INNER_NUM,
                n <= 32,
                32 * i + n <= s,
                s <= sz,
                j <= n,
                forall|jj: int|
                    #![trigger bit_set(w, jj)]
                    0 <= jj < 32 ==> (bit_set(w, jj) <==> (jj < j && self.tw(l, 32 * i + jj)
                        != 0)),
            decreases n - j,
        {
            let c = self.child_word(self.root_index, s, i, j);
            if c != 0 {
                w = with_bit(w, j as u32, true);
            }
            j = j + 1;
        }
        w
    }

    /// Builds the tiers above `data`.
    fn init(&mut self)
        requires
            old(self).data@.len() == old(self).size,
            old(self).inner@.len() == MAX_INNER_NUM,
            well_layered(old(self).size as nat),
            inner_words(old(self).size as nat) <= MAX_INNER_NUM,
            32 * old(self).size <= i32::MAX,
        ensures
            final(self).inv(),
            final(self).data@ == old(self).data@,
            final(self).size == old(self).size,
    {
        let ghost sz = self.size as nat;
        let ghost orig = self.data@;
        self.root_level = 0;
        let mut s = self.size;
        self.root_index = 0;
        proof {
            lemma_levels(sz, 0);
        }
        while s > LEAF_BIT
            invariant
                self.data@.len() == self.size,
                self.inner@.len() == MAX_INNER_NUM,
                sz == self.size,
                well_layered(sz),
                inner_words(sz) <= MAX_INNER_NUM,
                32 * sz <= i32::MAX,
                self.root_level <= levels(sz),
                s == cnt(sz, self.root_level as nat),
                self.root_index == ioff(sz, (self.root_level + 1) as nat),
                (self.root_level == 0) == (self.root_index == 0),
                self.root_level <= self.root_index,
                self.data@ == orig,
                forall|u: nat| 1 <= u <= self.root_level ==> #[trigger] self.summary_ok(u),
            decreases s,
        {
            let ghost l = self.root_level as nat;
            proof {
                lemma_levels(sz, l);
                lemma_layer_below(sz, l);
                lemma_cnt_le(sz, l);
                lemma_ioff_order(sz, l + 1, levels(sz) + 1);
                if l >= 1 {
                    lemma_ioff_order(sz, l, l + 1);
                }
                assert(s >> BIAS == s / 32) by (bit_vector);
            }
            let word_num = s >> BIAS;
            let mut i: usize = 0;
            while i < word_num
                invariant
                    self.data@.len() == self.size,
                    self.inner@.len() == MAX_INNER_NUM,
                    sz == self.size,
                    well_layered(sz),
                    inner_words(sz) <= MAX_INNER_NUM,
                    32 * sz <= i32::MAX,
                    l == self.root_level,
                    l < levels(sz),
                    s == cnt(sz, l),
                    s == 32 * word_num,
                    word_num == cnt(sz, l + 1),
                    s <= sz,
                    self.root_index == ioff(sz, l + 1),
                    self.root_index + word_num < MAX_INNER_NUM,
                    l >= 1 ==> ioff(sz, l) + cnt(sz, l) <= self.root_index,
                    (l == 0) == (self.root_index == 0),
                    l <= self.root_index,
                    self.data@ == orig,
                    i <= word_num,
                    forall|u: nat| 1 <= u <= l ==> #[trigger] self.summary_ok(u),
                    forall|a: int| 0 <= a < i ==> #[trigger] self.word_ok(l + 1, a),
                decreases word_num - i,
            {
                let w = self.summarize(s, i, 32);
                let ghost before = *self;
                self.inner.set(self.root_index + i, w);
                proof {
                    assert forall|t: nat, a: int|
                        t <= l && 0 <= a < cnt(sz, t) implies #[trigger] self.tw(t, a) == before.tw(
                        t,
                        a,
                    ) by {
                        if t >= 1 {
                            lemma_ioff_order(sz, t, l + 1);
                        }
                    }
                    assert forall|u: nat| 1 <= u <= l implies #[trigger] self.summary_ok(u) by {
                        assert(before.summary_ok(u));
                        assert forall|a: int, j: int|
                            0 <= a < self.tcount(u) && 0 <= j < 32 implies #[trigger] self.summary_at(
                            u,
                            a,
                            j,
                        ) by {
                            assert(before.summary_at(u, a, j));
                            lemma_levels(sz, (u - 1) as nat);
                            if 32 * a + j < cnt(sz, (u - 1) as nat) {
                                assert(self.tw((u - 1) as nat, 32 * a + j) == before.tw(
                                    (u - 1) as nat,
                                    32 * a + j,
                                ));
                            }
                        }
                    }
                    assert forall|a: int| 0 <= a <= i implies #[trigger] self.word_ok(l + 1, a) by {
                        assert forall|j: int| 0 <= j < 32 implies #[trigger] self.summary_at(
                            l + 1,
                            a,
                            j,
                        ) by {
                            assert(self.tw(l, 32 * a + j) == before.tw(l, 32 * a + j));
                            if a < i {
                                assert(before.word_ok(l + 1, a));
                                assert(before.summary_at(l + 1, a, j));
                            }
                        }
                    }
                }
                i = i + 1;
            }
            let ghost mid = *self;
            self.root_level = self.root_level + 1;
            self.root_index = self.root_index + word_num;
            s = word_num;
            proof {
                lemma_cnt_step(sz, l);
                lemma_ioff_order(sz, l + 1, l + 2);
                assert forall|u: nat| 1 <= u <= self.root_level implies #[trigger] self.summary_ok(
                    u,
                ) by {
                    if u <= l {
                        assert(mid.summary_ok(u));
                        assert forall|a: int, j: int|
                            0 <= a < self.tcount(u) && 0 <= j < 32 implies #[trigger] self.summary_at(
                            u,
                            a,
                            j,
                        ) by {
                            assert(mid.summary_at(u, a, j));
                        }
                    }
                    if u == l + 1 {
                        assert forall|a: int, j: int|
                            0 <= a < self.tcount(u) && 0 <= j < 32 implies #[trigger] self.summary_at(
                            u,
                            a,
                            j,
                        ) by {
                            assert(mid.word_ok(u, a));
                            assert(mid.summary_at(u, a, j));
                        }
                    }
                }
            }
        }
        let ghost l = self.root_level as nat;
        proof {
            lemma_levels(sz, l);
            lemma_cnt_le(sz, l);
            if l >= 1 {
                lemma_ioff_order(sz, l, l + 1);
            }
        }
        let w = self.summarize(s, 0, s);
        let ghost before = *self;
        self.inner.set(self.root_index, w);
        self.root_bit = s;
        proof {
            assert forall|t: nat, a: int|
                t <= l && 0 <= a < cnt(sz, t) implies #[trigger] self.tw(t, a) == before.tw(t, a) by {
                if t >= 1 {
                    lemma_ioff_order(sz, t, l + 1);
                }
            }
            assert forall|u: nat| 1 <= u <= l + 1 implies #[trigger] self.summary_ok(u) by {
                if u <= l {
                    assert(before.summary_ok(u));
                }
                assert forall|a: int, j: int|
                    0 <= a < self.tcount(u) && 0 <= j < 32 implies #[trigger] self.summary_at(
                    u,
                    a,
                    j,
                ) by {
                    lemma_levels(sz, (u - 1) as nat);
                    if u <= l {
                        assert(before.summary_at(u, a, j));
                    }
                    if 32 * a + j < cnt(sz, (u - 1) as nat) {
                        assert(self.tw((u - 1) as nat, 32 * a + j) == before.tw(
                            (u - 1) as nat,
                            32 * a + j,
                        ));
                    }
                }
            }
        }
    }

    /// A bitmap over `cap / 32 * 32` positions, all set when `k` is 1 and all clear else.
    pub fn new(cap: usize, k: u32) -> (r: Self)
        requires
            well_layered((cap / 32) as nat),
            inner_words((cap / 32) as nat) <= MAX_INNER_NUM,
            32 * (cap / 32) <= i32::MAX,
        ensures
            r.inv(),
            r.len() == 32 * (cap / 32),
            forall|x: int| 0 <= x < r.len() ==> #[trigger] r.is_one(x) == (k == 1),
            k == 1 && r.len() > 0 ==> r.first_one() == 0 && digits_ok(r.first_one(), r.depth()),
    {
        proof {
            assert(cap >> BIAS == cap / 32) by (bit_vector);
        }
        let s = cap >> BIAS;
        let fill: u32 = if k == 1 { 0xffff_ffffu32 } else { 0u32 };
        let mut m = Bitmap {
            size: s,
            data: vec![fill; s],
            inner: vec![0u32; MAX_INNER_NUM],
            root_bit: 0,
            root_level: 0,
            root_index: 0,
        };
        m.init();
        proof {
            assert forall|x: int| 0 <= x < m.len() implies #[trigger] m.is_one(x) == (k == 1) by {
                let jj = (x % 32) as u32;
                assert(jj < 32 ==> ((0xffff_ffffu32 >> jj) & 1u32 == 1u32)) by (bit_vector);
                assert(jj < 32 ==> ((0u32 >> jj) & 1u32 == 0u32)) by (bit_vector);
            }
            if k == 1 && m.len() > 0 {
                assert(m.is_one(0));
                m.lemma_first_one(0);
                lemma_digits_small(0, m.depth());
            }
        }
        m
    }
}

/// A number below 31 has no base-32 digit 31.
pub proof fn lemma_digits_small(m: int, n: nat)
    requires
        0 <= m < 31,
    ensures
        digits_ok(m, n),
    decreases n,
{
    if n > 0 {
        assert(m % 32 == m && m / 32 == 0);
        lemma_digits_small(0, (n - 1) as nat);
    }
}

impl Bitmap {
    /// A set position below 31 makes `find_left_one` answerable: the leftmost set position is
    /// at most it.
    pub proof fn lemma_low_one(self, x: int)
        requires
            0 <= x < 31,
            x < self.len(),
            self.is_one(x),
        ensures
            exists|y: int| 0 <= y < self.len() && self.is_one(y),
            0 <= self.first_one() <= x,
            digits_ok(self.first_one(), self.depth()),
        decreases x,
    {
        if exists|y: int| 0 <= y < x && self.is_one(y) {
            let y = choose|y: int| 0 <= y < x && self.is_one(y);
            self.lemma_low_one(y);
        } else {
            self.lemma_first_one(x);
            lemma_digits_small(x, self.depth());
        }
    }
}


impl Bitmap {
    /// The leftmost set position is unique.
    proof fn lemma_first_one(self, m: int)
        requires
            0 <= m < self.len(),
            self.is_one(m),
            forall|x: int| 0 <= x < m ==> !self.is_one(x),
        ensures
            self.first_one() == m,
    {
        let c = self.first_one();
        assert(0 <= c < self.len() && self.is_one(c) && forall|x: int|
            0 <= x < c ==> !self.is_one(x));
        if c < m {
            assert(!self.is_one(c));
        } else if m < c {
            assert(!self.is_one(m));
        }
    }

    /// Whether `find_left_one` can answer: some position is set, and no base-32 digit of the
    /// leftmost one is 31.
    pub fn can_find_left_one(&self) -> (r: bool)
        requires
            self.inv(),
        ensures
            r == ((exists|x: int| 0 <= x < self.len() && self.is_one(x)) && digits_ok(
                self.first_one(),
                self.depth(),
            )),
    {
        let n = self.size;
        let mut i: usize = 0;
        while i < n && self.data[i] == 0
            invariant
                self.inv(),
                n == self.size,
                i <= n,
                forall|a: int| 0 <= a < i ==> self.data@[a] == 0,
            decreases n - i,
        {
            i = i + 1;
        }
        if i == n {
            proof {
                assert forall|x: int| 0 <= x < self.len() implies !self.is_one(x) by {
                    Self::lemma_zero_no_bit(self.data@[x / 32], x % 32);
                }
            }
            return false;
        }
        let w = self.data[i];
        let b = w.trailing_zeros();
        proof {
            vstd::std_specs::bits::axiom_u32_trailing_zeros(w);
            assert(bit_set(w, b as int));
            assert(i < 0x4000000);
        }
        let m: u64 = (i as u64) * 32 + (b as u64);
        proof {
            assert forall|x: int| 0 <= x < m implies !self.is_one(x) by {
                if x / 32 < i {
                    Self::lemma_zero_no_bit(self.data@[x / 32], x % 32);
                } else {
                    assert((w >> ((x % 32) as u32)) & 1u32 == 0u32);
                }
            }
            assert(self.is_one(m as int));
            self.lemma_first_one(m as int);
        }
        let depth = self.root_level + 2;
        let mut cur = m;
        let mut k: usize = 0;
        while k < depth
            invariant
                depth == self.root_level + 2,
                self.first_one() == m as int,
                0 <= m < self.len(),
                self.is_one(m as int),
                k <= depth,
                digits_ok(m as int, depth as nat) == digits_ok(cur as int, (depth - k) as nat),
            decreases depth - k,
        {
            if cur % 32 == 31 {
                assert(!digits_ok(cur as int, (depth - k) as nat));
                return false;
            }
            cur = cur / 32;
            k = k + 1;
        }
        true
    }
}

} // verus!
