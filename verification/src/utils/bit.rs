use vstd::prelude::*;

verus! {

/// Whether bit `i` of `slot` is set.
pub open spec fn bit_set(slot: u32, i: int) -> bool {
    0 <= i < 32 && (slot >> (i as u32)) & 1u32 == 1u32
}

/// Number of clear bits of `slot` among positions `0 .. len`.
pub open spec fn count_free(slot: u32, len: nat) -> nat
    decreases len,
{
    if len == 0 {
        0
    } else {
        count_free(slot, (len - 1) as nat) + if bit_set(slot, len - 1) { 0nat } else { 1nat }
    }
}

/// Number of set bits of `slot` among positions `0 .. len`.
pub open spec fn count_used(slot: u32, len: nat) -> nat
    decreases len,
{
    if len == 0 {
        0
    } else {
        count_used(slot, (len - 1) as nat) + if bit_set(slot, len - 1) { 1nat } else { 0nat }
    }
}

pub proof fn lemma_count_split(slot: u32, len: nat)
    ensures
        count_free(slot, len) + count_used(slot, len) == len,
    decreases len,
{
    if len > 0 {
        lemma_count_split(slot, (len - 1) as nat);
    }
}

/// Index of the lowest clear bit of a slot mask that is not full.
pub fn get_free_index(slot: u32) -> (r: u32)
    requires
        slot != u32::MAX,
    ensures
        r < 32,
        !bit_set(slot, r as int),
        forall|j: int| 0 <= j < r ==> bit_set(slot, j),
{
    let x = slot + 1;
    let r = x.trailing_zeros();
    proof {
        vstd::std_specs::bits::axiom_u32_trailing_zeros(x);
        assert(x != 0);
        assert(r < 32);
        assert((x >> r) & 1u32 == 1u32);
        let k: u32 = (32 - r) as u32;
        assert(x << k == 0);
        assert(((slot >> r) & 1u32) == 0u32) by (bit_vector)
            requires
                x == slot + 1,
                r < 32,
                k == 32 - r,
                (x >> r) & 1u32 == 1u32,
                x << k == 0;
        assert forall|j: int| 0 <= j < r implies bit_set(slot, j) by {
            let jj = j as u32;
            assert((x >> jj) & 1u32 == 0u32);
            assert(((slot >> jj) & 1u32) == 1u32) by (bit_vector)
                requires
                    x == slot + 1,
                    jj < r,
                    r < 32,
                    k == 32 - r,
                    x << k == 0;
        }
    }
    r
}

/// Marks slot `index` as used.
pub fn set_used(slot: &mut u32, index: u32)
    requires
        index < 32,
    ensures
        bit_set(*final(slot), index as int),
        forall|j: int| 0 <= j < 32 && j != index ==> bit_set(*final(slot), j) == bit_set(*old(slot), j),
{
    let ghost s = *slot;
    *slot = *slot | (1u32 << index);
    proof {
        let n = *slot;
        assert((n >> index) & 1u32 == 1u32) by (bit_vector)
            requires n == s | (1u32 << index), index < 32;
        assert forall|j: int| 0 <= j < 32 && j != index implies bit_set(n, j) == bit_set(s, j) by {
            let jj = j as u32;
            assert((n >> jj) & 1u32 == (s >> jj) & 1u32) by (bit_vector)
                requires n == s | (1u32 << index), index < 32, jj < 32, jj != index;
        }
    }
}

/// Marks slot `index` as free.
pub fn set_free(slot: &mut u32, index: u32)
    requires
        index < 32,
    ensures
        !bit_set(*final(slot), index as int),
        forall|j: int| 0 <= j < 32 && j != index ==> bit_set(*final(slot), j) == bit_set(*old(slot), j),
{
    let ghost s = *slot;
    *slot = *slot | (1u32 << index);
    *slot = *slot ^ (1u32 << index);
    proof {
        let n = *slot;
        assert((n >> index) & 1u32 == 0u32) by (bit_vector)
            requires n == (s | (1u32 << index)) ^ (1u32 << index), index < 32;
        assert forall|j: int| 0 <= j < 32 && j != index implies bit_set(n, j) == bit_set(s, j) by {
            let jj = j as u32;
            assert((n >> jj) & 1u32 == (s >> jj) & 1u32) by (bit_vector)
                requires n == (s | (1u32 << index)) ^ (1u32 << index), index < 32, jj < 32, jj != index;
        }
    }
}

/// Number of free slots among the first `len` slots.
pub fn free_num(slot: u32, len: usize) -> (r: u32)
    requires
        1 <= len <= 32,
    ensures
        r == count_free(slot, len as nat),
{
    let mut i: usize = 0;
    let mut r: u32 = 0;
    while i < len
        invariant
            i <= len <= 32,
            r == count_free(slot, i as nat),
            r <= i,
        decreases len - i,
    {
        let ii = i as u32;
        let b = (slot >> ii) & 1u32;
        if b == 0 {
            r = r + 1;
        }
        i = i + 1;
        proof {
            assert(b == 0 || b == 1u32) by (bit_vector) requires b == (slot >> ii) & 1u32;
        }
    }
    r
}

/// Number of used slots among the first `len` slots.
pub fn used_num(slot: u32, len: usize) -> (r: u32)
    requires
        1 <= len <= 32,
    ensures
        r == count_used(slot, len as nat),
{
    let mut i: usize = 0;
    let mut r: u32 = 0;
    while i < len
        invariant
            i <= len <= 32,
            r == count_used(slot, i as nat),
            r <= i,
        decreases len - i,
    {
        let ii = i as u32;
        let b = (slot >> ii) & 1u32;
        if b == 1 {
            r = r + 1;
        }
        i = i + 1;
        proof {
            assert(b == 0 || b == 1u32) by (bit_vector) requires b == (slot >> ii) & 1u32;
        }
    }
    r
}

/// Whether every one of the first `len` slots is used.
pub fn all_used(slot: u32, len: usize) -> (r: bool)
    requires
        1 <= len <= 32,
    ensures
        r == (count_free(slot, len as nat) == 0),
{
    free_num(slot, len) == 0
}

/// Whether every one of the first `len` slots is free.
pub fn all_free(slot: u32, len: usize) -> (r: bool)
    requires
        1 <= len <= 32,
    ensures
        r == (count_free(slot, len as nat) == len),
{
    free_num(slot, len) == len as u32
}

/// Whether slot `index` is used.
pub fn is_used(slot: u32, index: usize) -> (r: bool)
    requires
        index < 32,
    ensures
        r == bit_set(slot, index as int),
{
    let ii = index as u32;
    let r = (slot & (1u32 << ii)) != 0;
    proof {
        assert(((slot & (1u32 << ii)) != 0) == ((slot >> ii) & 1u32 == 1u32)) by (bit_vector)
            requires ii < 32;
    }
    r
}

/// Whether slot `index` is free.
pub fn is_free(slot: u32, index: usize) -> (r: bool)
    requires
        index < 32,
    ensures
        r == !bit_set(slot, index as int),
{
    let ii = index as u32;
    let r = (slot & (1u32 << ii)) == 0;
    proof {
        assert(((slot & (1u32 << ii)) == 0) == !((slot >> ii) & 1u32 == 1u32)) by (bit_vector)
            requires ii < 32;
    }
    r
}

/// Whether bit `index` is one.
pub fn is_one(slot: u32, index: usize) -> (r: bool)
    requires
        index < 32,
    ensures
        r == bit_set(slot, index as int),
{
    is_used(slot, index)
}

/// Tests bit `index` with the same test as `is_one`: true when the bit is one.
pub fn is_zero(slot: u32, index: usize) -> (r: bool)
    requires
        index < 32,
    ensures
        r == bit_set(slot, index as int),
{
    is_used(slot, index)
}

} // verus!
