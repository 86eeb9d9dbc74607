use vstd::prelude::*;

verus! {

/// String slots in a string page.
pub const SLOT_PER_PAGE: usize = 30;

/// Bytes held by one string slot.
pub const SLOT_LENGTH: usize = 256;

/// Bytes in a page.
pub const PAGE_SIZE: usize = 8192;

/// Base-2 logarithm of the page size.
pub const PAGE_SIZE_IDX: i32 = 13;

/// A place in a file: a page and a slot in it. Page 0 is the file header, so a pointer
/// into page 0 is the null pointer.
#[derive(Copy, Clone, Debug)]
pub struct StrPointer {
    pub page: u32,
    pub offset: u32,
}

impl StrPointer {
    /// The 64-bit number that stands for the pointer: page in the high half, slot in the low half.
    pub open spec fn spec_to_u64(self) -> u64 {
        (self.page as int * 0x1_0000_0000 + self.offset as int) as u64
    }

    /// The pointer that a 64-bit number stands for.
    pub fn new(p: u64) -> (r: Self)
        ensures
            r.page == p / 0x1_0000_0000,
            r.offset == p % 0x1_0000_0000,
    {
        let page = ((p >> 32) & 0xffff_ffff) as u32;
        let offset = (p & 0xffff_ffff) as u32;
        assert(((p >> 32) & 0xffff_ffff) == p / 0x1_0000_0000) by (bit_vector);
        assert((p & 0xffff_ffff) == p % 0x1_0000_0000) by (bit_vector);
        StrPointer { page, offset }
    }

    /// The 64-bit number that stands for the pointer.
    pub fn to_u64(&self) -> (r: u64)
        ensures
            r == self.spec_to_u64(),
            r == self.page as int * 0x1_0000_0000 + self.offset as int,
    {
        let page = self.page as u64;
        let offset = self.offset as u64;
        let r = (page << 32) | offset;
        assert(r == page * 0x1_0000_0000 + offset) by (bit_vector)
            requires
                r == (page << 32) | offset,
                page < 0x1_0000_0000,
                offset < 0x1_0000_0000;
        r
    }

    /// Whether this is the null pointer.
    pub fn is_null(&self) -> (r: bool)
        ensures
            r == (self.page == 0),
    {
        self.page == 0
    }
}

/// Decoding the number of a pointer gives the pointer back.
pub proof fn lemma_str_pointer_roundtrip(s: StrPointer)
    ensures
        s.spec_to_u64() / 0x1_0000_0000 == s.page,
        s.spec_to_u64() % 0x1_0000_0000 == s.offset,
{
    let v = s.page as int * 0x1_0000_0000 + s.offset as int;
    assert(v < 0x1_0000_0000_0000_0000);
    assert(v / 0x1_0000_0000 == s.page as int && v % 0x1_0000_0000 == s.offset as int) by (nonlinear_arith)
        requires v == s.page as int * 0x1_0000_0000 + s.offset as int, s.offset < 0x1_0000_0000, 0 <= s.offset;
}

/// Encoding the pointer that a number stands for gives the number back.
pub proof fn lemma_u64_pointer_roundtrip(p: u64)
    ensures
        (StrPointer { page: (p / 0x1_0000_0000) as u32, offset: (p % 0x1_0000_0000) as u32 }).spec_to_u64() == p,
{
    assert((p / 0x1_0000_0000) * 0x1_0000_0000 + p % 0x1_0000_0000 == p) by (nonlinear_arith);
}

/// The head of a string page: the next page on the free list and the slot mask.
pub struct PageHeader {
    pub next_free_page: u32,
    pub free_slot: u32,
}

/// One slot of a string page: the bytes of the string from here on, up to `SLOT_LENGTH`
/// of them in this slot, and the slot that holds the rest.
pub struct StringSlice {
    pub len: u64,
    pub bytes: [u8; SLOT_LENGTH],
    pub next: StrPointer,
}

/// A page of string slots.
pub struct StringPage {
    pub header: PageHeader,
    pub strs: [StringSlice; SLOT_PER_PAGE],
}

/// The first page of a file.
#[derive(Default, Debug)]
pub struct FileHeader {
    pub has_used: u32,
    pub free_page: u32,
    pub least_unused_page: u32,
}

} // verus!
