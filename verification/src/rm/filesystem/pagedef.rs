use vstd::prelude::*;

verus! {

/// Bytes in a page.
pub const PAGE_SIZE: i32 = 8192;

/// 32-bit words in a page.
pub const PAGE_INT_NUM: i32 = 2048;

/// Base-2 logarithm of the page size.
pub const PAGE_SIZE_IDX: i32 = 13;

/// Most files open at once.
pub const MAX_FILE_NUM: usize = 128;

/// Most page types.
pub const MAX_TYPE_NUM: usize = 256;

/// Most pages held by the page cache.
pub const CAP: usize = 60000;

/// Modulus of the page cache's hash.
pub const MOD: usize = 60000;

} // verus!
