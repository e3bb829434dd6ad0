use vstd::prelude::*;
use crate::config::{PAGE_SIZE, PAGE_SIZE_BITS};

verus! {

/// Permission bit: readable.
pub const PERM_R: u8 = 2;
/// Permission bit: writable.
pub const PERM_W: u8 = 4;
/// Permission bit: executable.
pub const PERM_X: u8 = 8;
/// Permission bit: accessible from user mode.
pub const PERM_U: u8 = 16;
/// Page-table entry bit: valid.
pub const PTE_V: u8 = 1;

/// Virtual page number that contains the address `va`.
pub open spec fn vpn_of(va: int) -> int {
    va / PAGE_SIZE as int
}

/// Whether `va` is the first address of a page.
pub open spec fn is_aligned(va: int) -> bool {
    va % PAGE_SIZE as int == 0
}

/// Number of the first page that does not start below `va`.
pub open spec fn vpn_ceil(va: int) -> int {
    (va + PAGE_SIZE - 1) / PAGE_SIZE as int
}

/// Whether `va` is the first address of a page.
pub fn aligned(va: usize) -> (r: bool)
    ensures
        r == is_aligned(va as int),
{
    va % PAGE_SIZE == 0
}

/// The page that holds `va`.
pub fn floor(va: usize) -> (r: usize)
    ensures
        r as int == vpn_of(va as int),
{
    assert((va >> PAGE_SIZE_BITS) == va / 4096) by (bit_vector);
    va >> PAGE_SIZE_BITS
}

/// The first page that does not start below `va`.
pub fn ceil(va: usize) -> (r: usize)
    ensures
        r as int == vpn_ceil(va as int),
{
    if va == 0 {
        0
    } else {
        (va - 1) / PAGE_SIZE + 1
    }
}

/// The address at which page `vpn` starts.
pub open spec fn page_start(vpn: int) -> int {
    vpn * PAGE_SIZE as int
}

} // verus!
