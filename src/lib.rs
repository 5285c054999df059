//! The memory core of a kernel for 64-bit RISC-V with Sv39 paging: bit fields, typed
//! virtual and physical addresses, page-table entries and the three-level page-table walker,
//! the address-space object, and a buddy-system heap.

pub mod bit_field;
pub mod address;
pub mod page_table;
pub mod heap;
pub mod paging;
pub mod satp;
