//! Physical and virtual memory management.
pub mod addr;
pub mod bitmap;
pub mod paging;
pub mod pmm;
pub mod hhdm;
pub mod vmm;
pub mod heap;
pub mod kstack;
pub mod mmio;
