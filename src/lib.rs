//! Core of a small x86-64 kernel: the text console, the physical frame
//! allocator, the four-level page-table walker and mapper, the interrupt
//! vector table and the chained interrupt controllers' acknowledgement rules.
pub mod console;
pub mod frame_alloc;
pub mod interrupts;
pub mod paging;
