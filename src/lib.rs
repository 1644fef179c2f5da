//! Bring-up layer of a freestanding kernel: the trap table, the physical
//! frame allocator and the four-level page-table mapper, modelled over plain
//! values so that their behaviour can be stated and proved.

pub mod frame;
pub mod interrupts;
pub mod mapper;
pub mod paging;
