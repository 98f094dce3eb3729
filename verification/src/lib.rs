//! Verified core of a small RISC-V kernel: Sv39-family paging structures, the `rfs`
//! block filesystem, the kernel heap and frame pool, and the kernel's decisions on
//! traps and system calls, with the pure helpers they build on.

use vstd::prelude::*;

pub mod utils;
pub mod geometry;
pub mod addr;
pub mod pte;
pub mod satp;
pub mod scheme;
pub mod sv39;
pub mod table;
pub mod frames;
pub mod access;
pub mod mapper;
pub mod blockdev;
pub mod layout;
pub mod cache;
pub mod bitmap;
pub mod fs;
pub mod dir;
pub mod file;
pub mod kernel;
pub mod trap;
pub mod heap;
