//! Physical page-frame allocator of a small kernel, with the byte encoding of
//! its diagnostic report.
pub mod page;
pub mod uart;
