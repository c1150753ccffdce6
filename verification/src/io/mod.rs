//! Storage: aligned buffers and the file-system seam.
pub mod aligned_buf;
pub mod linux_vfs;
pub mod direct;
pub mod mmap;
pub mod read_only;
pub mod uring;
pub mod vfs;
