//! A small verified heap engine for environments without an
//! operating-system heap.
//!
//! The crate manages one fixed, contiguous memory region and serves
//! allocation and deallocation requests over it, merging adjacent free
//! blocks to limit fragmentation.  The engine keeps only the bookkeeping
//! (block offsets, sizes and free flags); the bytes themselves belong to
//! the caller, who ties an [`heap::Allocator`] to a concrete region by
//! giving its base address and total size at initialization.
//!
//! The engine is synchronous and single-threaded: callers that share an
//! allocator across threads must serialize every call themselves.

pub mod heap;
