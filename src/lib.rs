//! Small allocators for single-address-space targets: bump allocators that
//! carve memory out of a linear arena, and bucket allocators that hand out
//! fixed-size slots tracked by occupancy bitmaps.
//!
//! Addresses are plain `usize` values. The library decides where every
//! allocation goes; the memory itself belongs to whoever registers the
//! allocator.
pub mod aggregate;
pub mod arena;
pub mod bitmap;
pub mod bucket;
pub mod bump;
pub mod head;
pub mod layout;
pub mod schema;
pub mod wasm;

pub use bump::{BumpAllocator, SliceBumpAllocator};
pub use wasm::WasmBumpAllocator;
