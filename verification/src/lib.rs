//! A slag-based size-class memory allocator core, verified.
//!
//! The allocator carves page-aligned slabs from a single large reserved
//! region (the creek), subdivides each slab into fixed-size objects of one
//! size class, caches hot objects in a per-handle front-end magazine, and
//! routes requests larger than the largest class to a direct-mapped large
//! path. The whole address-space state is held as explicit data, so every
//! allocation, free and realloc is verified against a byte-accurate model
//! of the blocks it hands out.
//!
//! - [`layout`] holds the size-class arithmetic: the tiered map from a
//!   request to its class, per-class capacities, and alignment
//!   guarantees.
//! - [`slag`] holds the per-slab bookkeeping: which object slots are
//!   free, held by a caller, or cached in a magazine.
//! - [`general`] holds the allocator itself: the page allocator over the
//!   creek, each class's pipe of partial slabs, the magazines, the large
//!   path, and the public `allocate` / `free` / `realloc` interface.
//! - [`global`] models the process-wide entry points: the cached-handle
//!   fast path, the recursive-initialization guard, and the queue of
//!   frees deferred to the reclaimer.
//! - [`mmap_alloc`] configures the virtual-memory layer: permission
//!   words, page rounding, and the retry plan for mappings at address
//!   zero.
//! - [`laws`] states the properties that tie the operations together.

pub mod general;
pub mod global;
pub mod laws;
pub mod layout;
pub mod mmap_alloc;
pub mod slag;
