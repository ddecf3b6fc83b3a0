//! A fixed-capacity memory allocator: a buddy engine for the bulk of a
//! region and a pool of 64-byte slots in front of it. Both keep their books
//! in the regions that they manage.
pub mod arith;
pub mod bits;
pub mod buddy_alloc;
pub mod fast_alloc;
pub mod freelist_alloc;
pub mod non_threadsafe_alloc;
pub mod region;
pub mod wrapped_alloc;

pub use crate::buddy_alloc::{BuddyAlloc, BuddyAllocParam};
pub use crate::fast_alloc::{FastAlloc, FastAllocParam};
pub use crate::freelist_alloc::{FreelistAlloc, FreelistAllocParam};
pub use crate::non_threadsafe_alloc::NonThreadsafeAlloc;
