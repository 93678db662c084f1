//! Verified core of a bare-metal asteroid-field game: the pseudo-random
//! generator, the pixel compositor, the per-frame control decisions, the
//! bookkeeping of projectile and asteroid collisions, and the block layout
//! of the pool allocator.
pub mod blitter;
pub mod collisions;
pub mod game;
pub mod rand;
pub mod uefi_alloc;
