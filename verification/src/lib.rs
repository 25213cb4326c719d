//! A particle buffer manager for real-time rendering.
//!
//! Newly spawned particles are queued and, on each render tick, drained into
//! a ring of fixed-capacity buffers. Each buffer caches the latest expiry
//! instant of the particles written into it, so that buffers holding only
//! expired particles can be skipped at draw time. The manager emits buffer
//! update and draw commands as plain data; executing them against a graphics
//! device is the caller's concern.
//!
//! Time is measured in integer ticks; the per-particle kinematic and visual
//! attributes are carried as opaque 32-bit encodings that only the rendering
//! stage interprets.

pub mod laws;
pub mod particle;
pub mod system;

pub use particle::Particle;
pub use system::Command;
pub use system::ParticleSystem;
