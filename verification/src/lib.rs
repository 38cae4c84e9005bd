//! A protocol-version-aware TCP reverse proxy core for a family of voxel game
//! clients whose handshake wire format changed incompatibly across several
//! generations.  This crate holds the verified logic: the wire codecs, the
//! handshake classifier, and the byte-exact plan of what must reach the
//! backend.  Listening, routing-table lookup and the live byte copy are plain
//! I/O and live outside the library.

pub mod classify;
pub mod codec;
pub mod splice;
pub mod tag;
