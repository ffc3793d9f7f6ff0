//! An arena allocator, light and fast, with its placement rules proved.
//!
//! This crate provides:
//! - [`Arena`], a downwards bump allocator on a list of heap-allocated chunks.
//! - [`boxed::Box`] and [`rc::Rc`] as wrappers of an allocation: the first drops its value, the
//!   second shares it and may outlive the arena.
//! - [`vec::Vec`] as a growable array that lives inside an arena.
//! - [`ArenaPool`] for arenas that wait to be used again.
//!
//! An arena gives out addresses of blocks in its chunks, and keeps the bytes of these. A handle
//! ([`slot::Slot`], [`boxed::Box`], [`rc::Rc`], [`vec::Vec`]) has the address of its block and its
//! value. Blocks never share a byte, are aligned as asked, and stay where they are until they are
//! given back: see [`raw::lemma_allocated`] and the proofs in [`laws`] and [`placement`]. A reset
//! gives back all blocks but those in a chunk that a reference counted handle holds: these are not
//! handed out again before the handle is given back.
//!
//! What an arena changes, it changes through an exclusive reference. So a growing array takes the
//! arena it lives in, and a reference counted handle is given back to it. No type has a
//! destructor of its own: what is to happen at the end of a value is a call, such as
//! [`Arena::into_left_over`], [`rc::Rc::drop_in`] or [`vec::drain::Drain::finish`].
pub mod align;
pub mod arena;
pub mod boxed;
pub mod chunk;
pub mod error;
pub mod heap;
pub mod laws;
pub mod layout;
pub mod live;
pub mod placement;
pub mod pool;
pub mod raw;
pub mod rc;
pub mod slot;
pub mod stack;
pub mod vec;

pub use arena::Arena;
pub use pool::{ArenaPool, ArenaPoolGuard};
