//! A disk-style B+Tree index over fixed-size pages.
//!
//! Keys and values are opaque byte strings.  Every page of the tree is a
//! plain byte buffer held by a [`buffer::BufferPoolManager`]; the modules
//! below give those bytes their meaning and prove that search, ordered
//! iteration and insertion with node splitting agree with a sorted
//! sequence of key/value pairs.

pub mod disk;
pub mod bytes;
pub mod order;
pub mod slotted;
pub mod buffer;
pub mod btree;
