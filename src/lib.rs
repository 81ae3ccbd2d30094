//! Batch preprocessing for bit-parallel edit distance: a batch view over
//! borrowed byte strings, the longest-length oracle, the arena that holds every
//! table a distance kernel consumes, and the builder that fills those tables.

use vstd::prelude::*;

pub mod arena;
pub mod bits;
pub mod layout;
pub mod len;
pub mod slice_str;
pub mod speq;

