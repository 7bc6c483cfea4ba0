//! Building blocks for property-based test generators: a random byte
//! sequence generator with a geometric length distribution, a uniform
//! shuffle, combinators that shrink one field of a composite value, and a
//! wrapper that switches shrinking off.
use vstd::prelude::*;

pub mod gen_bytes;
pub mod random;
pub mod shrink_field;
pub mod shuffle;
pub mod unshrinkable;

pub use gen_bytes::{continues, gen_bytes, non_stop_symbols, LenBound};
pub use shrink_field::{
    rebuild_keyed_map, shrink_a_field, shrink_a_map_field, shrink_field, shrink_map_field,
};
pub use shuffle::shuffle;
pub use unshrinkable::Unshrinkable;
