//! A Robin Hood hash map: open addressing with displacement-bounded probing
//! and backward-shift deletion, verified against a `Map<usize, V>` model.

pub mod fx_build_hasher;
pub mod hashmap;
pub mod lemmas;
pub mod map_entry;
