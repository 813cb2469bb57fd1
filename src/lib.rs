//! Value interning: each distinct byte sequence or string is stored once and
//! handed out as a small handle that compares by identity.

pub mod arena;
pub mod copying;
pub mod index;
pub mod nocopy;
pub mod string_copy;
pub mod string_nocopy;
