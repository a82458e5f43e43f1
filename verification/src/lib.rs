//! A Robin Hood hash table with backward-shift deletion, verified against a
//! map model.

pub mod key;
pub mod slots;
pub mod table;
pub mod laws;

pub use key::DominusKey;
pub use slots::Entry;
pub use table::{Dominus, DominusError};
