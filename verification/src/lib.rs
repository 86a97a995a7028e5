//! A string-interning facility: a canonical, reference-counted handle
//! (`Symbol`) for string content, backed by an explicit interning pool
//! (`SymbolPool`), together with an insertion-ordered map keyed by such
//! handles (`SymbolMap`).
//!
//! Interning maps every string value to one shared entry, so equality of
//! handles is one address comparison and a handle costs one machine
//! word.  The pool canonicalizes content and counts references; the map
//! exploits the handle's cheap identity, scanning while small and
//! keeping a secondary index once it grows.

pub mod layout;
pub mod map;
pub mod pool;

pub use layout::entry_size;
pub use layout::payload_offset;
pub use map::Iter;
pub use map::Keys;
pub use map::SymbolMap;
pub use map::Values;
pub use pool::Symbol;
pub use pool::SymbolPool;
