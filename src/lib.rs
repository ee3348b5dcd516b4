//! Static detection of blocking calls made while a lock guard is held, and the editor-side
//! indexing of its results.
pub mod analysis;
pub mod lsp;
pub mod utils;
