//! Cache busting for static assets.
//!
//! Browsers cache static files aggressively; renaming a file whenever its
//! content changes forces a fresh fetch. This crate computes a content hash
//! for each qualifying file under a source tree, plans a copy of the file
//! into a result tree under the name `{stem}.{HASH}.{extension}`, and builds
//! a lookup table from original paths to fingerprinted paths. A runtime
//! component loads a previously produced table and answers path lookups.
//!
//! The crate itself performs no I/O: callers hand it the walked directory
//! entries (paths and file contents) and carry out the planned directory
//! creations and copies afterwards.

use vstd::prelude::*;

pub mod codec;
pub mod filemap;
pub use filemap::Files;
pub use processor::Buster;
pub use processor::NoHashCategory;
pub mod hashing;
pub mod map;
pub mod media;
pub mod paths;
pub mod processor;

verus! {

} // verus!
