//! Construction of OCI image layouts: content-addressed blobs, layer tars in
//! canonical order with whiteouts and deduplication against parent layers,
//! per-image config and manifest objects, and the top-level index.
//!
//! Everything that decides or computes lives here, verified; reading and
//! writing the filesystem is left to the surrounding binary.

pub mod compress;
pub mod digest;
pub mod assoc;
pub mod blob;
pub mod bytesutil;
pub mod config;
pub mod errors;
pub mod image;
pub mod json;
pub mod overlay;
pub mod scan;
pub mod tarfmt;
pub mod layer;

use vstd::prelude::*;

verus! {

} // verus!
