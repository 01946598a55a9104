//! Error taxonomy: every failure a library operation can report.

use vstd::prelude::*;

verus! {

/// Why a build step failed. Input errors name the malformed piece of the
/// image description or of a consumed layout; archive errors cover malformed
/// tars and codec failures; consistency errors cover impossible states.
#[derive(Debug, Clone, Copy, PartialEq, Eq, Structural)]
pub enum BuildError {
    /// A manifest descriptor lacks `digest`.
    MissingDigest,
    /// A digest reference is not of the form `algorithm:hash`.
    BadDigestFormat,
    /// A layer descriptor lacks `mediaType`.
    MissingMediaType,
    /// An image manifest lacks its `layers` array.
    MissingLayers,
    /// An image config lacks `rootfs.diff_ids`.
    MissingDiffIds,
    /// A `rootfs.diff_ids` element is not a string.
    BadDiffId,
    /// `rootfs.diff_ids` and `layers` disagree in length.
    LayerCountMismatch,
    /// An image description lacks a required field.
    MissingImageField,
    /// A tar stream could not be parsed.
    Archive,
    /// Compression or decompression failed.
    Codec,
    /// The compression name is not `gzip`, `zstd` or `disabled`.
    BadCompression,
    /// The `created` timestamp does not fit the four-digit-year rendering.
    TimeOutOfRange,
    /// A planned entry cannot be rendered: its link target outgrows the
    /// header field, or a record outgrows the machine.
    EntryTooLarge,
}

} // verus!
