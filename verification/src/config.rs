//! Build-wide configuration: compression variant and resource settings.

use vstd::prelude::*;
use crate::errors::BuildError;
use crate::bytesutil::bytes_eq;

verus! {

/// How layer blobs are compressed.
#[derive(Debug, Clone, Copy, PartialEq, Eq, Hash, Structural)]
pub enum Compression {
    Gzip,
    Zstd,
    Disabled,
}

/// One invocation's settings, fixed before any image is built.
#[derive(Debug, Clone)]
pub struct GlobalConfig {
    pub compression: Compression,
    pub compression_level: Option<u32>,
    pub output: String,
    pub workers: usize,
    pub compression_threads: usize,
    pub skip_xattrs: bool,
    pub prefetch_limit_mb: usize,
}

/// The level used when the input names none: 5 for gzip, 1 for zstd,
/// nothing when compression is off.
pub fn default_compression_level(c: Compression) -> (r: Option<u32>)
    ensures
        c is Gzip ==> r == Some(5u32),
        c is Zstd ==> r == Some(1u32),
        c is Disabled ==> r is None,
{
    match c {
        Compression::Gzip => Some(5),
        Compression::Zstd => Some(1),
        Compression::Disabled => None,
    }
}

/// Per-image compression thread count: when several images run at once,
/// each gets `workers` divided by the image count, at least one.
pub fn compression_threads_for(workers: usize, num_images: usize) -> (r: usize)
    ensures
        num_images > 1 ==> r == if workers / num_images > 1 {
            workers / num_images
        } else {
            1usize
        },
        num_images <= 1 ==> r == workers,
{
    if num_images > 1 {
        let per = workers / num_images;
        if per > 1 {
            per
        } else {
            1
        }
    } else {
        workers
    }
}

/// The bytes of `gzip`.
pub open spec fn spec_name_gzip() -> Seq<u8> {
    seq![103u8, 122u8, 105u8, 112u8]
}

/// The bytes of `zstd`.
pub open spec fn spec_name_zstd() -> Seq<u8> {
    seq![122u8, 115u8, 116u8, 100u8]
}

/// The bytes of `disabled`.
pub open spec fn spec_name_disabled() -> Seq<u8> {
    seq![100u8, 105u8, 115u8, 97u8, 98u8, 108u8, 101u8, 100u8]
}

/// Reads a compression name: `gzip`, `zstd` or `disabled`; anything else
/// is rejected.
pub fn parse_compression(name: &[u8]) -> (r: Result<Compression, BuildError>)
    ensures
        r == if name@ == spec_name_gzip() {
            Ok::<Compression, BuildError>(Compression::Gzip)
        } else if name@ == spec_name_zstd() {
            Ok::<Compression, BuildError>(Compression::Zstd)
        } else if name@ == spec_name_disabled() {
            Ok::<Compression, BuildError>(Compression::Disabled)
        } else {
            Err::<Compression, BuildError>(BuildError::BadCompression)
        },
{
    let mut gz: Vec<u8> = Vec::new();
    gz.push(103);
    gz.push(122);
    gz.push(105);
    gz.push(112);
    proof {
        assert(gz@ =~= spec_name_gzip());
    }
    if bytes_eq(name, gz.as_slice()) {
        return Ok(Compression::Gzip);
    }
    let mut zs: Vec<u8> = Vec::new();
    zs.push(122);
    zs.push(115);
    zs.push(116);
    zs.push(100);
    proof {
        assert(zs@ =~= spec_name_zstd());
    }
    if bytes_eq(name, zs.as_slice()) {
        return Ok(Compression::Zstd);
    }
    let mut di: Vec<u8> = Vec::new();
    di.push(100);
    di.push(105);
    di.push(115);
    di.push(97);
    di.push(98);
    di.push(108);
    di.push(101);
    di.push(100);
    proof {
        assert(di@ =~= spec_name_disabled());
    }
    if bytes_eq(name, di.as_slice()) {
        return Ok(Compression::Disabled);
    }
    Err(BuildError::BadCompression)
}

} // verus!
