//! Content-addressed blobs, their descriptors, and layer encoding.
//!
//! A blob is finished in memory: its descriptor's digest is the SHA-256 of
//! exactly the bytes held, so nothing with a mismatched name can ever be
//! published. Persisting the bytes under `blobs/sha256/<hex>` is the
//! caller's I/O.

use vstd::prelude::*;
use vstd::string::StringSliceAdditionalSpecFns;
use vstd::string::StrSliceExecFns;
use crate::compress::gunzip_of;
use crate::compress::gzip_compress;
use crate::compress::unzstd_of;
use crate::compress::zstd_compress;
use crate::config::Compression;
use crate::config::GlobalConfig;
use crate::digest::digest_ref_of;
use crate::digest::digest_ref_from_hex;
use crate::digest::hex_of;
use crate::digest::sha256_hex;
use crate::digest::sha256_of;
use crate::errors::BuildError;
use crate::json::dec_of;
use crate::json::ser_str;
use crate::json::write_dec;
use crate::json::write_str;

verus! {

/// Media type of a layer blob under the given compression.
pub open spec fn spec_layer_media_type(c: Compression) -> Seq<u8> {
    match c {
        Compression::Gzip => ("application/vnd.oci.image.layer.v1.tar+gzip").spec_bytes(),
        Compression::Zstd => ("application/vnd.oci.image.layer.v1.tar+zstd").spec_bytes(),
        Compression::Disabled => ("application/vnd.oci.image.layer.v1.tar").spec_bytes(),
    }
}

/// Media type of a layer blob under the given compression.
pub fn layer_media_type(c: Compression) -> (r: Vec<u8>)
    ensures
        r@ == spec_layer_media_type(c),
{
    match c {
        Compression::Gzip => ("application/vnd.oci.image.layer.v1.tar+gzip").as_bytes_vec(),
        Compression::Zstd => ("application/vnd.oci.image.layer.v1.tar+zstd").as_bytes_vec(),
        Compression::Disabled => ("application/vnd.oci.image.layer.v1.tar").as_bytes_vec(),
    }
}

/// Media type of an image config blob.
pub open spec fn spec_config_media_type() -> Seq<u8> {
    ("application/vnd.oci.image.config.v1+json").spec_bytes()
}

/// Media type of an image config blob.
pub fn config_media_type() -> (r: Vec<u8>)
    ensures
        r@ == spec_config_media_type(),
{
    ("application/vnd.oci.image.config.v1+json").as_bytes_vec()
}

/// Media type of an image manifest blob.
pub open spec fn spec_manifest_media_type() -> Seq<u8> {
    ("application/vnd.oci.image.manifest.v1+json").spec_bytes()
}

/// Media type of an image manifest blob.
pub fn manifest_media_type() -> (r: Vec<u8>)
    ensures
        r@ == spec_manifest_media_type(),
{
    ("application/vnd.oci.image.manifest.v1+json").as_bytes_vec()
}

/// Describes one blob: its optional media type, byte length, digest
/// reference, and — on index entries — platform and annotations.
#[derive(Debug)]
pub struct BlobDescriptor {
    pub media_type: Option<Vec<u8>>,
    pub size: u64,
    pub digest: Vec<u8>,
    /// Serialized JSON of the platform object, when this descriptor sits
    /// in an index.
    pub platform: Option<Vec<u8>>,
    /// Serialized JSON of the annotations object, when present.
    pub annotations: Option<Vec<u8>>,
}

/// Ghost view of a descriptor.
pub struct DescriptorV {
    pub media_type: Option<Seq<u8>>,
    pub size: u64,
    pub digest: Seq<u8>,
    pub platform: Option<Seq<u8>>,
    pub annotations: Option<Seq<u8>>,
}

/// View of an optional byte vector.
pub open spec fn opt_bytes_view(o: Option<Vec<u8>>) -> Option<Seq<u8>> {
    match o {
        Some(v) => Some(v@),
        None => None,
    }
}

impl View for BlobDescriptor {
    type V = DescriptorV;

    open spec fn view(&self) -> DescriptorV {
        DescriptorV {
            media_type: opt_bytes_view(self.media_type),
            size: self.size,
            digest: self.digest@,
            platform: opt_bytes_view(self.platform),
            annotations: opt_bytes_view(self.annotations),
        }
    }
}

/// Views of a descriptor list.
pub open spec fn descs_view(s: Seq<BlobDescriptor>) -> Seq<DescriptorV> {
    Seq::new(s.len(), |i: int| s[i]@)
}

/// The serialized JSON of a descriptor: its present members with keys in
/// sorted order.
pub open spec fn spec_descriptor_json(d: DescriptorV) -> Seq<u8> {
    seq![123u8] + (match d.annotations {
        Some(a) => ser_str(("annotations").spec_bytes()) + seq![58u8] + a + seq![44u8],
        None => Seq::<u8>::empty(),
    }) + ser_str(("digest").spec_bytes()) + seq![58u8] + ser_str(d.digest) + seq![44u8] + (
    match d.media_type {
        Some(m) => ser_str(("mediaType").spec_bytes()) + seq![58u8] + ser_str(m) + seq![44u8],
        None => Seq::<u8>::empty(),
    }) + (match d.platform {
        Some(p) => ser_str(("platform").spec_bytes()) + seq![58u8] + p + seq![44u8],
        None => Seq::<u8>::empty(),
    }) + ser_str(("size").spec_bytes()) + seq![58u8] + dec_of(d.size as int) + seq![125u8]
}

impl BlobDescriptor {
    /// Serializes the descriptor, keys sorted, absent members omitted.
    #[verifier::rlimit(60)]
    pub fn to_json(&self) -> (r: Vec<u8>)
        ensures
            r@ == spec_descriptor_json(self@),
    {
        let mut out: Vec<u8> = Vec::new();
        out.push(123);
        match &self.annotations {
            Some(a) => {
                write_str("annotations".as_bytes(), &mut out);
                out.push(58);
                crate::bytesutil::push_all(&mut out, a.as_slice());
                out.push(44);
            },
            None => {},
        }
        write_str("digest".as_bytes(), &mut out);
        out.push(58);
        write_str(self.digest.as_slice(), &mut out);
        out.push(44);
        match &self.media_type {
            Some(m) => {
                write_str("mediaType".as_bytes(), &mut out);
                out.push(58);
                write_str(m.as_slice(), &mut out);
                out.push(44);
            },
            None => {},
        }
        match &self.platform {
            Some(p) => {
                write_str("platform".as_bytes(), &mut out);
                out.push(58);
                crate::bytesutil::push_all(&mut out, p.as_slice());
                out.push(44);
            },
            None => {},
        }
        write_str("size".as_bytes(), &mut out);
        out.push(58);
        write_dec(self.size, &mut out);
        out.push(125);
        proof {
            assert(out@ =~= spec_descriptor_json(self@));
        }
        out
    }
}

/// A finished blob: the exact bytes to persist and their descriptor.
#[derive(Debug)]
pub struct Blob {
    /// The blob's bytes.
    pub bytes: Vec<u8>,
    /// Lowercase hex of the SHA-256 of `bytes`; names the file under
    /// `blobs/sha256/`.
    pub hex: Vec<u8>,
    /// Descriptor whose size and digest match `bytes`.
    pub descriptor: BlobDescriptor,
}

/// A blob's descriptor agrees with its bytes: the size is the byte count
/// and the digest names the content's SHA-256.
pub open spec fn blob_ok(b: Blob) -> bool {
    &&& b.hex@ == hex_of(sha256_of(b.bytes@))
    &&& b.descriptor.digest@ == digest_ref_of(b.bytes@)
    &&& b.descriptor.size == b.bytes@.len()
    &&& b.descriptor.platform is None
    &&& b.descriptor.annotations is None
}

/// Finishes a blob from bytes: hashes them and fills the descriptor.
pub fn blob_from_bytes(media_type: Option<Vec<u8>>, data: Vec<u8>) -> (b: Blob)
    ensures
        blob_ok(b),
        b.bytes@ == data@,
        b.descriptor.media_type == media_type,
{
    let hex = sha256_hex(data.as_slice());
    let digest = digest_ref_from_hex(hex.as_slice());
    let size = data.len() as u64;
    Blob {
        bytes: data,
        hex,
        descriptor: BlobDescriptor {
            media_type,
            size,
            digest,
            platform: None,
            annotations: None,
        },
    }
}

/// What decoding a layer blob yields under the given compression.
pub open spec fn spec_decode(c: Compression, bytes: Seq<u8>) -> Seq<u8> {
    match c {
        Compression::Gzip => gunzip_of(bytes),
        Compression::Zstd => unzstd_of(bytes),
        Compression::Disabled => bytes,
    }
}

/// A freshly encoded layer: its blob and the diff-id of the tar inside.
#[derive(Debug)]
pub struct EncodedLayer {
    pub blob: Blob,
    /// `sha256:<hex>` of the uncompressed tar bytes.
    pub diff_id: Vec<u8>,
}

/// Compresses a tar stream per the configuration, hashing both the tar
/// (the diff-id) and the compressed output (the blob digest) — so
/// decoding the blob always leads back to bytes with the declared
/// diff-id.
pub fn encode_layer(tar: &[u8], config: &GlobalConfig) -> (r: Result<EncodedLayer, BuildError>)
    ensures
        r matches Ok(e) ==> {
            &&& blob_ok(e.blob)
            &&& e.diff_id@ == digest_ref_of(tar@)
            &&& spec_decode(config.compression, e.blob.bytes@) == tar@
            &&& e.blob.descriptor.media_type matches Some(m) && m@ == spec_layer_media_type(
                config.compression,
            )
            &&& (config.compression is Disabled ==> e.blob.bytes@ == tar@)
        },
        config.compression is Disabled ==> r is Ok,
{
    let diff_hex = sha256_hex(tar);
    let diff_id = digest_ref_from_hex(diff_hex.as_slice());
    let media = layer_media_type(config.compression);
    let threads: u32 = if config.compression_threads > u32::MAX as usize {
        u32::MAX
    } else {
        config.compression_threads as u32
    };
    let compressed: Vec<u8> = match config.compression {
        Compression::Gzip => {
            let lv = match config.compression_level {
                Some(l) => if l > 9 {
                    9
                } else {
                    l
                },
                None => 5,
            };
            match gzip_compress(tar, lv) {
                Ok(c) => c,
                Err(e) => {
                    return Err(e);
                },
            }
        },
        Compression::Zstd => {
            let lv: i32 = match config.compression_level {
                Some(l) => if l > 2147483647 {
                    2147483647
                } else {
                    l as i32
                },
                None => 1,
            };
            match zstd_compress(tar, lv, threads) {
                Ok(c) => c,
                Err(e) => {
                    return Err(e);
                },
            }
        },
        Compression::Disabled => crate::bytesutil::clone_slice(tar),
    };
    let blob = blob_from_bytes(Some(media), compressed);
    Ok(EncodedLayer { blob, diff_id })
}


/// Copies a descriptor.
pub fn clone_descriptor(d: &BlobDescriptor) -> (r: BlobDescriptor)
    ensures
        r@ == d@,
{
    BlobDescriptor {
        media_type: match &d.media_type {
            Some(m) => Some(crate::bytesutil::clone_bytes(m)),
            None => None,
        },
        size: d.size,
        digest: crate::bytesutil::clone_bytes(&d.digest),
        platform: match &d.platform {
            Some(p) => Some(crate::bytesutil::clone_bytes(p)),
            None => None,
        },
        annotations: match &d.annotations {
            Some(a) => Some(crate::bytesutil::clone_bytes(a)),
            None => None,
        },
    }
}


/// Reproducibility of stored bytes with compression off: the blob is
/// the tar itself, so two encodings of one tar stream hold byte-identical
/// blobs with equal digests and diff-ids. A compressed blob is pinned
/// only up to decoding.
pub proof fn lemma_encode_reproducible(
    a: EncodedLayer,
    b: EncodedLayer,
    tar: Seq<u8>,
    c: Compression,
)
    requires
        c is Disabled,
        blob_ok(a.blob),
        a.blob.bytes@ == tar,
        a.diff_id@ == digest_ref_of(tar),
        blob_ok(b.blob),
        b.blob.bytes@ == tar,
        b.diff_id@ == digest_ref_of(tar),
    ensures
        a.blob.bytes@ == b.blob.bytes@,
        a.blob.hex@ == b.blob.hex@,
        a.blob.descriptor.digest@ == b.blob.descriptor.digest@,
        a.blob.descriptor.size == b.blob.descriptor.size,
        a.diff_id@ == b.diff_id@,
{
}

} // verus!
