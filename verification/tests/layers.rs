use ocibuild::blob::EncodedLayer;
use ocibuild::config::{Compression, GlobalConfig};
use ocibuild::image::{
    build_image, build_images, check_layer_counts, config_diff_ids, manifest_config_digest,
    manifest_layers, reencode_layer, ImageDesc,
};
use ocibuild::errors::BuildError;
use ocibuild::json::JsonValue;
use ocibuild::layer::build_layer;
use ocibuild::scan::{build_layer_data, CachedMetadata, EntryKind, RecKind, ScanRecord};
use sha2::Digest;
use std::io::Read;

fn sref(data: &[u8]) -> String {
    format!("sha256:{}", String::from_utf8(ocibuild::digest::to_hex(sha2::Sha256::digest(data).as_slice())).unwrap())
}

fn conf(c: Compression) -> GlobalConfig {
    GlobalConfig {
        compression: c,
        compression_level: match c {
            Compression::Gzip => Some(5),
            Compression::Zstd => Some(1),
            Compression::Disabled => None,
        },
        output: String::new(),
        workers: 1,
        compression_threads: 1,
        skip_xattrs: false,
        prefetch_limit_mb: 512,
    }
}

fn root_meta() -> CachedMetadata {
    CachedMetadata { mode: 0o40755, uid: 0, gid: 0, mtime: 10, size: 0 }
}

fn rec(path: &[u8], kind: RecKind) -> ScanRecord {
    ScanRecord {
        rel_path: path.to_vec(),
        kind,
        target: None,
        mode: 0o644,
        uid: 0,
        gid: 0,
        mtime: 10,
        size: 0,
        dev: 1,
        ino: 1,
        xattrs: Vec::new(),
        contents: Vec::new(),
    }
}

fn file_rec(path: &[u8], contents: &[u8], ino: u64) -> ScanRecord {
    let mut r = rec(path, RecKind::File);
    r.contents = contents.to_vec();
    r.size = contents.len() as u64;
    r.ino = ino;
    r
}

/// Parsed form of one tar member: name, type byte, size, link name, and
/// the checksum PAX record if any.
fn parse_tar(bytes: &[u8]) -> Vec<(Vec<u8>, u8, u64, Option<Vec<u8>>, Option<Vec<u8>>)> {
    let mut ar = tar::Archive::new(bytes);
    let mut out = Vec::new();
    for e in ar.entries().unwrap() {
        let mut e = e.unwrap();
        let ck = match e.pax_extensions().unwrap() {
            Some(x) => x
                .flatten()
                .find(|p| p.key_bytes() == b"freedesktopsdk.checksum.sha256")
                .map(|p| p.value_bytes().to_vec()),
            None => None,
        };
        out.push((
            e.path_bytes().to_vec(),
            e.header().entry_type().as_byte(),
            e.header().size().unwrap(),
            e.link_name_bytes().map(|c| c.to_vec()),
            ck,
        ));
    }
    out
}

fn build(records: Vec<ScanRecord>, lowers: Vec<Vec<u8>>, c: Compression) -> EncodedLayer {
    build_layer(&records, root_meta(), &lowers, &conf(c), Some(5)).unwrap()
}

#[test]
fn single_file_layer() {
    let e = build(vec![file_rec(b"hello.txt", b"hi\n", 7)], vec![], Compression::Disabled);
    // no compression: the blob is the tar, and blob digest equals diff id
    assert_eq!(e.blob.descriptor.digest, e.diff_id);
    let items = parse_tar(&e.blob.bytes);
    assert_eq!(items.len(), 2);
    assert_eq!(items[0].0, b"./".to_vec());
    assert_eq!(items[0].1, b'5');
    assert_eq!(items[1].0, b"./hello.txt".to_vec());
    assert_eq!(items[1].1, b'0');
    assert_eq!(items[1].2, 3);
    assert_eq!(
        items[1].4.as_ref().unwrap(),
        &b"98ea6e4f216f2fb4b69fff9b3a44842c38686ca685f3f55dc48c5d3fb1107be4".to_vec()
    );
}

#[test]
fn diff_id_is_tar_hash() {
    let e = build(vec![file_rec(b"f", b"abc", 3)], vec![], Compression::Disabled);
    let expect = sref(&e.blob.bytes);
    assert_eq!(e.diff_id, expect.into_bytes());
}

#[test]
fn gzip_round_trip() {
    let e = build(vec![file_rec(b"f", b"payload", 3)], vec![], Compression::Gzip);
    let mut dec = flate2::read::GzDecoder::new(e.blob.bytes.as_slice());
    let mut tar = Vec::new();
    dec.read_to_end(&mut tar).unwrap();
    let expect = sref(&tar);
    assert_eq!(e.diff_id, expect.into_bytes());
    // blob digest names the compressed bytes
    let bd = sref(&e.blob.bytes);
    assert_eq!(e.blob.descriptor.digest, bd.into_bytes());
}

#[test]
fn zstd_round_trip() {
    let e = build(vec![file_rec(b"f", b"payload", 3)], vec![], Compression::Zstd);
    let tar = zstd::stream::decode_all(e.blob.bytes.as_slice()).unwrap();
    let expect = sref(&tar);
    assert_eq!(e.diff_id, expect.into_bytes());
}

#[test]
fn whiteout_for_deleted_file() {
    let run1 = build(
        vec![rec(b"a", RecKind::Dir), file_rec(b"a/x", b"gone", 9)],
        vec![],
        Compression::Disabled,
    );
    let run2 = build(vec![rec(b"a", RecKind::Dir)], vec![run1.blob.bytes], Compression::Disabled);
    let items = parse_tar(&run2.blob.bytes);
    let names: Vec<Vec<u8>> = items.iter().map(|i| i.0.clone()).collect();
    assert!(names.contains(&b"./a/.wh.x".to_vec()));
    assert!(!names.contains(&b"./a/x".to_vec()));
    let wh = items.iter().find(|i| i.0 == b"./a/.wh.x".to_vec()).unwrap();
    assert_eq!(wh.1, b'0');
    assert_eq!(wh.2, 0);
    // exactly one whiteout
    assert_eq!(names.iter().filter(|n| *n == &b"./a/.wh.x".to_vec()).count(), 1);
}

#[test]
fn dedup_skips_identical_file() {
    let upper = || vec![file_rec(b"tool", b"same-bytes", 4)];
    let run1 = build(upper(), vec![], Compression::Disabled);
    let run2 = build(upper(), vec![run1.blob.bytes], Compression::Disabled);
    let names: Vec<Vec<u8>> = parse_tar(&run2.blob.bytes).iter().map(|i| i.0.clone()).collect();
    assert!(names.contains(&b"./".to_vec()));
    assert!(!names.contains(&b"./tool".to_vec()));
}

#[test]
fn changed_file_not_skipped() {
    let run1 = build(vec![file_rec(b"tool", b"old", 4)], vec![], Compression::Disabled);
    let run2 = build(
        vec![file_rec(b"tool", b"new", 4)],
        vec![run1.blob.bytes],
        Compression::Disabled,
    );
    let names: Vec<Vec<u8>> = parse_tar(&run2.blob.bytes).iter().map(|i| i.0.clone()).collect();
    assert!(names.contains(&b"./tool".to_vec()));
}

#[test]
fn hardlink_canonical_path() {
    let records = vec![
        rec(b"bin", RecKind::Dir),
        file_rec(b"bin/a", b"X", 77),
        file_rec(b"bin/b", b"X", 77),
    ];
    let e = build(records, vec![], Compression::Disabled);
    let items = parse_tar(&e.blob.bytes);
    let a = items.iter().find(|i| i.0 == b"./bin/a".to_vec()).unwrap();
    let b = items.iter().find(|i| i.0 == b"./bin/b".to_vec()).unwrap();
    assert_eq!(a.1, b'0');
    assert_eq!(b.1, b'1');
    assert_eq!(b.3.as_ref().unwrap(), &b"./bin/a".to_vec());
}

#[test]
fn xattr_checksum_preferred() {
    let mut r = file_rec(b"big.bin", b"whatever bytes", 5);
    r.xattrs.push((b"user.checksum.sha256".to_vec(), b"deadbeef".to_vec()));
    let ld = build_layer_data(&vec![r]);
    match &ld.entries[0].1.kind {
        EntryKind::Regular { checksum, .. } => assert_eq!(checksum, &b"deadbeef".to_vec()),
        _ => panic!("expected a regular entry"),
    }
    // the diverted attribute is not kept as an ordinary xattr
    assert!(ld.entries[0].1.xattrs.is_empty());
    let mut r2 = file_rec(b"big.bin", b"whatever bytes", 5);
    r2.xattrs.push((b"user.checksum.sha256".to_vec(), b"deadbeef".to_vec()));
    let e = build(vec![r2], vec![], Compression::Disabled);
    let items = parse_tar(&e.blob.bytes);
    let f = items.iter().find(|i| i.0 == b"./big.bin".to_vec()).unwrap();
    assert_eq!(f.4.as_ref().unwrap(), &b"deadbeef".to_vec());
}

#[test]
fn plain_xattr_emitted() {
    let mut r = file_rec(b"f", b"d", 5);
    r.xattrs.push((b"user.color".to_vec(), b"blue".to_vec()));
    let e = build(vec![r], vec![], Compression::Disabled);
    let mut ar = tar::Archive::new(e.blob.bytes.as_slice());
    let mut found = false;
    for ent in ar.entries().unwrap() {
        let mut ent = ent.unwrap();
        if ent.path_bytes().as_ref() == b"./f" {
            if let Some(x) = ent.pax_extensions().unwrap() {
                for p in x.flatten() {
                    if p.key_bytes() == b"SCHILY.xattr.user.color" {
                        assert_eq!(p.value_bytes(), b"blue");
                        found = true;
                    }
                }
            }
        }
    }
    assert!(found);
}

#[test]
fn symlink_entry() {
    let mut r = rec(b"link", RecKind::Symlink);
    r.target = Some(b"/etc/hosts".to_vec());
    let e = build(vec![r], vec![], Compression::Disabled);
    let items = parse_tar(&e.blob.bytes);
    let l = items.iter().find(|i| i.0 == b"./link".to_vec()).unwrap();
    assert_eq!(l.1, b'2');
    assert_eq!(l.3.as_ref().unwrap(), &b"/etc/hosts".to_vec());
}

#[test]
fn source_date_epoch_applied() {
    let e = build(vec![file_rec(b"f", b"d", 3)], vec![], Compression::Disabled);
    let mut ar = tar::Archive::new(e.blob.bytes.as_slice());
    for ent in ar.entries().unwrap() {
        let ent = ent.unwrap();
        assert_eq!(ent.header().mtime().unwrap(), 5);
    }
}

#[test]
fn reproducible_layers() {
    let mk = || {
        build(
            vec![rec(b"d", RecKind::Dir), file_rec(b"d/f", b"data", 3)],
            vec![],
            Compression::Disabled,
        )
    };
    let a = mk();
    let b = mk();
    assert_eq!(a.blob.bytes, b.blob.bytes);
    assert_eq!(a.diff_id, b.diff_id);
}

#[test]
fn empty_image_zstd() {
    let desc = ImageDesc {
        architecture: b"amd64".to_vec(),
        os: b"linux".to_vec(),
        os_version: None,
        os_features: None,
        variant: None,
        author: Some(b"someone".to_vec()),
        comment: None,
        config: None,
        annotations: None,
        index_annotations: None,
    };
    let out = build_image(&desc, None, None, &conf(Compression::Zstd), 0, Some(0)).unwrap();
    assert!(out.layer.is_none());
    let cfg: serde_json::Value = serde_json::from_slice(&out.config_blob.bytes).unwrap();
    assert!(cfg["rootfs"]["diff_ids"].as_array().unwrap().is_empty());
    assert_eq!(cfg["rootfs"]["type"].as_str(), Some("layers"));
    assert_eq!(cfg["history"][0]["empty_layer"].as_bool(), Some(true));
    assert_eq!(cfg["history"][0]["author"].as_str(), Some("someone"));
    assert_eq!(cfg["created"].as_str(), Some("1970-01-01T00:00:00Z"));
    let man: serde_json::Value = serde_json::from_slice(&out.manifest_blob.bytes).unwrap();
    assert_eq!(man["schemaVersion"].as_u64(), Some(2));
    assert!(man["layers"].as_array().unwrap().is_empty());
    let expect = sref(&out.config_blob.bytes);
    assert_eq!(man["config"]["digest"].as_str(), Some(expect.as_str()));
    let (index, layout) = build_images(&vec![out.descriptor], &None);
    let idx: serde_json::Value = serde_json::from_slice(&index).unwrap();
    assert_eq!(idx["schemaVersion"].as_u64(), Some(2));
    let md = sref(&out.manifest_blob.bytes);
    assert_eq!(idx["manifests"][0]["digest"].as_str(), Some(md.as_str()));
    assert_eq!(idx["manifests"][0]["platform"]["os"].as_str(), Some("linux"));
    assert_eq!(idx["manifests"][0]["platform"]["architecture"].as_str(), Some("amd64"));
    let lay: serde_json::Value = serde_json::from_slice(&layout).unwrap();
    assert_eq!(lay["imageLayoutVersion"].as_str(), Some("1.0.0"));
}

#[test]
fn image_with_layer() {
    let desc = ImageDesc {
        architecture: b"amd64".to_vec(),
        os: b"linux".to_vec(),
        os_version: None,
        os_features: None,
        variant: None,
        author: None,
        comment: Some(b"step".to_vec()),
        config: None,
        annotations: None,
        index_annotations: None,
    };
    let upper = ocibuild::image::UpperInput {
        records: vec![file_rec(b"hello.txt", b"hi\n", 7)],
        root_meta: root_meta(),
    };
    let out = build_image(&desc, None, Some(&upper), &conf(Compression::Disabled), 0, Some(0))
        .unwrap();
    let layer = out.layer.as_ref().unwrap();
    let cfg: serde_json::Value = serde_json::from_slice(&out.config_blob.bytes).unwrap();
    let diff = String::from_utf8(layer.diff_id.clone()).unwrap();
    assert_eq!(cfg["rootfs"]["diff_ids"][0].as_str(), Some(diff.as_str()));
    assert!(cfg["history"][0].get("empty_layer").is_none());
    assert_eq!(cfg["history"][0]["comment"].as_str(), Some("step"));
    let man: serde_json::Value = serde_json::from_slice(&out.manifest_blob.bytes).unwrap();
    let bd = String::from_utf8(layer.blob.descriptor.digest.clone()).unwrap();
    assert_eq!(man["layers"][0]["digest"].as_str(), Some(bd.as_str()));
}

#[test]
fn reencode_keeps_content() {
    let e = build(vec![file_rec(b"f", b"data", 3)], vec![], Compression::Disabled);
    let tar = e.blob.bytes.clone();
    let b = reencode_layer(&tar, false, false, &conf(Compression::Gzip)).unwrap();
    let mut dec = flate2::read::GzDecoder::new(b.bytes.as_slice());
    let mut back = Vec::new();
    dec.read_to_end(&mut back).unwrap();
    assert_eq!(back, tar);
    // matching formats are kept byte for byte
    let same = reencode_layer(&tar, false, false, &conf(Compression::Disabled)).unwrap();
    assert_eq!(same.bytes, tar);
}

#[test]
fn manifest_parsing() {
    let manifest = JsonValue::Obj(vec![
        (
            b"config".to_vec(),
            JsonValue::Obj(vec![(b"digest".to_vec(), JsonValue::Str(b"sha256:c".to_vec()))]),
        ),
        (
            b"layers".to_vec(),
            JsonValue::Arr(vec![JsonValue::Obj(vec![
                (b"digest".to_vec(), JsonValue::Str(b"sha256:l".to_vec())),
                (
                    b"mediaType".to_vec(),
                    JsonValue::Str(b"application/vnd.oci.image.layer.v1.tar+gzip".to_vec()),
                ),
            ])]),
        ),
    ]);
    assert_eq!(manifest_config_digest(&manifest).unwrap(), b"sha256:c".to_vec());
    let layers = manifest_layers(&manifest).unwrap();
    assert_eq!(layers.len(), 1);
    assert_eq!(layers[0].digest, b"sha256:l".to_vec());
    assert!(layers[0].media_type.ends_with(b"+gzip"));
    let empty = JsonValue::Obj(vec![]);
    assert_eq!(manifest_config_digest(&empty), Err(BuildError::MissingDigest));
    assert!(manifest_layers(&empty).is_err());
}

#[test]
fn config_parsing() {
    let cfgdoc = JsonValue::Obj(vec![(
        b"rootfs".to_vec(),
        JsonValue::Obj(vec![(
            b"diff_ids".to_vec(),
            JsonValue::Arr(vec![JsonValue::Str(b"sha256:a".to_vec())]),
        )]),
    )]);
    assert_eq!(config_diff_ids(&cfgdoc).unwrap(), vec![b"sha256:a".to_vec()]);
    let bad = JsonValue::Obj(vec![]);
    assert_eq!(config_diff_ids(&bad), Err(BuildError::MissingDiffIds));
    assert_eq!(check_layer_counts(2, 2), Ok(()));
    assert_eq!(check_layer_counts(1, 2), Err(BuildError::LayerCountMismatch));
}

#[test]
fn dedup_through_gzip_lowers() {
    let upper = || vec![file_rec(b"tool", b"same-bytes", 4)];
    let run1 = build(upper(), vec![], Compression::Gzip);
    // the lower blob is gzip; the analyzer decodes it before merging
    let run2 = build(upper(), vec![run1.blob.bytes], Compression::Gzip);
    let tar = {
        let mut dec = flate2::read::GzDecoder::new(run2.blob.bytes.as_slice());
        let mut t = Vec::new();
        dec.read_to_end(&mut t).unwrap();
        t
    };
    let names: Vec<Vec<u8>> = parse_tar(&tar).iter().map(|i| i.0.clone()).collect();
    assert!(!names.contains(&b"./tool".to_vec()));
}

#[test]
fn dedup_through_zstd_lowers() {
    let upper = || vec![file_rec(b"tool", b"same-bytes", 4)];
    let run1 = build(upper(), vec![], Compression::Zstd);
    let run2 = build(upper(), vec![run1.blob.bytes], Compression::Zstd);
    let tar = zstd::stream::decode_all(run2.blob.bytes.as_slice()).unwrap();
    let names: Vec<Vec<u8>> = parse_tar(&tar).iter().map(|i| i.0.clone()).collect();
    assert!(!names.contains(&b"./tool".to_vec()));
}

#[test]
fn long_names_survive() {
    let mut name = Vec::new();
    for _ in 0..30 {
        name.extend_from_slice(b"verylong/");
    }
    name.extend_from_slice(b"f");
    // build the records for each directory level plus the file
    let mut records = Vec::new();
    for depth in 1..=30 {
        let mut d = Vec::new();
        for _ in 0..depth {
            d.extend_from_slice(b"verylong/");
        }
        d.pop();
        records.push(rec(&d, RecKind::Dir));
    }
    records.push(file_rec(&name, b"deep", 3));
    let e = build(records, vec![], Compression::Disabled);
    let items = parse_tar(&e.blob.bytes);
    let mut expect = b"./".to_vec();
    expect.extend_from_slice(&name);
    assert!(items.iter().any(|i| i.0 == expect));
}

#[test]
fn created_epoch_bounded() {
    let desc = ImageDesc {
        architecture: b"amd64".to_vec(),
        os: b"linux".to_vec(),
        os_version: None,
        os_features: None,
        variant: None,
        author: None,
        comment: None,
        config: None,
        annotations: None,
        index_annotations: None,
    };
    // the last representable second still renders with a four-digit year
    let ok = build_image(&desc, None, None, &conf(Compression::Disabled), 253402300799, Some(0));
    let out = ok.unwrap();
    let cfg: serde_json::Value = serde_json::from_slice(&out.config_blob.bytes).unwrap();
    assert_eq!(cfg["created"].as_str(), Some("9999-12-31T23:59:59Z"));
    // one past it is refused
    let err = build_image(&desc, None, None, &conf(Compression::Disabled), 253402300800, Some(0));
    assert!(matches!(err, Err(BuildError::TimeOutOfRange)));
}

#[test]
fn manifest_layer_field_errors() {
    let no_media = JsonValue::Obj(vec![(
        b"layers".to_vec(),
        JsonValue::Arr(vec![JsonValue::Obj(vec![(
            b"digest".to_vec(),
            JsonValue::Str(b"sha256:l".to_vec()),
        )])]),
    )]);
    assert!(matches!(manifest_layers(&no_media), Err(BuildError::MissingMediaType)));
    let no_digest = JsonValue::Obj(vec![(
        b"layers".to_vec(),
        JsonValue::Arr(vec![JsonValue::Obj(vec![])]),
    )]);
    assert!(matches!(manifest_layers(&no_digest), Err(BuildError::MissingDigest)));
}

#[test]
fn non_string_diff_id_rejected() {
    let bad = JsonValue::Obj(vec![(
        b"rootfs".to_vec(),
        JsonValue::Obj(vec![(
            b"diff_ids".to_vec(),
            JsonValue::Arr(vec![JsonValue::UInt(1)]),
        )]),
    )]);
    assert!(matches!(config_diff_ids(&bad), Err(BuildError::BadDiffId)));
}

#[test]
fn other_entry_has_empty_body() {
    let e = build(vec![rec(b"pipe", RecKind::Other)], vec![], Compression::Disabled);
    let items = parse_tar(&e.blob.bytes);
    let p = items.iter().find(|i| i.0 == b"./pipe".to_vec()).unwrap();
    assert_eq!(p.1, b'0');
    assert_eq!(p.2, 0);
}
