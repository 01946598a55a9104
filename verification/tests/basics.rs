use ocibuild::blob::{blob_from_bytes, layer_media_type, BlobDescriptor};
use ocibuild::config::{compression_threads_for, default_compression_level, parse_compression, Compression};
use ocibuild::digest::{digest_ref, sha256_hex, to_hex};
use ocibuild::errors::BuildError;
use ocibuild::image::{ends_with, format_epoch, oci_layout_json, split_digest};
use ocibuild::json::{to_bytes, JsonValue};
use ocibuild::overlay::split_path;
use ocibuild::scan::{budget_decide, budget_new, CacheBudget, Capture};
use ocibuild::tarfmt::count_digits;
use sha2::Digest;

fn hex_str(data: &[u8]) -> String {
    String::from_utf8(to_hex(data)).unwrap()
}

#[test]
fn hex_of_bytes() {
    assert_eq!(to_hex(&[0x00, 0xff, 0x1a]), b"00ff1a".to_vec());
}

#[test]
fn sha256_hex_matches_sha2() {
    let data = b"hi\n";
    let expect = hex_str(sha2::Sha256::digest(data).as_slice());
    assert_eq!(sha256_hex(data), expect.into_bytes());
    assert_eq!(
        sha256_hex(b"hi\n"),
        b"98ea6e4f216f2fb4b69fff9b3a44842c38686ca685f3f55dc48c5d3fb1107be4".to_vec()
    );
}

#[test]
fn digest_ref_prefixes() {
    let r = digest_ref(b"");
    assert!(r.starts_with(b"sha256:"));
    assert_eq!(
        r,
        b"sha256:e3b0c44298fc1c149afbf4c8996fb92427ae41e4649b934ca495991b7852b855".to_vec()
    );
}

#[test]
fn compression_names() {
    assert_eq!(parse_compression(b"gzip"), Ok(Compression::Gzip));
    assert_eq!(parse_compression(b"zstd"), Ok(Compression::Zstd));
    assert_eq!(parse_compression(b"disabled"), Ok(Compression::Disabled));
    assert_eq!(parse_compression(b"lz4"), Err(BuildError::BadCompression));
}

#[test]
fn default_levels() {
    assert_eq!(default_compression_level(Compression::Gzip), Some(5));
    assert_eq!(default_compression_level(Compression::Zstd), Some(1));
    assert_eq!(default_compression_level(Compression::Disabled), None);
}

#[test]
fn thread_budget() {
    assert_eq!(compression_threads_for(8, 1), 8);
    assert_eq!(compression_threads_for(8, 2), 4);
    assert_eq!(compression_threads_for(2, 8), 1);
    assert_eq!(compression_threads_for(0, 0), 0);
}

#[test]
fn digit_counts() {
    assert_eq!(count_digits(0), 1);
    assert_eq!(count_digits(9), 1);
    assert_eq!(count_digits(10), 2);
    assert_eq!(count_digits(u64::MAX), 20);
}

#[test]
fn pax_record_fixed_point() {
    let mut out = Vec::new();
    ocibuild::tarfmt::write_pax_record(&mut out, b"a", b"b");
    assert_eq!(out, b"6 a=b\n".to_vec());
    assert_eq!(out.len(), 6);
    // a record whose naive length sits at a digit boundary
    let mut out2 = Vec::new();
    let key = b"key";
    let val = vec![b'x'; 93]; // 2 + (3 + 93 + 2) = 100 naive; corrected length counts itself
    ocibuild::tarfmt::write_pax_record(&mut out2, key, &val);
    let s = String::from_utf8(out2.clone()).unwrap();
    let n: usize = s.split(' ').next().unwrap().parse().unwrap();
    assert_eq!(n, out2.len());
}

#[test]
fn split_paths() {
    let (d, b) = split_path(b"a/b/c");
    assert_eq!(d, b"a/b".to_vec());
    assert_eq!(b, b"c".to_vec());
    let (d, b) = split_path(b"./a/");
    assert_eq!(d, b".".to_vec());
    assert_eq!(b, b"a".to_vec());
    let (d, b) = split_path(b"top");
    assert_eq!(d, b"".to_vec());
    assert_eq!(b, b"top".to_vec());
}

#[test]
fn digest_splitting() {
    let (a, h) = split_digest(b"sha256:abcd").unwrap();
    assert_eq!(a, b"sha256".to_vec());
    assert_eq!(h, b"abcd".to_vec());
    assert_eq!(split_digest(b"nocolon"), Err(BuildError::BadDigestFormat));
}

#[test]
fn suffix_tests() {
    assert!(ends_with(b"x.tar+gzip", b"+gzip"));
    assert!(!ends_with(b"x.tar", b"+gzip"));
}

#[test]
fn timestamps() {
    assert_eq!(format_epoch(0), b"1970-01-01T00:00:00Z".to_vec());
    assert_eq!(format_epoch(1700000000), b"2023-11-14T22:13:20Z".to_vec());
    // leap day
    assert_eq!(format_epoch(951782400), b"2000-02-29T00:00:00Z".to_vec());
}

#[test]
fn memory_budget() {
    assert_eq!(budget_new(1).limit, 1048576);
    let mut b = CacheBudget { used: 0, limit: 100000 };
    // large files map regardless of the budget
    assert_eq!(budget_decide(&mut b, 65536), Capture::Mapped);
    assert_eq!(b.used, 0);
    // small files charge the budget while it lasts
    assert_eq!(budget_decide(&mut b, 60000), Capture::Heap);
    assert_eq!(b.used, 60000);
    // and stream once it would overflow
    assert_eq!(budget_decide(&mut b, 60000), Capture::Streamed);
    assert_eq!(b.used, 60000);
    assert!(b.used <= b.limit);
}

#[test]
fn json_bytes() {
    let v = JsonValue::Obj(vec![
        (b"a".to_vec(), JsonValue::UInt(2)),
        (b"b".to_vec(), JsonValue::Str(b"x\"y\\z\n".to_vec())),
        (b"c".to_vec(), JsonValue::Arr(vec![JsonValue::Null, JsonValue::Bool(true), JsonValue::Int(-5)])),
    ]);
    let bytes = to_bytes(&v);
    let parsed: serde_json::Value = serde_json::from_slice(&bytes).unwrap();
    assert_eq!(parsed["a"].as_u64(), Some(2));
    assert_eq!(parsed["b"].as_str(), Some("x\"y\\z\n"));
    let arr = parsed["c"].as_array().unwrap();
    assert!(arr[0].is_null());
    assert_eq!(arr[1].as_bool(), Some(true));
    assert_eq!(arr[2].as_i64(), Some(-5));
}

#[test]
fn descriptor_json() {
    let b = blob_from_bytes(Some(layer_media_type(Compression::Disabled)), b"data".to_vec());
    // content-address integrity: the digest names the bytes
    let expect = format!("sha256:{}", hex_str(sha2::Sha256::digest(b"data").as_slice()));
    assert_eq!(b.descriptor.digest, expect.clone().into_bytes());
    assert_eq!(b.descriptor.size, 4);
    let dj = b.descriptor.to_json();
    let parsed: serde_json::Value = serde_json::from_slice(&dj).unwrap();
    assert_eq!(parsed["digest"].as_str(), Some(expect.as_str()));
    assert_eq!(parsed["size"].as_u64(), Some(4));
    assert_eq!(
        parsed["mediaType"].as_str(),
        Some("application/vnd.oci.image.layer.v1.tar")
    );
}

#[test]
fn layout_marker() {
    let parsed: serde_json::Value = serde_json::from_slice(&oci_layout_json()).unwrap();
    assert_eq!(parsed["imageLayoutVersion"].as_str(), Some("1.0.0"));
}

#[test]
fn descriptor_without_media_type() {
    let d = BlobDescriptor {
        media_type: None,
        size: 1,
        digest: b"sha256:00".to_vec(),
        platform: None,
        annotations: None,
    };
    let parsed: serde_json::Value = serde_json::from_slice(&d.to_json()).unwrap();
    assert!(parsed.get("mediaType").is_none());
}
