use ocibuild::overlay::{analyze_lowers, RawTarEntry};

fn entry(path: &[u8], entry_type: u8) -> RawTarEntry {
    RawTarEntry {
        path: path.to_vec(),
        entry_type,
        uid: 0,
        gid: 0,
        mode: 0o644,
        mtime: 0,
        size: 0,
        link_target: None,
        pax: Vec::new(),
    }
}

#[test]
fn single_layer_view() {
    let layers = vec![vec![entry(b"./a/", b'5'), entry(b"./a/x", b'0')]];
    let la = analyze_lowers(&layers);
    assert!(la.file(b"./a/x").is_some());
    assert!(la.file(b"./a/y").is_none());
    let names = la.children(b"./a").unwrap();
    assert_eq!(names, &vec![b"x".to_vec()]);
}

#[test]
fn last_layer_overwrites() {
    let mut older = entry(b"./f", b'0');
    older.mode = 0o600;
    let mut newer = entry(b"./f", b'0');
    newer.mode = 0o755;
    let layers = vec![vec![older], vec![newer]];
    let la = analyze_lowers(&layers);
    assert_eq!(la.file(b"./f").unwrap().mode, 0o755);
}

#[test]
fn file_whiteout_removes() {
    let layers = vec![
        vec![entry(b"./a/", b'5'), entry(b"./a/x", b'0'), entry(b"./a/y", b'0')],
        vec![entry(b"./a/.wh.x", b'0')],
    ];
    let la = analyze_lowers(&layers);
    assert!(la.file(b"./a/x").is_none());
    assert!(la.file(b"./a/y").is_some());
    // the whiteout marker itself never appears in the merged view
    assert!(la.file(b"./a/.wh.x").is_none());
}

#[test]
fn opaque_whiteout_empties_directory() {
    let layers = vec![
        vec![entry(b"./a/", b'5'), entry(b"./a/x", b'0'), entry(b"./b", b'0')],
        vec![entry(b"./a/.wh..wh..opq", b'0'), entry(b"./a/z", b'0')],
    ];
    let la = analyze_lowers(&layers);
    assert!(la.file(b"./a/x").is_none());
    assert!(la.file(b"./a/z").is_some());
    assert!(la.file(b"./b").is_some());
    let names = la.children(b"./a").unwrap();
    assert_eq!(names, &vec![b"z".to_vec()]);
}

#[test]
fn whiteout_in_same_layer_spares_own_entries() {
    // a layer's whiteouts delete below it, not its own members
    let layers = vec![
        vec![entry(b"./x", b'0')],
        vec![entry(b"./.wh.x", b'0'), entry(b"./x", b'0')],
    ];
    let la = analyze_lowers(&layers);
    assert!(la.file(b"./x").is_some());
}

#[test]
fn children_sorted() {
    let layers = vec![vec![
        entry(b"./d/", b'5'),
        entry(b"./d/c", b'0'),
        entry(b"./d/a", b'0'),
        entry(b"./d/b", b'0'),
    ]];
    let la = analyze_lowers(&layers);
    let names = la.children(b"./d").unwrap();
    assert_eq!(names, &vec![b"a".to_vec(), b"b".to_vec(), b"c".to_vec()]);
}

#[test]
fn symlink_target_kept() {
    let mut e = entry(b"./l", b'2');
    e.link_target = Some(b"/target".to_vec());
    let layers = vec![vec![e]];
    let la = analyze_lowers(&layers);
    assert_eq!(la.file(b"./l").unwrap().symlink_target, Some(b"/target".to_vec()));
}

#[test]
fn pax_records_kept_verbatim() {
    let mut e = entry(b"./f", b'0');
    e.pax.push((b"unknown.key".to_vec(), b"value".to_vec()));
    let layers = vec![vec![e]];
    let la = analyze_lowers(&layers);
    let le = la.file(b"./f").unwrap();
    assert_eq!(le.pax_headers, vec![(b"unknown.key".to_vec(), b"value".to_vec())]);
}
