//! The filesystem scanner's decisions: turning the raw records of a
//! directory walk into a canonical entry table — hardlinks resolved to
//! their first-seen path, the checksum taken from the `user.checksum.sha256`
//! extended attribute when present, children listed in sorted order — and
//! the memory budget that bounds heap-resident content caching.

use vstd::prelude::*;
use crate::assoc::build_dir_contents;
use crate::assoc::dc_ok;
use crate::assoc::dc_view;
use crate::assoc::names_view;
use crate::bytesutil::bytes_eq;
use crate::bytesutil::clone_bytes;
use crate::digest::hex_of;
use crate::digest::sha256_hex;
use crate::digest::sha256_of;
use crate::overlay::pairs_view;

verus! {

/// What a walk found a path to be.
#[derive(Debug, Clone, Copy, PartialEq, Eq, Structural)]
pub enum RecKind {
    File,
    Dir,
    Symlink,
    Other,
}

/// One path as the walk reports it: metadata, extended attributes, and —
/// for regular files — the content bytes.
#[derive(Debug)]
pub struct ScanRecord {
    /// Path relative to the upper root, without a leading `./`.
    pub rel_path: Vec<u8>,
    pub kind: RecKind,
    /// Symlink target; present exactly on symlinks.
    pub target: Option<Vec<u8>>,
    pub mode: u32,
    pub uid: u64,
    pub gid: u64,
    pub mtime: i64,
    pub size: u64,
    pub dev: u64,
    pub ino: u64,
    pub xattrs: Vec<(Vec<u8>, Vec<u8>)>,
    /// File contents; empty for anything but a regular file.
    pub contents: Vec<u8>,
}

/// Ghost view of a scan record.
pub struct ScanRecordV {
    pub rel_path: Seq<u8>,
    pub kind: RecKind,
    pub target: Option<Seq<u8>>,
    pub mode: u32,
    pub uid: u64,
    pub gid: u64,
    pub mtime: i64,
    pub size: u64,
    pub dev: u64,
    pub ino: u64,
    pub xattrs: Seq<(Seq<u8>, Seq<u8>)>,
    pub contents: Seq<u8>,
}

impl View for ScanRecord {
    type V = ScanRecordV;

    open spec fn view(&self) -> ScanRecordV {
        ScanRecordV {
            rel_path: self.rel_path@,
            kind: self.kind,
            target: match self.target {
                Some(t) => Some(t@),
                None => None,
            },
            mode: self.mode,
            uid: self.uid,
            gid: self.gid,
            mtime: self.mtime,
            size: self.size,
            dev: self.dev,
            ino: self.ino,
            xattrs: pairs_view(self.xattrs@),
            contents: self.contents@,
        }
    }
}

/// Views of a record list.
pub open spec fn recs_view(s: Seq<ScanRecord>) -> Seq<ScanRecordV> {
    Seq::new(s.len(), |i: int| s[i]@)
}

/// Metadata cached for one path.
#[derive(Debug, Clone, Copy)]
pub struct CachedMetadata {
    pub mode: u32,
    pub uid: u64,
    pub gid: u64,
    pub mtime: i64,
    pub size: u64,
}

/// What one path contributes to the new layer.
#[derive(Debug)]
pub enum EntryKind {
    Regular { checksum: Vec<u8>, contents: Vec<u8> },
    Directory,
    Symlink { target: Vec<u8> },
    Hardlink { target_path: Vec<u8> },
    Other { contents: Vec<u8> },
}

/// Ghost view of an entry kind.
pub enum EntryKindV {
    Regular { checksum: Seq<u8>, contents: Seq<u8> },
    Directory,
    Symlink { target: Seq<u8> },
    Hardlink { target_path: Seq<u8> },
    Other { contents: Seq<u8> },
}

impl View for EntryKind {
    type V = EntryKindV;

    open spec fn view(&self) -> EntryKindV {
        match self {
            EntryKind::Regular { checksum, contents } => EntryKindV::Regular {
                checksum: checksum@,
                contents: contents@,
            },
            EntryKind::Directory => EntryKindV::Directory,
            EntryKind::Symlink { target } => EntryKindV::Symlink { target: target@ },
            EntryKind::Hardlink { target_path } => EntryKindV::Hardlink {
                target_path: target_path@,
            },
            EntryKind::Other { contents } => EntryKindV::Other { contents: contents@ },
        }
    }
}

/// One scanned path, classified.
#[derive(Debug)]
pub struct EntryInfo {
    pub metadata: CachedMetadata,
    pub kind: EntryKind,
    /// Extended attributes to emit, the checksum attribute excluded.
    pub xattrs: Vec<(Vec<u8>, Vec<u8>)>,
}

/// Ghost view of a classified entry.
pub struct EntryInfoV {
    pub metadata: CachedMetadata,
    pub kind: EntryKindV,
    pub xattrs: Seq<(Seq<u8>, Seq<u8>)>,
}

impl View for EntryInfo {
    type V = EntryInfoV;

    open spec fn view(&self) -> EntryInfoV {
        EntryInfoV { metadata: self.metadata, kind: self.kind@, xattrs: pairs_view(self.xattrs@) }
    }
}

/// The scanned tree: each path's entry, and each directory's sorted names.
#[derive(Debug)]
pub struct LayerData {
    /// Relative path to entry, in walk order.
    pub entries: Vec<(Vec<u8>, EntryInfo)>,
    /// Relative directory path to sorted list of names inside it; the
    /// upper root is the empty path.
    pub children: Vec<(Vec<u8>, Vec<Vec<u8>>)>,
}

/// View of the entry table.
pub open spec fn entries_view(s: Seq<(Vec<u8>, EntryInfo)>) -> Seq<(Seq<u8>, EntryInfoV)> {
    Seq::new(s.len(), |i: int| (s[i].0@, s[i].1@))
}

/// The bytes of the xattr name `user.checksum.sha256`.
pub open spec fn spec_checksum_xattr() -> Seq<u8> {
    seq![
        117u8, 115u8, 101u8, 114u8, 46u8, 99u8, 104u8, 101u8, 99u8, 107u8, 115u8, 117u8, 109u8,
        46u8, 115u8, 104u8, 97u8, 50u8, 53u8, 54u8,
    ]
}

/// The xattr name `user.checksum.sha256`.
pub fn checksum_xattr() -> (r: Vec<u8>)
    ensures
        r@ == spec_checksum_xattr(),
{
    let mut v: Vec<u8> = Vec::new();
    v.push(117);
    v.push(115);
    v.push(101);
    v.push(114);
    v.push(46);
    v.push(99);
    v.push(104);
    v.push(101);
    v.push(99);
    v.push(107);
    v.push(115);
    v.push(117);
    v.push(109);
    v.push(46);
    v.push(115);
    v.push(104);
    v.push(97);
    v.push(50);
    v.push(53);
    v.push(54);
    proof {
        assert(v@ =~= spec_checksum_xattr());
    }
    v
}

/// The checksum xattr's value, if the list carries one.
pub open spec fn spec_xattr_checksum(xs: Seq<(Seq<u8>, Seq<u8>)>) -> Option<Seq<u8>>
    decreases xs.len(),
{
    if xs.len() == 0 {
        None
    } else if xs[0].0 == spec_checksum_xattr() {
        Some(xs[0].1)
    } else {
        spec_xattr_checksum(xs.drop_first())
    }
}

/// The xattr list with the checksum attribute removed.
pub open spec fn spec_plain_xattrs(xs: Seq<(Seq<u8>, Seq<u8>)>) -> Seq<(Seq<u8>, Seq<u8>)>
    decreases xs.len(),
{
    if xs.len() == 0 {
        Seq::empty()
    } else if xs[0].0 == spec_checksum_xattr() {
        spec_plain_xattrs(xs.drop_first())
    } else {
        seq![xs[0]] + spec_plain_xattrs(xs.drop_first())
    }
}

proof fn lemma_xattr_specs_push(xs: Seq<(Seq<u8>, Seq<u8>)>, x: (Seq<u8>, Seq<u8>))
    ensures
        spec_xattr_checksum(xs.push(x)) == (if spec_xattr_checksum(xs) is Some {
            spec_xattr_checksum(xs)
        } else if x.0 == spec_checksum_xattr() {
            Some(x.1)
        } else {
            None
        }),
        spec_plain_xattrs(xs.push(x)) == (if x.0 == spec_checksum_xattr() {
            spec_plain_xattrs(xs)
        } else {
            spec_plain_xattrs(xs).push(x)
        }),
    decreases xs.len(),
{
    assert(xs.push(x)[0] == if xs.len() == 0 { x } else { xs[0] });
    if xs.len() == 0 {
        assert(xs.push(x).drop_first() =~= Seq::<(Seq<u8>, Seq<u8>)>::empty());
        assert(spec_xattr_checksum(Seq::<(Seq<u8>, Seq<u8>)>::empty()) is None);
        assert(spec_plain_xattrs(Seq::<(Seq<u8>, Seq<u8>)>::empty()) == Seq::<(
            Seq<u8>,
            Seq<u8>,
        )>::empty());
        if x.0 != spec_checksum_xattr() {
            assert(spec_plain_xattrs(xs.push(x)) =~= spec_plain_xattrs(xs).push(x));
        }
    } else {
        assert(xs.push(x).drop_first() =~= xs.drop_first().push(x));
        lemma_xattr_specs_push(xs.drop_first(), x);
        if xs[0].0 != spec_checksum_xattr() && x.0 != spec_checksum_xattr() {
            assert(spec_plain_xattrs(xs.push(x)) =~= spec_plain_xattrs(xs).push(x));
        }
    }
}

/// Splits a record's xattr list into the diverted checksum value and the
/// attributes that remain.
#[verifier::loop_isolation(false)]
fn split_xattrs(xs: &Vec<(Vec<u8>, Vec<u8>)>) -> (r: (Option<Vec<u8>>, Vec<(Vec<u8>, Vec<u8>)>))
    ensures
        match r.0 {
            Some(c) => spec_xattr_checksum(pairs_view(xs@)) == Some(c@),
            None => spec_xattr_checksum(pairs_view(xs@)) is None,
        },
        pairs_view(r.1@) == spec_plain_xattrs(pairs_view(xs@)),
{
    let key = checksum_xattr();
    let mut found: Option<Vec<u8>> = None;
    let mut plain: Vec<(Vec<u8>, Vec<u8>)> = Vec::new();
    let ghost xv = pairs_view(xs@);
    let mut i: usize = 0;
    proof {
        assert(xv.take(0) =~= Seq::<(Seq<u8>, Seq<u8>)>::empty());
    }
    while i < xs.len()
        invariant
            i <= xs@.len(),
            xv == pairs_view(xs@),
            match found {
                Some(c) => spec_xattr_checksum(xv.take(i as int)) == Some(c@),
                None => spec_xattr_checksum(xv.take(i as int)) is None,
            },
            pairs_view(plain@) == spec_plain_xattrs(xv.take(i as int)),
        decreases xs@.len() - i,
    {
        proof {
            assert(xv[i as int] == (xs@[i as int].0@, xs@[i as int].1@));
            assert(xv.take(i + 1) =~= xv.take(i as int).push(xv[i as int]));
            lemma_xattr_specs_push(xv.take(i as int), xv[i as int]);
        }
        if bytes_eq(xs[i].0.as_slice(), key.as_slice()) {
            if found.is_none() {
                found = Some(clone_bytes(&xs[i].1));
            } else {
                proof {
                    assert(spec_xattr_checksum(xv.take(i + 1)) == spec_xattr_checksum(
                        xv.take(i as int),
                    ));
                }
            }
        } else {
            let ghost prev = pairs_view(plain@);
            let k2 = clone_bytes(&xs[i].0);
            let v2 = clone_bytes(&xs[i].1);
            plain.push((k2, v2));
            proof {
                assert forall|b: int| 0 <= b < plain@.len() implies pairs_view(plain@)[b] == prev.push(
                    xv[i as int],
                )[b] by {
                    if b < prev.len() {
                    } else {
                        assert(plain@[b] == plain@.last());
                    }
                }
                assert(pairs_view(plain@) =~= prev.push(xv[i as int]));
            }
        }
        i = i + 1;
    }
    proof {
        assert(xv.take(xv.len() as int) =~= xv);
    }
    (found, plain)
}

/// Index of the first regular-file record among the first `upto` that
/// carries the given device and inode; -1 when there is none.
pub open spec fn first_same_ino(rs: Seq<ScanRecordV>, dev: u64, ino: u64, upto: int) -> int
    decreases upto,
{
    if upto <= 0 {
        -1
    } else {
        let r = first_same_ino(rs, dev, ino, upto - 1);
        if r >= 0 {
            r
        } else if rs[upto - 1].kind == RecKind::File && rs[upto - 1].dev == dev && rs[upto
            - 1].ino == ino {
            upto - 1
        } else {
            -1
        }
    }
}

/// What `first_same_ino` returns is a matching record, below `upto`, and
/// nothing before it matches.
pub proof fn lemma_fsi_shape(rs: Seq<ScanRecordV>, dev: u64, ino: u64, upto: int)
    requires
        upto <= rs.len(),
    ensures
        ({
            let f = first_same_ino(rs, dev, ino, upto);
            &&& f >= 0 ==> 0 <= f < upto && rs[f].kind == RecKind::File && rs[f].dev == dev
                && rs[f].ino == ino
            &&& forall|j: int|
                0 <= j < upto && j < f ==> !(rs[j].kind == RecKind::File && rs[j].dev == dev
                    && rs[j].ino == ino)
            &&& f == -1 ==> forall|j: int|
                0 <= j < upto ==> !(rs[j].kind == RecKind::File && rs[j].dev == dev && rs[j].ino
                    == ino)
        }),
    decreases upto,
{
    if upto > 0 {
        lemma_fsi_shape(rs, dev, ino, upto - 1);
    }
}

/// Once found, the first match does not change as the horizon grows.
pub proof fn lemma_fsi_mono(rs: Seq<ScanRecordV>, dev: u64, ino: u64, u1: int, u2: int)
    requires
        0 <= u1 <= u2 <= rs.len(),
        first_same_ino(rs, dev, ino, u1) >= 0,
    ensures
        first_same_ino(rs, dev, ino, u2) == first_same_ino(rs, dev, ino, u1),
    decreases u2,
{
    if u2 > u1 {
        lemma_fsi_mono(rs, dev, ino, u1, u2 - 1);
    }
}

/// The checksum a regular-file record gets: the value of its checksum
/// xattr when present, else the SHA-256 of its contents.
pub open spec fn spec_checksum(r: ScanRecordV) -> Seq<u8> {
    match spec_xattr_checksum(r.xattrs) {
        Some(c) => c,
        None => hex_of(sha256_of(r.contents)),
    }
}

/// The entry a record becomes, among its fellow records: a regular file
/// whose device and inode were seen on an earlier file becomes a hard
/// link to the first such path.
pub open spec fn spec_entry_of(rs: Seq<ScanRecordV>, i: int) -> EntryInfoV {
    let r = rs[i];
    let kind = match r.kind {
        RecKind::Dir => EntryKindV::Directory,
        RecKind::Symlink => EntryKindV::Symlink {
            target: match r.target {
                Some(t) => t,
                None => Seq::empty(),
            },
        },
        RecKind::File => {
            let f = first_same_ino(rs, r.dev, r.ino, i);
            if f >= 0 {
                EntryKindV::Hardlink { target_path: rs[f].rel_path }
            } else {
                EntryKindV::Regular { checksum: spec_checksum(r), contents: r.contents }
            }
        },
        RecKind::Other => EntryKindV::Other { contents: r.contents },
    };
    EntryInfoV {
        metadata: CachedMetadata {
            mode: r.mode,
            uid: r.uid,
            gid: r.gid,
            mtime: r.mtime,
            size: r.size,
        },
        kind,
        xattrs: spec_plain_xattrs(r.xattrs),
    }
}

/// The paths of a record list.
pub open spec fn spec_paths(rs: Seq<ScanRecordV>) -> Seq<Seq<u8>> {
    Seq::new(rs.len(), |i: int| rs[i].rel_path)
}

/// The entry table a record list yields: one entry per record.
pub open spec fn spec_entries(rs: Seq<ScanRecordV>) -> Seq<(Seq<u8>, EntryInfoV)> {
    Seq::new(rs.len(), |i: int| (rs[i].rel_path, spec_entry_of(rs, i)))
}

/// Builds the canonical entry table of a walk: one entry per record, in
/// walk order, with hardlinks resolved and children sorted per directory.
#[verifier::rlimit(100)]
#[verifier::loop_isolation(false)]
pub fn build_layer_data(records: &Vec<ScanRecord>) -> (r: LayerData)
    ensures
        r.entries@.len() == records@.len(),
        forall|i: int| #![all_triggers]
            0 <= i < records@.len() ==> entries_view(r.entries@)[i] == (
                recs_view(records@)[i].rel_path,
                spec_entry_of(recs_view(records@), i),
            ),
        entries_view(r.entries@) == spec_entries(recs_view(records@)),
        dc_ok(dc_view(r.children@), spec_paths(recs_view(records@))),
        dc_view(r.children@) == crate::assoc::spec_dc_full(spec_paths(recs_view(records@))),
{
    let ghost rs = recs_view(records@);
    let mut entries: Vec<(Vec<u8>, EntryInfo)> = Vec::new();
    let mut i: usize = 0;
    while i < records.len()
        invariant
            i <= records@.len(),
            rs == recs_view(records@),
            entries@.len() == i,
            forall|a: int| #![all_triggers]
                0 <= a < i ==> entries_view(entries@)[a] == (
                    rs[a].rel_path,
                    spec_entry_of(rs, a),
                ),
        decreases records@.len() - i,
    {
        let rec = &records[i];
        proof {
            assert(rs[i as int] == records@[i as int]@);
        }
        let (xck, plain) = split_xattrs(&rec.xattrs);
        let kind: EntryKind = match rec.kind {
            RecKind::Dir => EntryKind::Directory,
            RecKind::Symlink => EntryKind::Symlink {
                target: match &rec.target {
                    Some(t) => clone_bytes(t),
                    None => Vec::new(),
                },
            },
            RecKind::File => {
                let mut f: usize = 0;
                let mut found: bool = false;
                while f < i && !found
                    invariant
                        f <= i <= records@.len(),
                        rs == recs_view(records@),
                        !found ==> first_same_ino(rs, rs[i as int].dev, rs[i as int].ino, f as int)
                            == -1,
                        found ==> f < i && first_same_ino(
                            rs,
                            rs[i as int].dev,
                            rs[i as int].ino,
                            i as int,
                        ) == f,
                    decreases records@.len() - f, (if found { 0int } else { 1int }),
                {
                    let cand = &records[f];
                    proof {
                        assert(rs[f as int] == records@[f as int]@);
                        assert(rs[i as int] == records@[i as int]@);
                    }
                    let is_match = match cand.kind {
                        RecKind::File => cand.dev == rec.dev && cand.ino == rec.ino,
                        _ => false,
                    };
                    if is_match {
                        proof {
                            assert(first_same_ino(rs, rs[i as int].dev, rs[i as int].ino, f + 1)
                                == f);
                            lemma_fsi_mono(
                                rs,
                                rs[i as int].dev,
                                rs[i as int].ino,
                                f + 1,
                                i as int,
                            );
                        }
                        found = true;
                    } else {
                        proof {
                            assert(first_same_ino(rs, rs[i as int].dev, rs[i as int].ino, f + 1)
                                == -1);
                        }
                        f = f + 1;
                    }
                }
                if found {
                    EntryKind::Hardlink { target_path: clone_bytes(&records[f].rel_path) }
                } else {
                    let checksum = match xck {
                        Some(c) => c,
                        None => sha256_hex(rec.contents.as_slice()),
                    };
                    EntryKind::Regular { checksum, contents: clone_bytes(&rec.contents) }
                }
            },
            RecKind::Other => EntryKind::Other { contents: clone_bytes(&rec.contents) },
        };
        let info = EntryInfo {
            metadata: CachedMetadata {
                mode: rec.mode,
                uid: rec.uid,
                gid: rec.gid,
                mtime: rec.mtime,
                size: rec.size,
            },
            kind,
            xattrs: plain,
        };
        proof {
            assert(info@ == spec_entry_of(rs, i as int));
        }
        let ghost prev = entries@;
        entries.push((clone_bytes(&rec.rel_path), info));
        proof {
            assert forall|a: int| #![all_triggers]
                0 <= a < i + 1 implies entries_view(entries@)[a] == (
                rs[a].rel_path,
                spec_entry_of(rs, a),
            ) by {
                if a < i {
                    assert(entries@[a] == prev[a]);
                    assert(entries_view(prev)[a] == (rs[a].rel_path, spec_entry_of(rs, a)));
                } else {
                    assert(entries@[a] == entries@.last());
                }
            }
        }
        i = i + 1;
    }
    let mut paths: Vec<Vec<u8>> = Vec::new();
    let mut a: usize = 0;
    while a < records.len()
        invariant
            a <= records@.len(),
            rs == recs_view(records@),
            paths@.len() == a,
            names_view(paths@) == Seq::new(rs.len(), |i: int| rs[i].rel_path).take(a as int),
        decreases records@.len() - a,
    {
        let pb = clone_bytes(&records[a].rel_path);
        let ghost prev = paths@;
        paths.push(pb);
        proof {
            assert forall|b: int| 0 <= b < paths@.len() implies names_view(paths@)[b] == Seq::new(
                rs.len(),
                |i: int| rs[i].rel_path,
            ).take(a + 1)[b] by {
                if b < a {
                    assert(paths@[b] == prev[b]);
                    assert(names_view(prev)[b] == Seq::new(rs.len(), |i: int| rs[i].rel_path).take(
                        a as int,
                    )[b]);
                } else {
                    assert(paths@[b] == paths@.last());
                }
            }
            assert(names_view(paths@) =~= Seq::new(rs.len(), |i: int| rs[i].rel_path).take(a + 1));
        }
        a = a + 1;
    }
    proof {
        assert(Seq::new(rs.len(), |i: int| rs[i].rel_path).take(rs.len() as int) =~= Seq::new(
            rs.len(),
            |i: int| rs[i].rel_path,
        ));
    }
    let children = build_dir_contents(&paths);
    proof {
        assert(names_view(paths@) == spec_paths(rs));
        assert(entries_view(entries@) =~= spec_entries(rs));
    }
    LayerData { entries, children }
}

/// Hardlink canonicalization: among the regular-file records that share a
/// device and inode, exactly the first becomes a regular entry; every
/// later one becomes a hard link naming that first record's path.
pub proof fn lemma_hardlink_canonical(rs: Seq<ScanRecordV>, i: int)
    requires
        0 <= i < rs.len(),
        rs[i].kind == RecKind::File,
    ensures
        ({
            let f = first_same_ino(rs, rs[i].dev, rs[i].ino, rs.len() as int);
            &&& 0 <= f <= i
            &&& rs[f].kind == RecKind::File && rs[f].dev == rs[i].dev && rs[f].ino == rs[i].ino
            &&& ((spec_entry_of(rs, i).kind is Regular) <==> i == f)
            &&& (i != f ==> spec_entry_of(rs, i).kind == (EntryKindV::Hardlink {
                target_path: rs[f].rel_path,
            }))
        }),
{
    let dev = rs[i].dev;
    let ino = rs[i].ino;
    let f = first_same_ino(rs, dev, ino, rs.len() as int);
    lemma_fsi_shape(rs, dev, ino, rs.len() as int);
    lemma_fsi_shape(rs, dev, ino, i + 1);
    lemma_fsi_shape(rs, dev, ino, i);
    assert(first_same_ino(rs, dev, ino, i + 1) >= 0);
    lemma_fsi_mono(rs, dev, ino, i + 1, rs.len() as int);
    if first_same_ino(rs, dev, ino, i) >= 0 {
        lemma_fsi_mono(rs, dev, ino, i, rs.len() as int);
    }
}

/// The threshold above which file contents are memory-mapped.
pub const MMAP_THRESHOLD: u64 = 65536;

/// How a file's contents are captured during the scan.
#[derive(Debug, Clone, Copy, PartialEq, Eq, Structural)]
pub enum Capture {
    /// Memory-mapped; does not count against the heap budget.
    Mapped,
    /// Read into a heap buffer, charged to the budget.
    Heap,
    /// Not cached; contents are read again when needed.
    Streamed,
}

/// The heap-cache budget: bytes used never pass the limit.
#[derive(Debug, Clone, Copy)]
pub struct CacheBudget {
    pub used: usize,
    pub limit: usize,
}

/// The budget a prefetch limit in MiB allows, saturating at the address
/// space.
pub fn budget_new(prefetch_limit_mb: usize) -> (r: CacheBudget)
    ensures
        r.used == 0,
        r.limit == if prefetch_limit_mb <= usize::MAX as int / 1048576 {
            prefetch_limit_mb * 1048576
        } else {
            usize::MAX as int
        },
{
    let limit: usize = if prefetch_limit_mb <= usize::MAX / 1048576 {
        prefetch_limit_mb * 1048576
    } else {
        usize::MAX
    };
    CacheBudget { used: 0, limit }
}

/// Decides how to capture one file's contents: files at or above the
/// mapping threshold are mapped regardless of the budget; smaller files
/// go to the heap while the budget lasts, and are streamed after.
pub fn budget_decide(b: &mut CacheBudget, size: u64) -> (c: Capture)
    requires
        old(b).used <= old(b).limit,
    ensures
        final(b).limit == old(b).limit,
        final(b).used <= final(b).limit,
        size >= MMAP_THRESHOLD ==> (c == Capture::Mapped && final(b).used == old(b).used),
        (size < MMAP_THRESHOLD && old(b).used + size <= old(b).limit) ==> (c == Capture::Heap
            && final(b).used == old(b).used + size),
        (size < MMAP_THRESHOLD && old(b).used + size > old(b).limit) ==> (c == Capture::Streamed
            && final(b).used == old(b).used),
{
    if size >= MMAP_THRESHOLD {
        Capture::Mapped
    } else {
        let room: usize = b.limit - b.used;
        if size as usize <= room {
            b.used = b.used + size as usize;
            Capture::Heap
        } else {
            Capture::Streamed
        }
    }
}

} // verus!
