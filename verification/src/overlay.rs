//! The overlay analyzer: merges the tar layers below a new layer into one
//! view, honoring whiteout semantics, so emission knows what already
//! exists.
//!
//! Layers are given oldest first. Within the merge, each layer first
//! deletes — opaque whiteouts empty whole directories, file whiteouts
//! remove single paths — and then its own entries overwrite.

use vstd::prelude::*;
use crate::assoc::al_keys;
use crate::assoc::al_lookup;
use crate::assoc::al_lookup_last;
use crate::assoc::build_dir_contents;
use crate::assoc::dc_ok;
use crate::assoc::dc_view;
use crate::assoc::in_names;
use crate::assoc::lemma_al_first;
use crate::assoc::lemma_al_insert;
use crate::assoc::lemma_al_none;
use crate::assoc::lemma_al_push;
use crate::assoc::lemma_al_update;
use crate::assoc::names_view;
use crate::assoc::sorted_al;
use crate::bytesutil::bytes_eq;
use crate::bytesutil::clone_bytes;
use crate::bytesutil::clone_slice;
use crate::bytesutil::lex_lt;
use crate::bytesutil::lex_lt_bytes;
use crate::bytesutil::spec_starts_with;
use crate::bytesutil::starts_with;
use crate::errors::BuildError;

verus! {

/// One tar entry as read from an archive: header fields, raw path bytes,
/// optional link target, and its PAX records in file order.
#[derive(Debug)]
pub struct RawTarEntry {
    pub path: Vec<u8>,
    pub entry_type: u8,
    pub uid: u64,
    pub gid: u64,
    pub mode: u32,
    pub mtime: u64,
    pub size: u64,
    pub link_target: Option<Vec<u8>>,
    pub pax: Vec<(Vec<u8>, Vec<u8>)>,
}

/// One path in the merged lower view.
#[derive(Debug)]
pub struct LowerEntry {
    /// PAX records of the entry, in archive order; a later record with the
    /// same key supersedes an earlier one.
    pub pax_headers: Vec<(Vec<u8>, Vec<u8>)>,
    pub symlink_target: Option<Vec<u8>>,
    pub uid: u64,
    pub gid: u64,
    pub mtime: u64,
    pub size: u64,
    pub mode: u32,
    pub entry_type: u8,
}

impl RawTarEntry {
    /// Packs the fields of one read entry.
    #[allow(clippy::too_many_arguments)]
    pub fn make(
        path: Vec<u8>,
        entry_type: u8,
        uid: u64,
        gid: u64,
        mode: u32,
        mtime: u64,
        size: u64,
        link_target: Option<Vec<u8>>,
        pax: Vec<(Vec<u8>, Vec<u8>)>,
    ) -> (r: RawTarEntry)
        ensures
            r == (RawTarEntry { path, entry_type, uid, gid, mode, mtime, size, link_target, pax }),
    {
        RawTarEntry { path, entry_type, uid, gid, mode, mtime, size, link_target, pax }
    }
}

#[verifier::external_type_specification]
#[verifier::external_body]
pub struct ExTarHeader(tar::Header);

/// Shrinks any failure to an archive error.
fn era<T, E>(r: Result<T, E>) -> (out: Result<T, BuildError>)
    ensures
        out is Ok == r is Ok,
{
    match r {
        Ok(t) => Ok(t),
        Err(_) => Err(BuildError::Archive),
    }
}

/// Relies on tar::Header's accessors uid, gid, mode, mtime, size and
/// entry_type; a header whose numeric fields cannot be read is malformed.
#[verifier::external_body]
fn header_nums(h: &tar::Header) -> (r: Result<(u64, u64, u32, u64, u64, u8), BuildError>)
{
    match (h.uid(), h.gid(), h.mode(), h.mtime(), h.size()) {
        (Ok(u), Ok(g), Ok(m), Ok(t), Ok(s)) => Ok((u, g, m, t, s, h.entry_type().as_byte())),
        _ => Err(BuildError::Archive),
    }
}

/// Relies on tar::Archive over a byte slice: yields each member with GNU
/// long names resolved and its PAX records attached, converted to plain
/// byte records; a malformed archive errors.
#[verifier::external_body]
pub(crate) fn read_tar_entries(data: &[u8]) -> (r: Result<Vec<RawTarEntry>, BuildError>)
{
    let mut ar = tar::Archive::new(data);
    let mut out = Vec::new();
    for ent in era(ar.entries())? {
        let mut e = era(ent)?;
        let pax = era(e.pax_extensions())?.into_iter().flatten().flatten().map(|p| (p.key_bytes().to_vec(), p.value_bytes().to_vec())).collect();
        let lt = e.link_name_bytes().map(|c| c.to_vec());
        let (u, g, m, t, s, k) = header_nums(e.header())?;
        out.push(RawTarEntry::make(e.path_bytes().to_vec(), k, u, g, m, t, s, lt, pax));
    }
    Ok(out)
}

/// `p` with trailing slashes removed.
pub open spec fn strip_trail(p: Seq<u8>) -> Seq<u8>
    decreases p.len(),
{
    if p.len() > 0 && p.last() == 47 {
        strip_trail(p.drop_last())
    } else {
        p
    }
}

/// Index of the last slash, or -1.
pub open spec fn rfind_slash(p: Seq<u8>) -> int
    decreases p.len(),
{
    if p.len() == 0 {
        -1
    } else if p.last() == 47 {
        p.len() - 1
    } else {
        rfind_slash(p.drop_last())
    }
}

/// The directory part of a path: everything before the last slash, after
/// trailing slashes are dropped; empty when there is no slash.
pub open spec fn spec_dirname(p: Seq<u8>) -> Seq<u8> {
    let q = strip_trail(p);
    let j = rfind_slash(q);
    if j < 0 {
        Seq::empty()
    } else {
        q.take(j)
    }
}

/// The name part of a path: everything after the last slash, after
/// trailing slashes are dropped.
pub open spec fn spec_basename(p: Seq<u8>) -> Seq<u8> {
    let q = strip_trail(p);
    let j = rfind_slash(q);
    q.skip(j + 1)
}

/// Splits a path into directory part and name part.
pub fn split_path(p: &[u8]) -> (r: (Vec<u8>, Vec<u8>))
    ensures
        r.0@ == spec_dirname(p@),
        r.1@ == spec_basename(p@),
{
    let mut end: usize = p.len();
    proof {
        assert(p@.take(p@.len() as int) =~= p@);
    }
    while end > 0 && p[end - 1] == 47
        invariant
            end <= p@.len(),
            strip_trail(p@) == strip_trail(p@.take(end as int)),
        decreases end,
    {
        proof {
            assert(p@.take(end as int).drop_last() =~= p@.take(end - 1));
        }
        end = end - 1;
    }
    proof {
        assert(strip_trail(p@.take(end as int)) == p@.take(end as int));
    }
    let ghost q = strip_trail(p@);
    let mut j: usize = end;
    while j > 0 && p[j - 1] != 47
        invariant
            j <= end <= p@.len(),
            q == p@.take(end as int),
            rfind_slash(q) == rfind_slash(p@.take(j as int)),
        decreases j,
    {
        proof {
            assert(p@.take(j as int).drop_last() =~= p@.take(j - 1));
        }
        j = j - 1;
    }
    proof {
        if j > 0 {
            assert(p@.take(j as int).last() == 47);
            assert(rfind_slash(p@.take(j as int)) == j - 1);
        } else {
            assert(p@.take(0).len() == 0);
            assert(rfind_slash(p@.take(0)) == -1);
        }
    }
    let dirname = if j == 0 {
        Vec::new()
    } else {
        clone_slice(&p[0..j - 1])
    };
    let basename = clone_slice(&p[j..end]);
    proof {
        if j > 0 {
            assert(p@.subrange(0, j - 1) =~= q.take(j - 1));
        }
        assert(p@.subrange(j as int, end as int) =~= q.skip(j as int));
    }
    (dirname, basename)
}

/// A clean relative path: nonempty, and no leading or trailing slash.
pub open spec fn wf_rel_path(p: Seq<u8>) -> bool {
    p.len() > 0 && p[0] != 47 && p.last() != 47
}

/// The last slash sits inside the path and is a slash.
proof fn lemma_rfind_shape(p: Seq<u8>)
    ensures
        rfind_slash(p) >= -1,
        rfind_slash(p) < p.len(),
        rfind_slash(p) >= 0 ==> p[rfind_slash(p)] == 47,
        rfind_slash(p) >= 0 ==> forall|a: int| rfind_slash(p) < a < p.len() ==> p[a] != 47,
        rfind_slash(p) < 0 ==> forall|a: int| 0 <= a < p.len() ==> p[a] != 47,
    decreases p.len(),
{
    if p.len() > 0 && p.last() != 47 {
        lemma_rfind_shape(p.drop_last());
        assert forall|a: int| rfind_slash(p) < a < p.len() && rfind_slash(p) >= 0 implies p[a]
            != 47 by {
            if a < p.len() - 1 {
                assert(p.drop_last()[a] == p[a]);
            }
        }
        if rfind_slash(p) < 0 {
            assert forall|a: int| 0 <= a < p.len() implies p[a] != 47 by {
                if a < p.len() - 1 {
                    assert(p.drop_last()[a] == p[a]);
                }
            }
        }
    }
}

/// On a clean path, splitting inverts joining: the path is its directory
/// part, a slash, and its name part — or just the name part when it sits
/// at the top.
pub proof fn lemma_split_inverse(p: Seq<u8>)
    requires
        wf_rel_path(p),
    ensures
        spec_dirname(p).len() > 0 ==> p == spec_dirname(p) + seq![47u8] + spec_basename(p),
        spec_dirname(p).len() == 0 ==> p == spec_basename(p),
        spec_basename(p).len() > 0,
{
    assert(strip_trail(p) == p);
    lemma_rfind_shape(p);
    let j = rfind_slash(p);
    if j >= 0 {
        assert(p[j] == 47);
        assert(j != 0);
        assert(p =~= p.take(j) + seq![p[j]] + p.skip(j + 1));
        assert(seq![p[j]] =~= seq![47u8]);
        assert(spec_dirname(p) == p.take(j));
        assert(spec_basename(p) == p.skip(j + 1));
        assert(p =~= spec_dirname(p) + seq![47u8] + spec_basename(p));
        assert(j < p.len() - 1) by {
            if j == p.len() - 1 {
                assert(p.last() == p[j]);
            }
        }
        assert(spec_basename(p).len() == p.len() - j - 1);
    } else {
        assert(p.skip(0) =~= p);
        assert(spec_basename(p) == p.skip(0));
        assert(spec_dirname(p).len() == 0);
    }
}

/// The bytes of the whiteout marker prefix `.wh.`.
pub open spec fn spec_wh_prefix() -> Seq<u8> {
    seq![46u8, 119u8, 104u8, 46u8]
}

/// The bytes of the opaque-whiteout name `.wh..wh..opq`.
pub open spec fn spec_opq_name() -> Seq<u8> {
    seq![46u8, 119u8, 104u8, 46u8, 46u8, 119u8, 104u8, 46u8, 46u8, 111u8, 112u8, 113u8]
}

/// The whiteout marker prefix `.wh.`.
pub fn wh_prefix() -> (r: Vec<u8>)
    ensures
        r@ == spec_wh_prefix(),
{
    let mut v: Vec<u8> = Vec::new();
    v.push(46);
    v.push(119);
    v.push(104);
    v.push(46);
    proof {
        assert(v@ =~= spec_wh_prefix());
    }
    v
}

/// The opaque-whiteout name `.wh..wh..opq`.
pub fn opq_name() -> (r: Vec<u8>)
    ensures
        r@ == spec_opq_name(),
{
    let mut v: Vec<u8> = Vec::new();
    v.push(46);
    v.push(119);
    v.push(104);
    v.push(46);
    v.push(46);
    v.push(119);
    v.push(104);
    v.push(46);
    v.push(46);
    v.push(111);
    v.push(112);
    v.push(113);
    proof {
        assert(v@ =~= spec_opq_name());
    }
    v
}


/// Ghost view of a lower entry: every byte vector as a sequence.
pub struct LowerEntryV {
    pub pax_headers: Seq<(Seq<u8>, Seq<u8>)>,
    pub symlink_target: Option<Seq<u8>>,
    pub uid: u64,
    pub gid: u64,
    pub mtime: u64,
    pub size: u64,
    pub mode: u32,
    pub entry_type: u8,
}

/// Views of a list of byte-pair records.
pub open spec fn pairs_view(s: Seq<(Vec<u8>, Vec<u8>)>) -> Seq<(Seq<u8>, Seq<u8>)> {
    Seq::new(s.len(), |i: int| (s[i].0@, s[i].1@))
}

impl View for LowerEntry {
    type V = LowerEntryV;

    open spec fn view(&self) -> LowerEntryV {
        LowerEntryV {
            pax_headers: pairs_view(self.pax_headers@),
            symlink_target: match self.symlink_target {
                Some(t) => Some(t@),
                None => None,
            },
            uid: self.uid,
            gid: self.gid,
            mtime: self.mtime,
            size: self.size,
            mode: self.mode,
            entry_type: self.entry_type,
        }
    }
}

/// Ghost view of a raw tar entry.
pub struct RawTarEntryV {
    pub path: Seq<u8>,
    pub entry_type: u8,
    pub uid: u64,
    pub gid: u64,
    pub mode: u32,
    pub mtime: u64,
    pub size: u64,
    pub link_target: Option<Seq<u8>>,
    pub pax: Seq<(Seq<u8>, Seq<u8>)>,
}

impl View for RawTarEntry {
    type V = RawTarEntryV;

    open spec fn view(&self) -> RawTarEntryV {
        RawTarEntryV {
            path: self.path@,
            entry_type: self.entry_type,
            uid: self.uid,
            gid: self.gid,
            mode: self.mode,
            mtime: self.mtime,
            size: self.size,
            link_target: match self.link_target {
                Some(t) => Some(t@),
                None => None,
            },
            pax: pairs_view(self.pax@),
        }
    }
}

/// Is this entry an opaque whiteout for its directory?
pub open spec fn raw_is_opaque(r: RawTarEntryV) -> bool {
    spec_basename(r.path) == spec_opq_name()
}

/// Is this entry an explicit whiteout for a sibling?
pub open spec fn raw_is_whiteout(r: RawTarEntryV) -> bool {
    !raw_is_opaque(r) && spec_starts_with(spec_basename(r.path), spec_wh_prefix())
}

/// The path an explicit whiteout deletes.
pub open spec fn raw_wh_target(r: RawTarEntryV) -> Seq<u8> {
    let d = spec_dirname(r.path);
    let n = spec_basename(r.path).skip(4);
    if d.len() == 0 {
        n
    } else {
        d + seq![47u8] + n
    }
}

/// The lower-view entry an ordinary tar member contributes.
pub open spec fn raw_entry(r: RawTarEntryV) -> LowerEntryV {
    LowerEntryV {
        pax_headers: r.pax,
        symlink_target: if r.entry_type == 50 {
            r.link_target
        } else {
            None
        },
        uid: r.uid,
        gid: r.gid,
        mtime: r.mtime,
        size: r.size,
        mode: r.mode,
        entry_type: r.entry_type,
    }
}


/// View of a path-to-entry association list.
pub open spec fn assoc_view(s: Seq<(Vec<u8>, LowerEntry)>) -> Seq<(Seq<u8>, LowerEntryV)> {
    Seq::new(s.len(), |i: int| (s[i].0@, s[i].1@))
}

/// Dirs that an opaque whiteout list empties: `k` sits under one of them.
pub open spec fn has_opq_prefix(k: Seq<u8>, dirs: Seq<Seq<u8>>) -> bool {
    exists|i: int| 0 <= i < dirs.len() && spec_starts_with(k, dirs[i] + seq![47u8])
}

/// Does `k` sit under one of the opaque dirs?
fn any_opq_prefix(k: &[u8], opq: &Vec<Vec<u8>>) -> (r: bool)
    ensures
        r == has_opq_prefix(k@, names_view(opq@)),
{
    let mut i: usize = 0;
    while i < opq.len()
        invariant
            i <= opq@.len(),
            forall|a: int| 0 <= a < i ==> !spec_starts_with(k@, names_view(opq@)[a] + seq![47u8]),
        decreases opq@.len() - i,
    {
        let mut pre = clone_bytes(&opq[i]);
        pre.push(47);
        proof {
            assert(pre@ =~= names_view(opq@)[i as int] + seq![47u8]);
        }
        if starts_with(k, pre.as_slice()) {
            return true;
        }
        i = i + 1;
    }
    false
}

/// Is `k` one of the names?
fn name_listed(k: &[u8], l: &Vec<Vec<u8>>) -> (r: bool)
    ensures
        r == in_names(k@, names_view(l@)),
{
    let mut i: usize = 0;
    while i < l.len()
        invariant
            i <= l@.len(),
            forall|a: int| 0 <= a < i ==> names_view(l@)[a] != k@,
        decreases l@.len() - i,
    {
        if bytes_eq(k, l[i].as_slice()) {
            proof {
                assert(names_view(l@)[i as int] == k@);
            }
            return true;
        }
        i = i + 1;
    }
    false
}

/// Removes every entry whose key fails `keep`; `keep` is given as the pair
/// of whiteout lists of one layer.
fn remove_deleted(files: Vec<(Vec<u8>, LowerEntry)>, opq: &Vec<Vec<u8>>, whs: &Vec<Vec<u8>>) -> (r:
    Vec<(Vec<u8>, LowerEntry)>)
    requires
        sorted_al(assoc_view(files@)),
    ensures
        sorted_al(assoc_view(r@)),
        forall|k: Seq<u8>| #![all_triggers]
            al_lookup(assoc_view(r@), k) == (if has_opq_prefix(k, names_view(opq@)) || in_names(
                k,
                names_view(whs@),
            ) {
                None::<LowerEntryV>
            } else {
                al_lookup(assoc_view(files@), k)
            }),
{
    let ghost fv = assoc_view(files@);
    let mut r: Vec<(Vec<u8>, LowerEntry)> = Vec::new();
    let ghost mut last_src: int = 0;
    let mut i: usize = 0;
    while i < files.len()
        invariant
            i <= files@.len(),
            fv == assoc_view(files@),
            sorted_al(fv),
            sorted_al(assoc_view(r@)),
            r@.len() > 0 ==> 0 <= last_src < i && assoc_view(r@).last().0 == fv[last_src].0,
            forall|k: Seq<u8>| #![all_triggers]
                al_lookup(assoc_view(r@), k) == (if has_opq_prefix(k, names_view(opq@))
                    || in_names(k, names_view(whs@)) {
                    None::<LowerEntryV>
                } else {
                    al_lookup(fv.take(i as int), k)
                }),
        decreases files@.len() - i,
    {
        let ghost r_before = assoc_view(r@);
        let key = clone_bytes(&files[i].0);
        let dropped = any_opq_prefix(key.as_slice(), opq) || name_listed(key.as_slice(), whs);
        if !dropped {
            let e = clone_lower_entry(&files[i].1);
            proof {
                if r@.len() > 0 {
                    assert(lex_lt(assoc_view(r@).last().0, fv[i as int].0));
                }
                assert forall|a: int| 0 <= a < r@.len() implies lex_lt(
                    assoc_view(r@)[a].0,
                    fv[i as int].0,
                ) by {
                    if a < r@.len() - 1 {
                        crate::bytesutil::lemma_lex_trans(
                            assoc_view(r@)[a].0,
                            assoc_view(r@).last().0,
                            fv[i as int].0,
                        );
                    }
                }
            }
            r.push((key, e));
            proof {
                last_src = i as int;
                assert(assoc_view(r@) =~= r_before.push((fv[last_src].0, fv[last_src].1)));
            }
        }
        proof {
            assert(fv.take(i + 1) =~= fv.take(i as int).push(fv[i as int]));
            assert forall|k: Seq<u8>| #![all_triggers]
                al_lookup(assoc_view(r@), k) == (if has_opq_prefix(k, names_view(opq@))
                    || in_names(k, names_view(whs@)) {
                    None::<LowerEntryV>
                } else {
                    al_lookup(fv.take(i + 1), k)
                }) by {
                lemma_al_push(fv.take(i as int), fv[i as int], k);
                if !dropped {
                    lemma_al_push(r_before, (fv[i as int].0, fv[i as int].1), k);
                }
            }
        }
        i = i + 1;
    }
    proof {
        assert(fv.take(fv.len() as int) =~= fv);
    }
    r
}

/// Copies a list of byte-pair records.
pub(crate) fn clone_pairs(s: &Vec<(Vec<u8>, Vec<u8>)>) -> (r: Vec<(Vec<u8>, Vec<u8>)>)
    ensures
        pairs_view(r@) == pairs_view(s@),
{
    let mut r: Vec<(Vec<u8>, Vec<u8>)> = Vec::new();
    let mut i: usize = 0;
    while i < s.len()
        invariant
            i <= s@.len(),
            r@.len() == i,
            pairs_view(r@) == pairs_view(s@).take(i as int),
        decreases s@.len() - i,
    {
        let k = clone_bytes(&s[i].0);
        let v = clone_bytes(&s[i].1);
        let ghost prev = r@;
        r.push((k, v));
        proof {
            assert forall|j: int| 0 <= j < r@.len() implies pairs_view(r@)[j] == pairs_view(
                s@,
            ).take(i + 1)[j] by {
                if j < i {
                    assert(r@[j] == prev[j]);
                    assert(pairs_view(prev)[j] == pairs_view(s@).take(i as int)[j]);
                } else {
                    assert(r@[j] == (k, v));
                }
            }
            assert(pairs_view(r@) =~= pairs_view(s@).take(i + 1));
        }
        i = i + 1;
    }
    proof {
        assert(pairs_view(s@).take(s@.len() as int) =~= pairs_view(s@));
    }
    r
}

/// Copies a lower entry.
fn clone_lower_entry(e: &LowerEntry) -> (r: LowerEntry)
    ensures
        r@ == e@,
{
    let pax_headers = clone_pairs(&e.pax_headers);
    let symlink_target = match &e.symlink_target {
        Some(t) => Some(clone_bytes(t)),
        None => None,
    };
    LowerEntry {
        pax_headers,
        symlink_target,
        uid: e.uid,
        gid: e.gid,
        mtime: e.mtime,
        size: e.size,
        mode: e.mode,
        entry_type: e.entry_type,
    }
}

/// Inserts or overwrites one path in a sorted association list.
fn upsert(files: &mut Vec<(Vec<u8>, LowerEntry)>, p: Vec<u8>, e: LowerEntry)
    requires
        sorted_al(assoc_view(old(files)@)),
    ensures
        sorted_al(assoc_view(final(files)@)),
        forall|k: Seq<u8>| #![all_triggers]
            al_lookup(assoc_view(final(files)@), k) == (if k == p@ {
                Some(e@)
            } else {
                al_lookup(assoc_view(old(files)@), k)
            }),
{
    let ghost fv = assoc_view(files@);
    let mut pos: usize = 0;
    while pos < files.len() && lex_lt_bytes(files[pos].0.as_slice(), p.as_slice())
        invariant
            pos <= files@.len(),
            fv == assoc_view(files@),
            sorted_al(fv),
            forall|a: int| 0 <= a < pos ==> lex_lt(fv[a].0, p@),
        decreases files@.len() - pos,
    {
        pos = pos + 1;
    }
    proof {
        assert forall|a: int| 0 <= a < pos implies fv[a].0 != p@ by {
            if fv[a].0 == p@ {
                crate::bytesutil::lemma_lex_irrefl(p@);
            }
        }
    }
    if pos < files.len() && bytes_eq(files[pos].0.as_slice(), p.as_slice()) {
        files.set(pos, (p, e));
        proof {
            let nv = assoc_view(files@);
            assert(nv =~= fv.update(pos as int, (p@, e@)));
            assert forall|i: int, j: int| 0 <= i < j < nv.len() implies lex_lt(
                nv[i].0,
                nv[j].0,
            ) by {
                assert(nv[i].0 == fv[i].0);
                assert(nv[j].0 == fv[j].0);
            }
            assert forall|k: Seq<u8>| #![all_triggers]
                al_lookup(nv, k) == (if k == p@ {
                    Some(e@)
                } else {
                    al_lookup(fv, k)
                }) by {
                lemma_al_update(fv, pos as int, (p@, e@), k);
            }
        }
    } else {
        proof {
            if pos < files@.len() {
                crate::bytesutil::lemma_lex_total(fv[pos as int].0, p@);
            }
            assert forall|a: int| pos <= a < fv.len() implies lex_lt(p@, fv[a].0) by {
                if a > pos {
                    crate::bytesutil::lemma_lex_trans(p@, fv[pos as int].0, fv[a].0);
                }
            }
        }
        files.insert(pos, (p, e));
        proof {
            let nv = assoc_view(files@);
            assert(nv =~= fv.insert(pos as int, (p@, e@)));
            assert(fv.insert(pos as int, (p@, e@)) =~= fv.take(pos as int) + seq![(p@, e@)]
                + fv.skip(pos as int));
            assert forall|i: int, j: int| 0 <= i < j < nv.len() implies lex_lt(
                nv[i].0,
                nv[j].0,
            ) by {
                assert(nv[i] == if i < pos {
                    fv[i]
                } else if i == pos {
                    (p@, e@)
                } else {
                    fv[i - 1]
                });
                assert(nv[j] == if j < pos {
                    fv[j]
                } else if j == pos {
                    (p@, e@)
                } else {
                    fv[j - 1]
                });
            }
            assert forall|k: Seq<u8>| #![all_triggers]
                al_lookup(nv, k) == (if k == p@ {
                    Some(e@)
                } else {
                    al_lookup(fv, k)
                }) by {
                lemma_al_insert(fv, pos as int, (p@, e@), k);
            }
        }
    }
}

/// Views of one parsed archive.
pub open spec fn layer_view(l: Seq<RawTarEntry>) -> Seq<RawTarEntryV> {
    Seq::new(l.len(), |i: int| l[i]@)
}

/// The entry the layer itself contributes at path `k`: its last ordinary
/// member with that path.
pub open spec fn layer_lookup(entries: Seq<RawTarEntryV>, k: Seq<u8>) -> Option<LowerEntryV>
    decreases entries.len(),
{
    if entries.len() == 0 {
        None
    } else {
        let l = entries.last();
        if !raw_is_opaque(l) && !raw_is_whiteout(l) && l.path == k {
            Some(raw_entry(l))
        } else {
            layer_lookup(entries.drop_last(), k)
        }
    }
}

/// Does an opaque whiteout of this layer empty a directory above `k`?
pub open spec fn layer_opq(entries: Seq<RawTarEntryV>, k: Seq<u8>) -> bool {
    exists|i: int|
        0 <= i < entries.len() && raw_is_opaque(entries[i]) && spec_starts_with(
            k,
            spec_dirname(entries[i].path) + seq![47u8],
        )
}

/// Does an explicit whiteout of this layer delete exactly `k`?
pub open spec fn layer_whs(entries: Seq<RawTarEntryV>, k: Seq<u8>) -> bool {
    exists|i: int|
        0 <= i < entries.len() && raw_is_whiteout(entries[i]) && raw_wh_target(entries[i]) == k
}

/// Does the layer delete path `k`?
pub open spec fn layer_removes(entries: Seq<RawTarEntryV>, k: Seq<u8>) -> bool {
    layer_whs(entries, k) || layer_opq(entries, k)
}

/// The merged lower view at `k`: the newest layer that settles `k` —
/// by contributing an entry or by deleting it — decides.
pub open spec fn merged_lookup(layers: Seq<Seq<RawTarEntryV>>, k: Seq<u8>) -> Option<LowerEntryV>
    decreases layers.len(),
{
    if layers.len() == 0 {
        None
    } else {
        let last = layers.last();
        if layer_lookup(last, k) is Some {
            layer_lookup(last, k)
        } else if layer_removes(last, k) {
            None
        } else {
            merged_lookup(layers.drop_last(), k)
        }
    }
}

proof fn lemma_opq_prefix_push(k: Seq<u8>, names: Seq<Seq<u8>>, d: Seq<u8>)
    ensures
        has_opq_prefix(k, names.push(d)) == (has_opq_prefix(k, names) || spec_starts_with(
            k,
            d + seq![47u8],
        )),
{
    if has_opq_prefix(k, names.push(d)) {
        let i = choose|i: int|
            0 <= i < names.push(d).len() && spec_starts_with(k, names.push(d)[i] + seq![47u8]);
        if i < names.len() {
            assert(names.push(d)[i] == names[i]);
            assert(has_opq_prefix(k, names));
        } else {
            assert(names.push(d)[i] == d);
        }
    }
    if has_opq_prefix(k, names) {
        let i = choose|i: int| 0 <= i < names.len() && spec_starts_with(k, names[i] + seq![47u8]);
        assert(names.push(d)[i] == names[i]);
        assert(has_opq_prefix(k, names.push(d)));
    }
    if spec_starts_with(k, d + seq![47u8]) {
        assert(names.push(d)[names.len() as int] == d);
        assert(has_opq_prefix(k, names.push(d)));
    }
}

proof fn lemma_layer_opq_step(entries: Seq<RawTarEntryV>, j: int, k: Seq<u8>)
    requires
        0 <= j < entries.len(),
    ensures
        layer_opq(entries.take(j + 1), k) == (layer_opq(entries.take(j), k) || (raw_is_opaque(
            entries[j],
        ) && spec_starts_with(k, spec_dirname(entries[j].path) + seq![47u8]))),
{
    let t1 = entries.take(j + 1);
    let t0 = entries.take(j);
    if layer_opq(t1, k) {
        let i = choose|i: int|
            0 <= i < t1.len() && raw_is_opaque(t1[i]) && spec_starts_with(
                k,
                spec_dirname(t1[i].path) + seq![47u8],
            );
        if i < j {
            assert(t0[i] == t1[i]);
            assert(layer_opq(t0, k));
        } else {
            assert(t1[i] == entries[j]);
        }
    }
    if layer_opq(t0, k) {
        let i = choose|i: int|
            0 <= i < t0.len() && raw_is_opaque(t0[i]) && spec_starts_with(
                k,
                spec_dirname(t0[i].path) + seq![47u8],
            );
        assert(t1[i] == t0[i]);
        assert(layer_opq(t1, k));
    }
    if raw_is_opaque(entries[j]) && spec_starts_with(k, spec_dirname(entries[j].path) + seq![47u8]) {
        assert(t1[j] == entries[j]);
        assert(layer_opq(t1, k));
    }
}

proof fn lemma_layer_whs_step(entries: Seq<RawTarEntryV>, j: int, k: Seq<u8>)
    requires
        0 <= j < entries.len(),
    ensures
        layer_whs(entries.take(j + 1), k) == (layer_whs(entries.take(j), k) || (raw_is_whiteout(
            entries[j],
        ) && raw_wh_target(entries[j]) == k)),
{
    let t1 = entries.take(j + 1);
    let t0 = entries.take(j);
    if layer_whs(t1, k) {
        let i = choose|i: int|
            0 <= i < t1.len() && raw_is_whiteout(t1[i]) && raw_wh_target(t1[i]) == k;
        if i < j {
            assert(t0[i] == t1[i]);
            assert(layer_whs(t0, k));
        } else {
            assert(t1[i] == entries[j]);
        }
    }
    if layer_whs(t0, k) {
        let i = choose|i: int|
            0 <= i < t0.len() && raw_is_whiteout(t0[i]) && raw_wh_target(t0[i]) == k;
        assert(t1[i] == t0[i]);
        assert(layer_whs(t1, k));
    }
    if raw_is_whiteout(entries[j]) && raw_wh_target(entries[j]) == k {
        assert(t1[j] == entries[j]);
        assert(layer_whs(t1, k));
    }
}

/// Merges one parsed layer into the accumulated lower view: the layer's
/// whiteouts delete, then its entries overwrite.
fn process_layer(files: Vec<(Vec<u8>, LowerEntry)>, layer: &Vec<RawTarEntry>) -> (r: Vec<
    (Vec<u8>, LowerEntry),
>)
    requires
        sorted_al(assoc_view(files@)),
    ensures
        sorted_al(assoc_view(r@)),
        forall|k: Seq<u8>| #![all_triggers]
            al_lookup(assoc_view(r@), k) == (if layer_lookup(layer_view(layer@), k) is Some {
                layer_lookup(layer_view(layer@), k)
            } else if layer_removes(layer_view(layer@), k) {
                None::<LowerEntryV>
            } else {
                al_lookup(assoc_view(files@), k)
            }),
{
    let ghost lv = layer_view(layer@);
    let mut opq: Vec<Vec<u8>> = Vec::new();
    let mut whs: Vec<Vec<u8>> = Vec::new();
    let mut ents: Vec<(Vec<u8>, LowerEntry)> = Vec::new();
    let mut j: usize = 0;
    proof {
        assert(lv.take(0) =~= Seq::<RawTarEntryV>::empty());
    }
    while j < layer.len()
        invariant
            j <= layer@.len(),
            lv == layer_view(layer@),
            forall|k: Seq<u8>| #![all_triggers]
                has_opq_prefix(k, names_view(opq@)) == layer_opq(lv.take(j as int), k),
            forall|k: Seq<u8>| #![all_triggers]
                in_names(k, names_view(whs@)) == layer_whs(lv.take(j as int), k),
            forall|k: Seq<u8>| #![all_triggers]
                al_lookup_last(assoc_view(ents@), k) == layer_lookup(lv.take(j as int), k),
        decreases layer@.len() - j,
    {
        let (d, n) = split_path(layer[j].path.as_slice());
        let ghost opq_prev = names_view(opq@);
        let ghost whs_prev = names_view(whs@);
        let ghost ents_prev = assoc_view(ents@);
        proof {
            assert(lv[j as int] == layer@[j as int]@);
            assert(lv.take(j + 1).last() == lv[j as int]);
            assert(lv.take(j + 1).drop_last() =~= lv.take(j as int));
        }
        let on = opq_name();
        let wp = wh_prefix();
        if bytes_eq(n.as_slice(), on.as_slice()) {
            opq.push(d);
            proof {
                assert(names_view(opq@) =~= opq_prev.push(spec_dirname(lv[j as int].path)));
                assert(raw_is_opaque(lv[j as int]));
                assert forall|k: Seq<u8>| #![all_triggers]
                    has_opq_prefix(k, names_view(opq@)) == layer_opq(lv.take(j + 1), k) by {
                    lemma_opq_prefix_push(k, opq_prev, spec_dirname(lv[j as int].path));
                    lemma_layer_opq_step(lv, j as int, k);
                }
                assert forall|k: Seq<u8>| #![all_triggers]
                    in_names(k, names_view(whs@)) == layer_whs(lv.take(j + 1), k) by {
                    lemma_layer_whs_step(lv, j as int, k);
                }
                assert forall|k: Seq<u8>| #![all_triggers]
                    al_lookup_last(assoc_view(ents@), k) == layer_lookup(lv.take(j + 1), k) by {}
            }
        } else if starts_with(n.as_slice(), wp.as_slice()) {
            let stripped = crate::bytesutil::suffix_bytes(n.as_slice(), 4);
            let target: Vec<u8> = if d.len() == 0 {
                stripped
            } else {
                let mut t = d;
                t.push(47);
                let mut t2 = t;
                crate::bytesutil::push_all(&mut t2, stripped.as_slice());
                t2
            };
            proof {
                assert(stripped@ == spec_basename(lv[j as int].path).skip(4));
                assert(target@ =~= raw_wh_target(lv[j as int]));
                assert(raw_is_whiteout(lv[j as int]));
            }
            whs.push(target);
            proof {
                assert(names_view(whs@) =~= whs_prev.push(raw_wh_target(lv[j as int])));
                assert forall|k: Seq<u8>| #![all_triggers]
                    in_names(k, names_view(whs@)) == layer_whs(lv.take(j + 1), k) by {
                    crate::assoc::lemma_in_names_push(k, whs_prev, raw_wh_target(lv[j as int]));
                    lemma_layer_whs_step(lv, j as int, k);
                }
                assert forall|k: Seq<u8>| #![all_triggers]
                    has_opq_prefix(k, names_view(opq@)) == layer_opq(lv.take(j + 1), k) by {
                    lemma_layer_opq_step(lv, j as int, k);
                }
                assert forall|k: Seq<u8>| #![all_triggers]
                    al_lookup_last(assoc_view(ents@), k) == layer_lookup(lv.take(j + 1), k) by {}
            }
        } else {
            let p = clone_bytes(&layer[j].path);
            let pax_headers = clone_pairs(&layer[j].pax);
            let symlink_target: Option<Vec<u8>> = if layer[j].entry_type == 50 {
                match &layer[j].link_target {
                    Some(t) => Some(clone_bytes(t)),
                    None => None,
                }
            } else {
                None
            };
            let e = LowerEntry {
                pax_headers,
                symlink_target,
                uid: layer[j].uid,
                gid: layer[j].gid,
                mtime: layer[j].mtime,
                size: layer[j].size,
                mode: layer[j].mode,
                entry_type: layer[j].entry_type,
            };
            proof {
                assert(e@ == raw_entry(lv[j as int]));
                assert(!raw_is_opaque(lv[j as int]) && !raw_is_whiteout(lv[j as int]));
            }
            ents.push((p, e));
            proof {
                assert(assoc_view(ents@) =~= ents_prev.push((lv[j as int].path, raw_entry(
                    lv[j as int],
                ))));
                assert(assoc_view(ents@).last() == (lv[j as int].path, raw_entry(lv[j as int])));
                assert(assoc_view(ents@).drop_last() =~= ents_prev);
                assert forall|k: Seq<u8>| #![all_triggers]
                    al_lookup_last(assoc_view(ents@), k) == layer_lookup(lv.take(j + 1), k) by {
                    assert(al_lookup_last(ents_prev, k) == layer_lookup(lv.take(j as int), k));
                }
                assert forall|k: Seq<u8>| #![all_triggers]
                    has_opq_prefix(k, names_view(opq@)) == layer_opq(lv.take(j + 1), k) by {
                    lemma_layer_opq_step(lv, j as int, k);
                }
                assert forall|k: Seq<u8>| #![all_triggers]
                    in_names(k, names_view(whs@)) == layer_whs(lv.take(j + 1), k) by {
                    lemma_layer_whs_step(lv, j as int, k);
                }
            }
        }
        j = j + 1;
    }
    proof {
        assert(lv.take(lv.len() as int) =~= lv);
    }
    let ghost base = assoc_view(files@);
    let mut merged = remove_deleted(files, &opq, &whs);
    let ghost ents0 = assoc_view(ents@);
    let ghost filtered = assoc_view(merged@);
    let mut ents_left = ents;
    proof {
        assert(assoc_view(ents_left@) =~= ents0.skip(0));
        assert(ents0.take(0) =~= Seq::<(Seq<u8>, LowerEntryV)>::empty());
    }
    let ghost mut done: int = 0;
    while ents_left.len() > 0
        invariant
            0 <= done <= ents0.len(),
            ents_left@.len() == ents0.len() - done,
            assoc_view(ents_left@) =~= ents0.skip(done),
            sorted_al(assoc_view(merged@)),
            forall|k: Seq<u8>| #![all_triggers]
                al_lookup(assoc_view(merged@), k) == (if al_lookup_last(
                    ents0.take(done),
                    k,
                ) is Some {
                    al_lookup_last(ents0.take(done), k)
                } else {
                    al_lookup(filtered, k)
                }),
        decreases ents_left@.len(),
    {
        let ghost left_prev = assoc_view(ents_left@);
        let ghost merged_prev = assoc_view(merged@);
        let (p, e) = ents_left.remove(0);
        proof {
            assert((p@, e@) == left_prev[0]);
            assert(left_prev[0] == ents0[done]);
            assert(assoc_view(ents_left@) =~= left_prev.drop_first());
            assert(left_prev.drop_first() =~= ents0.skip(done + 1));
        }
        upsert(&mut merged, p, e);
        proof {
            assert(ents0.take(done + 1).last() == ents0[done]);
            assert(ents0.take(done + 1).drop_last() =~= ents0.take(done));
            assert forall|k: Seq<u8>| #![all_triggers]
                al_lookup(assoc_view(merged@), k) == (if al_lookup_last(
                    ents0.take(done + 1),
                    k,
                ) is Some {
                    al_lookup_last(ents0.take(done + 1), k)
                } else {
                    al_lookup(filtered, k)
                }) by {}
            done = done + 1;
        }
    }
    proof {
        assert(ents0.take(ents0.len() as int) =~= ents0);
        assert forall|k: Seq<u8>| #![all_triggers]
            al_lookup(assoc_view(merged@), k) == (if layer_lookup(lv, k) is Some {
                layer_lookup(lv, k)
            } else if layer_removes(lv, k) {
                None::<LowerEntryV>
            } else {
                al_lookup(base, k)
            }) by {}
    }
    merged
}


/// Views of one invocation's layer list.
pub open spec fn layers_view(ls: Seq<Vec<RawTarEntry>>) -> Seq<Seq<RawTarEntryV>> {
    Seq::new(ls.len(), |i: int| layer_view(ls[i]@))
}

/// The merged state of the layers below a new layer: each surviving path
/// with its entry, and each populated directory with its sorted names.
#[derive(Debug)]
pub struct LowerAnalysis {
    /// Path to entry, keys sorted and unique.
    pub files: Vec<(Vec<u8>, LowerEntry)>,
    /// Directory path to sorted list of names inside it.
    pub dir_contents: Vec<(Vec<u8>, Vec<Vec<u8>>)>,
}

/// Reads an ordered list of parsed tar layers — oldest first — into the
/// combined filesystem state the new layer sits on: each layer's opaque
/// and explicit whiteouts delete from the state below it, then its own
/// members overwrite.
pub fn analyze_lowers(layers: &Vec<Vec<RawTarEntry>>) -> (r: LowerAnalysis)
    ensures
        sorted_al(assoc_view(r.files@)),
        forall|k: Seq<u8>| #![all_triggers]
            al_lookup(assoc_view(r.files@), k) == merged_lookup(layers_view(layers@), k),
        dc_ok(dc_view(r.dir_contents@), al_keys(assoc_view(r.files@))),
{
    let mut files: Vec<(Vec<u8>, LowerEntry)> = Vec::new();
    let mut i: usize = 0;
    proof {
        assert(layers_view(layers@).take(0) =~= Seq::<Seq<RawTarEntryV>>::empty());
        assert(assoc_view(files@) =~= Seq::<(Seq<u8>, LowerEntryV)>::empty());
        assert forall|k: Seq<u8>| #![all_triggers]
            al_lookup(assoc_view(files@), k) == merged_lookup(
                layers_view(layers@).take(0),
                k,
            ) by {
            assert(al_lookup(Seq::<(Seq<u8>, LowerEntryV)>::empty(), k) is None);
        }
    }
    while i < layers.len()
        invariant
            i <= layers@.len(),
            sorted_al(assoc_view(files@)),
            forall|k: Seq<u8>| #![all_triggers]
                al_lookup(assoc_view(files@), k) == merged_lookup(
                    layers_view(layers@).take(i as int),
                    k,
                ),
        decreases layers@.len() - i,
    {
        let ghost before = assoc_view(files@);
        files = process_layer(files, &layers[i]);
        proof {
            let lsv = layers_view(layers@);
            assert(lsv.take(i + 1).last() == layer_view(layers@[i as int]@));
            assert(lsv.take(i + 1).drop_last() =~= lsv.take(i as int));
            assert forall|k: Seq<u8>| #![all_triggers]
                al_lookup(assoc_view(files@), k) == merged_lookup(lsv.take(i + 1), k) by {}
        }
        i = i + 1;
    }
    proof {
        assert(layers_view(layers@).take(layers@.len() as int) =~= layers_view(layers@));
    }
    let mut keys: Vec<Vec<u8>> = Vec::new();
    let mut a: usize = 0;
    while a < files.len()
        invariant
            a <= files@.len(),
            keys@.len() == a,
            names_view(keys@) == al_keys(assoc_view(files@)).take(a as int),
        decreases files@.len() - a,
    {
        let kb = clone_bytes(&files[a].0);
        let ghost prev = keys@;
        proof {
            assert(prev.len() == a);
        }
        keys.push(kb);
        proof {
            assert(keys@ == prev.push(kb));
            assert forall|b: int| 0 <= b < keys@.len() implies names_view(keys@)[b] == al_keys(
                assoc_view(files@),
            ).take(a + 1)[b] by {
                if b < a {
                    assert(keys@[b] == prev[b]);
                    assert(names_view(prev)[b] == al_keys(assoc_view(files@)).take(a as int)[b]);
                } else {
                    assert(keys@[b] == kb);
                    assert(kb@ == files@[a as int].0@);
                    assert(al_keys(assoc_view(files@)).take(a + 1)[b] == assoc_view(
                        files@,
                    )[a as int].0);
                }
            }
            assert(names_view(keys@) =~= al_keys(assoc_view(files@)).take(a + 1));
        }
        a = a + 1;
    }
    proof {
        assert(al_keys(assoc_view(files@)).take(files@.len() as int) =~= al_keys(
            assoc_view(files@),
        ));
        assert(names_view(keys@) == al_keys(assoc_view(files@)));
    }
    let dir_contents = build_dir_contents(&keys);
    LowerAnalysis { files, dir_contents }
}

impl LowerAnalysis {
    /// The merged entry at a path, if any.
    pub fn file(&self, path: &[u8]) -> (r: Option<&LowerEntry>)
        ensures
            match r {
                Some(e) => al_lookup(assoc_view(self.files@), path@) == Some(e@),
                None => al_lookup(assoc_view(self.files@), path@) is None,
            },
    {
        let mut i: usize = 0;
        while i < self.files.len()
            invariant
                i <= self.files@.len(),
                forall|a: int| 0 <= a < i ==> assoc_view(self.files@)[a].0 != path@,
            decreases self.files@.len() - i,
        {
            if bytes_eq(self.files[i].0.as_slice(), path) {
                proof {
                    lemma_al_first(assoc_view(self.files@), path@, i as int);
                }
                return Some(&self.files[i].1);
            }
            i = i + 1;
        }
        proof {
            lemma_al_none(assoc_view(self.files@), path@);
        }
        None
    }

    /// The sorted names directly inside a directory, if any are known.
    pub fn children(&self, d: &[u8]) -> (r: Option<&Vec<Vec<u8>>>)
        ensures
            match r {
                Some(names) => al_lookup(dc_view(self.dir_contents@), d@) == Some(
                    names_view(names@),
                ),
                None => al_lookup(dc_view(self.dir_contents@), d@) is None,
            },
    {
        let mut i: usize = 0;
        while i < self.dir_contents.len()
            invariant
                i <= self.dir_contents@.len(),
                forall|a: int| 0 <= a < i ==> dc_view(self.dir_contents@)[a].0 != d@,
            decreases self.dir_contents@.len() - i,
        {
            if bytes_eq(self.dir_contents[i].0.as_slice(), d) {
                proof {
                    lemma_al_first(dc_view(self.dir_contents@), d@, i as int);
                }
                return Some(&self.dir_contents[i].1);
            }
            i = i + 1;
        }
        proof {
            lemma_al_none(dc_view(self.dir_contents@), d@);
        }
        None
    }
}

} // verus!
