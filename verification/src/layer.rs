//! The tar emitter: the canonical plan of a new layer — directories in
//! depth-first pre-order, whiteouts before files, files in sorted order,
//! entries identical to the lower view skipped — and its byte-exact
//! rendering.

use vstd::prelude::*;
use crate::assoc::al_lookup;
use crate::assoc::al_lookup_last;
use crate::bytesutil::push_all;
use crate::errors::BuildError;
use crate::overlay::pairs_view;
use crate::tarfmt::pad_len;
use crate::tarfmt::render_header;
use crate::tarfmt::spec_header;
use crate::tarfmt::spec_pax_record;
use crate::tarfmt::write_pad;
use crate::tarfmt::write_pax_record;
use crate::tarfmt::zeros;

verus! {

/// One planned tar entry.
#[derive(Debug)]
pub enum TarItem {
    /// A directory header; its name ends with a slash.
    Dir { name: Vec<u8>, mode: u32, uid: u64, gid: u64, mtime: u64 },
    /// A zero-length regular entry whose name marks a deletion.
    Whiteout { name: Vec<u8>, mode: u32, uid: u64, gid: u64, mtime: u64 },
    /// A file-like entry: regular file, symlink, hard link, or other,
    /// with its PAX records and body bytes.
    File {
        name: Vec<u8>,
        mode: u32,
        uid: u64,
        gid: u64,
        mtime: u64,
        size: u64,
        typeflag: u8,
        linkname: Vec<u8>,
        pax: Vec<(Vec<u8>, Vec<u8>)>,
        body: Vec<u8>,
    },
}

/// Ghost view of a planned tar entry.
#[verifier::ext_equal]
pub enum TarItemV {
    Dir { name: Seq<u8>, mode: u32, uid: u64, gid: u64, mtime: u64 },
    Whiteout { name: Seq<u8>, mode: u32, uid: u64, gid: u64, mtime: u64 },
    File {
        name: Seq<u8>,
        mode: u32,
        uid: u64,
        gid: u64,
        mtime: u64,
        size: u64,
        typeflag: u8,
        linkname: Seq<u8>,
        pax: Seq<(Seq<u8>, Seq<u8>)>,
        body: Seq<u8>,
    },
}

impl View for TarItem {
    type V = TarItemV;

    open spec fn view(&self) -> TarItemV {
        match self {
            TarItem::Dir { name, mode, uid, gid, mtime } => TarItemV::Dir {
                name: name@,
                mode: *mode,
                uid: *uid,
                gid: *gid,
                mtime: *mtime,
            },
            TarItem::Whiteout { name, mode, uid, gid, mtime } => TarItemV::Whiteout {
                name: name@,
                mode: *mode,
                uid: *uid,
                gid: *gid,
                mtime: *mtime,
            },
            TarItem::File { name, mode, uid, gid, mtime, size, typeflag, linkname, pax, body } => TarItemV::File {
                name: name@,
                mode: *mode,
                uid: *uid,
                gid: *gid,
                mtime: *mtime,
                size: *size,
                typeflag: *typeflag,
                linkname: linkname@,
                pax: pairs_view(pax@),
                body: body@,
            },
        }
    }
}

/// Views of a plan.
pub open spec fn items_view(s: Seq<TarItem>) -> Seq<TarItemV> {
    Seq::new(s.len(), |i: int| s[i]@)
}

/// The name `././@LongLink` that announces a GNU long-name entry.
pub open spec fn spec_longlink_name() -> Seq<u8> {
    seq![
        46u8, 47u8, 46u8, 47u8, 64u8, 76u8, 111u8, 110u8, 103u8, 76u8, 105u8, 110u8, 107u8,
    ]
}

fn longlink_name() -> (r: Vec<u8>)
    ensures
        r@ == spec_longlink_name(),
{
    let mut v: Vec<u8> = Vec::new();
    v.push(46);
    v.push(47);
    v.push(46);
    v.push(47);
    v.push(64);
    v.push(76);
    v.push(111);
    v.push(110);
    v.push(103);
    v.push(76);
    v.push(105);
    v.push(110);
    v.push(107);
    proof {
        assert(v@ =~= spec_longlink_name());
    }
    v
}

/// The GNU long-name block emitted before an entry whose name does not
/// fit the header: a `L` entry carrying the name and a closing NUL.
pub open spec fn spec_name_blocks(name: Seq<u8>) -> Seq<u8> {
    if name.len() > 100 {
        spec_header(
            spec_longlink_name(),
            420,
            0,
            0,
            (name.len() + 1) as u64,
            0,
            76,
            Seq::empty(),
        ) + name + seq![0u8] + zeros(pad_len((name.len() + 1) as int))
    } else {
        Seq::empty()
    }
}

/// The name stored in the header itself: truncated when a long-name
/// block carries the full name.
pub open spec fn header_name_of(name: Seq<u8>) -> Seq<u8> {
    if name.len() > 100 {
        name.take(100)
    } else {
        name
    }
}

/// One rendered tar entry: an optional long-name block, the header, the
/// body, and padding to a block boundary.
pub open spec fn spec_block(
    name: Seq<u8>,
    mode: u64,
    uid: u64,
    gid: u64,
    size: u64,
    mtime: u64,
    typeflag: u8,
    linkname: Seq<u8>,
    body: Seq<u8>,
) -> Seq<u8> {
    spec_name_blocks(name) + spec_header(
        header_name_of(name),
        mode,
        uid,
        gid,
        size,
        mtime,
        typeflag,
        linkname,
    ) + body + zeros(pad_len(body.len() as int))
}

/// A PAX extended payload: the records of each pair in order.
pub open spec fn spec_pax_payload(pax: Seq<(Seq<u8>, Seq<u8>)>) -> Seq<u8>
    decreases pax.len(),
{
    if pax.len() == 0 {
        Seq::empty()
    } else {
        spec_pax_record(pax[0].0, pax[0].1) + spec_pax_payload(pax.drop_first())
    }
}

pub proof fn lemma_pax_payload_push(pax: Seq<(Seq<u8>, Seq<u8>)>, x: (Seq<u8>, Seq<u8>))
    ensures
        spec_pax_payload(pax.push(x)) == spec_pax_payload(pax) + spec_pax_record(x.0, x.1),
    decreases pax.len(),
{
    assert(pax.push(x)[0] == if pax.len() == 0 { x } else { pax[0] });
    if pax.len() == 0 {
        assert(pax.push(x).drop_first() =~= Seq::<(Seq<u8>, Seq<u8>)>::empty());
        assert(spec_pax_payload(Seq::<(Seq<u8>, Seq<u8>)>::empty()) == Seq::<u8>::empty());
        assert(spec_pax_payload(pax.push(x)) =~= spec_pax_payload(pax) + spec_pax_record(
            x.0,
            x.1,
        ));
    } else {
        assert(pax.push(x).drop_first() =~= pax.drop_first().push(x));
        lemma_pax_payload_push(pax.drop_first(), x);
        assert(spec_pax_payload(pax.push(x)) =~= spec_pax_payload(pax) + spec_pax_record(
            x.0,
            x.1,
        ));
    }
}

/// A PAX extended-header block: type `x`, named as its member — in the
/// header field alone, so a long name is carried only by the member's own
/// long-name block.
pub open spec fn spec_xblock(name: Seq<u8>, payload: Seq<u8>) -> Seq<u8> {
    spec_header(
        header_name_of(name),
        0,
        0,
        0,
        payload.len() as u64,
        0,
        120,
        Seq::empty(),
    ) + payload + zeros(pad_len(payload.len() as int))
}

/// The bytes one planned item contributes: files are preceded by their
/// PAX block when they carry records.
pub open spec fn spec_item_bytes(it: TarItemV) -> Seq<u8> {
    match it {
        TarItemV::Dir { name, mode, uid, gid, mtime } => spec_block(
            name,
            mode as u64,
            uid,
            gid,
            0,
            mtime,
            53,
            Seq::empty(),
            Seq::empty(),
        ),
        TarItemV::Whiteout { name, mode, uid, gid, mtime } => spec_block(
            name,
            mode as u64,
            uid,
            gid,
            0,
            mtime,
            48,
            Seq::empty(),
            Seq::empty(),
        ),
        TarItemV::File { name, mode, uid, gid, mtime, size, typeflag, linkname, pax, body } => (
        if pax.len() > 0 {
            spec_xblock(name, spec_pax_payload(pax))
        } else {
            Seq::empty()
        }) + spec_block(
            name,
            mode as u64,
            uid,
            gid,
            size,
            mtime,
            typeflag,
            linkname,
            body,
        ),
    }
}

/// The bytes of a whole plan.
pub open spec fn spec_items_bytes(items: Seq<TarItemV>) -> Seq<u8>
    decreases items.len(),
{
    if items.len() == 0 {
        Seq::empty()
    } else {
        spec_item_bytes(items[0]) + spec_items_bytes(items.drop_first())
    }
}

pub proof fn lemma_items_bytes_push(items: Seq<TarItemV>, x: TarItemV)
    ensures
        spec_items_bytes(items.push(x)) == spec_items_bytes(items) + spec_item_bytes(x),
    decreases items.len(),
{
    assert(items.push(x)[0] == if items.len() == 0 { x } else { items[0] });
    if items.len() == 0 {
        assert(items.push(x).drop_first() =~= Seq::<TarItemV>::empty());
        assert(spec_items_bytes(Seq::<TarItemV>::empty()) == Seq::<u8>::empty());
        assert(spec_items_bytes(items.push(x)) =~= spec_items_bytes(items) + spec_item_bytes(x));
    } else {
        assert(items.push(x).drop_first() =~= items.drop_first().push(x));
        lemma_items_bytes_push(items.drop_first(), x);
        assert(spec_items_bytes(items.push(x)) =~= spec_items_bytes(items) + spec_item_bytes(x));
    }
}

/// A finished tar stream: the plan's bytes closed by two zero blocks.
pub open spec fn spec_tar_archive(items: Seq<TarItemV>) -> Seq<u8> {
    spec_items_bytes(items) + zeros(1024)
}

/// Whether one item can be rendered: the link target fits its header
/// field and no record outgrows the machine.
pub open spec fn item_renderable(it: TarItemV) -> bool {
    match it {
        TarItemV::File { name, linkname, pax, .. } => {
            &&& linkname.len() <= 100
            &&& name.len() + 2 < usize::MAX
            &&& forall|i: int|
                0 <= i < pax.len() ==> pax[i].0.len() + pax[i].1.len() + 64 < u64::MAX
        },
        TarItemV::Dir { name, .. } => name.len() + 2 < usize::MAX,
        TarItemV::Whiteout { name, .. } => name.len() + 2 < usize::MAX,
    }
}

/// Whether a whole plan can be rendered.
pub open spec fn items_renderable(items: Seq<TarItemV>) -> bool {
    forall|i: int| 0 <= i < items.len() ==> item_renderable(items[i])
}

/// Appends one rendered entry.
#[verifier::rlimit(100)]
fn write_block(
    out: &mut Vec<u8>,
    name: &[u8],
    mode: u64,
    uid: u64,
    gid: u64,
    size: u64,
    mtime: u64,
    typeflag: u8,
    linkname: &[u8],
    body: &[u8],
)
    requires
        linkname@.len() <= 100,
        name@.len() + 2 < usize::MAX,
    ensures
        final(out)@ == old(out)@ + spec_block(
            name@,
            mode,
            uid,
            gid,
            size,
            mtime,
            typeflag,
            linkname@,
            body@,
        ),
{
    if name.len() > 100 {
        let ll = longlink_name();
        let empty: Vec<u8> = Vec::new();
        let h = render_header(
            ll.as_slice(),
            420,
            0,
            0,
            name.len() as u64 + 1,
            0,
            76,
            empty.as_slice(),
        );
        push_all(out, h.as_slice());
        push_all(out, name);
        out.push(0);
        write_pad(out, name.len() + 1);
        proof {
            assert(out@ =~= old(out)@ + spec_name_blocks(name@));
        }
        let hname = crate::bytesutil::clone_slice(&name[0..100]);
        proof {
            assert(hname@ =~= header_name_of(name@));
        }
        let h2 = render_header(hname.as_slice(), mode, uid, gid, size, mtime, typeflag, linkname);
        push_all(out, h2.as_slice());
    } else {
        let h2 = render_header(name, mode, uid, gid, size, mtime, typeflag, linkname);
        push_all(out, h2.as_slice());
    }
    push_all(out, body);
    write_pad(out, body.len());
    proof {
        assert(out@ =~= old(out)@ + spec_block(
            name@,
            mode,
            uid,
            gid,
            size,
            mtime,
            typeflag,
            linkname@,
            body@,
        ));
    }
}

/// Renders a plan into the bytes of the layer tar, closed by two zero
/// blocks; refuses a plan with a link target too long for the header.
#[verifier::rlimit(100)]
#[verifier::loop_isolation(false)]
pub fn render_tar(items: &Vec<TarItem>) -> (r: Result<Vec<u8>, BuildError>)
    ensures
        (r is Ok) == items_renderable(items_view(items@)),
        r matches Ok(bytes) ==> bytes@ == spec_tar_archive(items_view(items@)),
{
    let ghost iv = items_view(items@);
    let mut out: Vec<u8> = Vec::new();
    let mut i: usize = 0;
    proof {
        assert(iv.take(0) =~= Seq::<TarItemV>::empty());
        assert(out@ =~= spec_items_bytes(iv.take(0)));
    }
    while i < items.len()
        invariant
            i <= items@.len(),
            iv == items_view(items@),
            out@ == spec_items_bytes(iv.take(i as int)),
            forall|a: int| 0 <= a < i ==> item_renderable(iv[a]),
        decreases items@.len() - i,
    {
        proof {
            assert(iv[i as int] == items@[i as int]@);
            assert(iv.take(i + 1) =~= iv.take(i as int).push(iv[i as int]));
            lemma_items_bytes_push(iv.take(i as int), iv[i as int]);
        }
        match &items[i] {
            TarItem::Dir { name, mode, uid, gid, mtime } => {
                if !(name.len() <= usize::MAX - 3) {
                    proof {
                        assert(!item_renderable(iv[i as int]));
                    }
                    return Err(BuildError::EntryTooLarge);
                }
                let empty: Vec<u8> = Vec::new();
                write_block(
                    &mut out,
                    name.as_slice(),
                    *mode as u64,
                    *uid,
                    *gid,
                    0,
                    *mtime,
                    53,
                    empty.as_slice(),
                    empty.as_slice(),
                );
            },
            TarItem::Whiteout { name, mode, uid, gid, mtime } => {
                if !(name.len() <= usize::MAX - 3) {
                    proof {
                        assert(!item_renderable(iv[i as int]));
                    }
                    return Err(BuildError::EntryTooLarge);
                }
                let empty: Vec<u8> = Vec::new();
                write_block(
                    &mut out,
                    name.as_slice(),
                    *mode as u64,
                    *uid,
                    *gid,
                    0,
                    *mtime,
                    48,
                    empty.as_slice(),
                    empty.as_slice(),
                );
            },
            TarItem::File { name, mode, uid, gid, mtime, size, typeflag, linkname, pax, body } => {
                if linkname.len() > 100 || !(name.len() <= usize::MAX - 3) {
                    proof {
                        assert(!item_renderable(iv[i as int]));
                    }
                    return Err(BuildError::EntryTooLarge);
                }
                let ghost pv = pairs_view(pax@);
                let mut payload: Vec<u8> = Vec::new();
                let mut p: usize = 0;
                proof {
                    assert(pv.take(0) =~= Seq::<(Seq<u8>, Seq<u8>)>::empty());
                    assert(payload@ =~= spec_pax_payload(pv.take(0)));
                }
                while p < pax.len()
                    invariant
                        p <= pax@.len(),
                        pv == pairs_view(pax@),
                        payload@ == spec_pax_payload(pv.take(p as int)),
                        forall|a: int| 0 <= a < p ==> pv[a].0.len() + pv[a].1.len() + 64
                            < u64::MAX,
                    decreases pax@.len() - p,
                {
                    proof {
                        assert(pv[p as int] == (pax@[p as int].0@, pax@[p as int].1@));
                        assert(pv.take(p + 1) =~= pv.take(p as int).push(pv[p as int]));
                        lemma_pax_payload_push(pv.take(p as int), pv[p as int]);
                    }
                    let kl: u64 = pax[p].0.len() as u64;
                    let vl: u64 = pax[p].1.len() as u64;
                    proof {
                        assert(kl == pv[p as int].0.len());
                        assert(vl == pv[p as int].1.len());
                    }
                    if kl > u64::MAX - 65 || vl > u64::MAX - 65 - kl {
                        proof {
                            assert(kl + vl + 64 >= u64::MAX);
                            assert(iv[i as int] matches TarItemV::File { pax: p2, .. } && p2
                                == pv);
                            if item_renderable(iv[i as int]) {
                                assert(pv[p as int].0.len() + pv[p as int].1.len() + 64
                                    < u64::MAX);
                            }
                            assert(!item_renderable(iv[i as int]));
                        }
                        return Err(BuildError::EntryTooLarge);
                    }
                    write_pax_record(&mut payload, pax[p].0.as_slice(), pax[p].1.as_slice());
                    p = p + 1;
                }
                proof {
                    assert(pv.take(pv.len() as int) =~= pv);
                }
                if payload.len() > 0 {
                    let empty: Vec<u8> = Vec::new();
                    let hname: Vec<u8> = if name.len() > 100 {
                        crate::bytesutil::clone_slice(&name.as_slice()[0..100])
                    } else {
                        crate::bytesutil::clone_bytes(name)
                    };
                    proof {
                        assert(hname@ =~= header_name_of(name@));
                    }
                    let h = render_header(
                        hname.as_slice(),
                        0,
                        0,
                        0,
                        payload.len() as u64,
                        0,
                        120,
                        empty.as_slice(),
                    );
                    push_all(&mut out, h.as_slice());
                    push_all(&mut out, payload.as_slice());
                    crate::tarfmt::write_pad(&mut out, payload.len());
                    proof {
                        assert(out@ =~= spec_items_bytes(iv.take(i as int)) + spec_xblock(
                            name@,
                            spec_pax_payload(pv),
                        ));
                    }
                } else {
                    proof {
                        assert(pv.len() == 0);
                        assert(spec_pax_payload(pv).len() == 0);
                    }
                }
                write_block(
                    &mut out,
                    name.as_slice(),
                    *mode as u64,
                    *uid,
                    *gid,
                    *size,
                    *mtime,
                    *typeflag,
                    linkname.as_slice(),
                    body.as_slice(),
                );
            },
        }
        proof {
            assert(out@ =~= spec_items_bytes(iv.take(i + 1)));
        }
        i = i + 1;
    }
    proof {
        assert(iv.take(iv.len() as int) =~= iv);
    }
    crate::tarfmt::write_zeros(&mut out, 1024);
    proof {
        assert(items_renderable(iv));
        assert(out@ =~= spec_tar_archive(iv));
    }
    Ok(out)
}


/// The bytes `./`.
pub open spec fn spec_dot_slash() -> Seq<u8> {
    seq![46u8, 47u8]
}

/// The bytes `.`.
pub open spec fn spec_dot() -> Seq<u8> {
    seq![46u8]
}

/// The tar name of a directory: `./` for the root, else `./<dir>/`.
pub open spec fn rel_prefix(d: Seq<u8>) -> Seq<u8> {
    if d.len() == 0 {
        spec_dot_slash()
    } else {
        spec_dot_slash() + d + seq![47u8]
    }
}

/// The lower view's key of a directory: `.` for the root, else `./<dir>`.
pub open spec fn lookup_key(d: Seq<u8>) -> Seq<u8> {
    if d.len() == 0 {
        spec_dot()
    } else {
        spec_dot_slash() + d
    }
}

/// The scanned key of a child: `<name>` at the root, else `<dir>/<name>`.
pub open spec fn child_rel(d: Seq<u8>, n: Seq<u8>) -> Seq<u8> {
    if d.len() == 0 {
        n
    } else {
        d + seq![47u8] + n
    }
}

/// The mtime emitted: the source date epoch when set, else the path's own.
pub open spec fn mtime_pick(epoch: Option<u64>, m: i64) -> u64 {
    match epoch {
        Some(e) => e,
        None => m as u64,
    }
}

/// The bytes of the PAX key prefix `SCHILY.xattr.`.
pub open spec fn spec_schily_prefix() -> Seq<u8> {
    seq![83u8, 67u8, 72u8, 73u8, 76u8, 89u8, 46u8, 120u8, 97u8, 116u8, 116u8, 114u8, 46u8]
}

/// The PAX key prefix `SCHILY.xattr.`.
pub fn schily_prefix() -> (r: Vec<u8>)
    ensures
        r@ == spec_schily_prefix(),
{
    let mut v: Vec<u8> = Vec::new();
    v.push(83);
    v.push(67);
    v.push(72);
    v.push(73);
    v.push(76);
    v.push(89);
    v.push(46);
    v.push(120);
    v.push(97);
    v.push(116);
    v.push(116);
    v.push(114);
    v.push(46);
    proof {
        assert(v@ =~= spec_schily_prefix());
    }
    v
}

/// The bytes of the PAX key `freedesktopsdk.checksum.sha256`.
pub open spec fn spec_fdsk_key() -> Seq<u8> {
    seq![
        102u8, 114u8, 101u8, 101u8, 100u8, 101u8, 115u8, 107u8, 116u8, 111u8, 112u8, 115u8,
        100u8, 107u8, 46u8, 99u8, 104u8, 101u8, 99u8, 107u8, 115u8, 117u8, 109u8, 46u8, 115u8,
        104u8, 97u8, 50u8, 53u8, 54u8,
    ]
}

/// The PAX key `freedesktopsdk.checksum.sha256`.
pub fn fdsk_key() -> (r: Vec<u8>)
    ensures
        r@ == spec_fdsk_key(),
{
    let mut v: Vec<u8> = Vec::new();
    v.push(102);
    v.push(114);
    v.push(101);
    v.push(101);
    v.push(100);
    v.push(101);
    v.push(115);
    v.push(107);
    v.push(116);
    v.push(111);
    v.push(112);
    v.push(115);
    v.push(100);
    v.push(107);
    v.push(46);
    v.push(99);
    v.push(104);
    v.push(101);
    v.push(99);
    v.push(107);
    v.push(115);
    v.push(117);
    v.push(109);
    v.push(46);
    v.push(115);
    v.push(104);
    v.push(97);
    v.push(50);
    v.push(53);
    v.push(54);
    proof {
        assert(v@ =~= spec_fdsk_key());
    }
    v
}

/// Inserts a record into a key-sorted record list, replacing an equal key.
pub open spec fn spec_insert_pair(
    s: Seq<(Seq<u8>, Seq<u8>)>,
    kv: (Seq<u8>, Seq<u8>),
) -> Seq<(Seq<u8>, Seq<u8>)>
    decreases s.len(),
{
    if s.len() == 0 {
        seq![kv]
    } else if crate::bytesutil::lex_lt(kv.0, s[0].0) {
        seq![kv] + s
    } else if kv.0 == s[0].0 {
        seq![kv] + s.drop_first()
    } else {
        seq![s[0]] + spec_insert_pair(s.drop_first(), kv)
    }
}

/// Inserting keeps the keys sorted.
pub proof fn lemma_insert_pair_sorted(s: Seq<(Seq<u8>, Seq<u8>)>, kv: (Seq<u8>, Seq<u8>))
    requires
        crate::assoc::sorted_al(s),
    ensures
        crate::assoc::sorted_al(spec_insert_pair(s, kv)),
    decreases s.len(),
{
    let r = spec_insert_pair(s, kv);
    if s.len() == 0 {
    } else if crate::bytesutil::lex_lt(kv.0, s[0].0) {
        assert forall|i: int, j: int| 0 <= i < j < r.len() implies crate::bytesutil::lex_lt(
            r[i].0,
            r[j].0,
        ) by {
            if i == 0 {
                if j > 1 {
                    crate::bytesutil::lemma_lex_trans(kv.0, s[0].0, s[j - 1].0);
                }
            } else {
                assert(r[i] == s[i - 1] && r[j] == s[j - 1]);
            }
        }
    } else if kv.0 == s[0].0 {
        assert forall|i: int, j: int| 0 <= i < j < r.len() implies crate::bytesutil::lex_lt(
            r[i].0,
            r[j].0,
        ) by {
            if i == 0 {
                assert(r[j] == s[j]);
            } else {
                assert(r[i] == s[i] && r[j] == s[j]);
            }
        }
    } else {
        assert forall|a: int, b: int|
            0 <= a < b < s.drop_first().len() implies crate::bytesutil::lex_lt(
            s.drop_first()[a].0,
            s.drop_first()[b].0,
        ) by {
            assert(s.drop_first()[a] == s[a + 1] && s.drop_first()[b] == s[b + 1]);
        }
        lemma_insert_pair_sorted(s.drop_first(), kv);
        crate::bytesutil::lemma_lex_total(kv.0, s[0].0);
        let r2 = spec_insert_pair(s.drop_first(), kv);
        assert forall|i: int, j: int| 0 <= i < j < r.len() implies crate::bytesutil::lex_lt(
            r[i].0,
            r[j].0,
        ) by {
            if i == 0 {
                assert(r[j] == r2[j - 1]);
                lemma_insert_member(s.drop_first(), kv, j - 1);
                if r2[j - 1] == kv {
                } else {
                    let w = choose|w: int|
                        0 <= w < s.drop_first().len() && r2[j - 1] == s.drop_first()[w];
                    assert(s.drop_first()[w] == s[w + 1]);
                }
            } else {
                assert(r[i] == r2[i - 1] && r[j] == r2[j - 1]);
            }
        }
    }
}

/// Every record of an insertion result is the new record or an old one.
pub proof fn lemma_insert_member(s: Seq<(Seq<u8>, Seq<u8>)>, kv: (Seq<u8>, Seq<u8>), i: int)
    requires
        0 <= i < spec_insert_pair(s, kv).len(),
    ensures
        spec_insert_pair(s, kv)[i] == kv || exists|w: int|
            0 <= w < s.len() && spec_insert_pair(s, kv)[i] == s[w],
    decreases s.len(),
{
    let r = spec_insert_pair(s, kv);
    if s.len() == 0 {
    } else if crate::bytesutil::lex_lt(kv.0, s[0].0) {
        if i > 0 {
            assert(r[i] == s[i - 1]);
        }
    } else if kv.0 == s[0].0 {
        if i > 0 {
            assert(r[i] == s.drop_first()[i - 1]);
            assert(s.drop_first()[i - 1] == s[i]);
        }
    } else {
        if i > 0 {
            assert(r[i] == spec_insert_pair(s.drop_first(), kv)[i - 1]);
            lemma_insert_member(s.drop_first(), kv, i - 1);
            if spec_insert_pair(s.drop_first(), kv)[i - 1] != kv {
                let w = choose|w: int|
                    0 <= w < s.drop_first().len() && spec_insert_pair(s.drop_first(), kv)[i - 1]
                        == s.drop_first()[w];
                assert(s.drop_first()[w] == s[w + 1]);
            }
        }
    }
}

/// Looking up after an insertion: the new key finds the new value, any
/// other key is as before.
pub proof fn lemma_insert_pair_lookup(
    s: Seq<(Seq<u8>, Seq<u8>)>,
    kv: (Seq<u8>, Seq<u8>),
    k: Seq<u8>,
)
    ensures
        al_lookup(spec_insert_pair(s, kv), k) == (if k == kv.0 {
            Some(kv.1)
        } else {
            al_lookup(s, k)
        }),
    decreases s.len(),
{
    let r = spec_insert_pair(s, kv);
    if s.len() == 0 {
        assert(r =~= seq![kv]);
        assert(r.drop_first() =~= Seq::<(Seq<u8>, Seq<u8>)>::empty());
        assert(al_lookup(Seq::<(Seq<u8>, Seq<u8>)>::empty(), k) is None);
    } else if crate::bytesutil::lex_lt(kv.0, s[0].0) {
        assert(r[0] == kv);
        assert(r.drop_first() =~= s);
        crate::bytesutil::lemma_lex_irrefl(kv.0);
    } else if kv.0 == s[0].0 {
        assert(r[0] == kv);
        assert(r.drop_first() =~= s.drop_first());
    } else {
        assert(r[0] == s[0]);
        assert(r.drop_first() =~= spec_insert_pair(s.drop_first(), kv));
        lemma_insert_pair_lookup(s.drop_first(), kv, k);
    }
}

/// Inserts a record into a key-sorted record vector.
pub fn insert_pair(s: Vec<(Vec<u8>, Vec<u8>)>, k: Vec<u8>, v: Vec<u8>) -> (r: Vec<
    (Vec<u8>, Vec<u8>),
>)
    ensures
        pairs_view(r@) == spec_insert_pair(pairs_view(s@), (k@, v@)),
    decreases s@.len(),
{
    let ghost sv = pairs_view(s@);
    let ghost kvv = (k@, v@);
    if s.len() == 0 {
        let mut r: Vec<(Vec<u8>, Vec<u8>)> = Vec::new();
        r.push((k, v));
        proof {
            assert(pairs_view(r@) =~= spec_insert_pair(sv, kvv));
        }
        r
    } else if crate::bytesutil::lex_lt_bytes(k.as_slice(), s[0].0.as_slice()) {
        let mut r = s;
        r.insert(0, (k, v));
        proof {
            assert forall|b: int| 0 <= b < pairs_view(r@).len() implies pairs_view(r@)[b]
                == spec_insert_pair(sv, kvv)[b] by {
                assert(spec_insert_pair(sv, kvv) == seq![kvv] + sv);
                if b > 0 {
                    assert(r@[b] == s@[b - 1]);
                }
            }
            assert(pairs_view(r@) =~= spec_insert_pair(sv, kvv));
        }
        r
    } else if crate::bytesutil::bytes_eq(k.as_slice(), s[0].0.as_slice()) {
        let mut r = s;
        r.set(0, (k, v));
        proof {
            assert forall|b: int| 0 <= b < pairs_view(r@).len() implies pairs_view(r@)[b]
                == spec_insert_pair(sv, kvv)[b] by {
                assert(spec_insert_pair(sv, kvv) == seq![kvv] + sv.drop_first());
                if b > 0 {
                    assert(r@[b] == s@[b]);
                    assert(sv.drop_first()[b - 1] == sv[b]);
                }
            }
            assert(pairs_view(r@) =~= spec_insert_pair(sv, kvv));
        }
        r
    } else {
        let mut s2 = s;
        let first = s2.remove(0);
        proof {
            assert(pairs_view(s2@) =~= sv.drop_first());
        }
        let mut r = insert_pair(s2, k, v);
        r.insert(0, first);
        proof {
            assert forall|b: int| 0 <= b < pairs_view(r@).len() implies pairs_view(r@)[b]
                == spec_insert_pair(sv, kvv)[b] by {
                assert(spec_insert_pair(sv, kvv) == seq![sv[0]] + spec_insert_pair(
                    sv.drop_first(),
                    kvv,
                ));
                if b > 0 {
                    assert(pairs_view(r@)[b] == spec_insert_pair(sv.drop_first(), kvv)[b - 1]);
                }
            }
            assert(pairs_view(r@) =~= spec_insert_pair(sv, kvv));
        }
        r
    }
}


/// The PAX records of a regular file's xattrs: each name under the
/// `SCHILY.xattr.` prefix, folded into a key-sorted list.
pub open spec fn spec_pax_fold(xs: Seq<(Seq<u8>, Seq<u8>)>) -> Seq<(Seq<u8>, Seq<u8>)>
    decreases xs.len(),
{
    if xs.len() == 0 {
        Seq::empty()
    } else {
        spec_insert_pair(
            spec_pax_fold(xs.drop_last()),
            (spec_schily_prefix() + xs.last().0, xs.last().1),
        )
    }
}

/// The full PAX record list of a regular file: its xattr records and the
/// checksum record, keys sorted.
pub open spec fn spec_reg_pax(xs: Seq<(Seq<u8>, Seq<u8>)>, checksum: Seq<u8>) -> Seq<
    (Seq<u8>, Seq<u8>),
> {
    spec_insert_pair(spec_pax_fold(xs), (spec_fdsk_key(), checksum))
}

/// The folded records stay sorted.
pub proof fn lemma_pax_fold_sorted(xs: Seq<(Seq<u8>, Seq<u8>)>)
    ensures
        crate::assoc::sorted_al(spec_pax_fold(xs)),
    decreases xs.len(),
{
    if xs.len() > 0 {
        lemma_pax_fold_sorted(xs.drop_last());
        lemma_insert_pair_sorted(
            spec_pax_fold(xs.drop_last()),
            (spec_schily_prefix() + xs.last().0, xs.last().1),
        );
    }
}

/// Builds the PAX record list of a regular file.
pub fn build_reg_pax(xs: &Vec<(Vec<u8>, Vec<u8>)>, checksum: &Vec<u8>) -> (r: Vec<
    (Vec<u8>, Vec<u8>),
>)
    ensures
        pairs_view(r@) == spec_reg_pax(pairs_view(xs@), checksum@),
        crate::assoc::sorted_al(pairs_view(r@)),
{
    let ghost xv = pairs_view(xs@);
    let mut acc: Vec<(Vec<u8>, Vec<u8>)> = Vec::new();
    let mut i: usize = 0;
    proof {
        assert(xv.take(0) =~= Seq::<(Seq<u8>, Seq<u8>)>::empty());
        assert(pairs_view(acc@) =~= spec_pax_fold(xv.take(0)));
    }
    while i < xs.len()
        invariant
            i <= xs@.len(),
            xv == pairs_view(xs@),
            pairs_view(acc@) == spec_pax_fold(xv.take(i as int)),
        decreases xs@.len() - i,
    {
        proof {
            assert(xv[i as int] == (xs@[i as int].0@, xs@[i as int].1@));
            assert(xv.take(i + 1).drop_last() =~= xv.take(i as int));
            assert(xv.take(i + 1).last() == xv[i as int]);
        }
        let mut key = schily_prefix();
        push_all(&mut key, xs[i].0.as_slice());
        let value = crate::bytesutil::clone_bytes(&xs[i].1);
        acc = insert_pair(acc, key, value);
        i = i + 1;
    }
    proof {
        assert(xv.take(xv.len() as int) =~= xv);
    }
    let ck = crate::bytesutil::clone_bytes(checksum);
    let key = fdsk_key();
    let r = insert_pair(acc, key, ck);
    proof {
        lemma_pax_fold_sorted(xv);
        lemma_insert_pair_sorted(spec_pax_fold(xv), (spec_fdsk_key(), checksum@));
    }
    r
}

/// No record the checksum filter lets through carries the checksum name.
proof fn lemma_plain_no_ck(xs: Seq<(Seq<u8>, Seq<u8>)>)
    ensures
        forall|j: int|
            0 <= j < crate::scan::spec_plain_xattrs(xs).len() ==> (
            #[trigger] crate::scan::spec_plain_xattrs(xs)[j]).0
                != crate::scan::spec_checksum_xattr(),
    decreases xs.len(),
{
    let p = crate::scan::spec_plain_xattrs(xs);
    if xs.len() > 0 {
        lemma_plain_no_ck(xs.drop_first());
        if xs[0].0 != crate::scan::spec_checksum_xattr() {
            assert forall|j: int|
                0 <= j < p.len() implies (#[trigger] p[j]).0
                != crate::scan::spec_checksum_xattr() by {
                if j > 0 {
                    assert(p[j] == crate::scan::spec_plain_xattrs(xs.drop_first())[j - 1]);
                }
            }
        }
    }
}

/// Folding records whose names all differ from a name leaves that name's
/// prefixed key unbound.
proof fn lemma_fold_no_key(xs: Seq<(Seq<u8>, Seq<u8>)>, nm: Seq<u8>)
    requires
        forall|j: int| 0 <= j < xs.len() ==> (#[trigger] xs[j]).0 != nm,
    ensures
        al_lookup(spec_pax_fold(xs), spec_schily_prefix() + nm) is None,
    decreases xs.len(),
{
    if xs.len() == 0 {
        assert(al_lookup(Seq::<(Seq<u8>, Seq<u8>)>::empty(), spec_schily_prefix() + nm) is None);
    } else {
        assert forall|j: int|
            0 <= j < xs.drop_last().len() implies (#[trigger] xs.drop_last()[j]).0 != nm by {
            assert(xs.drop_last()[j] == xs[j]);
        }
        lemma_fold_no_key(xs.drop_last(), nm);
        lemma_concat_cancel(spec_schily_prefix(), xs.last().0, nm);
        lemma_insert_pair_lookup(
            spec_pax_fold(xs.drop_last()),
            (spec_schily_prefix() + xs.last().0, xs.last().1),
            spec_schily_prefix() + nm,
        );
    }
}

/// The checksum attribute is preferred and diverted: a regular file
/// carrying the `user.checksum.sha256` attribute is emitted with exactly
/// its value as the `freedesktopsdk.checksum.sha256` PAX record — no
/// digest of the contents enters the records — and the attribute itself
/// is never emitted as a `SCHILY.xattr.user.checksum.sha256` record.
pub proof fn lemma_xattr_checksum_preferred(rs: Seq<crate::scan::ScanRecordV>, i: int)
    requires
        0 <= i < rs.len(),
        rs[i].kind == crate::scan::RecKind::File,
        crate::scan::first_same_ino(rs, rs[i].dev, rs[i].ino, i) == -1,
        crate::scan::spec_xattr_checksum(rs[i].xattrs) is Some,
    ensures
        ({
            let info = crate::scan::spec_entry_of(rs, i);
            let d = crate::scan::spec_xattr_checksum(rs[i].xattrs)->Some_0;
            &&& (info.kind matches crate::scan::EntryKindV::Regular { checksum, .. } && checksum
                == d)
            &&& al_lookup(spec_reg_pax(info.xattrs, d), spec_fdsk_key()) == Some(d)
            &&& al_lookup(
                spec_reg_pax(info.xattrs, d),
                spec_schily_prefix() + crate::scan::spec_checksum_xattr(),
            ) is None
        }),
{
    let info = crate::scan::spec_entry_of(rs, i);
    let d = crate::scan::spec_xattr_checksum(rs[i].xattrs)->Some_0;
    assert(info.xattrs == crate::scan::spec_plain_xattrs(rs[i].xattrs));
    lemma_insert_pair_lookup(spec_pax_fold(info.xattrs), (spec_fdsk_key(), d), spec_fdsk_key());
    lemma_plain_no_ck(rs[i].xattrs);
    lemma_fold_no_key(info.xattrs, crate::scan::spec_checksum_xattr());
    assert(spec_fdsk_key() != spec_schily_prefix() + crate::scan::spec_checksum_xattr()) by {
        assert(spec_fdsk_key()[0] == 102);
        assert((spec_schily_prefix() + crate::scan::spec_checksum_xattr())[0] == 83);
    }
    lemma_insert_pair_lookup(
        spec_pax_fold(info.xattrs),
        (spec_fdsk_key(), d),
        spec_schily_prefix() + crate::scan::spec_checksum_xattr(),
    );
}

/// Looks up the last record with a key in a record list.
fn pax_last<'a>(s: &'a Vec<(Vec<u8>, Vec<u8>)>, k: &[u8]) -> (r: Option<&'a Vec<u8>>)
    ensures
        match r {
            Some(v) => al_lookup_last(pairs_view(s@), k@) == Some(v@),
            None => al_lookup_last(pairs_view(s@), k@) is None,
        },
{
    let mut i: usize = s.len();
    while i > 0
        invariant
            i <= s@.len(),
            forall|a: int| i <= a < s@.len() ==> pairs_view(s@)[a].0 != k@,
        decreases i,
    {
        i = i - 1;
        if crate::bytesutil::bytes_eq(s[i].0.as_slice(), k) {
            proof {
                assert(pairs_view(s@)[i as int].0 == k@);
                crate::assoc::lemma_al_last_at(pairs_view(s@), k@, i as int);
            }
            return Some(&s[i].1);
        }
    }
    proof {
        crate::assoc::lemma_al_last_none(pairs_view(s@), k@);
    }
    None
}

/// Looks up the first record with a key in a record list.
fn pax_first<'a>(s: &'a Vec<(Vec<u8>, Vec<u8>)>, k: &[u8]) -> (r: Option<&'a Vec<u8>>)
    ensures
        match r {
            Some(v) => al_lookup(pairs_view(s@), k@) == Some(v@),
            None => al_lookup(pairs_view(s@), k@) is None,
        },
{
    let mut i: usize = 0;
    while i < s.len()
        invariant
            i <= s@.len(),
            forall|a: int| 0 <= a < i ==> pairs_view(s@)[a].0 != k@,
        decreases s@.len() - i,
    {
        if crate::bytesutil::bytes_eq(s[i].0.as_slice(), k) {
            proof {
                assert(pairs_view(s@)[i as int].0 == k@);
                crate::assoc::lemma_al_first(pairs_view(s@), k@, i as int);
            }
            return Some(&s[i].1);
        }
        i = i + 1;
    }
    proof {
        crate::assoc::lemma_al_none(pairs_view(s@), k@);
    }
    None
}

/// The `SCHILY.xattr.` records of the new entry agree, key for key, with
/// those of the lower entry.
pub open spec fn spec_xattrs_agree(
    mine: Seq<(Seq<u8>, Seq<u8>)>,
    lower: Seq<(Seq<u8>, Seq<u8>)>,
) -> bool {
    forall|k: Seq<u8>| #![all_triggers]
        crate::bytesutil::spec_starts_with(k, spec_schily_prefix()) ==> al_lookup(mine, k)
            == al_lookup_last(lower, k)
}

/// Tests whether the new entry's xattr records match the lower entry's.
#[verifier::rlimit(60)]
fn xattrs_agree(mine: &Vec<(Vec<u8>, Vec<u8>)>, lower: &Vec<(Vec<u8>, Vec<u8>)>) -> (r: bool)
    requires
        crate::assoc::sorted_al(pairs_view(mine@)),
    ensures
        r == spec_xattrs_agree(pairs_view(mine@), pairs_view(lower@)),
{
    let ghost mv = pairs_view(mine@);
    let ghost lv = pairs_view(lower@);
    let sp = schily_prefix();
    let mut i: usize = 0;
    while i < mine.len()
        invariant
            i <= mine@.len(),
            mv == pairs_view(mine@),
            lv == pairs_view(lower@),
            crate::assoc::sorted_al(mv),
            sp@ == spec_schily_prefix(),
            forall|a: int| #![all_triggers]
                0 <= a < i && crate::bytesutil::spec_starts_with(mv[a].0, spec_schily_prefix())
                    ==> al_lookup_last(lv, mv[a].0) == Some(mv[a].1),
        decreases mine@.len() - i,
    {
        proof {
            assert(mv[i as int] == (mine@[i as int].0@, mine@[i as int].1@));
        }
        if crate::bytesutil::starts_with(mine[i].0.as_slice(), sp.as_slice()) {
            match pax_last(lower, mine[i].0.as_slice()) {
                Some(v) => {
                    if !crate::bytesutil::bytes_eq(v.as_slice(), mine[i].1.as_slice()) {
                        proof {
                            lemma_sorted_first(mv, i as int);
                            assert(al_lookup(mv, mv[i as int].0) == Some(mv[i as int].1));
                            assert(!spec_xattrs_agree(mv, lv));
                        }
                        return false;
                    }
                },
                None => {
                    proof {
                        lemma_sorted_first(mv, i as int);
                        assert(al_lookup(mv, mv[i as int].0) == Some(mv[i as int].1));
                        assert(!spec_xattrs_agree(mv, lv));
                    }
                    return false;
                },
            }
        }
        i = i + 1;
    }
    let mut j: usize = 0;
    while j < lower.len()
        invariant
            j <= lower@.len(),
            mv == pairs_view(mine@),
            lv == pairs_view(lower@),
            crate::assoc::sorted_al(mv),
            sp@ == spec_schily_prefix(),
            forall|a: int| #![all_triggers]
                0 <= a < mv.len() && crate::bytesutil::spec_starts_with(
                    mv[a].0,
                    spec_schily_prefix(),
                ) ==> al_lookup_last(lv, mv[a].0) == Some(mv[a].1),
            forall|a: int| #![all_triggers]
                0 <= a < j && crate::bytesutil::spec_starts_with(lv[a].0, spec_schily_prefix())
                    ==> al_lookup(mv, lv[a].0) is Some,
        decreases lower@.len() - j,
    {
        proof {
            assert(lv[j as int] == (lower@[j as int].0@, lower@[j as int].1@));
        }
        if crate::bytesutil::starts_with(lower[j].0.as_slice(), sp.as_slice()) {
            match pax_first(mine, lower[j].0.as_slice()) {
                Some(_) => {},
                None => {
                    proof {
                        assert(exists|w: int| 0 <= w < lv.len() && lv[w].0 == lv[j as int].0);
                        crate::assoc::lemma_al_last_exists(lv, lv[j as int].0);
                        assert(al_lookup_last(lv, lv[j as int].0) is Some);
                        assert(!spec_xattrs_agree(mv, lv));
                    }
                    return false;
                },
            }
        }
        j = j + 1;
    }
    proof {
        assert forall|k: Seq<u8>| #![all_triggers]
            crate::bytesutil::spec_starts_with(k, spec_schily_prefix()) implies al_lookup(mv, k)
            == al_lookup_last(lv, k) by {
            if al_lookup(mv, k) is Some {
                crate::assoc::lemma_al_some_witness(mv, k);
            } else {
                if al_lookup_last(lv, k) is Some {
                    crate::assoc::lemma_al_last_witness(lv, k);
                }
            }
        }
    }
    true
}

/// In a key-sorted list every key occurs once, so each record is the
/// first with its key.
pub proof fn lemma_sorted_first(s: Seq<(Seq<u8>, Seq<u8>)>, i: int)
    requires
        crate::assoc::sorted_al(s),
        0 <= i < s.len(),
    ensures
        al_lookup(s, s[i].0) == Some(s[i].1),
{
    assert forall|a: int| 0 <= a < i implies s[a].0 != s[i].0 by {
        if s[a].0 == s[i].0 {
            crate::bytesutil::lemma_lex_irrefl(s[i].0);
        }
    }
    crate::assoc::lemma_al_first(s, s[i].0, i);
}


/// Should a regular file be left out of the new tar? Yes exactly when
/// the lower view holds a regular entry at the same path with the same
/// checksum, size, mode, owner, emitted mtime, and xattr records.
pub open spec fn spec_skip_regular(
    meta: crate::scan::CachedMetadata,
    checksum: Seq<u8>,
    mypax: Seq<(Seq<u8>, Seq<u8>)>,
    le: crate::overlay::LowerEntryV,
    epoch: Option<u64>,
) -> bool {
    &&& al_lookup_last(le.pax_headers, spec_fdsk_key()) == Some(checksum)
    &&& le.entry_type == 48
    &&& le.size == meta.size
    &&& le.mode == meta.mode
    &&& le.uid == meta.uid
    &&& le.gid == meta.gid
    &&& le.mtime == mtime_pick(epoch, meta.mtime)
    &&& spec_xattrs_agree(mypax, le.pax_headers)
}

/// Should a symlink be left out? Yes exactly when the lower view holds a
/// symlink at the same path with the same mode, owner and target.
pub open spec fn spec_skip_symlink(
    meta: crate::scan::CachedMetadata,
    target: Seq<u8>,
    le: crate::overlay::LowerEntryV,
) -> bool {
    &&& le.entry_type == 50
    &&& le.mode == meta.mode
    &&& le.uid == meta.uid
    &&& le.gid == meta.gid
    &&& le.symlink_target == Some(target)
}

/// Tests whether a regular file is identical to its lower entry.
fn skip_regular(
    meta: &crate::scan::CachedMetadata,
    checksum: &Vec<u8>,
    mypax: &Vec<(Vec<u8>, Vec<u8>)>,
    le: &crate::overlay::LowerEntry,
    epoch: Option<u64>,
) -> (r: bool)
    requires
        crate::assoc::sorted_al(pairs_view(mypax@)),
    ensures
        r == spec_skip_regular(*meta, checksum@, pairs_view(mypax@), le@, epoch),
{
    let key = fdsk_key();
    let ck_ok = match pax_last(&le.pax_headers, key.as_slice()) {
        Some(v) => crate::bytesutil::bytes_eq(v.as_slice(), checksum.as_slice()),
        None => false,
    };
    if !ck_ok {
        return false;
    }
    let want_mtime: u64 = match epoch {
        Some(e) => e,
        None => #[verifier::truncate] (meta.mtime as u64),
    };
    if le.entry_type != 48 || le.size != meta.size || le.mode != meta.mode || le.uid != meta.uid
        || le.gid != meta.gid || le.mtime != want_mtime {
        return false;
    }
    xattrs_agree(mypax, &le.pax_headers)
}

/// Tests whether a symlink is identical to its lower entry.
fn skip_symlink(
    meta: &crate::scan::CachedMetadata,
    target: &Vec<u8>,
    le: &crate::overlay::LowerEntry,
) -> (r: bool)
    ensures
        r == spec_skip_symlink(*meta, target@, le@),
{
    if le.entry_type != 50 || le.mode != meta.mode || le.uid != meta.uid || le.gid != meta.gid {
        return false;
    }
    match &le.symlink_target {
        Some(t) => crate::bytesutil::bytes_eq(t.as_slice(), target.as_slice()),
        None => false,
    }
}

/// The names a children table lists for a directory.
pub open spec fn up_names(cv: Seq<(Seq<u8>, Seq<Seq<u8>>)>, d: Seq<u8>) -> Seq<Seq<u8>> {
    match al_lookup(cv, d) {
        Some(ns) => ns,
        None => Seq::empty(),
    }
}

/// The directory entry item of the plan.
pub open spec fn spec_dir_item(
    d: Seq<u8>,
    meta: crate::scan::CachedMetadata,
    epoch: Option<u64>,
) -> TarItemV {
    TarItemV::Dir {
        name: rel_prefix(d),
        mode: meta.mode,
        uid: meta.uid,
        gid: meta.gid,
        mtime: mtime_pick(epoch, meta.mtime),
    }
}

/// The whiteout item one lower name yields: present exactly when the
/// name is gone from the upper directory and the lower view records the
/// path itself.
pub open spec fn spec_wh_item(
    n: Seq<u8>,
    d: Seq<u8>,
    up: Seq<Seq<u8>>,
    lf: Seq<(Seq<u8>, crate::overlay::LowerEntryV)>,
) -> Seq<TarItemV> {
    if !crate::assoc::in_names(n, up) {
        match al_lookup(lf, rel_prefix(d) + n) {
            Some(le) => seq![
                TarItemV::Whiteout {
                    name: rel_prefix(d) + crate::overlay::spec_wh_prefix() + n,
                    mode: le.mode,
                    uid: le.uid,
                    gid: le.gid,
                    mtime: le.mtime,
                },
            ],
            None => Seq::empty(),
        }
    } else {
        Seq::empty()
    }
}

/// The whiteout items of one directory, in the lower names' order.
pub open spec fn spec_wh_items(
    ns: Seq<Seq<u8>>,
    d: Seq<u8>,
    up: Seq<Seq<u8>>,
    lf: Seq<(Seq<u8>, crate::overlay::LowerEntryV)>,
) -> Seq<TarItemV>
    decreases ns.len(),
{
    if ns.len() == 0 {
        Seq::empty()
    } else {
        spec_wh_items(ns.drop_last(), d, up, lf) + spec_wh_item(ns.last(), d, up, lf)
    }
}

/// The items one non-directory child yields.
pub open spec fn spec_one_file(
    n: Seq<u8>,
    d: Seq<u8>,
    ev: Seq<(Seq<u8>, crate::scan::EntryInfoV)>,
    lf: Seq<(Seq<u8>, crate::overlay::LowerEntryV)>,
    epoch: Option<u64>,
) -> Seq<TarItemV> {
    match al_lookup(ev, child_rel(d, n)) {
        None => Seq::empty(),
        Some(info) => {
            let rel = rel_prefix(d) + n;
            let mt = mtime_pick(epoch, info.metadata.mtime);
            match info.kind {
                crate::scan::EntryKindV::Directory => Seq::empty(),
                crate::scan::EntryKindV::Regular { checksum, contents } => {
                    let mypax = spec_reg_pax(info.xattrs, checksum);
                    if al_lookup(lf, rel) matches Some(le) && spec_skip_regular(
                        info.metadata,
                        checksum,
                        mypax,
                        le,
                        epoch,
                    ) {
                        Seq::empty()
                    } else {
                        seq![
                            TarItemV::File {
                                name: rel,
                                mode: info.metadata.mode,
                                uid: info.metadata.uid,
                                gid: info.metadata.gid,
                                mtime: mt,
                                size: info.metadata.size,
                                typeflag: 48,
                                linkname: Seq::empty(),
                                pax: mypax,
                                body: contents,
                            },
                        ]
                    }
                },
                crate::scan::EntryKindV::Symlink { target } => {
                    if al_lookup(lf, rel) matches Some(le) && spec_skip_symlink(
                        info.metadata,
                        target,
                        le,
                    ) {
                        Seq::empty()
                    } else {
                        seq![
                            TarItemV::File {
                                name: rel,
                                mode: info.metadata.mode,
                                uid: info.metadata.uid,
                                gid: info.metadata.gid,
                                mtime: mt,
                                size: 0,
                                typeflag: 50,
                                linkname: target,
                                pax: Seq::empty(),
                                body: Seq::empty(),
                            },
                        ]
                    }
                },
                crate::scan::EntryKindV::Hardlink { target_path } => {
                    let t = if crate::bytesutil::spec_starts_with(target_path, spec_dot_slash()) {
                        target_path
                    } else {
                        spec_dot_slash() + target_path
                    };
                    seq![
                        TarItemV::File {
                            name: rel,
                            mode: info.metadata.mode,
                            uid: info.metadata.uid,
                            gid: info.metadata.gid,
                            mtime: mt,
                            size: 0,
                            typeflag: 49,
                            linkname: t,
                            pax: Seq::empty(),
                            body: Seq::empty(),
                        },
                    ]
                },
                crate::scan::EntryKindV::Other { contents } => seq![
                    TarItemV::File {
                        name: rel,
                        mode: info.metadata.mode,
                        uid: info.metadata.uid,
                        gid: info.metadata.gid,
                        mtime: mt,
                        size: contents.len() as u64,
                        typeflag: 48,
                        linkname: Seq::empty(),
                        pax: Seq::empty(),
                        body: contents,
                    },
                ],
            }
        },
    }
}

/// The file items of one directory, children in sorted order.
pub open spec fn spec_file_items(
    ns: Seq<Seq<u8>>,
    d: Seq<u8>,
    ev: Seq<(Seq<u8>, crate::scan::EntryInfoV)>,
    lf: Seq<(Seq<u8>, crate::overlay::LowerEntryV)>,
    epoch: Option<u64>,
) -> Seq<TarItemV>
    decreases ns.len(),
{
    if ns.len() == 0 {
        Seq::empty()
    } else {
        spec_file_items(ns.drop_last(), d, ev, lf, epoch) + spec_one_file(
            ns.last(),
            d,
            ev,
            lf,
            epoch,
        )
    }
}

/// The longest key of the entry table.
pub open spec fn max_key_len(s: Seq<(Seq<u8>, crate::scan::EntryInfoV)>) -> int
    decreases s.len(),
{
    if s.len() == 0 {
        0
    } else {
        let m = max_key_len(s.drop_last());
        if s.last().0.len() > m {
            s.last().0.len() as int
        } else {
            m
        }
    }
}

/// Every key is bounded by the longest.
pub proof fn lemma_max_key_len(s: Seq<(Seq<u8>, crate::scan::EntryInfoV)>, i: int)
    requires
        0 <= i < s.len(),
    ensures
        s[i].0.len() <= max_key_len(s),
        max_key_len(s) >= 0,
    decreases s.len(),
{
    lemma_max_key_nonneg(s);
    if i < s.len() - 1 {
        assert(s.drop_last()[i] == s[i]);
        lemma_max_key_len(s.drop_last(), i);
    }
}

pub proof fn lemma_max_key_nonneg(s: Seq<(Seq<u8>, crate::scan::EntryInfoV)>)
    ensures
        max_key_len(s) >= 0,
    decreases s.len(),
{
    if s.len() > 0 {
        lemma_max_key_nonneg(s.drop_last());
    }
}

/// The plan of one directory: its own header, then whiteouts, then files,
/// then each subdirectory's plan, children in sorted order throughout.
pub open spec fn spec_plan_dir(
    ev: Seq<(Seq<u8>, crate::scan::EntryInfoV)>,
    cv: Seq<(Seq<u8>, Seq<Seq<u8>>)>,
    lf: Seq<(Seq<u8>, crate::overlay::LowerEntryV)>,
    ldc: Seq<(Seq<u8>, Seq<Seq<u8>>)>,
    epoch: Option<u64>,
    d: Seq<u8>,
    meta: crate::scan::CachedMetadata,
) -> Seq<TarItemV>
    decreases max_key_len(ev) + 1 - d.len(), 1int, 0int,
{
    seq![spec_dir_item(d, meta, epoch)] + spec_wh_items(
        up_names(ldc, lookup_key(d)),
        d,
        up_names(cv, d),
        lf,
    ) + spec_file_items(up_names(cv, d), d, ev, lf, epoch) + spec_subdir_items(
        up_names(cv, d),
        d,
        ev,
        cv,
        lf,
        ldc,
        epoch,
    )
}

/// The concatenated plans of a directory's subdirectories.
pub open spec fn spec_subdir_items(
    ns: Seq<Seq<u8>>,
    d: Seq<u8>,
    ev: Seq<(Seq<u8>, crate::scan::EntryInfoV)>,
    cv: Seq<(Seq<u8>, Seq<Seq<u8>>)>,
    lf: Seq<(Seq<u8>, crate::overlay::LowerEntryV)>,
    ldc: Seq<(Seq<u8>, Seq<Seq<u8>>)>,
    epoch: Option<u64>,
) -> Seq<TarItemV>
    decreases max_key_len(ev) + 1 - d.len(), 0int, ns.len(),
{
    if ns.len() == 0 {
        Seq::empty()
    } else {
        let n = ns.last();
        let c = child_rel(d, n);
        let head = if n.len() > 0 && d.len() < c.len() && c.len() <= max_key_len(ev) && (
        al_lookup(ev, c) matches Some(info) && info.kind is Directory) {
            spec_plan_dir(ev, cv, lf, ldc, epoch, c, al_lookup(ev, c)->Some_0.metadata)
        } else {
            Seq::empty()
        };
        spec_subdir_items(ns.drop_last(), d, ev, cv, lf, ldc, epoch) + head
    }
}

/// Every child the children table lists has an entry.
pub open spec fn plan_ok(
    ev: Seq<(Seq<u8>, crate::scan::EntryInfoV)>,
    cv: Seq<(Seq<u8>, Seq<Seq<u8>>)>,
) -> bool {
    forall|d: Seq<u8>, n: Seq<u8>| #![all_triggers]
        crate::assoc::in_names(n, up_names(cv, d)) ==> al_lookup(ev, child_rel(d, n)) is Some
}


/// Appends one item to a plan.
fn push_item(out: &mut Vec<TarItem>, it: TarItem)
    ensures
        items_view(final(out)@) == items_view(old(out)@).push(it@),
{
    let ghost prev = out@;
    let ghost itv = it@;
    out.push(it);
    proof {
        assert forall|b: int| 0 <= b < out@.len() implies items_view(out@)[b] == items_view(
            prev,
        ).push(itv)[b] by {
            if b < prev.len() {
                assert(out@[b] == prev[b]);
            } else {
                assert(out@[b] == out@.last());
            }
        }
        assert(items_view(out@) =~= items_view(prev).push(itv));
    }
}

/// The tar name of a directory.
fn mk_rel_prefix(d: &Vec<u8>) -> (r: Vec<u8>)
    ensures
        r@ == rel_prefix(d@),
{
    let mut r: Vec<u8> = Vec::new();
    r.push(46);
    r.push(47);
    if d.len() == 0 {
        proof {
            assert(r@ =~= rel_prefix(d@));
        }
        r
    } else {
        push_all(&mut r, d.as_slice());
        r.push(47);
        proof {
            assert(r@ =~= rel_prefix(d@));
        }
        r
    }
}

/// The lower view's key of a directory.
fn mk_lookup_key(d: &Vec<u8>) -> (r: Vec<u8>)
    ensures
        r@ == lookup_key(d@),
{
    let mut r: Vec<u8> = Vec::new();
    r.push(46);
    if d.len() == 0 {
        proof {
            assert(r@ =~= lookup_key(d@));
        }
        r
    } else {
        r.push(47);
        push_all(&mut r, d.as_slice());
        proof {
            assert(r@ =~= lookup_key(d@));
        }
        r
    }
}

/// The scanned key of a child.
fn mk_child_rel(d: &Vec<u8>, n: &Vec<u8>) -> (r: Vec<u8>)
    ensures
        r@ == child_rel(d@, n@),
{
    if d.len() == 0 {
        let r = crate::bytesutil::clone_bytes(n);
        proof {
            assert(r@ =~= child_rel(d@, n@));
        }
        r
    } else {
        let mut r = crate::bytesutil::clone_bytes(d);
        r.push(47);
        push_all(&mut r, n.as_slice());
        proof {
            assert(r@ =~= child_rel(d@, n@));
        }
        r
    }
}

/// The entry of a scanned path.
fn ld_entry<'a>(ld: &'a crate::scan::LayerData, p: &[u8]) -> (r: Option<
    &'a crate::scan::EntryInfo,
>)
    ensures
        match r {
            Some(e) => al_lookup(crate::scan::entries_view(ld.entries@), p@) == Some(e@),
            None => al_lookup(crate::scan::entries_view(ld.entries@), p@) is None,
        },
{
    let mut i: usize = 0;
    while i < ld.entries.len()
        invariant
            i <= ld.entries@.len(),
            forall|a: int| 0 <= a < i ==> crate::scan::entries_view(ld.entries@)[a].0 != p@,
        decreases ld.entries@.len() - i,
    {
        if crate::bytesutil::bytes_eq(ld.entries[i].0.as_slice(), p) {
            proof {
                crate::assoc::lemma_al_first(crate::scan::entries_view(ld.entries@), p@, i as int);
            }
            return Some(&ld.entries[i].1);
        }
        i = i + 1;
    }
    proof {
        crate::assoc::lemma_al_none(crate::scan::entries_view(ld.entries@), p@);
    }
    None
}

/// The sorted child names of a scanned directory.
fn ld_children<'a>(ld: &'a crate::scan::LayerData, d: &[u8]) -> (r: Option<&'a Vec<Vec<u8>>>)
    ensures
        match r {
            Some(names) => al_lookup(crate::assoc::dc_view(ld.children@), d@) == Some(
                crate::assoc::names_view(names@),
            ),
            None => al_lookup(crate::assoc::dc_view(ld.children@), d@) is None,
        },
{
    let mut i: usize = 0;
    while i < ld.children.len()
        invariant
            i <= ld.children@.len(),
            forall|a: int| 0 <= a < i ==> crate::assoc::dc_view(ld.children@)[a].0 != d@,
        decreases ld.children@.len() - i,
    {
        if crate::bytesutil::bytes_eq(ld.children[i].0.as_slice(), d) {
            proof {
                crate::assoc::lemma_al_first(crate::assoc::dc_view(ld.children@), d@, i as int);
            }
            return Some(&ld.children[i].1);
        }
        i = i + 1;
    }
    proof {
        crate::assoc::lemma_al_none(crate::assoc::dc_view(ld.children@), d@);
    }
    None
}

/// Is a name among a sorted name list?
fn names_contains(ns: &Vec<Vec<u8>>, n: &[u8]) -> (r: bool)
    ensures
        r == crate::assoc::in_names(n@, crate::assoc::names_view(ns@)),
{
    let mut i: usize = 0;
    while i < ns.len()
        invariant
            i <= ns@.len(),
            forall|a: int| 0 <= a < i ==> crate::assoc::names_view(ns@)[a] != n@,
        decreases ns@.len() - i,
    {
        if crate::bytesutil::bytes_eq(ns[i].as_slice(), n) {
            proof {
                assert(crate::assoc::names_view(ns@)[i as int] == n@);
            }
            return true;
        }
        i = i + 1;
    }
    false
}

/// Emits one directory of the plan: its header, whiteouts, files, then
/// each subdirectory in sorted order.
#[verifier::rlimit(100)]
#[verifier::loop_isolation(false)]
fn emit_dir(
    ld: &crate::scan::LayerData,
    lower: &crate::overlay::LowerAnalysis,
    epoch: Option<u64>,
    d: &Vec<u8>,
    meta: crate::scan::CachedMetadata,
    maxlen: usize,
    out: &mut Vec<TarItem>,
)
    requires
        plan_ok(crate::scan::entries_view(ld.entries@), crate::assoc::dc_view(ld.children@)),
        maxlen == max_key_len(crate::scan::entries_view(ld.entries@)),
        d@.len() <= maxlen + 1,
    ensures
        items_view(final(out)@) == items_view(old(out)@) + spec_plan_dir(
            crate::scan::entries_view(ld.entries@),
            crate::assoc::dc_view(ld.children@),
            crate::overlay::assoc_view(lower.files@),
            crate::assoc::dc_view(lower.dir_contents@),
            epoch,
            d@,
            meta,
        ),
    decreases maxlen + 1 - d@.len(),
{
    let ghost ev = crate::scan::entries_view(ld.entries@);
    let ghost cv = crate::assoc::dc_view(ld.children@);
    let ghost lf = crate::overlay::assoc_view(lower.files@);
    let ghost ldc = crate::assoc::dc_view(lower.dir_contents@);
    let prefix = mk_rel_prefix(d);
    let mtv: u64 = match epoch {
        Some(e) => e,
        None => #[verifier::truncate] (meta.mtime as u64),
    };
    push_item(
        out,
        TarItem::Dir {
            name: crate::bytesutil::clone_bytes(&prefix),
            mode: meta.mode,
            uid: meta.uid,
            gid: meta.gid,
            mtime: mtv,
        },
    );
    proof {
        assert(items_view(out@) =~= items_view(old(out)@) + seq![spec_dir_item(d@, meta, epoch)]);
    }
    let ghost after_dir = items_view(out@);
    let up_opt = ld_children(ld, d.as_slice());
    let ghost up = up_names(cv, d@);
    let lkey = mk_lookup_key(d);
    match lower.children(lkey.as_slice()) {
        Some(lns) => {
            let ghost lnsv = crate::assoc::names_view(lns@);
            proof {
                assert(lnsv == up_names(ldc, lookup_key(d@)));
                assert(lnsv.take(0) =~= Seq::<Seq<u8>>::empty());
            }
            let mut i: usize = 0;
            while i < lns.len()
                invariant
                    i <= lns@.len(),
                    items_view(out@) == after_dir + spec_wh_items(
                        lnsv.take(i as int),
                        d@,
                        up,
                        lf,
                    ),
                decreases lns@.len() - i,
            {
                proof {
                    assert(lnsv[i as int] == lns@[i as int]@);
                    assert(lnsv.take(i + 1).drop_last() =~= lnsv.take(i as int));
                    assert(lnsv.take(i + 1).last() == lnsv[i as int]);
                }
                let present = match up_opt {
                    Some(u) => names_contains(u, lns[i].as_slice()),
                    None => false,
                };
                proof {
                    assert(present == crate::assoc::in_names(lnsv[i as int], up));
                }
                if !present {
                    let mut fpath = crate::bytesutil::clone_bytes(&prefix);
                    push_all(&mut fpath, lns[i].as_slice());
                    proof {
                        assert(fpath@ =~= rel_prefix(d@) + lnsv[i as int]);
                    }
                    match lower.file(fpath.as_slice()) {
                        Some(le) => {
                            let mut wname = crate::bytesutil::clone_bytes(&prefix);
                            let wp = crate::overlay::wh_prefix();
                            push_all(&mut wname, wp.as_slice());
                            push_all(&mut wname, lns[i].as_slice());
                            proof {
                                assert(wname@ =~= rel_prefix(d@)
                                    + crate::overlay::spec_wh_prefix() + lnsv[i as int]);
                            }
                            push_item(
                                out,
                                TarItem::Whiteout {
                                    name: wname,
                                    mode: le.mode,
                                    uid: le.uid,
                                    gid: le.gid,
                                    mtime: le.mtime,
                                },
                            );
                        },
                        None => {},
                    }
                }
                proof {
                    assert(items_view(out@) =~= after_dir + spec_wh_items(
                        lnsv.take(i + 1),
                        d@,
                        up,
                        lf,
                    ));
                }
                i = i + 1;
            }
            proof {
                assert(lnsv.take(lnsv.len() as int) =~= lnsv);
            }
        },
        None => {
            proof {
                assert(up_names(ldc, lookup_key(d@)) =~= Seq::<Seq<u8>>::empty());
                assert(spec_wh_items(up_names(ldc, lookup_key(d@)), d@, up, lf) =~= Seq::<
                    TarItemV,
                >::empty());
                assert(items_view(out@) =~= after_dir + spec_wh_items(
                    up_names(ldc, lookup_key(d@)),
                    d@,
                    up,
                    lf,
                ));
            }
        },
    }
    let ghost after_wh = items_view(out@);
    match up_opt {
        Some(ns) => {
            let ghost nsv = crate::assoc::names_view(ns@);
            proof {
                assert(nsv == up);
                assert(nsv.take(0) =~= Seq::<Seq<u8>>::empty());
            }
            let mut i: usize = 0;
            while i < ns.len()
                invariant
                    i <= ns@.len(),
                    items_view(out@) == after_wh + spec_file_items(
                        nsv.take(i as int),
                        d@,
                        ev,
                        lf,
                        epoch,
                    ),
                decreases ns@.len() - i,
            {
                proof {
                    assert(nsv[i as int] == ns@[i as int]@);
                    assert(nsv.take(i + 1).drop_last() =~= nsv.take(i as int));
                    assert(nsv.take(i + 1).last() == nsv[i as int]);
                    assert(crate::assoc::in_names(nsv[i as int], up));
                }
                let rel = mk_child_rel(d, &ns[i]);
                match ld_entry(ld, rel.as_slice()) {
                    Some(info) => {
                        let mut full = crate::bytesutil::clone_bytes(&prefix);
                        push_all(&mut full, ns[i].as_slice());
                        proof {
                            assert(full@ =~= rel_prefix(d@) + nsv[i as int]);
                        }
                        let fmt: u64 = match epoch {
                            Some(e) => e,
                            None => #[verifier::truncate] (info.metadata.mtime as u64),
                        };
                        match &info.kind {
                            crate::scan::EntryKind::Directory => {},
                            crate::scan::EntryKind::Regular { checksum, contents } => {
                                let mypax = build_reg_pax(&info.xattrs, checksum);
                                let skipped = match lower.file(full.as_slice()) {
                                    Some(le) => skip_regular(
                                        &info.metadata,
                                        checksum,
                                        &mypax,
                                        le,
                                        epoch,
                                    ),
                                    None => false,
                                };
                                if !skipped {
                                    push_item(
                                        out,
                                        TarItem::File {
                                            name: full,
                                            mode: info.metadata.mode,
                                            uid: info.metadata.uid,
                                            gid: info.metadata.gid,
                                            mtime: fmt,
                                            size: info.metadata.size,
                                            typeflag: 48,
                                            linkname: Vec::new(),
                                            pax: mypax,
                                            body: crate::bytesutil::clone_bytes(contents),
                                        },
                                    );
                                }
                            },
                            crate::scan::EntryKind::Symlink { target } => {
                                let skipped = match lower.file(full.as_slice()) {
                                    Some(le) => skip_symlink(&info.metadata, target, le),
                                    None => false,
                                };
                                if !skipped {
                                    push_item(
                                        out,
                                        TarItem::File {
                                            name: full,
                                            mode: info.metadata.mode,
                                            uid: info.metadata.uid,
                                            gid: info.metadata.gid,
                                            mtime: fmt,
                                            size: 0,
                                            typeflag: 50,
                                            linkname: crate::bytesutil::clone_bytes(target),
                                            pax: Vec::new(),
                                            body: Vec::new(),
                                        },
                                    );
                                }
                            },
                            crate::scan::EntryKind::Hardlink { target_path } => {
                                let mut ds: Vec<u8> = Vec::new();
                                ds.push(46);
                                ds.push(47);
                                proof {
                                    assert(ds@ =~= spec_dot_slash());
                                }
                                let lname: Vec<u8> = if crate::bytesutil::starts_with(
                                    target_path.as_slice(),
                                    ds.as_slice(),
                                ) {
                                    crate::bytesutil::clone_bytes(target_path)
                                } else {
                                    let mut t = ds;
                                    push_all(&mut t, target_path.as_slice());
                                    t
                                };
                                push_item(
                                    out,
                                    TarItem::File {
                                        name: full,
                                        mode: info.metadata.mode,
                                        uid: info.metadata.uid,
                                        gid: info.metadata.gid,
                                        mtime: fmt,
                                        size: 0,
                                        typeflag: 49,
                                        linkname: lname,
                                        pax: Vec::new(),
                                        body: Vec::new(),
                                    },
                                );
                            },
                            crate::scan::EntryKind::Other { contents } => {
                                push_item(
                                    out,
                                    TarItem::File {
                                        name: full,
                                        mode: info.metadata.mode,
                                        uid: info.metadata.uid,
                                        gid: info.metadata.gid,
                                        mtime: fmt,
                                        size: contents.len() as u64,
                                        typeflag: 48,
                                        linkname: Vec::new(),
                                        pax: Vec::new(),
                                        body: crate::bytesutil::clone_bytes(contents),
                                    },
                                );
                            },
                        }
                        proof {
                            assert(al_lookup(ev, child_rel(d@, nsv[i as int])) == Some(info@));
                            assert(items_view(out@) =~~= after_wh + spec_file_items(
                                nsv.take(i as int),
                                d@,
                                ev,
                                lf,
                                epoch,
                            ) + spec_one_file(nsv[i as int], d@, ev, lf, epoch));
                        }
                    },
                    None => {
                        proof {
                            assert(up[i as int] == nsv[i as int]);
                            assert(crate::assoc::in_names(nsv[i as int], up_names(cv, d@)));
                            assert(al_lookup(ev, child_rel(d@, nsv[i as int])) is Some);
                            assert(false);
                        }
                    },
                }
                proof {
                    assert(items_view(out@) =~= after_wh + spec_file_items(
                        nsv.take(i + 1),
                        d@,
                        ev,
                        lf,
                        epoch,
                    ));
                }
                i = i + 1;
            }
            proof {
                assert(nsv.take(nsv.len() as int) =~= nsv);
            }
        },
        None => {
            proof {
                assert(up =~= Seq::<Seq<u8>>::empty());
                assert(spec_file_items(up, d@, ev, lf, epoch) =~= Seq::<TarItemV>::empty());
                assert(items_view(out@) =~= after_wh + spec_file_items(up, d@, ev, lf, epoch));
            }
        },
    }
    let ghost after_files = items_view(out@);
    match up_opt {
        Some(ns) => {
            let ghost nsv = crate::assoc::names_view(ns@);
            proof {
                assert(nsv == up);
                assert(nsv.take(0) =~= Seq::<Seq<u8>>::empty());
            }
            let mut i: usize = 0;
            while i < ns.len()
                invariant
                    i <= ns@.len(),
                    items_view(out@) == after_files + spec_subdir_items(
                        nsv.take(i as int),
                        d@,
                        ev,
                        cv,
                        lf,
                        ldc,
                        epoch,
                    ),
                decreases ns@.len() - i,
            {
                proof {
                    assert(nsv[i as int] == ns@[i as int]@);
                    assert(nsv.take(i + 1).drop_last() =~= nsv.take(i as int));
                    assert(nsv.take(i + 1).last() == nsv[i as int]);
                }
                let rel = mk_child_rel(d, &ns[i]);
                if ns[i].len() > 0 && d.len() < rel.len() && rel.len() <= maxlen {
                    match ld_entry(ld, rel.as_slice()) {
                        Some(info) => {
                            let is_dir = match &info.kind {
                                crate::scan::EntryKind::Directory => true,
                                _ => false,
                            };
                            if is_dir {
                                emit_dir(ld, lower, epoch, &rel, info.metadata, maxlen, out);
                            }
                        },
                        None => {},
                    }
                }
                proof {
                    assert(items_view(out@) =~= after_files + spec_subdir_items(
                        nsv.take(i + 1),
                        d@,
                        ev,
                        cv,
                        lf,
                        ldc,
                        epoch,
                    ));
                }
                i = i + 1;
            }
            proof {
                assert(nsv.take(nsv.len() as int) =~= nsv);
                assert(items_view(out@) =~= items_view(old(out)@) + spec_plan_dir(
                    ev,
                    cv,
                    lf,
                    ldc,
                    epoch,
                    d@,
                    meta,
                ));
            }
        },
        None => {
            proof {
                assert(up =~= Seq::<Seq<u8>>::empty());
                assert(spec_subdir_items(up, d@, ev, cv, lf, ldc, epoch) =~= Seq::<
                    TarItemV,
                >::empty());
                assert(items_view(out@) =~= items_view(old(out)@) + spec_plan_dir(
                    ev,
                    cv,
                    lf,
                    ldc,
                    epoch,
                    d@,
                    meta,
                ));
            }
        },
    }
}

/// The whole plan of a new layer, rooted at the upper directory.
pub open spec fn spec_plan(
    ev: Seq<(Seq<u8>, crate::scan::EntryInfoV)>,
    cv: Seq<(Seq<u8>, Seq<Seq<u8>>)>,
    lf: Seq<(Seq<u8>, crate::overlay::LowerEntryV)>,
    ldc: Seq<(Seq<u8>, Seq<Seq<u8>>)>,
    epoch: Option<u64>,
    root_meta: crate::scan::CachedMetadata,
) -> Seq<TarItemV> {
    spec_plan_dir(ev, cv, lf, ldc, epoch, Seq::empty(), root_meta)
}

/// Plans a new layer: the upper tree in depth-first pre-order against
/// the lower view, whiteouts before files in every directory, children
/// in sorted order, unchanged entries skipped.
pub fn create_layer(
    ld: &crate::scan::LayerData,
    lower: &crate::overlay::LowerAnalysis,
    root_meta: crate::scan::CachedMetadata,
    epoch: Option<u64>,
) -> (r: Vec<TarItem>)
    requires
        plan_ok(crate::scan::entries_view(ld.entries@), crate::assoc::dc_view(ld.children@)),
    ensures
        items_view(r@) == spec_plan(
            crate::scan::entries_view(ld.entries@),
            crate::assoc::dc_view(ld.children@),
            crate::overlay::assoc_view(lower.files@),
            crate::assoc::dc_view(lower.dir_contents@),
            epoch,
            root_meta,
        ),
{
    let ghost ev = crate::scan::entries_view(ld.entries@);
    let mut maxlen: usize = 0;
    let mut i: usize = 0;
    proof {
        assert(ev.take(0) =~= Seq::<(Seq<u8>, crate::scan::EntryInfoV)>::empty());
    }
    while i < ld.entries.len()
        invariant
            i <= ld.entries@.len(),
            ev == crate::scan::entries_view(ld.entries@),
            maxlen == max_key_len(ev.take(i as int)),
        decreases ld.entries@.len() - i,
    {
        proof {
            assert(ev[i as int] == (ld.entries@[i as int].0@, ld.entries@[i as int].1@));
            assert(ev.take(i + 1).drop_last() =~= ev.take(i as int));
            assert(ev.take(i + 1).last() == ev[i as int]);
        }
        if ld.entries[i].0.len() > maxlen {
            maxlen = ld.entries[i].0.len();
        }
        i = i + 1;
    }
    proof {
        assert(ev.take(ev.len() as int) =~= ev);
        lemma_max_key_nonneg(ev);
    }
    let d: Vec<u8> = Vec::new();
    let mut out: Vec<TarItem> = Vec::new();
    proof {
        assert(items_view(out@) =~= Seq::<TarItemV>::empty());
    }
    emit_dir(ld, lower, epoch, &d, root_meta, maxlen, &mut out);
    proof {
        assert(items_view(out@) =~= spec_plan(
            ev,
            crate::assoc::dc_view(ld.children@),
            crate::overlay::assoc_view(lower.files@),
            crate::assoc::dc_view(lower.dir_contents@),
            epoch,
            root_meta,
        ));
    }
    out
}


/// A scanned tree feeds the planner: every child its children table
/// lists has an entry under the joined path.
pub proof fn lemma_scan_plan_ok(
    rs: Seq<crate::scan::ScanRecordV>,
    ev: Seq<(Seq<u8>, crate::scan::EntryInfoV)>,
    cv: Seq<(Seq<u8>, Seq<Seq<u8>>)>,
)
    requires
        ev.len() == rs.len(),
        forall|i: int| #![all_triggers]
            0 <= i < rs.len() ==> ev[i] == (rs[i].rel_path, crate::scan::spec_entry_of(rs, i)),
        crate::assoc::dc_ok(cv, Seq::new(rs.len(), |i: int| rs[i].rel_path)),
        forall|i: int| #![all_triggers]
            0 <= i < rs.len() ==> crate::overlay::wf_rel_path(rs[i].rel_path),
    ensures
        plan_ok(ev, cv),
{
    let paths = Seq::new(rs.len(), |i: int| rs[i].rel_path);
    assert forall|d: Seq<u8>, n: Seq<u8>| #![all_triggers]
        crate::assoc::in_names(n, up_names(cv, d)) implies al_lookup(
        ev,
        child_rel(d, n),
    ) is Some by {
        if al_lookup(cv, d) is Some {
            crate::assoc::lemma_al_some_witness(cv, d);
            let w = choose|w: int|
                0 <= w < cv.len() && cv[w].0 == d && cv[w].1 == al_lookup(cv, d)->Some_0;
            assert(crate::assoc::dc_entry_ok(paths, cv[w].0, cv[w].1));
            assert(crate::assoc::in_names(n, cv[w].1));
            let a = choose|a: int|
                0 <= a < paths.len() && crate::overlay::spec_dirname(paths[a]) == d
                    && crate::overlay::spec_basename(paths[a]) == n;
            crate::overlay::lemma_split_inverse(paths[a]);
            assert(paths[a] == child_rel(d, n));
            assert(ev[a].0 == child_rel(d, n));
            crate::assoc::lemma_al_exists_some(ev, child_rel(d, n));
        }
    }
}

/// A regular file of the upper tree is left out of the plan only when
/// the lower view holds an identical entry at the same path: same
/// checksum, size, mode, owner, emitted mtime, and xattr records.
pub proof fn lemma_dedup_sound(
    n: Seq<u8>,
    d: Seq<u8>,
    ev: Seq<(Seq<u8>, crate::scan::EntryInfoV)>,
    lf: Seq<(Seq<u8>, crate::overlay::LowerEntryV)>,
    epoch: Option<u64>,
)
    requires
        al_lookup(ev, child_rel(d, n)) matches Some(info) && info.kind is Regular,
        spec_one_file(n, d, ev, lf, epoch) == Seq::<TarItemV>::empty(),
    ensures
        ({
            let info = al_lookup(ev, child_rel(d, n))->Some_0;
            let checksum = info.kind->Regular_checksum;
            al_lookup(lf, rel_prefix(d) + n) matches Some(le) && spec_skip_regular(
                info.metadata,
                checksum,
                spec_reg_pax(info.xattrs, checksum),
                le,
                epoch,
            )
        }),
{
    let info = al_lookup(ev, child_rel(d, n))->Some_0;
    match info.kind {
        crate::scan::EntryKindV::Regular { checksum, contents } => {
            let mypax = spec_reg_pax(info.xattrs, checksum);
            if al_lookup(lf, rel_prefix(d) + n) matches Some(le) && spec_skip_regular(
                info.metadata,
                checksum,
                mypax,
                le,
                epoch,
            ) {
            } else {
                assert(spec_one_file(n, d, ev, lf, epoch).len() == 1);
            }
        },
        _ => {},
    }
}

/// Each directory of the plan opens with its own header, then its
/// whiteouts, then its files, then the plans of its subdirectories in
/// sorted-name order.
pub proof fn lemma_plan_shape(
    ev: Seq<(Seq<u8>, crate::scan::EntryInfoV)>,
    cv: Seq<(Seq<u8>, Seq<Seq<u8>>)>,
    lf: Seq<(Seq<u8>, crate::overlay::LowerEntryV)>,
    ldc: Seq<(Seq<u8>, Seq<Seq<u8>>)>,
    epoch: Option<u64>,
    d: Seq<u8>,
    meta: crate::scan::CachedMetadata,
)
    ensures
        spec_plan_dir(ev, cv, lf, ldc, epoch, d, meta) == seq![
            spec_dir_item(d, meta, epoch),
        ] + spec_wh_items(up_names(ldc, lookup_key(d)), d, up_names(cv, d), lf) + spec_file_items(
            up_names(cv, d),
            d,
            ev,
            lf,
            epoch,
        ) + spec_subdir_items(up_names(cv, d), d, ev, cv, lf, ldc, epoch),
{
}

/// The plan a record list and an empty lower view yield.
pub open spec fn spec_fresh_plan(
    rs: Seq<crate::scan::ScanRecordV>,
    epoch: Option<u64>,
    root_meta: crate::scan::CachedMetadata,
) -> Seq<TarItemV> {
    spec_plan(
        crate::scan::spec_entries(rs),
        crate::assoc::spec_dc_full(crate::scan::spec_paths(rs)),
        Seq::empty(),
        Seq::empty(),
        epoch,
        root_meta,
    )
}

/// Builds one new layer against its lower blobs: decodes and merges the
/// lowers, classifies the scanned upper tree, plans and renders the tar,
/// and encodes it — so the result's diff-id names the SHA-256 of exactly
/// what decoding its blob yields. With no lowers to decode and
/// compression off, no outside call decides: the build succeeds exactly
/// when the plan can be rendered.
pub fn build_layer(
    records: &Vec<crate::scan::ScanRecord>,
    root_meta: crate::scan::CachedMetadata,
    lower_blobs: &Vec<Vec<u8>>,
    config: &crate::config::GlobalConfig,
    epoch: Option<u64>,
) -> (r: Result<crate::blob::EncodedLayer, BuildError>)
    requires
        forall|i: int| #![all_triggers]
            0 <= i < records@.len() ==> crate::overlay::wf_rel_path(
                crate::scan::recs_view(records@)[i].rel_path,
            ),
    ensures
        r matches Ok(e) ==> {
            &&& crate::blob::blob_ok(e.blob)
            &&& e.diff_id@ == crate::digest::digest_ref_of(
                crate::blob::spec_decode(config.compression, e.blob.bytes@),
            )
            &&& e.blob.descriptor.media_type matches Some(m) && m@
                == crate::blob::spec_layer_media_type(config.compression)
        },
        (lower_blobs@.len() == 0 && config.compression is Disabled) ==> ((r is Ok)
            == items_renderable(
            spec_fresh_plan(crate::scan::recs_view(records@), epoch, root_meta),
        )),
{
    let mut parsed: Vec<Vec<crate::overlay::RawTarEntry>> = Vec::new();
    let mut i: usize = 0;
    while i < lower_blobs.len()
        invariant
            i <= lower_blobs@.len(),
            parsed@.len() == i,
        decreases lower_blobs@.len() - i,
    {
        let tar_bytes: Vec<u8> = match config.compression {
            crate::config::Compression::Gzip => {
                match crate::compress::gzip_decompress(lower_blobs[i].as_slice()) {
                    Ok(b) => b,
                    Err(e) => {
                        return Err(e);
                    },
                }
            },
            crate::config::Compression::Zstd => {
                match crate::compress::zstd_decompress(lower_blobs[i].as_slice()) {
                    Ok(b) => b,
                    Err(e) => {
                        return Err(e);
                    },
                }
            },
            crate::config::Compression::Disabled => crate::bytesutil::clone_bytes(
                &lower_blobs[i],
            ),
        };
        match crate::overlay::read_tar_entries(tar_bytes.as_slice()) {
            Ok(ents) => {
                parsed.push(ents);
            },
            Err(e) => {
                return Err(e);
            },
        }
        i = i + 1;
    }
    let lower = crate::overlay::analyze_lowers(&parsed);
    let ld = crate::scan::build_layer_data(records);
    proof {
        lemma_scan_plan_ok(
            crate::scan::recs_view(records@),
            crate::scan::entries_view(ld.entries@),
            crate::assoc::dc_view(ld.children@),
        );
        if lower_blobs@.len() == 0 {
            let lsv = crate::overlay::layers_view(parsed@);
            assert(lsv.len() == 0);
            let fv = crate::overlay::assoc_view(lower.files@);
            if lower.files@.len() > 0 {
                assert(0 <= 0 < fv.len() && fv[0].0 == fv[0].0);
                crate::assoc::lemma_al_exists_some(fv, fv[0].0);
                assert(crate::overlay::merged_lookup(lsv, fv[0].0) is None);
                assert(false);
            }
            assert(fv =~= Seq::<(Seq<u8>, crate::overlay::LowerEntryV)>::empty());
            let dcv = crate::assoc::dc_view(lower.dir_contents@);
            if lower.dir_contents@.len() > 0 {
                assert(0 <= 0 < dcv.len() && dcv[0].0 == dcv[0].0);
                crate::assoc::lemma_al_exists_some(dcv, dcv[0].0);
                assert(false);
            }
            assert(dcv =~= Seq::<(Seq<u8>, Seq<Seq<u8>>)>::empty());
        }
    }
    let plan = create_layer(&ld, &lower, root_meta, epoch);
    proof {
        if lower_blobs@.len() == 0 {
            assert(items_view(plan@) == spec_fresh_plan(
                crate::scan::recs_view(records@),
                epoch,
                root_meta,
            ));
        }
    }
    let tar = match render_tar(&plan) {
        Ok(t) => t,
        Err(e) => {
            return Err(e);
        },
    };
    crate::blob::encode_layer(tar.as_slice(), config)
}


/// How many whiteout items of a plan carry a name.
pub open spec fn count_wh(items: Seq<TarItemV>, name: Seq<u8>) -> int
    decreases items.len(),
{
    if items.len() == 0 {
        0
    } else {
        count_wh(items.drop_last(), name) + (match items.last() {
            TarItemV::Whiteout { name: n, .. } => if n == name {
                1int
            } else {
                0int
            },
            _ => 0int,
        })
    }
}

/// Counting distributes over concatenation.
pub proof fn lemma_count_wh_add(a: Seq<TarItemV>, b: Seq<TarItemV>, name: Seq<u8>)
    ensures
        count_wh(a + b, name) == count_wh(a, name) + count_wh(b, name),
    decreases b.len(),
{
    if b.len() == 0 {
        assert(a + b =~= a);
    } else {
        assert((a + b).drop_last() =~= a + b.drop_last());
        assert((a + b).last() == b.last());
        lemma_count_wh_add(a, b.drop_last(), name);
    }
}

/// Appending equal-length prefixes keeps distinct tails distinct.
proof fn lemma_concat_cancel(p: Seq<u8>, a: Seq<u8>, b: Seq<u8>)
    requires
        a != b,
    ensures
        p + a != p + b,
{
    if p + a == p + b {
        assert(a =~= (p + a).skip(p.len() as int));
        assert(b =~= (p + b).skip(p.len() as int));
    }
}

/// Whiteout completeness: a name the lower view lists in a directory,
/// gone from the upper and recorded in the lower files, yields exactly
/// one whiteout entry `<dir-prefix>.wh.<name>` in that directory's
/// whiteout section.
pub proof fn lemma_whiteout_complete(
    ns: Seq<Seq<u8>>,
    d: Seq<u8>,
    up: Seq<Seq<u8>>,
    lf: Seq<(Seq<u8>, crate::overlay::LowerEntryV)>,
    i: int,
)
    requires
        crate::assoc::sorted_names(ns),
        0 <= i < ns.len(),
        !crate::assoc::in_names(ns[i], up),
        al_lookup(lf, rel_prefix(d) + ns[i]) is Some,
    ensures
        count_wh(
            spec_wh_items(ns, d, up, lf),
            rel_prefix(d) + crate::overlay::spec_wh_prefix() + ns[i],
        ) == 1,
    decreases ns.len(),
{
    let target = rel_prefix(d) + crate::overlay::spec_wh_prefix() + ns[i];
    let last = ns.last();
    let rest = ns.drop_last();
    assert(spec_wh_items(ns, d, up, lf) == spec_wh_items(rest, d, up, lf) + spec_wh_item(
        last,
        d,
        up,
        lf,
    ));
    lemma_count_wh_add(spec_wh_items(rest, d, up, lf), spec_wh_item(last, d, up, lf), target);
    if i == ns.len() - 1 {
        assert(count_wh(spec_wh_item(last, d, up, lf), target) == 1) by {
            let it = spec_wh_item(last, d, up, lf);
            assert(it.len() == 1);
            assert(it.drop_last() =~= Seq::<TarItemV>::empty());
            assert(count_wh(Seq::<TarItemV>::empty(), target) == 0);
            assert(it.last() matches TarItemV::Whiteout { name: nm, .. } && nm == target);
        }
        assert forall|a: int| 0 <= a < rest.len() implies rest[a] != ns[i] by {
            assert(rest[a] == ns[a]);
            if rest[a] == ns[i] {
                crate::bytesutil::lemma_lex_irrefl(ns[i]);
            }
        }
        lemma_count_wh_none(rest, d, up, lf, target, ns[i]);
    } else {
        assert forall|a: int, b: int| 0 <= a < b < rest.len() implies crate::bytesutil::lex_lt(
            rest[a],
            rest[b],
        ) by {
            assert(rest[a] == ns[a] && rest[b] == ns[b]);
        }
        assert(rest[i] == ns[i]);
        lemma_whiteout_complete(rest, d, up, lf, i);
        assert(last != ns[i]) by {
            assert(crate::bytesutil::lex_lt(ns[i], last));
            if last == ns[i] {
                crate::bytesutil::lemma_lex_irrefl(ns[i]);
            }
        }
        assert(count_wh(spec_wh_item(last, d, up, lf), target) == 0) by {
            lemma_wh_item_other(last, d, up, lf, ns[i]);
        }
    }
}

/// A different lower name never yields a whiteout with this target name.
proof fn lemma_wh_item_other(
    n: Seq<u8>,
    d: Seq<u8>,
    up: Seq<Seq<u8>>,
    lf: Seq<(Seq<u8>, crate::overlay::LowerEntryV)>,
    other: Seq<u8>,
)
    requires
        n != other,
    ensures
        count_wh(
            spec_wh_item(n, d, up, lf),
            rel_prefix(d) + crate::overlay::spec_wh_prefix() + other,
        ) == 0,
{
    lemma_concat_cancel(rel_prefix(d) + crate::overlay::spec_wh_prefix(), n, other);
    assert(rel_prefix(d) + crate::overlay::spec_wh_prefix() + n =~= (rel_prefix(d)
        + crate::overlay::spec_wh_prefix()) + n);
    assert(rel_prefix(d) + crate::overlay::spec_wh_prefix() + other =~= (rel_prefix(d)
        + crate::overlay::spec_wh_prefix()) + other);
    let it = spec_wh_item(n, d, up, lf);
    let target = rel_prefix(d) + crate::overlay::spec_wh_prefix() + other;
    assert(count_wh(Seq::<TarItemV>::empty(), target) == 0);
    if it.len() == 0 {
    } else {
        assert(it.len() == 1);
        assert(it.drop_last() =~= Seq::<TarItemV>::empty());
        assert(it.last() matches TarItemV::Whiteout { name: nm, .. } && nm != target);
    }
}

/// Names all unlike `other` yield no whiteout with its target name.
proof fn lemma_count_wh_none_distinct(
    ns: Seq<Seq<u8>>,
    d: Seq<u8>,
    up: Seq<Seq<u8>>,
    lf: Seq<(Seq<u8>, crate::overlay::LowerEntryV)>,
    other: Seq<u8>,
)
    requires
        forall|a: int| 0 <= a < ns.len() ==> ns[a] != other,
    ensures
        count_wh(
            spec_wh_items(ns, d, up, lf),
            rel_prefix(d) + crate::overlay::spec_wh_prefix() + other,
        ) == 0,
    decreases ns.len(),
{
    if ns.len() > 0 {
        assert forall|a: int| 0 <= a < ns.drop_last().len() implies ns.drop_last()[a] != other by {
            assert(ns.drop_last()[a] == ns[a]);
        }
        lemma_count_wh_none_distinct(ns.drop_last(), d, up, lf, other);
        lemma_wh_item_other(ns.last(), d, up, lf, other);
        lemma_count_wh_add(
            spec_wh_items(ns.drop_last(), d, up, lf),
            spec_wh_item(ns.last(), d, up, lf),
            rel_prefix(d) + crate::overlay::spec_wh_prefix() + other,
        );
    }
}

/// Helper alias used above.
proof fn lemma_count_wh_none(
    ns: Seq<Seq<u8>>,
    d: Seq<u8>,
    up: Seq<Seq<u8>>,
    lf: Seq<(Seq<u8>, crate::overlay::LowerEntryV)>,
    target: Seq<u8>,
    other: Seq<u8>,
)
    requires
        target == rel_prefix(d) + crate::overlay::spec_wh_prefix() + other,
        forall|a: int| 0 <= a < ns.len() ==> ns[a] != other,
    ensures
        count_wh(spec_wh_items(ns, d, up, lf), target) == 0,
{
    lemma_count_wh_none_distinct(ns, d, up, lf, other);
}

/// Reproducibility: two runs over the same scanned tree, lower view and
/// epoch render byte-identical layer tars — the plan and its rendering
/// are functions of those inputs alone.
pub proof fn lemma_reproducible(
    items1: Seq<TarItemV>,
    items2: Seq<TarItemV>,
    bytes1: Seq<u8>,
    bytes2: Seq<u8>,
    ev: Seq<(Seq<u8>, crate::scan::EntryInfoV)>,
    cv: Seq<(Seq<u8>, Seq<Seq<u8>>)>,
    lf: Seq<(Seq<u8>, crate::overlay::LowerEntryV)>,
    ldc: Seq<(Seq<u8>, Seq<Seq<u8>>)>,
    epoch: Option<u64>,
    root_meta: crate::scan::CachedMetadata,
)
    requires
        items1 == spec_plan(ev, cv, lf, ldc, epoch, root_meta),
        items2 == spec_plan(ev, cv, lf, ldc, epoch, root_meta),
        bytes1 == spec_tar_archive(items1),
        bytes2 == spec_tar_archive(items2),
    ensures
        bytes1 == bytes2,
{
}

} // verus!
