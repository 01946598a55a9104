//! The image assembler: the `created` timestamp, per-image config and
//! manifest documents, the top-level index, and the fields read back out
//! of consumed layouts.

use vstd::prelude::*;
use vstd::string::StringSliceAdditionalSpecFns;
use crate::blob::Blob;
use crate::blob::BlobDescriptor;
use crate::blob::blob_from_bytes;
use crate::blob::blob_ok;
use crate::blob::spec_descriptor_json;
use crate::bytesutil::bytes_eq;
use crate::bytesutil::clone_bytes;
use crate::bytesutil::push_all;
use crate::errors::BuildError;
use crate::json::JsonValue;
use crate::json::dec_of;
use crate::json::ser;
use crate::json::ser_str;
use crate::json::write_dec;
use crate::json::write_json;
use crate::json::write_str;

verus! {

/// Is this a leap year?
pub open spec fn spec_is_leap(y: int) -> bool {
    (y % 4 == 0 && y % 100 != 0) || y % 400 == 0
}

/// Days in a year.
pub open spec fn spec_days_in_year(y: int) -> int {
    if spec_is_leap(y) {
        366
    } else {
        365
    }
}

/// Days in a month, January as one.
pub open spec fn spec_days_in_month(y: int, m: int) -> int {
    if m == 2 {
        if spec_is_leap(y) {
            29
        } else {
            28
        }
    } else if m == 4 || m == 6 || m == 9 || m == 11 {
        30
    } else {
        31
    }
}

/// The year a day count from 1970 falls in, with the days left inside it.
pub open spec fn spec_year_of(days: int, y: int) -> (int, int)
    decreases days,
{
    if 0 <= days && days >= spec_days_in_year(y) {
        spec_year_of(days - spec_days_in_year(y), y + 1)
    } else {
        (y, days)
    }
}

/// The month a day count inside a year falls in, with the days left.
pub open spec fn spec_month_of(days: int, y: int, m: int) -> (int, int)
    decreases 12 - m,
{
    if 1 <= m < 12 && days >= spec_days_in_month(y, m) {
        spec_month_of(days - spec_days_in_month(y, m), y, m + 1)
    } else {
        (m, days)
    }
}

/// A decimal rendering padded with leading zeros to a width.
pub open spec fn dec_pad(n: int, w: int) -> Seq<u8> {
    if dec_of(n).len() >= w {
        dec_of(n)
    } else {
        Seq::new((w - dec_of(n).len()) as nat, |i: int| 48u8) + dec_of(n)
    }
}

/// The timestamp `YYYY-MM-DDTHH:MM:SSZ` of an epoch second count.
pub open spec fn spec_timestamp(epoch: u64) -> Seq<u8> {
    let days = epoch as int / 86400;
    let secs = epoch as int % 86400;
    let (y, yd) = spec_year_of(days, 1970);
    let (m, md) = spec_month_of(yd, y, 1);
    dec_pad(y, 4) + seq![45u8] + dec_pad(m, 2) + seq![45u8] + dec_pad(md + 1, 2) + seq![84u8]
        + dec_pad(secs / 3600, 2) + seq![58u8] + dec_pad(secs % 3600 / 60, 2) + seq![58u8]
        + dec_pad(secs % 60, 2) + seq![90u8]
}

/// Appends a zero-padded decimal field.
fn write_dec_pad(n: u64, w: usize, out: &mut Vec<u8>)
    ensures
        final(out)@ == old(out)@ + dec_pad(n as int, w as int),
{
    let mut digits: Vec<u8> = Vec::new();
    write_dec(n, &mut digits);
    if digits.len() < w {
        let pad = w - digits.len();
        let mut i: usize = 0;
        while i < pad
            invariant
                i <= pad,
                pad == w - dec_of(n as int).len(),
                dec_of(n as int).len() < w,
                out@ =~= old(out)@ + Seq::new(i as nat, |x: int| 48u8),
            decreases pad - i,
        {
            out.push(48);
            proof {
                assert(out@ =~= old(out)@ + Seq::new((i + 1) as nat, |x: int| 48u8));
            }
            i = i + 1;
        }
    }
    push_all(out, digits.as_slice());
    proof {
        assert(final(out)@ =~= old(out)@ + dec_pad(n as int, w as int));
    }
}

/// The last epoch second the four-digit-year rendering covers.
pub const MAX_CREATED_EPOCH: u64 = 253402300799;

/// Renders an epoch second count as `YYYY-MM-DDTHH:MM:SSZ`. The bound
/// keeps the year at four digits.
pub fn format_epoch(epoch: u64) -> (r: Vec<u8>)
    requires
        epoch <= MAX_CREATED_EPOCH,
    ensures
        r@ == spec_timestamp(epoch),
{
    let days0: u64 = epoch / 86400;
    let secs: u64 = epoch % 86400;
    let mut y: u64 = 1970;
    let mut days: u64 = days0;
    while days >= year_days(y)
        invariant
            1970 <= y,
            days <= days0,
            days0 <= u64::MAX / 86400,
            y - 1970 <= days0 - days,
            spec_year_of(days0 as int, 1970) == spec_year_of(days as int, y as int),
        decreases days,
    {
        let dy: u64 = year_days(y);
        days = days - dy;
        y = y + 1;
    }
    proof {
        assert(spec_year_of(days as int, y as int) == (y as int, days as int));
    }
    let mut m: u64 = 1;
    let ghost yd0 = days as int;
    proof {
        assert(days < 366);
    }
    while m < 12 && days >= month_days(y, m)
        invariant
            1 <= m <= 12,
            days < 366,
            spec_month_of(yd0, y as int, 1) == spec_month_of(days as int, y as int, m as int),
        decreases 12 - m,
    {
        let dm = month_days(y, m);
        days = days - dm;
        m = m + 1;
    }
    proof {
        assert(spec_month_of(days as int, y as int, m as int) == (m as int, days as int));
    }
    let mut out: Vec<u8> = Vec::new();
    write_dec_pad(y, 4, &mut out);
    out.push(45);
    write_dec_pad(m, 2, &mut out);
    out.push(45);
    write_dec_pad(days + 1, 2, &mut out);
    out.push(84);
    write_dec_pad(secs / 3600, 2, &mut out);
    out.push(58);
    write_dec_pad(secs % 3600 / 60, 2, &mut out);
    out.push(58);
    write_dec_pad(secs % 60, 2, &mut out);
    out.push(90);
    proof {
        assert(out@ =~= spec_timestamp(epoch));
    }
    out
}

/// Days in a year.
fn year_days(y: u64) -> (r: u64)
    ensures
        r == spec_days_in_year(y as int),
{
    if (y % 4 == 0 && y % 100 != 0) || y % 400 == 0 {
        366
    } else {
        365
    }
}

/// Days in a month.
fn month_days(y: u64, m: u64) -> (r: u64)
    requires
        1 <= m <= 12,
    ensures
        r == spec_days_in_month(y as int, m as int),
{
    if m == 2 {
        if (y % 4 == 0 && y % 100 != 0) || y % 400 == 0 {
            29
        } else {
            28
        }
    } else if m == 4 || m == 6 || m == 9 || m == 11 {
        30
    } else {
        31
    }
}

/// The member of an object with a key, first match.
pub open spec fn spec_json_get(v: JsonValue, k: Seq<u8>) -> Option<JsonValue> {
    match v {
        JsonValue::Obj(ms) => spec_members_get(ms@, k),
        _ => None,
    }
}

/// First member with a key in a member list.
pub open spec fn spec_members_get(ms: Seq<(Vec<u8>, JsonValue)>, k: Seq<u8>) -> Option<JsonValue>
    decreases ms.len(),
{
    if ms.len() == 0 {
        None
    } else if ms[0].0@ == k {
        Some(ms[0].1)
    } else {
        spec_members_get(ms.drop_first(), k)
    }
}

/// Looks a key up in a JSON object.
pub fn json_get<'a>(v: &'a JsonValue, k: &[u8]) -> (r: Option<&'a JsonValue>)
    ensures
        match r {
            Some(m) => spec_json_get(*v, k@) == Some(*m),
            None => spec_json_get(*v, k@) is None,
        },
{
    match v {
        JsonValue::Obj(ms) => {
            let mut i: usize = 0;
            while i < ms.len()
                invariant
                    i <= ms@.len(),
                    forall|a: int| 0 <= a < i ==> ms@[a].0@ != k@,
                    v matches JsonValue::Obj(m2) && m2 == ms,
                decreases ms@.len() - i,
            {
                if bytes_eq(ms[i].0.as_slice(), k) {
                    proof {
                        lemma_members_get_first(ms@, k@, i as int);
                    }
                    return Some(&ms[i].1);
                }
                i = i + 1;
            }
            proof {
                lemma_members_get_none(ms@, k@);
            }
            None
        },
        _ => None,
    }
}

proof fn lemma_members_get_first(ms: Seq<(Vec<u8>, JsonValue)>, k: Seq<u8>, idx: int)
    requires
        0 <= idx < ms.len(),
        ms[idx].0@ == k,
        forall|a: int| 0 <= a < idx ==> ms[a].0@ != k,
    ensures
        spec_members_get(ms, k) == Some(ms[idx].1),
    decreases ms.len(),
{
    if idx > 0 {
        assert forall|a: int| 0 <= a < idx - 1 implies ms.drop_first()[a].0@ != k by {
            assert(ms.drop_first()[a] == ms[a + 1]);
        }
        assert(ms.drop_first()[idx - 1] == ms[idx]);
        lemma_members_get_first(ms.drop_first(), k, idx - 1);
    }
}

proof fn lemma_members_get_none(ms: Seq<(Vec<u8>, JsonValue)>, k: Seq<u8>)
    requires
        forall|a: int| 0 <= a < ms.len() ==> ms[a].0@ != k,
    ensures
        spec_members_get(ms, k) is None,
    decreases ms.len(),
{
    if ms.len() > 0 {
        assert forall|a: int| 0 <= a < ms.drop_first().len() implies ms.drop_first()[a].0@ != k by {
            assert(ms.drop_first()[a] == ms[a + 1]);
        }
        lemma_members_get_none(ms.drop_first(), k);
    }
}

/// Index of the first colon, or -1.
pub open spec fn find_colon(s: Seq<u8>) -> int
    decreases s.len(),
{
    if s.len() == 0 {
        -1
    } else if s[0] == 58 {
        0
    } else {
        let r = find_colon(s.drop_first());
        if r < 0 {
            -1
        } else {
            r + 1
        }
    }
}

/// Splits a digest reference `algorithm:hash` at its first colon; a
/// reference without a colon is malformed.
pub fn split_digest(s: &[u8]) -> (r: Result<(Vec<u8>, Vec<u8>), BuildError>)
    ensures
        find_colon(s@) >= 0 ==> (r matches Ok(p) && p.0@ == s@.take(find_colon(s@)) && p.1@
            == s@.skip(find_colon(s@) + 1)),
        find_colon(s@) < 0 ==> r == Err::<(Vec<u8>, Vec<u8>), BuildError>(
            BuildError::BadDigestFormat,
        ),
{
    let mut i: usize = 0;
    while i < s.len()
        invariant
            i <= s@.len(),
            forall|a: int| 0 <= a < i ==> s@[a] != 58,
            find_colon(s@) >= 0 ==> find_colon(s@) >= i,
        decreases s@.len() - i,
    {
        if s[i] == 58 {
            proof {
                lemma_find_colon_at(s@, i as int);
            }
            let a = crate::bytesutil::clone_slice(&s[0..i]);
            let b = crate::bytesutil::suffix_bytes(s, i + 1);
            proof {
                assert(a@ =~= s@.take(i as int));
            }
            return Ok((a, b));
        }
        proof {
            lemma_find_colon_skip(s@, i as int);
        }
        i = i + 1;
    }
    proof {
        lemma_find_colon_none(s@);
    }
    Err(BuildError::BadDigestFormat)
}

proof fn lemma_find_colon_at(s: Seq<u8>, i: int)
    requires
        0 <= i < s.len(),
        s[i] == 58,
        forall|a: int| 0 <= a < i ==> s[a] != 58,
    ensures
        find_colon(s) == i,
    decreases s.len(),
{
    if i > 0 {
        assert forall|a: int| 0 <= a < i - 1 implies s.drop_first()[a] != 58 by {
            assert(s.drop_first()[a] == s[a + 1]);
        }
        assert(s.drop_first()[i - 1] == s[i]);
        lemma_find_colon_at(s.drop_first(), i - 1);
    }
}

proof fn lemma_find_colon_skip(s: Seq<u8>, i: int)
    requires
        0 <= i < s.len(),
        forall|a: int| 0 <= a <= i ==> s[a] != 58,
    ensures
        find_colon(s) >= 0 ==> find_colon(s) >= i + 1,
    decreases i,
{
    if i > 0 {
        assert forall|a: int| 0 <= a <= i - 1 implies s.drop_first()[a] != 58 by {
            assert(s.drop_first()[a] == s[a + 1]);
        }
        lemma_find_colon_skip(s.drop_first(), i - 1);
    }
}

proof fn lemma_find_colon_none(s: Seq<u8>)
    requires
        forall|a: int| 0 <= a < s.len() ==> s[a] != 58,
    ensures
        find_colon(s) < 0,
    decreases s.len(),
{
    if s.len() > 0 {
        assert forall|a: int| 0 <= a < s.drop_first().len() implies s.drop_first()[a] != 58 by {
            assert(s.drop_first()[a] == s[a + 1]);
        }
        lemma_find_colon_none(s.drop_first());
    }
}

/// Does `s` end with `suffix`?
pub open spec fn spec_ends_with(s: Seq<u8>, suffix: Seq<u8>) -> bool {
    s.len() >= suffix.len() && s.skip(s.len() - suffix.len()) == suffix
}

/// Tests whether `s` ends with `suffix`.
pub fn ends_with(s: &[u8], suffix: &[u8]) -> (r: bool)
    ensures
        r == spec_ends_with(s@, suffix@),
{
    if s.len() < suffix.len() {
        return false;
    }
    let tail = crate::bytesutil::suffix_bytes(s, s.len() - suffix.len());
    bytes_eq(tail.as_slice(), suffix)
}


/// One image's description: platform fields, authorship, its config
/// object, and annotation objects, all as they reach the output.
#[derive(Debug)]
pub struct ImageDesc {
    pub architecture: Vec<u8>,
    pub os: Vec<u8>,
    pub os_version: Option<Vec<u8>>,
    /// Serialized JSON of the `os.features` value.
    pub os_features: Option<Vec<u8>>,
    pub variant: Option<Vec<u8>>,
    pub author: Option<Vec<u8>>,
    pub comment: Option<Vec<u8>>,
    /// Serialized JSON of the image's `config` object.
    pub config: Option<Vec<u8>>,
    /// Serialized JSON of the manifest annotations.
    pub annotations: Option<Vec<u8>>,
    /// Serialized JSON of the index-descriptor annotations.
    pub index_annotations: Option<Vec<u8>>,
}

/// The serialized platform object of an image: its present members with
/// keys in sorted order.
#[verifier::opaque]
pub open spec fn spec_platform_json(desc: ImageDesc) -> Seq<u8> {
    seq![123u8] + ser_str(("architecture").spec_bytes()) + seq![58u8] + ser_str(
        desc.architecture@,
    ) + seq![44u8] + ser_str(("os").spec_bytes()) + seq![58u8] + ser_str(desc.os@) + (
    match desc.os_features {
        Some(f) => seq![44u8] + ser_str(("os.features").spec_bytes()) + seq![58u8] + f@,
        None => Seq::<u8>::empty(),
    }) + (match desc.os_version {
        Some(v) => seq![44u8] + ser_str(("os.version").spec_bytes()) + seq![58u8] + ser_str(v@),
        None => Seq::<u8>::empty(),
    }) + (match desc.variant {
        Some(v) => seq![44u8] + ser_str(("variant").spec_bytes()) + seq![58u8] + ser_str(v@),
        None => Seq::<u8>::empty(),
    }) + seq![125u8]
}

/// Serializes an image's platform object.
#[verifier::rlimit(60)]
pub fn platform_json(desc: &ImageDesc) -> (r: Vec<u8>)
    ensures
        r@ == spec_platform_json(*desc),
{
    let mut out: Vec<u8> = Vec::new();
    out.push(123);
    write_str("architecture".as_bytes(), &mut out);
    out.push(58);
    write_str(desc.architecture.as_slice(), &mut out);
    out.push(44);
    write_str("os".as_bytes(), &mut out);
    out.push(58);
    write_str(desc.os.as_slice(), &mut out);
    match &desc.os_features {
        Some(f) => {
            out.push(44);
            write_str("os.features".as_bytes(), &mut out);
            out.push(58);
            push_all(&mut out, f.as_slice());
        },
        None => {},
    }
    match &desc.os_version {
        Some(v) => {
            out.push(44);
            write_str("os.version".as_bytes(), &mut out);
            out.push(58);
            write_str(v.as_slice(), &mut out);
        },
        None => {},
    }
    match &desc.variant {
        Some(v) => {
            out.push(44);
            write_str("variant".as_bytes(), &mut out);
            out.push(58);
            write_str(v.as_slice(), &mut out);
        },
        None => {},
    }
    out.push(125);
    proof {
        reveal(spec_platform_json);
        assert(out@ =~= spec_platform_json(*desc));
    }
    out
}

/// The serialized history entry this build appends: `author` and
/// `comment` when given, and `empty_layer: true` when no layer was built.
#[verifier::opaque]
pub open spec fn spec_history_entry(desc: ImageDesc, empty_layer: bool) -> Seq<u8> {
    let inner = (match desc.author {
        Some(a) => ser_str(("author").spec_bytes()) + seq![58u8] + ser_str(a@) + seq![44u8],
        None => Seq::<u8>::empty(),
    }) + (match desc.comment {
        Some(c) => ser_str(("comment").spec_bytes()) + seq![58u8] + ser_str(c@) + seq![44u8],
        None => Seq::<u8>::empty(),
    }) + (if empty_layer {
        ser_str(("empty_layer").spec_bytes()) + seq![58u8] + seq![
            116u8, 114u8, 117u8, 101u8,
        ] + seq![44u8]
    } else {
        Seq::<u8>::empty()
    });
    if inner.len() == 0 {
        seq![123u8, 125u8]
    } else {
        seq![123u8] + inner.take(inner.len() - 1) + seq![125u8]
    }
}

/// Serializes the history entry of this build.
#[verifier::rlimit(100)]
pub fn history_entry_json(desc: &ImageDesc, empty_layer: bool) -> (r: Vec<u8>)
    ensures
        r@ == spec_history_entry(*desc, empty_layer),
{
    let mut inner: Vec<u8> = Vec::new();
    match &desc.author {
        Some(a) => {
            write_str("author".as_bytes(), &mut inner);
            inner.push(58);
            write_str(a.as_slice(), &mut inner);
            inner.push(44);
        },
        None => {},
    }
    match &desc.comment {
        Some(c) => {
            write_str("comment".as_bytes(), &mut inner);
            inner.push(58);
            write_str(c.as_slice(), &mut inner);
            inner.push(44);
        },
        None => {},
    }
    if empty_layer {
        write_str("empty_layer".as_bytes(), &mut inner);
        inner.push(58);
        inner.push(116);
        inner.push(114);
        inner.push(117);
        inner.push(101);
        inner.push(44);
    }
    let mut out: Vec<u8> = Vec::new();
    out.push(123);
    if inner.len() > 0 {
        let mut i: usize = 0;
        let last = inner.len() - 1;
        while i < last
            invariant
                i <= last,
                last == inner@.len() - 1,
                out@ =~= seq![123u8] + inner@.take(i as int),
            decreases last - i,
        {
            out.push(inner[i]);
            proof {
                assert(out@ =~= seq![123u8] + inner@.take(i + 1));
            }
            i = i + 1;
        }
    }
    out.push(125);
    proof {
        reveal(spec_history_entry);
        assert(out@ =~= spec_history_entry(*desc, empty_layer));
    }
    out
}

/// The serialized history array: the parent's entries, then this build's.
#[verifier::opaque]
pub open spec fn spec_history_json(parent: Seq<JsonValue>, entry: Seq<u8>) -> Seq<u8> {
    seq![91u8] + (if parent.len() == 0 {
        Seq::<u8>::empty()
    } else {
        ser(parent[0]) + crate::json::ser_arr_rest(parent.drop_first()) + seq![44u8]
    }) + entry + seq![93u8]
}

/// Serializes the history array.
pub fn history_json(parent: &Vec<JsonValue>, entry: &Vec<u8>) -> (r: Vec<u8>)
    ensures
        r@ == spec_history_json(parent@, entry@),
{
    let mut out: Vec<u8> = Vec::new();
    out.push(91);
    if parent.len() > 0 {
        let ghost base = out@;
        write_json(&parent[0], &mut out);
        let mut i: usize = 1;
        while i < parent.len()
            invariant
                1 <= i <= parent@.len(),
                out@ == base + ser(parent@[0]) + crate::json::ser_arr_rest(
                    parent@.subrange(1, i as int),
                ),
            decreases parent@.len() - i,
        {
            out.push(44);
            write_json(&parent[i], &mut out);
            proof {
                assert(parent@.subrange(1, i + 1) =~= parent@.subrange(1, i as int).push(
                    parent@[i as int],
                ));
                crate::json::lemma_arr_rest_push(parent@.subrange(1, i as int), parent@[i as int]);
                assert(out@ =~= base + ser(parent@[0]) + crate::json::ser_arr_rest(
                    parent@.subrange(1, i + 1),
                ));
            }
            i = i + 1;
        }
        proof {
            assert(parent@.subrange(1, parent@.len() as int) =~= parent@.drop_first());
        }
        out.push(44);
    }
    push_all(&mut out, entry.as_slice());
    out.push(93);
    proof {
        reveal(spec_history_json);
        assert(out@ =~= spec_history_json(parent@, entry@));
    }
    out
}

/// The serialized array of digest strings.
pub open spec fn spec_str_arr(ids: Seq<Seq<u8>>) -> Seq<u8>
    decreases ids.len(),
{
    if ids.len() == 0 {
        seq![91u8, 93u8]
    } else if ids.len() == 1 {
        seq![91u8] + ser_str(ids[0]) + seq![93u8]
    } else {
        spec_str_arr(ids.drop_last()).drop_last() + seq![44u8] + ser_str(ids.last()) + seq![93u8]
    }
}

/// Serializes an array of strings.
pub fn str_arr_json(ids: &Vec<Vec<u8>>) -> (r: Vec<u8>)
    ensures
        r@ == spec_str_arr(crate::assoc::names_view(ids@)),
{
    let ghost iv = crate::assoc::names_view(ids@);
    let mut out: Vec<u8> = Vec::new();
    out.push(91);
    let mut i: usize = 0;
    while i < ids.len()
        invariant
            i <= ids@.len(),
            iv == crate::assoc::names_view(ids@),
            out@ == spec_str_arr(iv.take(i as int)).drop_last(),
        decreases ids@.len() - i,
    {
        proof {
            assert(iv[i as int] == ids@[i as int]@);
            assert(iv.take(i + 1).drop_last() =~= iv.take(i as int));
            assert(iv.take(i + 1).last() == iv[i as int]);
        }
        if i > 0 {
            out.push(44);
        }
        write_str(ids[i].as_slice(), &mut out);
        proof {
            if i == 0 {
                assert(iv.take(1) =~= seq![iv[0]]);
                assert(out@ =~= spec_str_arr(iv.take(1)).drop_last());
            } else {
                assert(out@ =~= spec_str_arr(iv.take(i + 1)).drop_last());
            }
        }
        i = i + 1;
    }
    out.push(93);
    proof {
        assert(iv.take(iv.len() as int) =~= iv);
        if iv.len() == 0 {
            assert(out@ =~= spec_str_arr(iv));
        } else {
            assert(out@ =~= spec_str_arr(iv));
        }
    }
    out
}

/// The serialized image config document, keys in sorted order.
#[verifier::opaque]
pub open spec fn spec_config_json(
    desc: ImageDesc,
    created: Seq<u8>,
    diff_ids: Seq<Seq<u8>>,
    history: Seq<u8>,
) -> Seq<u8> {
    seq![123u8] + ser_str(("architecture").spec_bytes()) + seq![58u8] + ser_str(
        desc.architecture@,
    ) + seq![44u8] + (match desc.author {
        Some(a) => ser_str(("author").spec_bytes()) + seq![58u8] + ser_str(a@) + seq![44u8],
        None => Seq::<u8>::empty(),
    }) + (match desc.config {
        Some(c) => ser_str(("config").spec_bytes()) + seq![58u8] + c@ + seq![44u8],
        None => Seq::<u8>::empty(),
    }) + ser_str(("created").spec_bytes()) + seq![58u8] + ser_str(created) + seq![44u8] + ser_str(
        ("history").spec_bytes(),
    ) + seq![58u8] + history + seq![44u8] + ser_str(("os").spec_bytes()) + seq![58u8] + ser_str(
        desc.os@,
    ) + seq![44u8] + ser_str(("rootfs").spec_bytes()) + seq![58u8] + seq![123u8] + ser_str(
        ("diff_ids").spec_bytes(),
    ) + seq![58u8] + spec_str_arr(diff_ids) + seq![44u8] + ser_str(("type").spec_bytes()) + seq![
        58u8,
    ] + ser_str(("layers").spec_bytes()) + seq![125u8] + seq![125u8]
}

/// Serializes the image config document.
#[verifier::rlimit(100)]
pub fn config_json(
    desc: &ImageDesc,
    created: &Vec<u8>,
    diff_ids: &Vec<Vec<u8>>,
    history: &Vec<u8>,
) -> (r: Vec<u8>)
    ensures
        r@ == spec_config_json(
            *desc,
            created@,
            crate::assoc::names_view(diff_ids@),
            history@,
        ),
{
    let mut out: Vec<u8> = Vec::new();
    out.push(123);
    write_str("architecture".as_bytes(), &mut out);
    out.push(58);
    write_str(desc.architecture.as_slice(), &mut out);
    out.push(44);
    match &desc.author {
        Some(a) => {
            write_str("author".as_bytes(), &mut out);
            out.push(58);
            write_str(a.as_slice(), &mut out);
            out.push(44);
        },
        None => {},
    }
    match &desc.config {
        Some(c) => {
            write_str("config".as_bytes(), &mut out);
            out.push(58);
            push_all(&mut out, c.as_slice());
            out.push(44);
        },
        None => {},
    }
    write_str("created".as_bytes(), &mut out);
    out.push(58);
    write_str(created.as_slice(), &mut out);
    out.push(44);
    write_str("history".as_bytes(), &mut out);
    out.push(58);
    push_all(&mut out, history.as_slice());
    out.push(44);
    write_str("os".as_bytes(), &mut out);
    out.push(58);
    write_str(desc.os.as_slice(), &mut out);
    out.push(44);
    write_str("rootfs".as_bytes(), &mut out);
    out.push(58);
    out.push(123);
    write_str("diff_ids".as_bytes(), &mut out);
    out.push(58);
    let ids = str_arr_json(diff_ids);
    push_all(&mut out, ids.as_slice());
    out.push(44);
    write_str("type".as_bytes(), &mut out);
    out.push(58);
    write_str("layers".as_bytes(), &mut out);
    out.push(125);
    out.push(125);
    proof {
        reveal(spec_config_json);
        assert(out@ =~= spec_config_json(
            *desc,
            created@,
            crate::assoc::names_view(diff_ids@),
            history@,
        ));
    }
    out
}

/// The serialized array of descriptor documents.
pub open spec fn spec_desc_arr(ds: Seq<crate::blob::DescriptorV>) -> Seq<u8>
    decreases ds.len(),
{
    if ds.len() == 0 {
        seq![91u8, 93u8]
    } else if ds.len() == 1 {
        seq![91u8] + spec_descriptor_json(ds[0]) + seq![93u8]
    } else {
        spec_desc_arr(ds.drop_last()).drop_last() + seq![44u8] + spec_descriptor_json(ds.last())
            + seq![93u8]
    }
}

/// Serializes an array of descriptors.
pub fn desc_arr_json(ds: &Vec<BlobDescriptor>) -> (r: Vec<u8>)
    ensures
        r@ == spec_desc_arr(crate::blob::descs_view(ds@)),
{
    let ghost dv = crate::blob::descs_view(ds@);
    let mut out: Vec<u8> = Vec::new();
    out.push(91);
    let mut i: usize = 0;
    while i < ds.len()
        invariant
            i <= ds@.len(),
            dv == crate::blob::descs_view(ds@),
            out@ == spec_desc_arr(dv.take(i as int)).drop_last(),
        decreases ds@.len() - i,
    {
        proof {
            assert(dv[i as int] == ds@[i as int]@);
            assert(dv.take(i + 1).drop_last() =~= dv.take(i as int));
            assert(dv.take(i + 1).last() == dv[i as int]);
        }
        if i > 0 {
            out.push(44);
        }
        let dj = ds[i].to_json();
        push_all(&mut out, dj.as_slice());
        proof {
            if i == 0 {
                assert(dv.take(1) =~= seq![dv[0]]);
                assert(out@ =~= spec_desc_arr(dv.take(1)).drop_last());
            } else {
                assert(out@ =~= spec_desc_arr(dv.take(i + 1)).drop_last());
            }
        }
        i = i + 1;
    }
    out.push(93);
    proof {
        assert(dv.take(dv.len() as int) =~= dv);
        assert(out@ =~= spec_desc_arr(dv));
    }
    out
}

/// The serialized image manifest: optional annotations, the config
/// descriptor, the layer descriptors, and the schema version.
#[verifier::opaque]
pub open spec fn spec_manifest_json(
    annotations: Option<Seq<u8>>,
    config_desc: crate::blob::DescriptorV,
    layers: Seq<crate::blob::DescriptorV>,
) -> Seq<u8> {
    seq![123u8] + (match annotations {
        Some(a) => ser_str(("annotations").spec_bytes()) + seq![58u8] + a + seq![44u8],
        None => Seq::<u8>::empty(),
    }) + ser_str(("config").spec_bytes()) + seq![58u8] + spec_descriptor_json(config_desc) + seq![
        44u8,
    ] + ser_str(("layers").spec_bytes()) + seq![58u8] + spec_desc_arr(layers) + seq![44u8]
        + ser_str(("schemaVersion").spec_bytes()) + seq![58u8] + seq![50u8] + seq![125u8]
}

/// Serializes the image manifest.
#[verifier::rlimit(60)]
pub fn manifest_json(
    annotations: &Option<Vec<u8>>,
    config_desc: &BlobDescriptor,
    layers: &Vec<BlobDescriptor>,
) -> (r: Vec<u8>)
    ensures
        r@ == spec_manifest_json(
            crate::blob::opt_bytes_view(*annotations),
            config_desc@,
            crate::blob::descs_view(layers@),
        ),
{
    let mut out: Vec<u8> = Vec::new();
    out.push(123);
    match annotations {
        Some(a) => {
            write_str("annotations".as_bytes(), &mut out);
            out.push(58);
            push_all(&mut out, a.as_slice());
            out.push(44);
        },
        None => {},
    }
    write_str("config".as_bytes(), &mut out);
    out.push(58);
    let cj = config_desc.to_json();
    push_all(&mut out, cj.as_slice());
    out.push(44);
    write_str("layers".as_bytes(), &mut out);
    out.push(58);
    let lj = desc_arr_json(layers);
    push_all(&mut out, lj.as_slice());
    out.push(44);
    write_str("schemaVersion".as_bytes(), &mut out);
    out.push(58);
    out.push(50);
    out.push(125);
    proof {
        reveal(spec_manifest_json);
        assert(out@ =~= spec_manifest_json(
            crate::blob::opt_bytes_view(*annotations),
            config_desc@,
            crate::blob::descs_view(layers@),
        ));
    }
    out
}

/// The serialized top-level index.
#[verifier::opaque]
pub open spec fn spec_index_json(
    annotations: Option<Seq<u8>>,
    manifests: Seq<crate::blob::DescriptorV>,
) -> Seq<u8> {
    seq![123u8] + (match annotations {
        Some(a) => ser_str(("annotations").spec_bytes()) + seq![58u8] + a + seq![44u8],
        None => Seq::<u8>::empty(),
    }) + ser_str(("manifests").spec_bytes()) + seq![58u8] + spec_desc_arr(manifests) + seq![44u8]
        + ser_str(("schemaVersion").spec_bytes()) + seq![58u8] + seq![50u8] + seq![125u8]
}

/// Serializes the top-level index.
#[verifier::rlimit(60)]
pub fn index_json(annotations: &Option<Vec<u8>>, manifests: &Vec<BlobDescriptor>) -> (r: Vec<u8>)
    ensures
        r@ == spec_index_json(
            crate::blob::opt_bytes_view(*annotations),
            crate::blob::descs_view(manifests@),
        ),
{
    let mut out: Vec<u8> = Vec::new();
    out.push(123);
    match annotations {
        Some(a) => {
            write_str("annotations".as_bytes(), &mut out);
            out.push(58);
            push_all(&mut out, a.as_slice());
            out.push(44);
        },
        None => {},
    }
    write_str("manifests".as_bytes(), &mut out);
    out.push(58);
    let mj = desc_arr_json(manifests);
    push_all(&mut out, mj.as_slice());
    out.push(44);
    write_str("schemaVersion".as_bytes(), &mut out);
    out.push(58);
    out.push(50);
    out.push(125);
    proof {
        reveal(spec_index_json);
        assert(out@ =~= spec_index_json(
            crate::blob::opt_bytes_view(*annotations),
            crate::blob::descs_view(manifests@),
        ));
    }
    out
}

/// The bytes of the `oci-layout` marker.
pub open spec fn spec_oci_layout_json() -> Seq<u8> {
    seq![123u8] + ser_str(("imageLayoutVersion").spec_bytes()) + seq![58u8] + ser_str(
        ("1.0.0").spec_bytes(),
    ) + seq![125u8]
}

/// Serializes the `oci-layout` marker.
pub fn oci_layout_json() -> (r: Vec<u8>)
    ensures
        r@ == spec_oci_layout_json(),
{
    let mut out: Vec<u8> = Vec::new();
    out.push(123);
    write_str("imageLayoutVersion".as_bytes(), &mut out);
    out.push(58);
    write_str("1.0.0".as_bytes(), &mut out);
    out.push(125);
    proof {
        assert(out@ =~= spec_oci_layout_json());
    }
    out
}


/// The digest string of a manifest's config reference.
pub open spec fn spec_config_digest(m: JsonValue) -> Option<Seq<u8>> {
    match spec_json_get(m, ("config").spec_bytes()) {
        Some(c) => match spec_json_get(c, ("digest").spec_bytes()) {
            Some(JsonValue::Str(s)) => Some(s@),
            _ => None,
        },
        None => None,
    }
}

/// Reads the config digest out of an image manifest; a manifest without
/// one is malformed.
pub fn manifest_config_digest(m: &JsonValue) -> (r: Result<Vec<u8>, BuildError>)
    ensures
        match r {
            Ok(d) => spec_config_digest(*m) == Some(d@),
            Err(e) => spec_config_digest(*m) is None && e == BuildError::MissingDigest,
        },
{
    match json_get(m, "config".as_bytes()) {
        Some(c) => match json_get(c, "digest".as_bytes()) {
            Some(d) => match d {
                JsonValue::Str(sv) => Ok(clone_bytes(sv)),
                _ => Err(BuildError::MissingDigest),
            },
            None => Err(BuildError::MissingDigest),
        },
        None => Err(BuildError::MissingDigest),
    }
}

/// One layer reference of a manifest: digest and media type.
#[derive(Debug)]
pub struct LayerRef {
    pub digest: Vec<u8>,
    pub media_type: Vec<u8>,
}

/// The digest string of a layer descriptor value.
pub open spec fn spec_layer_digest(v: JsonValue) -> Option<Seq<u8>> {
    match spec_json_get(v, ("digest").spec_bytes()) {
        Some(JsonValue::Str(s)) => Some(s@),
        _ => None,
    }
}

/// The media type of a layer descriptor value.
pub open spec fn spec_layer_media(v: JsonValue) -> Option<Seq<u8>> {
    match spec_json_get(v, ("mediaType").spec_bytes()) {
        Some(JsonValue::Str(s)) => Some(s@),
        _ => None,
    }
}

/// The `layers` array of a manifest, when it is one.
pub open spec fn spec_layers_arr(m: JsonValue) -> Option<Seq<JsonValue>> {
    match spec_json_get(m, ("layers").spec_bytes()) {
        Some(a) => match a {
            JsonValue::Arr(vs) => Some(vs@),
            _ => None,
        },
        None => None,
    }
}

/// A manifest's layer references are whole: the array is present and
/// every element carries a string digest and media type.
pub open spec fn spec_layers_ok(m: JsonValue) -> bool {
    spec_layers_arr(m) matches Some(vs) && (forall|i: int| #![all_triggers]
        0 <= i < vs.len() ==> spec_layer_digest(vs[i]) is Some && spec_layer_media(
            vs[i],
        ) is Some)
}

/// Reads a manifest's layer references: it succeeds exactly when the
/// `layers` array is present and every element carries a string digest
/// and media type; the errors name the first piece found missing.
#[verifier::loop_isolation(false)]
pub fn manifest_layers(m: &JsonValue) -> (r: Result<Vec<LayerRef>, BuildError>)
    ensures
        (r is Ok) == spec_layers_ok(*m),
        r matches Ok(l) ==> (spec_layers_arr(*m) matches Some(vs) && l@.len() == vs.len() && (
        forall|i: int| #![all_triggers]
            0 <= i < vs.len() ==> spec_layer_digest(vs[i]) == Some(l@[i].digest@)
                && spec_layer_media(vs[i]) == Some(l@[i].media_type@))),
        (spec_layers_arr(*m) is None) == (r == Err::<Vec<LayerRef>, BuildError>(
            BuildError::MissingLayers,
        )),
        r == Err::<Vec<LayerRef>, BuildError>(BuildError::MissingDigest) ==> (spec_layers_arr(
            *m,
        ) matches Some(vs) && (exists|i: int|
            0 <= i < vs.len() && spec_layer_digest(#[trigger] vs[i]) is None)),
        r == Err::<Vec<LayerRef>, BuildError>(BuildError::MissingMediaType) ==> (spec_layers_arr(
            *m,
        ) matches Some(vs) && (exists|i: int|
            0 <= i < vs.len() && spec_layer_media(#[trigger] vs[i]) is None)),
{
    match json_get(m, "layers".as_bytes()) {
        Some(arr) => match arr {
            JsonValue::Arr(vs) => {
                let mut out: Vec<LayerRef> = Vec::new();
                let mut i: usize = 0;
                while i < vs.len()
                    invariant
                        i <= vs@.len(),
                        out@.len() == i,
                        forall|a: int| #![all_triggers]
                            0 <= a < i ==> spec_layer_digest(vs@[a]) == Some(out@[a].digest@)
                                && spec_layer_media(vs@[a]) == Some(out@[a].media_type@),
                    decreases vs@.len() - i,
                {
                    let digest: Vec<u8> = match json_get(&vs[i], "digest".as_bytes()) {
                        Some(d) => match d {
                            JsonValue::Str(sv) => clone_bytes(sv),
                            _ => {
                                proof {
                                    assert(spec_layer_digest(vs@[i as int]) is None);
                                }
                                return Err(BuildError::MissingDigest);
                            },
                        },
                        None => {
                            proof {
                                assert(spec_layer_digest(vs@[i as int]) is None);
                            }
                            return Err(BuildError::MissingDigest);
                        },
                    };
                    let media_type: Vec<u8> = match json_get(&vs[i], "mediaType".as_bytes()) {
                        Some(d) => match d {
                            JsonValue::Str(sv) => clone_bytes(sv),
                            _ => {
                                proof {
                                    assert(spec_layer_media(vs@[i as int]) is None);
                                }
                                return Err(BuildError::MissingMediaType);
                            },
                        },
                        None => {
                            proof {
                                assert(spec_layer_media(vs@[i as int]) is None);
                            }
                            return Err(BuildError::MissingMediaType);
                        },
                    };
                    let ghost prev = out@;
                    out.push(LayerRef { digest, media_type });
                    proof {
                        assert forall|a: int| #![all_triggers]
                            0 <= a < i + 1 implies spec_layer_digest(vs@[a]) == Some(
                            out@[a].digest@,
                        ) && spec_layer_media(vs@[a]) == Some(out@[a].media_type@) by {
                            if a < i {
                                assert(out@[a] == prev[a]);
                            } else {
                                assert(out@[a] == out@.last());
                            }
                        }
                    }
                    i = i + 1;
                }
                Ok(out)
            },
            _ => Err(BuildError::MissingLayers),
        },
        None => Err(BuildError::MissingLayers),
    }
}

/// The declared diff-ids of an image config document.
pub open spec fn spec_diff_ids_arr(c: JsonValue) -> Option<Seq<JsonValue>> {
    match spec_json_get(c, ("rootfs").spec_bytes()) {
        Some(rf) => match spec_json_get(rf, ("diff_ids").spec_bytes()) {
            Some(JsonValue::Arr(vs)) => Some(vs@),
            _ => None,
        },
        None => None,
    }
}

/// The declared diff-ids are whole: the array is present and every
/// element is a string.
pub open spec fn spec_diff_ids_ok(c: JsonValue) -> bool {
    spec_diff_ids_arr(c) matches Some(vs) && (forall|i: int| #![trigger vs[i]]
        0 <= i < vs.len() ==> vs[i] is Str)
}

/// Reads the declared diff-ids out of an image config: it succeeds
/// exactly when `rootfs.diff_ids` is an array of strings; a missing or
/// non-array field and a non-string element name their own errors.
#[verifier::loop_isolation(false)]
pub fn config_diff_ids(c: &JsonValue) -> (r: Result<Vec<Vec<u8>>, BuildError>)
    ensures
        (r is Ok) == spec_diff_ids_ok(*c),
        r matches Ok(ids) ==> (spec_diff_ids_arr(*c) matches Some(vs) && ids@.len() == vs.len()
            && (forall|i: int| #![trigger vs[i]]
            0 <= i < vs.len() ==> (vs[i] matches JsonValue::Str(s) && s@ == ids@[i]@))),
        (spec_diff_ids_arr(*c) is None) == (r == Err::<Vec<Vec<u8>>, BuildError>(
            BuildError::MissingDiffIds,
        )),
        r == Err::<Vec<Vec<u8>>, BuildError>(BuildError::BadDiffId) ==> (spec_diff_ids_arr(
            *c,
        ) matches Some(vs) && (exists|i: int| 0 <= i < vs.len() && !(#[trigger] vs[i] is Str))),
{
    match json_get(c, "rootfs".as_bytes()) {
        Some(rf) => match json_get(rf, "diff_ids".as_bytes()) {
            Some(arr) => match arr {
                JsonValue::Arr(vs) => {
                    let mut out: Vec<Vec<u8>> = Vec::new();
                    let mut i: usize = 0;
                    while i < vs.len()
                        invariant
                            i <= vs@.len(),
                            out@.len() == i,
                            forall|a: int| #![trigger vs@[a]]
                                0 <= a < i ==> (vs@[a] matches JsonValue::Str(s) && s@
                                    == out@[a]@),
                        decreases vs@.len() - i,
                    {
                        match &vs[i] {
                            JsonValue::Str(sv) => {
                                let ghost prev = out@;
                                out.push(clone_bytes(sv));
                                proof {
                                    assert forall|a: int| #![trigger vs@[a]]
                                        0 <= a < i + 1 implies (vs@[a] matches JsonValue::Str(s)
                                        && s@ == out@[a]@) by {
                                        if a < i {
                                            assert(out@[a] == prev[a]);
                                        } else {
                                            assert(out@[a] == out@.last());
                                        }
                                    }
                                }
                            },
                            _ => {
                                proof {
                                    assert(!(vs@[i as int] is Str));
                                }
                                return Err(BuildError::BadDiffId);
                            },
                        }
                        i = i + 1;
                    }
                    Ok(out)
                },
                _ => Err(BuildError::MissingDiffIds),
            },
            None => Err(BuildError::MissingDiffIds),
        },
        None => Err(BuildError::MissingDiffIds),
    }
}

/// Reads the history array out of an image config; a config without one
/// has an empty history. Each copy serializes to the same bytes.
pub fn config_history(c: &JsonValue) -> (r: Vec<JsonValue>)
    ensures
        match spec_json_get(*c, ("history").spec_bytes()) {
            Some(h) => (h matches JsonValue::Arr(vs) ==> (r@.len() == vs@.len() && (forall|i: int|
                #![all_triggers]
                0 <= i < vs@.len() ==> ser(r@[i]) == ser(vs@[i])))),
            None => r@.len() == 0,
        },
{
    match json_get(c, "history".as_bytes()) {
        Some(h) => match h {
            JsonValue::Arr(vs) => {
                let mut out: Vec<JsonValue> = Vec::new();
                let mut i: usize = 0;
                while i < vs.len()
                    invariant
                        i <= vs@.len(),
                        out@.len() == i,
                        forall|a: int| #![all_triggers]
                            0 <= a < i ==> ser(out@[a]) == ser(vs@[a]),
                    decreases vs@.len() - i,
                {
                    let cpy = crate::json::json_clone(&vs[i]);
                    let ghost prev = out@;
                    out.push(cpy);
                    proof {
                        assert forall|a: int| #![all_triggers]
                            0 <= a < i + 1 implies ser(out@[a]) == ser(vs@[a]) by {
                            if a < i {
                                assert(out@[a] == prev[a]);
                            } else {
                                assert(out@[a] == out@.last());
                            }
                        }
                    }
                    i = i + 1;
                }
                out
            },
            _ => Vec::new(),
        },
        None => Vec::new(),
    }
}

/// The digest string of one entry of an index's `manifests` array.
pub open spec fn spec_index_digest(idx: JsonValue, i: int) -> Option<Seq<u8>> {
    match spec_json_get(idx, ("manifests").spec_bytes()) {
        Some(JsonValue::Arr(vs)) => if 0 <= i < vs@.len() {
            spec_layer_digest(vs@[i])
        } else {
            None
        },
        _ => None,
    }
}

/// Reads the digest of the manifest an index names at a position.
pub fn index_manifest_digest(idx: &JsonValue, i: usize) -> (r: Result<Vec<u8>, BuildError>)
    ensures
        match r {
            Ok(d) => spec_index_digest(*idx, i as int) == Some(d@),
            Err(e) => spec_index_digest(*idx, i as int) is None && e == BuildError::MissingDigest,
        },
{
    match json_get(idx, "manifests".as_bytes()) {
        Some(arr) => match arr {
            JsonValue::Arr(vs) => {
                if i < vs.len() {
                    match json_get(&vs[i], "digest".as_bytes()) {
                        Some(d) => match d {
                            JsonValue::Str(sv) => Ok(clone_bytes(sv)),
                            _ => Err(BuildError::MissingDigest),
                        },
                        None => Err(BuildError::MissingDigest),
                    }
                } else {
                    Err(BuildError::MissingDigest)
                }
            },
            _ => Err(BuildError::MissingDigest),
        },
        None => Err(BuildError::MissingDigest),
    }
}

/// Re-encodes one inherited layer blob to the target compression: when
/// source and target formats agree the bytes are kept; otherwise the blob
/// is decoded and encoded afresh. Decoding the result always yields what
/// decoding the input yields.
pub fn reencode_layer(
    data: &Vec<u8>,
    src_gzip: bool,
    src_zstd: bool,
    config: &crate::config::GlobalConfig,
) -> (r: Result<Blob, BuildError>)
    requires
        !(src_gzip && src_zstd),
    ensures
        r matches Ok(b) ==> {
            &&& blob_ok(b)
            &&& (b.descriptor.media_type matches Some(m) && m@
                == crate::blob::spec_layer_media_type(config.compression))
            &&& crate::blob::spec_decode(config.compression, b.bytes@) == (if src_gzip {
                crate::compress::gunzip_of(data@)
            } else if src_zstd {
                crate::compress::unzstd_of(data@)
            } else {
                data@
            })
        },
        config.compression is Gzip && src_gzip ==> r is Ok,
        config.compression is Zstd && src_zstd ==> r is Ok,
        (config.compression is Disabled && !src_gzip && !src_zstd) ==> r is Ok,
{
    let same = match config.compression {
        crate::config::Compression::Gzip => src_gzip,
        crate::config::Compression::Zstd => src_zstd,
        crate::config::Compression::Disabled => !src_gzip && !src_zstd,
    };
    if same {
        let b = crate::blob::blob_from_bytes(
            Some(crate::blob::layer_media_type(config.compression)),
            clone_bytes(data),
        );
        Ok(b)
    } else {
        let tar: Vec<u8> = if src_gzip {
            match crate::compress::gzip_decompress(data.as_slice()) {
                Ok(t) => t,
                Err(e) => {
                    return Err(e);
                },
            }
        } else if src_zstd {
            match crate::compress::zstd_decompress(data.as_slice()) {
                Ok(t) => t,
                Err(e) => {
                    return Err(e);
                },
            }
        } else {
            clone_bytes(data)
        };
        match crate::blob::encode_layer(tar.as_slice(), config) {
            Ok(e) => Ok(e.blob),
            Err(e) => Err(e),
        }
    }
}


/// What a parent image contributes: its re-encoded layers' descriptors
/// and blob bytes, its declared diff-ids, and its history.
#[derive(Debug)]
pub struct ParentInfo {
    pub layer_descs: Vec<BlobDescriptor>,
    pub layer_blobs: Vec<Vec<u8>>,
    pub diff_ids: Vec<Vec<u8>>,
    pub history: Vec<JsonValue>,
}

/// The scanned upper tree of a new layer.
#[derive(Debug)]
pub struct UpperInput {
    pub records: Vec<crate::scan::ScanRecord>,
    pub root_meta: crate::scan::CachedMetadata,
}

/// Everything one image build emits.
#[derive(Debug)]
pub struct ImageOutput {
    /// The freshly built layer, when the image packs one.
    pub layer: Option<crate::blob::EncodedLayer>,
    pub config_blob: Blob,
    pub manifest_blob: Blob,
    /// The manifest's descriptor as the index carries it: platform set,
    /// index annotations attached.
    pub descriptor: BlobDescriptor,
}

/// The parent's diff-ids, as sequences.
pub open spec fn spec_parent_diff_ids(parent: Option<ParentInfo>) -> Seq<Seq<u8>> {
    match parent {
        Some(p) => crate::assoc::names_view(p.diff_ids@),
        None => Seq::empty(),
    }
}

/// The parent's history values.
pub open spec fn spec_parent_history(parent: Option<ParentInfo>) -> Seq<JsonValue> {
    match parent {
        Some(p) => p.history@,
        None => Seq::empty(),
    }
}

/// The parent's layer descriptors.
pub open spec fn spec_parent_descs(parent: Option<ParentInfo>) -> Seq<crate::blob::DescriptorV> {
    match parent {
        Some(p) => crate::blob::descs_view(p.layer_descs@),
        None => Seq::empty(),
    }
}

/// Appends the new layer's diff-id to the parent's, when one was built.
fn combine_ids(pdiff: Vec<Vec<u8>>, layer: &Option<crate::blob::EncodedLayer>) -> (r: Vec<Vec<u8>>)
    ensures
        crate::assoc::names_view(r@) == crate::assoc::names_view(pdiff@) + (match layer {
            Some(e) => seq![e.diff_id@],
            None => Seq::<Seq<u8>>::empty(),
        }),
{
    let ghost pdiff_v = crate::assoc::names_view(pdiff@);
    let mut ids = pdiff;
    match layer {
        Some(e) => {
            let ghost prev = ids@;
            ids.push(clone_bytes(&e.diff_id));
            proof {
                assert forall|b: int| 0 <= b < ids@.len() implies crate::assoc::names_view(
                    ids@,
                )[b] == (pdiff_v + seq![e.diff_id@])[b] by {
                    if b < prev.len() {
                        assert(ids@[b] == prev[b]);
                    } else {
                        assert(ids@[b] == ids@.last());
                    }
                }
                assert(crate::assoc::names_view(ids@) =~= pdiff_v + seq![e.diff_id@]);
            }
        },
        None => {
            proof {
                assert(crate::assoc::names_view(ids@) =~= pdiff_v + Seq::<Seq<u8>>::empty());
            }
        },
    }
    ids
}

/// Appends the new layer's descriptor to the parent's, when one was built.
fn combine_descs(pdescs: Vec<BlobDescriptor>, layer: &Option<crate::blob::EncodedLayer>) -> (r:
    Vec<BlobDescriptor>)
    ensures
        crate::blob::descs_view(r@) == crate::blob::descs_view(pdescs@) + (match layer {
            Some(e) => seq![e.blob.descriptor@],
            None => Seq::<crate::blob::DescriptorV>::empty(),
        }),
{
    let ghost pdescs_v = crate::blob::descs_view(pdescs@);
    let mut descs = pdescs;
    match layer {
        Some(e) => {
            let ghost prev = descs@;
            descs.push(crate::blob::clone_descriptor(&e.blob.descriptor));
            proof {
                assert forall|b: int| 0 <= b < descs@.len() implies crate::blob::descs_view(
                    descs@,
                )[b] == (pdescs_v + seq![e.blob.descriptor@])[b] by {
                    if b < prev.len() {
                        assert(descs@[b] == prev[b]);
                    } else {
                        assert(descs@[b] == descs@.last());
                    }
                }
                assert(crate::blob::descs_view(descs@) =~= pdescs_v + seq![e.blob.descriptor@]);
            }
        },
        None => {
            proof {
                assert(crate::blob::descs_view(descs@) =~= pdescs_v + Seq::<
                    crate::blob::DescriptorV,
                >::empty());
            }
        },
    }
    descs
}

/// Builds one image: packs the new layer when an upper tree is given,
/// writes the config with the combined diff-ids and history, writes the
/// manifest over the combined layer descriptors, and returns the
/// manifest's index descriptor with the platform attached. A `created`
/// timestamp beyond the four-digit-year range is refused; without a new
/// layer to pack, nothing else can fail.
#[verifier::rlimit(100)]
pub fn build_image(
    desc: &ImageDesc,
    parent: Option<ParentInfo>,
    upper: Option<&UpperInput>,
    config: &crate::config::GlobalConfig,
    created_epoch: u64,
    epoch: Option<u64>,
) -> (r: Result<ImageOutput, BuildError>)
    requires
        match upper {
            Some(u) => forall|i: int| #![all_triggers]
                0 <= i < u.records@.len() ==> crate::overlay::wf_rel_path(
                    crate::scan::recs_view(u.records@)[i].rel_path,
                ),
            None => true,
        },
    ensures
        r matches Ok(out) ==> {
            let all_diff = spec_parent_diff_ids(parent) + (match out.layer {
                Some(e) => seq![e.diff_id@],
                None => Seq::<Seq<u8>>::empty(),
            });
            let all_descs = spec_parent_descs(parent) + (match out.layer {
                Some(e) => seq![e.blob.descriptor@],
                None => Seq::<crate::blob::DescriptorV>::empty(),
            });
            &&& (out.layer is Some) == (upper is Some)
            &&& (out.layer matches Some(e) ==> blob_ok(e.blob) && e.diff_id@
                == crate::digest::digest_ref_of(
                crate::blob::spec_decode(config.compression, e.blob.bytes@),
            ))
            &&& blob_ok(out.config_blob)
            &&& out.config_blob.bytes@ == spec_config_json(
                *desc,
                spec_timestamp(created_epoch),
                all_diff,
                spec_history_json(
                    spec_parent_history(parent),
                    spec_history_entry(*desc, upper is None),
                ),
            )
            &&& (out.config_blob.descriptor.media_type matches Some(m) && m@
                == crate::blob::spec_config_media_type())
            &&& blob_ok(out.manifest_blob)
            &&& out.manifest_blob.bytes@ == spec_manifest_json(
                crate::blob::opt_bytes_view(desc.annotations),
                out.config_blob.descriptor@,
                all_descs,
            )
            &&& (out.manifest_blob.descriptor.media_type matches Some(m2) && m2@
                == crate::blob::spec_manifest_media_type())
            &&& out.descriptor.digest@ == out.manifest_blob.descriptor.digest@
            &&& out.descriptor.size == out.manifest_blob.descriptor.size
            &&& (out.descriptor.platform matches Some(p) && p@ == spec_platform_json(*desc))
            &&& crate::blob::opt_bytes_view(out.descriptor.annotations)
                == crate::blob::opt_bytes_view(desc.index_annotations)
        },
        created_epoch > MAX_CREATED_EPOCH ==> r == Err::<ImageOutput, BuildError>(
            BuildError::TimeOutOfRange,
        ),
        r is Err ==> upper is Some || created_epoch > MAX_CREATED_EPOCH,
        (parent is None && created_epoch <= MAX_CREATED_EPOCH && config.compression is Disabled
            && (upper matches Some(u) && crate::layer::items_renderable(
            crate::layer::spec_fresh_plan(
                crate::scan::recs_view(u.records@),
                epoch,
                u.root_meta,
            ),
        ))) ==> r is Ok,
{
    if created_epoch > MAX_CREATED_EPOCH {
        return Err(BuildError::TimeOutOfRange);
    }
    let (pdescs, pblobs, pdiff, phist): (
        Vec<BlobDescriptor>,
        Vec<Vec<u8>>,
        Vec<Vec<u8>>,
        Vec<JsonValue>,
    ) = match parent {
        Some(p) => (p.layer_descs, p.layer_blobs, p.diff_ids, p.history),
        None => (Vec::new(), Vec::new(), Vec::new(), Vec::new()),
    };
    let layer: Option<crate::blob::EncodedLayer> = match upper {
        Some(u) => {
            match crate::layer::build_layer(&u.records, u.root_meta, &pblobs, config, epoch) {
                Ok(e) => Some(e),
                Err(e) => {
                    return Err(e);
                },
            }
        },
        None => None,
    };
    let ids = combine_ids(pdiff, &layer);
    let created = format_epoch(created_epoch);
    let empty_layer = match upper {
        Some(_) => false,
        None => true,
    };
    let entry = history_entry_json(desc, empty_layer);
    let hist = history_json(&phist, &entry);
    let cfg_bytes = config_json(desc, &created, &ids, &hist);
    let config_blob = crate::blob::blob_from_bytes(
        Some(crate::blob::config_media_type()),
        cfg_bytes,
    );
    let descs = combine_descs(pdescs, &layer);
    let manifest_bytes = manifest_json(&desc.annotations, &config_blob.descriptor, &descs);
    let manifest_blob = crate::blob::blob_from_bytes(
        Some(crate::blob::manifest_media_type()),
        manifest_bytes,
    );
    let platform = platform_json(desc);
    let descriptor = BlobDescriptor {
        media_type: Some(crate::blob::manifest_media_type()),
        size: manifest_blob.descriptor.size,
        digest: clone_bytes(&manifest_blob.descriptor.digest),
        platform: Some(platform),
        annotations: match &desc.index_annotations {
            Some(a) => Some(clone_bytes(a)),
            None => None,
        },
    };
    Ok(ImageOutput { layer, config_blob, manifest_blob, descriptor })
}

/// Assembles the top-level documents of a finished batch: the index over
/// the images' manifest descriptors, and the layout marker.
pub fn build_images(manifest_descs: &Vec<BlobDescriptor>, annotations: &Option<Vec<u8>>) -> (r: (
    Vec<u8>,
    Vec<u8>,
))
    ensures
        r.0@ == spec_index_json(
            crate::blob::opt_bytes_view(*annotations),
            crate::blob::descs_view(manifest_descs@),
        ),
        r.1@ == spec_oci_layout_json(),
{
    let idx = index_json(annotations, manifest_descs);
    let layout = oci_layout_json();
    (idx, layout)
}


/// A consumed image is whole only when its manifest lists as many layers
/// as its config declares diff-ids.
pub fn check_layer_counts(layers: usize, diff_ids: usize) -> (r: Result<(), BuildError>)
    ensures
        layers == diff_ids ==> r == Ok::<(), BuildError>(()),
        layers != diff_ids ==> r == Err::<(), BuildError>(BuildError::LayerCountMismatch),
{
    if layers == diff_ids {
        Ok(())
    } else {
        Err(BuildError::LayerCountMismatch)
    }
}

} // verus!
