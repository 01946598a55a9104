//! Association sequences keyed by byte strings, and sorted name lists:
//! the lookup structure behind the lower view and the scanned tree.

use vstd::prelude::*;
use crate::bytesutil::bytes_eq;
use crate::bytesutil::clone_bytes;
use crate::bytesutil::lex_lt;
use crate::bytesutil::lex_lt_bytes;

verus! {

/// First-match lookup in an association sequence.
pub open spec fn al_lookup<V>(s: Seq<(Seq<u8>, V)>, k: Seq<u8>) -> Option<V>
    decreases s.len(),
{
    if s.len() == 0 {
        None
    } else if s[0].0 == k {
        Some(s[0].1)
    } else {
        al_lookup(s.drop_first(), k)
    }
}

/// Last-match lookup in an association sequence.
pub open spec fn al_lookup_last<V>(s: Seq<(Seq<u8>, V)>, k: Seq<u8>) -> Option<V>
    decreases s.len(),
{
    if s.len() == 0 {
        None
    } else if s.last().0 == k {
        Some(s.last().1)
    } else {
        al_lookup_last(s.drop_last(), k)
    }
}

/// Keys strictly ascend.
pub open spec fn sorted_al<V>(s: Seq<(Seq<u8>, V)>) -> bool {
    forall|i: int, j: int| 0 <= i < j < s.len() ==> lex_lt(s[i].0, s[j].0)
}

/// The keys of an association sequence.
pub open spec fn al_keys<V>(s: Seq<(Seq<u8>, V)>) -> Seq<Seq<u8>> {
    Seq::new(s.len(), |i: int| s[i].0)
}

pub proof fn lemma_al_push<V>(s: Seq<(Seq<u8>, V)>, x: (Seq<u8>, V), k: Seq<u8>)
    ensures
        al_lookup(s.push(x), k) == (if al_lookup(s, k) is Some {
            al_lookup(s, k)
        } else if x.0 == k {
            Some(x.1)
        } else {
            None
        }),
    decreases s.len(),
{
    assert(s.push(x)[0] == if s.len() == 0 { x } else { s[0] });
    if s.len() == 0 {
        assert(s.push(x).drop_first() =~= Seq::<(Seq<u8>, V)>::empty());
        assert(al_lookup(Seq::<(Seq<u8>, V)>::empty(), k) is None);
    } else {
        assert(s.push(x).drop_first() =~= s.drop_first().push(x));
        lemma_al_push(s.drop_first(), x, k);
    }
}

pub proof fn lemma_al_first<V>(s: Seq<(Seq<u8>, V)>, k: Seq<u8>, idx: int)
    requires
        0 <= idx < s.len(),
        s[idx].0 == k,
        forall|a: int| 0 <= a < idx ==> s[a].0 != k,
    ensures
        al_lookup(s, k) == Some(s[idx].1),
    decreases s.len(),
{
    if idx > 0 {
        assert forall|a: int| 0 <= a < idx - 1 implies s.drop_first()[a].0 != k by {
            assert(s.drop_first()[a] == s[a + 1]);
        }
        assert(s.drop_first()[idx - 1] == s[idx]);
        lemma_al_first(s.drop_first(), k, idx - 1);
    }
}

pub proof fn lemma_al_none<V>(s: Seq<(Seq<u8>, V)>, k: Seq<u8>)
    requires
        forall|a: int| 0 <= a < s.len() ==> s[a].0 != k,
    ensures
        al_lookup(s, k) is None,
    decreases s.len(),
{
    if s.len() > 0 {
        assert forall|a: int| 0 <= a < s.drop_first().len() implies s.drop_first()[a].0 != k by {
            assert(s.drop_first()[a] == s[a + 1]);
        }
        lemma_al_none(s.drop_first(), k);
    }
}

/// A lookup that hits is witnessed by an index holding its value.
pub proof fn lemma_al_some_witness<V>(s: Seq<(Seq<u8>, V)>, k: Seq<u8>)
    requires
        al_lookup(s, k) is Some,
    ensures
        exists|i: int| 0 <= i < s.len() && s[i].0 == k && s[i].1 == al_lookup(s, k)->Some_0,
    decreases s.len(),
{
    if s.len() > 0 && s[0].0 != k {
        lemma_al_some_witness(s.drop_first(), k);
        let i = choose|i: int|
            0 <= i < s.drop_first().len() && s.drop_first()[i].0 == k && s.drop_first()[i].1
                == al_lookup(s.drop_first(), k)->Some_0;
        assert(s[i + 1].0 == k && s[i + 1].1 == al_lookup(s, k)->Some_0);
    }
}

/// Replacing the element at `pos` — the first with its key — rewrites
/// lookups of that key and leaves the rest alone.
pub proof fn lemma_al_update<V>(s: Seq<(Seq<u8>, V)>, pos: int, x: (Seq<u8>, V), k: Seq<u8>)
    requires
        0 <= pos < s.len(),
        s[pos].0 == x.0,
        forall|a: int| 0 <= a < pos ==> s[a].0 != x.0,
    ensures
        al_lookup(s.update(pos, x), k) == (if k == x.0 {
            Some(x.1)
        } else {
            al_lookup(s, k)
        }),
    decreases s.len(),
{
    let s2 = s.update(pos, x);
    if pos == 0 {
        if k != x.0 {
            assert(s2.drop_first() =~= s.drop_first());
        }
    } else {
        assert(s2[0] == s[0]);
        assert(s2.drop_first() =~= s.drop_first().update(pos - 1, x));
        assert forall|a: int| 0 <= a < pos - 1 implies s.drop_first()[a].0 != x.0 by {
            assert(s.drop_first()[a] == s[a + 1]);
        }
        assert(s.drop_first()[pos - 1] == s[pos]);
        lemma_al_update(s.drop_first(), pos - 1, x, k);
    }
}

/// Inserting at `pos`, before any element with the new key, adds that key
/// and leaves other lookups alone.
pub proof fn lemma_al_insert<V>(s: Seq<(Seq<u8>, V)>, pos: int, x: (Seq<u8>, V), k: Seq<u8>)
    requires
        0 <= pos <= s.len(),
        forall|a: int| 0 <= a < pos ==> s[a].0 != x.0,
    ensures
        al_lookup(s.insert(pos, x), k) == (if k == x.0 {
            Some(x.1)
        } else {
            al_lookup(s, k)
        }),
    decreases s.len(),
{
    let s2 = s.insert(pos, x);
    if pos == 0 {
        assert(s2[0] == x);
        assert(s2.drop_first() =~= s);
    } else {
        assert(s2[0] == s[0]);
        assert(s2.drop_first() =~= s.drop_first().insert(pos - 1, x));
        assert forall|a: int| 0 <= a < pos - 1 implies s.drop_first()[a].0 != x.0 by {
            assert(s.drop_first()[a] == s[a + 1]);
        }
        lemma_al_insert(s.drop_first(), pos - 1, x, k);
    }
}

/// An existing key is found.
pub proof fn lemma_al_exists_some<V>(s: Seq<(Seq<u8>, V)>, k: Seq<u8>)
    requires
        exists|i: int| 0 <= i < s.len() && s[i].0 == k,
    ensures
        al_lookup(s, k) is Some,
    decreases s.len(),
{
    if s.len() > 0 && s[0].0 != k {
        let i = choose|i: int| 0 <= i < s.len() && s[i].0 == k;
        assert(s.drop_first()[i - 1] == s[i]);
        lemma_al_exists_some(s.drop_first(), k);
    }
}

/// The last element with a key decides the last-match lookup.
pub proof fn lemma_al_last_at<V>(s: Seq<(Seq<u8>, V)>, k: Seq<u8>, idx: int)
    requires
        0 <= idx < s.len(),
        s[idx].0 == k,
        forall|a: int| idx < a < s.len() ==> s[a].0 != k,
    ensures
        al_lookup_last(s, k) == Some(s[idx].1),
    decreases s.len(),
{
    if idx < s.len() - 1 {
        assert(s.drop_last()[idx] == s[idx]);
        assert forall|a: int| idx < a < s.drop_last().len() implies s.drop_last()[a].0 != k by {
            assert(s.drop_last()[a] == s[a]);
        }
        lemma_al_last_at(s.drop_last(), k, idx);
    }
}

/// With no matching key, the last-match lookup is empty.
pub proof fn lemma_al_last_none<V>(s: Seq<(Seq<u8>, V)>, k: Seq<u8>)
    requires
        forall|a: int| 0 <= a < s.len() ==> s[a].0 != k,
    ensures
        al_lookup_last(s, k) is None,
    decreases s.len(),
{
    if s.len() > 0 {
        assert forall|a: int| 0 <= a < s.drop_last().len() implies s.drop_last()[a].0 != k by {
            assert(s.drop_last()[a] == s[a]);
        }
        lemma_al_last_none(s.drop_last(), k);
    }
}

/// An existing key is found by the last-match lookup.
pub proof fn lemma_al_last_exists<V>(s: Seq<(Seq<u8>, V)>, k: Seq<u8>)
    requires
        exists|i: int| 0 <= i < s.len() && s[i].0 == k,
    ensures
        al_lookup_last(s, k) is Some,
    decreases s.len(),
{
    if s.len() > 0 && s.last().0 != k {
        let i = choose|i: int| 0 <= i < s.len() && s[i].0 == k;
        assert(s.drop_last()[i] == s[i]);
        lemma_al_last_exists(s.drop_last(), k);
    }
}

/// A last-match hit is witnessed by an index holding its value.
pub proof fn lemma_al_last_witness<V>(s: Seq<(Seq<u8>, V)>, k: Seq<u8>)
    requires
        al_lookup_last(s, k) is Some,
    ensures
        exists|i: int| 0 <= i < s.len() && s[i].0 == k && s[i].1 == al_lookup_last(s, k)->Some_0,
    decreases s.len(),
{
    if s.len() > 0 && s.last().0 != k {
        lemma_al_last_witness(s.drop_last(), k);
        let i = choose|i: int|
            0 <= i < s.drop_last().len() && s.drop_last()[i].0 == k && s.drop_last()[i].1
                == al_lookup_last(s.drop_last(), k)->Some_0;
        assert(s[i].0 == k && s[i].1 == al_lookup_last(s, k)->Some_0);
    }
}

/// Membership in a list of byte strings.
pub open spec fn in_names(k: Seq<u8>, l: Seq<Seq<u8>>) -> bool {
    exists|i: int| 0 <= i < l.len() && l[i] == k
}

/// Views of a list of byte vectors.
pub open spec fn names_view(s: Seq<Vec<u8>>) -> Seq<Seq<u8>> {
    Seq::new(s.len(), |i: int| s[i]@)
}

/// Names strictly ascend.
pub open spec fn sorted_names(l: Seq<Seq<u8>>) -> bool {
    forall|a: int, b: int| 0 <= a < b < l.len() ==> lex_lt(l[a], l[b])
}

pub proof fn lemma_in_names_push(k: Seq<u8>, names: Seq<Seq<u8>>, d: Seq<u8>)
    ensures
        in_names(k, names.push(d)) == (in_names(k, names) || k == d),
{
    if in_names(k, names.push(d)) {
        let i = choose|i: int| 0 <= i < names.push(d).len() && names.push(d)[i] == k;
        if i < names.len() {
            assert(names.push(d)[i] == names[i]);
            assert(in_names(k, names));
        } else {
            assert(names.push(d)[i] == d);
        }
    }
    if in_names(k, names) {
        let i = choose|i: int| 0 <= i < names.len() && names[i] == k;
        assert(names.push(d)[i] == names[i]);
        assert(in_names(k, names.push(d)));
    }
    if k == d {
        assert(names.push(d)[names.len() as int] == d);
        assert(in_names(k, names.push(d)));
    }
}

pub proof fn lemma_in_names_insert(m: Seq<u8>, names: Seq<Seq<u8>>, pos: int, x: Seq<u8>)
    requires
        0 <= pos <= names.len(),
    ensures
        in_names(m, names.insert(pos, x)) == (in_names(m, names) || m == x),
{
    let s2 = names.insert(pos, x);
    assert(s2 =~= names.take(pos) + seq![x] + names.skip(pos));
    if in_names(m, s2) {
        let i = choose|i: int| 0 <= i < s2.len() && s2[i] == m;
        if i < pos {
            assert(names[i] == m);
        } else if i == pos {
        } else {
            assert(names[i - 1] == m);
        }
    }
    if in_names(m, names) {
        let i = choose|i: int| 0 <= i < names.len() && names[i] == m;
        if i < pos {
            assert(s2[i] == m);
        } else {
            assert(s2[i + 1] == m);
        }
        assert(in_names(m, s2));
    }
    if m == x {
        assert(s2[pos] == x);
        assert(in_names(m, s2));
    }
}

/// Insertion into a sorted name list: before the first name not below
/// the new one; an equal name leaves the list unchanged.
pub open spec fn spec_insert_name(l: Seq<Seq<u8>>, n: Seq<u8>) -> Seq<Seq<u8>>
    decreases l.len(),
{
    if l.len() == 0 {
        seq![n]
    } else if lex_lt(n, l[0]) {
        seq![n] + l
    } else if n == l[0] {
        l
    } else {
        seq![l[0]] + spec_insert_name(l.drop_first(), n)
    }
}

/// On a sorted list, insertion lands at the scan boundary.
proof fn lemma_insert_name_at(l: Seq<Seq<u8>>, n: Seq<u8>, pos: int)
    requires
        sorted_names(l),
        0 <= pos <= l.len(),
        forall|a: int| 0 <= a < pos ==> lex_lt(l[a], n),
        pos < l.len() ==> !lex_lt(l[pos], n),
    ensures
        spec_insert_name(l, n) == (if pos < l.len() && l[pos] == n {
            l
        } else {
            l.insert(pos, n)
        }),
    decreases pos,
{
    if pos == 0 {
        if l.len() == 0 {
            assert(spec_insert_name(l, n) =~= l.insert(0, n));
        } else {
            crate::bytesutil::lemma_lex_total(n, l[0]);
            if lex_lt(n, l[0]) {
                assert(spec_insert_name(l, n) =~= l.insert(0, n));
            }
        }
    } else {
        assert(!lex_lt(n, l[0])) by {
            if lex_lt(n, l[0]) {
                crate::bytesutil::lemma_lex_trans(l[0], n, l[0]);
                crate::bytesutil::lemma_lex_irrefl(l[0]);
            }
        }
        assert(n != l[0]) by {
            if n == l[0] {
                crate::bytesutil::lemma_lex_irrefl(n);
            }
        }
        let ld = l.drop_first();
        assert forall|a: int, b: int| 0 <= a < b < ld.len() implies lex_lt(ld[a], ld[b]) by {
            assert(ld[a] == l[a + 1] && ld[b] == l[b + 1]);
        }
        assert forall|a: int| 0 <= a < pos - 1 implies lex_lt(ld[a], n) by {
            assert(ld[a] == l[a + 1]);
        }
        assert(pos - 1 < ld.len() ==> ld[pos - 1] == l[pos]);
        lemma_insert_name_at(ld, n, pos - 1);
        if pos < l.len() && l[pos] == n {
            assert(spec_insert_name(l, n) =~= l);
        } else {
            assert(spec_insert_name(l, n) =~= l.insert(pos, n)) by {
                assert(ld.insert(pos - 1, n) =~= ld.take(pos - 1) + seq![n] + ld.skip(pos - 1));
                assert(l.insert(pos, n) =~= l.take(pos) + seq![n] + l.skip(pos));
            }
        }
    }
}

/// Inserts a name into a sorted list unless already present.
pub fn insert_sorted_name(names: &mut Vec<Vec<u8>>, n: Vec<u8>)
    requires
        sorted_names(names_view(old(names)@)),
    ensures
        sorted_names(names_view(final(names)@)),
        names_view(final(names)@) == spec_insert_name(names_view(old(names)@), n@),
        forall|m: Seq<u8>| #![all_triggers]
            in_names(m, names_view(final(names)@)) == (in_names(m, names_view(old(names)@)) || m
                == n@),
{
    let ghost nv = names_view(names@);
    let mut pos: usize = 0;
    while pos < names.len() && lex_lt_bytes(names[pos].as_slice(), n.as_slice())
        invariant
            pos <= names@.len(),
            nv == names_view(names@),
            sorted_names(nv),
            forall|a: int| 0 <= a < pos ==> lex_lt(nv[a], n@),
        decreases names@.len() - pos,
    {
        pos = pos + 1;
    }
    if pos < names.len() && bytes_eq(names[pos].as_slice(), n.as_slice()) {
        proof {
            assert(nv[pos as int] == n@);
            assert(in_names(n@, nv));
            lemma_insert_name_at(nv, n@, pos as int);
        }
        return ;
    }
    proof {
        if pos < names@.len() {
            crate::bytesutil::lemma_lex_total(nv[pos as int], n@);
        }
        assert forall|a: int| pos <= a < nv.len() implies lex_lt(n@, nv[a]) by {
            if a > pos {
                crate::bytesutil::lemma_lex_trans(n@, nv[pos as int], nv[a]);
            }
        }
    }
    names.insert(pos, n);
    proof {
        let nv2 = names_view(names@);
        assert(nv2 =~= nv.insert(pos as int, n@));
        assert(nv.insert(pos as int, n@) =~= nv.take(pos as int) + seq![n@] + nv.skip(
            pos as int,
        ));
        assert forall|a: int, b: int| 0 <= a < b < nv2.len() implies lex_lt(nv2[a], nv2[b]) by {
            assert(nv2[a] == if a < pos {
                nv[a]
            } else if a == pos {
                n@
            } else {
                nv[a - 1]
            });
            assert(nv2[b] == if b < pos {
                nv[b]
            } else if b == pos {
                n@
            } else {
                nv[b - 1]
            });
        }
        assert forall|m: Seq<u8>| #![all_triggers]
            in_names(m, nv2) == (in_names(m, nv) || m == n@) by {
            lemma_in_names_insert(m, nv, pos as int, n@);
        }
        lemma_insert_name_at(nv, n@, pos as int);
        if pos < nv.len() {
            assert(nv[pos as int] != n@);
        }
    }
}

/// View of a directory-contents table.
pub open spec fn dc_view(s: Seq<(Vec<u8>, Vec<Vec<u8>>)>) -> Seq<(Seq<u8>, Seq<Seq<u8>>)> {
    Seq::new(s.len(), |i: int| (s[i].0@, names_view(s[i].1@)))
}

/// One directory's characterization: its names are exactly the base names
/// of the listed paths inside it, in sorted order.
pub open spec fn dc_entry_ok(paths: Seq<Seq<u8>>, d: Seq<u8>, names: Seq<Seq<u8>>) -> bool {
    &&& sorted_names(names)
    &&& forall|n: Seq<u8>| #![all_triggers]
        in_names(n, names) == exists|a: int|
            0 <= a < paths.len() && crate::overlay::spec_dirname(paths[a]) == d
                && crate::overlay::spec_basename(paths[a]) == n
}

/// The whole table's characterization against a list of paths.
pub open spec fn dc_ok(dc: Seq<(Seq<u8>, Seq<Seq<u8>>)>, paths: Seq<Seq<u8>>) -> bool {
    &&& forall|d: Seq<u8>| #![all_triggers]
        (al_lookup(dc, d) is Some) == exists|a: int|
            0 <= a < paths.len() && crate::overlay::spec_dirname(paths[a]) == d
    &&& forall|i: int| #![all_triggers] 0 <= i < dc.len() ==> dc_entry_ok(paths, dc[i].0, dc[i].1)
}

/// Finds the table entry of a directory.
pub fn dc_find(dc: &Vec<(Vec<u8>, Vec<Vec<u8>>)>, d: &[u8]) -> (r: Option<usize>)
    ensures
        match r {
            Some(i) => i < dc@.len() && dc_view(dc@)[i as int].0 == d@ && al_lookup(
                dc_view(dc@),
                d@,
            ) == Some(dc_view(dc@)[i as int].1),
            None => al_lookup(dc_view(dc@), d@) is None,
        },
{
    let mut i: usize = 0;
    while i < dc.len()
        invariant
            i <= dc@.len(),
            forall|a: int| 0 <= a < i ==> dc_view(dc@)[a].0 != d@,
        decreases dc@.len() - i,
    {
        if bytes_eq(dc[i].0.as_slice(), d) {
            proof {
                lemma_al_first(dc_view(dc@), d@, i as int);
            }
            return Some(i);
        }
        i = i + 1;
    }
    proof {
        lemma_al_none(dc_view(dc@), d@);
    }
    None
}

/// The sorted names of directory `d` among the first `upto` paths.
pub open spec fn spec_names_at(paths: Seq<Seq<u8>>, d: Seq<u8>, upto: int) -> Seq<Seq<u8>>
    decreases upto,
{
    if upto <= 0 {
        Seq::empty()
    } else {
        let prev = spec_names_at(paths, d, upto - 1);
        if crate::overlay::spec_dirname(paths[upto - 1]) == d {
            spec_insert_name(prev, crate::overlay::spec_basename(paths[upto - 1]))
        } else {
            prev
        }
    }
}

/// The directory-contents table after the first `upto` paths: one entry
/// per directory, appended when its first path appears, carrying the
/// directory's full sorted name list.
pub open spec fn spec_dc(paths: Seq<Seq<u8>>, upto: int) -> Seq<(Seq<u8>, Seq<Seq<u8>>)>
    decreases upto,
{
    if upto <= 0 {
        Seq::empty()
    } else {
        let prev = spec_dc(paths, upto - 1);
        let d = crate::overlay::spec_dirname(paths[upto - 1]);
        if al_lookup(prev, d) is Some {
            prev
        } else {
            prev.push((d, spec_names_at(paths, d, paths.len() as int)))
        }
    }
}

/// The whole directory-contents table of a path list.
pub open spec fn spec_dc_full(paths: Seq<Seq<u8>>) -> Seq<(Seq<u8>, Seq<Seq<u8>>)> {
    spec_dc(paths, paths.len() as int)
}

/// Builds the directory-contents table of a path list: one entry per
/// directory that holds at least one path, its names sorted — exactly
/// the table `spec_dc_full` describes.
pub fn build_dir_contents(paths: &Vec<Vec<u8>>) -> (dc: Vec<(Vec<u8>, Vec<Vec<u8>>)>)
    ensures
        dc_ok(dc_view(dc@), names_view(paths@)),
        dc_view(dc@) == spec_dc_full(names_view(paths@)),
{
    let ghost pv = names_view(paths@);
    let mut dc: Vec<(Vec<u8>, Vec<Vec<u8>>)> = Vec::new();
    let mut i: usize = 0;
    while i < paths.len()
        invariant
            i <= paths@.len(),
            pv == names_view(paths@),
            forall|d: Seq<u8>| #![all_triggers]
                (al_lookup(dc_view(dc@), d) is Some) == exists|a: int|
                    0 <= a < i && crate::overlay::spec_dirname(pv[a]) == d,
            forall|e: int| #![all_triggers]
                0 <= e < dc@.len() ==> dc_entry_ok(pv, dc_view(dc@)[e].0, dc_view(dc@)[e].1),
            dc_view(dc@) == spec_dc(pv, i as int),
        decreases paths@.len() - i,
    {
        let (d, _n) = crate::overlay::split_path(paths[i].as_slice());
        let found = dc_find(&dc, d.as_slice());
        match found {
            Some(_) => {
                proof {
                    assert(crate::overlay::spec_dirname(pv[i as int]) == d@);
                    assert(spec_dc(pv, i + 1) == spec_dc(pv, i as int));
                    assert forall|dd: Seq<u8>| #![all_triggers]
                        (al_lookup(dc_view(dc@), dd) is Some) == exists|a: int|
                            0 <= a < i + 1 && crate::overlay::spec_dirname(pv[a]) == dd by {
                        if al_lookup(dc_view(dc@), dd) is Some {
                            let a = choose|a: int|
                                0 <= a < i && crate::overlay::spec_dirname(pv[a]) == dd;
                        } else {
                            if exists|a: int|
                                0 <= a < i + 1 && crate::overlay::spec_dirname(pv[a]) == dd {
                                let a = choose|a: int|
                                    0 <= a < i + 1 && crate::overlay::spec_dirname(pv[a]) == dd;
                                if a == i {
                                    assert(dd == d@);
                                }
                            }
                        }
                    }
                }
            },
            None => {
                let mut names: Vec<Vec<u8>> = Vec::new();
                let mut a: usize = 0;
                while a < paths.len()
                    invariant
                        a <= paths@.len(),
                        pv == names_view(paths@),
                        sorted_names(names_view(names@)),
                        names_view(names@) == spec_names_at(pv, d@, a as int),
                        forall|n: Seq<u8>| #![all_triggers]
                            in_names(n, names_view(names@)) == exists|a2: int|
                                0 <= a2 < a && crate::overlay::spec_dirname(pv[a2]) == d@
                                    && crate::overlay::spec_basename(pv[a2]) == n,
                    decreases paths@.len() - a,
                {
                    let (d2, n2) = crate::overlay::split_path(paths[a].as_slice());
                    let ghost names_prev = names_view(names@);
                    if bytes_eq(d2.as_slice(), d.as_slice()) {
                        insert_sorted_name(&mut names, n2);
                        proof {
                            assert(names_view(names@) == spec_names_at(pv, d@, a + 1));
                            assert forall|n: Seq<u8>| #![all_triggers]
                                in_names(n, names_view(names@)) == exists|a2: int|
                                    0 <= a2 < a + 1 && crate::overlay::spec_dirname(pv[a2]) == d@
                                        && crate::overlay::spec_basename(pv[a2]) == n by {
                                if in_names(n, names_view(names@)) {
                                    if in_names(n, names_prev) {
                                        let a2 = choose|a2: int|
                                            0 <= a2 < a && crate::overlay::spec_dirname(pv[a2])
                                                == d@ && crate::overlay::spec_basename(pv[a2])
                                                == n;
                                    } else {
                                        assert(n == crate::overlay::spec_basename(pv[a as int]));
                                    }
                                } else {
                                    if exists|a2: int|
                                        0 <= a2 < a + 1 && crate::overlay::spec_dirname(pv[a2])
                                            == d@ && crate::overlay::spec_basename(pv[a2]) == n {
                                        let a2 = choose|a2: int|
                                            0 <= a2 < a + 1 && crate::overlay::spec_dirname(
                                                pv[a2],
                                            ) == d@ && crate::overlay::spec_basename(pv[a2]) == n;
                                        assert(in_names(n, names_view(names@)));
                                    }
                                }
                            }
                        }
                    } else {
                        proof {
                            assert(names_view(names@) == spec_names_at(pv, d@, a + 1));
                            assert forall|n: Seq<u8>| #![all_triggers]
                                in_names(n, names_view(names@)) == exists|a2: int|
                                    0 <= a2 < a + 1 && crate::overlay::spec_dirname(pv[a2]) == d@
                                        && crate::overlay::spec_basename(pv[a2]) == n by {
                                if !in_names(n, names_view(names@)) {
                                    if exists|a2: int|
                                        0 <= a2 < a + 1 && crate::overlay::spec_dirname(pv[a2])
                                            == d@ && crate::overlay::spec_basename(pv[a2]) == n {
                                        let a2 = choose|a2: int|
                                            0 <= a2 < a + 1 && crate::overlay::spec_dirname(
                                                pv[a2],
                                            ) == d@ && crate::overlay::spec_basename(pv[a2]) == n;
                                        assert(a2 < a);
                                        assert(in_names(n, names_view(names@)));
                                    }
                                }
                            }
                        }
                    }
                    a = a + 1;
                }
                let ghost dc_prev = dc_view(dc@);
                let ghost names_final = names_view(names@);
                dc.push((d, names));
                proof {
                    assert(dc_view(dc@) =~~= dc_prev.push((d@, names_final)));
                    assert(names_final == spec_names_at(pv, d@, pv.len() as int)) by {
                        assert(pv.len() == paths@.len());
                    }
                    assert(dc_view(dc@) =~~= spec_dc(pv, i + 1)) by {
                        assert(crate::overlay::spec_dirname(pv[i as int]) == d@);
                        assert(al_lookup(spec_dc(pv, i as int), d@) is None);
                    }
                    assert(dc_entry_ok(pv, d@, names_final));
                    assert forall|e: int| #![all_triggers]
                        0 <= e < dc@.len() implies dc_entry_ok(
                        pv,
                        dc_view(dc@)[e].0,
                        dc_view(dc@)[e].1,
                    ) by {
                        if e < dc_prev.len() {
                            assert(dc_view(dc@)[e] == dc_prev[e]);
                        } else {
                            assert(dc_view(dc@)[e] == (d@, names_final));
                        }
                    }
                    assert forall|dd: Seq<u8>| #![all_triggers]
                        (al_lookup(dc_view(dc@), dd) is Some) == exists|a2: int|
                            0 <= a2 < i + 1 && crate::overlay::spec_dirname(pv[a2]) == dd by {
                        lemma_al_push(dc_prev, (d@, names_final), dd);
                        if al_lookup(dc_view(dc@), dd) is Some {
                            if al_lookup(dc_prev, dd) is Some {
                                let a2 = choose|a2: int|
                                    0 <= a2 < i && crate::overlay::spec_dirname(pv[a2]) == dd;
                            } else {
                                assert(dd == d@);
                                assert(crate::overlay::spec_dirname(pv[i as int]) == dd);
                            }
                        } else {
                            if exists|a2: int|
                                0 <= a2 < i + 1 && crate::overlay::spec_dirname(pv[a2]) == dd {
                                let a2 = choose|a2: int|
                                    0 <= a2 < i + 1 && crate::overlay::spec_dirname(pv[a2]) == dd;
                                if a2 < i {
                                } else {
                                    assert(dd == d@);
                                }
                            }
                        }
                    }
                }
            },
        }
        i = i + 1;
    }
    dc
}

} // verus!
