//! The tar wire format: 512-byte ustar headers with their checksum,
//! octal and base-256 numeric fields, block padding, and PAX extended
//! records, whose length prefix counts itself.

use vstd::prelude::*;
use crate::bytesutil::push_all;
use crate::json::dec_of;
use crate::json::write_dec;

verus! {

/// A sequence of zero bytes.
pub open spec fn zeros(n: int) -> Seq<u8> {
    Seq::new(if n >= 0 {
        n as nat
    } else {
        0
    }, |i: int| 0u8)
}

/// Appends `n` zero bytes.
pub fn write_zeros(out: &mut Vec<u8>, n: usize)
    ensures
        final(out)@ == old(out)@ + zeros(n as int),
{
    let ghost base = out@;
    let mut i: usize = 0;
    while i < n
        invariant
            i <= n,
            out@ =~= base + zeros(i as int),
        decreases n - i,
    {
        out.push(0);
        proof {
            assert(out@ =~= base + zeros(i + 1));
        }
        i = i + 1;
    }
}

/// A byte sequence padded with zeros to a field width.
pub open spec fn padded(s: Seq<u8>, w: int) -> Seq<u8> {
    s + zeros(w - s.len())
}

/// Octal digits of a non-negative number, most significant first.
pub open spec fn oct_of(n: int) -> Seq<u8>
    decreases n,
{
    if n < 0 {
        Seq::empty()
    } else if n < 8 {
        seq![(48 + n) as u8]
    } else {
        oct_of(n / 8) + seq![(48 + (n % 8)) as u8]
    }
}

/// Appends the octal rendering of `n`.
pub fn write_oct(n: u64, out: &mut Vec<u8>)
    ensures
        final(out)@ == old(out)@ + oct_of(n as int),
    decreases n,
{
    if n < 8 {
        out.push(48 + (n as u8));
    } else {
        write_oct(n / 8, out);
        out.push(48 + ((n % 8) as u8));
    }
}

/// Octal digit counts stay within the claimed width for bounded values.
pub proof fn lemma_oct_len(n: int, k: int)
    requires
        0 <= n,
        1 <= k,
        n < pow8(k as nat),
    ensures
        oct_of(n).len() <= k,
    decreases k,
{
    if n >= 8 {
        assert(pow8(k as nat) == 8 * pow8((k - 1) as nat));
        lemma_oct_len(n / 8, k - 1);
    }
}

/// Powers of eight.
pub open spec fn pow8(k: nat) -> int
    decreases k,
{
    if k == 0 {
        1
    } else {
        8 * pow8((k - 1) as nat)
    }
}

/// A run of ASCII zero digits.
pub open spec fn zero_digits(n: int) -> Seq<u8> {
    Seq::new(if n >= 0 {
        n as nat
    } else {
        0
    }, |i: int| 48u8)
}

/// A zero-padded octal field of width `w`: the digits right-aligned over
/// ASCII zeros, closed by a NUL byte.
pub open spec fn octal_field(n: int, w: int) -> Seq<u8> {
    zero_digits(w - 1 - oct_of(n).len()) + oct_of(n) + seq![0u8]
}

/// Appends an octal field of width `w`.
pub fn write_octal_field(out: &mut Vec<u8>, n: u64, w: usize)
    requires
        oct_of(n as int).len() <= w - 1,
    ensures
        final(out)@ == old(out)@ + octal_field(n as int, w as int),
        final(out)@.len() == old(out)@.len() + w,
{
    let mut digits: Vec<u8> = Vec::new();
    write_oct(n, &mut digits);
    let pad = w - 1 - digits.len();
    let ghost base = out@;
    let mut i: usize = 0;
    while i < pad
        invariant
            i <= pad,
            out@ =~= base + zero_digits(i as int),
        decreases pad - i,
    {
        out.push(48);
        proof {
            assert(out@ =~= base + zero_digits(i + 1));
        }
        i = i + 1;
    }
    push_all(out, digits.as_slice());
    out.push(0);
    proof {
        assert(final(out)@ =~= old(out)@ + octal_field(n as int, w as int));
    }
}

/// The big-endian bytes of a 64-bit number.
pub open spec fn be_bytes(n: u64) -> Seq<u8> {
    Seq::new(8, |i: int| ((n >> (((7 - i) * 8) as u64)) & 0xff) as u8)
}

/// The GNU base-256 numeric field: leading zeros, the value big-endian,
/// and the top bit of the first byte set.
pub open spec fn base256_field(n: u64, w: int) -> Seq<u8> {
    let raw = zeros(w - 8) + be_bytes(n);
    raw.update(0, (raw[0] | 0x80) as u8)
}

/// Appends a base-256 numeric field of width `w`.
pub fn write_base256_field(out: &mut Vec<u8>, n: u64, w: usize)
    requires
        w >= 8,
    ensures
        final(out)@ == old(out)@ + base256_field(n, w as int),
        final(out)@.len() == old(out)@.len() + w,
{
    let ghost base = out@;
    if w > 8 {
        out.push(0x80);
        write_zeros(out, w - 9);
        let mut i: usize = 0;
        while i < 8
            invariant
                i <= 8,
                w > 8,
                out@ =~= base + seq![0x80u8] + zeros(w - 9) + be_bytes(n).take(i as int),
            decreases 8 - i,
        {
            let shift: u64 = ((7 - i) * 8) as u64;
            out.push(((n >> shift) & 0xff) as u8);
            proof {
                assert(be_bytes(n)[i as int] == ((n >> (((7 - i as int) * 8) as u64))
                    & 0xff) as u8);
                assert(out@ =~= base + seq![0x80u8] + zeros(w - 9) + be_bytes(n).take(i + 1));
            }
            i = i + 1;
        }
        proof {
            assert(be_bytes(n).take(8) =~= be_bytes(n));
            assert((0u8 | 0x80u8) == 0x80u8) by (bit_vector);
            let f = base256_field(n, w as int);
            let raw = zeros(w - 8) + be_bytes(n);
            assert(raw[0] == 0);
            assert(f == raw.update(0, 0x80u8));
            assert forall|y: int| 0 <= y < out@.len() implies out@[y] == (base + f)[y] by {
                if y >= base.len() {
                    let x = y - base.len();
                    if x == 0 {
                    } else if x < w - 8 {
                        assert(f[x] == raw[x]);
                    } else {
                        assert(f[x] == be_bytes(n)[x - (w - 8)]);
                    }
                }
            }
            assert(out@ =~= base + f);
        }
    } else {
        let top: u8 = (((n >> 56) & 0xff) as u8) | 0x80;
        out.push(top);
        let mut i: usize = 1;
        while i < 8
            invariant
                1 <= i <= 8,
                out@ =~= base + seq![
                    ((((n >> 56) & 0xff) as u8) | 0x80) as u8,
                ] + be_bytes(n).subrange(1, i as int),
            decreases 8 - i,
        {
            let shift: u64 = ((7 - i) * 8) as u64;
            out.push(((n >> shift) & 0xff) as u8);
            proof {
                assert(be_bytes(n)[i as int] == ((n >> (((7 - i as int) * 8) as u64))
                    & 0xff) as u8);
                assert(out@ =~= base + seq![
                    ((((n >> 56) & 0xff) as u8) | 0x80) as u8,
                ] + be_bytes(n).subrange(1, i + 1));
            }
            i = i + 1;
        }
        proof {
            let f = base256_field(n, 8);
            assert(zeros(0) =~= Seq::<u8>::empty());
            assert((zeros(0) + be_bytes(n)) =~= be_bytes(n));
            assert(f.len() == 8);
            assert(be_bytes(n)[0] == ((n >> 56) & 0xff) as u8);
            assert forall|j: int| 0 <= j < 8 implies out@[base.len() + j] == f[j] by {
                if j == 0 {
                } else {
                    assert(out@[base.len() + j] == be_bytes(n).subrange(1, 8)[j - 1]);
                }
            }
            assert(out@ =~= base + f);
        }
    }
}

/// A tar numeric field: octal while the value fits its width, else the
/// base-256 extension.
pub open spec fn num_field(n: u64, w: int) -> Seq<u8> {
    if n < 8589934592 && !(n >= 2097152 && w == 8) {
        octal_field(n as int, w)
    } else {
        base256_field(n, w)
    }
}

/// Appends a tar numeric field of width 8 or 12.
pub fn write_num_field(out: &mut Vec<u8>, n: u64, w: usize)
    requires
        w == 8 || w == 12,
    ensures
        final(out)@ == old(out)@ + num_field(n, w as int),
        final(out)@.len() == old(out)@.len() + w,
{
    if n < 8589934592 && !(n >= 2097152 && w == 8) {
        proof {
            lemma_pow8_vals();
            if w == 8 {
                lemma_oct_len(n as int, 7);
            } else {
                lemma_oct_len(n as int, 11);
            }
        }
        write_octal_field(out, n, w);
    } else {
        write_base256_field(out, n, w);
    }
}

/// The two octal field bounds as powers of eight.
proof fn lemma_pow8_vals()
    ensures
        pow8(7) == 2097152,
        pow8(11) == 8589934592,
{
    assert(pow8(0) == 1);
    assert(pow8(1) == 8);
    assert(pow8(2) == 64);
    assert(pow8(3) == 512);
    assert(pow8(4) == 4096);
    assert(pow8(5) == 32768);
    assert(pow8(6) == 262144);
    assert(pow8(7) == 2097152);
    assert(pow8(8) == 16777216);
    assert(pow8(9) == 134217728);
    assert(pow8(10) == 1073741824);
    assert(pow8(11) == 8589934592);
}

/// Sum of a byte sequence.
pub open spec fn sum_bytes(s: Seq<u8>) -> int
    decreases s.len(),
{
    if s.len() == 0 {
        0
    } else {
        s[0] + sum_bytes(s.drop_first())
    }
}

pub proof fn lemma_sum_push(s: Seq<u8>, x: u8)
    ensures
        sum_bytes(s.push(x)) == sum_bytes(s) + x,
    decreases s.len(),
{
    assert(s.push(x)[0] == if s.len() == 0 { x } else { s[0] });
    if s.len() == 0 {
        assert(s.push(x).drop_first() =~= Seq::<u8>::empty());
        assert(sum_bytes(Seq::<u8>::empty()) == 0);
    } else {
        assert(s.push(x).drop_first() =~= s.drop_first().push(x));
        lemma_sum_push(s.drop_first(), x);
    }
}

/// Sums are bounded by 255 per byte.
pub proof fn lemma_sum_bound(s: Seq<u8>)
    ensures
        0 <= sum_bytes(s) <= 255 * s.len(),
    decreases s.len(),
{
    if s.len() > 0 {
        lemma_sum_bound(s.drop_first());
    }
}

/// Sums the bytes of a slice.
pub fn sum_slice(s: &[u8]) -> (r: u64)
    requires
        s@.len() <= 512,
    ensures
        r == sum_bytes(s@),
{
    proof {
        assert(s@.take(0) =~= Seq::<u8>::empty());
    }
    let mut acc: u64 = 0;
    let mut i: usize = 0;
    while i < s.len()
        invariant
            i <= s@.len() <= 512,
            acc == sum_bytes(s@.take(i as int)),
            acc <= 255 * i,
        decreases s@.len() - i,
    {
        proof {
            assert(s@.take(i + 1) =~= s@.take(i as int).push(s@[i as int]));
            lemma_sum_push(s@.take(i as int), s@[i as int]);
        }
        acc = acc + s[i] as u64;
        i = i + 1;
    }
    proof {
        assert(s@.take(s@.len() as int) =~= s@);
    }
    acc
}

/// The magic and version of a ustar header.
pub open spec fn ustar_magic() -> Seq<u8> {
    seq![117u8, 115u8, 116u8, 97u8, 114u8, 0u8, 48u8, 48u8]
}

/// A ustar header before its checksum is fixed: the checksum field holds
/// eight spaces.
pub open spec fn spec_header_pre(
    name: Seq<u8>,
    mode: u64,
    uid: u64,
    gid: u64,
    size: u64,
    mtime: u64,
    typeflag: u8,
    linkname: Seq<u8>,
) -> Seq<u8> {
    padded(name, 100) + num_field(mode, 8) + num_field(uid, 8) + num_field(gid, 8) + num_field(
        size,
        12,
    ) + num_field(mtime, 12) + Seq::new(8, |i: int| 32u8) + seq![typeflag] + padded(linkname, 100)
        + ustar_magic() + zeros(247)
}

/// A finished ustar header: the pre-checksum bytes with the sum of all
/// 512 bytes — the checksum field read as spaces — written as an octal
/// field at its place.
pub open spec fn spec_header(
    name: Seq<u8>,
    mode: u64,
    uid: u64,
    gid: u64,
    size: u64,
    mtime: u64,
    typeflag: u8,
    linkname: Seq<u8>,
) -> Seq<u8> {
    let pre = spec_header_pre(name, mode, uid, gid, size, mtime, typeflag, linkname);
    pre.take(148) + octal_field(sum_bytes(pre), 8) + pre.skip(156)
}

/// Renders one 512-byte ustar header.
#[verifier::rlimit(100)]
#[verifier::loop_isolation(false)]
pub fn render_header(
    name: &[u8],
    mode: u64,
    uid: u64,
    gid: u64,
    size: u64,
    mtime: u64,
    typeflag: u8,
    linkname: &[u8],
) -> (r: Vec<u8>)
    requires
        name@.len() <= 100,
        linkname@.len() <= 100,
    ensures
        r@ == spec_header(name@, mode, uid, gid, size, mtime, typeflag, linkname@),
        r@.len() == 512,
{
    let ghost pre = spec_header_pre(name@, mode, uid, gid, size, mtime, typeflag, linkname@);
    let mut out: Vec<u8> = Vec::new();
    push_all(&mut out, name);
    write_zeros(&mut out, 100 - name.len());
    write_num_field(&mut out, mode, 8);
    write_num_field(&mut out, uid, 8);
    write_num_field(&mut out, gid, 8);
    write_num_field(&mut out, size, 12);
    write_num_field(&mut out, mtime, 12);
    let mut i: usize = 0;
    while i < 8
        invariant
            i <= 8,
            out@ =~= pre.take(148) + Seq::new(i as nat, |x: int| 32u8),
        decreases 8 - i,
    {
        out.push(32);
        proof {
            assert(out@ =~= pre.take(148) + Seq::new((i + 1) as nat, |x: int| 32u8));
        }
        i = i + 1;
    }
    out.push(typeflag);
    push_all(&mut out, linkname);
    write_zeros(&mut out, 100 - linkname.len());
    let magic = ustar_magic_bytes();
    push_all(&mut out, magic.as_slice());
    write_zeros(&mut out, 247);
    proof {
        assert(out@ =~= pre);
        lemma_sum_bound(pre);
        lemma_pow8_vals();
        lemma_oct_len(sum_bytes(pre), 7);
    }
    let cksum = sum_slice(out.as_slice());
    let mut field: Vec<u8> = Vec::new();
    write_octal_field(&mut field, cksum, 8);
    let mut j: usize = 0;
    while j < 8
        invariant
            j <= 8,
            field@.len() == 8,
            field@ == octal_field(cksum as int, 8),
            out@.len() == 512,
            cksum == sum_bytes(pre),
            out@ =~= pre.take(148) + field@.take(j as int) + pre.skip(148 + j),
        decreases 8 - j,
    {
        let ghost prev_out = out@;
        out.set(148 + j, field[j]);
        proof {
            assert forall|x: int| 0 <= x < 512 implies out@[x] == (pre.take(148) + field@.take(
                j + 1,
            ) + pre.skip(148 + j + 1))[x] by {
                if x != 148 + j {
                    assert(out@[x] == prev_out[x]);
                    assert(prev_out[x] == (pre.take(148) + field@.take(j as int) + pre.skip(
                        148 + j,
                    ))[x]);
                }
            }
            assert(out@ =~= pre.take(148) + field@.take(j + 1) + pre.skip(148 + j + 1));
        }
        j = j + 1;
    }
    proof {
        assert(field@.take(8) =~= field@);
        assert(out@ =~= pre.take(148) + octal_field(sum_bytes(pre), 8) + pre.skip(156));
    }
    out
}

/// The ustar magic and version bytes.
fn ustar_magic_bytes() -> (r: Vec<u8>)
    ensures
        r@ == ustar_magic(),
{
    let mut v: Vec<u8> = Vec::new();
    v.push(117);
    v.push(115);
    v.push(116);
    v.push(97);
    v.push(114);
    v.push(0);
    v.push(48);
    v.push(48);
    proof {
        assert(v@ =~= ustar_magic());
    }
    v
}

/// Zero padding that closes a body out to a 512-byte boundary.
pub open spec fn pad_len(n: int) -> int {
    if n % 512 == 0 {
        0
    } else {
        512 - (n % 512)
    }
}

/// Appends the padding that closes a body of length `n`.
pub fn write_pad(out: &mut Vec<u8>, n: usize)
    ensures
        final(out)@ == old(out)@ + zeros(pad_len(n as int)),
{
    let rem = n % 512;
    if rem == 0 {
        proof {
            assert(zeros(0) =~= Seq::<u8>::empty());
            assert(final(out)@ =~= old(out)@ + zeros(pad_len(n as int)));
        }
    } else {
        write_zeros(out, 512 - rem);
    }
}

/// Decimal digit count.
pub open spec fn dec_len(n: int) -> int {
    dec_of(n).len() as int
}

/// Powers of ten.
pub open spec fn pow10(k: nat) -> int
    decreases k,
{
    if k == 0 {
        1
    } else {
        10 * pow10((k - 1) as nat)
    }
}

/// A number sits between the powers of ten its digit count names.
pub proof fn lemma_dec_len_bounds(n: int)
    requires
        n >= 0,
    ensures
        dec_len(n) >= 1,
        n < pow10(dec_len(n) as nat),
        dec_len(n) >= 2 ==> pow10((dec_len(n) - 1) as nat) <= n,
    decreases n,
{
    if n < 10 {
        assert(dec_len(n) == 1);
        assert(pow10(1) == 10 * pow10(0));
    } else {
        lemma_dec_len_bounds(n / 10);
        assert(dec_len(n) == dec_len(n / 10) + 1);
        assert(pow10(dec_len(n) as nat) == 10 * pow10((dec_len(n) - 1) as nat));
        assert(n <= 10 * (n / 10) + 9);
        if dec_len(n / 10) >= 2 {
            assert(pow10((dec_len(n) - 1) as nat) == 10 * pow10((dec_len(n) - 2) as nat));
        } else {
            assert(pow10(1) == 10 * pow10(0));
        }
    }
}

/// Digit counts never fall as numbers grow.
pub proof fn lemma_dec_len_mono(a: int, b: int)
    requires
        0 <= a <= b,
    ensures
        dec_len(a) <= dec_len(b),
    decreases b,
{
    if b >= 10 && a >= 10 {
        lemma_dec_len_mono(a / 10, b / 10);
    } else if b >= 10 {
        lemma_dec_len_bounds(b);
        lemma_dec_len_bounds(a);
    }
}

/// The length a PAX record claims for itself, given the length of
/// ` key=value\n` minus one: the naive length with one digit is corrected
/// until the digit count of the total matches the digits written.
pub open spec fn pax_len_of(esl: int) -> int {
    let t1 = 2 + esl;
    if t1 < 10 {
        t1
    } else {
        let d = dec_len(t1);
        let t2 = d + 1 + esl;
        if dec_len(t2) == d {
            t2
        } else {
            t2 + 1
        }
    }
}

/// One PAX record: `<len> <key>=<value>\n`, where `<len>` counts the whole
/// record, its own digits included.
pub open spec fn spec_pax_record(k: Seq<u8>, v: Seq<u8>) -> Seq<u8> {
    dec_of(pax_len_of((k.len() + v.len() + 2) as int)) + seq![32u8] + k + seq![61u8] + v + seq![10u8]
}

/// The length prefix of a PAX record is exact: the record's byte count
/// equals the number it opens with.
pub proof fn lemma_pax_record_exact(k: Seq<u8>, v: Seq<u8>)
    ensures
        spec_pax_record(k, v).len() == pax_len_of((k.len() + v.len() + 2) as int),
{
    let esl: int = (k.len() + v.len() + 2) as int;
    let t1: int = 2 + esl;
    let l = pax_len_of(esl);
    lemma_dec_len_bounds(t1);
    if t1 < 10 {
        assert(dec_len(t1) == 1);
    } else {
        let d = dec_len(t1);
        let t2: int = d + 1 + esl;
        lemma_dec_len_mono(t1, t2);
        if dec_len(t2) == d {
        } else {
            lemma_dec_len_bounds(t2);
            assert(t2 == t1 + d - 1);
            assert(t1 < pow10(d as nat));

            lemma_pow10_big(d as nat);
            assert(t2 < pow10(d as nat) + pow10(d as nat));
            assert(pow10((d + 1) as nat) == 10 * pow10(d as nat));
            lemma_dec_len_mono(t2, t2 + 1);
            assert(dec_len(t2) <= d + 1) by {
                if dec_len(t2) >= d + 2 {
                    assert(pow10((dec_len(t2) - 1) as nat) <= t2);
                    lemma_pow10_mono((d + 1) as nat, (dec_len(t2) - 1) as nat);
                }
            }
            assert(dec_len(t2) == d + 1);
            assert(dec_len(t2 + 1) <= d + 1) by {
                assert(t2 + 1 <= pow10(d as nat) + d);
                if dec_len(t2 + 1) >= d + 2 {
                    lemma_dec_len_bounds(t2 + 1);
                    assert(pow10((dec_len(t2 + 1) - 1) as nat) <= t2 + 1);
                    lemma_pow10_mono((d + 1) as nat, (dec_len(t2 + 1) - 1) as nat);
                }
            }
            assert(dec_len(t2 + 1) == d + 1);
        }
    }
}

/// Powers of ten outgrow digit counts.
proof fn lemma_pow10_big(k: nat)
    ensures
        pow10(k) > k,
    decreases k,
{
    if k > 0 {
        lemma_pow10_big((k - 1) as nat);
    }
}

/// Powers of ten ascend.
proof fn lemma_pow10_mono(a: nat, b: nat)
    requires
        a <= b,
    ensures
        pow10(a) <= pow10(b),
    decreases b,
{
    if a < b {
        lemma_pow10_mono(a, (b - 1) as nat);
        lemma_pow10_big((b - 1) as nat);
    }
}

/// A 64-bit number has at most twenty decimal digits.
proof fn lemma_dec_len_u64(n: u64)
    ensures
        1 <= dec_len(n as int) <= 20,
{
    lemma_dec_len_bounds(n as int);
    if dec_len(n as int) >= 21 {
        assert(pow10(20) == 100000000000000000000) by {
            assert(pow10(0) == 1);
            assert(pow10(1) == 10);
            assert(pow10(2) == 100);
            assert(pow10(3) == 1000);
            assert(pow10(4) == 10000);
            assert(pow10(5) == 100000);
            assert(pow10(6) == 1000000);
            assert(pow10(7) == 10000000);
            assert(pow10(8) == 100000000);
            assert(pow10(9) == 1000000000);
            assert(pow10(10) == 10000000000);
            assert(pow10(11) == 100000000000);
            assert(pow10(12) == 1000000000000);
            assert(pow10(13) == 10000000000000);
            assert(pow10(14) == 100000000000000);
            assert(pow10(15) == 1000000000000000);
            assert(pow10(16) == 10000000000000000);
            assert(pow10(17) == 100000000000000000);
            assert(pow10(18) == 1000000000000000000);
            assert(pow10(19) == 10000000000000000000);
            assert(pow10(20) == 100000000000000000000);
        }
        lemma_pow10_mono(20, (dec_len(n as int) - 1) as nat);
    }
}

/// The number of decimal digits of `n`.
pub fn count_digits(n: u64) -> (r: u64)
    ensures
        r == dec_len(n as int),
        1 <= r <= 20,
    decreases n,
{
    proof {
        lemma_dec_len_u64(n);
    }
    if n < 10 {
        1
    } else {
        let c = count_digits(n / 10);
        proof {
            assert(dec_len(n as int) == dec_len((n / 10) as int) + 1);
        }
        c + 1
    }
}

/// Appends one PAX record.
pub fn write_pax_record(out: &mut Vec<u8>, k: &[u8], v: &[u8])
    requires
        k@.len() + v@.len() + 64 < u64::MAX,
    ensures
        final(out)@ == old(out)@ + spec_pax_record(k@, v@),
{
    let esl: u64 = k.len() as u64 + v.len() as u64 + 2;
    let t1: u64 = 2 + esl;
    let total: u64 = if t1 < 10 {
        t1
    } else {
        let d = count_digits(t1);
        let t2 = d + 1 + esl;
        if count_digits(t2) == d {
            t2
        } else {
            t2 + 1
        }
    };
    proof {
        assert(total == pax_len_of(esl as int));
    }
    write_dec(total, out);
    out.push(32);
    push_all(out, k);
    out.push(61);
    push_all(out, v);
    out.push(10);
    proof {
        assert(final(out)@ =~= old(out)@ + spec_pax_record(k@, v@));
    }
}

} // verus!
