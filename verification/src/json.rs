//! A JSON document tree and its byte-exact serialization.
//!
//! Strings are carried as UTF-8 bytes. Objects keep their members in the
//! order given; builders in this crate insert keys in sorted order, so two
//! builds of the same document are byte-identical.

use vstd::prelude::*;

verus! {

broadcast use vstd::std_specs::vec::group_vec_axioms;

/// A JSON value. String contents and object keys are UTF-8 bytes.
#[derive(Debug)]
pub enum JsonValue {
    Null,
    Bool(bool),
    UInt(u64),
    Int(i64),
    Str(Vec<u8>),
    Arr(Vec<JsonValue>),
    Obj(Vec<(Vec<u8>, JsonValue)>),
}

/// Decimal digits of a non-negative integer, most significant first.
pub open spec fn dec_of(n: int) -> Seq<u8>
    decreases n,
{
    if n < 0 {
        Seq::empty()
    } else if n < 10 {
        seq![(48 + n) as u8]
    } else {
        dec_of(n / 10) + seq![(48 + (n % 10)) as u8]
    }
}

/// The escape of one string byte: quote and backslash get a backslash,
/// control bytes become `\u00XX`, everything else stands as itself.
pub open spec fn esc_byte(b: u8) -> Seq<u8> {
    if b == 34 {
        seq![92u8, 34u8]
    } else if b == 92 {
        seq![92u8, 92u8]
    } else if b < 32 {
        seq![92u8, 117u8, 48u8, 48u8, crate::digest::hex_digit(b / 16), crate::digest::hex_digit(b % 16)]
    } else {
        seq![b]
    }
}

/// The escaped form of a whole string.
pub open spec fn esc_of(s: Seq<u8>) -> Seq<u8>
    decreases s.len(),
{
    if s.len() == 0 {
        Seq::empty()
    } else {
        esc_byte(s[0]) + esc_of(s.drop_first())
    }
}

pub proof fn lemma_esc_push(s: Seq<u8>, x: u8)
    ensures
        esc_of(s.push(x)) == esc_of(s) + esc_byte(x),
    decreases s.len(),
{
    assert(s.push(x)[0] == if s.len() == 0 { x } else { s[0] });
    if s.len() == 0 {
        assert(s.push(x).drop_first() =~= Seq::<u8>::empty());
        assert(esc_of(Seq::<u8>::empty()) == Seq::<u8>::empty());
        assert(esc_of(s.push(x)) =~= esc_of(s) + esc_byte(x));
    } else {
        assert(s.push(x).drop_first() =~= s.drop_first().push(x));
        lemma_esc_push(s.drop_first(), x);
        assert(esc_of(s.push(x)) =~= esc_of(s) + esc_byte(x));
    }
}

/// A serialized JSON string: quote, escaped bytes, quote.
pub open spec fn ser_str(s: Seq<u8>) -> Seq<u8> {
    seq![34u8] + esc_of(s) + seq![34u8]
}

/// Serialized bytes of a JSON value.
pub open spec fn ser(v: JsonValue) -> Seq<u8>
    decreases v,
{
    match v {
        JsonValue::Null => seq![110u8, 117u8, 108u8, 108u8],
        JsonValue::Bool(b) => if b {
            seq![116u8, 114u8, 117u8, 101u8]
        } else {
            seq![102u8, 97u8, 108u8, 115u8, 101u8]
        },
        JsonValue::UInt(n) => dec_of(n as int),
        JsonValue::Int(i) => if i < 0 {
            seq![45u8] + dec_of(-(i as int))
        } else {
            dec_of(i as int)
        },
        JsonValue::Str(s) => ser_str(s@),
        JsonValue::Arr(vs) => seq![91u8] + (if vs@.len() == 0 {
            Seq::<u8>::empty()
        } else {
            ser(vs@[0]) + ser_arr_rest(vs@.drop_first())
        }) + seq![93u8],
        JsonValue::Obj(ms) => seq![123u8] + (if ms@.len() == 0 {
            Seq::<u8>::empty()
        } else {
            ser_member(ms@[0]) + ser_obj_rest(ms@.drop_first())
        }) + seq![125u8],
    }
}

/// Array elements after the first, each preceded by a comma.
pub open spec fn ser_arr_rest(vs: Seq<JsonValue>) -> Seq<u8>
    decreases vs,
{
    if vs.len() == 0 {
        Seq::empty()
    } else {
        seq![44u8] + ser(vs[0]) + ser_arr_rest(vs.drop_first())
    }
}

/// One object member: key, colon, value.
pub open spec fn ser_member(m: (Vec<u8>, JsonValue)) -> Seq<u8>
    decreases m,
{
    ser_str(m.0@) + seq![58u8] + ser(m.1)
}

/// Object members after the first, each preceded by a comma.
pub open spec fn ser_obj_rest(ms: Seq<(Vec<u8>, JsonValue)>) -> Seq<u8>
    decreases ms,
{
    if ms.len() == 0 {
        Seq::empty()
    } else {
        seq![44u8] + ser_member(ms[0]) + ser_obj_rest(ms.drop_first())
    }
}

pub proof fn lemma_arr_rest_push(vs: Seq<JsonValue>, x: JsonValue)
    ensures
        ser_arr_rest(vs.push(x)) == ser_arr_rest(vs) + seq![44u8] + ser(x),
    decreases vs.len(),
{
    assert(vs.push(x)[0] == if vs.len() == 0 { x } else { vs[0] });
    if vs.len() == 0 {
        assert(vs.push(x).drop_first() =~= Seq::<JsonValue>::empty());
        assert(ser_arr_rest(Seq::<JsonValue>::empty()) == Seq::<u8>::empty());
        assert(ser_arr_rest(vs.push(x)) =~= ser_arr_rest(vs) + seq![44u8] + ser(x));
    } else {
        assert(vs.push(x).drop_first() =~= vs.drop_first().push(x));
        lemma_arr_rest_push(vs.drop_first(), x);
        assert(ser_arr_rest(vs.push(x)) =~= ser_arr_rest(vs) + seq![44u8] + ser(x));
    }
}

pub proof fn lemma_obj_rest_push(ms: Seq<(Vec<u8>, JsonValue)>, x: (Vec<u8>, JsonValue))
    ensures
        ser_obj_rest(ms.push(x)) == ser_obj_rest(ms) + seq![44u8] + ser_member(x),
    decreases ms.len(),
{
    assert(ms.push(x)[0] == if ms.len() == 0 { x } else { ms[0] });
    if ms.len() == 0 {
        assert(ms.push(x).drop_first() =~= Seq::<(Vec<u8>, JsonValue)>::empty());
        assert(ser_obj_rest(Seq::<(Vec<u8>, JsonValue)>::empty()) == Seq::<u8>::empty());
        assert(ser_obj_rest(ms.push(x)) =~= ser_obj_rest(ms) + seq![44u8] + ser_member(x));
    } else {
        assert(ms.push(x).drop_first() =~= ms.drop_first().push(x));
        lemma_obj_rest_push(ms.drop_first(), x);
        assert(ser_obj_rest(ms.push(x)) =~= ser_obj_rest(ms) + seq![44u8] + ser_member(x));
    }
}

/// Appends the decimal rendering of `n`.
pub fn write_dec(n: u64, out: &mut Vec<u8>)
    ensures
        final(out)@ == old(out)@ + dec_of(n as int),
    decreases n,
{
    if n < 10 {
        out.push(48 + (n as u8));
    } else {
        write_dec(n / 10, out);
        out.push(48 + ((n % 10) as u8));
    }
}

/// Appends the escaped bytes of `s` (no surrounding quotes).
pub fn write_esc(s: &[u8], out: &mut Vec<u8>)
    ensures
        final(out)@ == old(out)@ + esc_of(s@),
{
    let ghost base = out@;
    let mut i: usize = 0;
    while i < s.len()
        invariant
            i <= s.len(),
            out@ == base + esc_of(s@.take(i as int)),
        decreases s.len() - i,
    {
        let b = s[i];
        if b == 34 {
            out.push(92);
            out.push(34);
        } else if b == 92 {
            out.push(92);
            out.push(92);
        } else if b < 32 {
            out.push(92);
            out.push(117);
            out.push(48);
            out.push(48);
            let hi = b / 16;
            let lo = b % 16;
            out.push(if hi < 10 { 48 + hi } else { 87 + hi });
            out.push(if lo < 10 { 48 + lo } else { 87 + lo });
        } else {
            out.push(b);
        }
        proof {
            assert(s@.take(i + 1) =~= s@.take(i as int).push(s@[i as int]));
            lemma_esc_push(s@.take(i as int), s@[i as int]);
            assert(out@ =~= base + esc_of(s@.take(i + 1)));
        }
        i = i + 1;
    }
    proof {
        assert(s@.take(s@.len() as int) =~= s@);
    }
}

/// Appends a serialized JSON string: quote, escaped bytes, quote.
pub fn write_str(s: &[u8], out: &mut Vec<u8>)
    ensures
        final(out)@ == old(out)@ + ser_str(s@),
{
    out.push(34);
    write_esc(s, out);
    out.push(34);
    proof {
        assert(out@ =~= old(out)@ + ser_str(s@));
    }
}

/// Appends the serialized bytes of a JSON value.
#[verifier::loop_isolation(false)]
pub fn write_json(v: &JsonValue, out: &mut Vec<u8>)
    ensures
        final(out)@ == old(out)@ + ser(*v),
    decreases *v,
{
    match v {
        JsonValue::Null => {
            out.push(110);
            out.push(117);
            out.push(108);
            out.push(108);
            proof {
                assert(out@ =~= old(out)@ + ser(*v));
            }
        },
        JsonValue::Bool(b) => {
            if *b {
                out.push(116);
                out.push(114);
                out.push(117);
                out.push(101);
            } else {
                out.push(102);
                out.push(97);
                out.push(108);
                out.push(115);
                out.push(101);
            }
            proof {
                assert(out@ =~= old(out)@ + ser(*v));
            }
        },
        JsonValue::UInt(n) => {
            write_dec(*n, out);
        },
        JsonValue::Int(i) => {
            if *i < 0 {
                out.push(45);
                let mag: u64 = if *i == i64::MIN {
                    9223372036854775808u64
                } else {
                    (-(*i)) as u64
                };
                write_dec(mag, out);
                proof {
                    assert(out@ =~= old(out)@ + ser(*v));
                }
            } else {
                write_dec(*i as u64, out);
            }
        },
        JsonValue::Str(s) => {
            write_str(s.as_slice(), out);
        },
        JsonValue::Arr(vs) => {
            out.push(91);
            if vs.len() > 0 {
                let ghost base = out@;
                write_json(&vs[0], out);
                let mut i: usize = 1;
                while i < vs.len()
                    invariant
                        1 <= i <= vs@.len(),
                        out@ == base + ser(vs@[0]) + ser_arr_rest(vs@.subrange(1, i as int)),
                    decreases vs@.len() - i,
                {
                    out.push(44);
                    proof {
                        assert(decreases_to!(*v => vs@[i as int]));
                    }
                    write_json(&vs[i], out);
                    proof {
                        assert(vs@.subrange(1, i + 1) =~= vs@.subrange(1, i as int).push(
                            vs@[i as int],
                        ));
                        lemma_arr_rest_push(vs@.subrange(1, i as int), vs@[i as int]);
                        assert(out@ =~= base + ser(vs@[0]) + ser_arr_rest(
                            vs@.subrange(1, i + 1),
                        ));
                    }
                    i = i + 1;
                }
                proof {
                    assert(vs@.subrange(1, vs@.len() as int) =~= vs@.drop_first());
                }
            }
            out.push(93);
            proof {
                assert(out@ =~= old(out)@ + ser(*v));
            }
        },
        JsonValue::Obj(ms) => {
            out.push(123);
            if ms.len() > 0 {
                let ghost base = out@;
                write_str(ms[0].0.as_slice(), out);
                out.push(58);
                write_json(&ms[0].1, out);
                proof {
                    assert(out@ =~= base + ser_member(ms@[0]));
                }
                let mut i: usize = 1;
                while i < ms.len()
                    invariant
                        1 <= i <= ms@.len(),
                        out@ == base + ser_member(ms@[0]) + ser_obj_rest(
                            ms@.subrange(1, i as int),
                        ),
                    decreases ms@.len() - i,
                {
                    out.push(44);
                    write_str(ms[i].0.as_slice(), out);
                    out.push(58);
                    proof {
                        assert(decreases_to!(*v => ms@[i as int].1));
                    }
                    write_json(&ms[i].1, out);
                    proof {
                        assert(ms@.subrange(1, i + 1) =~= ms@.subrange(1, i as int).push(
                            ms@[i as int],
                        ));
                        lemma_obj_rest_push(ms@.subrange(1, i as int), ms@[i as int]);
                        assert(out@ =~= base + ser_member(ms@[0]) + ser_obj_rest(
                            ms@.subrange(1, i + 1),
                        ));
                    }
                    i = i + 1;
                }
                proof {
                    assert(ms@.subrange(1, ms@.len() as int) =~= ms@.drop_first());
                }
            }
            out.push(125);
            proof {
                assert(out@ =~= old(out)@ + ser(*v));
            }
        },
    }
}

/// A copy of a byte vector.
pub fn clone_bytes(s: &Vec<u8>) -> (r: Vec<u8>)
    ensures
        r@ == s@,
{
    let mut r: Vec<u8> = Vec::new();
    let mut i: usize = 0;
    while i < s.len()
        invariant
            i <= s@.len(),
            r@ =~= s@.take(i as int),
        decreases s@.len() - i,
    {
        r.push(s[i]);
        proof {
            assert(r@ =~= s@.take(i + 1));
        }
        i = i + 1;
    }
    proof {
        assert(s@.take(s@.len() as int) =~= s@);
    }
    r
}

/// Serializes a JSON value to bytes.
pub fn to_bytes(v: &JsonValue) -> (r: Vec<u8>)
    ensures
        r@ == ser(*v),
{
    let mut out: Vec<u8> = Vec::new();
    write_json(v, &mut out);
    out
}


/// Values that serialize alike stay alike under the array-rest form.
pub proof fn lemma_arr_rest_congr(a: Seq<JsonValue>, b: Seq<JsonValue>)
    requires
        a.len() == b.len(),
        forall|i: int| #![all_triggers] 0 <= i < a.len() ==> ser(a[i]) == ser(b[i]),
    ensures
        ser_arr_rest(a) == ser_arr_rest(b),
    decreases a.len(),
{
    if a.len() > 0 {
        assert forall|i: int| #![all_triggers]
            0 <= i < a.drop_first().len() implies ser(a.drop_first()[i]) == ser(
            b.drop_first()[i],
        ) by {
            assert(a.drop_first()[i] == a[i + 1] && b.drop_first()[i] == b[i + 1]);
        }
        lemma_arr_rest_congr(a.drop_first(), b.drop_first());
    }
}

/// Members that serialize alike stay alike under the object-rest form.
pub proof fn lemma_obj_rest_congr(a: Seq<(Vec<u8>, JsonValue)>, b: Seq<(Vec<u8>, JsonValue)>)
    requires
        a.len() == b.len(),
        forall|i: int| #![all_triggers]
            0 <= i < a.len() ==> a[i].0@ == b[i].0@ && ser(a[i].1) == ser(b[i].1),
    ensures
        ser_obj_rest(a) == ser_obj_rest(b),
    decreases a.len(),
{
    if a.len() > 0 {
        assert forall|i: int| #![all_triggers]
            0 <= i < a.drop_first().len() implies a.drop_first()[i].0@ == b.drop_first()[i].0@
            && ser(a.drop_first()[i].1) == ser(b.drop_first()[i].1) by {
            assert(a.drop_first()[i] == a[i + 1] && b.drop_first()[i] == b[i + 1]);
        }
        lemma_obj_rest_congr(a.drop_first(), b.drop_first());
        assert(ser_member(a[0]) == ser_member(b[0]));
    }
}

/// A deep copy of a JSON value: it serializes to the same bytes.
#[verifier::loop_isolation(false)]
pub fn json_clone(v: &JsonValue) -> (r: JsonValue)
    ensures
        ser(r) == ser(*v),
    decreases *v,
{
    match v {
        JsonValue::Null => JsonValue::Null,
        JsonValue::Bool(b) => JsonValue::Bool(*b),
        JsonValue::UInt(n) => JsonValue::UInt(*n),
        JsonValue::Int(i) => JsonValue::Int(*i),
        JsonValue::Str(s) => JsonValue::Str(clone_bytes(s)),
        JsonValue::Arr(vs) => {
            let mut out: Vec<JsonValue> = Vec::new();
            let mut i: usize = 0;
            while i < vs.len()
                invariant
                    i <= vs@.len(),
                    out@.len() == i,
                    forall|a: int| #![all_triggers] 0 <= a < i ==> ser(out@[a]) == ser(vs@[a]),
                decreases vs@.len() - i,
            {
                proof {
                    assert(decreases_to!(*v => vs@[i as int]));
                }
                let c = json_clone(&vs[i]);
                let ghost prev = out@;
                out.push(c);
                proof {
                    assert forall|a: int| #![all_triggers]
                        0 <= a < i + 1 implies ser(out@[a]) == ser(vs@[a]) by {
                        if a < i {
                            assert(out@[a] == prev[a]);
                        } else {
                            assert(out@[a] == out@.last());
                        }
                    }
                }
                i = i + 1;
            }
            proof {
                if vs@.len() > 0 {
                    assert forall|a: int| #![all_triggers]
                        0 <= a < out@.drop_first().len() implies ser(
                        out@.drop_first()[a],
                    ) == ser(vs@.drop_first()[a]) by {
                        assert(out@.drop_first()[a] == out@[a + 1]);
                        assert(vs@.drop_first()[a] == vs@[a + 1]);
                    }
                    lemma_arr_rest_congr(out@.drop_first(), vs@.drop_first());
                }
            }
            JsonValue::Arr(out)
        },
        JsonValue::Obj(ms) => {
            let mut out: Vec<(Vec<u8>, JsonValue)> = Vec::new();
            let mut i: usize = 0;
            while i < ms.len()
                invariant
                    i <= ms@.len(),
                    out@.len() == i,
                    forall|a: int| #![all_triggers]
                        0 <= a < i ==> out@[a].0@ == ms@[a].0@ && ser(out@[a].1) == ser(
                            ms@[a].1,
                        ),
                decreases ms@.len() - i,
            {
                proof {
                    assert(decreases_to!(*v => ms@[i as int].1));
                }
                let k = clone_bytes(&ms[i].0);
                let c = json_clone(&ms[i].1);
                let ghost prev = out@;
                out.push((k, c));
                proof {
                    assert forall|a: int| #![all_triggers]
                        0 <= a < i + 1 implies out@[a].0@ == ms@[a].0@ && ser(out@[a].1) == ser(
                        ms@[a].1,
                    ) by {
                        if a < i {
                            assert(out@[a] == prev[a]);
                        } else {
                            assert(out@[a] == out@.last());
                        }
                    }
                }
                i = i + 1;
            }
            proof {
                if ms@.len() > 0 {
                    assert forall|a: int| #![all_triggers]
                        0 <= a < out@.drop_first().len() implies out@.drop_first()[a].0@
                        == ms@.drop_first()[a].0@ && ser(out@.drop_first()[a].1) == ser(
                        ms@.drop_first()[a].1,
                    ) by {
                        assert(out@.drop_first()[a] == out@[a + 1]);
                        assert(ms@.drop_first()[a] == ms@[a + 1]);
                    }
                    lemma_obj_rest_congr(out@.drop_first(), ms@.drop_first());
                    assert(ser_member(out@[0]) == ser_member(ms@[0]));
                }
            }
            JsonValue::Obj(out)
        },
    }
}


} // verus!
