//! Versioned canonical binary encoding of values.

use vstd::prelude::*;
use vstd::utf8::encode_utf8;
use vstd::utf8::decode_utf8;
use vstd::utf8::valid_utf8;
use crate::bytes::{le32, from_le32, le64, from_le64, write_u32, write_u64, read_u32_at, read_u64_at, append_bytes, copy_range, lemma_le32_roundtrip, lemma_le64_roundtrip, lemma_i64_bits_roundtrip};
use crate::order::Order;
use crate::order::bytes_lt;
use crate::order::compare_bytes;
use crate::order::lemma_bytes_lt_total;
use crate::strings::string_from_utf8;
use crate::value::{Scalar, Value, StrMap, ScalarMap, ScalarModel, ValueModel, str_insert, scalar_insert, models, str_entry_models, scalar_entry_models, lemma_model_parts, str_keys_increasing, scalar_keys_increasing, lemma_str_insert_increasing, lemma_scalar_insert_increasing};

verus! {

/// On-disk / equality codec version byte.
pub const CODEC_VERSION: u8 = 1;

pub const TAG_NULL: u8 = 0x00;
pub const TAG_BOOL: u8 = 0x01;
pub const TAG_INT: u8 = 0x02;
pub const TAG_FLOAT: u8 = 0x03;
pub const TAG_STRING: u8 = 0x04;
pub const TAG_BYTES: u8 = 0x05;
pub const TAG_HASH: u8 = 0x10;
pub const TAG_SET: u8 = 0x11;
pub const TAG_LIST: u8 = 0x12;
pub const TAG_TREE: u8 = 0x13;

/// Why a buffer does not decode.
#[derive(Debug, Clone, Copy, PartialEq, Eq, Structural)]
pub enum CodecError {
    EmptyInput,
    UnsupportedVersion(u8),
    UnexpectedEof,
    UnknownTag(u8),
    InvalidUtf8,
    InvalidBool(u8),
    TrailingBytes,
    DuplicateSetMember,
}

// ---------------------------------------------------------------------------
// Encoding, as a function of the model

/// A string: byte length (u32 LE) then its UTF-8 bytes.
pub open spec fn enc_str(cs: Seq<char>) -> Seq<u8> {
    le32(encode_utf8(cs).len() as u32) + encode_utf8(cs)
}

pub open spec fn enc_scalar(s: ScalarModel) -> Seq<u8> {
    match s {
        ScalarModel::Null => seq![TAG_NULL],
        ScalarModel::Bool(b) => seq![TAG_BOOL, if b { 1u8 } else { 0u8 }],
        ScalarModel::Int(n) => seq![TAG_INT] + le64(n as u64),
        ScalarModel::Float(bits) => seq![TAG_FLOAT] + le64(bits),
        ScalarModel::Str(cs) => seq![TAG_STRING] + enc_str(cs),
        ScalarModel::Bytes(b) => seq![TAG_BYTES] + le32(b.len() as u32) + b,
    }
}

/// Canonical payload of a value (no version byte).
pub open spec fn enc_value(v: ValueModel) -> Seq<u8>
    decreases v,
{
    match v {
        ValueModel::Scalar(s) => enc_scalar(s),
        ValueModel::Hash(es) => seq![TAG_HASH] + le32(es.len() as u32) + enc_hash_entries(es),
        ValueModel::SetOf(ms) => seq![TAG_SET] + le32(set_payloads(ms).len() as u32) + concat(
            set_payloads(ms),
        ),
        ValueModel::List(vs) => seq![TAG_LIST] + le32(vs.len() as u32) + enc_values(vs),
        ValueModel::Tree(es) => seq![TAG_TREE] + le32(es.len() as u32) + enc_tree_entries(es),
    }
}

pub open spec fn enc_values(vs: Seq<ValueModel>) -> Seq<u8>
    decreases vs,
{
    if vs.len() == 0 {
        Seq::empty()
    } else {
        enc_values(vs.drop_last()) + enc_value(vs.last())
    }
}

pub open spec fn enc_hash_entries(es: Seq<(Seq<char>, ValueModel)>) -> Seq<u8>
    decreases es,
{
    if es.len() == 0 {
        Seq::empty()
    } else {
        enc_hash_entries(es.drop_last()) + enc_str(es.last().0) + enc_value(es.last().1)
    }
}

pub open spec fn enc_tree_entries(es: Seq<(ScalarModel, ValueModel)>) -> Seq<u8>
    decreases es,
{
    if es.len() == 0 {
        Seq::empty()
    } else {
        enc_tree_entries(es.drop_last()) + enc_scalar(es.last().0) + enc_value(es.last().1)
    }
}

/// The distinct payloads of the members, in increasing byte order.
pub open spec fn set_payloads(ms: Seq<ValueModel>) -> Seq<Seq<u8>>
    decreases ms,
{
    if ms.len() == 0 {
        Seq::empty()
    } else {
        insert_payload(set_payloads(ms.drop_last()), enc_value(ms.last()))
    }
}

/// Insert `p` into a strictly increasing list of byte strings, unless present.
pub open spec fn insert_payload(ps: Seq<Seq<u8>>, p: Seq<u8>) -> Seq<Seq<u8>>
    decreases ps.len(),
{
    if ps.len() == 0 {
        seq![p]
    } else if ps[0] == p {
        ps
    } else if bytes_lt(p, ps[0]) {
        seq![p] + ps
    } else {
        seq![ps[0]] + insert_payload(ps.drop_first(), p)
    }
}

pub open spec fn concat(ps: Seq<Seq<u8>>) -> Seq<u8>
    decreases ps.len(),
{
    if ps.len() == 0 {
        Seq::empty()
    } else {
        concat(ps.drop_last()) + ps.last()
    }
}

/// The full encoding: version byte, then payload.
pub open spec fn spec_encode(v: ValueModel) -> Seq<u8> {
    seq![CODEC_VERSION] + enc_value(v)
}

// ---------------------------------------------------------------------------
// Decoding, as a parser over byte strings: a result and the bytes consumed

pub open spec fn parse_str(s: Seq<u8>) -> Result<(Seq<char>, int), CodecError> {
    if s.len() < 4 {
        Err(CodecError::UnexpectedEof)
    } else {
        let n = from_le32(s.take(4)) as int;
        if s.len() - 4 < n {
            Err(CodecError::UnexpectedEof)
        } else if valid_utf8(s.subrange(4, 4 + n)) {
            Ok((decode_utf8(s.subrange(4, 4 + n)), 4 + n))
        } else {
            Err(CodecError::InvalidUtf8)
        }
    }
}

pub open spec fn parse_value(s: Seq<u8>) -> Result<(ValueModel, int), CodecError>
    decreases s.len(), 0int,
{
    if s.len() == 0 {
        Err(CodecError::UnexpectedEof)
    } else {
        let tag = s[0];
        let r = s.drop_first();
        if tag == TAG_NULL {
            Ok((ValueModel::Scalar(ScalarModel::Null), 1))
        } else if tag == TAG_BOOL {
            if r.len() < 1 {
                Err(CodecError::UnexpectedEof)
            } else if r[0] == 0 {
                Ok((ValueModel::Scalar(ScalarModel::Bool(false)), 2))
            } else if r[0] == 1 {
                Ok((ValueModel::Scalar(ScalarModel::Bool(true)), 2))
            } else {
                Err(CodecError::InvalidBool(r[0]))
            }
        } else if tag == TAG_INT {
            if r.len() < 8 {
                Err(CodecError::UnexpectedEof)
            } else {
                Ok((ValueModel::Scalar(ScalarModel::Int(from_le64(r.take(8)) as i64)), 9))
            }
        } else if tag == TAG_FLOAT {
            if r.len() < 8 {
                Err(CodecError::UnexpectedEof)
            } else {
                Ok((ValueModel::Scalar(ScalarModel::Float(from_le64(r.take(8)))), 9))
            }
        } else if tag == TAG_STRING {
            match parse_str(r) {
                Ok((cs, k)) => Ok((ValueModel::Scalar(ScalarModel::Str(cs)), 1 + k)),
                Err(e) => Err(e),
            }
        } else if tag == TAG_BYTES {
            if r.len() < 4 {
                Err(CodecError::UnexpectedEof)
            } else {
                let n = from_le32(r.take(4)) as int;
                if r.len() - 4 < n {
                    Err(CodecError::UnexpectedEof)
                } else {
                    Ok((ValueModel::Scalar(ScalarModel::Bytes(r.subrange(4, 4 + n))), 5 + n))
                }
            }
        } else if tag == TAG_HASH || tag == TAG_SET || tag == TAG_LIST || tag == TAG_TREE {
            if r.len() < 4 {
                Err(CodecError::UnexpectedEof)
            } else {
                let n = from_le32(r.take(4)) as nat;
                let body = r.skip(4);
                if tag == TAG_HASH {
                    match parse_hash_entries(body, n) {
                        Ok((es, k)) => Ok((ValueModel::Hash(build_hash(Seq::empty(), es)), 5 + k)),
                        Err(e) => Err(e),
                    }
                } else if tag == TAG_SET {
                    match parse_set_members(body, n, None) {
                        Ok((ms, k)) => Ok((ValueModel::SetOf(ms), 5 + k)),
                        Err(e) => Err(e),
                    }
                } else if tag == TAG_LIST {
                    match parse_values(body, n) {
                        Ok((vs, k)) => Ok((ValueModel::List(vs), 5 + k)),
                        Err(e) => Err(e),
                    }
                } else {
                    match parse_tree_entries(body, n) {
                        Ok((es, k)) => Ok((ValueModel::Tree(build_tree(Seq::empty(), es)), 5 + k)),
                        Err(e) => Err(e),
                    }
                }
            }
        } else {
            Err(CodecError::UnknownTag(tag))
        }
    }
}

/// `n` values in a row.
pub open spec fn parse_values(s: Seq<u8>, n: nat) -> Result<(Seq<ValueModel>, int), CodecError>
    decreases s.len(), n + 1,
{
    if n == 0 {
        Ok((Seq::empty(), 0))
    } else {
        match parse_value(s) {
            Err(e) => Err(e),
            Ok((v, k)) => if 0 <= k <= s.len() {
                match parse_values(s.skip(k), (n - 1) as nat) {
                    Err(e) => Err(e),
                    Ok((vs, k2)) => Ok((seq![v] + vs, k + k2)),
                }
            } else {
                Err(CodecError::UnexpectedEof)
            },
        }
    }
}

/// `n` members of a set, each strictly greater in payload order than the last.
pub open spec fn parse_set_members(s: Seq<u8>, n: nat, prev: Option<Seq<u8>>) -> Result<
    (Seq<ValueModel>, int),
    CodecError,
>
    decreases s.len(), n + 1,
{
    if n == 0 {
        Ok((Seq::empty(), 0))
    } else {
        match parse_value(s) {
            Err(e) => Err(e),
            Ok((v, k)) => if 0 <= k <= s.len() {
                let p = enc_value(v);
                if prev is Some && !bytes_lt(prev->0, p) {
                    Err(CodecError::DuplicateSetMember)
                } else {
                    match parse_set_members(s.skip(k), (n - 1) as nat, Some(p)) {
                        Err(e) => Err(e),
                        Ok((vs, k2)) => Ok((seq![v] + vs, k + k2)),
                    }
                }
            } else {
                Err(CodecError::UnexpectedEof)
            },
        }
    }
}

/// `n` (string key, value) entries in a row.
pub open spec fn parse_hash_entries(s: Seq<u8>, n: nat) -> Result<
    (Seq<(Seq<char>, ValueModel)>, int),
    CodecError,
>
    decreases s.len(), n + 1,
{
    if n == 0 {
        Ok((Seq::empty(), 0))
    } else {
        match parse_str(s) {
            Err(e) => Err(e),
            Ok((key, k1)) => if 0 <= k1 <= s.len() {
                match parse_value(s.skip(k1)) {
                    Err(e) => Err(e),
                    Ok((v, k2)) => if 0 <= k2 <= s.len() - k1 {
                        match parse_hash_entries(s.skip(k1 + k2), (n - 1) as nat) {
                            Err(e) => Err(e),
                            Ok((es, k3)) => Ok((seq![(key, v)] + es, k1 + k2 + k3)),
                        }
                    } else {
                        Err(CodecError::UnexpectedEof)
                    },
                }
            } else {
                Err(CodecError::UnexpectedEof)
            },
        }
    }
}

/// `n` (scalar key, value) entries in a row; a key must decode as a scalar.
pub open spec fn parse_tree_entries(s: Seq<u8>, n: nat) -> Result<
    (Seq<(ScalarModel, ValueModel)>, int),
    CodecError,
>
    decreases s.len(), n + 1,
{
    if n == 0 {
        Ok((Seq::empty(), 0))
    } else {
        match parse_value(s) {
            Err(e) => Err(e),
            Ok((kv, k1)) => if 0 <= k1 <= s.len() {
                match kv {
                    ValueModel::Scalar(key) => match parse_value(s.skip(k1)) {
                        Err(e) => Err(e),
                        Ok((v, k2)) => if 0 <= k2 <= s.len() - k1 {
                            match parse_tree_entries(s.skip(k1 + k2), (n - 1) as nat) {
                                Err(e) => Err(e),
                                Ok((es, k3)) => Ok((seq![(key, v)] + es, k1 + k2 + k3)),
                            }
                        } else {
                            Err(CodecError::UnexpectedEof)
                        },
                    },
                    _ => Err(CodecError::UnknownTag(0xff)),
                }
            } else {
                Err(CodecError::UnexpectedEof)
            },
        }
    }
}

/// The map obtained by inserting the entries, in order, into `acc`.
pub open spec fn build_hash(acc: Seq<(Seq<char>, ValueModel)>, es: Seq<(Seq<char>, ValueModel)>) -> Seq<
    (Seq<char>, ValueModel),
>
    decreases es.len(),
{
    if es.len() == 0 {
        acc
    } else {
        build_hash(str_insert(acc, es[0].0, es[0].1), es.drop_first())
    }
}

/// The ordered map obtained by inserting the entries, in order, into `acc`.
pub open spec fn build_tree(acc: Seq<(ScalarModel, ValueModel)>, es: Seq<(ScalarModel, ValueModel)>) -> Seq<
    (ScalarModel, ValueModel),
>
    decreases es.len(),
{
    if es.len() == 0 {
        acc
    } else {
        build_tree(scalar_insert(acc, es[0].0, es[0].1), es.drop_first())
    }
}

/// What `decode` returns for a buffer.
pub open spec fn spec_decode(b: Seq<u8>) -> Result<ValueModel, CodecError> {
    if b.len() == 0 {
        Err(CodecError::EmptyInput)
    } else if b[0] != CODEC_VERSION {
        Err(CodecError::UnsupportedVersion(b[0]))
    } else {
        match parse_value(b.drop_first()) {
            Err(e) => Err(e),
            Ok((v, k)) => if k == b.len() - 1 {
                Ok(v)
            } else {
                Err(CodecError::TrailingBytes)
            },
        }
    }
}


// ---------------------------------------------------------------------------
// Encoder

/// Byte-string views of a sequence of buffers.
pub open spec fn views(ps: Seq<Vec<u8>>) -> Seq<Seq<u8>> {
    Seq::new(ps.len(), |i: int| ps[i]@)
}

fn write_str(out: &mut Vec<u8>, s: &str)
    ensures
        final(out)@ == old(out)@ + enc_str(s@),
{
    let b = s.as_bytes();
    write_u32(out, b.len() as u32);
    append_bytes(out, b);
    assert(final(out)@ =~= old(out)@ + enc_str(s@));
}

fn encode_scalar(s: &Scalar, out: &mut Vec<u8>)
    ensures
        final(out)@ == old(out)@ + enc_scalar(s.model()),
{
    match s {
        Scalar::Null => {
            out.push(TAG_NULL);
            assert(out@ =~= old(out)@ + enc_scalar(s.model()));
        },
        Scalar::Bool(b) => {
            out.push(TAG_BOOL);
            out.push(if *b { 1u8 } else { 0u8 });
            assert(out@ =~= old(out)@ + enc_scalar(s.model()));
        },
        Scalar::Int(n) => {
            out.push(TAG_INT);
            write_u64(out, *n as u64);
            assert(out@ =~= old(out)@ + enc_scalar(s.model()));
        },
        Scalar::Float(bits) => {
            out.push(TAG_FLOAT);
            write_u64(out, *bits);
            assert(out@ =~= old(out)@ + enc_scalar(s.model()));
        },
        Scalar::String(st) => {
            out.push(TAG_STRING);
            write_str(out, st.as_str());
            assert(out@ =~= old(out)@ + enc_scalar(s.model()));
        },
        Scalar::Bytes(b) => {
            out.push(TAG_BYTES);
            write_u32(out, b.len() as u32);
            append_bytes(out, b.as_slice());
            assert(out@ =~= old(out)@ + enc_scalar(s.model()));
        },
    }
}

pub proof fn lemma_insert_payload_at(ps: Seq<Seq<u8>>, p: Seq<u8>, i: int)
    requires
        0 <= i <= ps.len(),
        forall|j: int| 0 <= j < i ==> bytes_lt(#[trigger] ps[j], p),
        i < ps.len() ==> !bytes_lt(ps[i], p),
    ensures
        insert_payload(ps, p) == if i < ps.len() && ps[i] == p {
            ps
        } else {
            ps.take(i) + seq![p] + ps.skip(i)
        },
    decreases i,
{
    if i == 0 {
        if ps.len() > 0 {
            lemma_bytes_lt_total(p, ps[0]);
        }
        assert(ps.take(0) + seq![p] + ps.skip(0) =~= seq![p] + ps);
    } else {
        lemma_bytes_lt_total(ps[0], p);
        crate::order::lemma_bytes_lt_irreflexive(p);
        crate::order::lemma_bytes_lt_asymmetric(ps[0], p);
        let t = ps.drop_first();
        assert forall|j: int| 0 <= j < i - 1 implies bytes_lt(#[trigger] t[j], p) by {
            assert(t[j] == ps[j + 1]);
        }
        lemma_insert_payload_at(t, p, i - 1);
        if i < ps.len() && ps[i] == p {
            assert(seq![ps[0]] + t =~= ps);
        } else {
            assert(ps.take(i) + seq![p] + ps.skip(i) =~= seq![ps[0]] + (t.take(i - 1) + seq![p]
                + t.skip(i - 1)));
        }
    }
}

/// Insert `p` into a strictly increasing list of buffers, unless present.
fn insert_payload_exec(ps: &mut Vec<Vec<u8>>, p: Vec<u8>)
    ensures
        views(final(ps)@) == insert_payload(views(old(ps)@), p@),
{
    let ghost old_v = views(ps@);
    let mut i: usize = 0;
    while i < ps.len() && compare_bytes(ps[i].as_slice(), p.as_slice()) == Order::Less
        invariant
            i <= ps@.len(),
            views(ps@) == old_v,
            forall|j: int| 0 <= j < i ==> bytes_lt(#[trigger] old_v[j], p@),
        decreases ps@.len() - i,
    {
        i = i + 1;
    }
    proof {
        lemma_insert_payload_at(old_v, p@, i as int);
    }
    if i < ps.len() && compare_bytes(ps[i].as_slice(), p.as_slice()) == Order::Equal {
        return;
    }
    let ghost pv = p@;
    ps.insert(i, p);
    assert(views(ps@) =~= old_v.take(i as int) + seq![pv] + old_v.skip(i as int));
}

/// Append the payload of `v`.
fn encode_value(v: &Value, out: &mut Vec<u8>)
    ensures
        final(out)@ == old(out)@ + enc_value(v.model()),
    decreases v,
{
    proof {
        lemma_model_parts(*v);
    }
    match v {
        Value::Scalar(s) => encode_scalar(s, out),
        Value::Hash(m) => {
            out.push(TAG_HASH);
            write_u32(out, m.entries.len() as u32);
            encode_hash_entries(&m.entries, out);
            assert(out@ =~= old(out)@ + enc_value(v.model()));
        },
        Value::SetOf(ms) => {
            let payloads = sorted_payloads(ms);
            out.push(TAG_SET);
            write_u32(out, payloads.len() as u32);
            let mut j: usize = 0;
            let ghost start = out@;
            while j < payloads.len()
                invariant
                    j <= payloads@.len(),
                    out@ == start + concat(views(payloads@).take(j as int)),
                decreases payloads@.len() - j,
            {
                assert(views(payloads@).take(j + 1).drop_last() =~= views(payloads@).take(
                    j as int,
                ));
                append_bytes(out, payloads[j].as_slice());
                j = j + 1;
            }
            assert(views(payloads@).take(j as int) =~= views(payloads@));
            assert(out@ =~= old(out)@ + enc_value(v.model()));
        },
        Value::List(vs) => {
            out.push(TAG_LIST);
            write_u32(out, vs.len() as u32);
            encode_values(vs, out);
            assert(out@ =~= old(out)@ + enc_value(v.model()));
        },
        Value::Tree(m) => {
            out.push(TAG_TREE);
            write_u32(out, m.entries.len() as u32);
            encode_tree_entries(&m.entries, out);
            assert(out@ =~= old(out)@ + enc_value(v.model()));
        },
    }
}

/// The distinct payloads of the members in increasing order.
fn sorted_payloads(ms: &Vec<Value>) -> (r: Vec<Vec<u8>>)
    ensures
        views(r@) == set_payloads(models(ms@)),
    decreases ms,
{
    let mut ps: Vec<Vec<u8>> = Vec::new();
    let mut i: usize = 0;
    assert(views(ps@) =~= set_payloads(models(ms@).take(0)));
    while i < ms.len()
        invariant
            i <= ms@.len(),
            views(ps@) == set_payloads(models(ms@).take(i as int)),
        decreases ms@.len() - i,
    {
        assert(decreases_to!(ms => ms@[i as int]));
        let mut p: Vec<u8> = Vec::new();
        encode_value(&ms[i], &mut p);
        assert(p@ =~= enc_value(ms@[i as int].model()));
        insert_payload_exec(&mut ps, p);
        assert(models(ms@).take(i + 1).drop_last() =~= models(ms@).take(i as int));
        i = i + 1;
    }
    assert(models(ms@).take(i as int) =~= models(ms@));
    ps
}

fn encode_values(vs: &Vec<Value>, out: &mut Vec<u8>)
    ensures
        final(out)@ == old(out)@ + enc_values(models(vs@)),
    decreases vs,
{
    let mut i: usize = 0;
    while i < vs.len()
        invariant
            i <= vs@.len(),
            out@ == old(out)@ + enc_values(models(vs@).take(i as int)),
        decreases vs@.len() - i,
    {
        assert(decreases_to!(vs => vs@[i as int]));
        encode_value(&vs[i], out);
        assert(models(vs@).take(i + 1).drop_last() =~= models(vs@).take(i as int));
        i = i + 1;
    }
    assert(models(vs@).take(i as int) =~= models(vs@));
}

fn encode_hash_entries(es: &Vec<(String, Value)>, out: &mut Vec<u8>)
    ensures
        final(out)@ == old(out)@ + enc_hash_entries(str_entry_models(es@)),
    decreases es,
{
    let mut i: usize = 0;
    while i < es.len()
        invariant
            i <= es@.len(),
            out@ == old(out)@ + enc_hash_entries(str_entry_models(es@).take(i as int)),
        decreases es@.len() - i,
    {
        proof {
            let e = es@[i as int];
            assert(decreases_to!(es => es@[i as int]));
            assert(decreases_to!(e => e.1));
        }
        write_str(out, es[i].0.as_str());
        encode_value(&es[i].1, out);
        assert(str_entry_models(es@).take(i + 1).drop_last() =~= str_entry_models(es@).take(
            i as int,
        ));
        i = i + 1;
    }
    assert(str_entry_models(es@).take(i as int) =~= str_entry_models(es@));
}

fn encode_tree_entries(es: &Vec<(Scalar, Value)>, out: &mut Vec<u8>)
    ensures
        final(out)@ == old(out)@ + enc_tree_entries(scalar_entry_models(es@)),
    decreases es,
{
    let mut i: usize = 0;
    while i < es.len()
        invariant
            i <= es@.len(),
            out@ == old(out)@ + enc_tree_entries(scalar_entry_models(es@).take(i as int)),
        decreases es@.len() - i,
    {
        proof {
            let e = es@[i as int];
            assert(decreases_to!(es => es@[i as int]));
            assert(decreases_to!(e => e.1));
        }
        encode_scalar(&es[i].0, out);
        encode_value(&es[i].1, out);
        assert(scalar_entry_models(es@).take(i + 1).drop_last() =~= scalar_entry_models(es@).take(
            i as int,
        ));
        i = i + 1;
    }
    assert(scalar_entry_models(es@).take(i as int) =~= scalar_entry_models(es@));
}

/// Encode `value` to canonical bytes (version byte + payload).
pub fn encode(value: &Value) -> (r: Vec<u8>)
    ensures
        r@ == spec_encode(value.model()),
{
    let mut out: Vec<u8> = Vec::new();
    out.push(CODEC_VERSION);
    encode_value(value, &mut out);
    assert(out@ =~= spec_encode(value.model()));
    out
}

/// Canonical payload only (no version byte); sets are ordered by it.
pub fn encode_payload(value: &Value) -> (r: Vec<u8>)
    ensures
        r@ == enc_value(value.model()),
{
    let mut out: Vec<u8> = Vec::new();
    encode_value(value, &mut out);
    assert(out@ =~= enc_value(value.model()));
    out
}

// ---------------------------------------------------------------------------
// Decoder

/// Prefix a parse result with already-parsed items and consumed bytes.
pub open spec fn shifted<X>(prefix: Seq<X>, off: int, r: Result<(Seq<X>, int), CodecError>) -> Result<
    (Seq<X>, int),
    CodecError,
> {
    match r {
        Ok((xs, k)) => Ok((prefix + xs, off + k)),
        Err(e) => Err(e),
    }
}

pub proof fn lemma_build_hash_push(
    acc: Seq<(Seq<char>, ValueModel)>,
    es: Seq<(Seq<char>, ValueModel)>,
    e: (Seq<char>, ValueModel),
)
    ensures
        build_hash(acc, es.push(e)) == str_insert(build_hash(acc, es), e.0, e.1),
    decreases es.len(),
{
    let t = es.push(e);
    if es.len() > 0 {
        assert(t[0] == es[0]);
        assert(t.drop_first() =~= es.drop_first().push(e));
        assert(build_hash(acc, t) == build_hash(str_insert(acc, t[0].0, t[0].1), t.drop_first()));
        lemma_build_hash_push(str_insert(acc, es[0].0, es[0].1), es.drop_first(), e);
    } else {
        assert(t[0] == e);
        assert(t.drop_first() =~= es);
        assert(build_hash(acc, t) == build_hash(str_insert(acc, t[0].0, t[0].1), t.drop_first()));
    }
}

pub proof fn lemma_build_tree_push(
    acc: Seq<(ScalarModel, ValueModel)>,
    es: Seq<(ScalarModel, ValueModel)>,
    e: (ScalarModel, ValueModel),
)
    ensures
        build_tree(acc, es.push(e)) == scalar_insert(build_tree(acc, es), e.0, e.1),
    decreases es.len(),
{
    let t = es.push(e);
    if es.len() > 0 {
        assert(t[0] == es[0]);
        assert(t.drop_first() =~= es.drop_first().push(e));
        assert(build_tree(acc, t) == build_tree(scalar_insert(acc, t[0].0, t[0].1), t.drop_first()));
        lemma_build_tree_push(scalar_insert(acc, es[0].0, es[0].1), es.drop_first(), e);
    } else {
        assert(t[0] == e);
        assert(t.drop_first() =~= es);
        assert(build_tree(acc, t) == build_tree(scalar_insert(acc, t[0].0, t[0].1), t.drop_first()));
    }
}

pub proof fn lemma_shifted_compose<X>(
    a: Seq<X>,
    o1: int,
    b: Seq<X>,
    o2: int,
    r: Result<(Seq<X>, int), CodecError>,
)
    ensures
        shifted(a, o1, shifted(b, o2, r)) == shifted(a + b, o1 + o2, r),
{
    match r {
        Ok((xs, k)) => {
            assert(a + (b + xs) =~= (a + b) + xs);
        },
        Err(_) => {},
    }
}

/// Read a length-prefixed UTF-8 string at `pos`.
fn read_str(buf: &[u8], pos: usize) -> (r: Result<(String, usize), CodecError>)
    requires
        pos <= buf@.len(),
    ensures
        match parse_str(buf@.skip(pos as int)) {
            Ok((cs, k)) => r matches Ok((st, p)) && st@ == cs && p == pos + k && p <= buf@.len(),
            Err(e) => r == Err::<(String, usize), CodecError>(e),
        },
{
    let ghost s = buf@.skip(pos as int);
    if buf.len() - pos < 4 {
        return Err(CodecError::UnexpectedEof);
    }
    let n = read_u32_at(buf, pos) as usize;
    assert(buf@.subrange(pos as int, pos + 4) =~= s.take(4));
    if buf.len() - pos - 4 < n {
        return Err(CodecError::UnexpectedEof);
    }
    let bytes = vstd::slice::slice_subrange(buf, pos + 4, pos + 4 + n);
    assert(bytes@ =~= s.subrange(4, 4 + n as int));
    match string_from_utf8(bytes) {
        Some(st) => Ok((st, pos + 4 + n)),
        None => Err(CodecError::InvalidUtf8),
    }
}

/// Decode one value starting at `pos`; returns the value and the position after it.
fn decode_value(buf: &[u8], pos: usize) -> (r: Result<(Value, usize), CodecError>)
    requires
        pos <= buf@.len(),
    ensures
        match parse_value(buf@.skip(pos as int)) {
            Ok((m, k)) => r matches Ok((v, p)) && v.model() == m && p == pos + k && pos < p
                <= buf@.len(),
            Err(e) => r == Err::<(Value, usize), CodecError>(e),
        },
    decreases buf@.len() - pos, 0nat,
{
    let ghost s = buf@.skip(pos as int);
    if pos >= buf.len() {
        return Err(CodecError::UnexpectedEof);
    }
    let tag = buf[pos];
    let ghost r = s.drop_first();
    assert(s[0] == tag);
    assert(r =~= buf@.skip(pos + 1));
    let rest = buf.len() - pos - 1;
    if tag == TAG_NULL {
        Ok((Value::null(), pos + 1))
    } else if tag == TAG_BOOL {
        if rest < 1 {
            return Err(CodecError::UnexpectedEof);
        }
        let b = buf[pos + 1];
        if b == 0 {
            Ok((Value::bool(false), pos + 2))
        } else if b == 1 {
            Ok((Value::bool(true), pos + 2))
        } else {
            Err(CodecError::InvalidBool(b))
        }
    } else if tag == TAG_INT || tag == TAG_FLOAT {
        if rest < 8 {
            return Err(CodecError::UnexpectedEof);
        }
        let bits = read_u64_at(buf, pos + 1);
        assert(buf@.subrange(pos + 1, pos + 9) =~= r.take(8));
        if tag == TAG_INT {
            Ok((Value::integer(bits as i64), pos + 9))
        } else {
            Ok((Value::Scalar(Scalar::Float(bits)), pos + 9))
        }
    } else if tag == TAG_STRING {
        match read_str(buf, pos + 1) {
            Ok((st, p)) => Ok((Value::Scalar(Scalar::String(st)), p)),
            Err(e) => Err(e),
        }
    } else if tag == TAG_BYTES {
        if rest < 4 {
            return Err(CodecError::UnexpectedEof);
        }
        let n = read_u32_at(buf, pos + 1) as usize;
        assert(buf@.subrange(pos + 1, pos + 5) =~= r.take(4));
        if rest - 4 < n {
            return Err(CodecError::UnexpectedEof);
        }
        let data = copy_range(buf, pos + 5, pos + 5 + n);
        assert(data@ =~= r.subrange(4, 4 + n as int));
        Ok((Value::bytes(data), pos + 5 + n))
    } else if tag == TAG_HASH || tag == TAG_SET || tag == TAG_LIST || tag == TAG_TREE {
        if rest < 4 {
            return Err(CodecError::UnexpectedEof);
        }
        let n = read_u32_at(buf, pos + 1);
        assert(buf@.subrange(pos + 1, pos + 5) =~= r.take(4));
        assert(r.skip(4) =~= buf@.skip(pos + 5));
        if tag == TAG_HASH {
            match decode_hash_entries(buf, pos + 5, n) {
                Ok((m, p)) => {
                    let v = Value::Hash(m);
                    proof {
                        lemma_model_parts(v);
                    }
                    Ok((v, p))
                },
                Err(e) => Err(e),
            }
        } else if tag == TAG_SET {
            match decode_set_members(buf, pos + 5, n) {
                Ok((ms, p)) => {
                    let v = Value::SetOf(ms);
                    proof {
                        lemma_model_parts(v);
                    }
                    Ok((v, p))
                },
                Err(e) => Err(e),
            }
        } else if tag == TAG_LIST {
            match decode_values(buf, pos + 5, n) {
                Ok((vs, p)) => {
                    let v = Value::List(vs);
                    proof {
                        lemma_model_parts(v);
                    }
                    Ok((v, p))
                },
                Err(e) => Err(e),
            }
        } else {
            match decode_tree_entries(buf, pos + 5, n) {
                Ok((m, p)) => {
                    let v = Value::Tree(m);
                    proof {
                        lemma_model_parts(v);
                    }
                    Ok((v, p))
                },
                Err(e) => Err(e),
            }
        }
    } else {
        Err(CodecError::UnknownTag(tag))
    }
}

fn decode_values(buf: &[u8], pos: usize, n: u32) -> (r: Result<(Vec<Value>, usize), CodecError>)
    requires
        pos <= buf@.len(),
    ensures
        match parse_values(buf@.skip(pos as int), n as nat) {
            Ok((ms, k)) => r matches Ok((vs, p)) && models(vs@) == ms && p == pos + k && pos <= p
                <= buf@.len(),
            Err(e) => r == Err::<(Vec<Value>, usize), CodecError>(e),
        },
    decreases buf@.len() - pos, 1nat,
{
    let mut items: Vec<Value> = Vec::new();
    let mut cur = pos;
    let mut i: u32 = 0;
    assert(models(items@) =~= Seq::<ValueModel>::empty());
    while i < n
        invariant
            pos <= cur <= buf@.len(),
            i <= n,
            parse_values(buf@.skip(pos as int), n as nat) == shifted(
                models(items@),
                cur - pos,
                parse_values(buf@.skip(cur as int), (n - i) as nat),
            ),
        decreases n - i,
    {
        let ghost t = buf@.skip(cur as int);
        match decode_value(buf, cur) {
            Ok((v, p)) => {
                assert(t.skip(p - cur) =~= buf@.skip(p as int));
                let ghost old_items = models(items@);
                assert(parse_values(t, (n - i) as nat) == shifted(
                    seq![v.model()],
                    p - cur,
                    parse_values(buf@.skip(p as int), (n - i - 1) as nat),
                ));
                proof {
                    lemma_shifted_compose(
                        old_items,
                        cur - pos,
                        seq![v.model()],
                        p - cur,
                        parse_values(buf@.skip(p as int), (n - i - 1) as nat),
                    );
                }
                items.push(v);
                assert(models(items@) =~= old_items + seq![v.model()]);
                cur = p;
            },
            Err(e) => {
                return Err(e);
            },
        }
        i = i + 1;
    }
    assert(models(items@) + Seq::<ValueModel>::empty() =~= models(items@));
    Ok((items, cur))
}

fn decode_set_members(buf: &[u8], pos: usize, n: u32) -> (r: Result<(Vec<Value>, usize), CodecError>)
    requires
        pos <= buf@.len(),
    ensures
        match parse_set_members(buf@.skip(pos as int), n as nat, None) {
            Ok((ms, k)) => r matches Ok((vs, p)) && models(vs@) == ms && p == pos + k && pos <= p
                <= buf@.len(),
            Err(e) => r == Err::<(Vec<Value>, usize), CodecError>(e),
        },
    decreases buf@.len() - pos, 1nat,
{
    let mut items: Vec<Value> = Vec::new();
    let mut cur = pos;
    let mut i: u32 = 0;
    let mut last: Option<Vec<u8>> = None;
    assert(models(items@) =~= Seq::<ValueModel>::empty());
    while i < n
        invariant
            pos <= cur <= buf@.len(),
            i <= n,
            parse_set_members(buf@.skip(pos as int), n as nat, None) == shifted(
                models(items@),
                cur - pos,
                parse_set_members(
                    buf@.skip(cur as int),
                    (n - i) as nat,
                    match last {
                        Some(b) => Some(b@),
                        None => None,
                    },
                ),
            ),
        decreases n - i,
    {
        let ghost t = buf@.skip(cur as int);
        match decode_value(buf, cur) {
            Ok((v, p)) => {
                let payload = encode_payload(&v);
                match &last {
                    Some(prev) => {
                        if compare_bytes(prev.as_slice(), payload.as_slice()) != Order::Less {
                            return Err(CodecError::DuplicateSetMember);
                        }
                    },
                    None => {},
                }
                assert(t.skip(p - cur) =~= buf@.skip(p as int));
                let ghost old_items = models(items@);
                let ghost prevv = match last {
                    Some(b) => Some(b@),
                    None => None::<Seq<u8>>,
                };
                assert(parse_set_members(t, (n - i) as nat, prevv) == shifted(
                    seq![v.model()],
                    p - cur,
                    parse_set_members(buf@.skip(p as int), (n - i - 1) as nat, Some(payload@)),
                ));
                proof {
                    lemma_shifted_compose(
                        old_items,
                        cur - pos,
                        seq![v.model()],
                        p - cur,
                        parse_set_members(buf@.skip(p as int), (n - i - 1) as nat, Some(payload@)),
                    );
                }
                items.push(v);
                assert(models(items@) =~= old_items + seq![v.model()]);
                last = Some(payload);
                cur = p;
            },
            Err(e) => {
                return Err(e);
            },
        }
        i = i + 1;
    }
    assert(models(items@) + Seq::<ValueModel>::empty() =~= models(items@));
    Ok((items, cur))
}

fn decode_hash_entries(buf: &[u8], pos: usize, n: u32) -> (r: Result<(StrMap, usize), CodecError>)
    requires
        pos <= buf@.len(),
    ensures
        match parse_hash_entries(buf@.skip(pos as int), n as nat) {
            Ok((es, k)) => r matches Ok((m, p)) && m@ == build_hash(Seq::empty(), es) && p == pos
                + k && pos <= p <= buf@.len(),
            Err(e) => r == Err::<(StrMap, usize), CodecError>(e),
        },
    decreases buf@.len() - pos, 1nat,
{
    let mut map = StrMap::new();
    let ghost mut seen: Seq<(Seq<char>, ValueModel)> = Seq::empty();
    let mut cur = pos;
    let mut i: u32 = 0;
    while i < n
        invariant
            pos <= cur <= buf@.len(),
            i <= n,
            parse_hash_entries(buf@.skip(pos as int), n as nat) == shifted(
                seen,
                cur - pos,
                parse_hash_entries(buf@.skip(cur as int), (n - i) as nat),
            ),
            map@ == build_hash(Seq::empty(), seen),
        decreases n - i,
    {
        let ghost t = buf@.skip(cur as int);
        let (key, p1) = match read_str(buf, cur) {
            Ok(x) => x,
            Err(e) => {
                return Err(e);
            },
        };
        assert(t.skip(p1 - cur) =~= buf@.skip(p1 as int));
        let (v, p2) = match decode_value(buf, p1) {
            Ok(x) => x,
            Err(e) => {
                return Err(e);
            },
        };
        assert(t.skip(p2 - cur) =~= buf@.skip(p2 as int));
        assert(t.skip(p1 - cur).skip(p2 - p1) =~= buf@.skip(p2 as int));
        assert(parse_hash_entries(t, (n - i) as nat) == shifted(
            seq![(key@, v.model())],
            p2 - cur,
            parse_hash_entries(buf@.skip(p2 as int), (n - i - 1) as nat),
        ));
        proof {
            lemma_shifted_compose(
                seen,
                cur - pos,
                seq![(key@, v.model())],
                p2 - cur,
                parse_hash_entries(buf@.skip(p2 as int), (n - i - 1) as nat),
            );
            lemma_build_hash_push(Seq::empty(), seen, (key@, v.model()));
            assert(seen + seq![(key@, v.model())] =~= seen.push((key@, v.model())));
            seen = seen.push((key@, v.model()));
        }
        map.insert(key, v);
        cur = p2;
        i = i + 1;
    }
    assert(seen + Seq::<(Seq<char>, ValueModel)>::empty() =~= seen);
    Ok((map, cur))
}

fn decode_tree_entries(buf: &[u8], pos: usize, n: u32) -> (r: Result<(ScalarMap, usize), CodecError>)
    requires
        pos <= buf@.len(),
    ensures
        match parse_tree_entries(buf@.skip(pos as int), n as nat) {
            Ok((es, k)) => r matches Ok((m, p)) && m@ == build_tree(Seq::empty(), es) && p == pos
                + k && pos <= p <= buf@.len(),
            Err(e) => r == Err::<(ScalarMap, usize), CodecError>(e),
        },
    decreases buf@.len() - pos, 1nat,
{
    let mut map = ScalarMap::new();
    let ghost mut seen: Seq<(ScalarModel, ValueModel)> = Seq::empty();
    let mut cur = pos;
    let mut i: u32 = 0;
    while i < n
        invariant
            pos <= cur <= buf@.len(),
            i <= n,
            parse_tree_entries(buf@.skip(pos as int), n as nat) == shifted(
                seen,
                cur - pos,
                parse_tree_entries(buf@.skip(cur as int), (n - i) as nat),
            ),
            map@ == build_tree(Seq::empty(), seen),
        decreases n - i,
    {
        let ghost t = buf@.skip(cur as int);
        let (kv, p1) = match decode_value(buf, cur) {
            Ok(x) => x,
            Err(e) => {
                return Err(e);
            },
        };
        let key = match kv {
            Value::Scalar(sc) => sc,
            _ => {
                return Err(CodecError::UnknownTag(0xff));
            },
        };
        assert(t.skip(p1 - cur) =~= buf@.skip(p1 as int));
        let (v, p2) = match decode_value(buf, p1) {
            Ok(x) => x,
            Err(e) => {
                return Err(e);
            },
        };
        assert(t.skip(p2 - cur) =~= buf@.skip(p2 as int));
        assert(t.skip(p1 - cur).skip(p2 - p1) =~= buf@.skip(p2 as int));
        assert(parse_tree_entries(t, (n - i) as nat) == shifted(
            seq![(key.model(), v.model())],
            p2 - cur,
            parse_tree_entries(buf@.skip(p2 as int), (n - i - 1) as nat),
        ));
        proof {
            lemma_shifted_compose(
                seen,
                cur - pos,
                seq![(key.model(), v.model())],
                p2 - cur,
                parse_tree_entries(buf@.skip(p2 as int), (n - i - 1) as nat),
            );
            lemma_build_tree_push(Seq::empty(), seen, (key.model(), v.model()));
            assert(seen + seq![(key.model(), v.model())] =~= seen.push((key.model(), v.model())));
            seen = seen.push((key.model(), v.model()));
        }
        map.insert(key, v);
        cur = p2;
        i = i + 1;
    }
    assert(seen + Seq::<(ScalarModel, ValueModel)>::empty() =~= seen);
    Ok((map, cur))
}

/// Decode a full buffer produced by [`encode`].
pub fn decode(bytes: &[u8]) -> (r: Result<Value, CodecError>)
    ensures
        match spec_decode(bytes@) {
            Ok(m) => r matches Ok(v) && v.model() == m,
            Err(e) => r == Err::<Value, CodecError>(e),
        },
{
    if bytes.len() == 0 {
        return Err(CodecError::EmptyInput);
    }
    let version = bytes[0];
    if version != CODEC_VERSION {
        return Err(CodecError::UnsupportedVersion(version));
    }
    assert(bytes@.drop_first() =~= bytes@.skip(1));
    match decode_value(bytes, 1) {
        Ok((v, p)) => {
            if p != bytes.len() {
                return Err(CodecError::TrailingBytes);
            }
            Ok(v)
        },
        Err(e) => Err(e),
    }
}
} // verus!
