//! How the namespace shows as a file system: scalars are files holding
//! their text, directories and structures are directories, and the members
//! of structures are their entries.

use vstd::prelude::*;
use std::hash::Hash;
use std::hash::Hasher;
use vstd::utf8::{encode_utf8, decode_utf8, valid_utf8};
use crate::codec::{encode_payload, enc_value};
use crate::db::{str_bytes, Database, EntryKind, Kv, spec_get, spec_list, listing_model, spec_mkdir, spec_set, spec_delete};
use crate::path::{DbPath, spec_parse_path, valid_segment, PathErr};
use crate::storage::Storage;
use crate::errors::{NsError, NsErr};
use crate::errors::text;
use crate::bytes::copy_range;
use crate::export::{FloatBits, FloatTexts, bits_model, texts_model, bits_for, i64_text, all_digits, lookup_bits, lookup_text, fallback_text, parse_i64_str};
use crate::fmt::{decimal, decimal_i, hex2, push_decimal, push_hex2, i64_to_string, u64_to_string};
use crate::json::{is_digit, digits_value};
use crate::order::{Order, compare_str};
use crate::server::{float_display, display_of};
use crate::strings::{chars_of, string_from_utf8, trim_ws, trim_str, trim_start_ws, trim_end_ws, is_space};
use crate::value::{
    Scalar, ScalarModel, Value, ValueModel, str_lookup, scalar_lookup, str_remove, scalar_remove,
    value_type_label, lemma_model_parts, models, str_insert, StrMap,
};

verus! {

/// What a node shows as.
#[derive(Debug, Clone, Copy, PartialEq, Eq, Structural)]
pub enum NodeKind {
    Directory,
    RegularFile,
}

// ---------------------------------------------------------------------------
// Scalars as file contents

/// The bytes a scalar file holds: the scalar's text, or its bytes.
pub open spec fn scalar_file_bytes(s: ScalarModel, t: Seq<(u64, Seq<char>)>) -> Seq<u8> {
    match s {
        ScalarModel::Null => encode_utf8("null"@),
        ScalarModel::Bool(b) => if b {
            encode_utf8("true"@)
        } else {
            encode_utf8("false"@)
        },
        ScalarModel::Int(n) => encode_utf8(decimal_i(n as int)),
        ScalarModel::Float(bits) => encode_utf8(float_display(t, bits)),
        ScalarModel::Str(s) => encode_utf8(s),
        ScalarModel::Bytes(b) => b,
    }
}

/// The contents of the file a scalar shows as; floats take their text from
/// `floats`.
pub fn scalar_bytes(s: &Scalar, floats: &FloatTexts) -> (r: Vec<u8>)
    ensures
        r@ == scalar_file_bytes(s.model(), texts_model(floats@)),
{
    match s {
        Scalar::Null => str_bytes("null"),
        Scalar::Bool(b) => if *b {
            str_bytes("true")
        } else {
            str_bytes("false")
        },
        Scalar::Int(n) => str_bytes(i64_to_string(*n).as_str()),
        Scalar::Float(bits) => {
            let t = match lookup_text(floats, *bits) {
                Some(x) => x,
                None => fallback_text(*bits),
            };
            str_bytes(t.as_str())
        },
        Scalar::String(x) => str_bytes(x.as_str()),
        Scalar::Bytes(b) => vstd::slice::slice_to_vec(b.as_slice()),
    }
}

/// The scalar that text written over a scalar file stands for: the written
/// bytes keep the existing scalar's type. Integers, floats, booleans and
/// null are read from the trimmed text; `None` where the text does not
/// fit the type.
pub open spec fn scalar_from_text(existing: ScalarModel, data: Seq<u8>, b: Seq<(Seq<char>, u64)>) -> Option<ScalarModel> {
    let t = trim_ws(decode_utf8(data));
    match existing {
        ScalarModel::Bytes(_) => Some(ScalarModel::Bytes(data)),
        _ => if !valid_utf8(data) {
            None
        } else {
            match existing {
                ScalarModel::Str(_) => Some(ScalarModel::Str(decode_utf8(data))),
                ScalarModel::Int(_) => match i64_text(t) {
                    Some(n) => Some(ScalarModel::Int(n)),
                    None => None,
                },
                ScalarModel::Float(_) => match bits_for(b, t) {
                    Some(bits) => Some(ScalarModel::Float(bits)),
                    None => None,
                },
                ScalarModel::Bool(_) => if t == "true"@ || t == "1"@ {
                    Some(ScalarModel::Bool(true))
                } else if t == "false"@ || t == "0"@ {
                    Some(ScalarModel::Bool(false))
                } else {
                    None
                },
                _ => if t == "null"@ || t.len() == 0 {
                    Some(ScalarModel::Null)
                } else {
                    None
                },
            }
        },
    }
}

/// Writing text over a scalar's file never changes its type: what the
/// text reads as is a scalar of the type that was there.
pub proof fn lemma_scalar_text_keeps_type(existing: ScalarModel, data: Seq<u8>, b: Seq<(Seq<char>, u64)>)
    ensures
        scalar_from_text(existing, data, b) matches Some(s) ==> crate::value::value_type_label(ValueModel::Scalar(s))
            == crate::value::value_type_label(ValueModel::Scalar(existing)),
{
}

fn str_is(a: &str, b: &str) -> (r: bool)
    ensures
        r == (a@ == b@),
{
    compare_str(a, b) == Order::Equal
}

proof fn lemma_trim_unchanged(t: Seq<char>)
    requires
        t.len() > 0,
        !is_space(t[0]),
        !is_space(t.last()),
    ensures
        trim_ws(t) == t,
{
}

/// Text written back as it reads leaves a scalar as it was: parsing the
/// contents of a scalar's file as a scalar of the same type gives the
/// scalar back. A float's text comes from the table `t` and is read back
/// through the table `b`; it comes back wherever `b` maps the text `t`
/// shows for its bits to those bits.
pub proof fn lemma_scalar_text_roundtrip(x: ScalarModel, t: Seq<(u64, Seq<char>)>, b: Seq<(Seq<char>, u64)>)
    requires
        x matches ScalarModel::Float(bits) ==> bits_for(b, trim_ws(float_display(t, bits))) == Some(bits),
    ensures
        scalar_from_text(x, scalar_file_bytes(x, t), b) == Some(x),
{
    reveal_strlit("true");
    reveal_strlit("false");
    reveal_strlit("null");
    reveal_strlit("1");
    reveal_strlit("0");
    match x {
        ScalarModel::Null => {
            let w = "null"@;
            vstd::utf8::encode_utf8_valid_utf8(w);
            vstd::utf8::encode_utf8_decode_utf8(w);
            lemma_trim_unchanged(w);
        },
        ScalarModel::Bool(v) => {
            let w = if v { "true"@ } else { "false"@ };
            vstd::utf8::encode_utf8_valid_utf8(w);
            vstd::utf8::encode_utf8_decode_utf8(w);
            lemma_trim_unchanged(w);
        },
        ScalarModel::Int(n) => {
            let w = decimal_i(n as int);
            crate::exportlaw::lemma_i64_text_decimal(n);
            crate::jsonlaw::lemma_decimal(if n < 0 { (-(n as int)) as nat } else { n as nat });
            vstd::utf8::encode_utf8_valid_utf8(w);
            vstd::utf8::encode_utf8_decode_utf8(w);
            if w.len() > 1 {
                assert(is_digit(w.last()));
            } else {
                assert(is_digit(w[0]));
            }
            lemma_trim_unchanged(w);
        },
        ScalarModel::Str(w) => {
            vstd::utf8::encode_utf8_valid_utf8(w);
            vstd::utf8::encode_utf8_decode_utf8(w);
        },
        ScalarModel::Float(bits) => {
            let w = float_display(t, bits);
            vstd::utf8::encode_utf8_valid_utf8(w);
            vstd::utf8::encode_utf8_decode_utf8(w);
        },
        _ => {
        },
    }
}

/// The scalar that `data`, written over a file holding `existing`, stands
/// for. Float texts take their bits from `floats`.
pub fn parse_scalar_text(existing: &Scalar, data: &[u8], floats: &FloatBits) -> (r: Result<Scalar, ()>)
    ensures
        match scalar_from_text(existing.model(), data@, bits_model(floats@)) {
            Some(s) => r matches Ok(x) && x.model() == s,
            None => r is Err,
        },
{
    proof {
        reveal_strlit("true");
        reveal_strlit("false");
        reveal_strlit("1");
        reveal_strlit("0");
        reveal_strlit("null");
        reveal_strlit("");
    }
    if let Scalar::Bytes(_) = existing {
        return Ok(Scalar::Bytes(vstd::slice::slice_to_vec(data)));
    }
    let s = match string_from_utf8(data) {
        Some(s) => s,
        None => return Err(()),
    };
    let t = trim_str(s.as_str());
    match existing {
        Scalar::String(_) => Ok(Scalar::String(s)),
        Scalar::Int(_) => match parse_i64_str(t.as_str()) {
            Some(n) => Ok(Scalar::Int(n)),
            None => Err(()),
        },
        Scalar::Float(_) => match lookup_bits(floats, t.as_str()) {
            Some(bits) => Ok(Scalar::Float(bits)),
            None => Err(()),
        },
        Scalar::Bool(_) => {
            if str_is(t.as_str(), "true") || str_is(t.as_str(), "1") {
                Ok(Scalar::Bool(true))
            } else if str_is(t.as_str(), "false") || str_is(t.as_str(), "0") {
                Ok(Scalar::Bool(false))
            } else {
                Err(())
            }
        },
        _ => {
            if str_is(t.as_str(), "null") || str_is(t.as_str(), "") {
                assert(t@.len() == 0 ==> t@ =~= ""@);
                Ok(Scalar::Null)
            } else {
                assert(t@.len() == 0 ==> t@ =~= ""@);
                Err(())
            }
        },
    }
}

// ---------------------------------------------------------------------------
// Labels

/// The `user.alefs.type` attribute of an entry.
pub open spec fn type_label(kind: EntryKind, v: Option<ValueModel>) -> Seq<char> {
    match (kind, v) {
        (EntryKind::Directory, _) => "directory"@,
        (_, Some(x)) => value_type_label(x),
        _ => "unknown"@,
    }
}

/// The `user.alefs.type` attribute of an entry.
pub fn type_xattr(value: Option<&Value>, kind: EntryKind) -> (r: String)
    ensures
        r@ == type_label(kind, crate::eval::opt_model(value)),
{
    match (kind, value) {
        (EntryKind::Directory, _) => text("directory"),
        (_, Some(v)) => text(v.typename()),
        _ => text("unknown"),
    }
}

/// How a set member shows as a file name when the member itself is not
/// shown: a hint of its content.
pub open spec fn member_hint(v: ValueModel, t: Seq<(u64, Seq<char>)>) -> Seq<char> {
    match v {
        ValueModel::Scalar(ScalarModel::Str(s)) => s,
        ValueModel::Scalar(ScalarModel::Int(n)) => decimal_i(n as int),
        ValueModel::Scalar(ScalarModel::Bool(b)) => if b {
            "true"@
        } else {
            "false"@
        },
        ValueModel::Scalar(ScalarModel::Null) => "null"@,
        ValueModel::Scalar(ScalarModel::Float(bits)) => float_display(t, bits),
        ValueModel::Scalar(ScalarModel::Bytes(b)) => "bytes["@ + decimal(b.len()) + "]"@,
        _ => "<"@ + value_type_label(v) + ">"@,
    }
}

/// The `user.alefs.member` attribute of a set member.
pub fn format_member_hint(v: &Value, floats: &FloatTexts) -> (r: String)
    ensures
        r@ == member_hint(v.model(), texts_model(floats@)),
{
    proof {
        lemma_model_parts(*v);
    }
    match v {
        Value::Scalar(Scalar::String(s)) => s.clone(),
        Value::Scalar(Scalar::Int(n)) => i64_to_string(*n),
        Value::Scalar(Scalar::Bool(b)) => if *b {
            text("true")
        } else {
            text("false")
        },
        Value::Scalar(Scalar::Null) => text("null"),
        Value::Scalar(Scalar::Float(bits)) => match lookup_text(floats, *bits) {
            Some(x) => x,
            None => fallback_text(*bits),
        },
        Value::Scalar(Scalar::Bytes(b)) => {
            let mut s = text("bytes[");
            push_decimal(&mut s, b.len() as u64);
            s.append("]");
            s
        },
        _ => {
            let mut s = text("<");
            s.append(v.typename());
            s.append(">");
            s
        },
    }
}

// ---------------------------------------------------------------------------
// Set member names

/// The digest that std's `DefaultHasher` gives for a byte vector hashed as
/// a whole.
pub uninterp spec fn default_hash(bytes: Seq<u8>) -> u64;

/// `std::collections::hash_map::DefaultHasher`: a fresh hasher (`new`), the
/// vector's `Hash::hash` into it, then `Hasher::finish`. A fresh
/// `DefaultHasher` is not seeded, so the digest depends on the bytes alone.
#[verifier::external_body]
fn hash_bytes(b: &Vec<u8>) -> (r: u64)
    ensures
        r == default_hash(b@),
{
    let mut h = std::collections::hash_map::DefaultHasher::new();
    b.hash(&mut h);
    h.finish()
}

/// Sixteen lowercase hex digits of `n`, most significant first.
pub open spec fn hex16(n: u64) -> Seq<char> {
    hex2((n >> 56u64) as u8) + hex2(((n >> 48u64) & 0xff) as u8) + hex2(((n >> 40u64) & 0xff) as u8) + hex2(
        ((n >> 32u64) & 0xff) as u8,
    ) + hex2(((n >> 24u64) & 0xff) as u8) + hex2(((n >> 16u64) & 0xff) as u8) + hex2(
        ((n >> 8u64) & 0xff) as u8,
    ) + hex2((n & 0xff) as u8)
}

/// The file name of a set member: the hex digest of its canonical encoding.
pub open spec fn member_name_of(v: ValueModel) -> Seq<char> {
    hex16(default_hash(enc_value(v)))
}

/// The file name of a set member.
pub fn set_member_name(v: &Value) -> (r: String)
    ensures
        r@ == member_name_of(v.model()),
{
    let enc = encode_payload(v);
    let h = hash_bytes(&enc);
    let mut s = String::new();
    push_hex2(&mut s, (h >> 56u64) as u8);
    push_hex2(&mut s, ((h >> 48u64) & 0xff) as u8);
    push_hex2(&mut s, ((h >> 40u64) & 0xff) as u8);
    push_hex2(&mut s, ((h >> 32u64) & 0xff) as u8);
    push_hex2(&mut s, ((h >> 24u64) & 0xff) as u8);
    push_hex2(&mut s, ((h >> 16u64) & 0xff) as u8);
    push_hex2(&mut s, ((h >> 8u64) & 0xff) as u8);
    push_hex2(&mut s, (h & 0xff) as u8);
    assert(s@ =~= hex16(h));
    s
}

// ---------------------------------------------------------------------------
// Members of structures

/// What `usize`'s `parse` gives: an optional `+`, then digits, at most
/// `usize::MAX`.
pub open spec fn usize_text(s: Seq<char>) -> Option<nat> {
    let d = if s.len() > 0 && s[0] == '+' {
        s.drop_first()
    } else {
        s
    };
    if d.len() == 0 || !all_digits(d) || digits_value(d) > usize::MAX {
        None
    } else {
        Some(digits_value(d) as nat)
    }
}

proof fn lemma_digits_value_step(d: Seq<char>, k: int)
    requires
        0 <= k < d.len(),
    ensures
        digits_value(d.take(k + 1)) == digits_value(d.take(k)) * 10 + (d[k] as int - '0' as int),
{
    assert(d.take(k + 1).drop_last() =~= d.take(k));
}

proof fn lemma_digits_value_mono(d: Seq<char>, j: int, k: int)
    requires
        0 <= j <= k <= d.len(),
        forall|q: int| 0 <= q < k ==> is_digit(#[trigger] d[q]),
    ensures
        0 <= digits_value(d.take(j)) <= digits_value(d.take(k)),
    decreases k,
{
    if k == 0 {
        assert(d.take(0) =~= Seq::<char>::empty());
    } else if j == k {
        lemma_digits_value_mono(d, k - 1, k - 1);
        lemma_digits_value_step(d, k - 1);
    } else {
        lemma_digits_value_mono(d, j, k - 1);
        lemma_digits_value_step(d, k - 1);
    }
}

/// The index a list member name stands for.
pub fn parse_usize(s: &str) -> (r: Option<usize>)
    ensures
        match usize_text(s@) {
            Some(n) => r matches Some(x) && x as nat == n,
            None => r is None,
        },
{
    let cs = chars_of(s);
    let start: usize = if cs.len() > 0 && cs[0] == '+' {
        1
    } else {
        0
    };
    let ghost d = if s@.len() > 0 && s@[0] == '+' {
        s@.drop_first()
    } else {
        s@
    };
    assert(d =~= cs@.skip(start as int));
    if start == cs.len() {
        return None;
    }
    let mut acc: usize = 0;
    let mut i: usize = start;
    let mut over = false;
    while i < cs.len()
        invariant
            start <= i <= cs@.len(),
            d == cs@.skip(start as int),
            d == (if s@.len() > 0 && s@[0] == '+' {
                s@.drop_first()
            } else {
                s@
            }),
            d.len() > 0,
            forall|q: int| 0 <= q < i - start ==> is_digit(#[trigger] d[q]),
            !over ==> acc as int == digits_value(d.take(i - start)),
            over ==> digits_value(d.take(i - start)) > usize::MAX,
        decreases cs@.len() - i,
    {
        let c = cs[i];
        assert(d[i - start] == c);
        if !('0' <= c && c <= '9') {
            assert(!all_digits(d));
            return None;
        }
        let dig = (c as u32 - '0' as u32) as usize;
        proof {
            lemma_digits_value_step(d, i - start);
        }
        if over || acc > (usize::MAX - dig) / 10 {
            proof {
                assert forall|q: int| 0 <= q < i - start + 1 implies is_digit(#[trigger] d[q]) by {
                    if q < i - start {
                    } else {
                        assert(d[q] == c);
                    }
                }
                lemma_digits_value_mono(d, i - start, i - start + 1);
                if !over {
                    assert(acc * 10 + dig > usize::MAX) by (nonlinear_arith)
                        requires
                            acc > (usize::MAX - dig) / 10,
                            dig <= 9,
                    ;
                }
            }
            over = true;
        } else {
            assert(acc * 10 + dig <= usize::MAX) by (nonlinear_arith)
                requires
                    acc <= (usize::MAX - dig) / 10,
                    dig <= 9,
            ;
            acc = acc * 10 + dig;
        }
        i = i + 1;
    }
    assert(d.take(d.len() as int) =~= d);
    assert(all_digits(d));
    if over {
        return None;
    }
    Some(acc)
}

/// The first member of `ms` named `name`.
pub open spec fn named_member(ms: Seq<ValueModel>, name: Seq<char>) -> Option<ValueModel>
    decreases ms.len(),
{
    if ms.len() == 0 {
        None
    } else if member_name_of(ms[0]) == name {
        Some(ms[0])
    } else {
        named_member(ms.drop_first(), name)
    }
}

/// The member of a structure that a file name inside it stands for: a
/// hash key, a list index, a set member's name, or a tree key (an integer
/// key first where the name parses as one).
pub open spec fn child_value(v: ValueModel, name: Seq<char>) -> Option<ValueModel> {
    match v {
        ValueModel::Hash(es) => str_lookup(es, name),
        ValueModel::List(vs) => match usize_text(name) {
            Some(i) => if i < vs.len() {
                Some(vs[i as int])
            } else {
                None
            },
            None => None,
        },
        ValueModel::SetOf(ms) => named_member(ms, name),
        ValueModel::Tree(es) => match i64_text(name) {
            Some(n) => match scalar_lookup(es, ScalarModel::Int(n)) {
                Some(x) => Some(x),
                None => scalar_lookup(es, ScalarModel::Str(name)),
            },
            None => scalar_lookup(es, ScalarModel::Str(name)),
        },
        _ => None,
    }
}

pub open spec fn opt_value(v: Option<Value>) -> Option<ValueModel> {
    match v {
        Some(x) => Some(x.model()),
        None => None,
    }
}

#[verifier::spinoff_prover]
fn find_member(ms: &Vec<Value>, name: &str) -> (r: Option<Value>)
    ensures
        opt_value(r) == named_member(models(ms@), name@),
{
    let ghost mm = models(ms@);
    let mut i: usize = 0;
    assert(mm.skip(0) =~= mm);
    while i < ms.len()
        invariant
            i <= ms@.len(),
            mm == models(ms@),
            named_member(mm, name@) == named_member(mm.skip(i as int), name@),
        decreases ms@.len() - i,
    {
        assert(mm.skip(i as int)[0] == ms@[i as int].model());
        assert(mm.skip(i as int).drop_first() =~= mm.skip(i + 1));
        let n = set_member_name(&ms[i]);
        if str_is(n.as_str(), name) {
            return Some(ms[i].deep_clone());
        }
        i = i + 1;
    }
    None
}

/// The member of `val` that the file name `name` inside it stands for.
pub fn project_child_value(val: &Value, name: &str) -> (r: Option<Value>)
    ensures
        opt_value(r) == child_value(val.model(), name@),
{
    proof {
        lemma_model_parts(*val);
    }
    match val {
        Value::Hash(m) => match m.get(name) {
            Some(v) => Some(v.deep_clone()),
            None => None,
        },
        Value::List(items) => match parse_usize(name) {
            Some(idx) => if idx < items.len() {
                assert(models(items@)[idx as int] == items@[idx as int].model());
                Some(items[idx].deep_clone())
            } else {
                None
            },
            None => None,
        },
        Value::SetOf(members) => find_member(members, name),
        Value::Tree(m) => {
            if let Some(n) = parse_i64_str(name) {
                let k = Scalar::Int(n);
                if let Some(v) = m.get(&k) {
                    return Some(v.deep_clone());
                }
            }
            let k = Scalar::String(text(name));
            assert(k.model() == ScalarModel::Str(name@));
            match m.get(&k) {
                Some(v) => Some(v.deep_clone()),
                None => None,
            }
        },
        _ => None,
    }
}

/// The bytes of the member file `name` inside `val`, where that member is
/// a scalar.
pub open spec fn child_bytes(v: ValueModel, name: Seq<char>, t: Seq<(u64, Seq<char>)>) -> Option<Seq<u8>> {
    match child_value(v, name) {
        Some(ValueModel::Scalar(s)) => Some(scalar_file_bytes(s, t)),
        _ => None,
    }
}

/// The contents of the member file `name` inside `val`, where that member
/// is a scalar.
pub fn project_child_bytes(val: &Value, name: &str, floats: &FloatTexts) -> (r: Option<Vec<u8>>)
    ensures
        match child_bytes(val.model(), name@, texts_model(floats@)) {
            Some(b) => r matches Some(x) && x@ == b,
            None => r is None,
        },
{
    match project_child_value(val, name) {
        Some(Value::Scalar(s)) => Some(scalar_bytes(&s, floats)),
        _ => None,
    }
}

/// The members of `ms` not named `name`, in order.
pub open spec fn members_not_named(ms: Seq<ValueModel>, name: Seq<char>) -> Seq<ValueModel>
    decreases ms.len(),
{
    if ms.len() == 0 {
        ms
    } else {
        let rest = members_not_named(ms.drop_last(), name);
        if member_name_of(ms.last()) == name {
            rest
        } else {
            rest.push(ms.last())
        }
    }
}

/// A structure with the member that the file name `name` stands for
/// removed, or `None` where there is no such member. For a tree, a name
/// that parses as an integer stands for the integer key, or for the string
/// key where there is no such integer key.
pub open spec fn unlink_value(v: ValueModel, name: Seq<char>) -> Option<ValueModel> {
    match v {
        ValueModel::Hash(es) => if str_lookup(es, name) is Some {
            Some(ValueModel::Hash(str_remove(es, name)))
        } else {
            None
        },
        ValueModel::List(vs) => match usize_text(name) {
            Some(i) => if i < vs.len() {
                Some(ValueModel::List(vs.remove(i as int)))
            } else {
                None
            },
            None => None,
        },
        ValueModel::SetOf(ms) => {
            let kept = members_not_named(ms, name);
            if kept.len() == ms.len() {
                None
            } else {
                Some(ValueModel::SetOf(kept))
            }
        },
        ValueModel::Tree(es) => {
            let k = match i64_text(name) {
                Some(n) => if scalar_lookup(es, ScalarModel::Int(n)) is Some {
                    ScalarModel::Int(n)
                } else {
                    ScalarModel::Str(name)
                },
                None => ScalarModel::Str(name),
            };
            if scalar_lookup(es, k) is Some {
                Some(ValueModel::Tree(scalar_remove(es, k)))
            } else {
                None
            }
        },
        _ => None,
    }
}

/// The members of `ms` not named `name`.
fn retain_unnamed(ms: Vec<Value>, name: &str) -> (r: Vec<Value>)
    ensures
        models(r@) == members_not_named(models(ms@), name@),
{
    let ghost mm = models(ms@);
    let mut out: Vec<Value> = Vec::new();
    let mut i: usize = 0;
    assert(mm.take(0) =~= Seq::<ValueModel>::empty());
    assert(models(out@) =~= Seq::<ValueModel>::empty());
    while i < ms.len()
        invariant
            i <= ms@.len(),
            mm == models(ms@),
            models(out@) == members_not_named(mm.take(i as int), name@),
        decreases ms@.len() - i,
    {
        assert(mm.take(i + 1).drop_last() =~= mm.take(i as int));
        assert(mm.take(i + 1).last() == ms@[i as int].model());
        let n = set_member_name(&ms[i]);
        if !str_is(n.as_str(), name) {
            let ghost before = out@;
            out.push(ms[i].deep_clone());
            assert(models(out@) =~= models(before).push(ms@[i as int].model()));
        }
        i = i + 1;
    }
    assert(mm.take(i as int) =~= mm);
    out
}

proof fn lemma_members_not_named_len(ms: Seq<ValueModel>, name: Seq<char>)
    ensures
        members_not_named(ms, name).len() <= ms.len(),
    decreases ms.len(),
{
    if ms.len() > 0 {
        lemma_members_not_named_len(ms.drop_last(), name);
    }
}

/// `val` with the member named `name` removed, or `None` where it has no
/// such member.
pub fn project_unlink(val: Value, name: &str) -> (r: Option<Value>)
    ensures
        opt_value(r) == unlink_value(val.model(), name@),
{
    proof {
        lemma_model_parts(val);
    }
    match val {
        Value::Hash(m) => {
            let mut m = m;
            match m.remove(name) {
                Some(_) => {
                    proof {
                        lemma_model_parts(Value::Hash(m));
                    }
                    Some(Value::Hash(m))
                },
                None => None,
            }
        },
        Value::List(items) => match parse_usize(name) {
            Some(idx) => if idx < items.len() {
                let mut items = items;
                let ghost before = items@;
                items.remove(idx);
                proof {
                    lemma_model_parts(Value::List(items));
                    assert(models(items@) =~= models(before).remove(idx as int));
                }
                Some(Value::List(items))
            } else {
                None
            },
            None => None,
        },
        Value::SetOf(members) => {
            let before = members.len();
            let ghost mm = models(members@);
            let kept = retain_unnamed(members, name);
            proof {
                lemma_model_parts(Value::SetOf(kept));
            }
            if kept.len() == before {
                None
            } else {
                Some(Value::SetOf(kept))
            }
        },
        Value::Tree(m) => {
            let mut m = m;
            let k = match parse_i64_str(name) {
                Some(n) => if m.contains_key(&Scalar::Int(n)) {
                    Scalar::Int(n)
                } else {
                    Scalar::String(text(name))
                },
                None => Scalar::String(text(name)),
            };
            match m.remove(&k) {
                Some(_) => {
                    proof {
                        lemma_model_parts(Value::Tree(m));
                    }
                    Some(Value::Tree(m))
                },
                None => None,
            }
        },
        _ => None,
    }
}

// ---------------------------------------------------------------------------
// Listings and attributes

/// How a member shows: scalars as files, structures as directories.
pub open spec fn member_kind(v: ValueModel) -> NodeKind {
    if v is Scalar {
        NodeKind::RegularFile
    } else {
        NodeKind::Directory
    }
}

/// The debug text of a byte vector: `[1, 2, 3]`.
pub open spec fn bytes_debug_items(b: Seq<u8>) -> Seq<char>
    decreases b.len(),
{
    if b.len() == 0 {
        Seq::empty()
    } else if b.len() == 1 {
        decimal(b[0] as nat)
    } else {
        bytes_debug_items(b.drop_last()) + ", "@ + decimal(b.last() as nat)
    }
}

/// The file name of a tree key: strings and integers as their text, other
/// keys as their debug text.
pub open spec fn tree_key_name(k: ScalarModel) -> Seq<char> {
    match k {
        ScalarModel::Str(s) => s,
        ScalarModel::Int(n) => decimal_i(n as int),
        ScalarModel::Null => "Null"@,
        ScalarModel::Bool(b) => if b {
            "Bool(true)"@
        } else {
            "Bool(false)"@
        },
        ScalarModel::Float(bits) => "Float("@ + decimal(bits as nat) + ")"@,
        ScalarModel::Bytes(b) => "Bytes(["@ + bytes_debug_items(b) + "])"@,
    }
}

/// The entries a structure shows as a directory: hash keys, list indexes
/// and tree keys in order, and set members by name.
pub open spec fn listing_of(v: ValueModel) -> Seq<(Seq<char>, NodeKind)> {
    match v {
        ValueModel::Hash(es) => Seq::new(es.len(), |i: int| (es[i].0, member_kind(es[i].1))),
        ValueModel::List(vs) => Seq::new(vs.len(), |i: int| (decimal(i as nat), member_kind(vs[i]))),
        ValueModel::SetOf(ms) => Seq::new(ms.len(), |i: int| (member_name_of(ms[i]), NodeKind::RegularFile)),
        ValueModel::Tree(es) => Seq::new(es.len(), |i: int| (tree_key_name(es[i].0), NodeKind::RegularFile)),
        _ => Seq::empty(),
    }
}

pub open spec fn entry_names(v: Seq<(String, NodeKind)>) -> Seq<(Seq<char>, NodeKind)> {
    Seq::new(v.len(), |i: int| (v[i].0@, v[i].1))
}

fn kind_of(v: &Value) -> (k: NodeKind)
    ensures
        k == member_kind(v.model()),
{
    match v {
        Value::Scalar(_) => NodeKind::RegularFile,
        _ => NodeKind::Directory,
    }
}

fn bytes_debug(b: &Vec<u8>) -> (s: String)
    ensures
        s@ == "Bytes(["@ + bytes_debug_items(b@) + "])"@,
{
    let mut s = text("Bytes([");
    let ghost head = s@;
    let mut i: usize = 0;
    assert(b@.take(0) =~= Seq::<u8>::empty());
    while i < b.len()
        invariant
            i <= b@.len(),
            s@ == head + bytes_debug_items(b@.take(i as int)),
        decreases b@.len() - i,
    {
        assert(b@.take(i + 1).drop_last() =~= b@.take(i as int));
        if i > 0 {
            s.append(", ");
        }
        push_decimal(&mut s, b[i] as u64);
        proof {
            if i == 0 {
                assert(b@.take(1)[0] == b@[0]);
            }
        }
        assert(s@ =~= head + bytes_debug_items(b@.take(i + 1)));
        i = i + 1;
    }
    assert(b@.take(i as int) =~= b@);
    s.append("])");
    s
}

fn tree_key_file_name(k: &Scalar) -> (s: String)
    ensures
        s@ == tree_key_name(k.model()),
{
    match k {
        Scalar::String(x) => x.clone(),
        Scalar::Int(n) => i64_to_string(*n),
        Scalar::Null => text("Null"),
        Scalar::Bool(b) => if *b {
            text("Bool(true)")
        } else {
            text("Bool(false)")
        },
        Scalar::Float(bits) => {
            let mut s = text("Float(");
            push_decimal(&mut s, *bits);
            s.append(")");
            s
        },
        Scalar::Bytes(b) => bytes_debug(b),
    }
}

/// The entries a structure shows as a directory.
pub fn project_listing(val: &Value) -> (r: Vec<(String, NodeKind)>)
    ensures
        entry_names(r@) == listing_of(val.model()),
{
    proof {
        lemma_model_parts(*val);
    }
    let ghost target = listing_of(val.model());
    let mut out: Vec<(String, NodeKind)> = Vec::new();
    match val {
        Value::Hash(m) => {
            let es = &m.entries;
            let mut i: usize = 0;
            while i < es.len()
                invariant
                    i <= es@.len(),
                    target == listing_of(val.model()),
                    val.model() == ValueModel::Hash(crate::value::str_entry_models(es@)),
                    out@.len() == i,
                    entry_names(out@) == target.take(i as int),
                decreases es@.len() - i,
            {
                let ghost before = out@;
                out.push((es[i].0.clone(), kind_of(&es[i].1)));
                assert(entry_names(out@) =~= target.take(i + 1)) by {
                    assert forall|j: int| 0 <= j < i implies #[trigger] out@[j] == before[j] by {}
                }
                i = i + 1;
            }
            assert(target.take(i as int) =~= target);
        },
        Value::List(vs) => {
            let mut i: usize = 0;
            while i < vs.len()
                invariant
                    i <= vs@.len(),
                    target == listing_of(val.model()),
                    val.model() == ValueModel::List(models(vs@)),
                    out@.len() == i,
                    entry_names(out@) == target.take(i as int),
                decreases vs@.len() - i,
            {
                let ghost before = out@;
                out.push((u64_to_string(i as u64), kind_of(&vs[i])));
                assert(entry_names(out@) =~= target.take(i + 1)) by {
                    assert forall|j: int| 0 <= j < i implies #[trigger] out@[j] == before[j] by {}
                }
                i = i + 1;
            }
            assert(target.take(i as int) =~= target);
        },
        Value::SetOf(ms) => {
            let mut i: usize = 0;
            while i < ms.len()
                invariant
                    i <= ms@.len(),
                    target == listing_of(val.model()),
                    val.model() == ValueModel::SetOf(models(ms@)),
                    out@.len() == i,
                    entry_names(out@) == target.take(i as int),
                decreases ms@.len() - i,
            {
                let ghost before = out@;
                out.push((set_member_name(&ms[i]), NodeKind::RegularFile));
                assert(entry_names(out@) =~= target.take(i + 1)) by {
                    assert forall|j: int| 0 <= j < i implies #[trigger] out@[j] == before[j] by {}
                }
                i = i + 1;
            }
            assert(target.take(i as int) =~= target);
        },
        Value::Tree(m) => {
            let es = &m.entries;
            let mut i: usize = 0;
            while i < es.len()
                invariant
                    i <= es@.len(),
                    target == listing_of(val.model()),
                    val.model() == ValueModel::Tree(crate::value::scalar_entry_models(es@)),
                    out@.len() == i,
                    entry_names(out@) == target.take(i as int),
                decreases es@.len() - i,
            {
                let ghost before = out@;
                out.push((tree_key_file_name(&es[i].0), NodeKind::RegularFile));
                assert(entry_names(out@) =~= target.take(i + 1)) by {
                    assert forall|j: int| 0 <= j < i implies #[trigger] out@[j] == before[j] by {}
                }
                i = i + 1;
            }
            assert(target.take(i as int) =~= target);
        },
        _ => {
            assert(entry_names(out@) =~= target);
        },
    }
    out
}

/// What an entry shows as, and its size: scalars are files as long as
/// their contents, everything else is a directory of size 0.
pub open spec fn node_shape(kind: EntryKind, v: Option<ValueModel>, t: Seq<(u64, Seq<char>)>) -> (NodeKind, nat) {
    match (kind, v) {
        (EntryKind::Directory, _) => (NodeKind::Directory, 0),
        (EntryKind::Value, Some(ValueModel::Scalar(s))) => (NodeKind::RegularFile, scalar_file_bytes(s, t).len()),
        (EntryKind::Value, Some(_)) => (NodeKind::Directory, 0),
        (EntryKind::Value, None) => (NodeKind::RegularFile, 0),
    }
}

/// What an entry shows as, and its size.
pub fn node_attr(kind: EntryKind, value: Option<&Value>, floats: &FloatTexts) -> (r: (NodeKind, u64))
    ensures
        r.0 == node_shape(kind, crate::eval::opt_model(value), texts_model(floats@)).0,
        r.1 as nat == node_shape(kind, crate::eval::opt_model(value), texts_model(floats@)).1,
{
    match (kind, value) {
        (EntryKind::Directory, _) => (NodeKind::Directory, 0),
        (EntryKind::Value, Some(Value::Scalar(s))) => (NodeKind::RegularFile, scalar_bytes(s, floats).len() as u64),
        (EntryKind::Value, Some(_)) => (NodeKind::Directory, 0),
        (EntryKind::Value, None) => (NodeKind::RegularFile, 0),
    }
}

// ---------------------------------------------------------------------------
// File-system operations over a database

/// Why a file-system operation fails (each stands for an `errno`).
#[derive(Debug, Clone, Copy, PartialEq, Eq, Structural)]
pub enum FsError {
    NotFound,
    Invalid,
    Io,
    NotPermitted,
    IsDirectory,
    NoData,
}

/// The path string of `name` inside the directory at `parent`.
pub open spec fn child_path_text(parent: Seq<char>, name: Seq<char>) -> Seq<char> {
    if parent == "/"@ {
        "/"@ + name
    } else {
        parent + "/"@ + name
    }
}

/// The path string of `name` inside the directory at `parent`.
pub fn child_path(parent: &str, name: &str) -> (r: String)
    ensures
        r@ == child_path_text(parent@, name@),
{
    if str_is(parent, "/") {
        let mut s = text("/");
        s.append(name);
        s
    } else {
        let mut s = text(parent);
        s.append("/");
        s.append(name);
        s
    }
}

/// The entry at `segs` where it can be read.
pub open spec fn entry_of(kv: Kv, segs: Seq<Seq<char>>) -> Option<(EntryKind, Option<ValueModel>)> {
    match spec_get(kv, segs) {
        Ok(e) => Some(e),
        Err(_) => None,
    }
}

/// The member named by the last segment of `segs` inside the structure at
/// its parent.
pub open spec fn projected(kv: Kv, segs: Seq<Seq<char>>) -> Option<ValueModel> {
    if segs.len() == 0 {
        None
    } else {
        match entry_of(kv, segs.drop_last()) {
            Some((_, Some(val))) => child_value(val, segs.last()),
            _ => None,
        }
    }
}

/// What looking up `name` in the directory at `parent` finds: a member of
/// the structure there, else the entry at the child path; its path string,
/// kind and size.
pub open spec fn lookup_outcome(kv: Kv, parent: Seq<char>, name: Seq<char>, t: Seq<(u64, Seq<char>)>) -> Result<(Seq<char>, NodeKind, nat), FsError> {
    let child = child_path_text(parent, name);
    match spec_parse_path(child) {
        Err(_) => Err(FsError::NotFound),
        Ok(segs) => {
            let psegs = match spec_parse_path(parent) {
                Ok(p) => p,
                Err(_) => Seq::empty(),
            };
            let member = match entry_of(kv, psegs) {
                Some((_, Some(val))) => child_value(val, name),
                _ => None,
            };
            match member {
                Some(v) => {
                    let sh = node_shape(EntryKind::Value, Some(v), t);
                    Ok((child, sh.0, sh.1))
                },
                None => match entry_of(kv, segs) {
                    Some((k, v)) => {
                        let sh = node_shape(k, v, t);
                        Ok((child, sh.0, sh.1))
                    },
                    None => Err(FsError::NotFound),
                },
            }
        },
    }
}

/// A read of the store that did not fail in the storage layer.
fn read_entry<S: Storage>(db: &Database<S>, p: &DbPath) -> (r: Result<Option<crate::db::Entry>, FsError>)
    ensures
        db.reads_ok() ==> r is Ok,
        r matches Ok(o) ==> match entry_of(db.kv(), p@) {
            Some(e) => o matches Some(x) && crate::db::entry_model(x) == e,
            None => o is None,
        },
        r matches Err(e) ==> e == FsError::Io,
{
    match db.get(p) {
        Ok(e) => Ok(Some(e)),
        Err(NsError::Storage(_)) => Err(FsError::Io),
        Err(_) => Ok(None),
    }
}

/// Look up `name` in the directory at `parent`: its path string, kind and
/// size. A failure of the storage layer is `Io`.
pub fn fs_lookup<S: Storage>(db: &Database<S>, parent: &str, name: &str, floats: &FloatTexts) -> (r: Result<(String, NodeKind, u64), FsError>)
    ensures
        db.reads_ok() ==> r != Err::<(String, NodeKind, u64), FsError>(FsError::Io),
        r == Err::<(String, NodeKind, u64), FsError>(FsError::Io) || match lookup_outcome(db.kv(), parent@, name@, texts_model(floats@)) {
            Ok((c, k, n)) => r matches Ok((x, y, z)) && x@ == c && y == k && z as nat == n,
            Err(e) => r == Err::<(String, NodeKind, u64), FsError>(e),
        },
        spec_parse_path(child_path_text(parent@, name@)) is Err ==> r == Err::<(String, NodeKind, u64), FsError>(
            FsError::NotFound,
        ),
{
    let child = child_path(parent, name);
    let path = match DbPath::parse(child.as_str()) {
        Ok(p) => p,
        Err(_) => return Err(FsError::NotFound),
    };
    let pdb = match DbPath::parse(parent) {
        Ok(p) => p,
        Err(_) => DbPath::root(),
    };
    match read_entry(db, &pdb)? {
        Some(entry) => match &entry.value {
            Some(val) => match project_child_value(val, name) {
                Some(v) => {
                    let (k, n) = node_attr(EntryKind::Value, Some(&v), floats);
                    return Ok((child, k, n));
                },
                None => {},
            },
            None => {},
        },
        None => {},
    }
    match read_entry(db, &path)? {
        Some(entry) => {
            let (k, n) = match &entry.value {
                Some(v) => node_attr(entry.kind, Some(v), floats),
                None => node_attr(entry.kind, None, floats),
            };
            Ok((child, k, n))
        },
        None => Err(FsError::NotFound),
    }
}

/// What an inode's attributes are: the entry at its path, else a member of
/// the structure at the parent.
pub open spec fn getattr_outcome(kv: Kv, p: Seq<char>, t: Seq<(u64, Seq<char>)>) -> Result<(NodeKind, nat), FsError> {
    match spec_parse_path(p) {
        Err(_) => Err(FsError::NotFound),
        Ok(segs) => match entry_of(kv, segs) {
            Some((k, v)) => Ok(node_shape(k, v, t)),
            None => match projected(kv, segs) {
                Some(v) => Ok(node_shape(EntryKind::Value, Some(v), t)),
                None => Err(FsError::NotFound),
            },
        },
    }
}

/// The member named by the last segment of `path` inside the structure at
/// its parent, where there is one.
fn read_projected<S: Storage>(db: &Database<S>, path: &DbPath) -> (r: Result<Option<Value>, FsError>)
    ensures
        db.reads_ok() ==> r is Ok,
        r matches Ok(o) ==> opt_value(o) == projected(db.kv(), path@),
        r matches Err(e) ==> e == FsError::Io,
{
    let parent = match path.parent() {
        Some(p) => p,
        None => return Ok(None),
    };
    match read_entry(db, &parent)? {
        Some(entry) => match &entry.value {
            Some(val) => {
                let name = match path.last_segment() {
                    Some(n) => n,
                    None => return Ok(None),
                };
                Ok(project_child_value(val, name.as_str()))
            },
            None => Ok(None),
        },
        None => Ok(None),
    }
}

/// The kind and size the node at path string `p` shows with.
pub fn fs_getattr<S: Storage>(db: &Database<S>, p: &str, floats: &FloatTexts) -> (r: Result<(NodeKind, u64), FsError>)
    ensures
        db.reads_ok() ==> r != Err::<(NodeKind, u64), FsError>(FsError::Io),
        r == Err::<(NodeKind, u64), FsError>(FsError::Io) || match getattr_outcome(db.kv(), p@, texts_model(floats@)) {
            Ok((k, n)) => r matches Ok((x, y)) && x == k && y as nat == n,
            Err(e) => r == Err::<(NodeKind, u64), FsError>(e),
        },
        spec_parse_path(p@) is Err ==> r == Err::<(NodeKind, u64), FsError>(FsError::NotFound),
{
    let path = match DbPath::parse(p) {
        Ok(x) => x,
        Err(_) => return Err(FsError::NotFound),
    };
    match read_entry(db, &path)? {
        Some(entry) => {
            let (k, n) = match &entry.value {
                Some(v) => node_attr(entry.kind, Some(v), floats),
                None => node_attr(entry.kind, None, floats),
            };
            Ok((k, n))
        },
        None => match read_projected(db, &path)? {
            Some(v) => Ok(node_attr(EntryKind::Value, Some(&v), floats)),
            None => Err(FsError::NotFound),
        },
    }
}

/// The part of `data` a read at `offset` of up to `size` bytes returns.
pub open spec fn window(data: Seq<u8>, offset: i64, size: u32) -> Seq<u8> {
    let start = (offset as usize) as int;
    if start >= data.len() {
        Seq::empty()
    } else {
        let end = if start + size < data.len() {
            start + size
        } else {
            data.len() as int
        };
        data.subrange(start, end)
    }
}

/// The part of `data` a read at `offset` of up to `size` bytes returns.
pub fn read_window(data: &[u8], offset: i64, size: u32) -> (r: Vec<u8>)
    ensures
        r@ == window(data@, offset, size),
{
    let start = offset as usize;
    if start >= data.len() {
        return Vec::new();
    }
    let end = if data.len() - start > size as usize {
        start + size as usize
    } else {
        data.len()
    };
    copy_range(data, start, end)
}

/// What reading the file at path string `p` returns: a scalar's contents,
/// or those of a scalar member of the structure at the parent; anything
/// else is a directory.
pub open spec fn read_outcome(kv: Kv, p: Seq<char>, offset: i64, size: u32, t: Seq<(u64, Seq<char>)>) -> Result<Seq<u8>, FsError> {
    match spec_parse_path(p) {
        Err(_) => Err(FsError::NotFound),
        Ok(segs) => match entry_of(kv, segs) {
            Some((_, Some(ValueModel::Scalar(s)))) => Ok(window(scalar_file_bytes(s, t), offset, size)),
            _ => match projected(kv, segs) {
                Some(ValueModel::Scalar(s)) => Ok(window(scalar_file_bytes(s, t), offset, size)),
                _ => Err(FsError::IsDirectory),
            },
        },
    }
}

/// Read up to `size` bytes at `offset` of the file at path string `p`.
pub fn fs_read<S: Storage>(db: &Database<S>, p: &str, offset: i64, size: u32, floats: &FloatTexts) -> (r: Result<Vec<u8>, FsError>)
    ensures
        db.reads_ok() ==> r != Err::<Vec<u8>, FsError>(FsError::Io),
        r == Err::<Vec<u8>, FsError>(FsError::Io) || match read_outcome(db.kv(), p@, offset, size, texts_model(floats@)) {
            Ok(b) => r matches Ok(x) && x@ == b,
            Err(e) => r == Err::<Vec<u8>, FsError>(e),
        },
        spec_parse_path(p@) is Err ==> r == Err::<Vec<u8>, FsError>(FsError::NotFound),
{
    let path = match DbPath::parse(p) {
        Ok(x) => x,
        Err(_) => return Err(FsError::NotFound),
    };
    match read_entry(db, &path)? {
        Some(entry) => {
            proof {
                if entry.value is Some {
                    lemma_model_parts(entry.value->0);
                }
            }
            match &entry.value {
                Some(Value::Scalar(sc)) => {
                    let data = scalar_bytes(sc, floats);
                    return Ok(read_window(data.as_slice(), offset, size));
                },
                _ => {},
            }
        },
        None => {},
    }
    match read_projected(db, &path)? {
        Some(Value::Scalar(sc)) => {
            let data = scalar_bytes(&sc, floats);
            Ok(read_window(data.as_slice(), offset, size))
        },
        _ => Err(FsError::IsDirectory),
    }
}

/// How a listed child of a directory shows: directories as directories,
/// values by what they hold.
pub open spec fn kid_kind(kv: Kv, segs: Seq<Seq<char>>, kid: (Seq<char>, EntryKind)) -> NodeKind {
    match kid.1 {
        EntryKind::Directory => NodeKind::Directory,
        EntryKind::Value => match entry_of(kv, segs.push(kid.0)) {
            Some((_, Some(ValueModel::Scalar(_)))) => NodeKind::RegularFile,
            _ => NodeKind::Directory,
        },
    }
}

/// The entries of the directory at path string `p`: its children, or the
/// members of the structure there. A listed value child whose name is not
/// a valid segment makes the listing fail.
pub open spec fn readdir_outcome(kv: Kv, p: Seq<char>) -> Result<Seq<(Seq<char>, NodeKind)>, FsError> {
    match spec_parse_path(p) {
        Err(_) => Err(FsError::NotFound),
        Ok(segs) => match entry_of(kv, segs) {
            None => Err(FsError::NotFound),
            Some((EntryKind::Directory, _)) => match spec_list(kv, segs) {
                Err(_) => Ok(Seq::empty()),
                Ok(kids) => if exists|i: int| 0 <= i < kids.len() && #[trigger] kids[i].1 == EntryKind::Value && !valid_segment(kids[i].0) {
                    Err(FsError::Io)
                } else {
                    Ok(Seq::new(kids.len(), |i: int| (kids[i].0, kid_kind(kv, segs, kids[i]))))
                },
            },
            Some((EntryKind::Value, Some(val))) => Ok(listing_of(val)),
            Some((EntryKind::Value, None)) => Ok(Seq::empty()),
        },
    }
}

/// The entries of the directory at path string `p`, without `.` and `..`.
pub fn fs_readdir<S: Storage>(db: &Database<S>, p: &str) -> (r: Result<Vec<(String, NodeKind)>, FsError>)
    ensures
        r == Err::<Vec<(String, NodeKind)>, FsError>(FsError::Io) || match readdir_outcome(db.kv(), p@) {
            Ok(es) => r matches Ok(v) && entry_names(v@) == es,
            Err(e) => r == Err::<Vec<(String, NodeKind)>, FsError>(e),
        },
        spec_parse_path(p@) is Err ==> r == Err::<Vec<(String, NodeKind)>, FsError>(FsError::NotFound),
        db.reads_ok() ==> match readdir_outcome(db.kv(), p@) {
            Ok(es) => r matches Ok(v) && entry_names(v@) == es,
            Err(e) => r == Err::<Vec<(String, NodeKind)>, FsError>(e),
        },
{
    let path = match DbPath::parse(p) {
        Ok(x) => x,
        Err(_) => return Err(FsError::NotFound),
    };
    let entry = match read_entry(db, &path)? {
        Some(e) => e,
        None => return Err(FsError::NotFound),
    };
    let mut out: Vec<(String, NodeKind)> = Vec::new();
    match entry.kind {
        EntryKind::Directory => {
            let kids = match db.list(&path) {
                Ok(k) => k,
                Err(NsError::Storage(_)) => return Err(FsError::Io),
                Err(_) => {
                    assert(entry_names(out@) =~= Seq::<(Seq<char>, NodeKind)>::empty());
                    return Ok(out);
                },
            };
            let ghost kv = db.kv();
            let ghost km = listing_model(kids@);
            let ghost segs = path@;
            let ghost target = Seq::new(km.len(), |i: int| (km[i].0, kid_kind(kv, segs, km[i])));
            let mut i: usize = 0;
            while i < kids.len()
                invariant
                    i <= kids@.len(),
                    kv == db.kv(),
                    km == listing_model(kids@),
                    segs == path@,
                    spec_parse_path(p@) == Ok::<Seq<Seq<char>>, PathErr>(segs),
                    target == Seq::new(km.len(), |i: int| (km[i].0, kid_kind(kv, segs, km[i]))),
                    out@.len() == i,
                    entry_names(out@) == target.take(i as int),
                    forall|j: int| 0 <= j < i ==> (#[trigger] km[j]).1 == EntryKind::Value ==> valid_segment(km[j].0),
                    db.reads_ok() ==> (entry_of(kv, segs) matches Some((EntryKind::Directory, _)) && spec_list(kv, segs)
                        == Ok::<Seq<(Seq<char>, EntryKind)>, NsErr>(km)),
                decreases kids@.len() - i,
            {
                let name = &kids[i].0;
                let k = match kids[i].1 {
                    EntryKind::Directory => NodeKind::Directory,
                    EntryKind::Value => {
                        let child = match path.join(name.as_str()) {
                            Ok(c) => c,
                            Err(_) => {
                                assert(km[i as int].1 == EntryKind::Value && !valid_segment(km[i as int].0));
                                return Err(FsError::Io);
                            },
                        };
                        match read_entry(db, &child)? {
                            Some(e) => {
                                proof {
                                    if e.value is Some {
                                        lemma_model_parts(e.value->0);
                                    }
                                }
                                match &e.value {
                                    Some(Value::Scalar(_)) => NodeKind::RegularFile,
                                    _ => NodeKind::Directory,
                                }
                            },
                            None => NodeKind::Directory,
                        }
                    },
                };
                let ghost before = out@;
                out.push((name.clone(), k));
                assert(entry_names(out@) =~= target.take(i + 1)) by {
                    assert forall|j: int| 0 <= j < i implies #[trigger] out@[j] == before[j] by {}
                }
                i = i + 1;
            }
            assert(target.take(i as int) =~= target);
            assert(!exists|j: int| 0 <= j < km.len() && #[trigger] km[j].1 == EntryKind::Value && !valid_segment(km[j].0));
            Ok(out)
        },
        EntryKind::Value => match &entry.value {
            Some(val) => Ok(project_listing(val)),
            None => {
                assert(entry_names(out@) =~= Seq::<(Seq<char>, NodeKind)>::empty());
                Ok(out)
            },
        },
    }
}

pub open spec fn type_attr_name() -> Seq<char> {
    "user.alefs.type"@
}

pub open spec fn member_attr_name() -> Seq<char> {
    "user.alefs.member"@
}

/// The value of the extended attribute `attr` of the node at path string
/// `p`: its type label, or, for a set member, the hint of its content.
pub open spec fn xattr_outcome(kv: Kv, p: Seq<char>, attr: Seq<char>, t: Seq<(u64, Seq<char>)>) -> Result<Seq<char>, FsError> {
    match spec_parse_path(p) {
        Err(_) => Err(FsError::NotFound),
        Ok(segs) => if attr == type_attr_name() {
            match entry_of(kv, segs) {
                Some((k, v)) => Ok(type_label(k, v)),
                None => match projected(kv, segs) {
                    Some(cv) => Ok(type_label(EntryKind::Value, Some(cv))),
                    None => Err(FsError::NotFound),
                },
            }
        } else if attr == member_attr_name() {
            if segs.len() == 0 {
                Err(FsError::NoData)
            } else {
                match entry_of(kv, segs.drop_last()) {
                    Some((_, Some(ValueModel::SetOf(ms)))) => match named_member(ms, segs.last()) {
                        Some(m) => Ok(member_hint(m, t)),
                        None => Err(FsError::NoData),
                    },
                    _ => Err(FsError::NoData),
                }
            }
        } else {
            Err(FsError::NoData)
        },
    }
}

/// The value of the extended attribute `attr` of the node at path string
/// `p`.
#[verifier::spinoff_prover]
#[verifier::rlimit(40)]
pub fn fs_getxattr<S: Storage>(db: &Database<S>, p: &str, attr: &str, floats: &FloatTexts) -> (r: Result<String, FsError>)
    ensures
        db.reads_ok() ==> r != Err::<String, FsError>(FsError::Io),
        r == Err::<String, FsError>(FsError::Io) || match xattr_outcome(db.kv(), p@, attr@, texts_model(floats@)) {
            Ok(x) => r matches Ok(v) && v@ == x,
            Err(e) => r == Err::<String, FsError>(e),
        },
        spec_parse_path(p@) is Err ==> r == Err::<String, FsError>(FsError::NotFound),
        spec_parse_path(p@) is Ok && attr@ != "user.alefs.type"@ && attr@ != "user.alefs.member"@ ==> r
            == Err::<String, FsError>(FsError::NoData),
        spec_parse_path(p@) == Ok::<Seq<Seq<char>>, PathErr>(Seq::empty()) && attr@ == "user.alefs.member"@ ==> r
            == Err::<String, FsError>(FsError::NoData),
{
    proof {
        reveal_strlit("user.alefs.type");
        reveal_strlit("user.alefs.member");
        assert("user.alefs.type"@[11] != "user.alefs.member"@[11]);
        assert("user.alefs.type"@ != "user.alefs.member"@);
    }
    let path = match DbPath::parse(p) {
        Ok(x) => x,
        Err(_) => return Err(FsError::NotFound),
    };
    if str_is(attr, "user.alefs.type") {
        match read_entry(db, &path)? {
            Some(entry) => match &entry.value {
                Some(v) => Ok(type_xattr(Some(v), entry.kind)),
                None => Ok(type_xattr(None, entry.kind)),
            },
            None => match read_projected(db, &path)? {
                Some(cv) => Ok(type_xattr(Some(&cv), EntryKind::Value)),
                None => Err(FsError::NotFound),
            },
        }
    } else if str_is(attr, "user.alefs.member") {
        let parent = match path.parent() {
            Some(x) => x,
            None => return Err(FsError::NoData),
        };
        let name = match path.last_segment() {
            Some(n) => n,
            None => return Err(FsError::NoData),
        };
        match read_entry(db, &parent)? {
            Some(entry) => {
                proof {
                    if entry.value is Some {
                        lemma_model_parts(entry.value->0);
                    }
                }
                match &entry.value {
                    Some(Value::SetOf(ms)) => match find_member(ms, name.as_str()) {
                        Some(m) => Ok(format_member_hint(&m, floats)),
                        None => Err(FsError::NoData),
                    },
                    _ => Err(FsError::NoData),
                }
            },
            None => Err(FsError::NoData),
        }
    } else {
        Err(FsError::NoData)
    }
}

// ---------------------------------------------------------------------------
// Changes made through the file system

/// A change of the store specified by `s`, done as one commit: on success
/// the specified store; where the change is refused, an error with the
/// store unchanged (`refused`). Only on a store that is not `reliable` may
/// storage fail, with `Io` and the store unchanged or changed as specified.
pub open spec fn change_agrees<T>(
    r: Result<T, FsError>,
    before: Kv,
    after: Kv,
    s: Result<Kv, NsErr>,
    refused: FsError,
    ok: spec_fn(T) -> bool,
    reliable: bool,
) -> bool {
    match s {
        Ok(m) => (r matches Ok(x) && ok(x) && after == m) || (!reliable && r == Err::<T, FsError>(FsError::Io) && (
        after == before || after == m)),
        Err(_) => (r == Err::<T, FsError>(refused) || (!reliable && r == Err::<T, FsError>(FsError::Io))) && after
            == before,
    }
}

/// Making the directory `name` inside the one at `parent`.
pub open spec fn mkdir_agrees(r: Result<String, FsError>, before: Kv, after: Kv, parent: Seq<char>, name: Seq<char>, reliable: bool) -> bool {
    let child = child_path_text(parent, name);
    match spec_parse_path(child) {
        Err(_) => r == Err::<String, FsError>(FsError::Invalid) && after == before,
        Ok(segs) => change_agrees(r, before, after, spec_mkdir(before, segs, true), FsError::Io, |c: String| c@ == child, reliable),
    }
}

fn change_result(r: Result<(), NsError>) -> (x: Result<(), FsError>)
    ensures
        r is Ok ==> x is Ok,
        r is Err ==> x == Err::<(), FsError>(FsError::Io),
{
    match r {
        Ok(()) => Ok(()),
        Err(_) => Err(FsError::Io),
    }
}

/// Make the directory `name` inside the one at path string `parent`;
/// gives the new directory's path string.
pub fn fs_mkdir<S: Storage>(db: &mut Database<S>, parent: &str, name: &str) -> (r: Result<String, FsError>)
    ensures
        mkdir_agrees(r, old(db).kv(), final(db).kv(), parent@, name@, old(db).reliable()),
{
    proof {
        if db.reliable() {
            db.lemma_reliable_reads();
        }
    }
    let child = child_path(parent, name);
    let path = match DbPath::parse(child.as_str()) {
        Ok(p) => p,
        Err(_) => return Err(FsError::Invalid),
    };
    match db.mkdir(&path) {
        Ok(()) => Ok(child),
        Err(_) => Err(FsError::Io),
    }
}

/// Removing the entry at `child`: a value or an empty directory.
pub open spec fn delete_agrees(r: Result<(), FsError>, before: Kv, after: Kv, child: Seq<char>, reliable: bool) -> bool {
    match spec_parse_path(child) {
        Err(_) => r == Err::<(), FsError>(FsError::Invalid) && after == before,
        Ok(segs) => change_agrees(r, before, after, spec_delete(before, segs, true), FsError::Io, |x: ()| true, reliable),
    }
}

/// The structure at `parent` with the member `name` removed, and the
/// structure's path, where there is such a member.
pub open spec fn member_removal(kv: Kv, parent: Seq<char>, name: Seq<char>) -> Option<(Seq<Seq<char>>, ValueModel)> {
    match spec_parse_path(parent) {
        Err(_) => None,
        Ok(ps) => match entry_of(kv, ps) {
            Some((_, Some(val))) => match unlink_value(val, name) {
                Some(nv) => Some((ps, nv)),
                None => None,
            },
            _ => None,
        },
    }
}

/// Removing `name` from the directory at `parent`: a member of the
/// structure there is removed by rewriting the structure; where there is
/// none, or the rewrite is refused, the entry at the child path is deleted.
pub open spec fn unlink_agrees(r: Result<(), FsError>, before: Kv, after: Kv, parent: Seq<char>, name: Seq<char>, reliable: bool) -> bool {
    let child = child_path_text(parent, name);
    (!reliable && r == Err::<(), FsError>(FsError::Io) && after == before) || match member_removal(before, parent, name) {
        Some((ps, nv)) => match spec_set(before, ps, nv, true) {
            Ok(m) => (r is Ok && after == m) || (!reliable && r == Err::<(), FsError>(FsError::Io) && after == m),
            Err(_) => delete_agrees(r, before, after, child, reliable),
        },
        None => delete_agrees(r, before, after, child, reliable),
    }
}

/// Remove `name` from the directory at path string `parent`.
pub fn fs_unlink<S: Storage>(db: &mut Database<S>, parent: &str, name: &str) -> (r: Result<(), FsError>)
    ensures
        unlink_agrees(r, old(db).kv(), final(db).kv(), parent@, name@, old(db).reliable()),
{
    proof {
        if db.reliable() {
            db.lemma_reliable_reads();
        }
    }
    let child = child_path(parent, name);
    if let Ok(pdb) = DbPath::parse(parent) {
        let entry = match read_entry(db, &pdb) {
            Ok(e) => e,
            Err(e) => return Err(e),
        };
        if let Some(entry) = entry {
            if let Some(val) = entry.value {
                if let Some(nv) = project_unlink(val, name) {
                    match db.set(&pdb, nv) {
                        Ok(()) => return Ok(()),
                        Err(NsError::Storage(_)) => return Err(FsError::Io),
                        Err(_) => {},
                    }
                }
            }
        }
    }
    match DbPath::parse(child.as_str()) {
        Ok(p) => change_result(db.delete(&p)),
        Err(_) => Err(FsError::Invalid),
    }
}

/// Creating the empty file `name` in the directory at `parent`: a new
/// empty-string member where a hash is there, else an empty string value
/// at the child path.
pub open spec fn create_agrees(r: Result<String, FsError>, before: Kv, after: Kv, parent: Seq<char>, name: Seq<char>, reliable: bool) -> bool {
    let child = child_path_text(parent, name);
    let empty = ValueModel::Scalar(ScalarModel::Str(Seq::empty()));
    let at_child = match spec_parse_path(child) {
        Err(_) => r == Err::<String, FsError>(FsError::Invalid) && after == before,
        Ok(segs) => change_agrees(r, before, after, spec_set(before, segs, empty, true), FsError::Io, |c: String| c@ == child, reliable),
    };
    (!reliable && r == Err::<String, FsError>(FsError::Io) && after == before) || match spec_parse_path(parent) {
        Ok(ps) => match entry_of(before, ps) {
            Some((_, Some(ValueModel::Hash(es)))) => match spec_set(before, ps, ValueModel::Hash(str_insert(es, name, empty)), true) {
                Ok(m) => (r matches Ok(c) && c@ == child && after == m) || (!reliable && r == Err::<String, FsError>(FsError::Io) && after == m),
                Err(_) => at_child,
            },
            _ => at_child,
        },
        Err(_) => at_child,
    }
}

/// Create the empty file `name` in the directory at path string `parent`;
/// gives its path string.
#[verifier::spinoff_prover]
#[verifier::rlimit(40)]
pub fn fs_create<S: Storage>(db: &mut Database<S>, parent: &str, name: &str) -> (r: Result<String, FsError>)
    ensures
        create_agrees(r, old(db).kv(), final(db).kv(), parent@, name@, old(db).reliable()),
{
    proof {
        if db.reliable() {
            db.lemma_reliable_reads();
        }
    }
    let child = child_path(parent, name);
    proof {
        reveal_strlit("");
    }
    if let Ok(pdb) = DbPath::parse(parent) {
        let entry = match read_entry(db, &pdb) {
            Ok(e) => e,
            Err(e) => return Err(e),
        };
        if let Some(entry) = entry {
            proof {
                if entry.value is Some {
                    lemma_model_parts(entry.value->0);
                }
            }
            if let Some(Value::Hash(m)) = entry.value {
                let mut m = m;
                let empty = Value::string("");
                assert(""@ =~= Seq::<char>::empty());
    assert(empty.model() == ValueModel::Scalar(ScalarModel::Str(Seq::empty())));
                m.insert(text(name), empty);
                let v = Value::Hash(m);
                proof {
                    lemma_model_parts(v);
                }
                match db.set(&pdb, v) {
                    Ok(()) => return Ok(child),
                    Err(NsError::Storage(_)) => return Err(FsError::Io),
                    Err(_) => {},
                }
            }
        }
    }
    let path = match DbPath::parse(child.as_str()) {
        Ok(p) => p,
        Err(_) => return Err(FsError::Invalid),
    };
    let empty = Value::string("");
    assert(""@ =~= Seq::<char>::empty());
    assert(empty.model() == ValueModel::Scalar(ScalarModel::Str(Seq::empty())));
    match db.set(&path, empty) {
        Ok(()) => Ok(child),
        Err(_) => Err(FsError::Io),
    }
}

/// Writing `data` over the file at path string `p`: a scalar keeps its
/// type and takes the written text; so does a scalar member of a hash
/// (a missing member counts as an empty string). Text that does not fit
/// the type is `Invalid`; a file that is not a scalar is `NotPermitted`.
pub open spec fn commit_agrees(
    r: Result<(), FsError>,
    before: Kv,
    after: Kv,
    p: Seq<char>,
    data: Seq<u8>,
    b: Seq<(Seq<char>, u64)>,
    reliable: bool,
) -> bool {
    (!reliable && r == Err::<(), FsError>(FsError::Io) && after == before) || match spec_parse_path(p) {
        Err(_) => r == Err::<(), FsError>(FsError::Invalid) && after == before,
        Ok(segs) => match entry_of(before, segs) {
            Some((_, Some(ValueModel::Scalar(existing)))) => match scalar_from_text(existing, data, b) {
                None => r == Err::<(), FsError>(FsError::Invalid) && after == before,
                Some(ns) => change_agrees(
                    r,
                    before,
                    after,
                    spec_set(before, segs, ValueModel::Scalar(ns), true),
                    FsError::Io,
                    |x: ()| true,
                    reliable,
                ),
            },
            Some(_) => r == Err::<(), FsError>(FsError::NotPermitted) && after == before,
            None => {
                let member = if segs.len() == 0 {
                    None
                } else {
                    match entry_of(before, segs.drop_last()) {
                        Some((_, Some(ValueModel::Hash(es)))) => Some(es),
                        _ => None,
                    }
                };
                match member {
                    None => r == Err::<(), FsError>(FsError::NotFound) && after == before,
                    Some(es) => {
                        let existing = match str_lookup(es, segs.last()) {
                            Some(v) => v,
                            None => ValueModel::Scalar(ScalarModel::Str(Seq::empty())),
                        };
                        match existing {
                            ValueModel::Scalar(s) => match scalar_from_text(s, data, b) {
                                None => r == Err::<(), FsError>(FsError::Invalid) && after == before,
                                Some(ns) => change_agrees(
                                    r,
                                    before,
                                    after,
                                    spec_set(
                                        before,
                                        segs.drop_last(),
                                        ValueModel::Hash(str_insert(es, segs.last(), ValueModel::Scalar(ns))),
                                        true,
                                    ),
                                    FsError::Io,
                                    |x: ()| true,
                                    reliable,
                                ),
                            },
                            _ => r == Err::<(), FsError>(FsError::NotPermitted) && after == before,
                        }
                    },
                }
            },
        },
    }
}

/// Write `data` over the file at path string `p`; float text takes its
/// bits from `floats`.
#[verifier::spinoff_prover]
#[verifier::rlimit(40)]
pub fn fs_commit<S: Storage>(db: &mut Database<S>, p: &str, data: &[u8], floats: &FloatBits) -> (r: Result<(), FsError>)
    ensures
        commit_agrees(r, old(db).kv(), final(db).kv(), p@, data@, bits_model(floats@), old(db).reliable()),
{
    proof {
        if db.reliable() {
            db.lemma_reliable_reads();
        }
    }
    proof {
        reveal_strlit("");
    }
    let path = match DbPath::parse(p) {
        Ok(x) => x,
        Err(_) => return Err(FsError::Invalid),
    };
    match read_entry(db, &path) {
        Err(e) => return Err(e),
        Ok(Some(entry)) => {
            proof {
                if entry.value is Some {
                    lemma_model_parts(entry.value->0);
                }
            }
            if let Some(Value::Scalar(existing)) = &entry.value {
                let ns = match parse_scalar_text(existing, data, floats) {
                    Ok(x) => x,
                    Err(()) => return Err(FsError::Invalid),
                };
                return change_result(db.set(&path, Value::Scalar(ns)));
            }
            return Err(FsError::NotPermitted);
        },
        Ok(None) => {},
    }
    let parent = match path.parent() {
        Some(x) => x,
        None => return Err(FsError::NotFound),
    };
    let entry = match read_entry(db, &parent) {
        Err(e) => return Err(e),
        Ok(Some(e)) => e,
        Ok(None) => return Err(FsError::NotFound),
    };
    proof {
        if entry.value is Some {
            lemma_model_parts(entry.value->0);
        }
    }
    let mut m = match entry.value {
        Some(Value::Hash(m)) => m,
        _ => return Err(FsError::NotFound),
    };
    let name = match path.last_segment() {
        Some(n) => n.clone(),
        None => return Err(FsError::NotFound),
    };
    let existing = match m.get(name.as_str()) {
        Some(v) => v.deep_clone(),
        None => Value::string(""),
    };
    match existing {
        Value::Scalar(s) => {
            let ns = match parse_scalar_text(&s, data, floats) {
                Ok(x) => x,
                Err(()) => return Err(FsError::Invalid),
            };
            m.insert(name, Value::Scalar(ns));
            let v = Value::Hash(m);
            proof {
                lemma_model_parts(v);
            }
            change_result(db.set(&parent, v))
        },
        _ => Err(FsError::NotPermitted),
    }
}

} // verus!
