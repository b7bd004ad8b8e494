//! Values as JSON documents and back. Floating-point text is not computed
//! here: export takes a table from float bits to their decimal text, import a
//! table from float literals to bits.

use vstd::prelude::*;
use vstd::utf8::encode_utf8;
use crate::errors::{storage_failed, NsError, NsErr, text};
use crate::fmt::{decimal, decimal_i, i64_to_string, push_decimal};
use crate::hex::{hex_text, spec_decode_hex, encode_bytes, decode_bytes};
use crate::json::{JsonVal, JsonModel, json_models, member_models, lemma_json_model_parts, is_digit, digits_value};
use crate::strings::{chars_of, string_of_chars, string_push};
use crate::value::{
    Value, ValueModel, Scalar, ScalarModel, StrMap, ScalarMap, str_insert, scalar_insert, models,
    str_entry_models, scalar_entry_models, lemma_model_parts,
};

verus! {

/// Decimal texts of floats, by their bits.
pub type FloatTexts = Vec<(u64, String)>;

/// Bits of float literals, by their text.
pub type FloatBits = Vec<(String, u64)>;

pub open spec fn texts_model(t: Seq<(u64, String)>) -> Seq<(u64, Seq<char>)> {
    Seq::new(t.len(), |i: int| (t[i].0, t[i].1@))
}

pub open spec fn bits_model(t: Seq<(String, u64)>) -> Seq<(Seq<char>, u64)> {
    Seq::new(t.len(), |i: int| (t[i].0@, t[i].1))
}

/// A float is finite unless its exponent bits are all ones.
pub open spec fn float_finite(bits: u64) -> bool {
    (bits >> 52u64) & 0x7ffu64 != 0x7ffu64
}

/// The text recorded for `bits`: the first entry with those bits.
pub open spec fn text_for(t: Seq<(u64, Seq<char>)>, bits: u64) -> Option<Seq<char>>
    decreases t.len(),
{
    if t.len() == 0 {
        None
    } else if t[0].0 == bits {
        Some(t[0].1)
    } else {
        text_for(t.drop_first(), bits)
    }
}

/// The bits recorded for a literal: the first entry with that text.
pub open spec fn bits_for(t: Seq<(Seq<char>, u64)>, lit: Seq<char>) -> Option<u64>
    decreases t.len(),
{
    if t.len() == 0 {
        None
    } else if t[0].0 == lit {
        Some(t[0].1)
    } else {
        bits_for(t.drop_first(), lit)
    }
}

pub open spec fn float_word() -> Seq<char> {
    seq!['f', 'l', 'o', 'a', 't', ':']
}

/// `float:` and the decimal bits: how a float without decimal text is kept.
pub open spec fn float_fallback(bits: u64) -> Seq<char> {
    float_word() + decimal(bits as nat)
}

/// A float value as JSON: its decimal text when finite and known, else a
/// string holding its bits.
pub open spec fn float_json(t: Seq<(u64, Seq<char>)>, bits: u64) -> JsonModel {
    if float_finite(bits) && text_for(t, bits) is Some {
        JsonModel::FloatText(text_for(t, bits)->Some_0)
    } else {
        JsonModel::Str(float_fallback(bits))
    }
}

/// The object key a tree key is written under.
pub open spec fn scalar_key_text(s: ScalarModel, t: Seq<(u64, Seq<char>)>) -> Seq<char> {
    match s {
        ScalarModel::Null => seq!['n', 'u', 'l', 'l'],
        ScalarModel::Bool(b) => if b {
            seq!['t', 'r', 'u', 'e']
        } else {
            seq!['f', 'a', 'l', 's', 'e']
        },
        ScalarModel::Int(n) => decimal_i(n as int),
        ScalarModel::Float(bits) => seq!['f', ':'] + match text_for(t, bits) {
            Some(x) => x,
            None => float_fallback(bits),
        },
        ScalarModel::Str(s) => s,
        ScalarModel::Bytes(b) => seq!['b', ':'] + hex_text(b),
    }
}

pub open spec fn word_hash() -> Seq<char> {
    seq!['_', '_', 'h', 'a', 's', 'h']
}

pub open spec fn word_set() -> Seq<char> {
    seq!['_', '_', 's', 'e', 't']
}

pub open spec fn word_tree() -> Seq<char> {
    seq!['_', '_', 't', 'r', 'e', 'e']
}

pub open spec fn word_bytes() -> Seq<char> {
    seq!['_', '_', 'b', 'y', 't', 'e', 's']
}

pub open spec fn word_dir() -> Seq<char> {
    seq!['_', '_', 'd', 'i', 'r']
}

/// The JSON members of a hash or tree value.
pub open spec fn value_members(v: ValueModel, t: Seq<(u64, Seq<char>)>) -> Seq<(Seq<char>, JsonModel)>
    decreases v, 0int,
{
    match v {
        ValueModel::Hash(es) => Seq::new(
            es.len(),
            |i: int|
                if 0 <= i < es.len() {
                    (es[i].0, value_json(es[i].1, t))
                } else {
                    (Seq::empty(), JsonModel::Null)
                },
        ),
        ValueModel::Tree(es) => Seq::new(
            es.len(),
            |i: int|
                if 0 <= i < es.len() {
                    (scalar_key_text(es[i].0, t), value_json(es[i].1, t))
                } else {
                    (Seq::empty(), JsonModel::Null)
                },
        ),
        _ => Seq::empty(),
    }
}

/// The JSON items of a list or set value.
pub open spec fn value_items(v: ValueModel, t: Seq<(u64, Seq<char>)>) -> Seq<JsonModel>
    decreases v, 0int,
{
    match v {
        ValueModel::List(vs) => Seq::new(
            vs.len(),
            |i: int|
                if 0 <= i < vs.len() {
                    value_json(vs[i], t)
                } else {
                    JsonModel::Null
                },
        ),
        ValueModel::SetOf(ms) => Seq::new(
            ms.len(),
            |i: int|
                if 0 <= i < ms.len() {
                    value_json(ms[i], t)
                } else {
                    JsonModel::Null
                },
        ),
        _ => Seq::empty(),
    }
}

/// The JSON form of a value.
pub open spec fn value_json(v: ValueModel, t: Seq<(u64, Seq<char>)>) -> JsonModel
    decreases v, 1int,
{
    match v {
        ValueModel::Scalar(ScalarModel::Null) => JsonModel::Null,
        ValueModel::Scalar(ScalarModel::Bool(b)) => JsonModel::Bool(b),
        ValueModel::Scalar(ScalarModel::Int(n)) => JsonModel::Number(n),
        ValueModel::Scalar(ScalarModel::Float(bits)) => float_json(t, bits),
        ValueModel::Scalar(ScalarModel::Str(s)) => JsonModel::Str(s),
        ValueModel::Scalar(ScalarModel::Bytes(b)) => JsonModel::BytesHex(hex_text(b)),
        ValueModel::Hash(_) => JsonModel::Object(seq![(word_hash(), JsonModel::Object(value_members(v, t)))]),
        ValueModel::List(_) => JsonModel::Array(value_items(v, t)),
        ValueModel::SetOf(_) => JsonModel::Object(seq![(word_set(), JsonModel::Array(value_items(v, t)))]),
        ValueModel::Tree(_) => JsonModel::Object(seq![(word_tree(), JsonModel::Object(value_members(v, t)))]),
    }
}

fn word(s: &str) -> (r: String)
    ensures
        r@ == s@,
{
    s.to_owned()
}

pub(crate) fn lookup_text(t: &FloatTexts, bits: u64) -> (r: Option<String>)
    ensures
        match text_for(texts_model(t@), bits) {
            Some(x) => r matches Some(s) && s@ == x,
            None => r is None,
        },
{
    let ghost tm = texts_model(t@);
    let mut i: usize = 0;
    assert(tm.skip(0) =~= tm);
    while i < t.len()
        invariant
            i <= t@.len(),
            tm == texts_model(t@),
            text_for(tm, bits) == text_for(tm.skip(i as int), bits),
        decreases t@.len() - i,
    {
        assert(tm.skip(i as int)[0] == tm[i as int]);
        assert(tm.skip(i as int).drop_first() =~= tm.skip(i + 1));
        if t[i].0 == bits {
            return Some(t[i].1.clone());
        }
        i = i + 1;
    }
    None
}

fn is_finite_bits(bits: u64) -> (b: bool)
    ensures
        b == float_finite(bits),
{
    (bits >> 52u64) & 0x7ffu64 != 0x7ffu64
}

pub(crate) fn fallback_text(bits: u64) -> (r: String)
    ensures
        r@ == float_fallback(bits),
{
    let mut s = word("float:");
    proof {
        reveal_strlit("float:");
    }
    assert(s@ =~= float_word());
    push_decimal(&mut s, bits);
    s
}

fn float_to_json(t: &FloatTexts, bits: u64) -> (r: JsonVal)
    ensures
        r.model() == float_json(texts_model(t@), bits),
{
    if is_finite_bits(bits) {
        if let Some(x) = lookup_text(t, bits) {
            return JsonVal::FloatText(x);
        }
    }
    JsonVal::Str(fallback_text(bits))
}

fn push_prefix2(a: char, b: char, rest: &str) -> (r: String)
    ensures
        r@ == seq![a, b] + rest@,
{
    let mut s = String::new();
    string_push(&mut s, a);
    string_push(&mut s, b);
    s.append(rest);
    assert(s@ =~= seq![a, b] + rest@);
    s
}

/// The object key a tree key is written under.
pub fn scalar_key_str(s: &Scalar, t: &FloatTexts) -> (r: String)
    ensures
        r@ == scalar_key_text(s.model(), texts_model(t@)),
{
    proof {
        reveal_strlit("null");
        reveal_strlit("true");
        reveal_strlit("false");
    }
    match s {
        Scalar::Null => word("null"),
        Scalar::Bool(b) => if *b {
            word("true")
        } else {
            word("false")
        },
        Scalar::Int(n) => i64_to_string(*n),
        Scalar::Float(bits) => {
            let x = match lookup_text(t, *bits) {
                Some(x) => x,
                None => fallback_text(*bits),
            };
            push_prefix2('f', ':', x.as_str())
        },
        Scalar::String(x) => x.clone(),
        Scalar::Bytes(b) => {
            let h = encode_bytes(b.as_slice());
            push_prefix2('b', ':', h.as_str())
        },
    }
}

fn single_member(key: String, v: JsonVal) -> (r: JsonVal)
    ensures
        r.model() == JsonModel::Object(seq![(key@, v.model())]),
{
    let mut ms: Vec<(String, JsonVal)> = Vec::new();
    let ghost km = key@;
    let ghost vm = v.model();
    ms.push((key, v));
    let r = JsonVal::Object(ms);
    proof {
        lemma_json_model_parts(r);
        assert(member_models(ms@) =~= seq![(km, vm)]);
    }
    r
}

/// The JSON form of a value, with float text taken from `t`.
pub fn value_to_json(v: &Value, t: &FloatTexts) -> (r: JsonVal)
    ensures
        r.model() == value_json(v.model(), texts_model(t@)),
    decreases v,
{
    proof {
        lemma_model_parts(*v);
        reveal_strlit("__hash");
        reveal_strlit("__set");
        reveal_strlit("__tree");
        assert("__hash"@ =~= word_hash());
        assert("__set"@ =~= word_set());
        assert("__tree"@ =~= word_tree());
    }
    let ghost tm = texts_model(t@);
    match v {
        Value::Scalar(Scalar::Null) => JsonVal::Null,
        Value::Scalar(Scalar::Bool(b)) => JsonVal::Bool(*b),
        Value::Scalar(Scalar::Int(n)) => JsonVal::Number(*n),
        Value::Scalar(Scalar::Float(bits)) => float_to_json(t, *bits),
        Value::Scalar(Scalar::String(s)) => JsonVal::Str(s.clone()),
        Value::Scalar(Scalar::Bytes(b)) => JsonVal::BytesHex(encode_bytes(b.as_slice())),
        Value::Hash(m) => {
            assert(decreases_to!(v => m));
            assert(decreases_to!(m => m.entries));
            let out = hash_entries_to_json(&m.entries, t);
            let inner = JsonVal::Object(out);
            proof {
                lemma_json_model_parts(inner);
                assert(member_models(out@) =~= value_members(v.model(), tm));
            }
            let r = single_member(word("__hash"), inner);
            assert(r.model() == value_json(v.model(), tm));
            r
        },
        Value::List(vs) => {
            assert(decreases_to!(v => vs));
            let items = values_to_json(vs, t);
            let a = JsonVal::Array(items);
            proof {
                lemma_json_model_parts(a);
                assert(json_models(items@) =~= value_items(v.model(), tm));
            }
            assert(a.model() == value_json(v.model(), tm));
            a
        },
        Value::SetOf(vs) => {
            assert(decreases_to!(v => vs));
            let items = values_to_json(vs, t);
            let a = JsonVal::Array(items);
            proof {
                lemma_json_model_parts(a);
                assert(json_models(items@) =~= value_items(v.model(), tm));
            }
            let r = single_member(word("__set"), a);
            assert(r.model() == value_json(v.model(), tm));
            r
        },
        Value::Tree(m) => {
            assert(decreases_to!(v => m));
            assert(decreases_to!(m => m.entries));
            let out = tree_entries_to_json(&m.entries, t);
            let inner = JsonVal::Object(out);
            proof {
                lemma_json_model_parts(inner);
                assert(member_models(out@) =~= value_members(v.model(), tm));
            }
            let r = single_member(word("__tree"), inner);
            assert(r.model() == value_json(v.model(), tm));
            r
        },
    }
}

fn hash_entries_to_json(es: &Vec<(String, Value)>, t: &FloatTexts) -> (r: Vec<(String, JsonVal)>)
    ensures
        r@.len() == es@.len(),
        forall|k: int|
            0 <= k < es@.len() ==> (#[trigger] member_models(r@)[k]) == (es@[k].0@, value_json(
                es@[k].1.model(),
                texts_model(t@),
            )),
    decreases es,
{
    let ghost tm = texts_model(t@);
    let mut out: Vec<(String, JsonVal)> = Vec::new();
    let mut i: usize = 0;
    while i < es.len()
        invariant
            i <= es@.len(),
            out@.len() == i,
            tm == texts_model(t@),
            forall|k: int|
                0 <= k < i ==> (#[trigger] member_models(out@)[k]) == (es@[k].0@, value_json(
                    es@[k].1.model(),
                    tm,
                )),
        decreases es@.len() - i,
    {
        assert(decreases_to!(es => es@[i as int]));
        assert(decreases_to!(es@[i as int] => es@[i as int].1));
        let j = value_to_json(&es[i].1, t);
        let ghost before = out@;
        let ghost jm = j.model();
        out.push((es[i].0.clone(), j));
        assert forall|k: int| 0 <= k < i + 1 implies (#[trigger] member_models(out@)[k]) == (
            es@[k].0@,
            value_json(es@[k].1.model(), tm),
        ) by {
            if k < i {
                assert(out@[k] == before[k]);
                assert(member_models(before)[k] == member_models(out@)[k]);
            } else {
                assert(member_models(out@)[k] == (out@[k].0@, out@[k].1.model()));
            }
        }
        i = i + 1;
    }
    out
}

fn tree_entries_to_json(es: &Vec<(Scalar, Value)>, t: &FloatTexts) -> (r: Vec<(String, JsonVal)>)
    ensures
        r@.len() == es@.len(),
        forall|k: int|
            0 <= k < es@.len() ==> (#[trigger] member_models(r@)[k]) == (
                scalar_key_text(es@[k].0.model(), texts_model(t@)),
                value_json(es@[k].1.model(), texts_model(t@)),
            ),
    decreases es,
{
    let ghost tm = texts_model(t@);
    let mut out: Vec<(String, JsonVal)> = Vec::new();
    let mut i: usize = 0;
    while i < es.len()
        invariant
            i <= es@.len(),
            out@.len() == i,
            tm == texts_model(t@),
            forall|k: int|
                0 <= k < i ==> (#[trigger] member_models(out@)[k]) == (
                    scalar_key_text(es@[k].0.model(), tm),
                    value_json(es@[k].1.model(), tm),
                ),
        decreases es@.len() - i,
    {
        assert(decreases_to!(es => es@[i as int]));
        assert(decreases_to!(es@[i as int] => es@[i as int].1));
        let j = value_to_json(&es[i].1, t);
        let key = scalar_key_str(&es[i].0, t);
        let ghost before = out@;
        out.push((key, j));
        assert forall|k: int| 0 <= k < i + 1 implies (#[trigger] member_models(out@)[k]) == (
            scalar_key_text(es@[k].0.model(), tm),
            value_json(es@[k].1.model(), tm),
        ) by {
            if k < i {
                assert(out@[k] == before[k]);
                assert(member_models(before)[k] == member_models(out@)[k]);
            } else {
                assert(member_models(out@)[k] == (out@[k].0@, out@[k].1.model()));
            }
        }
        i = i + 1;
    }
    out
}

fn values_to_json(vs: &Vec<Value>, t: &FloatTexts) -> (r: Vec<JsonVal>)
    ensures
        r@.len() == vs@.len(),
        forall|k: int| 0 <= k < vs@.len() ==> (#[trigger] json_models(r@)[k]) == value_json(vs@[k].model(), texts_model(t@)),
    decreases vs,
{
    let mut out: Vec<JsonVal> = Vec::new();
    let mut i: usize = 0;
    while i < vs.len()
        invariant
            i <= vs@.len(),
            out@.len() == i,
            forall|k: int| 0 <= k < i ==> (#[trigger] json_models(out@)[k]) == value_json(vs@[k].model(), texts_model(t@)),
        decreases vs@.len() - i,
    {
        assert(decreases_to!(vs => vs@[i as int]));
        let j = value_to_json(&vs[i], t);
        let ghost before = out@;
        let ghost jm = j.model();
        assert(jm == value_json(vs@[i as int].model(), texts_model(t@)));
        out.push(j);
        assert(out@[i as int].model() == jm);
        assert(json_models(out@)[i as int] == out@[i as int].model());
        assert forall|k: int| 0 <= k < i + 1 implies (#[trigger] json_models(out@)[k]) == value_json(
            vs@[k].model(),
            texts_model(t@),
        ) by {
            if k < i {
                assert(out@[k] == before[k]);
                assert(json_models(before)[k] == json_models(out@)[k]);
            }
        }
        i = i + 1;
    }
    out
}

// ---------------------------------------------------------------------------
// From JSON to values

/// All the values, or the first error, in order.
pub open spec fn all_ok<V>(rs: Seq<Result<V, NsErr>>) -> Result<Seq<V>, NsErr>
    decreases rs.len(),
{
    if rs.len() == 0 {
        Ok(Seq::empty())
    } else {
        match all_ok(rs.drop_last()) {
            Err(e) => Err(e),
            Ok(vs) => match rs.last() {
                Err(e) => Err(e),
                Ok(v) => Ok(vs.push(v)),
            },
        }
    }
}

/// The entries of a hash built by inserting the members in order, or the
/// first member's error.
pub open spec fn hash_fold(ms: Seq<(Seq<char>, Result<ValueModel, NsErr>)>) -> Result<Seq<(Seq<char>, ValueModel)>, NsErr>
    decreases ms.len(),
{
    if ms.len() == 0 {
        Ok(Seq::empty())
    } else {
        match hash_fold(ms.drop_last()) {
            Err(e) => Err(e),
            Ok(acc) => match ms.last().1 {
                Err(e) => Err(e),
                Ok(v) => Ok(str_insert(acc, ms.last().0, v)),
            },
        }
    }
}

/// The entries of a tree built by inserting the members in order; for each
/// member its key's error comes before its value's.
pub open spec fn tree_fold(ms: Seq<(Result<ScalarModel, NsErr>, Result<ValueModel, NsErr>)>) -> Result<Seq<(ScalarModel, ValueModel)>, NsErr>
    decreases ms.len(),
{
    if ms.len() == 0 {
        Ok(Seq::empty())
    } else {
        match tree_fold(ms.drop_last()) {
            Err(e) => Err(e),
            Ok(acc) => match ms.last().0 {
                Err(e) => Err(e),
                Ok(k) => match ms.last().1 {
                    Err(e) => Err(e),
                    Ok(v) => Ok(scalar_insert(acc, k, v)),
                },
            },
        }
    }
}

/// `s` without a leading sign.
pub open spec fn unsigned_part(s: Seq<char>) -> Seq<char> {
    if s.len() > 0 && (s[0] == '-' || s[0] == '+') {
        s.drop_first()
    } else {
        s
    }
}

pub open spec fn all_digits(d: Seq<char>) -> bool {
    forall|i: int| 0 <= i < d.len() ==> is_digit(#[trigger] d[i])
}

/// What `i64`'s `parse` gives for a string: an optional sign, then digits.
pub open spec fn i64_text(s: Seq<char>) -> Option<i64> {
    let d = unsigned_part(s);
    let v = if s.len() > 0 && s[0] == '-' {
        -digits_value(d)
    } else {
        digits_value(d)
    };
    if d.len() == 0 || !all_digits(d) {
        None
    } else if v < i64::MIN || v > i64::MAX {
        None
    } else {
        Some(v as i64)
    }
}

/// The bytes of a `__bytes` hex string.
pub open spec fn bytes_from_hex(h: Seq<char>) -> Result<ValueModel, NsErr> {
    match spec_decode_hex(encode_utf8(h)) {
        Ok(b) => Ok(ValueModel::Scalar(ScalarModel::Bytes(b))),
        Err(m) => Err(NsErr::Invalid(m)),
    }
}

/// The message a float literal that does not parse is refused with.
pub open spec fn float_parse_error(lit: Seq<char>) -> Seq<char> {
    if lit.len() == 0 {
        "cannot parse float from empty string"@
    } else {
        "invalid float literal"@
    }
}

/// The tree key an object key stands for.
pub open spec fn parse_scalar_key_spec(s: Seq<char>, b: Seq<(Seq<char>, u64)>) -> Result<ScalarModel, NsErr> {
    if s == seq!['n', 'u', 'l', 'l'] {
        Ok(ScalarModel::Null)
    } else if s == seq!['t', 'r', 'u', 'e'] {
        Ok(ScalarModel::Bool(true))
    } else if s == seq!['f', 'a', 'l', 's', 'e'] {
        Ok(ScalarModel::Bool(false))
    } else if s.len() >= 2 && s[0] == 'f' && s[1] == ':' {
        match bits_for(b, s.skip(2)) {
            Some(bits) => Ok(ScalarModel::Float(bits)),
            None => Err(NsErr::Invalid(float_parse_error(s.skip(2)))),
        }
    } else if s.len() >= 2 && s[0] == 'b' && s[1] == ':' {
        match spec_decode_hex(encode_utf8(s.skip(2))) {
            Ok(bytes) => Ok(ScalarModel::Bytes(bytes)),
            Err(m) => Err(NsErr::Invalid(m)),
        }
    } else {
        match i64_text(s) {
            Some(n) => Ok(ScalarModel::Int(n)),
            None => Ok(ScalarModel::Str(s)),
        }
    }
}

/// The converted items of an array.
pub open spec fn json_items_values(j: JsonModel, b: Seq<(Seq<char>, u64)>) -> Seq<Result<ValueModel, NsErr>>
    decreases j, 0int,
{
    match j {
        JsonModel::Array(items) => Seq::new(
            items.len(),
            |i: int|
                if 0 <= i < items.len() {
                    json_value(items[i], b)
                } else {
                    Err(NsErr::Invalid(Seq::empty()))
                },
        ),
        _ => Seq::empty(),
    }
}

/// The converted members of an object, keyed by text.
pub open spec fn json_member_values(j: JsonModel, b: Seq<(Seq<char>, u64)>) -> Seq<(Seq<char>, Result<ValueModel, NsErr>)>
    decreases j, 0int,
{
    match j {
        JsonModel::Object(ms) => Seq::new(
            ms.len(),
            |i: int|
                if 0 <= i < ms.len() {
                    (ms[i].0, json_value(ms[i].1, b))
                } else {
                    (Seq::empty(), Err(NsErr::Invalid(Seq::empty())))
                },
        ),
        _ => Seq::empty(),
    }
}

/// The converted members of a `__tree` object, keyed by tree key.
pub open spec fn json_tree_values(j: JsonModel, b: Seq<(Seq<char>, u64)>) -> Seq<(Result<ScalarModel, NsErr>, Result<ValueModel, NsErr>)>
    decreases j, 0int,
{
    match j {
        JsonModel::Object(ms) => Seq::new(
            ms.len(),
            |i: int|
                if 0 <= i < ms.len() {
                    (parse_scalar_key_spec(ms[i].0, b), json_value(ms[i].1, b))
                } else {
                    (Err(NsErr::Invalid(Seq::empty())), Err(NsErr::Invalid(Seq::empty())))
                },
        ),
        _ => Seq::empty(),
    }
}

pub open spec fn hash_of(r: Result<Seq<(Seq<char>, ValueModel)>, NsErr>) -> Result<ValueModel, NsErr> {
    match r {
        Ok(es) => Ok(ValueModel::Hash(es)),
        Err(e) => Err(e),
    }
}

/// The value a JSON document stands for; float literals take their bits
/// from `b`.
pub open spec fn json_value(j: JsonModel, b: Seq<(Seq<char>, u64)>) -> Result<ValueModel, NsErr>
    decreases j, 1int,
{
    match j {
        JsonModel::Null => Ok(ValueModel::Scalar(ScalarModel::Null)),
        JsonModel::Bool(x) => Ok(ValueModel::Scalar(ScalarModel::Bool(x))),
        JsonModel::Number(n) => Ok(ValueModel::Scalar(ScalarModel::Int(n))),
        JsonModel::FloatText(lit) => match bits_for(b, lit) {
            Some(bits) => Ok(ValueModel::Scalar(ScalarModel::Float(bits))),
            None => Err(NsErr::Invalid("bad float"@)),
        },
        JsonModel::Float(bits) => Ok(ValueModel::Scalar(ScalarModel::Float(bits))),
        JsonModel::Str(s) => Ok(ValueModel::Scalar(ScalarModel::Str(s))),
        JsonModel::BytesHex(h) => bytes_from_hex(h),
        JsonModel::Array(_) => match all_ok(json_items_values(j, b)) {
            Ok(vs) => Ok(ValueModel::List(vs)),
            Err(e) => Err(e),
        },
        JsonModel::Object(ms) => if ms.len() == 1 {
            let k = ms[0].0;
            let v = ms[0].1;
            if k == word_bytes() && v is Str {
                bytes_from_hex(v->Str_0)
            } else if k == word_set() && v is Array {
                match all_ok(json_items_values(v, b)) {
                    Ok(vs) => Ok(ValueModel::SetOf(vs)),
                    Err(e) => Err(e),
                }
            } else if k == word_hash() && v is Object {
                hash_of(hash_fold(json_member_values(v, b)))
            } else if k == word_tree() && v is Object {
                match tree_fold(json_tree_values(v, b)) {
                    Ok(es) => Ok(ValueModel::Tree(es)),
                    Err(e) => Err(e),
                }
            } else {
                hash_of(hash_fold(json_member_values(j, b)))
            }
        } else {
            hash_of(hash_fold(json_member_values(j, b)))
        },
    }
}

proof fn lemma_all_ok_err<V>(rs: Seq<Result<V, NsErr>>, j: int)
    requires
        0 <= j <= rs.len(),
        all_ok(rs.take(j)) is Err,
    ensures
        all_ok(rs) == all_ok(rs.take(j)),
    decreases rs.len(),
{
    if j == rs.len() {
        assert(rs.take(j) =~= rs);
    } else {
        assert(rs.drop_last().take(j) =~= rs.take(j));
        lemma_all_ok_err(rs.drop_last(), j);
    }
}

proof fn lemma_hash_fold_err(ms: Seq<(Seq<char>, Result<ValueModel, NsErr>)>, j: int)
    requires
        0 <= j <= ms.len(),
        hash_fold(ms.take(j)) is Err,
    ensures
        hash_fold(ms) == hash_fold(ms.take(j)),
    decreases ms.len(),
{
    if j == ms.len() {
        assert(ms.take(j) =~= ms);
    } else {
        assert(ms.drop_last().take(j) =~= ms.take(j));
        lemma_hash_fold_err(ms.drop_last(), j);
    }
}

proof fn lemma_tree_fold_err(ms: Seq<(Result<ScalarModel, NsErr>, Result<ValueModel, NsErr>)>, j: int)
    requires
        0 <= j <= ms.len(),
        tree_fold(ms.take(j)) is Err,
    ensures
        tree_fold(ms) == tree_fold(ms.take(j)),
    decreases ms.len(),
{
    if j == ms.len() {
        assert(ms.take(j) =~= ms);
    } else {
        assert(ms.drop_last().take(j) =~= ms.take(j));
        lemma_tree_fold_err(ms.drop_last(), j);
    }
}

pub(crate) fn lookup_bits(b: &FloatBits, lit: &str) -> (r: Option<u64>)
    ensures
        r == bits_for(bits_model(b@), lit@),
{
    let ghost bm = bits_model(b@);
    let mut i: usize = 0;
    assert(bm.skip(0) =~= bm);
    while i < b.len()
        invariant
            i <= b@.len(),
            bm == bits_model(b@),
            bits_for(bm, lit@) == bits_for(bm.skip(i as int), lit@),
        decreases b@.len() - i,
    {
        assert(bm.skip(i as int)[0] == bm[i as int]);
        assert(bm.skip(i as int).drop_first() =~= bm.skip(i + 1));
        if crate::order::compare_str(b[i].0.as_str(), lit) == crate::order::Order::Equal {
            return Some(b[i].1);
        }
        i = i + 1;
    }
    None
}

/// `i64`'s parse of a string.
pub fn parse_i64_str(s: &str) -> (r: Option<i64>)
    ensures
        r == i64_text(s@),
{
    let cs = chars_of(s);
    let n = cs.len();
    let signed = n > 0 && (cs[0] == '-' || cs[0] == '+');
    let neg = n > 0 && cs[0] == '-';
    let start: usize = if signed {
        1
    } else {
        0
    };
    let ghost d = cs@.skip(start as int);
    assert(d =~= unsigned_part(s@));
    if start == n {
        return None;
    }
    let limit: i128 = 9223372036854775808;
    let mut acc: i128 = 0;
    let mut k = start;
    while k < n
        invariant
            start <= k <= n,
            n == cs@.len(),
            cs@ == s@,
            d == cs@.skip(start as int),
            d == unsigned_part(s@),
            neg == (s@.len() > 0 && s@[0] == '-'),
            d.len() > 0,
            forall|q: int| 0 <= q < k - start ==> is_digit(#[trigger] d[q]),
            acc == digits_value(d.take(k - start)),
            0 <= acc <= limit,
            limit == 9223372036854775808,
        decreases n - k,
    {
        let c = cs[k];
        if !('0' <= c && c <= '9') {
            assert(d[k - start] == c);
            assert(!is_digit(d[k - start]));
            return None;
        }
        assert(d.take(k + 1 - start).drop_last() =~= d.take(k - start));
        assert(d.take(k + 1 - start).last() == c);
        let digit = (c as u32 - '0' as u32) as i128;
        acc = acc * 10 + digit;
        assert(acc == digits_value(d.take(k + 1 - start)));
        if acc > limit {
            let mut q = k + 1;
            while q < n
                invariant
                    start <= k,
                    k + 1 <= q <= n,
                    n == cs@.len(),
                    cs@ == s@,
                    d == cs@.skip(start as int),
                    d.len() == n - start,
                    d == unsigned_part(s@),
                    forall|p: int| 0 <= p < q - start ==> is_digit(#[trigger] d[p]),
                decreases n - q,
            {
                if !('0' <= cs[q] && cs[q] <= '9') {
                    assert(d[q - start] == cs@[q as int]);
                    assert(!is_digit(d[q - start]));
                    return None;
                }
                q = q + 1;
            }
            proof {
                lemma_digits_value_grows(d, k + 1 - start);
            }
            return None;
        }
        k = k + 1;
    }
    assert(d.take(k - start) =~= d);
    assert(all_digits(d));
    if neg {
        Some((0 - acc) as i64)
    } else {
        if acc > 9223372036854775807 {
            return None;
        }
        Some(acc as i64)
    }
}

proof fn lemma_digits_value_grows(d: Seq<char>, k: int)
    requires
        0 <= k <= d.len(),
        forall|i: int| 0 <= i < d.len() ==> is_digit(#[trigger] d[i]),
    ensures
        digits_value(d) >= digits_value(d.take(k)) >= 0,
    decreases d.len(),
{
    if k == d.len() {
        assert(d.take(k) =~= d);
        lemma_digits_value_nonneg(d);
    } else {
        assert(d.drop_last().take(k) =~= d.take(k));
        lemma_digits_value_grows(d.drop_last(), k);
        lemma_digits_value_nonneg(d.drop_last());
    }
}

proof fn lemma_digits_value_nonneg(d: Seq<char>)
    requires
        forall|i: int| 0 <= i < d.len() ==> is_digit(#[trigger] d[i]),
    ensures
        digits_value(d) >= 0,
    decreases d.len(),
{
    if d.len() > 0 {
        lemma_digits_value_nonneg(d.drop_last());
    }
}

fn str_skip2(cs: &Vec<char>) -> (r: String)
    requires
        cs@.len() >= 2,
    ensures
        r@ == cs@.skip(2),
{
    let mut out = String::new();
    let mut k: usize = 2;
    while k < cs.len()
        invariant
            2 <= k <= cs@.len(),
            out@ == cs@.subrange(2, k as int),
        decreases cs@.len() - k,
    {
        string_push(&mut out, cs[k]);
        assert(cs@.subrange(2, k + 1) =~= cs@.subrange(2, k as int).push(cs@[k as int]));
        k = k + 1;
    }
    assert(cs@.subrange(2, k as int) =~= cs@.skip(2));
    out
}

/// The tree key an object key stands for.
pub fn parse_scalar_key(s: &str, b: &FloatBits) -> (r: Result<Scalar, NsError>)
    ensures
        match parse_scalar_key_spec(s@, bits_model(b@)) {
            Ok(k) => r matches Ok(x) && x.model() == k,
            Err(e) => r matches Err(x) && x.model() == e,
        },
{
    proof {
        reveal_strlit("null");
        reveal_strlit("true");
        reveal_strlit("false");
        reveal_strlit("cannot parse float from empty string");
        reveal_strlit("invalid float literal");
        assert("null"@ =~= seq!['n', 'u', 'l', 'l']);
        assert("true"@ =~= seq!['t', 'r', 'u', 'e']);
        assert("false"@ =~= seq!['f', 'a', 'l', 's', 'e']);
    }
    let cs = chars_of(s);
    let n = cs.len();
    if crate::order::compare_str(s, "null") == crate::order::Order::Equal {
        assert(s@ == seq!['n', 'u', 'l', 'l']);
        return Ok(Scalar::Null);
    }
    assert(s@ != seq!['n', 'u', 'l', 'l']);
    if crate::order::compare_str(s, "true") == crate::order::Order::Equal {
        assert(s@ == seq!['t', 'r', 'u', 'e']);
        return Ok(Scalar::Bool(true));
    }
    assert(s@ != seq!['t', 'r', 'u', 'e']);
    if crate::order::compare_str(s, "false") == crate::order::Order::Equal {
        assert(s@ == seq!['f', 'a', 'l', 's', 'e']);
        return Ok(Scalar::Bool(false));
    }
    assert(s@ != seq!['f', 'a', 'l', 's', 'e']);
    if n >= 2 && cs[0] == 'f' && cs[1] == ':' {
        let rest = str_skip2(&cs);
        return match lookup_bits(b, rest.as_str()) {
            Some(bits) => Ok(Scalar::Float(bits)),
            None => if n == 2 {
                Err(NsError::Invalid(word("cannot parse float from empty string")))
            } else {
                Err(NsError::Invalid(word("invalid float literal")))
            },
        };
    }
    if n >= 2 && cs[0] == 'b' && cs[1] == ':' {
        let rest = str_skip2(&cs);
        return match decode_bytes(rest.as_str()) {
            Ok(v) => Ok(Scalar::Bytes(v)),
            Err(m) => Err(NsError::Invalid(m)),
        };
    }
    match parse_i64_str(s) {
        Some(x) => Ok(Scalar::Int(x)),
        None => Ok(Scalar::String(s.to_owned())),
    }
}

fn bytes_value(h: &str) -> (r: Result<Value, NsError>)
    ensures
        match bytes_from_hex(h@) {
            Ok(v) => r matches Ok(x) && x.model() == v,
            Err(e) => r matches Err(x) && x.model() == e,
        },
{
    match decode_bytes(h) {
        Ok(v) => Ok(Value::bytes(v)),
        Err(m) => Err(NsError::Invalid(m)),
    }
}

/// The value a JSON document stands for; float literals take their bits
/// from `b`.
#[verifier::spinoff_prover]
#[verifier::rlimit(40)]
pub fn json_to_value(v: &JsonVal, b: &FloatBits) -> (r: Result<Value, NsError>)
    ensures
        !storage_failed(r),
        match json_value(v.model(), bits_model(b@)) {
            Ok(m) => r matches Ok(x) && x.model() == m,
            Err(e) => r matches Err(x) && x.model() == e,
        },
    decreases v,
{
    proof {
        lemma_json_model_parts(*v);
        reveal_strlit("bad float");
        reveal_strlit("__bytes");
        reveal_strlit("__set");
        reveal_strlit("__hash");
        reveal_strlit("__tree");
        assert("__bytes"@ =~= word_bytes());
        assert("__set"@ =~= word_set());
        assert("__hash"@ =~= word_hash());
        assert("__tree"@ =~= word_tree());
    }
    match v {
        JsonVal::Null => Ok(Value::null()),
        JsonVal::Bool(x) => Ok(Value::bool(*x)),
        JsonVal::Number(n) => Ok(Value::integer(*n)),
        JsonVal::FloatText(lit) => match lookup_bits(b, lit.as_str()) {
            Some(bits) => Ok(Value::Scalar(Scalar::Float(bits))),
            None => Err(NsError::Invalid(word("bad float"))),
        },
        JsonVal::Float(bits) => Ok(Value::Scalar(Scalar::Float(*bits))),
        JsonVal::Str(s) => Ok(Value::Scalar(Scalar::String(s.clone()))),
        JsonVal::BytesHex(h) => bytes_value(h.as_str()),
        JsonVal::Array(items) => {
            assert(decreases_to!(v => items));
            let vs = items_to_values(items, b)?;
            let l = Value::List(vs);
            proof {
                lemma_model_parts(l);
            }
            Ok(l)
        },
        JsonVal::Object(ms) => {
            if ms.len() == 1 {
                let k = &ms[0].0;
                let inner = &ms[0].1;
                assert(decreases_to!(v => ms));
                assert(decreases_to!(ms => ms@[0]));
                assert(decreases_to!(ms@[0] => ms@[0].1));
                proof {
                    lemma_json_model_parts(*inner);
                }
                let special = crate::order::compare_str(k.as_str(), "__bytes") == crate::order::Order::Equal;
                if special {
                    if let JsonVal::Str(h) = inner {
                        return bytes_value(h.as_str());
                    }
                }
                if crate::order::compare_str(k.as_str(), "__set") == crate::order::Order::Equal {
                    if let JsonVal::Array(items) = inner {
                        assert(decreases_to!(ms@[0].1 => items));
                        let vs = items_to_values(items, b)?;
                        let s = Value::SetOf(vs);
                        proof {
                            lemma_model_parts(s);
                        }
                        return Ok(s);
                    }
                }
                if crate::order::compare_str(k.as_str(), "__hash") == crate::order::Order::Equal {
                    if let JsonVal::Object(inner_ms) = inner {
                        assert(decreases_to!(ms@[0].1 => inner_ms));
                        let m = members_to_hash(inner_ms, b)?;
                        let h = Value::Hash(m);
                        proof {
                            lemma_model_parts(h);
                        }
                        return Ok(h);
                    }
                }
                if crate::order::compare_str(k.as_str(), "__tree") == crate::order::Order::Equal {
                    if let JsonVal::Object(inner_ms) = inner {
                        assert(decreases_to!(ms@[0].1 => inner_ms));
                        let m = members_to_tree(inner_ms, b)?;
                        let t = Value::Tree(m);
                        proof {
                            lemma_model_parts(t);
                        }
                        return Ok(t);
                    }
                }
            }
            assert(decreases_to!(v => ms));
            let m = members_to_hash(ms, b)?;
            let h = Value::Hash(m);
            proof {
                lemma_model_parts(h);
            }
            Ok(h)
        },
    }
}

fn items_to_values(items: &Vec<JsonVal>, b: &FloatBits) -> (r: Result<Vec<Value>, NsError>)
    ensures
        !storage_failed(r),
        match all_ok(json_items_values(JsonModel::Array(json_models(items@)), bits_model(b@))) {
            Ok(vs) => r matches Ok(x) && models(x@) == vs,
            Err(e) => r matches Err(x) && x.model() == e,
        },
    decreases items,
{
    let ghost rs = json_items_values(JsonModel::Array(json_models(items@)), bits_model(b@));
    let mut out: Vec<Value> = Vec::new();
    let mut i: usize = 0;
    assert(rs.take(0) =~= Seq::<Result<ValueModel, NsErr>>::empty());
    assert(models(out@) =~= Seq::<ValueModel>::empty());
    while i < items.len()
        invariant
            i <= items@.len(),
            rs == json_items_values(JsonModel::Array(json_models(items@)), bits_model(b@)),
            rs.len() == items@.len(),
            all_ok(rs.take(i as int)) == Ok::<Seq<ValueModel>, NsErr>(models(out@)),
        decreases items@.len() - i,
    {
        assert(rs.take(i + 1).drop_last() =~= rs.take(i as int));
        assert(rs[i as int] == json_value(items@[i as int].model(), bits_model(b@)));
        assert(decreases_to!(items => items@[i as int]));
        match json_to_value(&items[i], b) {
            Ok(x) => {
                let ghost before = out@;
                let ghost xm = x.model();
                out.push(x);
                assert(models(out@) =~= models(before).push(xm));
            },
            Err(e) => {
                proof {
                    lemma_all_ok_err(rs, i + 1);
                }
                return Err(e);
            },
        }
        i = i + 1;
    }
    assert(rs.take(i as int) =~= rs);
    Ok(out)
}

fn members_to_hash(ms: &Vec<(String, JsonVal)>, b: &FloatBits) -> (r: Result<StrMap, NsError>)
    ensures
        !storage_failed(r),
        match hash_fold(json_member_values(JsonModel::Object(member_models(ms@)), bits_model(b@))) {
            Ok(es) => r matches Ok(x) && x@ == es,
            Err(e) => r matches Err(x) && x.model() == e,
        },
    decreases ms,
{
    let ghost rs = json_member_values(JsonModel::Object(member_models(ms@)), bits_model(b@));
    let mut out = StrMap::new();
    let mut i: usize = 0;
    assert(rs.take(0) =~= Seq::<(Seq<char>, Result<ValueModel, NsErr>)>::empty());
    while i < ms.len()
        invariant
            i <= ms@.len(),
            rs == json_member_values(JsonModel::Object(member_models(ms@)), bits_model(b@)),
            rs.len() == ms@.len(),
            hash_fold(rs.take(i as int)) == Ok::<Seq<(Seq<char>, ValueModel)>, NsErr>(out@),
        decreases ms@.len() - i,
    {
        assert(rs.take(i + 1).drop_last() =~= rs.take(i as int));
        assert(rs[i as int] == (ms@[i as int].0@, json_value(ms@[i as int].1.model(), bits_model(b@))));
        assert(decreases_to!(ms => ms@[i as int]));
        assert(decreases_to!(ms@[i as int] => ms@[i as int].1));
        match json_to_value(&ms[i].1, b) {
            Ok(x) => {
                out.insert(ms[i].0.clone(), x);
            },
            Err(e) => {
                proof {
                    lemma_hash_fold_err(rs, i + 1);
                }
                return Err(e);
            },
        }
        i = i + 1;
    }
    assert(rs.take(i as int) =~= rs);
    Ok(out)
}

fn members_to_tree(ms: &Vec<(String, JsonVal)>, b: &FloatBits) -> (r: Result<ScalarMap, NsError>)
    ensures
        !storage_failed(r),
        match tree_fold(json_tree_values(JsonModel::Object(member_models(ms@)), bits_model(b@))) {
            Ok(es) => r matches Ok(x) && x@ == es,
            Err(e) => r matches Err(x) && x.model() == e,
        },
    decreases ms,
{
    let ghost rs = json_tree_values(JsonModel::Object(member_models(ms@)), bits_model(b@));
    let mut out = ScalarMap::new();
    let mut i: usize = 0;
    assert(rs.take(0) =~= Seq::<(Result<ScalarModel, NsErr>, Result<ValueModel, NsErr>)>::empty());
    while i < ms.len()
        invariant
            i <= ms@.len(),
            rs == json_tree_values(JsonModel::Object(member_models(ms@)), bits_model(b@)),
            rs.len() == ms@.len(),
            tree_fold(rs.take(i as int)) == Ok::<Seq<(ScalarModel, ValueModel)>, NsErr>(out@),
        decreases ms@.len() - i,
    {
        assert(rs.take(i + 1).drop_last() =~= rs.take(i as int));
        assert(rs[i as int] == (
            parse_scalar_key_spec(ms@[i as int].0@, bits_model(b@)),
            json_value(ms@[i as int].1.model(), bits_model(b@)),
        ));
        assert(decreases_to!(ms => ms@[i as int]));
        assert(decreases_to!(ms@[i as int] => ms@[i as int].1));
        let key = match parse_scalar_key(ms[i].0.as_str(), b) {
            Ok(k) => k,
            Err(e) => {
                proof {
                    lemma_tree_fold_err(rs, i + 1);
                }
                return Err(e);
            },
        };
        match json_to_value(&ms[i].1, b) {
            Ok(x) => {
                out.insert(key, x);
            },
            Err(e) => {
                proof {
                    lemma_tree_fold_err(rs, i + 1);
                }
                return Err(e);
            },
        }
        i = i + 1;
    }
    assert(rs.take(i as int) =~= rs);
    Ok(out)
}

// ---------------------------------------------------------------------------
// The floats a document or a value holds

/// Keys of the form `f:<text>` give `<text>`.
pub open spec fn key_float_lit(k: Seq<char>) -> Seq<Seq<char>> {
    if k.len() >= 2 && k[0] == 'f' && k[1] == ':' {
        seq![k.skip(2)]
    } else {
        Seq::empty()
    }
}

/// The float texts of a document, in document order: number literals with
/// a fraction, and the text after `f:` in object keys.
pub open spec fn doc_float_lits(j: JsonModel) -> Seq<Seq<char>>
    decreases j, 1int,
{
    match j {
        JsonModel::FloatText(t) => seq![t],
        JsonModel::Array(_) => doc_part_lits(j).flatten(),
        JsonModel::Object(_) => doc_part_lits(j).flatten(),
        _ => Seq::empty(),
    }
}

pub open spec fn doc_part_lits(j: JsonModel) -> Seq<Seq<Seq<char>>>
    decreases j, 0int,
{
    match j {
        JsonModel::Array(items) => Seq::new(
            items.len(),
            |i: int|
                if 0 <= i < items.len() {
                    doc_float_lits(items[i])
                } else {
                    Seq::empty()
                },
        ),
        JsonModel::Object(ms) => Seq::new(
            ms.len(),
            |i: int|
                if 0 <= i < ms.len() {
                    key_float_lit(ms[i].0) + doc_float_lits(ms[i].1)
                } else {
                    Seq::empty()
                },
        ),
        _ => Seq::empty(),
    }
}

proof fn lemma_flatten_push(s: Seq<Seq<Seq<char>>>, x: Seq<Seq<char>>)
    ensures
        s.push(x).flatten() == s.flatten() + x,
    decreases s.len(),
{
    if s.len() == 0 {
        assert(s.push(x).drop_first() =~= Seq::<Seq<Seq<char>>>::empty());
        assert(s.push(x).flatten() =~= x + Seq::<Seq<Seq<char>>>::empty().flatten());
        assert(s.flatten() =~= Seq::<Seq<char>>::empty());
    } else {
        lemma_flatten_push(s.drop_first(), x);
        assert(s.push(x).drop_first() =~= s.drop_first().push(x));
        assert(s.push(x)[0] == s[0]);
    }
}

#[verifier::loop_isolation(false)]
fn push_lits(out: &mut Vec<String>, v: &JsonVal)
    ensures
        models_of_strings(final(out)@) == models_of_strings(old(out)@) + doc_float_lits(v.model()),
    decreases v,
{
    proof {
        lemma_json_model_parts(*v);
    }
    match v {
        JsonVal::FloatText(t) => {
            let ghost before = out@;
            out.push(t.clone());
            assert(models_of_strings(out@) =~= models_of_strings(before) + seq![t@]);
        },
        JsonVal::Array(items) => {
            let ghost start = models_of_strings(out@);
            let ghost parts = doc_part_lits(v.model());
            let mut i: usize = 0;
            assert(parts.take(0).flatten() =~= Seq::<Seq<char>>::empty());
            while i < items.len()
                invariant
                    i <= items@.len(),
                    parts == doc_part_lits(v.model()),
                    v.model() == JsonModel::Array(json_models(items@)),
                    parts.len() == items@.len(),
                    models_of_strings(out@) == start + parts.take(i as int).flatten(),
                decreases items@.len() - i,
            {
                assert(decreases_to!(v => items));
                assert(decreases_to!(items => items@[i as int]));
                push_lits(out, &items[i]);
                proof {
                    assert(parts[i as int] == doc_float_lits(items@[i as int].model()));
                    assert(parts.take(i + 1) =~= parts.take(i as int).push(parts[i as int]));
                    lemma_flatten_push(parts.take(i as int), parts[i as int]);
                }
                i = i + 1;
            }
            assert(parts.take(i as int) =~= parts);
        },
        JsonVal::Object(ms) => {
            let ghost start = models_of_strings(out@);
            let ghost parts = doc_part_lits(v.model());
            let mut i: usize = 0;
            assert(parts.take(0).flatten() =~= Seq::<Seq<char>>::empty());
            while i < ms.len()
                invariant
                    i <= ms@.len(),
                    parts == doc_part_lits(v.model()),
                    v.model() == JsonModel::Object(member_models(ms@)),
                    parts.len() == ms@.len(),
                    models_of_strings(out@) == start + parts.take(i as int).flatten(),
                decreases ms@.len() - i,
            {
                let ghost before = models_of_strings(out@);
                let cs = chars_of(ms[i].0.as_str());
                if cs.len() >= 2 && cs[0] == 'f' && cs[1] == ':' {
                    let ghost b0 = out@;
                    out.push(str_skip2(&cs));
                    assert(models_of_strings(out@) =~= models_of_strings(b0) + key_float_lit(ms@[i as int].0@));
                } else {
                    assert(models_of_strings(out@) =~= models_of_strings(out@) + key_float_lit(ms@[i as int].0@));
                }
                assert(decreases_to!(v => ms));
                assert(decreases_to!(ms => ms@[i as int]));
                assert(decreases_to!(ms@[i as int] => ms@[i as int].1));
                push_lits(out, &ms[i].1);
                proof {
                    assert(parts[i as int] == key_float_lit(ms@[i as int].0@) + doc_float_lits(ms@[i as int].1.model()));
                    assert(models_of_strings(out@) =~= before + parts[i as int]);
                    assert(parts.take(i + 1) =~= parts.take(i as int).push(parts[i as int]));
                    lemma_flatten_push(parts.take(i as int), parts[i as int]);
                }
                i = i + 1;
            }
            assert(parts.take(i as int) =~= parts);
        },
        _ => {
            assert(models_of_strings(out@) =~= models_of_strings(out@) + Seq::<Seq<char>>::empty());
        },
    }
}

pub open spec fn models_of_strings(v: Seq<String>) -> Seq<Seq<char>> {
    Seq::new(v.len(), |i: int| v[i]@)
}

/// The float texts a document holds, for the host to turn into bits.
pub fn float_literals(doc: &JsonVal) -> (r: Vec<String>)
    ensures
        models_of_strings(r@) == doc_float_lits(doc.model()),
{
    let mut out: Vec<String> = Vec::new();
    assert(models_of_strings(out@) =~= Seq::<Seq<char>>::empty());
    push_lits(&mut out, doc);
    assert(models_of_strings(out@) =~= doc_float_lits(doc.model()));
    out
}

/// The float bits in a value, keys of trees included, in value order.
pub open spec fn value_floats(v: ValueModel) -> Seq<u64>
    decreases v, 1int,
{
    match v {
        ValueModel::Scalar(ScalarModel::Float(b)) => seq![b],
        ValueModel::Scalar(_) => Seq::empty(),
        _ => value_part_floats(v).flatten(),
    }
}

pub open spec fn key_floats(k: ScalarModel) -> Seq<u64> {
    match k {
        ScalarModel::Float(b) => seq![b],
        _ => Seq::empty(),
    }
}

pub open spec fn value_part_floats(v: ValueModel) -> Seq<Seq<u64>>
    decreases v, 0int,
{
    match v {
        ValueModel::Hash(es) => Seq::new(
            es.len(),
            |i: int|
                if 0 <= i < es.len() {
                    value_floats(es[i].1)
                } else {
                    Seq::empty()
                },
        ),
        ValueModel::List(vs) => Seq::new(
            vs.len(),
            |i: int|
                if 0 <= i < vs.len() {
                    value_floats(vs[i])
                } else {
                    Seq::empty()
                },
        ),
        ValueModel::SetOf(vs) => Seq::new(
            vs.len(),
            |i: int|
                if 0 <= i < vs.len() {
                    value_floats(vs[i])
                } else {
                    Seq::empty()
                },
        ),
        ValueModel::Tree(es) => Seq::new(
            es.len(),
            |i: int|
                if 0 <= i < es.len() {
                    key_floats(es[i].0) + value_floats(es[i].1)
                } else {
                    Seq::empty()
                },
        ),
        _ => Seq::empty(),
    }
}

proof fn lemma_flatten_push_u64(s: Seq<Seq<u64>>, x: Seq<u64>)
    ensures
        s.push(x).flatten() == s.flatten() + x,
    decreases s.len(),
{
    if s.len() == 0 {
        assert(s.push(x).drop_first() =~= Seq::<Seq<u64>>::empty());
        assert(s.push(x).flatten() =~= x + Seq::<Seq<u64>>::empty().flatten());
        assert(s.flatten() =~= Seq::<u64>::empty());
    } else {
        lemma_flatten_push_u64(s.drop_first(), x);
        assert(s.push(x).drop_first() =~= s.drop_first().push(x));
        assert(s.push(x)[0] == s[0]);
    }
}

/// Append the float bits of `v`, keys of trees included, in value order.
#[verifier::loop_isolation(false)]
pub fn push_value_floats(out: &mut Vec<u64>, v: &Value)
    ensures
        final(out)@ == old(out)@ + value_floats(v.model()),
    decreases v,
{
    proof {
        lemma_model_parts(*v);
    }
    match v {
        Value::Scalar(Scalar::Float(b)) => {
            out.push(*b);
        },
        Value::Scalar(_) => {
            assert(out@ =~= out@ + Seq::<u64>::empty());
        },
        Value::List(vs) | Value::SetOf(vs) => {
            let ghost start = out@;
            let ghost parts = value_part_floats(v.model());
            let mut i: usize = 0;
            assert(parts.take(0).flatten() =~= Seq::<u64>::empty());
            while i < vs.len()
                invariant
                    i <= vs@.len(),
                    parts.len() == vs@.len(),
                    out@ == start + parts.take(i as int).flatten(),
                decreases vs@.len() - i,
            {
                assert(decreases_to!(v => vs));
                assert(decreases_to!(vs => vs@[i as int]));
                push_value_floats(out, &vs[i]);
                proof {
                    assert(parts[i as int] == value_floats(vs@[i as int].model()));
                    assert(parts.take(i + 1) =~= parts.take(i as int).push(parts[i as int]));
                    lemma_flatten_push_u64(parts.take(i as int), parts[i as int]);
                }
                i = i + 1;
            }
            assert(parts.take(i as int) =~= parts);
        },
        Value::Hash(m) => {
            let ghost start = out@;
            let ghost parts = value_part_floats(v.model());
            let es = &m.entries;
            let mut i: usize = 0;
            assert(parts.take(0).flatten() =~= Seq::<u64>::empty());
            while i < es.len()
                invariant
                    i <= es@.len(),
                    parts.len() == es@.len(),
                    out@ == start + parts.take(i as int).flatten(),
                decreases es@.len() - i,
            {
                assert(decreases_to!(v => m));
                assert(decreases_to!(m => m.entries));
                assert(decreases_to!(es => es@[i as int]));
                assert(decreases_to!(es@[i as int] => es@[i as int].1));
                push_value_floats(out, &es[i].1);
                proof {
                    assert(parts[i as int] == value_floats(es@[i as int].1.model()));
                    assert(parts.take(i + 1) =~= parts.take(i as int).push(parts[i as int]));
                    lemma_flatten_push_u64(parts.take(i as int), parts[i as int]);
                }
                i = i + 1;
            }
            assert(parts.take(i as int) =~= parts);
        },
        Value::Tree(m) => {
            let ghost start = out@;
            let ghost parts = value_part_floats(v.model());
            let es = &m.entries;
            let mut i: usize = 0;
            assert(parts.take(0).flatten() =~= Seq::<u64>::empty());
            while i < es.len()
                invariant
                    i <= es@.len(),
                    parts.len() == es@.len(),
                    out@ == start + parts.take(i as int).flatten(),
                decreases es@.len() - i,
            {
                let ghost before = out@;
                if let Scalar::Float(b) = &es[i].0 {
                    out.push(*b);
                }
                assert(out@ =~= before + key_floats(es@[i as int].0.model()));
                assert(decreases_to!(v => m));
                assert(decreases_to!(m => m.entries));
                assert(decreases_to!(es => es@[i as int]));
                assert(decreases_to!(es@[i as int] => es@[i as int].1));
                push_value_floats(out, &es[i].1);
                proof {
                    assert(parts[i as int] == key_floats(es@[i as int].0.model()) + value_floats(es@[i as int].1.model()));
                    assert(out@ =~= before + parts[i as int]);
                    assert(parts.take(i + 1) =~= parts.take(i as int).push(parts[i as int]));
                    lemma_flatten_push_u64(parts.take(i as int), parts[i as int]);
                }
                i = i + 1;
            }
            assert(parts.take(i as int) =~= parts);
        },
    }
}

} // verus!
