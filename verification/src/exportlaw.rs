//! Import reads back what export writes: a value written as a JSON document
//! and read again as one comes back as the same value.

use vstd::prelude::*;
use vstd::utf8::{encode_utf8, has_width_1_encoding};
use crate::fmt::{decimal, decimal_i, hex_char, hex2};
use crate::hex::{hex_text, hex_val, spec_decode_hex};
use crate::json::{JsonModel, is_digit, json_text, spec_parse_json};
use crate::jsonlaw::{writable_json, reread, lemma_json_text_reads_back, lemma_decimal};
use crate::value::{
    ScalarModel, ValueModel, str_keys_increasing, scalar_keys_increasing, lemma_str_insert_at_end,
    lemma_scalar_insert_at_end,
};
use crate::export::{
    value_json, value_items, value_members, scalar_key_text, parse_scalar_key_spec, i64_text,
    unsigned_part, all_digits, json_value, all_ok, hash_fold, tree_fold, json_items_values,
    json_member_values, json_tree_values, word_hash, word_set, word_tree,
    word_bytes,
};
use crate::errors::NsErr;

verus! {

proof fn lemma_hex_char(d: int)
    requires
        0 <= d < 16,
    ensures
        (hex_char(d) as u32) < 128,
        hex_val((hex_char(d) as u32) as u8) == Some(d as u8),
{
}

proof fn lemma_hex_text_shape(b: Seq<u8>)
    ensures
        hex_text(b).len() == 2 * b.len(),
        forall|k: int|
            0 <= k < b.len() ==> hex_text(b)[2 * k] == hex_char((#[trigger] b[k] / 16) as int)
                && hex_text(b)[2 * k + 1] == hex_char((b[k] % 16) as int),
    decreases b.len(),
{
    if b.len() > 0 {
        let init = b.drop_last();
        lemma_hex_text_shape(init);
        let t = hex_text(b);
        assert(t == hex_text(init) + hex2(b.last()));
        assert forall|k: int| 0 <= k < b.len() implies t[2 * k] == hex_char((#[trigger] b[k] / 16) as int)
            && t[2 * k + 1] == hex_char((b[k] % 16) as int) by {
            if k < b.len() - 1 {
                assert(init[k] == b[k]);
            }
        }
    }
}

proof fn lemma_encode_ascii(x: Seq<char>)
    requires
        forall|k: int| 0 <= k < x.len() ==> (#[trigger] x[k] as u32) < 128,
    ensures
        encode_utf8(x) == Seq::new(x.len(), |k: int| (x[k] as u32) as u8),
    decreases x.len(),
{
    if x.len() > 0 {
        let r = x.drop_first();
        assert forall|k: int| 0 <= k < r.len() implies (#[trigger] r[k] as u32) < 128 by {
            assert(r[k] == x[k + 1]);
        }
        lemma_encode_ascii(r);
        let c = x[0] as u32;
        assert(c < 128);
        assert(has_width_1_encoding(c));
        assert((c & 0x7F) as u8 == c as u8) by (bit_vector)
            requires
                c < 128u32,
        ;
        assert(encode_utf8(x) =~= Seq::new(x.len(), |k: int| (x[k] as u32) as u8));
    }
}

/// The hex text of a byte string reads back as the byte string.
proof fn lemma_hex_roundtrip(b: Seq<u8>)
    ensures
        spec_decode_hex(encode_utf8(hex_text(b))) == Ok::<Seq<u8>, Seq<char>>(b),
{
    lemma_hex_text_shape(b);
    let t = hex_text(b);
    assert forall|k: int| 0 <= k < t.len() implies (#[trigger] t[k] as u32) < 128 by {
        let m = k / 2;
        assert(0 <= m < b.len());
        lemma_hex_char((b[m] / 16) as int);
        lemma_hex_char((b[m] % 16) as int);
        if k % 2 == 0 {
            assert(k == 2 * m);
        } else {
            assert(k == 2 * m + 1);
        }
    }
    lemma_encode_ascii(t);
    let e = encode_utf8(t);
    assert(e.len() == 2 * b.len());
    assert forall|i: int| 0 <= i < e.len() implies #[trigger] hex_val(e[i]) is Some by {
        let m = i / 2;
        lemma_hex_char((b[m] / 16) as int);
        lemma_hex_char((b[m] % 16) as int);
        if i % 2 == 0 {
            assert(i == 2 * m);
        } else {
            assert(i == 2 * m + 1);
        }
    }
    assert(e.len() % 2 == 0);
    let d = Seq::new(
        (e.len() / 2) as nat,
        |k: int| (hex_val(e[2 * k])->Some_0 * 16 + hex_val(e[2 * k + 1])->Some_0) as u8,
    );
    assert forall|k: int| 0 <= k < b.len() implies d[k] == b[k] by {
        lemma_hex_char((b[k] / 16) as int);
        lemma_hex_char((b[k] % 16) as int);
        assert(e[2 * k] == (t[2 * k] as u32) as u8);
        assert(e[2 * k + 1] == (t[2 * k + 1] as u32) as u8);
    }
    assert(d =~= b);
}

/// A string tree key that reads back as a string: not a word or a number
/// that stands for another kind of key.
pub open spec fn str_key_reads_back(s: Seq<char>) -> bool {
    &&& s != seq!['n', 'u', 'l', 'l']
    &&& s != seq!['t', 'r', 'u', 'e']
    &&& s != seq!['f', 'a', 'l', 's', 'e']
    &&& !(s.len() >= 2 && s[0] == 'f' && s[1] == ':')
    &&& !(s.len() >= 2 && s[0] == 'b' && s[1] == ':')
    &&& i64_text(s) is None
}

/// A tree key whose text reads back as the same key: any key but a float
/// (whose text comes from outside), and a string only as above.
pub open spec fn key_reads_back(k: ScalarModel) -> bool {
    match k {
        ScalarModel::Float(_) => false,
        ScalarModel::Str(s) => str_key_reads_back(s),
        _ => true,
    }
}

pub(crate) proof fn lemma_i64_text_decimal(n: i64)
    ensures
        i64_text(decimal_i(n as int)) == Some(n),
        decimal_i(n as int).len() >= 1,
        decimal_i(n as int)[0] == '-' || is_digit(decimal_i(n as int)[0]),
{
    let s = decimal_i(n as int);
    if n < 0 {
        let m = (-(n as int)) as nat;
        lemma_decimal(m);
        assert(s.drop_first() =~= decimal(m));
        assert(unsigned_part(s) == decimal(m));
        assert(all_digits(decimal(m)));
    } else {
        lemma_decimal(n as nat);
        assert(is_digit(s[0]));
        assert(unsigned_part(s) == s);
        assert(all_digits(s));
    }
}

proof fn lemma_key_reads_back(k: ScalarModel, t: Seq<(u64, Seq<char>)>, b: Seq<(Seq<char>, u64)>)
    requires
        key_reads_back(k),
    ensures
        parse_scalar_key_spec(scalar_key_text(k, t), b) == Ok::<ScalarModel, NsErr>(k),
{
    match k {
        ScalarModel::Int(n) => {
            lemma_i64_text_decimal(n);
            let s = decimal_i(n as int);
            assert(s != seq!['n', 'u', 'l', 'l']);
            assert(s != seq!['t', 'r', 'u', 'e']);
            assert(s != seq!['f', 'a', 'l', 's', 'e']);
        },
        ScalarModel::Bytes(bs) => {
            let s = seq!['b', ':'] + hex_text(bs);
            assert(s[0] == 'b');
            assert(s != seq!['n', 'u', 'l', 'l']);
            assert(s != seq!['t', 'r', 'u', 'e']);
            assert(s != seq!['f', 'a', 'l', 's', 'e']);
            assert(s.skip(2) =~= hex_text(bs));
            lemma_hex_roundtrip(bs);
        },
        ScalarModel::Bool(x) => {
            assert(seq!['t', 'r', 'u', 'e'] != seq!['n', 'u', 'l', 'l']);
            assert(seq!['f', 'a', 'l', 's', 'e'] != seq!['n', 'u', 'l', 'l']);
            assert(seq!['f', 'a', 'l', 's', 'e'] != seq!['t', 'r', 'u', 'e']);
        },
        _ => {
        },
    }
}

proof fn lemma_all_ok_all(rs: Seq<Result<ValueModel, NsErr>>, vs: Seq<ValueModel>)
    requires
        rs.len() == vs.len(),
        forall|i: int| 0 <= i < rs.len() ==> #[trigger] rs[i] == Ok::<ValueModel, NsErr>(vs[i]),
    ensures
        all_ok(rs) == Ok::<Seq<ValueModel>, NsErr>(vs),
    decreases rs.len(),
{
    if rs.len() > 0 {
        lemma_all_ok_all(rs.drop_last(), vs.drop_last());
        assert(rs.last() == rs[rs.len() - 1]);
        assert(vs.drop_last().push(vs.last()) =~= vs);
    } else {
        assert(vs =~= Seq::<ValueModel>::empty());
    }
}

proof fn lemma_hash_fold_sorted(
    ms: Seq<(Seq<char>, Result<ValueModel, NsErr>)>,
    es: Seq<(Seq<char>, ValueModel)>,
)
    requires
        str_keys_increasing(es),
        ms.len() == es.len(),
        forall|i: int| 0 <= i < ms.len() ==> #[trigger] ms[i] == (es[i].0, Ok::<ValueModel, NsErr>(es[i].1)),
    ensures
        hash_fold(ms) == Ok::<Seq<(Seq<char>, ValueModel)>, NsErr>(es),
    decreases ms.len(),
{
    if ms.len() > 0 {
        let init = es.drop_last();
        assert forall|i: int, j: int| 0 <= i < j < init.len() implies crate::order::str_lt(
            #[trigger] init[i].0,
            #[trigger] init[j].0,
        ) by {
            assert(init[i] == es[i]);
            assert(init[j] == es[j]);
        }
        lemma_hash_fold_sorted(ms.drop_last(), init);
        assert(ms.last() == ms[ms.len() - 1]);
        assert forall|j: int| 0 <= j < init.len() implies crate::order::str_lt(
            #[trigger] init[j].0,
            es.last().0,
        ) by {
            assert(init[j] == es[j]);
        }
        lemma_str_insert_at_end(init, es.last().0, es.last().1);
        assert(init.push((es.last().0, es.last().1)) =~= es);
    } else {
        assert(es =~= Seq::<(Seq<char>, ValueModel)>::empty());
    }
}

proof fn lemma_tree_fold_sorted(
    ms: Seq<(Result<ScalarModel, NsErr>, Result<ValueModel, NsErr>)>,
    es: Seq<(ScalarModel, ValueModel)>,
)
    requires
        scalar_keys_increasing(es),
        ms.len() == es.len(),
        forall|i: int|
            0 <= i < ms.len() ==> #[trigger] ms[i] == (
                Ok::<ScalarModel, NsErr>(es[i].0),
                Ok::<ValueModel, NsErr>(es[i].1),
            ),
    ensures
        tree_fold(ms) == Ok::<Seq<(ScalarModel, ValueModel)>, NsErr>(es),
    decreases ms.len(),
{
    if ms.len() > 0 {
        let init = es.drop_last();
        assert forall|i: int, j: int| 0 <= i < j < init.len() implies crate::value::scalar_lt(
            #[trigger] init[i].0,
            #[trigger] init[j].0,
        ) by {
            assert(init[i] == es[i]);
            assert(init[j] == es[j]);
        }
        lemma_tree_fold_sorted(ms.drop_last(), init);
        assert(ms.last() == ms[ms.len() - 1]);
        assert forall|j: int| 0 <= j < init.len() implies crate::value::scalar_lt(
            #[trigger] init[j].0,
            es.last().0,
        ) by {
            assert(init[j] == es[j]);
        }
        lemma_scalar_insert_at_end(init, es.last().0, es.last().1);
        assert(init.push((es.last().0, es.last().1)) =~= es);
    } else {
        assert(es =~= Seq::<(ScalarModel, ValueModel)>::empty());
    }
}

/// A value that import reads back as itself from what export writes: no
/// float anywhere (its text comes from outside), the keys of hashes and
/// trees in order (as the library keeps them), and tree keys that read back
/// as the same kind of key.
pub open spec fn exportable(v: ValueModel) -> bool
    decreases v,
{
    match v {
        ValueModel::Scalar(ScalarModel::Float(_)) => false,
        ValueModel::Scalar(_) => true,
        ValueModel::Hash(es) => str_keys_increasing(es) && forall|i: int|
            0 <= i < es.len() ==> exportable((#[trigger] es[i]).1),
        ValueModel::Tree(es) => scalar_keys_increasing(es) && forall|i: int|
            0 <= i < es.len() ==> key_reads_back((#[trigger] es[i]).0) && exportable(es[i].1),
        ValueModel::List(vs) => forall|i: int| 0 <= i < vs.len() ==> exportable(#[trigger] vs[i]),
        ValueModel::SetOf(ms) => forall|i: int| 0 <= i < ms.len() ==> exportable(#[trigger] ms[i]),
    }
}

proof fn lemma_exportable_json(v: ValueModel, t: Seq<(u64, Seq<char>)>, b: Seq<(Seq<char>, u64)>)
    requires
        exportable(v),
    ensures
        writable_json(value_json(v, t)),
        json_value(reread(value_json(v, t)), b) == Ok::<ValueModel, NsErr>(v),
    decreases v,
{
    match v {
        ValueModel::Scalar(ScalarModel::Bytes(bs)) => {
            lemma_hex_roundtrip(bs);
        },
        ValueModel::List(vs) => {
            assert forall|i: int| 0 <= i < vs.len() implies writable_json(value_json(#[trigger] vs[i], t))
                && json_value(reread(value_json(vs[i], t)), b) == Ok::<ValueModel, NsErr>(vs[i]) by {
                lemma_exportable_json(vs[i], t, b);
            }
            let rj = reread(value_json(v, t));
            lemma_all_ok_all(json_items_values(rj, b), vs);
        },
        ValueModel::SetOf(ms) => {
            assert forall|i: int| 0 <= i < ms.len() implies writable_json(value_json(#[trigger] ms[i], t))
                && json_value(reread(value_json(ms[i], t)), b) == Ok::<ValueModel, NsErr>(ms[i]) by {
                lemma_exportable_json(ms[i], t, b);
            }
            let arr = JsonModel::Array(value_items(v, t));
            assert(writable_json(arr));
            let rj = reread(value_json(v, t));
            assert(rj->Object_0 =~= seq![(word_set(), reread(arr))]);
            lemma_all_ok_all(json_items_values(reread(arr), b), ms);
        },
        ValueModel::Hash(es) => {
            assert forall|i: int| 0 <= i < es.len() implies writable_json(
                value_json((#[trigger] es[i]).1, t),
            ) && json_value(reread(value_json(es[i].1, t)), b) == Ok::<ValueModel, NsErr>(es[i].1) by {
                lemma_exportable_json(es[i].1, t, b);
            }
            let obj = JsonModel::Object(value_members(v, t));
            assert(writable_json(obj));
            let rj = reread(value_json(v, t));
            assert(rj->Object_0 =~= seq![(word_hash(), reread(obj))]);
            assert(word_hash() != word_set());
            assert(word_hash() != word_bytes());
            lemma_hash_fold_sorted(json_member_values(reread(obj), b), es);
        },
        ValueModel::Tree(es) => {
            assert forall|i: int| 0 <= i < es.len() implies writable_json(
                value_json((#[trigger] es[i]).1, t),
            ) && json_value(reread(value_json(es[i].1, t)), b) == Ok::<ValueModel, NsErr>(es[i].1)
                && parse_scalar_key_spec(scalar_key_text(es[i].0, t), b) == Ok::<ScalarModel, NsErr>(
                es[i].0,
            ) by {
                lemma_exportable_json(es[i].1, t, b);
                lemma_key_reads_back(es[i].0, t, b);
            }
            let obj = JsonModel::Object(value_members(v, t));
            assert(writable_json(obj));
            let rj = reread(value_json(v, t));
            assert(rj->Object_0 =~= seq![(word_tree(), reread(obj))]);
            assert(word_tree() != word_set());
            assert(word_tree() != word_bytes());
            assert(word_tree()[2] != word_hash()[2]);
            lemma_tree_fold_sorted(json_tree_values(reread(obj), b), es);
        },
        _ => {
        },
    }
}

/// What export writes of a value, import reads back as that value: the
/// value's JSON text parses, and the document converts back to the same
/// value, for every value without floats whose tree keys read back as
/// themselves.
pub proof fn lemma_export_import_value(
    v: ValueModel,
    t: Seq<(u64, Seq<char>)>,
    b: Seq<(Seq<char>, u64)>,
)
    requires
        exportable(v),
    ensures
        spec_parse_json(json_text(value_json(v, t))) is Ok,
        json_value(spec_parse_json(json_text(value_json(v, t)))->Ok_0, b) == Ok::<ValueModel, NsErr>(v),
{
    lemma_exportable_json(v, t, b);
    lemma_json_text_reads_back(value_json(v, t));
}

} // verus!
