//! The request/response protocol of the daemon, and how a request is
//! answered from a database.

use vstd::prelude::*;
use crate::db::{
    str_bytes, Database, EntryKind, Kv, spec_mkdir, spec_set, spec_delete, spec_hash_set, spec_list_push,
    spec_set_add, spec_tree_set, spec_get, spec_list, spec_export, spec_import, walk_fuel, listing_model,
    names_increasing,
};
use crate::errors::{text, ns_message, path_message, storage_message, NsErr, NsError};
use crate::eval::{
    execute, spec_candidates, spec_hits, visit_order, storage_text, EvalError, HitModel,
};
use crate::json::{spec_parse_json, json_text};
use crate::path::{DbPath, spec_parse_path, path_string};
use crate::txn::{TxnOp, TxnOpModel, spec_txn, op_models};
use crate::query::{QueryHit, spec_parse_query};
use crate::storage::{Compact, Storage, StorageError};
use crate::strings::trim_ws;
use crate::export::{
    FloatBits, FloatTexts, bits_model, texts_model, bits_for, text_for, float_fallback,
    unsigned_part, i64_text, lookup_bits, lookup_text, fallback_text, parse_i64_str,
};
use crate::fmt::{decimal, decimal_i, push_decimal, i64_to_string};
use crate::json::{is_digit, digits_value};
use crate::order::{Order, compare_str};
use crate::strings::chars_of;
use crate::value::{Scalar, ScalarModel, ScalarMap, StrMap, Value, ValueModel};
use vstd::utf8::encode_utf8;

verus! {

/// A client's request.
#[derive(Debug, Clone, PartialEq, Eq)]
pub enum Request {
    Ping,
    Mkdir { path: String },
    SetValue { path: String, typename: String, value: String },
    Get { path: String },
    Ls { path: String },
    Rm { path: String },
    Hset { path: String, key: String, typename: String, value: String },
    Lpush { path: String, typename: String, value: String },
    Sadd { path: String, typename: String, value: String },
    Tset { path: String, key: String, typename: String, value: String },
    Query { query: String },
    Compact,
    Export,
    Import { json: String },
    /// Mutations applied as one transaction: all of them or none.
    Batch { ops: Vec<Mutation> },
}

/// A mutation as it stands in a batch.
#[derive(Debug, Clone, PartialEq, Eq)]
pub enum Mutation {
    Mkdir { path: String },
    SetValue { path: String, typename: String, value: String },
    Rm { path: String },
    Hset { path: String, key: String, typename: String, value: String },
    Lpush { path: String, typename: String, value: String },
    Sadd { path: String, typename: String, value: String },
    Tset { path: String, key: String, typename: String, value: String },
}

/// The server's answer.
#[derive(Debug, Clone, PartialEq, Eq)]
pub enum Response {
    Success { message: String },
    Value { typename: String, display: String },
    List { entries: Vec<ListEntry> },
    Query { hits: Vec<QueryHitDto> },
    Export { json: String },
    Failure { message: String },
}

/// One child in a listing: its name and `dir` or `val`.
#[derive(Debug, Clone, PartialEq, Eq)]
pub struct ListEntry {
    pub name: String,
    pub kind: String,
}

/// One query hit on the wire: a path string and a type label.
#[derive(Debug, Clone, PartialEq, Eq)]
pub struct QueryHitDto {
    pub path: String,
    pub typename: String,
}

// ---------------------------------------------------------------------------
// Values from request text

/// The index of the first character of `d` that is not a digit, or its
/// length.
pub open spec fn first_non_digit(d: Seq<char>) -> int
    decreases d.len(),
{
    if d.len() == 0 {
        0
    } else if !is_digit(d[0]) {
        0
    } else {
        1 + first_non_digit(d.drop_first())
    }
}

/// The message of `i64`'s `parse` for a text it refuses: the first
/// problem met reading left to right, a non-digit or an overflow.
pub open spec fn int_error_text(s: Seq<char>) -> Seq<char> {
    let d = unsigned_part(s);
    let neg = s.len() > 0 && s[0] == '-';
    let v = digits_value(d.take(first_non_digit(d)));
    if s.len() == 0 {
        "cannot parse integer from empty string"@
    } else if d.len() == 0 {
        "invalid digit found in string"@
    } else if neg && v > 0x8000_0000_0000_0000 {
        "number too small to fit in target type"@
    } else if !neg && v > 0x7fff_ffff_ffff_ffff {
        "number too large to fit in target type"@
    } else {
        "invalid digit found in string"@
    }
}

/// The message of `f64`'s `parse` for a text it refuses.
pub open spec fn float_error_text(s: Seq<char>) -> Seq<char> {
    if s.len() == 0 {
        "cannot parse float from empty string"@
    } else {
        "invalid float literal"@
    }
}

/// The value a request names by type and text, or why there is none.
/// Float texts take their bits from `b`; a text missing there does not
/// parse.
pub open spec fn value_of_text(ty: Seq<char>, raw: Seq<char>, b: Seq<(Seq<char>, u64)>) -> Result<ValueModel, Seq<char>> {
    if ty == "null"@ {
        Ok(ValueModel::Scalar(ScalarModel::Null))
    } else if ty == "bool"@ {
        if raw == "true"@ {
            Ok(ValueModel::Scalar(ScalarModel::Bool(true)))
        } else if raw == "false"@ {
            Ok(ValueModel::Scalar(ScalarModel::Bool(false)))
        } else {
            Err("provided string was not `true` or `false`"@)
        }
    } else if ty == "int"@ {
        match i64_text(raw) {
            Some(n) => Ok(ValueModel::Scalar(ScalarModel::Int(n))),
            None => Err(int_error_text(raw)),
        }
    } else if ty == "float"@ {
        match bits_for(b, raw) {
            Some(bits) => Ok(ValueModel::Scalar(ScalarModel::Float(bits))),
            None => Err(float_error_text(raw)),
        }
    } else if ty == "string"@ {
        Ok(ValueModel::Scalar(ScalarModel::Str(raw)))
    } else if ty == "bytes"@ {
        Ok(ValueModel::Scalar(ScalarModel::Bytes(encode_utf8(raw))))
    } else if ty == "hash"@ {
        Ok(ValueModel::Hash(Seq::empty()))
    } else if ty == "list"@ {
        Ok(ValueModel::List(Seq::empty()))
    } else if ty == "set"@ {
        Ok(ValueModel::SetOf(Seq::empty()))
    } else if ty == "tree"@ {
        Ok(ValueModel::Tree(Seq::empty()))
    } else {
        Err("unknown type "@ + ty)
    }
}

pub(crate) proof fn lemma_first_non_digit(d: Seq<char>)
    ensures
        0 <= first_non_digit(d) <= d.len(),
        forall|i: int| 0 <= i < first_non_digit(d) ==> is_digit(#[trigger] d[i]),
        first_non_digit(d) < d.len() ==> !is_digit(d[first_non_digit(d)]),
    decreases d.len(),
{
    if d.len() > 0 && is_digit(d[0]) {
        lemma_first_non_digit(d.drop_first());
        assert forall|i: int| 0 <= i < first_non_digit(d) implies is_digit(#[trigger] d[i]) by {
            if i > 0 {
                assert(d[i] == d.drop_first()[i - 1]);
            }
        }
    }
}

/// The message `i64`'s `parse` gives for `s`, which it refuses.
fn int_error(s: &str) -> (r: String)
    ensures
        r@ == int_error_text(s@),
{
    let cs = chars_of(s);
    let n = cs.len();
    if n == 0 {
        return text("cannot parse integer from empty string");
    }
    let neg = cs[0] == '-';
    let start: usize = if cs[0] == '-' || cs[0] == '+' {
        1
    } else {
        0
    };
    let ghost d = unsigned_part(s@);
    assert(d =~= cs@.skip(start as int));
    if start == n {
        return text("invalid digit found in string");
    }
    let limit: u64 = if neg {
        0x8000_0000_0000_0000
    } else {
        0x7fff_ffff_ffff_ffff
    };
    proof {
        lemma_first_non_digit(d);
    }
    let ghost k = first_non_digit(d);
    let mut acc: u64 = 0;
    let mut i: usize = start;
    while i < n && '0' <= cs[i] && cs[i] <= '9'
        invariant
            start <= i <= n,
            n == cs@.len(),
            d == cs@.skip(start as int),
            d == unsigned_part(s@),
            k == first_non_digit(d),
            0 <= k <= d.len(),
            forall|q: int| 0 <= q < k ==> is_digit(#[trigger] d[q]),
            k < d.len() ==> !is_digit(d[k]),
            i - start <= k,
            acc as int == digits_value(d.take(i - start)),
            acc <= limit,
            limit >= 0x7fff_ffff_ffff_ffff,
            n > 0,
            s@ == cs@,
            neg == (s@[0] == '-'),
            limit == (if neg { 0x8000_0000_0000_0000u64 } else { 0x7fff_ffff_ffff_ffffu64 }),
        decreases n - i,
    {
        let dig = (cs[i] as u32 - '0' as u32) as u64;
        assert(d[i - start] == cs@[i as int]);
        assert(d.take(i - start + 1).drop_last() =~= d.take(i - start));
        assert(d.take(i - start + 1).last() == cs@[i as int]);
        assert(dig as int == cs@[i as int] as int - '0' as int);
        assert(digits_value(d.take(i - start + 1)) == acc * 10 + dig);
        if acc > (limit - dig) / 10 {
            assert(acc * 10 + dig > limit) by (nonlinear_arith)
                requires
                    acc > (limit - dig) / 10,
                    dig <= 9,
                    limit >= 9,
            ;
            proof {
                lemma_digits_value_prefix_grows(d, i - start + 1, k);
                assert(digits_value(d.take(k)) > limit);
                assert(s@.len() > 0 && d.len() > 0);
            }
            return if neg {
                text("number too small to fit in target type")
            } else {
                text("number too large to fit in target type")
            };
        }
        assert(acc * 10 + dig <= limit) by (nonlinear_arith)
            requires
                acc <= (limit - dig) / 10,
                dig <= 9,
                limit >= 9,
        ;
        acc = acc * 10 + dig;
        i = i + 1;
    }
    if i < n {
        assert(d[i - start] == cs@[i as int]);
    }
    assert(i - start == k);
    text("invalid digit found in string")
}

pub(crate) proof fn lemma_digits_value_prefix_grows(d: Seq<char>, j: int, k: int)
    requires
        0 <= j <= k <= d.len(),
        forall|q: int| 0 <= q < k ==> is_digit(#[trigger] d[q]),
    ensures
        digits_value(d.take(k)) >= digits_value(d.take(j)),
    decreases k - j,
{
    if j < k {
        lemma_digits_value_prefix_grows(d, j, k - 1);
        assert(d.take(k).drop_last() =~= d.take(k - 1));
        lemma_digits_value_nonneg_prefix(d, k - 1);
        assert(d.take(k).last() == d[k - 1]);
    }
}

proof fn lemma_digits_value_nonneg_prefix(d: Seq<char>, k: int)
    requires
        0 <= k <= d.len(),
        forall|q: int| 0 <= q < k ==> is_digit(#[trigger] d[q]),
    ensures
        digits_value(d.take(k)) >= 0,
    decreases k,
{
    if k > 0 {
        assert(d.take(k).drop_last() =~= d.take(k - 1));
        assert(d.take(k).last() == d[k - 1]);
        lemma_digits_value_nonneg_prefix(d, k - 1);
    }
}

fn str_is(a: &str, b: &str) -> (r: bool)
    ensures
        r == (a@ == b@),
{
    compare_str(a, b) == Order::Equal
}

/// The value named by a type and a text, as a request gives them. Float
/// texts take their bits from `floats`.
pub fn parse_value(ty: &str, raw: &str, floats: &FloatBits) -> (r: Result<Value, String>)
    ensures
        match value_of_text(ty@, raw@, bits_model(floats@)) {
            Ok(v) => r matches Ok(x) && x.model() == v,
            Err(m) => r matches Err(x) && x@ == m,
        },
{
    proof {
        reveal_strlit("null");
        reveal_strlit("bool");
        reveal_strlit("int");
        reveal_strlit("float");
        reveal_strlit("string");
        reveal_strlit("bytes");
        reveal_strlit("hash");
        reveal_strlit("list");
        reveal_strlit("set");
        reveal_strlit("tree");
        reveal_strlit("");
    }
    if str_is(ty, "null") {
        Ok(Value::null())
    } else if str_is(ty, "bool") {
        if str_is(raw, "true") {
            Ok(Value::bool(true))
        } else if str_is(raw, "false") {
            Ok(Value::bool(false))
        } else {
            let m = text("provided string was not `true` or `false`");
            assert(value_of_text(ty@, raw@, bits_model(floats@)) == Err::<ValueModel, Seq<char>>(m@));
            Err(m)
        }
    } else if str_is(ty, "int") {
        match parse_i64_str(raw) {
            Some(n) => Ok(Value::integer(n)),
            None => {
                let m = int_error(raw);
                assert(value_of_text(ty@, raw@, bits_model(floats@)) == Err::<ValueModel, Seq<char>>(m@));
                Err(m)
            },
        }
    } else if str_is(ty, "float") {
        match lookup_bits(floats, raw) {
            Some(bits) => Ok(Value::Scalar(Scalar::Float(bits))),
            None => {
                if str_is(raw, "") {
                    let m = text("cannot parse float from empty string");
                    assert(value_of_text(ty@, raw@, bits_model(floats@)) == Err::<ValueModel, Seq<char>>(m@));
                    Err(m)
                } else {
                    assert(raw@.len() == 0 ==> raw@ =~= ""@);
                    let m = text("invalid float literal");
                    assert(value_of_text(ty@, raw@, bits_model(floats@)) == Err::<ValueModel, Seq<char>>(m@));
                    Err(m)
                }
            },
        }
    } else if str_is(ty, "string") {
        Ok(Value::string(raw))
    } else if str_is(ty, "bytes") {
        Ok(Value::bytes(str_bytes(raw)))
    } else if str_is(ty, "hash") {
        let m = StrMap::new();
        proof {
            crate::value::lemma_model_parts(Value::Hash(m));
        }
        assert(Value::Hash(m).model() == ValueModel::Hash(Seq::empty()));
        Ok(Value::Hash(m))
    } else if str_is(ty, "list") {
        let v: Vec<Value> = Vec::new();
        proof {
            crate::value::lemma_model_parts(Value::List(v));
        }
        assert(crate::value::models(v@) =~= Seq::<ValueModel>::empty());
        Ok(Value::List(v))
    } else if str_is(ty, "set") {
        let v: Vec<Value> = Vec::new();
        proof {
            crate::value::lemma_model_parts(Value::SetOf(v));
        }
        assert(crate::value::models(v@) =~= Seq::<ValueModel>::empty());
        Ok(Value::SetOf(v))
    } else if str_is(ty, "tree") {
        let m = ScalarMap::new();
        proof {
            crate::value::lemma_model_parts(Value::Tree(m));
        }
        assert(Value::Tree(m).model() == ValueModel::Tree(Seq::empty()));
        Ok(Value::Tree(m))
    } else {
        let mut m = text("unknown type ");
        m.append(ty);
        assert(value_of_text(ty@, raw@, bits_model(floats@)) == Err::<ValueModel, Seq<char>>(m@));
        Err(m)
    }
}

// ---------------------------------------------------------------------------
// Values as text

/// How a float shows: the text recorded for its bits, else its bits.
pub open spec fn float_display(t: Seq<(u64, Seq<char>)>, bits: u64) -> Seq<char> {
    match text_for(t, bits) {
        Some(s) => s,
        None => float_fallback(bits),
    }
}

/// The one-line display of a value: scalars by their text, collections by
/// their kind and size.
pub open spec fn display_of(v: ValueModel, t: Seq<(u64, Seq<char>)>) -> Seq<char> {
    match v {
        ValueModel::Scalar(ScalarModel::Null) => "null"@,
        ValueModel::Scalar(ScalarModel::Bool(b)) => if b {
            "true"@
        } else {
            "false"@
        },
        ValueModel::Scalar(ScalarModel::Int(n)) => decimal_i(n as int),
        ValueModel::Scalar(ScalarModel::Float(bits)) => float_display(t, bits),
        ValueModel::Scalar(ScalarModel::Str(s)) => s,
        ValueModel::Scalar(ScalarModel::Bytes(b)) => "bytes["@ + decimal(b.len()) + "]"@,
        ValueModel::Hash(es) => "hash({"@ + decimal(es.len()) + "})"@,
        ValueModel::SetOf(ms) => "set("@ + decimal(ms.len()) + ")"@,
        ValueModel::List(ms) => "list["@ + decimal(ms.len()) + "]"@,
        ValueModel::Tree(es) => "tree({"@ + decimal(es.len()) + "})"@,
    }
}

fn sized(head: &str, n: usize, tail: &str) -> (r: String)
    ensures
        r@ == head@ + decimal(n as nat) + tail@,
{
    let mut s = text(head);
    push_decimal(&mut s, n as u64);
    s.append(tail);
    s
}

/// The one-line display of `v`; floats show the text `floats` records for
/// their bits.
pub fn format_value(v: &Value, floats: &FloatTexts) -> (r: String)
    ensures
        r@ == display_of(v.model(), texts_model(floats@)),
{
    proof {
        crate::value::lemma_model_parts(*v);
    }
    match v {
        Value::Scalar(Scalar::Null) => text("null"),
        Value::Scalar(Scalar::Bool(b)) => if *b {
            text("true")
        } else {
            text("false")
        },
        Value::Scalar(Scalar::Int(n)) => i64_to_string(*n),
        Value::Scalar(Scalar::Float(bits)) => match lookup_text(floats, *bits) {
            Some(s) => s,
            None => fallback_text(*bits),
        },
        Value::Scalar(Scalar::String(s)) => s.clone(),
        Value::Scalar(Scalar::Bytes(b)) => sized("bytes[", b.len(), "]"),
        Value::Hash(m) => sized("hash({", m.entries.len(), "})"),
        Value::SetOf(ms) => sized("set(", ms.len(), ")"),
        Value::List(ms) => sized("list[", ms.len(), "]"),
        Value::Tree(m) => sized("tree({", m.entries.len(), "})"),
    }
}

// ---------------------------------------------------------------------------
// Answering requests

/// A reply that fails with message `m`.
pub open spec fn failed_with(resp: Response, m: Seq<char>) -> bool {
    resp matches Response::Failure { message } && message@ == m
}

/// A reply that succeeds with message `m`.
pub open spec fn succeeded_with(resp: Response, m: Seq<char>) -> bool {
    resp matches Response::Success { message } && message@ == m
}

/// A reply that reports a failure of the storage layer.
pub open spec fn storage_reply(resp: Response) -> bool {
    resp matches Response::Failure { message } && storage_text(message@)
}

/// The reply to a mutation specified by `s`: its success message and new
/// store, or its error with the store unchanged. Where storage fails, the
/// reply says so and the store is unchanged or fully updated.
pub open spec fn mutation_reply(resp: Response, before: Kv, after: Kv, s: Result<Kv, NsErr>, ok: Seq<char>) -> bool {
    match s {
        Ok(m) => (succeeded_with(resp, ok) && after == m) || (storage_reply(resp) && (after == before || after == m)),
        Err(e) => (failed_with(resp, ns_message(e)) || storage_reply(resp)) && after == before,
    }
}

/// A request naming `path`: a path that does not parse is refused with the
/// store unchanged; else `f` says what follows.
pub open spec fn at_path(path: Seq<char>, resp: Response, before: Kv, after: Kv, f: spec_fn(Seq<Seq<char>>) -> bool) -> bool {
    match spec_parse_path(path) {
        Err(pe) => failed_with(resp, path_message(pe)) && after == before,
        Ok(segs) => f(segs),
    }
}

/// A request carrying a value as type and text: one that does not parse is
/// refused with the store unchanged; else `f` says what follows.
pub open spec fn with_value(
    ty: Seq<char>,
    raw: Seq<char>,
    b: Seq<(Seq<char>, u64)>,
    resp: Response,
    before: Kv,
    after: Kv,
    f: spec_fn(ValueModel) -> bool,
) -> bool {
    match value_of_text(ty, raw, b) {
        Err(m) => failed_with(resp, m) && after == before,
        Ok(v) => f(v),
    }
}

/// The reply to a read whose outcome is `r`.
pub open spec fn read_reply<X>(resp: Response, r: Result<X, NsErr>, ok: spec_fn(X) -> bool) -> bool {
    storage_reply(resp) || match r {
        Ok(x) => ok(x),
        Err(e) => failed_with(resp, ns_message(e)),
    }
}

/// The reply to `get`: a directory shows its path, a value its type and
/// display.
pub open spec fn get_reply(resp: Response, segs: Seq<Seq<char>>, kind: EntryKind, v: Option<ValueModel>, t: Seq<(u64, Seq<char>)>) -> bool {
    if kind is Directory {
        resp matches Response::Value { typename, display } && typename@ == "directory"@ && display@ == path_string(segs)
    } else {
        resp matches Response::Value { typename, display } && typename@ == crate::value::value_type_label(v->Some_0)
            && display@ == display_of(v->Some_0, t)
    }
}

/// The kind of a listed child as a listing shows it.
pub open spec fn kind_word(k: EntryKind) -> Seq<char> {
    if k is Directory {
        "dir"@
    } else {
        "val"@
    }
}

pub open spec fn list_entry_models(v: Seq<ListEntry>) -> Seq<(Seq<char>, Seq<char>)> {
    Seq::new(v.len(), |i: int| (v[i].name@, v[i].kind@))
}

pub open spec fn listing_words(l: Seq<(Seq<char>, EntryKind)>) -> Seq<(Seq<char>, Seq<char>)> {
    Seq::new(l.len(), |i: int| (l[i].0, kind_word(l[i].1)))
}

pub open spec fn hit_dto_models(v: Seq<QueryHitDto>) -> Seq<(Seq<char>, Seq<char>)> {
    Seq::new(v.len(), |i: int| (v[i].path@, v[i].typename@))
}

pub open spec fn hits_on_wire(h: Seq<HitModel>) -> Seq<(Seq<char>, Seq<char>)> {
    Seq::new(h.len(), |i: int| (path_string(h[i].0), h[i].1))
}

/// The reply to a query over `kv`.
pub open spec fn query_reply(resp: Response, kv: Kv, q: Seq<char>, b: Seq<(Seq<char>, u64)>) -> bool {
    match spec_parse_query(q, b) {
        Err(m) => failed_with(resp, "parse error: "@ + m),
        Ok(e) => storage_reply(resp) || exists|qs: Seq<Seq<Seq<char>>>|
            visit_order(kv, e, qs) && match #[trigger] spec_candidates(kv, e, qs) {
                Ok(cs) => resp matches Response::Query { hits } && hit_dto_models(hits@) == hits_on_wire(spec_hits(e, cs)),
                Err(x) => failed_with(resp, ns_message(x)),
            },
    }
}

/// The key a tree request names: an integer where the text parses as one,
/// else the text.
pub open spec fn tree_key(k: Seq<char>) -> ScalarModel {
    match i64_text(k) {
        Some(n) => ScalarModel::Int(n),
        None => ScalarModel::Str(k),
    }
}

/// A message from the storage layer.
pub open spec fn storage_error_text(m: Seq<char>) -> bool {
    exists|e: StorageError| m == storage_message(&e)
}

/// The reply to an import: the store the import leaves and its outcome;
/// when storage fails the reply says so and nothing more is claimed.
pub open spec fn import_reply(resp: Response, before: Kv, after: Kv, json: Seq<char>, b: Seq<(Seq<char>, u64)>) -> bool {
    storage_reply(resp) || match spec_parse_json(trim_ws(json)) {
        Err(m) => failed_with(resp, ns_message(NsErr::Invalid(m))) && after == before,
        Ok(j) => {
            let s = spec_import(before, Seq::empty(), j, true, b);
            after == s.0 && match s.1 {
                Ok(()) => succeeded_with(resp, "ok imported"@),
                Err(e) => failed_with(resp, ns_message(e)),
            }
        },
    }
}

/// How a request is answered against the store `before`, leaving `after`.
/// Float texts in the request take their bits from `b`; floats shown in the
/// reply take their text from `t`.
/// The transaction operation a mutation of a batch stands for, or why its
/// path or value is refused.
pub open spec fn batch_op(m: Mutation, b: Seq<(Seq<char>, u64)>) -> Result<TxnOpModel, Seq<char>> {
    match m {
        Mutation::Mkdir { path } => match spec_parse_path(path@) {
            Err(pe) => Err(path_message(pe)),
            Ok(s) => Ok(TxnOpModel::Mkdir(s)),
        },
        Mutation::Rm { path } => match spec_parse_path(path@) {
            Err(pe) => Err(path_message(pe)),
            Ok(s) => Ok(TxnOpModel::Delete(s)),
        },
        Mutation::SetValue { path, typename, value } => match spec_parse_path(path@) {
            Err(pe) => Err(path_message(pe)),
            Ok(s) => match value_of_text(typename@, value@, b) {
                Err(m) => Err(m),
                Ok(v) => Ok(TxnOpModel::SetValue(s, v)),
            },
        },
        Mutation::Hset { path, key, typename, value } => match spec_parse_path(path@) {
            Err(pe) => Err(path_message(pe)),
            Ok(s) => match value_of_text(typename@, value@, b) {
                Err(m) => Err(m),
                Ok(v) => Ok(TxnOpModel::HashSet(s, key@, v)),
            },
        },
        Mutation::Lpush { path, typename, value } => match spec_parse_path(path@) {
            Err(pe) => Err(path_message(pe)),
            Ok(s) => match value_of_text(typename@, value@, b) {
                Err(m) => Err(m),
                Ok(v) => Ok(TxnOpModel::ListPush(s, v)),
            },
        },
        Mutation::Sadd { path, typename, value } => match spec_parse_path(path@) {
            Err(pe) => Err(path_message(pe)),
            Ok(s) => match value_of_text(typename@, value@, b) {
                Err(m) => Err(m),
                Ok(v) => Ok(TxnOpModel::SetAdd(s, v)),
            },
        },
        Mutation::Tset { path, key, typename, value } => match spec_parse_path(path@) {
            Err(pe) => Err(path_message(pe)),
            Ok(s) => match value_of_text(typename@, value@, b) {
                Err(m) => Err(m),
                Ok(v) => Ok(TxnOpModel::TreeSet(s, tree_key(key@), v)),
            },
        },
    }
}

/// The operations of a batch, or the refusal of its first mutation that
/// does not parse.
pub open spec fn batch_ops(ms: Seq<Mutation>, b: Seq<(Seq<char>, u64)>) -> Result<Seq<TxnOpModel>, Seq<char>>
    decreases ms.len(),
{
    if ms.len() == 0 {
        Ok(Seq::empty())
    } else {
        match batch_ops(ms.drop_last(), b) {
            Err(m) => Err(m),
            Ok(ops) => match batch_op(ms.last(), b) {
                Err(m) => Err(m),
                Ok(o) => Ok(ops.push(o)),
            },
        }
    }
}

pub open spec fn dispatch_agrees(
    req: Request,
    before: Kv,
    after: Kv,
    resp: Response,
    b: Seq<(Seq<char>, u64)>,
    t: Seq<(u64, Seq<char>)>,
) -> bool {
    match req {
        Request::Ping => succeeded_with(resp, "pong"@) && after == before,
        Request::Mkdir { path } => at_path(
            path@,
            resp,
            before,
            after,
            |segs: Seq<Seq<char>>| mutation_reply(resp, before, after, spec_mkdir(before, segs, true), "ok "@ + path_string(segs)),
        ),
        Request::SetValue { path, typename, value } => at_path(
            path@,
            resp,
            before,
            after,
            |segs: Seq<Seq<char>>|
                with_value(
                    typename@,
                    value@,
                    b,
                    resp,
                    before,
                    after,
                    |v: ValueModel| mutation_reply(resp, before, after, spec_set(before, segs, v, true), "ok "@ + path_string(segs)),
                ),
        ),
        Request::Get { path } => after == before && at_path(
            path@,
            resp,
            before,
            after,
            |segs: Seq<Seq<char>>|
                read_reply(
                    resp,
                    spec_get(before, segs),
                    |e: (EntryKind, Option<ValueModel>)| get_reply(resp, segs, e.0, e.1, t),
                ),
        ),
        Request::Ls { path } => after == before && at_path(
            path@,
            resp,
            before,
            after,
            |segs: Seq<Seq<char>>|
                read_reply(
                    resp,
                    spec_list(before, segs),
                    |l: Seq<(Seq<char>, EntryKind)>|
                        resp matches Response::List { entries } && list_entry_models(entries@) == listing_words(l),
                ),
        ),
        Request::Rm { path } => at_path(
            path@,
            resp,
            before,
            after,
            |segs: Seq<Seq<char>>| mutation_reply(resp, before, after, spec_delete(before, segs, true), "ok "@ + path_string(segs)),
        ),
        Request::Hset { path, key, typename, value } => at_path(
            path@,
            resp,
            before,
            after,
            |segs: Seq<Seq<char>>|
                with_value(
                    typename@,
                    value@,
                    b,
                    resp,
                    before,
                    after,
                    |v: ValueModel| mutation_reply(resp, before, after, spec_hash_set(before, segs, key@, v, true), "ok"@),
                ),
        ),
        Request::Lpush { path, typename, value } => at_path(
            path@,
            resp,
            before,
            after,
            |segs: Seq<Seq<char>>|
                with_value(
                    typename@,
                    value@,
                    b,
                    resp,
                    before,
                    after,
                    |v: ValueModel| mutation_reply(resp, before, after, spec_list_push(before, segs, v, true), "ok"@),
                ),
        ),
        Request::Sadd { path, typename, value } => at_path(
            path@,
            resp,
            before,
            after,
            |segs: Seq<Seq<char>>|
                with_value(
                    typename@,
                    value@,
                    b,
                    resp,
                    before,
                    after,
                    |v: ValueModel| mutation_reply(resp, before, after, spec_set_add(before, segs, v, true), "ok"@),
                ),
        ),
        Request::Tset { path, key, typename, value } => at_path(
            path@,
            resp,
            before,
            after,
            |segs: Seq<Seq<char>>|
                with_value(
                    typename@,
                    value@,
                    b,
                    resp,
                    before,
                    after,
                    |v: ValueModel|
                        mutation_reply(resp, before, after, spec_tree_set(before, segs, tree_key(key@), v, true), "ok"@),
                ),
        ),
        Request::Query { query } => after == before && query_reply(resp, before, query@, b),
        Request::Batch { ops } => match batch_ops(ops@, b) {
            Err(m) => failed_with(resp, m) && after == before,
            Ok(tops) => mutation_reply(resp, before, after, spec_txn(before, tops), "ok"@),
        },
        Request::Compact => after == before && (succeeded_with(resp, "ok compacted"@) || (
        resp matches Response::Failure { message } && storage_error_text(message@))),
        Request::Export => after == before && read_reply(
            resp,
            spec_export(before, Seq::empty(), walk_fuel(), t),
            |j| resp matches Response::Export { json } && json@ == json_text(j),
        ),
        Request::Import { json } => import_reply(resp, before, after, json@, b),
    }
}

/// The reply to a finished mutation.
fn mutation_response(r: Result<(), NsError>, ok: String) -> (resp: Response)
    ensures
        r is Ok ==> succeeded_with(resp, ok@),
        r matches Err(e) ==> failed_with(resp, ns_message(e.model())),
        crate::errors::storage_failed(r) ==> storage_reply(resp),
{
    match r {
        Ok(()) => Response::Success { message: ok },
        Err(e) => error_response(e),
    }
}

/// The reply for a namespace error: its text.
fn error_response(e: NsError) -> (resp: Response)
    ensures
        failed_with(resp, ns_message(e.model())),
        e is Storage ==> storage_reply(resp),
{
    let m = e.message();
    proof {
        if e is Storage {
            lemma_storage_reply(e, m);
        }
    }
    Response::Failure { message: m }
}

proof fn lemma_storage_reply(e: NsError, m: String)
    requires
        e is Storage,
        m@ == ns_message(e.model()),
    ensures
        storage_text(m@),
{
    reveal_strlit("storage: ");
    assert(m@.take(9) =~= "storage: "@);
}

fn ok_at(p: &DbPath) -> (s: String)
    ensures
        s@ == "ok "@ + path_string(p@),
{
    let mut s = text("ok ");
    s.append(p.as_str().as_str());
    s
}

/// The transaction operation of one mutation of a batch.
fn batch_op_of(m: &Mutation, floats: &FloatBits) -> (r: Result<TxnOp, String>)
    ensures
        match batch_op(*m, bits_model(floats@)) {
            Ok(o) => r matches Ok(x) && x.model() == o,
            Err(m) => r matches Err(x) && x@ == m,
        },
{
    match m {
        Mutation::Mkdir { path } => match DbPath::parse(path.as_str()) {
            Ok(p) => Ok(TxnOp::Mkdir { path: p }),
            Err(e) => Err(e.message()),
        },
        Mutation::Rm { path } => match DbPath::parse(path.as_str()) {
            Ok(p) => Ok(TxnOp::Delete { path: p }),
            Err(e) => Err(e.message()),
        },
        Mutation::SetValue { path, typename, value } => {
            let p = match DbPath::parse(path.as_str()) {
                Ok(p) => p,
                Err(e) => return Err(e.message()),
            };
            let v = parse_value(typename.as_str(), value.as_str(), floats)?;
            Ok(TxnOp::SetValue { path: p, value: v })
        },
        Mutation::Hset { path, key, typename, value } => {
            let p = match DbPath::parse(path.as_str()) {
                Ok(p) => p,
                Err(e) => return Err(e.message()),
            };
            let v = parse_value(typename.as_str(), value.as_str(), floats)?;
            Ok(TxnOp::HashSet { path: p, key: key.clone(), value: v })
        },
        Mutation::Lpush { path, typename, value } => {
            let p = match DbPath::parse(path.as_str()) {
                Ok(p) => p,
                Err(e) => return Err(e.message()),
            };
            let v = parse_value(typename.as_str(), value.as_str(), floats)?;
            Ok(TxnOp::ListPush { path: p, value: v })
        },
        Mutation::Sadd { path, typename, value } => {
            let p = match DbPath::parse(path.as_str()) {
                Ok(p) => p,
                Err(e) => return Err(e.message()),
            };
            let v = parse_value(typename.as_str(), value.as_str(), floats)?;
            Ok(TxnOp::SetAdd { path: p, value: v })
        },
        Mutation::Tset { path, key, typename, value } => {
            let p = match DbPath::parse(path.as_str()) {
                Ok(p) => p,
                Err(e) => return Err(e.message()),
            };
            let sk = tree_key_of(key);
            let v = parse_value(typename.as_str(), value.as_str(), floats)?;
            Ok(TxnOp::TreeSet { path: p, key: sk, value: v })
        },
    }
}

/// Apply the mutations of a batch as one transaction.
fn answer_batch<S: Storage>(db: &mut Database<S>, reqs: &Vec<Mutation>, floats: &FloatBits) -> (resp: Response)
    ensures
        match batch_ops(reqs@, bits_model(floats@)) {
            Err(m) => failed_with(resp, m) && final(db).kv() == old(db).kv(),
            Ok(tops) => mutation_reply(resp, old(db).kv(), final(db).kv(), spec_txn(old(db).kv(), tops), "ok"@),
        },
{
    let ghost bm = bits_model(floats@);
    let mut ops: Vec<TxnOp> = Vec::new();
    let mut i: usize = 0;
    assert(reqs@.take(0) =~= Seq::<Mutation>::empty());
    assert(op_models(ops@) =~= Seq::<TxnOpModel>::empty());
    while i < reqs.len()
        invariant
            i <= reqs@.len(),
            bm == bits_model(floats@),
            ops@.len() == i,
            batch_ops(reqs@.take(i as int), bm) == Ok::<Seq<TxnOpModel>, Seq<char>>(op_models(ops@)),
        decreases reqs@.len() - i,
    {
        assert(reqs@.take(i + 1).drop_last() =~= reqs@.take(i as int));
        assert(reqs@.take(i + 1).last() == reqs@[i as int]);
        match batch_op_of(&reqs[i], floats) {
            Ok(op) => {
                let ghost before = ops@;
                ops.push(op);
                assert(op_models(ops@) =~= op_models(before).push(ops@[i as int].model()));
            },
            Err(m) => {
                proof {
                    lemma_batch_ops_err(reqs@, i as int + 1, bm);
                }
                return Response::Failure { message: m };
            },
        }
        i = i + 1;
    }
    assert(reqs@.take(i as int) =~= reqs@);
    let r = db.apply_txn(ops.as_slice());
    mutation_response(r, text("ok"))
}

proof fn lemma_batch_ops_err(reqs: Seq<Mutation>, j: int, b: Seq<(Seq<char>, u64)>)
    requires
        0 <= j <= reqs.len(),
        batch_ops(reqs.take(j), b) is Err,
    ensures
        batch_ops(reqs, b) == batch_ops(reqs.take(j), b),
    decreases reqs.len(),
{
    if j == reqs.len() {
        assert(reqs.take(j) =~= reqs);
    } else {
        assert(reqs.drop_last().take(j) =~= reqs.take(j));
        lemma_batch_ops_err(reqs.drop_last(), j, b);
    }
}

fn answer_mkdir<S: Storage>(db: &mut Database<S>, path: &String) -> (resp: Response)
    ensures
        at_path(path@, resp, old(db).kv(), final(db).kv(), |segs: Seq<Seq<char>>|
            mutation_reply(resp, old(db).kv(), final(db).kv(), spec_mkdir(old(db).kv(), segs, true), "ok "@ + path_string(segs))),
{
    let p = match DbPath::parse(path.as_str()) {
        Ok(p) => p,
        Err(e) => return Response::Failure { message: e.message() },
    };
    let r = db.mkdir(&p);
    mutation_response(r, ok_at(&p))
}

fn answer_rm<S: Storage>(db: &mut Database<S>, path: &String) -> (resp: Response)
    ensures
        at_path(path@, resp, old(db).kv(), final(db).kv(), |segs: Seq<Seq<char>>|
            mutation_reply(resp, old(db).kv(), final(db).kv(), spec_delete(old(db).kv(), segs, true), "ok "@ + path_string(segs))),
{
    let p = match DbPath::parse(path.as_str()) {
        Ok(p) => p,
        Err(e) => return Response::Failure { message: e.message() },
    };
    let r = db.delete(&p);
    mutation_response(r, ok_at(&p))
}

fn answer_set<S: Storage>(db: &mut Database<S>, path: &String, ty: &String, raw: &String, floats: &FloatBits) -> (resp: Response)
    ensures
        at_path(path@, resp, old(db).kv(), final(db).kv(), |segs: Seq<Seq<char>>|
            with_value(ty@, raw@, bits_model(floats@), resp, old(db).kv(), final(db).kv(), |v: ValueModel|
                mutation_reply(resp, old(db).kv(), final(db).kv(), spec_set(old(db).kv(), segs, v, true), "ok "@ + path_string(segs)))),
{
    let p = match DbPath::parse(path.as_str()) {
        Ok(p) => p,
        Err(e) => return Response::Failure { message: e.message() },
    };
    let v = match parse_value(ty.as_str(), raw.as_str(), floats) {
        Ok(v) => v,
        Err(m) => return Response::Failure { message: m },
    };
    let r = db.set(&p, v);
    mutation_response(r, ok_at(&p))
}

fn answer_hset<S: Storage>(db: &mut Database<S>, path: &String, key: &String, ty: &String, raw: &String, floats: &FloatBits) -> (resp: Response)
    ensures
        at_path(path@, resp, old(db).kv(), final(db).kv(), |segs: Seq<Seq<char>>|
            with_value(ty@, raw@, bits_model(floats@), resp, old(db).kv(), final(db).kv(), |v: ValueModel|
                mutation_reply(resp, old(db).kv(), final(db).kv(), spec_hash_set(old(db).kv(), segs, key@, v, true), "ok"@))),
{
    let p = match DbPath::parse(path.as_str()) {
        Ok(p) => p,
        Err(e) => return Response::Failure { message: e.message() },
    };
    let v = match parse_value(ty.as_str(), raw.as_str(), floats) {
        Ok(v) => v,
        Err(m) => return Response::Failure { message: m },
    };
    let r = db.hash_set(&p, key.as_str(), v);
    mutation_response(r, text("ok"))
}

fn answer_lpush<S: Storage>(db: &mut Database<S>, path: &String, ty: &String, raw: &String, floats: &FloatBits) -> (resp: Response)
    ensures
        at_path(path@, resp, old(db).kv(), final(db).kv(), |segs: Seq<Seq<char>>|
            with_value(ty@, raw@, bits_model(floats@), resp, old(db).kv(), final(db).kv(), |v: ValueModel|
                mutation_reply(resp, old(db).kv(), final(db).kv(), spec_list_push(old(db).kv(), segs, v, true), "ok"@))),
{
    let p = match DbPath::parse(path.as_str()) {
        Ok(p) => p,
        Err(e) => return Response::Failure { message: e.message() },
    };
    let v = match parse_value(ty.as_str(), raw.as_str(), floats) {
        Ok(v) => v,
        Err(m) => return Response::Failure { message: m },
    };
    let r = db.list_push(&p, v);
    mutation_response(r, text("ok"))
}

fn answer_sadd<S: Storage>(db: &mut Database<S>, path: &String, ty: &String, raw: &String, floats: &FloatBits) -> (resp: Response)
    ensures
        at_path(path@, resp, old(db).kv(), final(db).kv(), |segs: Seq<Seq<char>>|
            with_value(ty@, raw@, bits_model(floats@), resp, old(db).kv(), final(db).kv(), |v: ValueModel|
                mutation_reply(resp, old(db).kv(), final(db).kv(), spec_set_add(old(db).kv(), segs, v, true), "ok"@))),
{
    let p = match DbPath::parse(path.as_str()) {
        Ok(p) => p,
        Err(e) => return Response::Failure { message: e.message() },
    };
    let v = match parse_value(ty.as_str(), raw.as_str(), floats) {
        Ok(v) => v,
        Err(m) => return Response::Failure { message: m },
    };
    let r = db.set_add(&p, v);
    mutation_response(r, text("ok"))
}

/// The key of a tree request: an integer where the text parses as one.
fn tree_key_of(k: &String) -> (r: Scalar)
    ensures
        r.model() == tree_key(k@),
{
    match parse_i64_str(k.as_str()) {
        Some(n) => Scalar::Int(n),
        None => Scalar::String(k.clone()),
    }
}

fn answer_tset<S: Storage>(db: &mut Database<S>, path: &String, key: &String, ty: &String, raw: &String, floats: &FloatBits) -> (resp: Response)
    ensures
        at_path(path@, resp, old(db).kv(), final(db).kv(), |segs: Seq<Seq<char>>|
            with_value(ty@, raw@, bits_model(floats@), resp, old(db).kv(), final(db).kv(), |v: ValueModel|
                mutation_reply(resp, old(db).kv(), final(db).kv(), spec_tree_set(old(db).kv(), segs, tree_key(key@), v, true), "ok"@))),
{
    let p = match DbPath::parse(path.as_str()) {
        Ok(p) => p,
        Err(e) => return Response::Failure { message: e.message() },
    };
    let sk = tree_key_of(key);
    let v = match parse_value(ty.as_str(), raw.as_str(), floats) {
        Ok(v) => v,
        Err(m) => return Response::Failure { message: m },
    };
    let r = db.tree_set(&p, sk, v);
    mutation_response(r, text("ok"))
}

fn answer_get<S: Storage>(db: &Database<S>, path: &String, texts: &FloatTexts) -> (resp: Response)
    ensures
        at_path(path@, resp, db.kv(), db.kv(), |segs: Seq<Seq<char>>|
            read_reply(resp, spec_get(db.kv(), segs), |e: (EntryKind, Option<ValueModel>)| get_reply(resp, segs, e.0, e.1, texts_model(texts@)))),
{
    let p = match DbPath::parse(path.as_str()) {
        Ok(p) => p,
        Err(e) => return Response::Failure { message: e.message() },
    };
    let e = match db.get(&p) {
        Ok(e) => e,
        Err(x) => return error_response(x),
    };
    match e.kind {
        EntryKind::Directory => Response::Value { typename: text("directory"), display: p.as_str() },
        EntryKind::Value => match &e.value {
            Some(v) => Response::Value { typename: text(v.typename()), display: format_value(v, texts) },
            None => Response::Value { typename: text("value"), display: text("") },
        },
    }
}

fn answer_ls<S: Storage>(db: &Database<S>, path: &String) -> (resp: Response)
    ensures
        at_path(path@, resp, db.kv(), db.kv(), |segs: Seq<Seq<char>>|
            read_reply(resp, spec_list(db.kv(), segs), |l: Seq<(Seq<char>, EntryKind)>|
                resp matches Response::List { entries } && list_entry_models(entries@) == listing_words(l))),
{
    let p = match DbPath::parse(path.as_str()) {
        Ok(p) => p,
        Err(e) => return Response::Failure { message: e.message() },
    };
    let children = match db.list(&p) {
        Ok(c) => c,
        Err(x) => return error_response(x),
    };
    let ghost lm = listing_model(children@);
    let mut entries: Vec<ListEntry> = Vec::new();
    let mut i: usize = 0;
    while i < children.len()
        invariant
            i <= children@.len(),
            lm == listing_model(children@),
            list_entry_models(entries@) == listing_words(lm).take(i as int),
            entries@.len() == i,
        decreases children@.len() - i,
    {
        let kind = match children[i].1 {
            EntryKind::Directory => text("dir"),
            EntryKind::Value => text("val"),
        };
        let ghost before = entries@;
        let name = children[i].0.clone();
        assert(name@ == lm[i as int].0);
        assert(kind@ == kind_word(lm[i as int].1));
        entries.push(ListEntry { name, kind });
        assert forall|j: int| 0 <= j < i implies #[trigger] list_entry_models(entries@)[j] == list_entry_models(before)[j] by {
            assert(entries@[j] == before[j]);
        }
        assert(list_entry_models(entries@) =~= listing_words(lm).take(i + 1));
        i = i + 1;
    }
    assert(listing_words(lm).take(i as int) =~= listing_words(lm));
    Response::List { entries }
}

/// Query hits as they go on the wire.
fn hits_to_dto(hits: Vec<QueryHit>) -> (r: Vec<QueryHitDto>)
    ensures
        hit_dto_models(r@) == hits_on_wire(crate::eval::hit_models(hits@)),
{
    let ghost hm = crate::eval::hit_models(hits@);
    let mut out: Vec<QueryHitDto> = Vec::new();
    let mut i: usize = 0;
    while i < hits.len()
        invariant
            i <= hits@.len(),
            hm == crate::eval::hit_models(hits@),
            hit_dto_models(out@) == hits_on_wire(hm).take(i as int),
            out@.len() == i,
        decreases hits@.len() - i,
    {
        let h = &hits[i];
        let ghost before = out@;
        let ps = h.path.as_str();
        let tn = h.typename.clone();
        assert(ps@ == hits_on_wire(hm)[i as int].0);
        assert(tn@ == hits_on_wire(hm)[i as int].1);
        out.push(QueryHitDto { path: ps, typename: tn });
        assert forall|j: int| 0 <= j < i implies #[trigger] hit_dto_models(out@)[j] == hit_dto_models(before)[j] by {
            assert(out@[j] == before[j]);
        }
        assert(hit_dto_models(out@) =~= hits_on_wire(hm).take(i + 1));
        i = i + 1;
    }
    assert(hits_on_wire(hm).take(i as int) =~= hits_on_wire(hm));
    out
}

fn answer_query<S: Storage>(db: &Database<S>, query: &String, floats: &FloatBits) -> (resp: Response)
    ensures
        query_reply(resp, db.kv(), query@, bits_model(floats@)),
{
    let r = execute(db, query.as_str(), floats);
    match r {
        Ok(hits) => {
            let ghost hm = crate::eval::hit_models(hits@);
            let dto = hits_to_dto(hits);
            let resp = Response::Query { hits: dto };
            proof {
                match spec_parse_query(query@, bits_model(floats@)) {
                    Ok(e) => {
                        let qs = choose|qs: Seq<Seq<Seq<char>>>|
                            visit_order(db.kv(), e, qs) && crate::eval::outcome_agrees(r, e, #[trigger] spec_candidates(db.kv(), e, qs));
                        assert(visit_order(db.kv(), e, qs) && match spec_candidates(db.kv(), e, qs) {
                            Ok(cs) => resp matches Response::Query { hits } && hit_dto_models(hits@) == hits_on_wire(spec_hits(e, cs)),
                            Err(x) => failed_with(resp, ns_message(x)),
                        });
                    },
                    Err(_) => {},
                }
            }
            resp
        },
        Err(e) => {
            let m = e.message();
            let resp = Response::Failure { message: m };
            proof {
                match spec_parse_query(query@, bits_model(floats@)) {
                    Ok(ex) => {
                        if !storage_reply(resp) {
                            let qs = choose|qs: Seq<Seq<Seq<char>>>|
                                visit_order(db.kv(), ex, qs) && crate::eval::outcome_agrees(r, ex, #[trigger] spec_candidates(db.kv(), ex, qs));
                            assert(visit_order(db.kv(), ex, qs) && match spec_candidates(db.kv(), ex, qs) {
                                Ok(cs) => resp matches Response::Query { hits } && hit_dto_models(hits@) == hits_on_wire(spec_hits(ex, cs)),
                                Err(x) => failed_with(resp, ns_message(x)),
                            });
                        }
                    },
                    Err(_) => {},
                }
            }
            resp
        },
    }
}

fn answer_export<S: Storage>(db: &Database<S>, texts: &FloatTexts) -> (resp: Response)
    ensures
        read_reply(resp, spec_export(db.kv(), Seq::empty(), walk_fuel(), texts_model(texts@)), |j|
            resp matches Response::Export { json } && json@ == json_text(j)),
{
    match db.export_json(texts) {
        Ok(json) => Response::Export { json },
        Err(e) => error_response(e),
    }
}

fn answer_import<S: Storage>(db: &mut Database<S>, json: &String, floats: &FloatBits) -> (resp: Response)
    ensures
        import_reply(resp, old(db).kv(), final(db).kv(), json@, bits_model(floats@)),
{
    match db.import_json(json.as_str(), floats) {
        Ok(()) => Response::Success { message: text("ok imported") },
        Err(e) => error_response(e),
    }
}

fn answer_compact<S: Storage + Compact>(db: &mut Database<S>) -> (resp: Response)
    ensures
        final(db).kv() == old(db).kv(),
        succeeded_with(resp, "ok compacted"@) || (resp matches Response::Failure { message } && storage_error_text(message@)),
{
    let r = db.store_mut().compact();
    match r {
        Ok(()) => Response::Success { message: text("ok compacted") },
        Err(e) => {
            let m = e.message();
            assert(m@ == storage_message(&e));
            Response::Failure { message: m }
        },
    }
}

/// Answer one request against `db`. Float texts in the request take their
/// bits from `floats`; floats shown in the reply take their text from
/// `texts`.
pub fn dispatch<S: Storage + Compact>(db: &mut Database<S>, request: Request, floats: &FloatBits, texts: &FloatTexts) -> (resp: Response)
    ensures
        dispatch_agrees(request, old(db).kv(), final(db).kv(), resp, bits_model(floats@), texts_model(texts@)),
{
    match &request {
        Request::Ping => Response::Success { message: text("pong") },
        Request::Mkdir { path } => answer_mkdir(db, path),
        Request::SetValue { path, typename, value } => answer_set(db, path, typename, value, floats),
        Request::Get { path } => answer_get(db, path, texts),
        Request::Ls { path } => answer_ls(db, path),
        Request::Rm { path } => answer_rm(db, path),
        Request::Hset { path, key, typename, value } => answer_hset(db, path, key, typename, value, floats),
        Request::Lpush { path, typename, value } => answer_lpush(db, path, typename, value, floats),
        Request::Sadd { path, typename, value } => answer_sadd(db, path, typename, value, floats),
        Request::Tset { path, key, typename, value } => answer_tset(db, path, key, typename, value, floats),
        Request::Query { query } => answer_query(db, query, floats),
        Request::Compact => answer_compact(db),
        Request::Export => answer_export(db, texts),
        Request::Import { json } => answer_import(db, json, floats),
        Request::Batch { ops } => answer_batch(db, ops, floats),
    }
}

// ---------------------------------------------------------------------------
// Replies as a command line prints them

pub open spec fn lines_of_entries(es: Seq<(Seq<char>, Seq<char>)>) -> Seq<char>
    decreases es.len(),
{
    if es.len() == 0 {
        Seq::empty()
    } else {
        lines_of_entries(es.drop_last()) + es.last().1 + seq!['\t'] + es.last().0 + seq!['\n']
    }
}

pub open spec fn lines_of_hits(hs: Seq<(Seq<char>, Seq<char>)>) -> Seq<char>
    decreases hs.len(),
{
    if hs.len() == 0 {
        Seq::empty()
    } else {
        lines_of_hits(hs.drop_last()) + hs.last().0 + seq!['\t'] + hs.last().1 + seq!['\n']
    }
}

/// What a command line prints for a reply, line by line; a failure is its
/// message as an error instead.
pub open spec fn printed(resp: Response) -> Result<Seq<char>, Seq<char>> {
    match resp {
        Response::Success { message } => Ok(message@ + seq!['\n']),
        Response::Value { typename, display } => Ok(typename@ + seq![' '] + display@ + seq!['\n']),
        Response::List { entries } => Ok(lines_of_entries(list_entry_models(entries@))),
        Response::Query { hits } => Ok(lines_of_hits(hit_dto_models(hits@))),
        Response::Export { json } => Ok(json@ + seq!['\n']),
        Response::Failure { message } => Err(message@),
    }
}

/// The text a command line prints for a reply, or the failure's message.
pub fn render_response(resp: &Response) -> (r: Result<String, String>)
    ensures
        match printed(*resp) {
            Ok(t) => r matches Ok(x) && x@ == t,
            Err(m) => r matches Err(x) && x@ == m,
        },
{
    match resp {
        Response::Success { message } => {
            let mut s = message.clone();
            crate::strings::string_push(&mut s, '\n');
            Ok(s)
        },
        Response::Value { typename, display } => {
            let mut s = typename.clone();
            crate::strings::string_push(&mut s, ' ');
            s.append(display.as_str());
            crate::strings::string_push(&mut s, '\n');
            Ok(s)
        },
        Response::List { entries } => {
            let ghost em = list_entry_models(entries@);
            let mut s = String::new();
            let mut i: usize = 0;
            assert(em.take(0) =~= Seq::<(Seq<char>, Seq<char>)>::empty());
            while i < entries.len()
                invariant
                    i <= entries@.len(),
                    em == list_entry_models(entries@),
                    s@ == lines_of_entries(em.take(i as int)),
                decreases entries@.len() - i,
            {
                assert(em.take(i + 1).drop_last() =~= em.take(i as int));
                s.append(entries[i].kind.as_str());
                crate::strings::string_push(&mut s, '\t');
                s.append(entries[i].name.as_str());
                crate::strings::string_push(&mut s, '\n');
                i = i + 1;
            }
            assert(em.take(i as int) =~= em);
            Ok(s)
        },
        Response::Query { hits } => {
            let ghost hm = hit_dto_models(hits@);
            let mut s = String::new();
            let mut i: usize = 0;
            assert(hm.take(0) =~= Seq::<(Seq<char>, Seq<char>)>::empty());
            while i < hits.len()
                invariant
                    i <= hits@.len(),
                    hm == hit_dto_models(hits@),
                    s@ == lines_of_hits(hm.take(i as int)),
                decreases hits@.len() - i,
            {
                assert(hm.take(i + 1).drop_last() =~= hm.take(i as int));
                s.append(hits[i].path.as_str());
                crate::strings::string_push(&mut s, '\t');
                s.append(hits[i].typename.as_str());
                crate::strings::string_push(&mut s, '\n');
                i = i + 1;
            }
            assert(hm.take(i as int) =~= hm);
            Ok(s)
        },
        Response::Export { json } => {
            let mut s = json.clone();
            crate::strings::string_push(&mut s, '\n');
            Ok(s)
        },
        Response::Failure { message } => Err(message.clone()),
    }
}

} // verus!
