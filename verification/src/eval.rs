//! Evaluating AlefQL queries against a namespace.

use vstd::prelude::*;
use vstd::utf8::encode_utf8;
use crate::db::{
    Database, Kv, EntryKind, Entry, agrees, entry_model, spec_get, spec_list, listing_model,
    spec_indexed_paths, path_models, paths_sorted, join_error, walk_fuel,
};
use crate::errors::{NsError, NsErr, storage_failed, text, ns_message};
use crate::export::{FloatBits, bits_model, i64_text, parse_i64_str};
use crate::order::{str_lt, Order, compare_str};
use crate::path::{DbPath, path_string, valid_segment};
use crate::query::{CmpOp, Expr, ExprModel, Predicate, PredModel, QueryHit, ParseError, parse_query, spec_parse_query};
use crate::storage::{Storage, is_prefix_scan};
use crate::keys::type_index_prefix_spec;
use crate::typeindex::{index_faithful, path_like, typed_at, hit_paths, lemma_typed_query_exact};
use crate::strings::{chars_of, string_push};
use crate::value::{
    Scalar, ScalarModel, Value, ValueModel, scalar_lt, compare_scalar, str_lookup, scalar_lookup,
    value_type_label, lemma_model_parts, models, str_entry_models, scalar_entry_models,
};

verus! {

// ---------------------------------------------------------------------------
// Glob patterns

/// `*` matches any run of characters, `?` one character, anything else
/// itself.
pub open spec fn glob(p: Seq<char>, t: Seq<char>) -> bool
    decreases p.len(),
{
    if p.len() == 0 {
        t.len() == 0
    } else if p[0] == '*' {
        exists|i: int| 0 <= i <= t.len() && glob(p.drop_first(), #[trigger] t.skip(i))
    } else if p[0] == '?' {
        t.len() > 0 && glob(p.drop_first(), t.drop_first())
    } else {
        t.len() > 0 && t[0] == p[0] && glob(p.drop_first(), t.drop_first())
    }
}

fn glob_rec(p: &Vec<char>, pi: usize, t: &Vec<char>, ti: usize) -> (r: bool)
    requires
        pi <= p@.len(),
        ti <= t@.len(),
    ensures
        r == glob(p@.skip(pi as int), t@.skip(ti as int)),
    decreases p@.len() - pi,
{
    let ghost ps = p@.skip(pi as int);
    let ghost ts = t@.skip(ti as int);
    if pi == p.len() {
        return ti == t.len();
    }
    assert(ps[0] == p@[pi as int]);
    assert(ps.drop_first() =~= p@.skip(pi + 1));
    let c = p[pi];
    if c == '*' {
        let np = p.len();
        let mut i = ti;
        while i < t.len()
            invariant
                ti <= i <= t@.len(),
                np == p@.len(),
                pi < p@.len(),
                ps == p@.skip(pi as int),
                ts == t@.skip(ti as int),
                ps[0] == '*',
                ps.drop_first() == p@.skip(pi + 1),
                forall|k: int| ti <= k < i ==> !glob(p@.skip(pi + 1), #[trigger] t@.skip(k)),
            decreases t@.len() - i,
        {
            if glob_rec(p, pi + 1, t, i) {
                assert(ts.skip(i - ti) =~= t@.skip(i as int));
                return true;
            }
            i = i + 1;
        }
        if glob_rec(p, pi + 1, t, i) {
            assert(ts.skip(i - ti) =~= t@.skip(i as int));
            return true;
        }
        assert forall|k: int| 0 <= k <= ts.len() implies !glob(ps.drop_first(), #[trigger] ts.skip(k)) by {
            assert(ts.skip(k) =~= t@.skip(ti + k));
        }
        return false;
    }
    if ti == t.len() {
        return false;
    }
    assert(ts[0] == t@[ti as int]);
    assert(ts.drop_first() =~= t@.skip(ti + 1));
    if c == '?' {
        glob_rec(p, pi + 1, t, ti + 1)
    } else {
        t[ti] == c && glob_rec(p, pi + 1, t, ti + 1)
    }
}

/// Whether `text` matches the glob `pattern`.
pub fn glob_match(pattern: &str, text: &str) -> (r: bool)
    ensures
        r == glob(pattern@, text@),
{
    let p = chars_of(pattern);
    let t = chars_of(text);
    assert(p@.skip(0) =~= p@);
    assert(t@.skip(0) =~= t@);
    glob_rec(&p, 0, &t, 0)
}

/// Slash-separated pieces seen so far, and the piece being read.
pub open spec fn parts_state(s: Seq<char>) -> (Seq<Seq<char>>, Seq<char>)
    decreases s.len(),
{
    if s.len() == 0 {
        (Seq::empty(), Seq::empty())
    } else {
        let (done, cur) = parts_state(s.drop_last());
        if s.last() == '/' {
            (
                if cur.len() > 0 {
                    done.push(cur)
                } else {
                    done
                },
                Seq::empty(),
            )
        } else {
            (done, cur.push(s.last()))
        }
    }
}

/// The non-empty pieces of `s` between `/` separators.
pub open spec fn slash_parts(s: Seq<char>) -> Seq<Seq<char>> {
    let (done, cur) = parts_state(s);
    if cur.len() > 0 {
        done.push(cur)
    } else {
        done
    }
}

pub open spec fn strings_view(v: Seq<Vec<char>>) -> Seq<Seq<char>> {
    Seq::new(v.len(), |i: int| v[i]@)
}

fn split_parts(s: &str) -> (r: Vec<Vec<char>>)
    ensures
        strings_view(r@) == slash_parts(s@),
{
    let cs = chars_of(s);
    let mut done: Vec<Vec<char>> = Vec::new();
    let mut cur: Vec<char> = Vec::new();
    let mut i: usize = 0;
    assert(cs@.take(0) =~= Seq::<char>::empty());
    assert(strings_view(done@) =~= Seq::<Seq<char>>::empty());
    while i < cs.len()
        invariant
            i <= cs@.len(),
            cs@ == s@,
            parts_state(cs@.take(i as int)) == (strings_view(done@), cur@),
        decreases cs@.len() - i,
    {
        assert(cs@.take(i + 1).drop_last() =~= cs@.take(i as int));
        assert(cs@.take(i + 1).last() == cs@[i as int]);
        if cs[i] == '/' {
            if cur.len() > 0 {
                let ghost before = strings_view(done@);
                let ghost cm = cur@;
                done.push(cur);
                assert(strings_view(done@) =~= before.push(cm));
            }
            cur = Vec::new();
            assert(cur@ =~= Seq::<char>::empty());
        } else {
            cur.push(cs[i]);
        }
        i = i + 1;
    }
    assert(cs@.take(i as int) =~= cs@);
    if cur.len() > 0 {
        let ghost before = strings_view(done@);
        let ghost cm = cur@;
        done.push(cur);
        assert(strings_view(done@) =~= before.push(cm));
    }
    done
}

/// `**` matches any number of segments; other pieces match one segment by
/// glob.
pub open spec fn match_segments(pat: Seq<Seq<char>>, path: Seq<Seq<char>>) -> bool
    decreases pat.len(),
{
    if pat.len() == 0 {
        path.len() == 0
    } else if pat[0] == seq!['*', '*'] {
        pat.len() == 1 || exists|i: int| 0 <= i <= path.len() && match_segments(pat.drop_first(), #[trigger] path.skip(i))
    } else {
        path.len() > 0 && glob(pat[0], path[0]) && match_segments(pat.drop_first(), path.drop_first())
    }
}

fn is_double_star(p: &Vec<char>) -> (r: bool)
    ensures
        r == (p@ == seq!['*', '*']),
{
    let r = p.len() == 2 && p[0] == '*' && p[1] == '*';
    if r {
        assert(p@ =~= seq!['*', '*']);
    }
    r
}

fn match_segments_rec(pat: &Vec<Vec<char>>, pi: usize, path: &Vec<Vec<char>>, qi: usize) -> (r: bool)
    requires
        pi <= pat@.len(),
        qi <= path@.len(),
    ensures
        r == match_segments(strings_view(pat@).skip(pi as int), strings_view(path@).skip(qi as int)),
    decreases pat@.len() - pi,
{
    let ghost ps = strings_view(pat@).skip(pi as int);
    let ghost qs = strings_view(path@).skip(qi as int);
    if pi == pat.len() {
        return qi == path.len();
    }
    assert(ps[0] == pat@[pi as int]@);
    assert(ps.drop_first() =~= strings_view(pat@).skip(pi + 1));
    if is_double_star(&pat[pi]) {
        if pi + 1 == pat.len() {
            return true;
        }
        let np = pat.len();
        let mut i = qi;
        while i < path.len()
            invariant
                qi <= i <= path@.len(),
                np == pat@.len(),
                pi + 1 < pat@.len(),
                ps == strings_view(pat@).skip(pi as int),
                qs == strings_view(path@).skip(qi as int),
                ps[0] == seq!['*', '*'],
                ps.len() > 1,
                ps.drop_first() == strings_view(pat@).skip(pi + 1),
                forall|k: int|
                    qi <= k < i ==> !match_segments(strings_view(pat@).skip(pi + 1), #[trigger] strings_view(path@).skip(k)),
            decreases path@.len() - i,
        {
            if match_segments_rec(pat, pi + 1, path, i) {
                assert(qs.skip(i - qi) =~= strings_view(path@).skip(i as int));
                return true;
            }
            i = i + 1;
        }
        if match_segments_rec(pat, pi + 1, path, i) {
            assert(qs.skip(i - qi) =~= strings_view(path@).skip(i as int));
            return true;
        }
        assert forall|k: int| 0 <= k <= qs.len() implies !match_segments(ps.drop_first(), #[trigger] qs.skip(k)) by {
            assert(qs.skip(k) =~= strings_view(path@).skip(qi + k));
        }
        return false;
    }
    if qi == path.len() {
        return false;
    }
    assert(qs[0] == path@[qi as int]@);
    assert(qs.drop_first() =~= strings_view(path@).skip(qi + 1));
    let p0 = &pat[pi];
    let t0 = &path[qi];
    assert(p0@.skip(0) =~= p0@);
    assert(t0@.skip(0) =~= t0@);
    glob_rec(p0, 0, t0, 0) && match_segments_rec(pat, pi + 1, path, qi + 1)
}

/// Whether a path string matches a path glob.
pub open spec fn path_glob(pattern: Seq<char>, path: Seq<char>) -> bool {
    pattern == seq!['/', '*', '*'] || pattern == seq!['*', '*'] || match_segments(
        slash_parts(pattern),
        slash_parts(path),
    )
}

pub fn path_glob_match(pattern: &str, path: &str) -> (r: bool)
    ensures
        r == path_glob(pattern@, path@),
{
    proof {
        reveal_strlit("/**");
        reveal_strlit("**");
        assert("/**"@ =~= seq!['/', '*', '*']);
        assert("**"@ =~= seq!['*', '*']);
    }
    if compare_str(pattern, "/**") == Order::Equal || compare_str(pattern, "**") == Order::Equal {
        return true;
    }
    let parts = split_parts(pattern);
    let path_parts = split_parts(path);
    assert(strings_view(parts@).skip(0) =~= strings_view(parts@));
    assert(strings_view(path_parts@).skip(0) =~= strings_view(path_parts@));
    match_segments_rec(&parts, 0, &path_parts, 0)
}

// ---------------------------------------------------------------------------
// Comparisons

/// Structural equality of values: equal models.
#[verifier::loop_isolation(false)]
pub fn values_equal(a: &Value, b: &Value) -> (r: bool)
    ensures
        r == (a.model() == b.model()),
    decreases a,
{
    proof {
        lemma_model_parts(*a);
        lemma_model_parts(*b);
    }
    match (a, b) {
        (Value::Scalar(x), Value::Scalar(y)) => x.same_as(y),
        (Value::Hash(m1), Value::Hash(m2)) => {
            let e1 = &m1.entries;
            let e2 = &m2.entries;
            if e1.len() != e2.len() {
                assert(str_entry_models(e1@).len() != str_entry_models(e2@).len());
                return false;
            }
            let mut i: usize = 0;
            while i < e1.len()
                invariant
                    i <= e1@.len(),
                    e1@.len() == e2@.len(),
                    forall|k: int| 0 <= k < i ==> #[trigger] str_entry_models(e1@)[k] == str_entry_models(e2@)[k],
                decreases e1@.len() - i,
            {
                assert(decreases_to!(a => m1));
                assert(decreases_to!(m1 => m1.entries));
                assert(decreases_to!(e1 => e1@[i as int]));
                assert(decreases_to!(e1@[i as int] => e1@[i as int].1));
                let same_key = compare_str(e1[i].0.as_str(), e2[i].0.as_str()) == Order::Equal;
                if !same_key || !values_equal(&e1[i].1, &e2[i].1) {
                    assert(str_entry_models(e1@)[i as int] != str_entry_models(e2@)[i as int]);
                    return false;
                }
                i = i + 1;
            }
            assert(str_entry_models(e1@) =~= str_entry_models(e2@));
            true
        },
        (Value::SetOf(v1), Value::SetOf(v2)) | (Value::List(v1), Value::List(v2)) => {
            if v1.len() != v2.len() {
                assert(models(v1@).len() != models(v2@).len());
                return false;
            }
            let mut i: usize = 0;
            while i < v1.len()
                invariant
                    i <= v1@.len(),
                    v1@.len() == v2@.len(),
                    forall|k: int| 0 <= k < i ==> #[trigger] models(v1@)[k] == models(v2@)[k],
                decreases v1@.len() - i,
            {
                assert(decreases_to!(a => v1));
                assert(decreases_to!(v1 => v1@[i as int]));
                if !values_equal(&v1[i], &v2[i]) {
                    assert(models(v1@)[i as int] != models(v2@)[i as int]);
                    return false;
                }
                i = i + 1;
            }
            assert(models(v1@) =~= models(v2@));
            true
        },
        (Value::Tree(m1), Value::Tree(m2)) => {
            let e1 = &m1.entries;
            let e2 = &m2.entries;
            if e1.len() != e2.len() {
                assert(scalar_entry_models(e1@).len() != scalar_entry_models(e2@).len());
                return false;
            }
            let mut i: usize = 0;
            while i < e1.len()
                invariant
                    i <= e1@.len(),
                    e1@.len() == e2@.len(),
                    forall|k: int| 0 <= k < i ==> #[trigger] scalar_entry_models(e1@)[k] == scalar_entry_models(e2@)[k],
                decreases e1@.len() - i,
            {
                assert(decreases_to!(a => m1));
                assert(decreases_to!(m1 => m1.entries));
                assert(decreases_to!(e1 => e1@[i as int]));
                assert(decreases_to!(e1@[i as int] => e1@[i as int].1));
                if !e1[i].0.same_as(&e2[i].0) || !values_equal(&e1[i].1, &e2[i].1) {
                    assert(scalar_entry_models(e1@)[i as int] != scalar_entry_models(e2@)[i as int]);
                    return false;
                }
                i = i + 1;
            }
            assert(scalar_entry_models(e1@) =~= scalar_entry_models(e2@));
            true
        },
        _ => false,
    }
}

/// `a op b`: between two strings `=` and `!=` match `a` against the glob
/// `b`; otherwise scalar order.
pub open spec fn scalar_holds(op: CmpOp, a: ScalarModel, b: ScalarModel) -> bool {
    match (op, a, b) {
        (CmpOp::Eq, ScalarModel::Str(x), ScalarModel::Str(g)) => glob(g, x),
        (CmpOp::Ne, ScalarModel::Str(x), ScalarModel::Str(g)) => !glob(g, x),
        _ => scalar_order_holds(op, a, b),
    }
}

/// `a op b` in scalar order.
pub open spec fn scalar_order_holds(op: CmpOp, a: ScalarModel, b: ScalarModel) -> bool {
    match op {
        CmpOp::Eq => a == b,
        CmpOp::Ne => a != b,
        CmpOp::Lt => scalar_lt(a, b),
        CmpOp::Le => scalar_lt(a, b) || a == b,
        CmpOp::Gt => scalar_lt(b, a),
        CmpOp::Ge => scalar_lt(b, a) || a == b,
    }
}

pub open spec fn int_holds(op: CmpOp, a: int, b: int) -> bool {
    match op {
        CmpOp::Eq => a == b,
        CmpOp::Ne => a != b,
        CmpOp::Lt => a < b,
        CmpOp::Le => a <= b,
        CmpOp::Gt => a > b,
        CmpOp::Ge => a >= b,
    }
}

fn scalar_op(op: CmpOp, a: &Scalar, b: &Scalar) -> (r: bool)
    ensures
        r == scalar_holds(op, a.model(), b.model()),
{
    match (op, a, b) {
        (CmpOp::Eq, Scalar::String(x), Scalar::String(g)) => {
            return glob_match(g.as_str(), x.as_str());
        },
        (CmpOp::Ne, Scalar::String(x), Scalar::String(g)) => {
            return !glob_match(g.as_str(), x.as_str());
        },
        _ => {},
    }
    let o = compare_scalar(a, b);
    match op {
        CmpOp::Eq => o == Order::Equal,
        CmpOp::Ne => o != Order::Equal,
        CmpOp::Lt => o == Order::Less,
        CmpOp::Le => o != Order::Greater,
        CmpOp::Gt => o == Order::Greater,
        CmpOp::Ge => o != Order::Less,
    }
}

fn int_op(op: CmpOp, a: i64, b: i64) -> (r: bool)
    ensures
        r == int_holds(op, a as int, b as int),
{
    match op {
        CmpOp::Eq => a == b,
        CmpOp::Ne => a != b,
        CmpOp::Lt => a < b,
        CmpOp::Le => a <= b,
        CmpOp::Gt => a > b,
        CmpOp::Ge => a >= b,
    }
}

// ---------------------------------------------------------------------------
// Predicates

pub open spec fn type_matches_spec(t: Seq<char>, kind: EntryKind, value: Option<ValueModel>) -> bool {
    match (kind, value) {
        (EntryKind::Directory, _) => if t == "scalar"@ {
            value matches Some(ValueModel::Scalar(_))
        } else {
            t == "directory"@
        },
        (EntryKind::Value, Some(v)) => if t == "scalar"@ {
            v is Scalar
        } else {
            value_type_label(v) == t
        },
        (EntryKind::Value, None) => if t == "scalar"@ {
            false
        } else {
            t == "value"@
        },
    }
}

pub open spec fn last_name(segs: Seq<Seq<char>>) -> Seq<char> {
    if segs.len() > 0 {
        segs.last()
    } else {
        Seq::empty()
    }
}

pub open spec fn has_key_spec(k: Seq<char>, value: Option<ValueModel>) -> bool {
    match value {
        Some(ValueModel::Hash(es)) => str_lookup(es, k) is Some,
        Some(ValueModel::Tree(es)) => scalar_lookup(es, ScalarModel::Str(k)) is Some || (i64_text(k) matches Some(
            n,
        ) && scalar_lookup(es, ScalarModel::Int(n)) is Some),
        _ => false,
    }
}

/// Some item of `ms` is `needle`.
pub open spec fn seq_has(ms: Seq<ValueModel>, needle: ValueModel) -> bool {
    exists|i: int| 0 <= i < ms.len() && #[trigger] ms[i] == needle
}

/// Some value among string-keyed entries is `needle`.
pub open spec fn str_entries_have(es: Seq<(Seq<char>, ValueModel)>, needle: ValueModel) -> bool {
    exists|i: int| 0 <= i < es.len() && #[trigger] es[i].1 == needle
}

/// Some value among scalar-keyed entries is `needle`.
pub open spec fn scalar_entries_have(es: Seq<(ScalarModel, ValueModel)>, needle: ValueModel) -> bool {
    exists|i: int| 0 <= i < es.len() && #[trigger] es[i].1 == needle
}

pub open spec fn contains_spec(needle: ValueModel, value: Option<ValueModel>) -> bool {
    match value {
        Some(ValueModel::SetOf(ms)) => seq_has(ms, needle),
        Some(ValueModel::List(ms)) => seq_has(ms, needle),
        Some(ValueModel::Hash(es)) => str_entries_have(es, needle),
        Some(ValueModel::Tree(es)) => scalar_entries_have(es, needle),
        _ => false,
    }
}

pub open spec fn at_spec(idx: u64, op: CmpOp, s: ScalarModel, value: Option<ValueModel>) -> bool {
    match value {
        Some(ValueModel::List(vs)) => idx < vs.len() && (vs[idx as int] matches ValueModel::Scalar(sv)
            && scalar_holds(op, sv, s)),
        _ => false,
    }
}

/// Some key among scalar-keyed entries stands in relation `op` to `s`.
pub open spec fn some_key_holds(op: CmpOp, es: Seq<(ScalarModel, ValueModel)>, s: ScalarModel) -> bool {
    exists|i: int| 0 <= i < es.len() && scalar_holds(op, #[trigger] es[i].0, s)
}

pub open spec fn key_spec(op: CmpOp, s: ScalarModel, value: Option<ValueModel>) -> bool {
    match value {
        Some(ValueModel::Tree(es)) => some_key_holds(op, es, s),
        _ => false,
    }
}

pub open spec fn size_spec(op: CmpOp, n: i64, kind: EntryKind, value: Option<ValueModel>) -> bool {
    if kind is Directory {
        false
    } else {
        match value {
            Some(ValueModel::Hash(es)) => int_holds(op, es.len() as int, n as int),
            Some(ValueModel::SetOf(ms)) => int_holds(op, ms.len() as int, n as int),
            Some(ValueModel::List(vs)) => int_holds(op, vs.len() as int, n as int),
            Some(ValueModel::Tree(es)) => int_holds(op, es.len() as int, n as int),
            Some(ValueModel::Scalar(ScalarModel::Str(s))) => int_holds(op, encode_utf8(s).len() as int, n as int),
            Some(ValueModel::Scalar(ScalarModel::Bytes(b))) => int_holds(op, b.len() as int, n as int),
            _ => false,
        }
    }
}

/// Whether an entry at `segs` satisfies a predicate.
pub open spec fn pred_holds(p: PredModel, segs: Seq<Seq<char>>, kind: EntryKind, value: Option<ValueModel>) -> bool {
    match p {
        PredModel::PathGlob(g) => path_glob(g, path_string(segs)),
        PredModel::NameGlob(g) => glob(g, last_name(segs)),
        PredModel::TypeName(t) => type_matches_spec(t, kind, value),
        PredModel::ValueCmp(op, s) => value matches Some(ValueModel::Scalar(sv)) && scalar_holds(op, sv, s),
        PredModel::HasKey(k) => has_key_spec(k, value),
        PredModel::Contains(needle) => contains_spec(needle, value),
        PredModel::AtIndex(i, op, s) => at_spec(i, op, s, value),
        PredModel::KeyCmp(op, s) => key_spec(op, s, value),
        PredModel::SizeCmp(op, n) => size_spec(op, n, kind, value),
    }
}

/// Whether an entry satisfies an expression.
pub open spec fn expr_holds(e: ExprModel, segs: Seq<Seq<char>>, kind: EntryKind, value: Option<ValueModel>) -> bool
    decreases e,
{
    match e {
        ExprModel::And(a, b) => expr_holds(*a, segs, kind, value) && expr_holds(*b, segs, kind, value),
        ExprModel::Or(a, b) => expr_holds(*a, segs, kind, value) || expr_holds(*b, segs, kind, value),
        ExprModel::Not(a) => !expr_holds(*a, segs, kind, value),
        ExprModel::Pred(p) => pred_holds(p, segs, kind, value),
    }
}

pub open spec fn opt_model(v: Option<&Value>) -> Option<ValueModel> {
    match v {
        Some(x) => Some(x.model()),
        None => None,
    }
}

fn int_op128(op: CmpOp, a: i128, b: i128) -> (r: bool)
    ensures
        r == int_holds(op, a as int, b as int),
{
    match op {
        CmpOp::Eq => a == b,
        CmpOp::Ne => a != b,
        CmpOp::Lt => a < b,
        CmpOp::Le => a <= b,
        CmpOp::Gt => a > b,
        CmpOp::Ge => a >= b,
    }
}

fn type_matches(t: &String, kind: EntryKind, value: Option<&Value>) -> (r: bool)
    ensures
        r == type_matches_spec(t@, kind, opt_model(value)),
{
    let scalar = compare_str(t.as_str(), "scalar") == Order::Equal;
    match (kind, value) {
        (EntryKind::Directory, _) => if scalar {
            matches!(value, Some(Value::Scalar(_)))
        } else {
            compare_str(t.as_str(), "directory") == Order::Equal
        },
        (EntryKind::Value, Some(v)) => if scalar {
            matches!(v, Value::Scalar(_))
        } else {
            compare_str(v.typename(), t.as_str()) == Order::Equal
        },
        (EntryKind::Value, None) => if scalar {
            false
        } else {
            compare_str(t.as_str(), "value") == Order::Equal
        },
    }
}

#[verifier::loop_isolation(false)]
fn has_key(k: &String, value: Option<&Value>) -> (r: bool)
    ensures
        r == has_key_spec(k@, opt_model(value)),
{
    match value {
        Some(v) => {
            proof {
                lemma_model_parts(*v);
            }
            match v {
                Value::Hash(m) => m.contains_key(k.as_str()),
                Value::Tree(m) => {
                    if m.contains_key(&Scalar::String(k.clone())) {
                        return true;
                    }
                    match parse_i64_str(k.as_str()) {
                        Some(n) => m.contains_key(&Scalar::Int(n)),
                        None => false,
                    }
                },
                _ => false,
            }
        },
        None => false,
    }
}

fn find_in_values(ms: &Vec<Value>, needle: &Value) -> (r: bool)
    ensures
        r == seq_has(models(ms@), needle.model()),
{
    let mut i: usize = 0;
    while i < ms.len()
        invariant
            i <= ms@.len(),
            forall|k: int| 0 <= k < i ==> #[trigger] models(ms@)[k] != needle.model(),
        decreases ms@.len() - i,
    {
        if values_equal(&ms[i], needle) {
            assert(models(ms@)[i as int] == needle.model());
            return true;
        }
        i = i + 1;
    }
    false
}

fn find_in_str_entries(es: &Vec<(String, Value)>, needle: &Value) -> (r: bool)
    ensures
        r == str_entries_have(str_entry_models(es@), needle.model()),
{
    let mut i: usize = 0;
    while i < es.len()
        invariant
            i <= es@.len(),
            forall|k: int| 0 <= k < i ==> #[trigger] str_entry_models(es@)[k].1 != needle.model(),
        decreases es@.len() - i,
    {
        if values_equal(&es[i].1, needle) {
            assert(str_entry_models(es@)[i as int].1 == needle.model());
            return true;
        }
        i = i + 1;
    }
    false
}

fn find_in_scalar_entries(es: &Vec<(Scalar, Value)>, needle: &Value) -> (r: bool)
    ensures
        r == scalar_entries_have(scalar_entry_models(es@), needle.model()),
{
    let mut i: usize = 0;
    while i < es.len()
        invariant
            i <= es@.len(),
            forall|k: int| 0 <= k < i ==> #[trigger] scalar_entry_models(es@)[k].1 != needle.model(),
        decreases es@.len() - i,
    {
        if values_equal(&es[i].1, needle) {
            assert(scalar_entry_models(es@)[i as int].1 == needle.model());
            return true;
        }
        i = i + 1;
    }
    false
}

fn contains_value(needle: &Value, value: Option<&Value>) -> (r: bool)
    ensures
        r == contains_spec(needle.model(), opt_model(value)),
{
    match value {
        Some(v) => {
            proof {
                lemma_model_parts(*v);
            }
            match v {
                Value::SetOf(ms) => find_in_values(ms, needle),
                Value::List(ms) => find_in_values(ms, needle),
                Value::Hash(m) => find_in_str_entries(&m.entries, needle),
                Value::Tree(m) => find_in_scalar_entries(&m.entries, needle),
                _ => false,
            }
        },
        None => false,
    }
}

fn find_key(op: CmpOp, s: &Scalar, es: &Vec<(Scalar, Value)>) -> (r: bool)
    ensures
        r == some_key_holds(op, scalar_entry_models(es@), s.model()),
{
    let mut i: usize = 0;
    while i < es.len()
        invariant
            i <= es@.len(),
            forall|k: int| 0 <= k < i ==> !scalar_holds(op, #[trigger] scalar_entry_models(es@)[k].0, s.model()),
        decreases es@.len() - i,
    {
        if scalar_op(op, &es[i].0, s) {
            assert(scalar_holds(op, scalar_entry_models(es@)[i as int].0, s.model()));
            return true;
        }
        i = i + 1;
    }
    false
}

fn key_holds(op: CmpOp, s: &Scalar, value: Option<&Value>) -> (r: bool)
    ensures
        r == key_spec(op, s.model(), opt_model(value)),
{
    match value {
        Some(v) => {
            proof {
                lemma_model_parts(*v);
            }
            match v {
                Value::Tree(m) => find_key(op, s, &m.entries),
                _ => false,
            }
        },
        None => false,
    }
}

fn size_holds(op: CmpOp, n: i64, kind: EntryKind, value: Option<&Value>) -> (r: bool)
    ensures
        r == size_spec(op, n, kind, opt_model(value)),
{
    if let EntryKind::Directory = kind {
        return false;
    }
    match value {
        Some(v) => {
            proof {
                lemma_model_parts(*v);
            }
            let size: usize = match v {
                Value::Hash(m) => m.entries.len(),
                Value::SetOf(ms) => ms.len(),
                Value::List(ms) => ms.len(),
                Value::Tree(m) => m.entries.len(),
                Value::Scalar(Scalar::String(s)) => s.as_str().as_bytes().len(),
                Value::Scalar(Scalar::Bytes(b)) => b.len(),
                _ => {
                    return false;
                },
            };
            int_op128(op, size as i128, n as i128)
        },
        None => false,
    }
}

fn at_holds(idx: u64, op: CmpOp, s: &Scalar, value: Option<&Value>) -> (r: bool)
    ensures
        r == at_spec(idx, op, s.model(), opt_model(value)),
{
    match value {
        Some(v) => {
            proof {
                lemma_model_parts(*v);
            }
            match v {
                Value::List(vs) => {
                    if (idx as u128) < (vs.len() as u128) {
                        let i = idx as usize;
                        assert(models(vs@)[i as int] == vs@[i as int].model());
                        match &vs[i] {
                            Value::Scalar(sv) => scalar_op(op, sv, s),
                            _ => false,
                        }
                    } else {
                        false
                    }
                },
                _ => false,
            }
        },
        None => false,
    }
}

/// Whether the entry at `path` satisfies `p`.
pub fn eval_pred(p: &Predicate, path: &DbPath, kind: EntryKind, value: Option<&Value>) -> (r: bool)
    ensures
        r == pred_holds(p.model(), path@, kind, opt_model(value)),
{
    match p {
        Predicate::PathGlob(g) => path_glob_match(g.as_str(), path.as_str().as_str()),
        Predicate::NameGlob(g) => match path.last_segment() {
            Some(n) => glob_match(g.as_str(), n.as_str()),
            None => {
                let empty = String::new();
                glob_match(g.as_str(), empty.as_str())
            },
        },
        Predicate::TypeName(t) => type_matches(t, kind, value),
        Predicate::ValueCmp(op, s) => match value {
            Some(Value::Scalar(sv)) => scalar_op(*op, sv, s),
            _ => false,
        },
        Predicate::HasKey(k) => has_key(k, value),
        Predicate::Contains(needle) => contains_value(needle, value),
        Predicate::AtIndex(i, op, s) => at_holds(*i, *op, s, value),
        Predicate::KeyCmp(op, s) => key_holds(*op, s, value),
        Predicate::SizeCmp(op, n) => size_holds(*op, *n, kind, value),
    }
}

/// Whether the entry at `path` satisfies `e`.
pub fn eval_expr(e: &Expr, path: &DbPath, kind: EntryKind, value: Option<&Value>) -> (r: bool)
    ensures
        r == expr_holds(e.model(), path@, kind, opt_model(value)),
    decreases e,
{
    match e {
        Expr::And(a, b) => eval_expr(a, path, kind, value) && eval_expr(b, path, kind, value),
        Expr::Or(a, b) => eval_expr(a, path, kind, value) || eval_expr(b, path, kind, value),
        Expr::Not(a) => !eval_expr(a, path, kind, value),
        Expr::Pred(p) => eval_pred(p, path, kind, value),
    }
}

// ---------------------------------------------------------------------------
// Candidates and hits

/// An entry as the evaluator sees it: its path, kind and value.
pub type Candidate = (DbPath, EntryKind, Option<Value>);

/// Model of a candidate.
pub type CandModel = (Seq<Seq<char>>, EntryKind, Option<ValueModel>);

/// Model of a query hit: its path and type label.
pub type HitModel = (Seq<Seq<char>>, Seq<char>);

pub open spec fn opt_value_model(v: Option<Value>) -> Option<ValueModel> {
    match v {
        Some(x) => Some(x.model()),
        None => None,
    }
}

pub open spec fn cand_models(v: Seq<Candidate>) -> Seq<CandModel> {
    Seq::new(v.len(), |i: int| (v[i].0@, v[i].1, opt_value_model(v[i].2)))
}

pub open spec fn hit_models(v: Seq<QueryHit>) -> Seq<HitModel> {
    Seq::new(v.len(), |i: int| (v[i].path@, v[i].typename@))
}

/// The type that an AND-chain of type tests pins down, if any; `scalar`
/// names several types and pins none.
pub open spec fn required_type(e: ExprModel) -> Option<Seq<char>>
    decreases e,
{
    match e {
        ExprModel::Pred(PredModel::TypeName(t)) => if t != "scalar"@ {
            Some(t)
        } else {
            None
        },
        ExprModel::And(a, b) => match (required_type(*a), required_type(*b)) {
            (Some(t), None) => Some(t),
            (None, Some(t)) => Some(t),
            (Some(t1), Some(t2)) => if t1 == t2 {
                Some(t1)
            } else {
                None
            },
            (None, None) => None,
        },
        _ => None,
    }
}

/// Every entry of the subtree at `segs`, the node itself first, then its
/// children's subtrees in name order; `fuel` bounds the directory levels
/// entered.
pub open spec fn spec_entries(kv: Kv, segs: Seq<Seq<char>>, fuel: nat) -> Result<Seq<CandModel>, NsErr>
    decreases fuel, 0nat,
{
    match spec_get(kv, segs) {
        Err(e) => Err(e),
        Ok((kind, v)) => if kind is Directory {
            if fuel == 0 {
                Err(NsErr::Invalid("namespace too deep"@))
            } else {
                match spec_list(kv, segs) {
                    Err(e) => Err(e),
                    Ok(children) => match spec_entries_children(kv, segs, children, (fuel - 1) as nat) {
                        Err(e) => Err(e),
                        Ok(rest) => Ok(seq![(segs, kind, v)] + rest),
                    },
                }
            }
        } else {
            Ok(seq![(segs, kind, v)])
        },
    }
}

/// The entries under the listed children of `segs`, in listing order.
pub open spec fn spec_entries_children(
    kv: Kv,
    segs: Seq<Seq<char>>,
    children: Seq<(Seq<char>, EntryKind)>,
    fuel: nat,
) -> Result<Seq<CandModel>, NsErr>
    decreases fuel, children.len() + 1,
{
    if children.len() == 0 {
        Ok(Seq::empty())
    } else {
        match spec_entries_children(kv, segs, children.drop_last(), fuel) {
            Err(e) => Err(e),
            Ok(acc) => {
                let name = children.last().0;
                if !valid_segment(name) {
                    Err(NsErr::Path(join_error(name)))
                } else {
                    match spec_entries(kv, segs.push(name), fuel) {
                        Err(e) => Err(e),
                        Ok(es) => Ok(acc + es),
                    }
                }
            },
        }
    }
}

/// The entries at the given paths, in order, or the first lookup's error.
pub open spec fn spec_typed(kv: Kv, ps: Seq<Seq<Seq<char>>>) -> Result<Seq<CandModel>, NsErr>
    decreases ps.len(),
{
    if ps.len() == 0 {
        Ok(Seq::empty())
    } else {
        match spec_typed(kv, ps.drop_last()) {
            Err(e) => Err(e),
            Ok(acc) => match spec_get(kv, ps.last()) {
                Err(e) => Err(e),
                Ok((kind, v)) => Ok(acc.push((ps.last(), kind, v))),
            },
        }
    }
}

/// The type label a hit reports.
pub open spec fn hit_type(kind: EntryKind, v: Option<ValueModel>) -> Seq<char> {
    match (kind, v) {
        (EntryKind::Directory, _) => "directory"@,
        (EntryKind::Value, Some(x)) => value_type_label(x),
        (EntryKind::Value, None) => "value"@,
    }
}

/// The candidates that satisfy `e`, in order, as hits.
pub open spec fn spec_hits(e: ExprModel, cs: Seq<CandModel>) -> Seq<HitModel>
    decreases cs.len(),
{
    if cs.len() == 0 {
        Seq::empty()
    } else {
        let rest = spec_hits(e, cs.drop_last());
        let c = cs.last();
        if expr_holds(e, c.0, c.1, c.2) {
            rest.push((c.0, hit_type(c.1, c.2)))
        } else {
            rest
        }
    }
}

/// `qs` holds the paths of `ps`, each as often, sorted.
pub open spec fn sorted_arrangement(qs: Seq<Seq<Seq<char>>>, ps: Seq<Seq<Seq<char>>>) -> bool {
    qs.to_multiset() == ps.to_multiset() && paths_sorted(qs)
}

/// The candidates a query over `kv` looks at: the indexed entries of the
/// type it pins down (taken in the order `qs`), else every entry.
pub open spec fn spec_candidates(kv: Kv, e: ExprModel, qs: Seq<Seq<Seq<char>>>) -> Result<Seq<CandModel>, NsErr> {
    match required_type(e) {
        Some(t) => match spec_indexed_paths(kv, t) {
            Err(x) => Err(x),
            Ok(_) => spec_typed(kv, qs),
        },
        None => spec_entries(kv, Seq::empty(), walk_fuel()),
    }
}

/// `qs` is the order the indexed paths are visited in, where an index is
/// used at all.
pub open spec fn visit_order(kv: Kv, e: ExprModel, qs: Seq<Seq<Seq<char>>>) -> bool {
    required_type(e) matches Some(t) ==> (spec_indexed_paths(kv, t) matches Ok(ps) ==> sorted_arrangement(qs, ps))
}

/// A message that reports a failure of the storage layer.
pub open spec fn storage_text(m: Seq<char>) -> bool {
    m.len() >= 9 && m.take(9) == "storage: "@
}

/// Why a query failed.
#[derive(Debug)]
pub enum EvalError {
    Parse(ParseError),
    Ns(String),
}

impl EvalError {
    /// The text this error displays as.
    pub fn message(&self) -> (s: String)
        ensures
            s@ == match self {
                EvalError::Parse(e) => "parse error: "@ + e.message@,
                EvalError::Ns(m) => m@,
            },
    {
        match self {
            EvalError::Parse(e) => e.message_text(),
            EvalError::Ns(m) => m.clone(),
        }
    }
}

/// The outcome of a query that parsed to `e`, over the candidates `c`.
pub open spec fn outcome_agrees(r: Result<Vec<QueryHit>, EvalError>, e: ExprModel, c: Result<Seq<CandModel>, NsErr>) -> bool {
    match c {
        Ok(cs) => r matches Ok(v) && hit_models(v@) == spec_hits(e, cs),
        Err(x) => r matches Err(EvalError::Ns(m)) && m@ == ns_message(x),
    }
}

fn required_concrete_type(e: &Expr) -> (r: Option<&String>)
    ensures
        match r {
            Some(t) => required_type(e.model()) == Some(t@),
            None => required_type(e.model()) is None,
        },
    decreases e,
{
    match e {
        Expr::Pred(Predicate::TypeName(t)) => {
            if compare_str(t.as_str(), "scalar") == Order::Equal {
                None
            } else {
                Some(t)
            }
        },
        Expr::And(a, b) => {
            let ra = required_concrete_type(a);
            let rb = required_concrete_type(b);
            match (ra, rb) {
                (Some(t), None) => Some(t),
                (None, Some(t)) => Some(t),
                (Some(t1), Some(t2)) => {
                    if compare_str(t1.as_str(), t2.as_str()) == Order::Equal {
                        Some(t1)
                    } else {
                        None
                    }
                },
                (None, None) => None,
            }
        },
        _ => None,
    }
}

proof fn lemma_entries_children_err(kv: Kv, segs: Seq<Seq<char>>, children: Seq<(Seq<char>, EntryKind)>, fuel: nat, j: int)
    requires
        0 <= j <= children.len(),
        spec_entries_children(kv, segs, children.take(j), fuel) is Err,
    ensures
        spec_entries_children(kv, segs, children, fuel) == spec_entries_children(kv, segs, children.take(j), fuel),
    decreases children.len(),
{
    if j == children.len() {
        assert(children.take(j) =~= children);
    } else {
        assert(children.drop_last().take(j) =~= children.take(j));
        lemma_entries_children_err(kv, segs, children.drop_last(), fuel, j);
    }
}

/// Append the entries of the subtree at `path` to `out`.
fn entries_rec<S: Storage>(db: &Database<S>, path: &DbPath, fuel: usize, out: &mut Vec<Candidate>) -> (r: Result<(), NsError>)
    ensures
        db.reads_ok() ==> !storage_failed(r),
        storage_failed(r) || match spec_entries(db.kv(), path@, fuel as nat) {
            Ok(cs) => r is Ok && cand_models(final(out)@) == cand_models(old(out)@) + cs,
            Err(e) => r matches Err(x) && x.model() == e,
        },
    decreases fuel, 0nat,
{
    let entry = db.get(path)?;
    let ghost before = cand_models(out@);
    let ghost me: CandModel = (path@, entry.kind, opt_value_model(entry.value));
    let kind = entry.kind;
    out.push((path.clone_path(), kind, entry.value));
    assert(cand_models(out@) =~= before + seq![me]);
    match kind {
        EntryKind::Directory => {
            if fuel == 0 {
                return Err(NsError::Invalid(text("namespace too deep")));
            }
            let children = db.list(path)?;
            let ghost mid = cand_models(out@);
            let r = entries_children(db, path, &children, fuel - 1, out);
            proof {
                if !storage_failed(r) {
                    if let Ok(rest) = spec_entries_children(db.kv(), path@, listing_model(children@), (fuel - 1) as nat) {
                        assert(cand_models(out@) == before + (seq![me] + rest));
                    }
                }
            }
            r
        },
        EntryKind::Value => Ok(()),
    }
}

fn entries_children<S: Storage>(
    db: &Database<S>,
    path: &DbPath,
    children: &Vec<(String, EntryKind)>,
    fuel: usize,
    out: &mut Vec<Candidate>,
) -> (r: Result<(), NsError>)
    ensures
        db.reads_ok() ==> !storage_failed(r),
        storage_failed(r) || match spec_entries_children(db.kv(), path@, listing_model(children@), fuel as nat) {
            Ok(cs) => r is Ok && cand_models(final(out)@) == cand_models(old(out)@) + cs,
            Err(e) => r matches Err(x) && x.model() == e,
        },
    decreases fuel, children@.len() + 1,
{
    let ghost kv = db.kv();
    let ghost cm = listing_model(children@);
    let ghost start = cand_models(out@);
    let mut i: usize = 0;
    assert(cm.take(0) =~= Seq::<(Seq<char>, EntryKind)>::empty());
    assert(start =~= start + Seq::<CandModel>::empty());
    while i < children.len()
        invariant
            i <= children@.len(),
            kv == db.kv(),
            cm == listing_model(children@),
            spec_entries_children(kv, path@, cm.take(i as int), fuel as nat) matches Ok(acc) && cand_models(out@)
                == start + acc,
        decreases children@.len() - i,
    {
        assert(cm.take(i + 1).drop_last() =~= cm.take(i as int));
        assert(cm.take(i + 1).last() == cm[i as int]);
        let ghost acc = spec_entries_children(kv, path@, cm.take(i as int), fuel as nat)->Ok_0;
        let child = match path.join(children[i].0.as_str()) {
            Ok(c) => c,
            Err(e) => {
                proof {
                    lemma_entries_children_err(kv, path@, cm, fuel as nat, i + 1);
                }
                return Err(NsError::from_path(e));
            },
        };
        match entries_rec(db, &child, fuel, out) {
            Ok(()) => {},
            Err(e) => {
                proof {
                    if !storage_failed(Err::<(), NsError>(e)) {
                        lemma_entries_children_err(kv, path@, cm, fuel as nat, i + 1);
                    }
                }
                return Err(e);
            },
        }
        assert(cand_models(out@) == start + (acc + spec_entries(kv, path@.push(cm[i as int].0), fuel as nat)->Ok_0));
        i = i + 1;
    }
    assert(cm.take(i as int) =~= cm);
    Ok(())
}

proof fn lemma_typed_err(kv: Kv, ps: Seq<Seq<Seq<char>>>, j: int)
    requires
        0 <= j <= ps.len(),
        spec_typed(kv, ps.take(j)) is Err,
    ensures
        spec_typed(kv, ps) == spec_typed(kv, ps.take(j)),
    decreases ps.len(),
{
    if j == ps.len() {
        assert(ps.take(j) =~= ps);
    } else {
        assert(ps.drop_last().take(j) =~= ps.take(j));
        lemma_typed_err(kv, ps.drop_last(), j);
    }
}

/// The entries at `paths`, in order.
fn typed_candidates<S: Storage>(db: &Database<S>, paths: &Vec<DbPath>) -> (r: Result<Vec<Candidate>, NsError>)
    ensures
        db.reads_ok() ==> !storage_failed(r),
        storage_failed(r) || match spec_typed(db.kv(), path_models(paths@)) {
            Ok(cs) => r matches Ok(v) && cand_models(v@) == cs,
            Err(e) => r matches Err(x) && x.model() == e,
        },
{
    let ghost kv = db.kv();
    let ghost pm = path_models(paths@);
    let mut out: Vec<Candidate> = Vec::new();
    let mut i: usize = 0;
    assert(pm.take(0) =~= Seq::<Seq<Seq<char>>>::empty());
    assert(cand_models(out@) =~= Seq::<CandModel>::empty());
    while i < paths.len()
        invariant
            i <= paths@.len(),
            kv == db.kv(),
            pm == path_models(paths@),
            spec_typed(kv, pm.take(i as int)) matches Ok(acc) && cand_models(out@) == acc,
        decreases paths@.len() - i,
    {
        assert(pm.take(i + 1).drop_last() =~= pm.take(i as int));
        assert(pm.take(i + 1).last() == pm[i as int]);
        assert(pm[i as int] == paths@[i as int]@);
        let ghost acc = spec_typed(kv, pm.take(i as int))->Ok_0;
        let entry = match db.get(&paths[i]) {
            Ok(en) => en,
            Err(e) => {
                proof {
                    if !storage_failed(Err::<(), NsError>(e)) {
                        lemma_typed_err(kv, pm, i + 1);
                    }
                }
                return Err(e);
            },
        };
        let ghost c: CandModel = (paths@[i as int]@, entry.kind, opt_value_model(entry.value));
        let ghost before = out@;
        out.push((paths[i].clone_path(), entry.kind, entry.value));
        assert(cand_models(out@) =~= cand_models(before).push(c));
        i = i + 1;
    }
    assert(pm.take(i as int) =~= pm);
    Ok(out)
}

/// The candidates that satisfy `e`, in order, as hits.
fn collect_hits(e: &Expr, cands: Vec<Candidate>) -> (r: Vec<QueryHit>)
    ensures
        hit_models(r@) == spec_hits(e.model(), cand_models(cands@)),
{
    let ghost cm = cand_models(cands@);
    let mut hits: Vec<QueryHit> = Vec::new();
    let mut i: usize = 0;
    assert(cm.take(0) =~= Seq::<CandModel>::empty());
    assert(hit_models(hits@) =~= Seq::<HitModel>::empty());
    while i < cands.len()
        invariant
            i <= cands@.len(),
            cm == cand_models(cands@),
            hit_models(hits@) == spec_hits(e.model(), cm.take(i as int)),
        decreases cands@.len() - i,
    {
        assert(cm.take(i + 1).drop_last() =~= cm.take(i as int));
        assert(cm.take(i + 1).last() == cm[i as int]);
        let c = &cands[i];
        let ok = match &c.2 {
            Some(v) => eval_expr(e, &c.0, c.1, Some(v)),
            None => eval_expr(e, &c.0, c.1, None),
        };
        if ok {
            let typename = match (c.1, &c.2) {
                (EntryKind::Directory, _) => text("directory"),
                (EntryKind::Value, Some(v)) => text(v.typename()),
                (EntryKind::Value, None) => text("value"),
            };
            let ghost before = hits@;
            let ghost h: HitModel = (c.0@, typename@);
            hits.push(QueryHit { path: c.0.clone_path(), typename });
            assert(hit_models(hits@) =~= hit_models(before).push(h));
        }
        i = i + 1;
    }
    assert(cm.take(i as int) =~= cm);
    hits
}

/// Every entry of the namespace, depth first from the root, directories
/// included.
fn all_entries<S: Storage>(db: &Database<S>) -> (r: Result<Vec<Candidate>, NsError>)
    ensures
        db.reads_ok() ==> !storage_failed(r),
        storage_failed(r) || match spec_entries(db.kv(), Seq::empty(), walk_fuel()) {
            Ok(cs) => r matches Ok(v) && cand_models(v@) == cs,
            Err(e) => r matches Err(x) && x.model() == e,
        },
{
    let mut out: Vec<Candidate> = Vec::new();
    let root = DbPath::root();
    assert(cand_models(out@) =~= Seq::<CandModel>::empty());
    entries_rec(db, &root, usize::MAX, &mut out)?;
    Ok(out)
}

/// The candidates a query looks at, with the order in which indexed paths
/// were visited.
fn candidates_for<S: Storage>(db: &Database<S>, e: &Expr) -> (r: (Result<Vec<Candidate>, NsError>, Ghost<Seq<Seq<Seq<char>>>>))
    ensures
        db.reads_ok() ==> !storage_failed(r.0),
        storage_failed(r.0) || (visit_order(db.kv(), e.model(), r.1@) && match spec_candidates(db.kv(), e.model(), r.1@) {
            Ok(cs) => r.0 matches Ok(v) && cand_models(v@) == cs,
            Err(x) => r.0 matches Err(y) && y.model() == x,
        }),
        db.reads_ok() ==> (required_type(e.model()) matches Some(t) ==> exists|rows: Seq<(Seq<u8>, Seq<u8>)>|
            is_prefix_scan(db.kv(), type_index_prefix_spec(t), rows)),
{
    match required_concrete_type(e) {
        Some(t) => {
            let paths = match db.paths_with_type(t.as_str()) {
                Ok(ps) => ps,
                Err(x) => {
                    return (Err(x), Ghost(Seq::empty()));
                },
            };
            let ghost qs = path_models(paths@);
            (typed_candidates(db, &paths), Ghost(qs))
        },
        None => (all_entries(db), Ghost(Seq::empty())),
    }
}

/// Evaluate a parsed query against `db`.
fn run_expr<S: Storage>(db: &Database<S>, expr: &Expr) -> (r: Result<Vec<QueryHit>, EvalError>)
    ensures
        db.reads_ok() ==> exists|qs: Seq<Seq<Seq<char>>>|
            visit_order(db.kv(), expr.model(), qs) && outcome_agrees(r, expr.model(), #[trigger] spec_candidates(db.kv(), expr.model(), qs)),
        (r matches Err(EvalError::Ns(m)) && storage_text(m@)) || exists|qs: Seq<Seq<Seq<char>>>|
            visit_order(db.kv(), expr.model(), qs) && outcome_agrees(r, expr.model(), #[trigger] spec_candidates(db.kv(), expr.model(), qs)),
        db.reads_ok() ==> (required_type(expr.model()) matches Some(t) ==> exists|rows: Seq<(Seq<u8>, Seq<u8>)>|
            is_prefix_scan(db.kv(), type_index_prefix_spec(t), rows)),
{
    let (cands, Ghost(qs)) = candidates_for(db, expr);
    let cands = match cands {
        Ok(c) => c,
        Err(x) => {
            let m = x.message();
            proof {
                if storage_failed(Err::<(), NsError>(x)) {
                    reveal_strlit("storage: ");
                    assert(m@.take(9) =~= "storage: "@);
                } else {
                    assert(visit_order(db.kv(), expr.model(), qs) && outcome_agrees(Err::<Vec<QueryHit>, EvalError>(EvalError::Ns(m)), expr.model(), spec_candidates(db.kv(), expr.model(), qs)));
                }
            }
            return Err(EvalError::Ns(m));
        },
    };
    let hits = collect_hits(expr, cands);
    assert(visit_order(db.kv(), expr.model(), qs) && outcome_agrees(Ok::<Vec<QueryHit>, EvalError>(hits), expr.model(), spec_candidates(db.kv(), expr.model(), qs)));
    Ok(hits)
}

/// Run an AlefQL query against `db`: the entries that satisfy it, as
/// hits with their type labels. Float literals in the query take their
/// bits from `floats`.
pub fn execute<S: Storage>(db: &Database<S>, query: &str, floats: &FloatBits) -> (r: Result<Vec<QueryHit>, EvalError>)
    ensures
        match spec_parse_query(query@, bits_model(floats@)) {
            Err(m) => r matches Err(EvalError::Parse(pe)) && pe.message@ == m,
            Ok(e) => (r matches Err(EvalError::Ns(m)) && storage_text(m@)) || exists|qs: Seq<Seq<Seq<char>>>|
                visit_order(db.kv(), e, qs) && outcome_agrees(r, e, #[trigger] spec_candidates(db.kv(), e, qs)),
        },
        db.reads_ok() ==> match spec_parse_query(query@, bits_model(floats@)) {
            Err(m) => r matches Err(EvalError::Parse(pe)) && pe.message@ == m,
            Ok(e) => exists|qs: Seq<Seq<Seq<char>>>|
                visit_order(db.kv(), e, qs) && outcome_agrees(r, e, #[trigger] spec_candidates(db.kv(), e, qs)),
        },
        db.reads_ok() && index_faithful(db.kv()) ==> (spec_parse_query(query@, bits_model(floats@)) matches Ok(e) ==> (
        required_type(e) is Some && !required_type(e)->0.contains('/') ==> (r matches Ok(v) && forall|p: Seq<Seq<char>>|
            #![trigger hit_paths(hit_models(v@)).contains(p)]
            hit_paths(hit_models(v@)).contains(p) <==> path_like(p) && typed_at(db.kv(), p, required_type(e)->0) && expr_holds(
                e,
                p,
                spec_get(db.kv(), p)->Ok_0.0,
                spec_get(db.kv(), p)->Ok_0.1,
            )))),
{
    match parse_query(query, floats) {
        Ok(x) => {
            let r = run_expr(db, &x);
            proof {
                let kv = db.kv();
                let e = x.model();
                if db.reads_ok() && index_faithful(kv) && required_type(e) is Some && !required_type(e)->0.contains(
                    '/',
                ) {
                    let qs = choose|qs: Seq<Seq<Seq<char>>>|
                        visit_order(kv, e, qs) && outcome_agrees(r, e, #[trigger] spec_candidates(kv, e, qs));
                    lemma_typed_query_exact(kv, e, qs, Seq::empty());
                    let v = r->Ok_0;
                    assert forall|p: Seq<Seq<char>>| #![trigger hit_paths(hit_models(v@)).contains(p)] hit_paths(
                        hit_models(v@),
                    ).contains(p) <==> path_like(p) && typed_at(kv, p, required_type(e)->0) && expr_holds(
                        e,
                        p,
                        spec_get(kv, p)->Ok_0.0,
                        spec_get(kv, p)->Ok_0.1,
                    ) by {
                        lemma_typed_query_exact(kv, e, qs, p);
                    }
                }
            }
            r
        },
        Err(pe) => Err(EvalError::Parse(pe)),
    }
}

} // verus!
