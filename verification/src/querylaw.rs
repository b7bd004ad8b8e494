//! What the comparisons of AlefQL mean: a value test compares the entry's
//! scalar with the literal in scalar order, and each comparator token
//! stands for the relation its characters spell.

use vstd::prelude::*;
use crate::db::EntryKind;
use crate::eval::{pred_holds, scalar_holds, glob};

use crate::query::{CmpOp, PredModel, ExprModel, comparator_of};
use crate::value::{str_lookup, value_type_label};
use vstd::utf8::encode_utf8;
use crate::value::{ScalarModel, ValueModel, scalar_lt, lemma_scalar_lt_total};

verus! {

/// A value test `value op s` at an entry holding the scalar `a`, where `a`
/// and `s` are not both strings (string equality is a glob match).
pub open spec fn value_test(op: CmpOp, a: ScalarModel, s: ScalarModel) -> bool {
    pred_holds(PredModel::ValueCmp(op, s), Seq::empty(), EntryKind::Value, Some(ValueModel::Scalar(a)))
}

/// The ordered value tests compare in scalar order: `value < s` holds of
/// exactly the scalars that order strictly before `s`, `<=` of those before
/// or equal, `>` of those after, `>=` of those after or equal; on integers
/// that is the order of the numbers. Outside strings, `=` is equality and
/// `!=` its negation; between strings `=` is the glob match of the value
/// against the literal. A test never holds of a directory or of a
/// structure.
pub proof fn lemma_value_tests(a: ScalarModel, s: ScalarModel, segs: Seq<Seq<char>>, kind: EntryKind, v: Option<ValueModel>)
    ensures
        value_test(CmpOp::Lt, a, s) <==> scalar_lt(a, s),
        value_test(CmpOp::Le, a, s) <==> scalar_lt(a, s) || a == s,
        value_test(CmpOp::Gt, a, s) <==> scalar_lt(s, a),
        value_test(CmpOp::Ge, a, s) <==> scalar_lt(s, a) || a == s,
        (a, s) matches (ScalarModel::Int(x), ScalarModel::Int(y)) ==> (value_test(CmpOp::Lt, a, s) <==> x < y)
            && (value_test(CmpOp::Le, a, s) <==> x <= y) && (value_test(CmpOp::Gt, a, s) <==> x > y) && (value_test(
            CmpOp::Ge,
            a,
            s,
        ) <==> x >= y),
        !(a is Str && s is Str) ==> (value_test(CmpOp::Eq, a, s) <==> a == s) && (value_test(CmpOp::Ne, a, s)
            <==> a != s),
        (a, s) matches (ScalarModel::Str(x), ScalarModel::Str(g)) ==> (value_test(CmpOp::Eq, a, s) <==> glob(g, x))
            && (value_test(CmpOp::Ne, a, s) <==> !glob(g, x)),
        !(v matches Some(ValueModel::Scalar(_))) ==> forall|op: CmpOp|
            !#[trigger] pred_holds(PredModel::ValueCmp(op, s), segs, kind, v),
{
    lemma_scalar_lt_total(a, s);
}

/// What the characters of a comparator spell, read over scalars: `!=` is
/// "differs"; otherwise `<` admits what orders before, `>` what orders
/// after, and `=` what is equal.
pub open spec fn spelled_relation(c: Seq<char>, a: ScalarModel, b: ScalarModel) -> bool {
    if c.len() > 0 && c[0] == '!' {
        a != b
    } else {
        (c.contains('<') && scalar_lt(a, b)) || (c.contains('>') && scalar_lt(b, a)) || (c.contains('=') && a == b)
    }
}

/// The six comparator tokens of AlefQL.
pub open spec fn comparator_token(c: Seq<char>) -> bool {
    c == seq!['='] || c == seq!['!', '='] || c == seq!['<'] || c == seq!['<', '='] || c == seq!['>'] || c == seq![
        '>',
        '=',
    ]
}

/// Each comparator token is read as the operator whose meaning its
/// characters spell: `<=` admits equal values and those ordered before,
/// `!=` excludes equal ones, and so on; other text is no comparator.
pub proof fn lemma_comparator_meanings(c: Seq<char>, a: ScalarModel, b: ScalarModel)
    requires
        !(a is Str && b is Str),
    ensures
        comparator_token(c) <==> comparator_of(c) is Some,
        comparator_of(c) matches Some(op) ==> (scalar_holds(op, a, b) <==> spelled_relation(c, a, b)),
{
    lemma_scalar_lt_total(a, b);
    if c == seq!['='] {
        assert(c[0] == '=');
        assert(!c.contains('<') && !c.contains('>')) by {
            assert forall|i: int| 0 <= i < c.len() implies c[i] != '<' && c[i] != '>' by {
                assert(i == 0);
            }
        }
    } else if c == seq!['!', '='] {
    } else if c == seq!['<'] {
        assert(c[0] == '<');
        assert(!c.contains('=') && !c.contains('>')) by {
            assert forall|i: int| 0 <= i < c.len() implies c[i] != '=' && c[i] != '>' by {
                assert(i == 0);
            }
        }
    } else if c == seq!['<', '='] {
        assert(c[0] == '<' && c[1] == '=');
        assert(!c.contains('>')) by {
            assert forall|i: int| 0 <= i < c.len() implies c[i] != '>' by {
                assert(i == 0 || i == 1);
            }
        }
    } else if c == seq!['>'] {
        assert(c[0] == '>');
        assert(!c.contains('=') && !c.contains('<')) by {
            assert forall|i: int| 0 <= i < c.len() implies c[i] != '=' && c[i] != '<' by {
                assert(i == 0);
            }
        }
    } else if c == seq!['>', '='] {
        assert(c[0] == '>' && c[1] == '=');
        assert(!c.contains('<')) by {
            assert forall|i: int| 0 <= i < c.len() implies c[i] != '<' by {
                assert(i == 0 || i == 1);
            }
        }
    }
}


/// The number of items a value has for a size test: entries of a map,
/// members of a set, items of a list, UTF-8 bytes of a string, bytes of a
/// byte string; other scalars have none.
pub open spec fn item_count(v: ValueModel) -> Option<int> {
    match v {
        ValueModel::Hash(es) => Some(es.len() as int),
        ValueModel::SetOf(ms) => Some(ms.len() as int),
        ValueModel::List(vs) => Some(vs.len() as int),
        ValueModel::Tree(es) => Some(es.len() as int),
        ValueModel::Scalar(ScalarModel::Str(s)) => Some(encode_utf8(s).len() as int),
        ValueModel::Scalar(ScalarModel::Bytes(b)) => Some(b.len() as int),
        _ => None,
    }
}

/// A size test compares the number of items with the literal as integers:
/// `size < n` holds of a value with fewer than `n` items, `size <= n` of
/// one with at most `n`, and so on; it never holds of a directory or of a
/// value without items.
pub proof fn lemma_size_tests(v: ValueModel, n: i64, segs: Seq<Seq<char>>)
    ensures
        item_count(v) matches Some(c) ==> {
            let t = |op: CmpOp| pred_holds(PredModel::SizeCmp(op, n), segs, EntryKind::Value, Some(v));
            &&& t(CmpOp::Lt) <==> c < n
            &&& t(CmpOp::Le) <==> c <= n
            &&& t(CmpOp::Gt) <==> c > n
            &&& t(CmpOp::Ge) <==> c >= n
            &&& t(CmpOp::Eq) <==> c == n
            &&& t(CmpOp::Ne) <==> c != n
        },
        item_count(v) is None ==> forall|op: CmpOp|
            !#[trigger] pred_holds(PredModel::SizeCmp(op, n), segs, EntryKind::Value, Some(v)),
        forall|op: CmpOp, w: Option<ValueModel>|
            !#[trigger] pred_holds(PredModel::SizeCmp(op, n), segs, EntryKind::Directory, w),
{
}

/// An index test looks at one item of a list: `at[i] op s` holds exactly
/// where the list has an item at `i`, that item is a scalar, and the value
/// test `op s` holds of it; it never holds of anything but a list.
pub proof fn lemma_at_tests(i: u64, op: CmpOp, s: ScalarModel, segs: Seq<Seq<char>>, kind: EntryKind, v: Option<ValueModel>)
    ensures
        v matches Some(ValueModel::List(vs)) ==> (pred_holds(PredModel::AtIndex(i, op, s), segs, kind, v) <==> (i
            < vs.len() && vs[i as int] is Scalar && value_test(op, vs[i as int]->Scalar_0, s))),
        !(v matches Some(ValueModel::List(_))) ==> !pred_holds(PredModel::AtIndex(i, op, s), segs, kind, v),
{
}

/// A key test looks at the keys of an ordered map: `key op s` holds
/// exactly where some key passes the value test `op s`; it never holds of
/// anything but an ordered map.
pub proof fn lemma_key_tests(op: CmpOp, s: ScalarModel, segs: Seq<Seq<char>>, kind: EntryKind, v: Option<ValueModel>)
    ensures
        v matches Some(ValueModel::Tree(es)) ==> (pred_holds(PredModel::KeyCmp(op, s), segs, kind, v) <==> exists|
            i: int,
        | 0 <= i < es.len() && value_test(op, #[trigger] es[i].0, s)),
        !(v matches Some(ValueModel::Tree(_))) ==> !pred_holds(PredModel::KeyCmp(op, s), segs, kind, v),
{
}

proof fn lemma_str_lookup_some(es: Seq<(Seq<char>, ValueModel)>, k: Seq<char>)
    ensures
        (str_lookup(es, k) is Some) <==> exists|i: int| 0 <= i < es.len() && (#[trigger] es[i]).0 == k,
    decreases es.len(),
{
    if es.len() > 0 {
        lemma_str_lookup_some(es.drop_first(), k);
        if exists|i: int| 0 <= i < es.len() && (#[trigger] es[i]).0 == k {
            let i = choose|i: int| 0 <= i < es.len() && (#[trigger] es[i]).0 == k;
            if i > 0 {
                assert(es.drop_first()[i - 1] == es[i]);
            }
        }
        if exists|i: int| 0 <= i < es.drop_first().len() && (#[trigger] es.drop_first()[i]).0 == k {
            let i = choose|i: int| 0 <= i < es.drop_first().len() && (#[trigger] es.drop_first()[i]).0 == k;
            assert(es[i + 1] == es.drop_first()[i]);
        }
    }
}

/// `has k` holds of a hash exactly when some entry has the key `k`;
/// `contains x` holds of a list or a set exactly when some item is `x`,
/// and of a hash when some entry's value is `x`; neither holds of a
/// scalar.
pub proof fn lemma_membership_tests(k: Seq<char>, x: ValueModel, segs: Seq<Seq<char>>, kind: EntryKind, v: Option<ValueModel>)
    ensures
        v matches Some(ValueModel::Hash(es)) ==> (pred_holds(PredModel::HasKey(k), segs, kind, v) <==> exists|i: int|
            0 <= i < es.len() && (#[trigger] es[i]).0 == k),
        v matches Some(ValueModel::Hash(es)) ==> (pred_holds(PredModel::Contains(x), segs, kind, v) <==> exists|
            i: int,
        | 0 <= i < es.len() && (#[trigger] es[i]).1 == x),
        v matches Some(ValueModel::List(vs)) ==> (pred_holds(PredModel::Contains(x), segs, kind, v) <==> exists|
            i: int,
        | 0 <= i < vs.len() && #[trigger] vs[i] == x),
        v matches Some(ValueModel::SetOf(ms)) ==> (pred_holds(PredModel::Contains(x), segs, kind, v) <==> exists|
            i: int,
        | 0 <= i < ms.len() && #[trigger] ms[i] == x),
        (v matches Some(ValueModel::Scalar(_))) || v is None ==> !pred_holds(PredModel::HasKey(k), segs, kind, v)
            && !pred_holds(PredModel::Contains(x), segs, kind, v),
{
    if let Some(ValueModel::Hash(es)) = v {
        lemma_str_lookup_some(es, k);
    }
}

/// A type test of a value holds exactly when the value's type label is the
/// name given (`scalar` standing for every scalar type), and of a
/// directory exactly for the name `directory`.
pub proof fn lemma_type_tests(t: Seq<char>, segs: Seq<Seq<char>>, x: ValueModel, w: Option<ValueModel>)
    ensures
        pred_holds(PredModel::TypeName(t), segs, EntryKind::Value, Some(x)) <==> (if t == "scalar"@ {
            x is Scalar
        } else {
            value_type_label(x) == t
        }),
        t != "scalar"@ ==> (pred_holds(PredModel::TypeName(t), segs, EntryKind::Directory, w) <==> t
            == "directory"@),
{
}

/// Queries combine as logic does: `a AND b` holds where both hold, `a OR
/// b` where either does, `NOT a` where `a` does not.
pub proof fn lemma_connectives(a: ExprModel, b: ExprModel, segs: Seq<Seq<char>>, kind: EntryKind, v: Option<ValueModel>)
    ensures
        crate::eval::expr_holds(ExprModel::And(Box::new(a), Box::new(b)), segs, kind, v) <==> crate::eval::expr_holds(
            a,
            segs,
            kind,
            v,
        ) && crate::eval::expr_holds(b, segs, kind, v),
        crate::eval::expr_holds(ExprModel::Or(Box::new(a), Box::new(b)), segs, kind, v) <==> crate::eval::expr_holds(
            a,
            segs,
            kind,
            v,
        ) || crate::eval::expr_holds(b, segs, kind, v),
        crate::eval::expr_holds(ExprModel::Not(Box::new(a)), segs, kind, v) <==> !crate::eval::expr_holds(
            a,
            segs,
            kind,
            v,
        ),
{
}

} // verus!
