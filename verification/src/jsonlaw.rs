//! Reading a written document gives it back: the parser inverts the writer
//! on every document made of null, booleans, integers, strings, arrays and
//! objects.

use vstd::prelude::*;
use crate::fmt::{decimal, decimal_i, digit_char};
use crate::json::{
    JsonModel, is_json_ws, is_digit, skip_ws, digits_end, digits_value, int_of, p_string_body,
    p_string, holds_at, p_value, p_items, p_members, spec_parse_json, escape_json,
    quoted, join_texts, part_texts, json_text, unescape,
};

verus! {

/// A document whose text reads back as the same document: no float and no
/// byte string anywhere in it (those are written as text that reads back as
/// a string, a number literal or an object).
pub open spec fn plain_json(j: JsonModel) -> bool
    decreases j,
{
    match j {
        JsonModel::Null => true,
        JsonModel::Bool(_) => true,
        JsonModel::Number(_) => true,
        JsonModel::Str(_) => true,
        JsonModel::Array(items) => forall|i: int|
            0 <= i < items.len() ==> plain_json(#[trigger] items[i]),
        JsonModel::Object(ms) => forall|i: int|
            0 <= i < ms.len() ==> plain_json((#[trigger] ms[i]).1),
        _ => false,
    }
}

/// A document whose text can be read back: one without a float literal
/// anywhere (a literal is kept as the text it was read from, which may be
/// any text).
pub open spec fn writable_json(j: JsonModel) -> bool
    decreases j,
{
    match j {
        JsonModel::FloatText(_) => false,
        JsonModel::Array(items) => forall|i: int|
            0 <= i < items.len() ==> writable_json(#[trigger] items[i]),
        JsonModel::Object(ms) => forall|i: int|
            0 <= i < ms.len() ==> writable_json((#[trigger] ms[i]).1),
        _ => true,
    }
}

/// What the text of a document reads back as: a float kept as its bits
/// reads back as the string it is written as, a byte string as the
/// `__bytes` object it is written as; everything else as itself.
pub open spec fn reread(j: JsonModel) -> JsonModel
    decreases j,
{
    match j {
        JsonModel::Float(bits) => JsonModel::Str(seq!['f', 'l', 'o', 'a', 't', ':'] + decimal(bits as nat)),
        JsonModel::BytesHex(h) => JsonModel::Object(
            seq![(seq!['_', '_', 'b', 'y', 't', 'e', 's'], JsonModel::Str(h))],
        ),
        JsonModel::Array(items) => JsonModel::Array(
            Seq::new(
                items.len(),
                |i: int|
                    if 0 <= i < items.len() {
                        reread(items[i])
                    } else {
                        JsonModel::Null
                    },
            ),
        ),
        JsonModel::Object(ms) => JsonModel::Object(
            Seq::new(
                ms.len(),
                |i: int|
                    if 0 <= i < ms.len() {
                        (ms[i].0, reread(ms[i].1))
                    } else {
                        (Seq::empty(), JsonModel::Null)
                    },
            ),
        ),
        _ => j,
    }
}

/// What may stand right after a value's text: the end, a comma or a closing
/// bracket.
pub open spec fn ends_value(s: Seq<char>, k: int) -> bool {
    k == s.len() || (0 <= k < s.len() && (s[k] == ',' || s[k] == ']' || s[k] == '}'))
}

proof fn lemma_digit_char(d: int)
    requires
        0 <= d < 10,
    ensures
        is_digit(digit_char(d)),
        digit_char(d) as int - '0' as int == d,
{
}

pub(crate) proof fn lemma_decimal(n: nat)
    ensures
        decimal(n).len() >= 1,
        forall|k: int| 0 <= k < decimal(n).len() ==> is_digit(#[trigger] decimal(n)[k]),
        digits_value(decimal(n)) == n,
    decreases n,
{
    if n < 10 {
        lemma_digit_char(n as int);
        let d = decimal(n);
        assert(d.drop_last() =~= Seq::<char>::empty());
        assert(digits_value(d.drop_last()) == 0);
    } else {
        lemma_decimal(n / 10);
        lemma_digit_char((n % 10) as int);
        let d = decimal(n);
        assert(d.drop_last() =~= decimal(n / 10));
        assert(d.last() == digit_char((n % 10) as int));
    }
}

proof fn lemma_int_of_decimal(n: i64)
    ensures
        int_of(decimal_i(n as int)) == Some(n),
        decimal_i(n as int).len() >= 1,
        decimal_i(n as int)[0] == '-' || is_digit(decimal_i(n as int)[0]),
        forall|k: int| 1 <= k < decimal_i(n as int).len() ==> is_digit(#[trigger] decimal_i(n as int)[k]),
{
    if n < 0 {
        let m = (-(n as int)) as nat;
        lemma_decimal(m);
        let t = decimal_i(n as int);
        assert(t.drop_first() =~= decimal(m));
        assert forall|k: int| 1 <= k < t.len() implies is_digit(#[trigger] t[k]) by {
            assert(t[k] == decimal(m)[k - 1]);
        }
    } else {
        lemma_decimal(n as nat);
        let t = decimal_i(n as int);
        assert(is_digit(t[0]));
    }
}

proof fn lemma_escape_concat(a: Seq<char>, b: Seq<char>)
    ensures
        escape_json(a + b) == escape_json(a) + escape_json(b),
    decreases b.len(),
{
    if b.len() == 0 {
        assert(a + b =~= a);
        assert(escape_json(a) + escape_json(b) =~= escape_json(a));
    } else {
        lemma_escape_concat(a, b.drop_last());
        assert((a + b).drop_last() =~= a + b.drop_last());
        assert((a + b).last() == b.last());
        assert(escape_json(a + b) =~= escape_json(a) + escape_json(b));
    }
}

proof fn lemma_escape_plain(x: Seq<char>)
    requires
        forall|k: int| 0 <= k < x.len() ==> #[trigger] x[k] != '\\' && x[k] != '"',
    ensures
        escape_json(x) == x,
    decreases x.len(),
{
    if x.len() > 0 {
        lemma_escape_plain(x.drop_last());
        assert(escape_json(x) =~= x);
    }
}

/// The escaped text of one character.
spec fn escaped_char(c: char) -> Seq<char> {
    if c == '\\' {
        seq!['\\', '\\']
    } else if c == '"' {
        seq!['\\', '"']
    } else {
        seq![c]
    }
}

proof fn lemma_escape_front(x: Seq<char>)
    requires
        x.len() >= 1,
    ensures
        escape_json(x) == escaped_char(x[0]) + escape_json(x.drop_first()),
{
    assert(x =~= seq![x[0]] + x.drop_first());
    lemma_escape_concat(seq![x[0]], x.drop_first());
    let one = seq![x[0]];
    assert(one.drop_last() =~= Seq::<char>::empty());
    assert(escape_json(one.drop_last()) =~= Seq::<char>::empty());
    assert(one.last() == x[0]);
    assert(escape_json(one) =~= escaped_char(x[0]));
}

proof fn lemma_holds_split(s: Seq<char>, q: int, a: Seq<char>, b: Seq<char>)
    requires
        holds_at(s, q, a + b),
    ensures
        holds_at(s, q, a),
        holds_at(s, q + a.len(), b),
{
    assert(s.subrange(q, q + a.len()) =~= (a + b).subrange(0, a.len() as int));
    assert((a + b).subrange(0, a.len() as int) =~= a);
    assert(s.subrange(q + a.len(), q + a.len() + b.len()) =~= (a + b).subrange(
        a.len() as int,
        (a + b).len() as int,
    ));
    assert((a + b).subrange(a.len() as int, (a + b).len() as int) =~= b);
}

proof fn lemma_holds_char(s: Seq<char>, q: int, w: Seq<char>, k: int)
    requires
        holds_at(s, q, w),
        0 <= k < w.len(),
    ensures
        s[q + k] == w[k],
{
    assert(s.subrange(q, q + w.len())[k] == s[q + k]);
}

proof fn lemma_string_body(s: Seq<char>, p: int, acc: Seq<char>, x: Seq<char>)
    requires
        holds_at(s, p, escape_json(x) + seq!['"']),
    ensures
        p_string_body(s, p, acc) == Ok::<(Seq<char>, int), Seq<char>>(
            (acc + x, p + escape_json(x).len() + 1),
        ),
    decreases x.len(),
{
    if x.len() == 0 {
        assert(escape_json(x) =~= Seq::<char>::empty());
        lemma_holds_char(s, p, escape_json(x) + seq!['"'], 0);
        assert(acc + x =~= acc);
    } else {
        lemma_escape_front(x);
        let c = x[0];
        let rest = x.drop_first();
        let e1 = escaped_char(c);
        assert(escape_json(x) + seq!['"'] =~= e1 + (escape_json(rest) + seq!['"']));
        lemma_holds_split(s, p, e1, escape_json(rest) + seq!['"']);
        lemma_holds_char(s, p, e1, 0);
        if c == '\\' || c == '"' {
            lemma_holds_char(s, p, e1, 1);
            assert(unescape(s[p + 1]) == c);
            lemma_string_body(s, p + 2, acc.push(c), rest);
        } else {
            lemma_string_body(s, p + 1, acc.push(c), rest);
        }
        assert(acc.push(c) + rest =~= acc + x);
    }
}

proof fn lemma_holds_sub(s: Seq<char>, q: int, w: Seq<char>, a: int, b: int)
    requires
        holds_at(s, q, w),
        0 <= a <= b <= w.len(),
    ensures
        holds_at(s, q + a, w.subrange(a, b)),
{
    assert(s.subrange(q + a, q + b) =~= w.subrange(a, b)) by {
        assert forall|k: int| 0 <= k < b - a implies s.subrange(q + a, q + b)[k] == w.subrange(a, b)[k] by {
            lemma_holds_char(s, q, w, a + k);
        }
    }
}

proof fn lemma_join_front(ts: Seq<Seq<char>>)
    requires
        ts.len() >= 2,
    ensures
        join_texts(ts) == ts[0] + seq![',', ' '] + join_texts(ts.drop_first()),
    decreases ts.len(),
{
    if ts.len() == 2 {
        assert(ts.drop_last().len() == 1);
        assert(ts.drop_first().len() == 1);
        assert(join_texts(ts.drop_last()) == ts[0]);
        assert(join_texts(ts.drop_first()) == ts[1]);
        assert(ts.last() == ts[1]);
    } else {
        lemma_join_front(ts.drop_last());
        assert(ts.drop_last().drop_first() =~= ts.drop_first().drop_last());
        assert(ts.drop_first().last() == ts.last());
        assert(ts.drop_last()[0] == ts[0]);
        assert(join_texts(ts) =~= ts[0] + seq![',', ' '] + join_texts(ts.drop_first()));
    }
}

proof fn lemma_join_first(ts: Seq<Seq<char>>)
    requires
        ts.len() >= 1,
        ts[0].len() >= 1,
    ensures
        join_texts(ts).len() >= ts[0].len(),
        join_texts(ts)[0] == ts[0][0],
{
    if ts.len() >= 2 {
        lemma_join_front(ts);
    }
}

proof fn lemma_digits_end_at(s: Seq<char>, a: int, d: Seq<char>)
    requires
        holds_at(s, a, d),
        forall|k: int| 0 <= k < d.len() ==> is_digit(#[trigger] d[k]),
        a + d.len() == s.len() || !is_digit(s[a + d.len()]),
    ensures
        digits_end(s, a) == a + d.len(),
    decreases d.len(),
{
    if d.len() > 0 {
        lemma_holds_char(s, a, d, 0);
        lemma_holds_sub(s, a, d, 1, d.len() as int);
        assert(d.subrange(1, d.len() as int).len() == d.len() - 1);
        assert forall|k: int| 0 <= k < d.len() - 1 implies is_digit(#[trigger] d.subrange(1, d.len() as int)[k]) by {
            assert(d.subrange(1, d.len() as int)[k] == d[k + 1]);
        }
        lemma_digits_end_at(s, a + 1, d.subrange(1, d.len() as int));
    }
}

proof fn lemma_skip_here(s: Seq<char>, k: int)
    requires
        0 <= k < s.len(),
        !is_json_ws(s[k]),
    ensures
        skip_ws(s, k) == k,
{
}

proof fn lemma_skip_space(s: Seq<char>, k: int)
    requires
        0 <= k,
        k + 1 < s.len(),
        s[k] == ' ',
        !is_json_ws(s[k + 1]),
    ensures
        skip_ws(s, k) == k + 1,
{
    assert(skip_ws(s, k) == skip_ws(s, k + 1));
}

/// The first character of a plain document's text: it starts the text and
/// tells its kind.
spec fn starts_value(c: char) -> bool {
    c == 'n' || c == 't' || c == 'f' || c == '"' || c == '[' || c == '{' || c == '-' || is_digit(c)
}

proof fn lemma_text_start(j: JsonModel)
    requires
        writable_json(j),
    ensures
        json_text(j).len() >= 1,
        starts_value(json_text(j)[0]),
        !is_json_ws(json_text(j)[0]),
{
    match j {
        JsonModel::Number(n) => {
            lemma_int_of_decimal(n);
        },
        JsonModel::Str(x) => {
        },
        JsonModel::Array(_) => {
        },
        JsonModel::Object(_) => {
        },
        _ => {
        },
    }
}

proof fn lemma_value(s: Seq<char>, i: int, q: int, j: JsonModel)
    requires
        writable_json(j),
        0 <= i <= q,
        skip_ws(s, i) == q,
        holds_at(s, q, json_text(j)),
        ends_value(s, q + json_text(j).len()),
    ensures
        p_value(s, i) == Ok::<(JsonModel, int), Seq<char>>((reread(j), q + json_text(j).len())),
    decreases j, 0int,
{
    let t = json_text(j);
    lemma_text_start(j);
    lemma_holds_char(s, q, t, 0);
    match j {
        JsonModel::Null => {
            reveal_strlit("null");
            assert(t =~= "null"@);
        },
        JsonModel::Bool(b) => {
            reveal_strlit("true");
            reveal_strlit("false");
            if b {
                assert(t =~= "true"@);
            } else {
                assert(t =~= "false"@);
                if holds_at(s, q, "true"@) {
                    lemma_holds_char(s, q, "true"@, 0);
                }
            }
        },
        JsonModel::Number(n) => {
            lemma_int_of_decimal(n);
            let a: int = if s[q] == '-' { 1 } else { 0 };
            let d = t.subrange(a, t.len() as int);
            lemma_holds_sub(s, q, t, a, t.len() as int);
            assert forall|k: int| 0 <= k < d.len() implies is_digit(#[trigger] d[k]) by {
                assert(d[k] == t[k + a]);
            }
            lemma_digits_end_at(s, q + a, d);
            assert(s.subrange(q, q + t.len()) == t);
        },
        JsonModel::Str(x) => {
            let e = escape_json(x);
            lemma_holds_sub(s, q, t, 1, t.len() as int);
            assert(t.subrange(1, t.len() as int) =~= e + seq!['"']);
            lemma_string_body(s, q + 1, Seq::empty(), x);
            assert(Seq::<char>::empty() + x =~= x);
        },
        JsonModel::Float(bits) => {
            let x = seq!['f', 'l', 'o', 'a', 't', ':'] + decimal(bits as nat);
            let e = escape_json(x);
            lemma_holds_sub(s, q, t, 1, t.len() as int);
            assert(t.subrange(1, t.len() as int) =~= e + seq!['"']);
            lemma_string_body(s, q + 1, Seq::empty(), x);
            assert(Seq::<char>::empty() + x =~= x);
        },
        JsonModel::BytesHex(h) => {
            let w = seq!['_', '_', 'b', 'y', 't', 'e', 's'];
            let head = seq!['{', '"', '_', '_', 'b', 'y', 't', 'e', 's', '"', ':'];
            let e = escape_json(h);
            lemma_escape_plain(w);
            assert(t =~= head + (seq!['"'] + e + seq!['"']) + seq!['}']);
            lemma_holds_char(s, q, t, 1);
            lemma_holds_char(s, q, t, 10);
            lemma_holds_char(s, q, t, 11);
            lemma_holds_char(s, q, t, t.len() - 1);
            lemma_holds_sub(s, q, t, 2, 10);
            assert(t.subrange(2, 10) =~= w + seq!['"']);
            lemma_string_body(s, q + 2, Seq::empty(), w);
            lemma_holds_sub(s, q, t, 12, t.len() as int);
            assert(t.subrange(12, t.len() as int) =~= e + seq!['"'] + seq!['}']);
            lemma_holds_sub(s, q + 12, e + seq!['"'] + seq!['}'], 0, e.len() as int + 1);
            assert((e + seq!['"'] + seq!['}']).subrange(0, e.len() as int + 1) =~= e + seq!['"']);
            lemma_string_body(s, q + 12, Seq::empty(), h);
            assert(Seq::<char>::empty() + w =~= w);
            assert(Seq::<char>::empty() + h =~= h);
            lemma_skip_here(s, q + 1);
            lemma_skip_here(s, q + 10);
            lemma_skip_here(s, q + 11);
            lemma_skip_here(s, q + t.len() - 1);
            assert(Seq::<(Seq<char>, JsonModel)>::empty().push((w, JsonModel::Str(h))) =~= seq![
                (w, JsonModel::Str(h)),
            ]);
            assert(p_string(s, q + 1) == Ok::<(Seq<char>, int), Seq<char>>((w, q + 10)));
            assert(p_value(s, q + 11) == Ok::<(JsonModel, int), Seq<char>>(
                (JsonModel::Str(h), q + t.len() - 1),
            ));
            assert(p_members(s, q + 1, Seq::empty()) == Ok::<(JsonModel, int), Seq<char>>(
                (reread(j), q + t.len()),
            ));
        },
        JsonModel::Array(items) => {
            let ts = part_texts(j);
            let body = join_texts(ts);
            assert(t =~= seq!['['] + body + seq![']']);
            if items.len() == 0 {
                assert(ts.len() == 0);
                assert(body.len() == 0);
                lemma_holds_char(s, q, t, 1);
                lemma_skip_here(s, q + 1);
                assert(reread(j)->Array_0 =~= Seq::<JsonModel>::empty());
            } else {
                assert(ts[0] == json_text(items[0]));
                lemma_text_start(items[0]);
                lemma_join_first(ts);
                lemma_holds_char(s, q, t, 1);
                lemma_skip_here(s, q + 1);
                lemma_holds_sub(s, q, t, 1, t.len() as int);
                assert(t.subrange(1, t.len() as int) =~= body + seq![']']);
                assert(ts.subrange(0, items.len() as int) =~= ts);
                lemma_items(s, q + 1, q + 1, items, 0);
                assert(reread(j)->Array_0.subrange(0, 0) =~= Seq::<JsonModel>::empty());
            }
        },
        JsonModel::Object(ms) => {
            let ts = part_texts(j);
            let body = join_texts(ts);
            assert(t =~= seq!['{'] + body + seq!['}']);
            if ms.len() == 0 {
                assert(ts.len() == 0);
                assert(body.len() == 0);
                lemma_holds_char(s, q, t, 1);
                lemma_skip_here(s, q + 1);
                assert(reread(j)->Object_0 =~= Seq::<(Seq<char>, JsonModel)>::empty());
            } else {
                assert(ts[0] == quoted(ms[0].0) + seq![':', ' '] + json_text(ms[0].1));
                lemma_join_first(ts);
                lemma_holds_char(s, q, t, 1);
                lemma_skip_here(s, q + 1);
                lemma_holds_sub(s, q, t, 1, t.len() as int);
                assert(t.subrange(1, t.len() as int) =~= body + seq!['}']);
                assert(ts.subrange(0, ms.len() as int) =~= ts);
                lemma_members(s, q + 1, q + 1, ms, 0);
                assert(reread(j)->Object_0.subrange(0, 0) =~= Seq::<(Seq<char>, JsonModel)>::empty());
            }
        },
        _ => {
        },
    }
}

proof fn lemma_items(s: Seq<char>, p: int, q: int, items: Seq<JsonModel>, n: int)
    requires
        forall|i: int| 0 <= i < items.len() ==> writable_json(#[trigger] items[i]),
        0 <= n < items.len(),
        0 <= p <= q,
        skip_ws(s, p) == q,
        holds_at(
            s,
            q,
            join_texts(part_texts(JsonModel::Array(items)).subrange(n, items.len() as int)) + seq![']'],
        ),
    ensures
        p_items(s, p, reread(JsonModel::Array(items))->Array_0.subrange(0, n)) == Ok::<
            (JsonModel, int),
            Seq<char>,
        >(
            (
                reread(JsonModel::Array(items)),
                q + join_texts(part_texts(JsonModel::Array(items)).subrange(n, items.len() as int)).len()
                    + 1,
            ),
        ),
    decreases items, items.len() - n,
{
    let ts = part_texts(JsonModel::Array(items));
    let rest = ts.subrange(n, items.len() as int);
    let tn = json_text(items[n]);
    assert(rest[0] == tn);
    lemma_text_start(items[n]);
    let w = join_texts(rest) + seq![']'];
    if n == items.len() - 1 {
        assert(rest.len() == 1);
        assert(join_texts(rest) == tn);
        lemma_holds_sub(s, q, w, 0, tn.len() as int);
        assert(w.subrange(0, tn.len() as int) =~= tn);
        lemma_holds_char(s, q, w, tn.len() as int);
        lemma_value(s, p, q, items[n]);
        lemma_skip_here(s, q + tn.len());
        let rr = reread(JsonModel::Array(items))->Array_0;
        assert(rr.subrange(0, n).push(reread(items[n])) =~= rr);
    } else {
        lemma_join_front(rest);
        let rest2 = ts.subrange(n + 1, items.len() as int);
        assert(rest.drop_first() =~= rest2);
        let j2 = join_texts(rest2);
        assert(w =~= tn + seq![',', ' '] + j2 + seq![']']);
        lemma_holds_sub(s, q, w, 0, tn.len() as int);
        assert(w.subrange(0, tn.len() as int) =~= tn);
        lemma_holds_char(s, q, w, tn.len() as int);
        lemma_holds_char(s, q, w, tn.len() as int + 1);
        let q2 = q + tn.len() as int + 2;
        lemma_holds_sub(s, q, w, tn.len() as int + 2, w.len() as int);
        assert(w.subrange(tn.len() as int + 2, w.len() as int) =~= j2 + seq![']']);
        assert(rest2[0] == json_text(items[n + 1]));
        lemma_text_start(items[n + 1]);
        lemma_join_first(rest2);
        lemma_holds_char(s, q2, j2 + seq![']'], 0);
        lemma_value(s, p, q, items[n]);
        lemma_skip_here(s, q + tn.len());
        lemma_skip_space(s, q + tn.len() as int + 1);
        lemma_items(s, q + tn.len() as int + 1, q2, items, n + 1);
        let rr = reread(JsonModel::Array(items))->Array_0;
        assert(rr.subrange(0, n).push(reread(items[n])) =~= rr.subrange(0, n + 1));
    }
}

proof fn lemma_members(s: Seq<char>, p: int, q: int, ms: Seq<(Seq<char>, JsonModel)>, n: int)
    requires
        forall|i: int| 0 <= i < ms.len() ==> writable_json((#[trigger] ms[i]).1),
        0 <= n < ms.len(),
        0 <= p <= q,
        skip_ws(s, p) == q,
        holds_at(
            s,
            q,
            join_texts(part_texts(JsonModel::Object(ms)).subrange(n, ms.len() as int)) + seq!['}'],
        ),
    ensures
        p_members(s, p, reread(JsonModel::Object(ms))->Object_0.subrange(0, n)) == Ok::<
            (JsonModel, int),
            Seq<char>,
        >(
            (
                reread(JsonModel::Object(ms)),
                q + join_texts(part_texts(JsonModel::Object(ms)).subrange(n, ms.len() as int)).len()
                    + 1,
            ),
        ),
    decreases ms, ms.len() - n,
{
    let ts = part_texts(JsonModel::Object(ms));
    let rest = ts.subrange(n, ms.len() as int);
    let key = ms[n].0;
    let v = ms[n].1;
    let e = escape_json(key);
    let vt = json_text(v);
    let tn = quoted(key) + seq![':', ' '] + vt;
    assert(rest[0] == tn);
    lemma_text_start(v);
    let w = join_texts(rest) + seq!['}'];
    let kk = q + e.len() as int + 2;
    let m = q + tn.len();
    assert(tn.len() == e.len() as int + 4 + vt.len());
    if n == ms.len() - 1 {
        assert(rest.len() == 1);
        assert(join_texts(rest) == tn);
        assert(w =~= tn + seq!['}']);
    } else {
        lemma_join_front(rest);
        assert(rest.drop_first() =~= ts.subrange(n + 1, ms.len() as int));
        assert(w =~= tn + seq![',', ' '] + join_texts(ts.subrange(n + 1, ms.len() as int)) + seq!['}']);
    }
    lemma_holds_sub(s, q, w, 0, tn.len() as int);
    assert(w.subrange(0, tn.len() as int) =~= tn);
    lemma_holds_char(s, q, w, tn.len() as int);
    lemma_holds_char(s, q, tn, 0);
    lemma_holds_sub(s, q, tn, 1, e.len() as int + 2);
    assert(tn.subrange(1, e.len() as int + 2) =~= e + seq!['"']);
    lemma_string_body(s, q + 1, Seq::empty(), key);
    assert(Seq::<char>::empty() + key =~= key);
    lemma_holds_char(s, q, tn, e.len() as int + 2);
    lemma_holds_char(s, q, tn, e.len() as int + 3);
    lemma_holds_sub(s, q, tn, e.len() as int + 4, tn.len() as int);
    assert(tn.subrange(e.len() as int + 4, tn.len() as int) =~= vt);
    lemma_holds_char(s, kk + 2, vt, 0);
    lemma_skip_here(s, kk);
    lemma_skip_space(s, kk + 1);
    lemma_value(s, kk + 1, kk + 2, v);
    lemma_skip_here(s, m);
    let rr = reread(JsonModel::Object(ms))->Object_0;
    assert(rr[n] == (key, reread(v)));
    if n < ms.len() - 1 {
        let rest2 = ts.subrange(n + 1, ms.len() as int);
        let j2 = join_texts(rest2);
        lemma_holds_char(s, q, w, tn.len() as int + 1);
        lemma_holds_sub(s, q, w, tn.len() as int + 2, w.len() as int);
        assert(w.subrange(tn.len() as int + 2, w.len() as int) =~= j2 + seq!['}']);
        assert(rest2[0] == quoted(ms[n + 1].0) + seq![':', ' '] + json_text(ms[n + 1].1));
        lemma_join_first(rest2);
        lemma_holds_char(s, m + 2, j2 + seq!['}'], 0);
        lemma_skip_space(s, m + 1);
        lemma_members(s, m + 1, m + 2, ms, n + 1);
        assert(rr.subrange(0, n).push(rr[n]) =~= rr.subrange(0, n + 1));
    } else {
        assert(rr.subrange(0, n).push(rr[n]) =~= rr);
    }
}

/// Reading the text of a document gives back what that text stands for:
/// the document itself, except that a float kept as bits comes back as the
/// string it is written as and a byte string as its `__bytes` object.
pub proof fn lemma_json_text_reads_back(j: JsonModel)
    requires
        writable_json(j),
    ensures
        spec_parse_json(json_text(j)) == Ok::<JsonModel, Seq<char>>(reread(j)),
{
    let s = json_text(j);
    lemma_text_start(j);
    lemma_skip_here(s, 0);
    assert(s.subrange(0, s.len() as int) =~= s);
    lemma_value(s, 0, 0, j);
}

proof fn lemma_reread_plain(j: JsonModel)
    requires
        plain_json(j),
    ensures
        writable_json(j),
        reread(j) == j,
    decreases j,
{
    match j {
        JsonModel::Array(items) => {
            assert forall|i: int| 0 <= i < items.len() implies writable_json(#[trigger] items[i])
                && reread(items[i]) == items[i] by {
                lemma_reread_plain(items[i]);
            }
            assert(reread(j)->Array_0 =~= items);
        },
        JsonModel::Object(ms) => {
            assert forall|i: int| 0 <= i < ms.len() implies writable_json((#[trigger] ms[i]).1)
                && reread(ms[i].1) == ms[i].1 by {
                lemma_reread_plain(ms[i].1);
            }
            assert(reread(j)->Object_0 =~= ms);
        },
        _ => {
        },
    }
}

/// Reading the text of a document gives the document back, for every
/// document without floats or byte strings.
pub proof fn lemma_json_text_roundtrip(j: JsonModel)
    requires
        plain_json(j),
    ensures
        spec_parse_json(json_text(j)) == Ok::<JsonModel, Seq<char>>(j),
{
    lemma_reread_plain(j);
    lemma_json_text_reads_back(j);
}

} // verus!
