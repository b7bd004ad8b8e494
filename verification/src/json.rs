//! The JSON dialect of export and import: a document tree, its grammar as a
//! parser over characters, and its text form.

use vstd::prelude::*;
use crate::strings::{chars_of, string_of_chars, string_push};
use crate::errors::text;
use crate::fmt::{decimal, decimal_i, i64_to_string, push_decimal};

verus! {

/// A JSON document. Numbers with a fractional part are kept as their
/// literal text (`FloatText`) when read, and as IEEE-754 bits (`Float`) when
/// made from a value.
#[derive(Debug)]
pub enum JsonVal {
    Null,
    Bool(bool),
    Number(i64),
    FloatText(String),
    Float(u64),
    Str(String),
    /// A byte string as written by export: `{"__bytes":"<hex>"}`.
    BytesHex(String),
    Array(Vec<JsonVal>),
    Object(Vec<(String, JsonVal)>),
}

pub enum JsonModel {
    Null,
    Bool(bool),
    Number(i64),
    FloatText(Seq<char>),
    Float(u64),
    Str(Seq<char>),
    BytesHex(Seq<char>),
    Array(Seq<JsonModel>),
    Object(Seq<(Seq<char>, JsonModel)>),
}

impl JsonVal {
    pub open spec fn model(&self) -> JsonModel
        decreases self,
    {
        match self {
            JsonVal::Null => JsonModel::Null,
            JsonVal::Bool(b) => JsonModel::Bool(*b),
            JsonVal::Number(n) => JsonModel::Number(*n),
            JsonVal::FloatText(t) => JsonModel::FloatText(t@),
            JsonVal::Float(b) => JsonModel::Float(*b),
            JsonVal::Str(s) => JsonModel::Str(s@),
            JsonVal::BytesHex(h) => JsonModel::BytesHex(h@),
            JsonVal::Array(items) => JsonModel::Array(
                Seq::new(
                    items@.len(),
                    |i: int|
                        if 0 <= i < items@.len() {
                            items@[i].model()
                        } else {
                            JsonModel::Null
                        },
                ),
            ),
            JsonVal::Object(members) => JsonModel::Object(
                Seq::new(
                    members@.len(),
                    |i: int|
                        if 0 <= i < members@.len() {
                            (members@[i].0@, members@[i].1.model())
                        } else {
                            (Seq::empty(), JsonModel::Null)
                        },
                ),
            ),
        }
    }
}

pub open spec fn json_models(items: Seq<JsonVal>) -> Seq<JsonModel> {
    Seq::new(items.len(), |i: int| items[i].model())
}

pub open spec fn member_models(ms: Seq<(String, JsonVal)>) -> Seq<(Seq<char>, JsonModel)> {
    Seq::new(ms.len(), |i: int| (ms[i].0@, ms[i].1.model()))
}

pub proof fn lemma_json_model_parts(v: JsonVal)
    ensures
        v matches JsonVal::Array(items) ==> v.model() == JsonModel::Array(json_models(items@)),
        v matches JsonVal::Object(ms) ==> v.model() == JsonModel::Object(member_models(ms@)),
{
    match v {
        JsonVal::Array(items) => {
            assert(v.model()->Array_0 =~= json_models(items@));
        },
        JsonVal::Object(ms) => {
            assert(v.model()->Object_0 =~= member_models(ms@));
        },
        _ => {},
    }
}

// ---------------------------------------------------------------------------
// Grammar

pub open spec fn is_json_ws(c: char) -> bool {
    c == ' ' || c == '\t' || c == '\n' || c == '\r' || c == '\x0C'
}

pub open spec fn is_digit(c: char) -> bool {
    '0' <= c && c <= '9'
}

/// The position of the first non-whitespace character at or after `i`.
pub open spec fn skip_ws(s: Seq<char>, i: int) -> int
    decreases s.len() - i,
{
    if 0 <= i < s.len() && is_json_ws(s[i]) {
        skip_ws(s, i + 1)
    } else {
        i
    }
}

pub proof fn lemma_skip_ws(s: Seq<char>, i: int)
    ensures
        skip_ws(s, i) >= i,
        i >= 0 ==> skip_ws(s, i) <= s.len() || skip_ws(s, i) == i,
        0 <= i <= s.len() ==> skip_ws(s, i) <= s.len(),
    decreases s.len() - i,
{
    if 0 <= i < s.len() && is_json_ws(s[i]) {
        lemma_skip_ws(s, i + 1);
    }
}

/// The position of the first non-digit at or after `i`.
pub open spec fn digits_end(s: Seq<char>, i: int) -> int
    decreases s.len() - i,
{
    if 0 <= i < s.len() && is_digit(s[i]) {
        digits_end(s, i + 1)
    } else {
        i
    }
}

pub proof fn lemma_digits_end(s: Seq<char>, i: int)
    requires
        0 <= i <= s.len(),
    ensures
        i <= digits_end(s, i) <= s.len(),
        forall|k: int| i <= k < digits_end(s, i) ==> is_digit(#[trigger] s[k]),
        digits_end(s, i) < s.len() ==> !is_digit(s[digits_end(s, i)]),
    decreases s.len() - i,
{
    if i < s.len() && is_digit(s[i]) {
        lemma_digits_end(s, i + 1);
    }
}

/// The character an escape `\e` stands for.
pub open spec fn unescape(e: char) -> char {
    if e == 'n' {
        '\n'
    } else if e == 't' {
        '\t'
    } else {
        e
    }
}

/// The rest of a string after its opening quote: the characters and the
/// position after the closing quote.
pub open spec fn p_string_body(s: Seq<char>, i: int, acc: Seq<char>) -> Result<(Seq<char>, int), Seq<char>>
    decreases s.len() - i,
{
    if i < 0 || i >= s.len() {
        Err("unterminated string"@)
    } else if s[i] == '"' {
        Ok((acc, i + 1))
    } else if s[i] == '\\' {
        if i + 1 >= s.len() {
            Err("bad escape"@)
        } else {
            p_string_body(s, i + 2, acc.push(unescape(s[i + 1])))
        }
    } else {
        p_string_body(s, i + 1, acc.push(s[i]))
    }
}

pub open spec fn p_string(s: Seq<char>, i: int) -> Result<(Seq<char>, int), Seq<char>> {
    if 0 <= i < s.len() && s[i] == '"' {
        p_string_body(s, i + 1, Seq::empty())
    } else {
        Err("expected string"@)
    }
}

/// The value of a decimal digit string.
pub open spec fn digits_value(d: Seq<char>) -> int
    decreases d.len(),
{
    if d.len() == 0 {
        0
    } else {
        digits_value(d.drop_last()) * 10 + (d.last() as int - '0' as int)
    }
}

/// What `i64`'s `parse` gives for an optional minus sign then digits.
pub open spec fn int_of(text: Seq<char>) -> Option<i64> {
    let neg = text.len() > 0 && text[0] == '-';
    let d = if neg {
        text.drop_first()
    } else {
        text
    };
    let v = if neg {
        -digits_value(d)
    } else {
        digits_value(d)
    };
    if d.len() == 0 || v < i64::MIN || v > i64::MAX {
        None
    } else {
        Some(v as i64)
    }
}

/// A number starting at `i` (a minus sign or a digit).
pub open spec fn p_number(s: Seq<char>, i: int) -> Result<(JsonModel, int), Seq<char>> {
    let j = if 0 <= i < s.len() && s[i] == '-' {
        i + 1
    } else {
        i
    };
    let k = digits_end(s, j);
    if 0 <= k < s.len() && s[k] == '.' {
        let m = digits_end(s, k + 1);
        Ok((JsonModel::FloatText(s.subrange(i, m)), m))
    } else {
        match int_of(s.subrange(i, k)) {
            Some(n) => Ok((JsonModel::Number(n), k)),
            None => Err("bad int"@),
        }
    }
}

/// Whether `s` holds the characters `w` from position `i`.
pub open spec fn holds_at(s: Seq<char>, i: int, w: Seq<char>) -> bool {
    0 <= i && i + w.len() <= s.len() && s.subrange(i, i + w.len()) == w
}

/// A value after optional whitespace, and the position after it.
pub open spec fn p_value(s: Seq<char>, i: int) -> Result<(JsonModel, int), Seq<char>>
    decreases s.len() - i, 1int,
{
    let j = skip_ws(s, i);
    if j < 0 || j >= s.len() {
        Err("unexpected eof"@)
    } else {
        let c = s[j];
        if c == 'n' {
            if holds_at(s, j, "null"@) {
                Ok((JsonModel::Null, j + 4))
            } else {
                Err("expected null"@)
            }
        } else if c == 't' || c == 'f' {
            if holds_at(s, j, "true"@) {
                Ok((JsonModel::Bool(true), j + 4))
            } else if holds_at(s, j, "false"@) {
                Ok((JsonModel::Bool(false), j + 5))
            } else {
                Err("expected bool"@)
            }
        } else if c == '"' {
            match p_string(s, j) {
                Err(e) => Err(e),
                Ok((t, k)) => Ok((JsonModel::Str(t), k)),
            }
        } else if c == '[' {
            proof {
                lemma_skip_ws(s, i);
                lemma_skip_ws(s, j + 1);
            }
            let k = skip_ws(s, j + 1);
            if 0 <= k < s.len() && s[k] == ']' {
                Ok((JsonModel::Array(Seq::empty()), k + 1))
            } else {
                p_items(s, k, Seq::empty())
            }
        } else if c == '{' {
            proof {
                lemma_skip_ws(s, i);
                lemma_skip_ws(s, j + 1);
            }
            let k = skip_ws(s, j + 1);
            if 0 <= k < s.len() && s[k] == '}' {
                Ok((JsonModel::Object(Seq::empty()), k + 1))
            } else {
                p_members(s, k, Seq::empty())
            }
        } else if c == '-' || is_digit(c) {
            p_number(s, j)
        } else {
            Err("unexpected "@ + seq![c])
        }
    }
}

/// Array items from `i` on, after those in `acc`.
pub open spec fn p_items(s: Seq<char>, i: int, acc: Seq<JsonModel>) -> Result<(JsonModel, int), Seq<char>>
    decreases s.len() - i, 2int,
{
    match p_value(s, i) {
        Err(e) => Err(e),
        Ok((v, j)) => if j <= i {
            Err("expected , or ]"@)
        } else {
            proof {
                lemma_skip_ws(s, j);
            }
            let k = skip_ws(s, j);
            if k < 0 || k >= s.len() {
                Err("expected , or ]"@)
            } else if s[k] == ',' {
                p_items(s, k + 1, acc.push(v))
            } else if s[k] == ']' {
                Ok((JsonModel::Array(acc.push(v)), k + 1))
            } else {
                Err("expected , or ]"@)
            }
        },
    }
}

/// Object members from `i` on, after those in `acc`.
pub open spec fn p_members(s: Seq<char>, i: int, acc: Seq<(Seq<char>, JsonModel)>) -> Result<(JsonModel, int), Seq<char>>
    decreases s.len() - i, 2int,
{
    let j = skip_ws(s, i);
    match p_string(s, j) {
        Err(e) => Err(e),
        Ok((key, k)) => {
            proof {
                lemma_skip_ws(s, i);
                lemma_skip_ws(s, k);
            }
            let c = skip_ws(s, k);
            if c < 0 || c >= s.len() || s[c] != ':' || k <= i {
                Err("expected :"@)
            } else {
                match p_value(s, c + 1) {
                    Err(e) => Err(e),
                    Ok((v, m)) => if m <= c {
                        Err("expected , or }"@)
                    } else {
                        proof {
                            lemma_skip_ws(s, m);
                        }
                        let n = skip_ws(s, m);
                        if n < 0 || n >= s.len() {
                            Err("expected , or }"@)
                        } else if s[n] == ',' {
                            p_members(s, n + 1, acc.push((key, v)))
                        } else if s[n] == '}' {
                            Ok((JsonModel::Object(acc.push((key, v))), n + 1))
                        } else {
                            Err("expected , or }"@)
                        }
                    },
                }
            }
        },
    }
}

/// A whole document: one value, then nothing but whitespace.
pub open spec fn spec_parse_json(s: Seq<char>) -> Result<JsonModel, Seq<char>> {
    match p_value(s, 0) {
        Err(e) => Err(e),
        Ok((v, j)) => if skip_ws(s, j) != s.len() {
            Err("trailing junk in json"@)
        } else {
            Ok(v)
        },
    }
}

// ---------------------------------------------------------------------------
// Parser

pub(crate) fn is_ws_char(c: char) -> (b: bool)
    ensures
        b == is_json_ws(c),
{
    c == ' ' || c == '\t' || c == '\n' || c == '\r' || c == '\x0C'
}

pub(crate) fn is_digit_char(c: char) -> (b: bool)
    ensures
        b == is_digit(c),
{
    '0' <= c && c <= '9'
}

fn skip_ws_at(s: &Vec<char>, i: usize) -> (j: usize)
    requires
        i <= s@.len(),
    ensures
        j == skip_ws(s@, i as int),
        i <= j <= s@.len(),
{
    let mut j = i;
    while j < s.len() && is_ws_char(s[j])
        invariant
            i <= j <= s@.len(),
            skip_ws(s@, i as int) == skip_ws(s@, j as int),
        decreases s@.len() - j,
    {
        j = j + 1;
    }
    j
}

pub(crate) fn digits_end_at(s: &Vec<char>, i: usize) -> (j: usize)
    requires
        i <= s@.len(),
    ensures
        j == digits_end(s@, i as int),
        i <= j <= s@.len(),
{
    let mut j = i;
    while j < s.len() && is_digit_char(s[j])
        invariant
            i <= j <= s@.len(),
            digits_end(s@, i as int) == digits_end(s@, j as int),
        decreases s@.len() - j,
    {
        j = j + 1;
    }
    j
}

fn holds_at_exec(s: &Vec<char>, i: usize, w: &str) -> (b: bool)
    ensures
        b == holds_at(s@, i as int, w@),
{
    let wc = chars_of(w);
    let n = s.len();
    if i > n || wc.len() > n - i {
        return false;
    }
    let mut k: usize = 0;
    while k < wc.len()
        invariant
            n == s@.len(),
            k <= wc@.len(),
            wc@ == w@,
            i + wc@.len() <= s@.len(),
            s@.subrange(i as int, i + k) == wc@.take(k as int),
        decreases wc@.len() - k,
    {
        if s[i + k] != wc[k] {
            assert(s@.subrange(i as int, i + wc@.len())[k as int] != wc@[k as int]);
            return false;
        }
        assert(s@.subrange(i as int, i + k + 1) =~= s@.subrange(i as int, i + k).push(s@[i + k]));
        assert(wc@.take(k + 1) =~= wc@.take(k as int).push(wc@[k as int]));
        k = k + 1;
    }
    assert(wc@.take(k as int) =~= wc@);
    true
}

/// A string made of `s[a..b]`.
pub(crate) fn sub_string(s: &Vec<char>, a: usize, b: usize) -> (r: String)
    requires
        a <= b <= s@.len(),
    ensures
        r@ == s@.subrange(a as int, b as int),
{
    let mut out = String::new();
    let mut k = a;
    while k < b
        invariant
            a <= k <= b <= s@.len(),
            out@ == s@.subrange(a as int, k as int),
        decreases b - k,
    {
        string_push(&mut out, s[k]);
        assert(s@.subrange(a as int, k + 1) =~= s@.subrange(a as int, k as int).push(s@[k as int]));
        k = k + 1;
    }
    out
}

proof fn lemma_digits_value_grows(d: Seq<char>, k: int)
    requires
        0 <= k <= d.len(),
        forall|i: int| 0 <= i < d.len() ==> is_digit(#[trigger] d[i]),
    ensures
        digits_value(d) >= digits_value(d.take(k)) >= 0,
    decreases d.len(),
{
    if k == d.len() {
        assert(d.take(k) =~= d);
        if d.len() > 0 {
            lemma_digits_value_grows(d.drop_last(), 0);
        } else {
        }
        lemma_digits_value_nonneg(d);
    } else {
        assert(d.drop_last().take(k) =~= d.take(k));
        lemma_digits_value_grows(d.drop_last(), k);
        lemma_digits_value_nonneg(d.drop_last());
    }
}

proof fn lemma_digits_value_nonneg(d: Seq<char>)
    requires
        forall|i: int| 0 <= i < d.len() ==> is_digit(#[trigger] d[i]),
    ensures
        digits_value(d) >= 0,
    decreases d.len(),
{
    if d.len() > 0 {
        lemma_digits_value_nonneg(d.drop_last());
    }
}

/// `i64`'s parse of an optional minus sign followed by digits.
pub(crate) fn parse_int(s: &Vec<char>, a: usize, b: usize) -> (r: Option<i64>)
    requires
        a <= b <= s@.len(),
        forall|k: int| a < k < b ==> is_digit(#[trigger] s@[k]),
        a < b ==> (s@[a as int] == '-' || is_digit(s@[a as int])),
    ensures
        r == int_of(s@.subrange(a as int, b as int)),
{
    let ghost text = s@.subrange(a as int, b as int);
    let neg = a < b && s[a] == '-';
    let start = if neg {
        a + 1
    } else {
        a
    };
    let ghost d = s@.subrange(start as int, b as int);
    assert(d =~= if neg {
        text.drop_first()
    } else {
        text
    });
    if start == b {
        return None;
    }
    let limit: i128 = 9223372036854775808;
    let mut acc: i128 = 0;
    let mut k = start;
    while k < b
        invariant
            start <= k <= b <= s@.len(),
            d == s@.subrange(start as int, b as int),
            text == s@.subrange(a as int, b as int),
            d == (if neg {
                text.drop_first()
            } else {
                text
            }),
            neg == (text.len() > 0 && text[0] == '-'),
            d.len() > 0,
            forall|q: int| 0 <= q < d.len() ==> is_digit(#[trigger] d[q]),
            acc == digits_value(d.take(k - start)),
            0 <= acc <= limit,
            limit == 9223372036854775808,
        decreases b - k,
    {
        assert(d.take(k + 1 - start).drop_last() =~= d.take(k - start));
        assert(d.take(k + 1 - start).last() == s@[k as int]);
        let digit = (s[k] as u32 - '0' as u32) as i128;
        assert(digit == s@[k as int] as int - '0' as int);
        acc = acc * 10 + digit;
        assert(acc == digits_value(d.take(k + 1 - start)));
        if acc > limit {
            proof {
                lemma_digits_value_grows(d, k + 1 - start);
            }
            return None;
        }
        k = k + 1;
    }
    assert(d.take(k - start) =~= d);
    if neg {
        Some((0 - acc) as i64)
    } else {
        if acc > 9223372036854775807 {
            return None;
        }
        Some(acc as i64)
    }
}

fn unescape_char(e: char) -> (c: char)
    ensures
        c == unescape(e),
{
    if e == 'n' {
        '\n'
    } else if e == 't' {
        '\t'
    } else {
        e
    }
}

fn parse_string_at(s: &Vec<char>, i: usize) -> (r: Result<(String, usize), String>)
    requires
        i <= s@.len(),
    ensures
        match p_string(s@, i as int) {
            Ok((t, k)) => r matches Ok((x, j)) && x@ == t && j == k && i < j <= s@.len(),
            Err(e) => r matches Err(m) && m@ == e,
        },
{
    if i >= s.len() || s[i] != '"' {
        return Err(text("expected string"));
    }
    let mut out = String::new();
    let mut k = i + 1;
    while k < s.len()
        invariant
            i + 1 <= k <= s@.len(),
            s@[i as int] == '"',
            p_string(s@, i as int) == p_string_body(s@, k as int, out@),
        decreases s@.len() - k,
    {
        let c = s[k];
        if c == '"' {
            return Ok((out, k + 1));
        }
        if c == '\\' {
            if k + 1 >= s.len() {
                return Err(text("bad escape"));
            }
            string_push(&mut out, unescape_char(s[k + 1]));
            k = k + 2;
        } else {
            string_push(&mut out, c);
            k = k + 1;
        }
    }
    Err(text("unterminated string"))
}

fn parse_number_at(s: &Vec<char>, i: usize) -> (r: Result<(JsonVal, usize), String>)
    requires
        i < s@.len(),
        s@[i as int] == '-' || is_digit(s@[i as int]),
    ensures
        match p_number(s@, i as int) {
            Ok((v, k)) => r matches Ok((x, j)) && x.model() == v && j == k && i < j <= s@.len(),
            Err(e) => r matches Err(m) && m@ == e,
        },
{
    let n = s.len();
    assert(i < n);
    let j = if s[i] == '-' {
        i + 1
    } else {
        i
    };
    let k = digits_end_at(s, j);
    proof {
        lemma_digits_end(s@, j as int);
    }
    if k < s.len() && s[k] == '.' {
        let m = digits_end_at(s, k + 1);
        return Ok((JsonVal::FloatText(sub_string(s, i, m)), m));
    }
    match parse_int(s, i, k) {
        Some(n) => Ok((JsonVal::Number(n), k)),
        None => Err(text("bad int")),
    }
}

fn parse_value_at(s: &Vec<char>, i: usize) -> (r: Result<(JsonVal, usize), String>)
    requires
        i <= s@.len(),
    ensures
        match p_value(s@, i as int) {
            Ok((v, k)) => r matches Ok((x, j)) && x.model() == v && j == k && i < j <= s@.len(),
            Err(e) => r matches Err(m) && m@ == e,
        },
    decreases s@.len() - i, 1int,
{
    proof {
        reveal_strlit("null");
        reveal_strlit("true");
        reveal_strlit("false");
    }
    let j = skip_ws_at(s, i);
    if j >= s.len() {
        return Err(text("unexpected eof"));
    }
    let c = s[j];
    if c == 'n' {
        if holds_at_exec(s, j, "null") {
            Ok((JsonVal::Null, j + 4))
        } else {
            Err(text("expected null"))
        }
    } else if c == 't' || c == 'f' {
        if holds_at_exec(s, j, "true") {
            Ok((JsonVal::Bool(true), j + 4))
        } else if holds_at_exec(s, j, "false") {
            Ok((JsonVal::Bool(false), j + 5))
        } else {
            Err(text("expected bool"))
        }
    } else if c == '"' {
        let (t, k) = parse_string_at(s, j)?;
        Ok((JsonVal::Str(t), k))
    } else if c == '[' {
        let k = skip_ws_at(s, j + 1);
        if k < s.len() && s[k] == ']' {
            let v = JsonVal::Array(Vec::new());
            proof {
                lemma_json_model_parts(v);
            }
            assert(json_models(Seq::<JsonVal>::empty()) =~= Seq::<JsonModel>::empty());
            Ok((v, k + 1))
        } else {
            assert(json_models(Seq::<JsonVal>::empty()) =~= Seq::<JsonModel>::empty());
            parse_items_at(s, k, Vec::new())
        }
    } else if c == '{' {
        let k = skip_ws_at(s, j + 1);
        if k < s.len() && s[k] == '}' {
            let v = JsonVal::Object(Vec::new());
            proof {
                lemma_json_model_parts(v);
            }
            assert(member_models(Seq::<(String, JsonVal)>::empty()) =~= Seq::<(Seq<char>, JsonModel)>::empty());
            Ok((v, k + 1))
        } else {
            assert(member_models(Seq::<(String, JsonVal)>::empty()) =~= Seq::<(Seq<char>, JsonModel)>::empty());
            parse_members_at(s, k, Vec::new())
        }
    } else if c == '-' || is_digit_char(c) {
        parse_number_at(s, j)
    } else {
        let mut m = text("unexpected ");
        string_push(&mut m, c);
        Err(m)
    }
}

fn parse_items_at(s: &Vec<char>, i: usize, acc: Vec<JsonVal>) -> (r: Result<(JsonVal, usize), String>)
    requires
        i <= s@.len(),
    ensures
        match p_items(s@, i as int, json_models(acc@)) {
            Ok((v, k)) => r matches Ok((x, j)) && x.model() == v && j == k && i < j <= s@.len(),
            Err(e) => r matches Err(m) && m@ == e,
        },
    decreases s@.len() - i, 2int,
{
    let (v, j) = parse_value_at(s, i)?;
    let k = skip_ws_at(s, j);
    if k >= s.len() {
        return Err(text("expected , or ]"));
    }
    let mut acc = acc;
    let ghost before = acc@;
    let ghost vm = v.model();
    acc.push(v);
    assert(json_models(acc@) =~= json_models(before).push(vm));
    if s[k] == ',' {
        parse_items_at(s, k + 1, acc)
    } else if s[k] == ']' {
        let a = JsonVal::Array(acc);
        proof {
            lemma_json_model_parts(a);
        }
        Ok((a, k + 1))
    } else {
        Err(text("expected , or ]"))
    }
}

fn parse_members_at(s: &Vec<char>, i: usize, acc: Vec<(String, JsonVal)>) -> (r: Result<(JsonVal, usize), String>)
    requires
        i <= s@.len(),
    ensures
        match p_members(s@, i as int, member_models(acc@)) {
            Ok((v, k)) => r matches Ok((x, j)) && x.model() == v && j == k && i < j <= s@.len(),
            Err(e) => r matches Err(m) && m@ == e,
        },
    decreases s@.len() - i, 2int,
{
    let j = skip_ws_at(s, i);
    let (key, k) = parse_string_at(s, j)?;
    let c = skip_ws_at(s, k);
    if c >= s.len() || s[c] != ':' {
        return Err(text("expected :"));
    }
    let (v, m) = parse_value_at(s, c + 1)?;
    let n = skip_ws_at(s, m);
    if n >= s.len() {
        return Err(text("expected , or }"));
    }
    let mut acc = acc;
    let ghost before = acc@;
    let ghost km = key@;
    let ghost vm = v.model();
    acc.push((key, v));
    assert(member_models(acc@) =~= member_models(before).push((km, vm)));
    if s[n] == ',' {
        parse_members_at(s, n + 1, acc)
    } else if s[n] == '}' {
        let o = JsonVal::Object(acc);
        proof {
            lemma_json_model_parts(o);
        }
        Ok((o, n + 1))
    } else {
        Err(text("expected , or }"))
    }
}

/// Parse a whole JSON document.
pub fn parse_json_value(input: &str) -> (r: Result<JsonVal, String>)
    ensures
        match spec_parse_json(input@) {
            Ok(v) => r matches Ok(x) && x.model() == v,
            Err(e) => r matches Err(m) && m@ == e,
        },
{
    let s = chars_of(input);
    let (v, j) = parse_value_at(&s, 0)?;
    if skip_ws_at(&s, j) != s.len() {
        return Err(text("trailing junk in json"));
    }
    Ok(v)
}

// ---------------------------------------------------------------------------
// Text form

/// `s` with backslashes and double quotes escaped.
pub open spec fn escape_json(s: Seq<char>) -> Seq<char>
    decreases s.len(),
{
    if s.len() == 0 {
        Seq::empty()
    } else {
        escape_json(s.drop_last()) + if s.last() == '\\' {
            seq!['\\', '\\']
        } else if s.last() == '"' {
            seq!['\\', '"']
        } else {
            seq![s.last()]
        }
    }
}

/// A JSON string literal for `s`.
pub open spec fn quoted(s: Seq<char>) -> Seq<char> {
    seq!['"'] + escape_json(s) + seq!['"']
}

/// The texts joined by `", "`.
pub open spec fn join_texts(ts: Seq<Seq<char>>) -> Seq<char>
    decreases ts.len(),
{
    if ts.len() == 0 {
        Seq::empty()
    } else if ts.len() == 1 {
        ts[0]
    } else {
        join_texts(ts.drop_last()) + seq![',', ' '] + ts.last()
    }
}

/// The texts of an array's items, or of an object's members (`"key": value`).
pub open spec fn part_texts(j: JsonModel) -> Seq<Seq<char>>
    decreases j, 0int,
{
    match j {
        JsonModel::Array(items) => Seq::new(
            items.len(),
            |i: int|
                if 0 <= i < items.len() {
                    json_text(items[i])
                } else {
                    Seq::empty()
                },
        ),
        JsonModel::Object(ms) => Seq::new(
            ms.len(),
            |i: int|
                if 0 <= i < ms.len() {
                    quoted(ms[i].0) + seq![':', ' '] + json_text(ms[i].1)
                } else {
                    Seq::empty()
                },
        ),
        _ => Seq::empty(),
    }
}

/// The text a document is written as.
pub open spec fn json_text(j: JsonModel) -> Seq<char>
    decreases j, 1int,
{
    match j {
        JsonModel::Null => seq!['n', 'u', 'l', 'l'],
        JsonModel::Bool(b) => if b {
            seq!['t', 'r', 'u', 'e']
        } else {
            seq!['f', 'a', 'l', 's', 'e']
        },
        JsonModel::Number(n) => decimal_i(n as int),
        JsonModel::FloatText(t) => t,
        JsonModel::Float(bits) => quoted(seq!['f', 'l', 'o', 'a', 't', ':'] + decimal(bits as nat)),
        JsonModel::Str(s) => quoted(s),
        JsonModel::BytesHex(h) => seq!['{', '"', '_', '_', 'b', 'y', 't', 'e', 's', '"', ':'] + quoted(h) + seq![
            '}',
        ],
        JsonModel::Array(_) => seq!['['] + join_texts(part_texts(j)) + seq![']'],
        JsonModel::Object(_) => seq!['{'] + join_texts(part_texts(j)) + seq!['}'],
    }
}

fn push_str(out: &mut String, s: &str)
    ensures
        final(out)@ == old(out)@ + s@,
{
    out.append(s);
}

fn push_two(out: &mut String, a: char, b: char)
    ensures
        final(out)@ == old(out)@ + seq![a, b],
{
    string_push(out, a);
    string_push(out, b);
    assert(out@ =~= old(out)@ + seq![a, b]);
}

/// Append `s` as a JSON string literal.
pub fn push_quoted(out: &mut String, s: &str)
    ensures
        final(out)@ == old(out)@ + quoted(s@),
{
    let cs = chars_of(s);
    let ghost start = out@;
    string_push(out, '"');
    let mut i: usize = 0;
    assert(cs@.take(0) =~= Seq::<char>::empty());
    while i < cs.len()
        invariant
            i <= cs@.len(),
            cs@ == s@,
            out@ == start + seq!['"'] + escape_json(cs@.take(i as int)),
        decreases cs@.len() - i,
    {
        let c = cs[i];
        assert(cs@.take(i + 1).drop_last() =~= cs@.take(i as int));
        assert(cs@.take(i + 1).last() == c);
        if c == '\\' {
            push_two(out, '\\', '\\');
        } else if c == '"' {
            push_two(out, '\\', '"');
        } else {
            string_push(out, c);
        }
        assert(out@ =~= start + seq!['"'] + escape_json(cs@.take(i + 1)));
        i = i + 1;
    }
    assert(cs@.take(i as int) =~= cs@);
    string_push(out, '"');
    assert(out@ =~= old(out)@ + quoted(s@));
}

/// A JSON string literal for `s`.
pub fn json_str(s: &str) -> (r: String)
    ensures
        r@ == quoted(s@),
{
    let mut out = String::new();
    push_quoted(&mut out, s);
    assert(out@ =~= quoted(s@));
    out
}

/// Append the text of `v`.
pub fn push_json(out: &mut String, v: &JsonVal)
    ensures
        final(out)@ == old(out)@ + json_text(v.model()),
    decreases v,
{
    proof {
        lemma_json_model_parts(*v);
    }
    match v {
        JsonVal::Null => {
            string_push(out, 'n');
            string_push(out, 'u');
            string_push(out, 'l');
            string_push(out, 'l');
        },
        JsonVal::Bool(b) => {
            if *b {
                string_push(out, 't');
                string_push(out, 'r');
                string_push(out, 'u');
                string_push(out, 'e');
            } else {
                string_push(out, 'f');
                string_push(out, 'a');
                string_push(out, 'l');
                string_push(out, 's');
                string_push(out, 'e');
            }
        },
        JsonVal::Number(n) => {
            let t = i64_to_string(*n);
            push_str(out, t.as_str());
        },
        JsonVal::FloatText(t) => {
            push_str(out, t.as_str());
        },
        JsonVal::Float(bits) => {
            let mut t = String::new();
            string_push(&mut t, 'f');
            string_push(&mut t, 'l');
            string_push(&mut t, 'o');
            string_push(&mut t, 'a');
            string_push(&mut t, 't');
            string_push(&mut t, ':');
            push_decimal(&mut t, *bits);
            assert(t@ =~= seq!['f', 'l', 'o', 'a', 't', ':'] + decimal(*bits as nat));
            push_quoted(out, t.as_str());
        },
        JsonVal::Str(s) => {
            push_quoted(out, s.as_str());
        },
        JsonVal::BytesHex(h) => {
            let ghost start = out@;
            string_push(out, '{');
            string_push(out, '"');
            string_push(out, '_');
            string_push(out, '_');
            string_push(out, 'b');
            string_push(out, 'y');
            string_push(out, 't');
            string_push(out, 'e');
            string_push(out, 's');
            string_push(out, '"');
            string_push(out, ':');
            assert(out@ =~= start + seq!['{', '"', '_', '_', 'b', 'y', 't', 'e', 's', '"', ':']);
            push_quoted(out, h.as_str());
            string_push(out, '}');
        },
        JsonVal::Array(items) => {
            string_push(out, '[');
            push_items(out, items);
            string_push(out, ']');
            assert(out@ =~= old(out)@ + json_text(v.model()));
        },
        JsonVal::Object(ms) => {
            string_push(out, '{');
            push_members(out, ms);
            string_push(out, '}');
            assert(out@ =~= old(out)@ + json_text(v.model()));
        },
    }
}

/// Append the items' texts joined by `", "`.
fn push_items(out: &mut String, items: &Vec<JsonVal>)
    ensures
        final(out)@ == old(out)@ + join_texts(part_texts(JsonModel::Array(json_models(items@)))),
    decreases items,
{
    let ghost start = out@;
    let ghost texts = part_texts(JsonModel::Array(json_models(items@)));
    let mut i: usize = 0;
    assert(texts.take(0) =~= Seq::<Seq<char>>::empty());
    while i < items.len()
        invariant
            i <= items@.len(),
            texts == part_texts(JsonModel::Array(json_models(items@))),
            texts.len() == items@.len(),
            out@ == start + join_texts(texts.take(i as int)),
        decreases items@.len() - i,
    {
        if i > 0 {
            push_two(out, ',', ' ');
        }
        assert(decreases_to!(items => items@[i as int]));
        push_json(out, &items[i]);
        assert(texts[i as int] == json_text(items@[i as int].model()));
        assert(texts.take(i + 1).drop_last() =~= texts.take(i as int));
        assert(out@ =~= start + join_texts(texts.take(i + 1)));
        i = i + 1;
    }
    assert(texts.take(i as int) =~= texts);
}

/// Append the members' texts joined by `", "`.
fn push_members(out: &mut String, ms: &Vec<(String, JsonVal)>)
    ensures
        final(out)@ == old(out)@ + join_texts(part_texts(JsonModel::Object(member_models(ms@)))),
    decreases ms,
{
    let ghost start = out@;
    let ghost texts = part_texts(JsonModel::Object(member_models(ms@)));
    let mut i: usize = 0;
    assert(texts.take(0) =~= Seq::<Seq<char>>::empty());
    while i < ms.len()
        invariant
            i <= ms@.len(),
            texts == part_texts(JsonModel::Object(member_models(ms@))),
            texts.len() == ms@.len(),
            out@ == start + join_texts(texts.take(i as int)),
        decreases ms@.len() - i,
    {
        if i > 0 {
            push_two(out, ',', ' ');
        }
        let ghost mid = out@;
        push_quoted(out, ms[i].0.as_str());
        push_two(out, ':', ' ');
        assert(decreases_to!(ms => ms@[i as int]));
        assert(decreases_to!(ms@[i as int] => ms@[i as int].1));
        push_json(out, &ms[i].1);
        assert(texts[i as int] == quoted(ms@[i as int].0@) + seq![':', ' '] + json_text(ms@[i as int].1.model()));
        assert(out@ =~= mid + texts[i as int]);
        assert(texts.take(i + 1).drop_last() =~= texts.take(i as int));
        assert(out@ =~= start + join_texts(texts.take(i + 1)));
        i = i + 1;
    }
    assert(texts.take(i as int) =~= texts);
}

/// The text of a document.
pub fn render_json(v: &JsonVal) -> (s: String)
    ensures
        s@ == json_text(v.model()),
{
    let mut out = String::new();
    push_json(&mut out, v);
    assert(out@ =~= json_text(v.model()));
    out
}

} // verus!
