//! AlefQL: the query language, its tokens and its grammar.

use vstd::prelude::*;
use crate::errors::text;
use crate::export::{FloatBits, bits_model, bits_for};
use crate::json::{
    is_json_ws, is_digit, digits_end, int_of, lemma_digits_end, is_ws_char, is_digit_char, digits_end_at,
    sub_string, parse_int,
};
use crate::path::DbPath;
use crate::strings::{chars_of, string_push};
use crate::value::{Scalar, ScalarModel, Value, ValueModel};
use crate::fmt::{decimal_i, i64_to_string};

verus! {

#[derive(Debug, Clone, Copy, PartialEq, Eq, Structural)]
pub enum CmpOp {
    Eq,
    Ne,
    Lt,
    Le,
    Gt,
    Ge,
}

#[derive(Debug)]
pub enum Predicate {
    PathGlob(String),
    TypeName(String),
    NameGlob(String),
    ValueCmp(CmpOp, Scalar),
    HasKey(String),
    Contains(Value),
    AtIndex(u64, CmpOp, Scalar),
    KeyCmp(CmpOp, Scalar),
    SizeCmp(CmpOp, i64),
}

#[derive(Debug)]
pub enum Expr {
    And(Box<Expr>, Box<Expr>),
    Or(Box<Expr>, Box<Expr>),
    Not(Box<Expr>),
    Pred(Predicate),
}

/// A match of a query: the path and the type name of what is there.
#[derive(Debug, PartialEq, Eq)]
pub struct QueryHit {
    pub path: DbPath,
    pub typename: String,
}

/// A query that does not parse.
#[derive(Debug, PartialEq, Eq)]
pub struct ParseError {
    pub message: String,
}

pub enum PredModel {
    PathGlob(Seq<char>),
    TypeName(Seq<char>),
    NameGlob(Seq<char>),
    ValueCmp(CmpOp, ScalarModel),
    HasKey(Seq<char>),
    Contains(ValueModel),
    AtIndex(u64, CmpOp, ScalarModel),
    KeyCmp(CmpOp, ScalarModel),
    SizeCmp(CmpOp, i64),
}

pub enum ExprModel {
    And(Box<ExprModel>, Box<ExprModel>),
    Or(Box<ExprModel>, Box<ExprModel>),
    Not(Box<ExprModel>),
    Pred(PredModel),
}

impl Predicate {
    pub open spec fn model(&self) -> PredModel {
        match self {
            Predicate::PathGlob(s) => PredModel::PathGlob(s@),
            Predicate::TypeName(s) => PredModel::TypeName(s@),
            Predicate::NameGlob(s) => PredModel::NameGlob(s@),
            Predicate::ValueCmp(op, s) => PredModel::ValueCmp(*op, s.model()),
            Predicate::HasKey(s) => PredModel::HasKey(s@),
            Predicate::Contains(v) => PredModel::Contains(v.model()),
            Predicate::AtIndex(i, op, s) => PredModel::AtIndex(*i, *op, s.model()),
            Predicate::KeyCmp(op, s) => PredModel::KeyCmp(*op, s.model()),
            Predicate::SizeCmp(op, n) => PredModel::SizeCmp(*op, *n),
        }
    }
}

impl Expr {
    pub open spec fn model(&self) -> ExprModel
        decreases self,
    {
        match self {
            Expr::And(a, b) => ExprModel::And(Box::new(a.model()), Box::new(b.model())),
            Expr::Or(a, b) => ExprModel::Or(Box::new(a.model()), Box::new(b.model())),
            Expr::Not(a) => ExprModel::Not(Box::new(a.model())),
            Expr::Pred(p) => ExprModel::Pred(p.model()),
        }
    }
}

impl ParseError {
    /// The text the error displays as.
    pub fn message_text(&self) -> (s: String)
        ensures
            s@ == "parse error: "@ + self.message@,
    {
        let mut s = text("parse error: ");
        s.append(self.message.as_str());
        s
    }
}

// ---------------------------------------------------------------------------
// Tokens

/// A token. A number with a fraction keeps its text and the bits the host
/// gave for it.
#[derive(Debug)]
pub enum Tok {
    Ident(String),
    Str(String),
    Int(i64),
    Float(String, u64),
    Op(String),
    LParen,
    RParen,
}

pub enum TokModel {
    Ident(Seq<char>),
    Str(Seq<char>),
    Int(i64),
    Float(Seq<char>, u64),
    Op(Seq<char>),
    LParen,
    RParen,
}

impl Tok {
    pub open spec fn model(&self) -> TokModel {
        match self {
            Tok::Ident(s) => TokModel::Ident(s@),
            Tok::Str(s) => TokModel::Str(s@),
            Tok::Int(n) => TokModel::Int(*n),
            Tok::Float(t, b) => TokModel::Float(t@, *b),
            Tok::Op(s) => TokModel::Op(s@),
            Tok::LParen => TokModel::LParen,
            Tok::RParen => TokModel::RParen,
        }
    }
}

pub open spec fn tok_models(ts: Seq<Tok>) -> Seq<TokModel> {
    Seq::new(ts.len(), |i: int| ts[i].model())
}

pub open spec fn is_ascii_alpha(c: char) -> bool {
    ('a' <= c && c <= 'z') || ('A' <= c && c <= 'Z')
}

pub open spec fn is_ident_start(c: char) -> bool {
    is_ascii_alpha(c) || c == '_' || c == '*' || c == '?'
}

pub open spec fn is_ident_char(c: char) -> bool {
    is_ascii_alpha(c) || is_digit(c) || c == '_' || c == '*' || c == '?' || c == '.' || c == '-'
}

pub open spec fn is_path_char(c: char) -> bool {
    !is_json_ws(c) && c != '(' && c != ')'
}

/// The end of a run of characters that satisfy `f`, from `i`.
pub open spec fn run_end(s: Seq<char>, i: int, f: spec_fn(char) -> bool) -> int
    decreases s.len() - i,
{
    if 0 <= i < s.len() && f(s[i]) {
        run_end(s, i + 1, f)
    } else {
        i
    }
}

pub proof fn lemma_run_end(s: Seq<char>, i: int, f: spec_fn(char) -> bool)
    requires
        0 <= i <= s.len(),
    ensures
        i <= run_end(s, i, f) <= s.len(),
    decreases s.len() - i,
{
    if i < s.len() && f(s[i]) {
        lemma_run_end(s, i + 1, f);
    }
}

/// The rest of a quoted string from `i` (after the opening quote): its
/// characters, with `\x` standing for `x`, and the position after the
/// closing quote.
pub open spec fn q_string(s: Seq<char>, i: int, acc: Seq<char>) -> Result<(Seq<char>, int), Seq<char>>
    decreases s.len() - i,
{
    if i < 0 || i >= s.len() {
        Err("unterminated string"@)
    } else if s[i] == '"' {
        Ok((acc, i + 1))
    } else if s[i] == '\\' && i + 1 < s.len() {
        q_string(s, i + 2, acc.push(s[i + 1]))
    } else {
        q_string(s, i + 1, acc.push(s[i]))
    }
}

/// A number token from `i`: an integer, or a float whose bits `b` records.
pub open spec fn q_number(s: Seq<char>, i: int, b: Seq<(Seq<char>, u64)>) -> Result<(TokModel, int), Seq<char>> {
    let j = if 0 <= i < s.len() && s[i] == '-' {
        i + 1
    } else {
        i
    };
    let k = digits_end(s, j);
    if 0 <= k < s.len() && s[k] == '.' {
        let m = digits_end(s, k + 1);
        let t = s.subrange(i, m);
        match bits_for(b, t) {
            Some(bits) => Ok((TokModel::Float(t, bits), m)),
            None => Err("bad float "@ + t),
        }
    } else {
        let t = s.subrange(i, k);
        match int_of(t) {
            Some(n) => Ok((TokModel::Int(n), k)),
            None => Err("bad int "@ + t),
        }
    }
}

/// The next token starting at `i` (not white space), and where it ends.
pub open spec fn q_token(s: Seq<char>, i: int, b: Seq<(Seq<char>, u64)>) -> Result<(TokModel, int), Seq<char>> {
    let c = s[i];
    if c == '(' {
        Ok((TokModel::LParen, i + 1))
    } else if c == ')' {
        Ok((TokModel::RParen, i + 1))
    } else if c == '"' {
        match q_string(s, i + 1, Seq::empty()) {
            Err(e) => Err(e),
            Ok((t, j)) => Ok((TokModel::Str(t), j)),
        }
    } else if c == '=' || c == '!' || c == '<' || c == '>' {
        if i + 1 < s.len() && s[i + 1] == '=' {
            Ok((TokModel::Op(seq![c, '=']), i + 2))
        } else {
            Ok((TokModel::Op(seq![c]), i + 1))
        }
    } else if c == '/' {
        let j = run_end(s, i, |ch: char| is_path_char(ch));
        Ok((TokModel::Ident(s.subrange(i, j)), j))
    } else if c == '-' || is_digit(c) {
        q_number(s, i, b)
    } else if is_ident_start(c) {
        let j = run_end(s, i, |ch: char| is_ident_char(ch));
        Ok((TokModel::Ident(s.subrange(i, j)), j))
    } else {
        Err("unexpected char "@ + seq![c])
    }
}

/// The tokens of `s` from position `i` on.
pub open spec fn q_tokens(s: Seq<char>, i: int, b: Seq<(Seq<char>, u64)>) -> Result<Seq<TokModel>, Seq<char>>
    decreases s.len() - i,
{
    if i < 0 || i >= s.len() {
        Ok(Seq::empty())
    } else if is_json_ws(s[i]) {
        q_tokens(s, i + 1, b)
    } else {
        match q_token(s, i, b) {
            Err(e) => Err(e),
            Ok((t, j)) => if j <= i || j > s.len() {
                Err(Seq::empty())
            } else {
                match q_tokens(s, j, b) {
                    Err(e) => Err(e),
                    Ok(rest) => Ok(seq![t] + rest),
                }
            },
        }
    }
}

fn is_ident_start_exec(c: char) -> (r: bool)
    ensures
        r == is_ident_start(c),
{
    ('a' <= c && c <= 'z') || ('A' <= c && c <= 'Z') || c == '_' || c == '*' || c == '?'
}

fn is_ident_char_exec(c: char) -> (r: bool)
    ensures
        r == is_ident_char(c),
{
    ('a' <= c && c <= 'z') || ('A' <= c && c <= 'Z') || ('0' <= c && c <= '9') || c == '_' || c == '*'
        || c == '?' || c == '.' || c == '-'
}

fn is_path_char_exec(c: char) -> (r: bool)
    ensures
        r == is_path_char(c),
{
    !is_ws_char(c) && c != '(' && c != ')'
}

fn path_end_at(s: &Vec<char>, i: usize) -> (j: usize)
    requires
        i <= s@.len(),
    ensures
        j == run_end(s@, i as int, |ch: char| is_path_char(ch)),
        i <= j <= s@.len(),
{
    let mut j = i;
    while j < s.len() && is_path_char_exec(s[j])
        invariant
            i <= j <= s@.len(),
            run_end(s@, i as int, |ch: char| is_path_char(ch)) == run_end(s@, j as int, |ch: char| is_path_char(ch)),
        decreases s@.len() - j,
    {
        j = j + 1;
    }
    j
}

fn ident_end_at(s: &Vec<char>, i: usize) -> (j: usize)
    requires
        i <= s@.len(),
    ensures
        j == run_end(s@, i as int, |ch: char| is_ident_char(ch)),
        i <= j <= s@.len(),
{
    let mut j = i;
    while j < s.len() && is_ident_char_exec(s[j])
        invariant
            i <= j <= s@.len(),
            run_end(s@, i as int, |ch: char| is_ident_char(ch)) == run_end(s@, j as int, |ch: char| is_ident_char(ch)),
        decreases s@.len() - j,
    {
        j = j + 1;
    }
    j
}

fn lookup_bits_chars(b: &FloatBits, t: &String) -> (r: Option<u64>)
    ensures
        r == bits_for(bits_model(b@), t@),
{
    let ghost bm = bits_model(b@);
    let mut i: usize = 0;
    assert(bm.skip(0) =~= bm);
    while i < b.len()
        invariant
            i <= b@.len(),
            bm == bits_model(b@),
            bits_for(bm, t@) == bits_for(bm.skip(i as int), t@),
        decreases b@.len() - i,
    {
        assert(bm.skip(i as int)[0] == bm[i as int]);
        assert(bm.skip(i as int).drop_first() =~= bm.skip(i + 1));
        if crate::order::compare_str(b[i].0.as_str(), t.as_str()) == crate::order::Order::Equal {
            return Some(b[i].1);
        }
        i = i + 1;
    }
    None
}

fn prefixed(p: &str, t: &String) -> (r: String)
    ensures
        r@ == p@ + t@,
{
    let mut r = text(p);
    r.append(t.as_str());
    r
}

fn scan_token(s: &Vec<char>, i: usize, b: &FloatBits) -> (r: Result<(Tok, usize), String>)
    requires
        i < s@.len(),
        !is_json_ws(s@[i as int]),
    ensures
        match q_token(s@, i as int, bits_model(b@)) {
            Ok((t, k)) => r matches Ok((x, j)) && x.model() == t && j == k && i < j <= s@.len(),
            Err(e) => r matches Err(m) && m@ == e,
        },
{
    let n = s.len();
    assert(i < n);
    let c = s[i];
    if c == '(' {
        return Ok((Tok::LParen, i + 1));
    }
    if c == ')' {
        return Ok((Tok::RParen, i + 1));
    }
    if c == '"' {
        let mut out = String::new();
        let mut k = i + 1;
        while k < s.len()
            invariant
                i + 1 <= k <= s@.len(),
                i < s@.len(),
                s@[i as int] == '"',
                q_string(s@, i + 1, Seq::empty()) == q_string(s@, k as int, out@),
            decreases s@.len() - k,
        {
            if s[k] == '"' {
                return Ok((Tok::Str(out), k + 1));
            }
            if s[k] == '\\' && k + 1 < s.len() {
                string_push(&mut out, s[k + 1]);
                k = k + 2;
            } else {
                string_push(&mut out, s[k]);
                k = k + 1;
            }
        }
        return Err(text("unterminated string"));
    }
    if c == '=' || c == '!' || c == '<' || c == '>' {
        let mut op = String::new();
        string_push(&mut op, c);
        if i + 1 < s.len() && s[i + 1] == '=' {
            string_push(&mut op, '=');
            assert(op@ =~= seq![c, '=']);
            return Ok((Tok::Op(op), i + 2));
        }
        assert(op@ =~= seq![c]);
        return Ok((Tok::Op(op), i + 1));
    }
    if c == '/' {
        proof {
            lemma_run_end(s@, i + 1, |ch: char| is_path_char(ch));
        }
        let j = path_end_at(s, i);
        return Ok((Tok::Ident(sub_string(s, i, j)), j));
    }
    if c == '-' || is_digit_char(c) {
        let j = if c == '-' {
            i + 1
        } else {
            i
        };
        let k = digits_end_at(s, j);
        proof {
            lemma_digits_end(s@, j as int);
        }
        if k < s.len() && s[k] == '.' {
            let m = digits_end_at(s, k + 1);
            let t = sub_string(s, i, m);
            return match lookup_bits_chars(b, &t) {
                Some(bits) => Ok((Tok::Float(t, bits), m)),
                None => Err(prefixed("bad float ", &t)),
            };
        }
        let t = sub_string(s, i, k);
        return match parse_int(s, i, k) {
            Some(n) => Ok((Tok::Int(n), k)),
            None => Err(prefixed("bad int ", &t)),
        };
    }
    if is_ident_start_exec(c) {
        proof {
            lemma_run_end(s@, i + 1, |ch: char| is_ident_char(ch));
        }
        let j = ident_end_at(s, i);
        return Ok((Tok::Ident(sub_string(s, i, j)), j));
    }
    let mut m = text("unexpected char ");
    string_push(&mut m, c);
    Err(m)
}

pub open spec fn prepend_all(acc: Seq<TokModel>, r: Result<Seq<TokModel>, Seq<char>>) -> Result<Seq<TokModel>, Seq<char>> {
    match r {
        Ok(rest) => Ok(acc + rest),
        Err(e) => Err(e),
    }
}

/// The tokens of a query; floats take their bits from `b`.
pub fn tokenize(input: &str, b: &FloatBits) -> (r: Result<Vec<Tok>, ParseError>)
    ensures
        match q_tokens(input@, 0, bits_model(b@)) {
            Ok(ts) => r matches Ok(v) && tok_models(v@) == ts,
            Err(e) => r matches Err(x) && x.message@ == e,
        },
{
    let s = chars_of(input);
    let mut out: Vec<Tok> = Vec::new();
    let mut i: usize = 0;
    assert(tok_models(out@) =~= Seq::<TokModel>::empty());
    assert(Seq::<TokModel>::empty() + q_tokens(s@, 0, bits_model(b@))->Ok_0 =~= q_tokens(s@, 0, bits_model(b@))->Ok_0);
    while i < s.len()
        invariant
            i <= s@.len(),
            s@ == input@,
            q_tokens(s@, 0, bits_model(b@)) == prepend_all(tok_models(out@), q_tokens(s@, i as int, bits_model(b@))),
        decreases s@.len() - i,
    {
        if is_ws_char(s[i]) {
            i = i + 1;
        } else {
            match scan_token(&s, i, b) {
                Ok((t, j)) => {
                    let ghost before = tok_models(out@);
                    let ghost tm = t.model();
                    let ghost rest = q_tokens(s@, j as int, bits_model(b@));
                    out.push(t);
                    assert(tok_models(out@) =~= before.push(tm));
                    proof {
                        if rest is Ok {
                            assert(before + (seq![tm] + rest->Ok_0) =~= before.push(tm) + rest->Ok_0);
                        }
                    }
                    i = j;
                },
                Err(m) => {
                    return Err(ParseError { message: m });
                },
            }
        }
    }
    assert(tok_models(out@) + Seq::<TokModel>::empty() =~= tok_models(out@));
    Ok(out)
}

// ---------------------------------------------------------------------------
// How tokens are shown in messages

/// A character as it appears inside a quoted debug string.
pub open spec fn debug_char(c: char) -> Seq<char> {
    if c == '\\' {
        seq!['\\', '\\']
    } else if c == '"' {
        seq!['\\', '"']
    } else if c == '\n' {
        seq!['\\', 'n']
    } else if c == '\r' {
        seq!['\\', 'r']
    } else if c == '\t' {
        seq!['\\', 't']
    } else if c == '\0' {
        seq!['\\', '0']
    } else {
        seq![c]
    }
}

pub open spec fn debug_escape(s: Seq<char>) -> Seq<char>
    decreases s.len(),
{
    if s.len() == 0 {
        Seq::empty()
    } else {
        debug_escape(s.drop_last()) + debug_char(s.last())
    }
}

pub open spec fn debug_quoted(s: Seq<char>) -> Seq<char> {
    seq!['"'] + debug_escape(s) + seq!['"']
}

/// A token in the debug notation that parse errors quote it in.
pub open spec fn debug_tok(t: TokModel) -> Seq<char> {
    match t {
        TokModel::Ident(s) => "Ident("@ + debug_quoted(s) + ")"@,
        TokModel::Str(s) => "String("@ + debug_quoted(s) + ")"@,
        TokModel::Int(n) => "Int("@ + decimal_i(n as int) + ")"@,
        TokModel::Float(t, _) => "Float("@ + t + ")"@,
        TokModel::Op(s) => "Op("@ + debug_quoted(s) + ")"@,
        TokModel::LParen => "LParen"@,
        TokModel::RParen => "RParen"@,
    }
}

/// The token at `i`, shown as an optional value.
pub open spec fn debug_at(ts: Seq<TokModel>, i: int) -> Seq<char> {
    if 0 <= i < ts.len() {
        "Some("@ + debug_tok(ts[i]) + ")"@
    } else {
        "None"@
    }
}

fn push_debug_quoted(out: &mut String, s: &String)
    ensures
        final(out)@ == old(out)@ + debug_quoted(s@),
{
    let cs = chars_of(s.as_str());
    let ghost start = out@;
    string_push(out, '"');
    let mut i: usize = 0;
    assert(cs@.take(0) =~= Seq::<char>::empty());
    while i < cs.len()
        invariant
            i <= cs@.len(),
            cs@ == s@,
            out@ == start + seq!['"'] + debug_escape(cs@.take(i as int)),
        decreases cs@.len() - i,
    {
        let c = cs[i];
        assert(cs@.take(i + 1).drop_last() =~= cs@.take(i as int));
        assert(cs@.take(i + 1).last() == c);
        let ghost before = out@;
        if c == '\\' {
            string_push(out, '\\');
            string_push(out, '\\');
        } else if c == '"' {
            string_push(out, '\\');
            string_push(out, '"');
        } else if c == '\n' {
            string_push(out, '\\');
            string_push(out, 'n');
        } else if c == '\r' {
            string_push(out, '\\');
            string_push(out, 'r');
        } else if c == '\t' {
            string_push(out, '\\');
            string_push(out, 't');
        } else if c == '\0' {
            string_push(out, '\\');
            string_push(out, '0');
        } else {
            string_push(out, c);
        }
        assert(out@ =~= before + debug_char(c));
        assert(out@ =~= start + seq!['"'] + debug_escape(cs@.take(i + 1)));
        i = i + 1;
    }
    assert(cs@.take(i as int) =~= cs@);
    string_push(out, '"');
    assert(out@ =~= old(out)@ + debug_quoted(s@));
}

fn debug_tok_text(t: &Tok) -> (r: String)
    ensures
        r@ == debug_tok(t.model()),
{
    match t {
        Tok::Ident(s) => {
            let mut r = text("Ident(");
            push_debug_quoted(&mut r, s);
            r.append(")");
            r
        },
        Tok::Str(s) => {
            let mut r = text("String(");
            push_debug_quoted(&mut r, s);
            r.append(")");
            r
        },
        Tok::Int(n) => {
            let mut r = text("Int(");
            r.append(i64_to_string(*n).as_str());
            r.append(")");
            r
        },
        Tok::Float(lit, _) => {
            let mut r = text("Float(");
            r.append(lit.as_str());
            r.append(")");
            r
        },
        Tok::Op(s) => {
            let mut r = text("Op(");
            push_debug_quoted(&mut r, s);
            r.append(")");
            r
        },
        Tok::LParen => text("LParen"),
        Tok::RParen => text("RParen"),
    }
}

fn debug_at_text(ts: &Vec<Tok>, i: usize) -> (r: String)
    ensures
        r@ == debug_at(tok_models(ts@), i as int),
{
    if i < ts.len() {
        let mut r = text("Some(");
        r.append(debug_tok_text(&ts[i]).as_str());
        r.append(")");
        r
    } else {
        text("None")
    }
}

fn fail_got(what: &str, ts: &Vec<Tok>, i: usize) -> (e: ParseError)
    ensures
        e.message@ == what@ + debug_at(tok_models(ts@), i as int),
{
    let mut m = text(what);
    m.append(debug_at_text(ts, i).as_str());
    ParseError { message: m }
}

// ---------------------------------------------------------------------------
// Grammar

pub open spec fn is_ident(t: TokModel, w: Seq<char>) -> bool {
    t matches TokModel::Ident(s) && s == w
}

/// `Str` or `Ident`.
pub open spec fn q_string_like(ts: Seq<TokModel>, i: int) -> Result<(Seq<char>, int), Seq<char>> {
    if 0 <= i < ts.len() && (ts[i] is Str || ts[i] is Ident) {
        Ok((
            match ts[i] {
                TokModel::Str(s) => s,
                TokModel::Ident(s) => s,
                _ => Seq::empty(),
            },
            i + 1,
        ))
    } else {
        Err("expected string, got "@ + debug_at(ts, i))
    }
}

pub open spec fn q_path_like(ts: Seq<TokModel>, i: int) -> Result<(Seq<char>, int), Seq<char>> {
    if 0 <= i < ts.len() && (ts[i] is Str || ts[i] is Ident || (ts[i] matches TokModel::Op(s) && s.len()
        > 0 && s[0] == '/')) {
        Ok((
            match ts[i] {
                TokModel::Str(s) => s,
                TokModel::Ident(s) => s,
                TokModel::Op(s) => s,
                _ => Seq::empty(),
            },
            i + 1,
        ))
    } else {
        Err("expected path, got "@ + debug_at(ts, i))
    }
}

pub open spec fn comparator_of(s: Seq<char>) -> Option<CmpOp> {
    if s == seq!['='] {
        Some(CmpOp::Eq)
    } else if s == seq!['!', '='] {
        Some(CmpOp::Ne)
    } else if s == seq!['<'] {
        Some(CmpOp::Lt)
    } else if s == seq!['<', '='] {
        Some(CmpOp::Le)
    } else if s == seq!['>'] {
        Some(CmpOp::Gt)
    } else if s == seq!['>', '='] {
        Some(CmpOp::Ge)
    } else {
        None
    }
}

pub open spec fn q_comparator(ts: Seq<TokModel>, i: int) -> Result<(CmpOp, int), Seq<char>> {
    if 0 <= i < ts.len() && ts[i] is Op {
        match comparator_of(ts[i]->Op_0) {
            Some(op) => Ok((op, i + 1)),
            None => Err("bad cmp "@ + ts[i]->Op_0),
        }
    } else {
        Err("expected comparator, got "@ + debug_at(ts, i))
    }
}

pub open spec fn q_scalar(ts: Seq<TokModel>, i: int) -> Result<(ScalarModel, int), Seq<char>> {
    if 0 <= i < ts.len() {
        match ts[i] {
            TokModel::Str(s) => Ok((ScalarModel::Str(s), i + 1)),
            TokModel::Int(n) => Ok((ScalarModel::Int(n), i + 1)),
            TokModel::Float(_, bits) => Ok((ScalarModel::Float(bits), i + 1)),
            TokModel::Ident(s) => Ok((
                if s == seq!['n', 'u', 'l', 'l'] {
                    ScalarModel::Null
                } else if s == seq!['t', 'r', 'u', 'e'] {
                    ScalarModel::Bool(true)
                } else if s == seq!['f', 'a', 'l', 's', 'e'] {
                    ScalarModel::Bool(false)
                } else {
                    ScalarModel::Str(s)
                },
                i + 1,
            )),
            _ => Err("expected scalar, got "@ + debug_at(ts, i)),
        }
    } else {
        Err("expected scalar, got "@ + debug_at(ts, i))
    }
}

pub open spec fn q_int(ts: Seq<TokModel>, i: int) -> Result<(i64, int), Seq<char>> {
    if 0 <= i < ts.len() && ts[i] is Int {
        Ok((ts[i]->Int_0, i + 1))
    } else {
        Err("expected int, got "@ + debug_at(ts, i))
    }
}

pub open spec fn q_comparison(ts: Seq<TokModel>, i: int) -> Result<(CmpOp, ScalarModel, int), Seq<char>> {
    match q_comparator(ts, i) {
        Err(e) => Err(e),
        Ok((op, j)) => match q_scalar(ts, j) {
            Err(e) => Err(e),
            Ok((s, k)) => Ok((op, s, k)),
        },
    }
}

pub open spec fn q_predicate(ts: Seq<TokModel>, i: int) -> Result<(PredModel, int), Seq<char>> {
    if !(0 <= i < ts.len() && ts[i] is Ident) {
        Err("expected predicate, got "@ + debug_at(ts, i))
    } else {
        let name = ts[i]->Ident_0;
        let j = i + 1;
        if name == "path"@ {
            match q_path_like(ts, j) {
                Err(e) => Err(e),
                Ok((s, k)) => Ok((PredModel::PathGlob(s), k)),
            }
        } else if name == "type"@ {
            match q_string_like(ts, j) {
                Err(e) => Err(e),
                Ok((s, k)) => Ok((PredModel::TypeName(s), k)),
            }
        } else if name == "name"@ {
            match q_string_like(ts, j) {
                Err(e) => Err(e),
                Ok((s, k)) => Ok((PredModel::NameGlob(s), k)),
            }
        } else if name == "value"@ {
            match q_comparison(ts, j) {
                Err(e) => Err(e),
                Ok((op, s, k)) => Ok((PredModel::ValueCmp(op, s), k)),
            }
        } else if name == "has"@ {
            match q_string_like(ts, j) {
                Err(e) => Err(e),
                Ok((s, k)) => Ok((PredModel::HasKey(s), k)),
            }
        } else if name == "contains"@ {
            match q_scalar(ts, j) {
                Err(e) => Err(e),
                Ok((s, k)) => Ok((PredModel::Contains(ValueModel::Scalar(s)), k)),
            }
        } else if name == "at"@ {
            match q_int(ts, j) {
                Err(e) => Err(e),
                Ok((n, k)) => if n < 0 {
                    Err("index must be >= 0"@)
                } else {
                    match q_comparison(ts, k) {
                        Err(e) => Err(e),
                        Ok((op, s, m)) => Ok((PredModel::AtIndex(n as u64, op, s), m)),
                    }
                },
            }
        } else if name == "key"@ {
            match q_comparison(ts, j) {
                Err(e) => Err(e),
                Ok((op, s, k)) => Ok((PredModel::KeyCmp(op, s), k)),
            }
        } else if name == "size"@ {
            match q_comparator(ts, j) {
                Err(e) => Err(e),
                Ok((op, k)) => match q_int(ts, k) {
                    Err(e) => Err(e),
                    Ok((n, m)) => Ok((PredModel::SizeCmp(op, n), m)),
                },
            }
        } else {
            Err("unknown predicate "@ + name)
        }
    }
}

/// `term ((AND | OR) term)*`, grouping to the left.
pub open spec fn q_expr(ts: Seq<TokModel>, i: int) -> Result<(ExprModel, int), Seq<char>>
    decreases ts.len() - i, 2int,
{
    match q_term(ts, i) {
        Err(e) => Err(e),
        Ok((left, j)) => if j <= i || j > ts.len() {
            Err(Seq::empty())
        } else {
            q_expr_rest(ts, j, left)
        },
    }
}

pub open spec fn q_expr_rest(ts: Seq<TokModel>, j: int, left: ExprModel) -> Result<(ExprModel, int), Seq<char>>
    decreases ts.len() - j, 3int,
{
    if 0 <= j < ts.len() && (is_ident(ts[j], "AND"@) || is_ident(ts[j], "OR"@)) {
        match q_term(ts, j + 1) {
            Err(e) => Err(e),
            Ok((right, k)) => if k <= j || k > ts.len() {
                Err(Seq::empty())
            } else {
                q_expr_rest(
                    ts,
                    k,
                    if is_ident(ts[j], "AND"@) {
                        ExprModel::And(Box::new(left), Box::new(right))
                    } else {
                        ExprModel::Or(Box::new(left), Box::new(right))
                    },
                )
            },
        }
    } else {
        Ok((left, j))
    }
}

/// `NOT primary`, or a primary.
pub open spec fn q_term(ts: Seq<TokModel>, i: int) -> Result<(ExprModel, int), Seq<char>>
    decreases ts.len() - i, 1int,
{
    if 0 <= i < ts.len() && is_ident(ts[i], "NOT"@) {
        match q_primary(ts, i + 1) {
            Err(e) => Err(e),
            Ok((e, j)) => Ok((ExprModel::Not(Box::new(e)), j)),
        }
    } else {
        q_primary(ts, i)
    }
}

/// `( expr )`, or a predicate.
pub open spec fn q_primary(ts: Seq<TokModel>, i: int) -> Result<(ExprModel, int), Seq<char>>
    decreases ts.len() - i, 0int,
{
    if 0 <= i < ts.len() && ts[i] is LParen {
        match q_expr(ts, i + 1) {
            Err(e) => Err(e),
            Ok((e, j)) => if 0 <= j < ts.len() && ts[j] is RParen {
                Ok((e, j + 1))
            } else {
                Err("expected )"@)
            },
        }
    } else {
        match q_predicate(ts, i) {
            Err(e) => Err(e),
            Ok((p, j)) => Ok((ExprModel::Pred(p), j)),
        }
    }
}

/// What `parse_query` gives for a token sequence.
pub open spec fn q_parse(ts: Seq<TokModel>) -> Result<ExprModel, Seq<char>> {
    match q_expr(ts, 0) {
        Err(e) => Err(e),
        Ok((e, j)) => if j < ts.len() {
            Err("unexpected token "@ + debug_at(ts, j))
        } else {
            Ok(e)
        },
    }
}

/// What `parse_query` gives for a query text.
pub open spec fn spec_parse_query(input: Seq<char>, b: Seq<(Seq<char>, u64)>) -> Result<ExprModel, Seq<char>> {
    match q_tokens(input, 0, b) {
        Err(e) => Err(e),
        Ok(ts) => q_parse(ts),
    }
}

// ---------------------------------------------------------------------------
// Parser

fn err(m: &str) -> (e: ParseError)
    ensures
        e.message@ == m@,
{
    ParseError { message: text(m) }
}

fn ident_is(t: &Tok, w: &str) -> (r: bool)
    ensures
        r == is_ident(t.model(), w@),
{
    match t {
        Tok::Ident(s) => crate::order::compare_str(s.as_str(), w) == crate::order::Order::Equal,
        _ => false,
    }
}

fn string_like_at(ts: &Vec<Tok>, i: usize) -> (r: Result<(String, usize), ParseError>)
    ensures
        match q_string_like(tok_models(ts@), i as int) {
            Ok((s, k)) => r matches Ok((x, j)) && x@ == s && j == k,
            Err(e) => r matches Err(x) && x.message@ == e,
        },
{
    if i < ts.len() {
        match &ts[i] {
            Tok::Str(s) => {
                return Ok((s.clone(), i + 1));
            },
            Tok::Ident(s) => {
                return Ok((s.clone(), i + 1));
            },
            _ => {},
        }
    }
    Err(fail_got("expected string, got ", ts, i))
}

fn path_like_at(ts: &Vec<Tok>, i: usize) -> (r: Result<(String, usize), ParseError>)
    ensures
        match q_path_like(tok_models(ts@), i as int) {
            Ok((s, k)) => r matches Ok((x, j)) && x@ == s && j == k,
            Err(e) => r matches Err(x) && x.message@ == e,
        },
{
    if i < ts.len() {
        match &ts[i] {
            Tok::Str(s) => {
                return Ok((s.clone(), i + 1));
            },
            Tok::Ident(s) => {
                return Ok((s.clone(), i + 1));
            },
            Tok::Op(s) => {
                let cs = chars_of(s.as_str());
                if cs.len() > 0 && cs[0] == '/' {
                    return Ok((s.clone(), i + 1));
                }
            },
            _ => {},
        }
    }
    Err(fail_got("expected path, got ", ts, i))
}

fn comparator_at(ts: &Vec<Tok>, i: usize) -> (r: Result<(CmpOp, usize), ParseError>)
    ensures
        match q_comparator(tok_models(ts@), i as int) {
            Ok((op, k)) => r matches Ok((x, j)) && x == op && j == k,
            Err(e) => r matches Err(x) && x.message@ == e,
        },
{
    proof {
        reveal_strlit("=");
        reveal_strlit("!=");
        reveal_strlit("<");
        reveal_strlit("<=");
        reveal_strlit(">");
        reveal_strlit(">=");
        assert("="@ =~= seq!['=']);
        assert("!="@ =~= seq!['!', '=']);
        assert("<"@ =~= seq!['<']);
        assert("<="@ =~= seq!['<', '=']);
        assert(">"@ =~= seq!['>']);
        assert(">="@ =~= seq!['>', '=']);
    }
    if i < ts.len() {
        if let Tok::Op(s) = &ts[i] {
            let o = if crate::order::compare_str(s.as_str(), "=") == crate::order::Order::Equal {
                Some(CmpOp::Eq)
            } else if crate::order::compare_str(s.as_str(), "!=") == crate::order::Order::Equal {
                Some(CmpOp::Ne)
            } else if crate::order::compare_str(s.as_str(), "<") == crate::order::Order::Equal {
                Some(CmpOp::Lt)
            } else if crate::order::compare_str(s.as_str(), "<=") == crate::order::Order::Equal {
                Some(CmpOp::Le)
            } else if crate::order::compare_str(s.as_str(), ">") == crate::order::Order::Equal {
                Some(CmpOp::Gt)
            } else if crate::order::compare_str(s.as_str(), ">=") == crate::order::Order::Equal {
                Some(CmpOp::Ge)
            } else {
                None
            };
            return match o {
                Some(op) => Ok((op, i + 1)),
                None => {
                    let mut m = text("bad cmp ");
                    m.append(s.as_str());
                    Err(ParseError { message: m })
                },
            };
        }
    }
    Err(fail_got("expected comparator, got ", ts, i))
}

fn scalar_at(ts: &Vec<Tok>, i: usize) -> (r: Result<(Scalar, usize), ParseError>)
    ensures
        match q_scalar(tok_models(ts@), i as int) {
            Ok((s, k)) => r matches Ok((x, j)) && x.model() == s && j == k,
            Err(e) => r matches Err(x) && x.message@ == e,
        },
{
    proof {
        reveal_strlit("null");
        reveal_strlit("true");
        reveal_strlit("false");
        assert("null"@ =~= seq!['n', 'u', 'l', 'l']);
        assert("true"@ =~= seq!['t', 'r', 'u', 'e']);
        assert("false"@ =~= seq!['f', 'a', 'l', 's', 'e']);
    }
    if i < ts.len() {
        match &ts[i] {
            Tok::Str(s) => {
                return Ok((Scalar::String(s.clone()), i + 1));
            },
            Tok::Int(n) => {
                return Ok((Scalar::Int(*n), i + 1));
            },
            Tok::Float(_, bits) => {
                return Ok((Scalar::Float(*bits), i + 1));
            },
            Tok::Ident(s) => {
                let v = if crate::order::compare_str(s.as_str(), "null") == crate::order::Order::Equal {
                    Scalar::Null
                } else if crate::order::compare_str(s.as_str(), "true") == crate::order::Order::Equal {
                    Scalar::Bool(true)
                } else if crate::order::compare_str(s.as_str(), "false") == crate::order::Order::Equal {
                    Scalar::Bool(false)
                } else {
                    Scalar::String(s.clone())
                };
                return Ok((v, i + 1));
            },
            _ => {},
        }
    }
    Err(fail_got("expected scalar, got ", ts, i))
}

fn int_at(ts: &Vec<Tok>, i: usize) -> (r: Result<(i64, usize), ParseError>)
    ensures
        match q_int(tok_models(ts@), i as int) {
            Ok((n, k)) => r matches Ok((x, j)) && x == n && j == k,
            Err(e) => r matches Err(x) && x.message@ == e,
        },
{
    if i < ts.len() {
        if let Tok::Int(n) = &ts[i] {
            return Ok((*n, i + 1));
        }
    }
    Err(fail_got("expected int, got ", ts, i))
}

fn comparison_at(ts: &Vec<Tok>, i: usize) -> (r: Result<(CmpOp, Scalar, usize), ParseError>)
    ensures
        match q_comparison(tok_models(ts@), i as int) {
            Ok((op, s, k)) => r matches Ok((x, y, j)) && x == op && y.model() == s && j == k,
            Err(e) => r matches Err(x) && x.message@ == e,
        },
{
    let (op, j) = comparator_at(ts, i)?;
    let (s, k) = scalar_at(ts, j)?;
    Ok((op, s, k))
}

fn predicate_at(ts: &Vec<Tok>, i: usize) -> (r: Result<(Predicate, usize), ParseError>)
    ensures
        match q_predicate(tok_models(ts@), i as int) {
            Ok((p, k)) => r matches Ok((x, j)) && x.model() == p && j == k,
            Err(e) => r matches Err(x) && x.message@ == e,
        },
{
    let name = if i < ts.len() {
        match &ts[i] {
            Tok::Ident(s) => s.clone(),
            _ => {
                return Err(fail_got("expected predicate, got ", ts, i));
            },
        }
    } else {
        return Err(fail_got("expected predicate, got ", ts, i));
    };
    let j = i + 1;
    let n = name.as_str();
    if crate::order::compare_str(n, "path") == crate::order::Order::Equal {
        let (s, k) = path_like_at(ts, j)?;
        Ok((Predicate::PathGlob(s), k))
    } else if crate::order::compare_str(n, "type") == crate::order::Order::Equal {
        let (s, k) = string_like_at(ts, j)?;
        Ok((Predicate::TypeName(s), k))
    } else if crate::order::compare_str(n, "name") == crate::order::Order::Equal {
        let (s, k) = string_like_at(ts, j)?;
        Ok((Predicate::NameGlob(s), k))
    } else if crate::order::compare_str(n, "value") == crate::order::Order::Equal {
        let (op, s, k) = comparison_at(ts, j)?;
        Ok((Predicate::ValueCmp(op, s), k))
    } else if crate::order::compare_str(n, "has") == crate::order::Order::Equal {
        let (s, k) = string_like_at(ts, j)?;
        Ok((Predicate::HasKey(s), k))
    } else if crate::order::compare_str(n, "contains") == crate::order::Order::Equal {
        let (s, k) = scalar_at(ts, j)?;
        Ok((Predicate::Contains(Value::Scalar(s)), k))
    } else if crate::order::compare_str(n, "at") == crate::order::Order::Equal {
        let (idx, k) = int_at(ts, j)?;
        if idx < 0 {
            return Err(err("index must be >= 0"));
        }
        let (op, s, m) = comparison_at(ts, k)?;
        Ok((Predicate::AtIndex(idx as u64, op, s), m))
    } else if crate::order::compare_str(n, "key") == crate::order::Order::Equal {
        let (op, s, k) = comparison_at(ts, j)?;
        Ok((Predicate::KeyCmp(op, s), k))
    } else if crate::order::compare_str(n, "size") == crate::order::Order::Equal {
        let (op, k) = comparator_at(ts, j)?;
        let (x, m) = int_at(ts, k)?;
        Ok((Predicate::SizeCmp(op, x), m))
    } else {
        let mut m = text("unknown predicate ");
        m.append(n);
        Err(ParseError { message: m })
    }
}

fn expr_at(ts: &Vec<Tok>, i: usize) -> (r: Result<(Expr, usize), ParseError>)
    requires
        i <= ts@.len(),
    ensures
        match q_expr(tok_models(ts@), i as int) {
            Ok((e, k)) => r matches Ok((x, j)) && x.model() == e && j == k && j <= ts@.len(),
            Err(e) => r matches Err(x) && x.message@ == e,
        },
    decreases ts@.len() - i, 2int,
{
    let (left, j) = term_at(ts, i)?;
    if j <= i || j > ts.len() {
        return Err(ParseError { message: String::new() });
    }
    expr_rest_at(ts, j, left)
}

fn expr_rest_at(ts: &Vec<Tok>, j: usize, left: Expr) -> (r: Result<(Expr, usize), ParseError>)
    requires
        j <= ts@.len(),
    ensures
        match q_expr_rest(tok_models(ts@), j as int, left.model()) {
            Ok((e, k)) => r matches Ok((x, m)) && x.model() == e && m == k && m <= ts@.len(),
            Err(e) => r matches Err(x) && x.message@ == e,
        },
    decreases ts@.len() - j, 3int,
{
    if j < ts.len() && (ident_is(&ts[j], "AND") || ident_is(&ts[j], "OR")) {
        let is_and = ident_is(&ts[j], "AND");
        let (right, k) = term_at(ts, j + 1)?;
        if k <= j || k > ts.len() {
            return Err(ParseError { message: String::new() });
        }
        let combined = if is_and {
            Expr::And(Box::new(left), Box::new(right))
        } else {
            Expr::Or(Box::new(left), Box::new(right))
        };
        expr_rest_at(ts, k, combined)
    } else {
        Ok((left, j))
    }
}

fn term_at(ts: &Vec<Tok>, i: usize) -> (r: Result<(Expr, usize), ParseError>)
    requires
        i <= ts@.len(),
    ensures
        match q_term(tok_models(ts@), i as int) {
            Ok((e, k)) => r matches Ok((x, j)) && x.model() == e && j == k,
            Err(e) => r matches Err(x) && x.message@ == e,
        },
    decreases ts@.len() - i, 1int,
{
    if i < ts.len() && ident_is(&ts[i], "NOT") {
        let (e, j) = primary_at(ts, i + 1)?;
        Ok((Expr::Not(Box::new(e)), j))
    } else {
        primary_at(ts, i)
    }
}

fn primary_at(ts: &Vec<Tok>, i: usize) -> (r: Result<(Expr, usize), ParseError>)
    requires
        i <= ts@.len(),
    ensures
        match q_primary(tok_models(ts@), i as int) {
            Ok((e, k)) => r matches Ok((x, j)) && x.model() == e && j == k,
            Err(e) => r matches Err(x) && x.message@ == e,
        },
    decreases ts@.len() - i, 0int,
{
    if i < ts.len() {
        if let Tok::LParen = &ts[i] {
            let (e, j) = expr_at(ts, i + 1)?;
            if j < ts.len() {
                if let Tok::RParen = &ts[j] {
                    return Ok((e, j + 1));
                }
            }
            return Err(err("expected )"));
        }
    }
    let (p, j) = predicate_at(ts, i)?;
    Ok((Expr::Pred(p), j))
}

/// Parse an AlefQL query; float literals take their bits from `floats`.
pub fn parse_query(input: &str, floats: &FloatBits) -> (r: Result<Expr, ParseError>)
    ensures
        match spec_parse_query(input@, bits_model(floats@)) {
            Ok(e) => r matches Ok(x) && x.model() == e,
            Err(e) => r matches Err(x) && x.message@ == e,
        },
{
    let ts = tokenize(input, floats)?;
    let (e, j) = expr_at(&ts, 0)?;
    if j < ts.len() {
        let mut m = text("unexpected token ");
        m.append(debug_at_text(&ts, j).as_str());
        return Err(ParseError { message: m });
    }
    Ok(e)
}

/// Where a quoted string from `i` (after the opening quote) ends: the
/// position after its closing quote.
pub open spec fn q_string_end(s: Seq<char>, i: int) -> Option<int>
    decreases s.len() - i,
{
    if i < 0 || i >= s.len() {
        None
    } else if s[i] == '"' {
        Some(i + 1)
    } else if s[i] == '\\' && i + 1 < s.len() {
        q_string_end(s, i + 2)
    } else {
        q_string_end(s, i + 1)
    }
}

/// The texts of the fractional number literals that tokenizing `s` from `i`
/// meets, in order, up to the first character that stops it.
pub open spec fn q_float_lits(s: Seq<char>, i: int) -> Seq<Seq<char>>
    decreases s.len() - i,
{
    if i < 0 || i >= s.len() {
        Seq::empty()
    } else {
        let c = s[i];
        if is_json_ws(c) || c == '(' || c == ')' || c == '=' || c == '!' || c == '<' || c == '>' {
            q_float_lits(s, i + 1)
        } else if c == '"' {
            match q_string_end(s, i + 1) {
                Some(j) => if i < j <= s.len() {
                    q_float_lits(s, j)
                } else {
                    Seq::empty()
                },
                None => Seq::empty(),
            }
        } else if c == '-' || is_digit(c) {
            let j = if c == '-' {
                i + 1
            } else {
                i
            };
            let k = digits_end(s, j);
            if 0 <= k < s.len() && s[k] == '.' {
                let m = digits_end(s, k + 1);
                if i < m <= s.len() {
                    seq![s.subrange(i, m)] + q_float_lits(s, m)
                } else {
                    Seq::empty()
                }
            } else if i < k <= s.len() {
                q_float_lits(s, k)
            } else {
                Seq::empty()
            }
        } else if c == '/' {
            let j = run_end(s, i, |ch: char| is_path_char(ch));
            if i < j <= s.len() {
                q_float_lits(s, j)
            } else {
                Seq::empty()
            }
        } else if is_ident_start(c) {
            let j = run_end(s, i, |ch: char| is_ident_char(ch));
            if i < j <= s.len() {
                q_float_lits(s, j)
            } else {
                Seq::empty()
            }
        } else {
            Seq::empty()
        }
    }
}

pub open spec fn strings_model(v: Seq<String>) -> Seq<Seq<char>> {
    Seq::new(v.len(), |i: int| v[i]@)
}

/// The texts of the fractional number literals of a query, for the host to
/// turn into bits.
pub fn query_float_literals(input: &str) -> (r: Vec<String>)
    ensures
        strings_model(r@) == q_float_lits(input@, 0),
{
    let s = chars_of(input);
    let mut out: Vec<String> = Vec::new();
    let mut i: usize = 0;
    assert(strings_model(out@) + q_float_lits(s@, 0) =~= q_float_lits(s@, 0));
    while i < s.len()
        invariant
            i <= s@.len(),
            s@ == input@,
            strings_model(out@) + q_float_lits(s@, i as int) == q_float_lits(input@, 0),
        decreases s@.len() - i,
    {
        let c = s[i];
        if is_ws_char(c) || c == '(' || c == ')' || c == '=' || c == '!' || c == '<' || c == '>' {
            i = i + 1;
        } else if c == '"' {
            let mut k = i + 1;
            while k < s.len() && s[k] != '"'
                invariant
                    i + 1 <= k <= s@.len(),
                    q_string_end(s@, i + 1) == q_string_end(s@, k as int),
                decreases s@.len() - k,
            {
                if s[k] == '\\' && k + 1 < s.len() {
                    k = k + 2;
                } else {
                    k = k + 1;
                }
            }
            if k < s.len() {
                i = k + 1;
            } else {
                assert(strings_model(out@) + Seq::<Seq<char>>::empty() =~= strings_model(out@));
                return out;
            }
        } else if c == '-' || is_digit_char(c) {
            let j = if c == '-' {
                i + 1
            } else {
                i
            };
            let k = digits_end_at(&s, j);
            if k < s.len() && s[k] == '.' {
                let m = digits_end_at(&s, k + 1);
                let ghost before = strings_model(out@);
                let t = sub_string(&s, i, m);
                let ghost tm = t@;
                out.push(t);
                assert(strings_model(out@) =~= before.push(tm));
                assert(before + (seq![tm] + q_float_lits(s@, m as int)) =~= before.push(tm) + q_float_lits(s@, m as int));
                i = m;
            } else if k > i {
                i = k;
            } else {
                assert(strings_model(out@) + Seq::<Seq<char>>::empty() =~= strings_model(out@));
                return out;
            }
        } else if c == '/' || is_ident_start_exec(c) {
            let j = if c == '/' {
                path_end_at(&s, i)
            } else {
                ident_end_at(&s, i)
            };
            if j > i {
                i = j;
            } else {
                assert(strings_model(out@) + Seq::<Seq<char>>::empty() =~= strings_model(out@));
                return out;
            }
        } else {
            assert(strings_model(out@) + Seq::<Seq<char>>::empty() =~= strings_model(out@));
            return out;
        }
    }
    assert(strings_model(out@) + Seq::<Seq<char>>::empty() =~= strings_model(out@));
    out
}

} // verus!
