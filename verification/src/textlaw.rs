//! What scalars look like as text, and that reading the text gives them
//! back: the daemon's typed value text, and the JSON literals of export and
//! import.

use vstd::prelude::*;
use crate::export::{value_json, json_value};
use crate::fmt::decimal_i;
use crate::json::{JsonModel, spec_parse_json, json_text, quoted};
use crate::server::{value_of_text, display_of};
use crate::value::{ScalarModel, ValueModel, value_type_label};

verus! {

/// A scalar that has a text of its own: null, a bool, an integer or a
/// string.
pub open spec fn textual(x: ScalarModel) -> bool {
    x is Null || x is Bool || x is Int || x is Str
}

/// A textual scalar shown and read back as a typed value is itself: for
/// every null, bool, integer and string, parsing the text it displays as,
/// under its own type name, gives the same scalar.
pub proof fn lemma_display_reads_back(x: ScalarModel, t: Seq<(u64, Seq<char>)>, b: Seq<(Seq<char>, u64)>)
    requires
        textual(x),
    ensures
        value_of_text(value_type_label(ValueModel::Scalar(x)), display_of(ValueModel::Scalar(x), t), b) == Ok::<
            ValueModel,
            Seq<char>,
        >(ValueModel::Scalar(x)),
{
    reveal_strlit("null");
    reveal_strlit("bool");
    reveal_strlit("int");
    reveal_strlit("float");
    reveal_strlit("string");
    reveal_strlit("true");
    reveal_strlit("false");
    assert("int"@ != "null"@ && "int"@ != "bool"@) by {
        assert("int"@.len() != "null"@.len());
        assert("int"@.len() != "bool"@.len());
    }
    assert("string"@ != "null"@ && "string"@ != "bool"@ && "string"@ != "int"@ && "string"@ != "float"@) by {
        assert("string"@.len() == 6);
    }
    assert("bool"@ != "null"@) by {
        assert("bool"@[0] != "null"@[0]);
    }
    if let ScalarModel::Int(n) = x {
        crate::exportlaw::lemma_i64_text_decimal(n);
    }
}

/// A bool is read from its own text and only from it: `true` reads as the
/// bool true and `false` as false, each is how that bool is displayed, and
/// where text parses as the bool `flag`, the text is `flag` displayed.
pub proof fn lemma_bool_text(raw: Seq<char>, flag: bool, t: Seq<(u64, Seq<char>)>, b: Seq<(Seq<char>, u64)>)
    ensures
        value_of_text("bool"@, if flag { "true"@ } else { "false"@ }, b) == Ok::<ValueModel, Seq<char>>(
            ValueModel::Scalar(ScalarModel::Bool(flag)),
        ),
        display_of(ValueModel::Scalar(ScalarModel::Bool(flag)), t) == if flag { "true"@ } else { "false"@ },
        value_of_text("bool"@, raw, b) == Ok::<ValueModel, Seq<char>>(ValueModel::Scalar(ScalarModel::Bool(flag)))
            ==> raw == display_of(ValueModel::Scalar(ScalarModel::Bool(flag)), t),
{
    reveal_strlit("null");
    reveal_strlit("bool");
    reveal_strlit("true");
    reveal_strlit("false");
    assert("false"@.len() != "true"@.len());
    assert("bool"@ != "null"@) by {
        assert("bool"@[0] != "null"@[0]);
    }
}

/// The JSON literal of a textual scalar: `null`, `true` or `false`, the
/// decimal of an integer, a string in quotes.
pub open spec fn scalar_literal(x: ScalarModel) -> Seq<char> {
    match x {
        ScalarModel::Bool(b) => if b {
            "true"@
        } else {
            "false"@
        },
        ScalarModel::Int(n) => decimal_i(n as int),
        ScalarModel::Str(s) => quoted(s),
        _ => "null"@,
    }
}

/// Export writes each textual scalar as its own JSON literal: a bool `b` as
/// `true` exactly when `b` holds, an integer as its decimal, a string in
/// quotes, null as `null`.
pub proof fn lemma_export_scalar_literal(x: ScalarModel, t: Seq<(u64, Seq<char>)>)
    requires
        textual(x),
    ensures
        json_text(value_json(ValueModel::Scalar(x), t)) == scalar_literal(x),
{
    reveal_strlit("null");
    reveal_strlit("true");
    reveal_strlit("false");
    assert("null"@ =~= seq!['n', 'u', 'l', 'l']);
    assert("true"@ =~= seq!['t', 'r', 'u', 'e']);
    assert("false"@ =~= seq!['f', 'a', 'l', 's', 'e']);
}

/// Import reads each JSON literal as the scalar it is the literal of:
/// `true` gives the bool true, `false` the bool false, a decimal its
/// integer, a quoted string the string, `null` null.
pub proof fn lemma_import_scalar_literal(x: ScalarModel, b: Seq<(Seq<char>, u64)>)
    requires
        textual(x),
    ensures
        spec_parse_json(scalar_literal(x)) matches Ok(j) && json_value(j, b) == Ok::<ValueModel, crate::errors::NsErr>(
            ValueModel::Scalar(x),
        ),
{
    reveal_strlit("null");
    reveal_strlit("true");
    reveal_strlit("false");
    assert("null"@ =~= seq!['n', 'u', 'l', 'l']);
    assert("true"@ =~= seq!['t', 'r', 'u', 'e']);
    assert("false"@ =~= seq!['f', 'a', 'l', 's', 'e']);
    let j = match x {
        ScalarModel::Bool(v) => JsonModel::Bool(v),
        ScalarModel::Int(n) => JsonModel::Number(n),
        ScalarModel::Str(s) => JsonModel::Str(s),
        _ => JsonModel::Null,
    };
    assert(json_text(j) == scalar_literal(x));
    crate::jsonlaw::lemma_json_text_roundtrip(j);
}

} // verus!
