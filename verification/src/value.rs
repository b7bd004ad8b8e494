//! Typed values: scalars and nested structures, with their mathematical models.

use vstd::prelude::*;
use crate::order::Order;
use crate::order::bytes_lt;
use crate::order::str_lt;
use crate::order::compare_bytes;
use crate::order::compare_str;
use crate::order::lemma_bytes_lt_total;
use crate::order::lemma_bytes_lt_irreflexive;
use crate::order::lemma_bytes_lt_asymmetric;
use crate::order::lemma_bytes_lt_transitive;
use crate::order::lemma_str_lt_total;
use crate::order::lemma_str_lt_transitive;

verus! {

/// Scalar leaf values. `Float` holds the IEEE-754 bit pattern, so equality
/// of floats is equality of bits.
#[derive(Debug, Clone, PartialEq, Eq, PartialOrd, Ord, Hash)]
pub enum Scalar {
    Null,
    Bool(bool),
    Int(i64),
    Float(u64),
    String(String),
    Bytes(Vec<u8>),
}

/// A string-keyed map, kept sorted by key (byte order of the UTF-8 key).
#[derive(Debug, PartialEq, Eq)]
pub struct StrMap {
    pub entries: Vec<(String, Value)>,
}

/// A scalar-keyed ordered map, kept sorted by key in scalar order.
#[derive(Debug, PartialEq, Eq)]
pub struct ScalarMap {
    pub entries: Vec<(Scalar, Value)>,
}

/// First-class value of the database.
#[derive(Debug, PartialEq, Eq)]
pub enum Value {
    Scalar(Scalar),
    /// String keys, sorted.
    Hash(StrMap),
    /// Members unique by canonical encoding.
    SetOf(Vec<Value>),
    List(Vec<Value>),
    /// Ordered map with scalar keys.
    Tree(ScalarMap),
}

/// Mathematical model of a scalar.
pub enum ScalarModel {
    Null,
    Bool(bool),
    Int(i64),
    Float(u64),
    Str(Seq<char>),
    Bytes(Seq<u8>),
}

/// Mathematical model of a value: maps are sequences of entries.
pub enum ValueModel {
    Scalar(ScalarModel),
    Hash(Seq<(Seq<char>, ValueModel)>),
    SetOf(Seq<ValueModel>),
    List(Seq<ValueModel>),
    Tree(Seq<(ScalarModel, ValueModel)>),
}

impl Scalar {
    pub open spec fn model(&self) -> ScalarModel {
        match self {
            Scalar::Null => ScalarModel::Null,
            Scalar::Bool(b) => ScalarModel::Bool(*b),
            Scalar::Int(n) => ScalarModel::Int(*n),
            Scalar::Float(b) => ScalarModel::Float(*b),
            Scalar::String(s) => ScalarModel::Str(s@),
            Scalar::Bytes(b) => ScalarModel::Bytes(b@),
        }
    }
}

impl Value {
    pub open spec fn model(&self) -> ValueModel
        decreases self,
    {
        match self {
            Value::Scalar(s) => ValueModel::Scalar(s.model()),
            Value::Hash(m) => ValueModel::Hash(
                Seq::new(
                    m.entries@.len(),
                    |i: int|
                        if 0 <= i < m.entries@.len() {
                            (m.entries@[i].0@, m.entries@[i].1.model())
                        } else {
                            (Seq::empty(), ValueModel::Scalar(ScalarModel::Null))
                        },
                ),
            ),
            Value::SetOf(vs) => ValueModel::SetOf(
                Seq::new(
                    vs@.len(),
                    |i: int|
                        if 0 <= i < vs@.len() {
                            vs@[i].model()
                        } else {
                            ValueModel::Scalar(ScalarModel::Null)
                        },
                ),
            ),
            Value::List(vs) => ValueModel::List(
                Seq::new(
                    vs@.len(),
                    |i: int|
                        if 0 <= i < vs@.len() {
                            vs@[i].model()
                        } else {
                            ValueModel::Scalar(ScalarModel::Null)
                        },
                ),
            ),
            Value::Tree(m) => ValueModel::Tree(
                Seq::new(
                    m.entries@.len(),
                    |i: int|
                        if 0 <= i < m.entries@.len() {
                            (m.entries@[i].0.model(), m.entries@[i].1.model())
                        } else {
                            (ScalarModel::Null, ValueModel::Scalar(ScalarModel::Null))
                        },
                ),
            ),
        }
    }
}

/// Models of a sequence of values, element by element.
pub open spec fn models(vs: Seq<Value>) -> Seq<ValueModel> {
    Seq::new(vs.len(), |i: int| vs[i].model())
}

/// Models of the entries of a string-keyed map.
pub open spec fn str_entry_models(es: Seq<(String, Value)>) -> Seq<(Seq<char>, ValueModel)> {
    Seq::new(es.len(), |i: int| (es[i].0@, es[i].1.model()))
}

/// Models of the entries of a scalar-keyed map.
pub open spec fn scalar_entry_models(es: Seq<(Scalar, Value)>) -> Seq<(ScalarModel, ValueModel)> {
    Seq::new(es.len(), |i: int| (es[i].0.model(), es[i].1.model()))
}

pub proof fn lemma_model_parts(v: Value)
    ensures
        v matches Value::Hash(m) ==> v.model() == ValueModel::Hash(str_entry_models(m.entries@)),
        v matches Value::SetOf(vs) ==> v.model() == ValueModel::SetOf(models(vs@)),
        v matches Value::List(vs) ==> v.model() == ValueModel::List(models(vs@)),
        v matches Value::Tree(m) ==> v.model() == ValueModel::Tree(scalar_entry_models(m.entries@)),
        v matches Value::Scalar(s) ==> v.model() == ValueModel::Scalar(s.model()),
{
    match v {
        Value::Hash(m) => {
            assert(v.model()->Hash_0 =~= str_entry_models(m.entries@));
        },
        Value::SetOf(vs) => {
            assert(v.model()->SetOf_0 =~= models(vs@));
        },
        Value::List(vs) => {
            assert(v.model()->List_0 =~= models(vs@));
        },
        Value::Tree(m) => {
            assert(v.model()->Tree_0 =~= scalar_entry_models(m.entries@));
        },
        Value::Scalar(_) => {},
    }
}

// ---------------------------------------------------------------------------
// Scalar order (the order of the variants, then of the payloads)

pub open spec fn scalar_rank(s: ScalarModel) -> int {
    match s {
        ScalarModel::Null => 0,
        ScalarModel::Bool(_) => 1,
        ScalarModel::Int(_) => 2,
        ScalarModel::Float(_) => 3,
        ScalarModel::Str(_) => 4,
        ScalarModel::Bytes(_) => 5,
    }
}

/// Strict order of scalars: by variant, then false < true, integers and float
/// bit patterns numerically, strings and bytes lexicographically by bytes.
pub open spec fn scalar_lt(a: ScalarModel, b: ScalarModel) -> bool {
    if scalar_rank(a) != scalar_rank(b) {
        scalar_rank(a) < scalar_rank(b)
    } else {
        match (a, b) {
            (ScalarModel::Bool(x), ScalarModel::Bool(y)) => !x && y,
            (ScalarModel::Int(x), ScalarModel::Int(y)) => x < y,
            (ScalarModel::Float(x), ScalarModel::Float(y)) => x < y,
            (ScalarModel::Str(x), ScalarModel::Str(y)) => str_lt(x, y),
            (ScalarModel::Bytes(x), ScalarModel::Bytes(y)) => bytes_lt(x, y),
            _ => false,
        }
    }
}

pub proof fn lemma_scalar_lt_total(a: ScalarModel, b: ScalarModel)
    ensures
        a == b || scalar_lt(a, b) || scalar_lt(b, a),
        !scalar_lt(a, a),
        scalar_lt(a, b) ==> !scalar_lt(b, a),
{
    match (a, b) {
        (ScalarModel::Str(x), ScalarModel::Str(y)) => {
            lemma_str_lt_total(x, y);
        },
        (ScalarModel::Bytes(x), ScalarModel::Bytes(y)) => {
            lemma_bytes_lt_total(x, y);
            lemma_bytes_lt_irreflexive(x);
            if bytes_lt(x, y) {
                lemma_bytes_lt_asymmetric(x, y);
            }
        },
        (ScalarModel::Str(x), _) => {
            lemma_str_lt_total(x, x);
        },
        (ScalarModel::Bytes(x), _) => {
            lemma_bytes_lt_irreflexive(x);
        },
        _ => {},
    }
}

pub proof fn lemma_scalar_lt_transitive(a: ScalarModel, b: ScalarModel, c: ScalarModel)
    requires
        scalar_lt(a, b),
        scalar_lt(b, c),
    ensures
        scalar_lt(a, c),
{
    match (a, b, c) {
        (ScalarModel::Str(x), ScalarModel::Str(y), ScalarModel::Str(z)) => {
            lemma_str_lt_transitive(x, y, z);
        },
        (ScalarModel::Bytes(x), ScalarModel::Bytes(y), ScalarModel::Bytes(z)) => {
            lemma_bytes_lt_transitive(x, y, z);
        },
        _ => {},
    }
}

fn scalar_rank_exec(s: &Scalar) -> (r: u8)
    ensures
        r == scalar_rank(s.model()),
{
    match s {
        Scalar::Null => 0,
        Scalar::Bool(_) => 1,
        Scalar::Int(_) => 2,
        Scalar::Float(_) => 3,
        Scalar::String(_) => 4,
        Scalar::Bytes(_) => 5,
    }
}

/// Three-way comparison of scalars in scalar order.
pub fn compare_scalar(a: &Scalar, b: &Scalar) -> (r: Order)
    ensures
        (r == Order::Less) <==> scalar_lt(a.model(), b.model()),
        (r == Order::Equal) <==> a.model() == b.model(),
        (r == Order::Greater) <==> scalar_lt(b.model(), a.model()),
{
    proof {
        lemma_scalar_lt_total(a.model(), b.model());
    }
    let ra = scalar_rank_exec(a);
    let rb = scalar_rank_exec(b);
    if ra < rb {
        return Order::Less;
    }
    if ra > rb {
        return Order::Greater;
    }
    match (a, b) {
        (Scalar::Bool(x), Scalar::Bool(y)) => {
            if *x == *y {
                Order::Equal
            } else if !*x {
                Order::Less
            } else {
                Order::Greater
            }
        },
        (Scalar::Int(x), Scalar::Int(y)) => {
            if *x == *y {
                Order::Equal
            } else if *x < *y {
                Order::Less
            } else {
                Order::Greater
            }
        },
        (Scalar::Float(x), Scalar::Float(y)) => {
            if *x == *y {
                Order::Equal
            } else if *x < *y {
                Order::Less
            } else {
                Order::Greater
            }
        },
        (Scalar::String(x), Scalar::String(y)) => compare_str(x.as_str(), y.as_str()),
        (Scalar::Bytes(x), Scalar::Bytes(y)) => compare_bytes(x.as_slice(), y.as_slice()),
        _ => Order::Equal,
    }
}

// ---------------------------------------------------------------------------
// Well-formedness: map keys strictly increasing, at every level.

pub open spec fn str_keys_increasing(es: Seq<(Seq<char>, ValueModel)>) -> bool {
    forall|i: int, j: int| 0 <= i < j < es.len() ==> str_lt(#[trigger] es[i].0, #[trigger] es[j].0)
}

pub open spec fn scalar_keys_increasing(es: Seq<(ScalarModel, ValueModel)>) -> bool {
    forall|i: int, j: int|
        0 <= i < j < es.len() ==> scalar_lt(#[trigger] es[i].0, #[trigger] es[j].0)
}

impl ValueModel {
    /// Every map in the value has strictly increasing keys.
    pub open spec fn wf(self) -> bool
        decreases self,
    {
        match self {
            ValueModel::Scalar(_) => true,
            ValueModel::Hash(es) => str_keys_increasing(es) && forall|i: int|
                0 <= i < es.len() ==> (#[trigger] es[i]).1.wf(),
            ValueModel::SetOf(ms) => forall|i: int| 0 <= i < ms.len() ==> (#[trigger] ms[i]).wf(),
            ValueModel::List(vs) => forall|i: int| 0 <= i < vs.len() ==> (#[trigger] vs[i]).wf(),
            ValueModel::Tree(es) => scalar_keys_increasing(es) && forall|i: int|
                0 <= i < es.len() ==> (#[trigger] es[i]).1.wf(),
        }
    }
}

// ---------------------------------------------------------------------------
// Map insertion and lookup, on models

/// Insert `(k, v)` into entries sorted by key, replacing an equal key.
pub open spec fn str_insert(es: Seq<(Seq<char>, ValueModel)>, k: Seq<char>, v: ValueModel) -> Seq<
    (Seq<char>, ValueModel),
>
    decreases es.len(),
{
    if es.len() == 0 {
        seq![(k, v)]
    } else if es[0].0 == k {
        seq![(k, v)] + es.drop_first()
    } else if str_lt(k, es[0].0) {
        seq![(k, v)] + es
    } else {
        seq![es[0]] + str_insert(es.drop_first(), k, v)
    }
}

/// Insert `(k, v)` into entries sorted by scalar key, replacing an equal key.
pub open spec fn scalar_insert(es: Seq<(ScalarModel, ValueModel)>, k: ScalarModel, v: ValueModel) -> Seq<
    (ScalarModel, ValueModel),
>
    decreases es.len(),
{
    if es.len() == 0 {
        seq![(k, v)]
    } else if es[0].0 == k {
        seq![(k, v)] + es.drop_first()
    } else if scalar_lt(k, es[0].0) {
        seq![(k, v)] + es
    } else {
        seq![es[0]] + scalar_insert(es.drop_first(), k, v)
    }
}

/// The value stored under `k`, if any.
pub open spec fn str_lookup(es: Seq<(Seq<char>, ValueModel)>, k: Seq<char>) -> Option<ValueModel>
    decreases es.len(),
{
    if es.len() == 0 {
        None
    } else if es[0].0 == k {
        Some(es[0].1)
    } else {
        str_lookup(es.drop_first(), k)
    }
}

/// The value stored under scalar key `k`, if any.
pub open spec fn scalar_lookup(es: Seq<(ScalarModel, ValueModel)>, k: ScalarModel) -> Option<ValueModel>
    decreases es.len(),
{
    if es.len() == 0 {
        None
    } else if es[0].0 == k {
        Some(es[0].1)
    } else {
        scalar_lookup(es.drop_first(), k)
    }
}

proof fn lemma_str_insert_at(es: Seq<(Seq<char>, ValueModel)>, k: Seq<char>, v: ValueModel, i: int)
    requires
        0 <= i <= es.len(),
        forall|j: int| 0 <= j < i ==> str_lt(#[trigger] es[j].0, k),
        i < es.len() ==> !str_lt(es[i].0, k),
    ensures
        str_insert(es, k, v) == if i < es.len() && es[i].0 == k {
            es.take(i) + seq![(k, v)] + es.skip(i + 1)
        } else {
            es.take(i) + seq![(k, v)] + es.skip(i)
        },
    decreases i,
{
    if i == 0 {
        if es.len() > 0 {
            lemma_str_lt_total(k, es[0].0);
        }
        if es.len() > 0 {
            assert(es.take(0) + seq![(k, v)] + es.skip(1) =~= seq![(k, v)] + es.drop_first());
        }
        assert(es.take(0) + seq![(k, v)] + es.skip(0) =~= seq![(k, v)] + es);
    } else {
        lemma_str_lt_total(es[0].0, k);
        lemma_str_lt_total(k, es[0].0);
        let t = es.drop_first();
        assert forall|j: int| 0 <= j < i - 1 implies str_lt(#[trigger] t[j].0, k) by {
            assert(t[j] == es[j + 1]);
        }
        lemma_str_insert_at(t, k, v, i - 1);
        if i < es.len() {
            assert(es.take(i) + seq![(k, v)] + es.skip(i + 1) =~= seq![es[0]] + (t.take(i - 1)
                + seq![(k, v)] + t.skip(i)));
        }
        assert(es.take(i) + seq![(k, v)] + es.skip(i) =~= seq![es[0]] + (t.take(i - 1) + seq![
            (k, v),
        ] + t.skip(i - 1)));
    }
}

proof fn lemma_scalar_insert_at(
    es: Seq<(ScalarModel, ValueModel)>,
    k: ScalarModel,
    v: ValueModel,
    i: int,
)
    requires
        0 <= i <= es.len(),
        forall|j: int| 0 <= j < i ==> scalar_lt(#[trigger] es[j].0, k),
        i < es.len() ==> !scalar_lt(es[i].0, k),
    ensures
        scalar_insert(es, k, v) == if i < es.len() && es[i].0 == k {
            es.take(i) + seq![(k, v)] + es.skip(i + 1)
        } else {
            es.take(i) + seq![(k, v)] + es.skip(i)
        },
    decreases i,
{
    if i == 0 {
        if es.len() > 0 {
            lemma_scalar_lt_total(k, es[0].0);
        }
        if es.len() > 0 {
            assert(es.take(0) + seq![(k, v)] + es.skip(1) =~= seq![(k, v)] + es.drop_first());
        }
        assert(es.take(0) + seq![(k, v)] + es.skip(0) =~= seq![(k, v)] + es);
    } else {
        lemma_scalar_lt_total(es[0].0, k);
        lemma_scalar_lt_total(k, es[0].0);
        let t = es.drop_first();
        assert forall|j: int| 0 <= j < i - 1 implies scalar_lt(#[trigger] t[j].0, k) by {
            assert(t[j] == es[j + 1]);
        }
        lemma_scalar_insert_at(t, k, v, i - 1);
        if i < es.len() {
            assert(es.take(i) + seq![(k, v)] + es.skip(i + 1) =~= seq![es[0]] + (t.take(i - 1)
                + seq![(k, v)] + t.skip(i)));
        }
        assert(es.take(i) + seq![(k, v)] + es.skip(i) =~= seq![es[0]] + (t.take(i - 1) + seq![
            (k, v),
        ] + t.skip(i - 1)));
    }
}

/// Inserting into increasing keys keeps them increasing.
pub proof fn lemma_str_insert_increasing(es: Seq<(Seq<char>, ValueModel)>, k: Seq<char>, v: ValueModel)
    requires
        str_keys_increasing(es),
    ensures
        str_keys_increasing(str_insert(es, k, v)),
        forall|i: int|
            0 <= i < str_insert(es, k, v).len() ==> (#[trigger] str_insert(es, k, v)[i].0 == k
                || exists|j: int| 0 <= j < es.len() && es[j] == str_insert(es, k, v)[i]),
    decreases es.len(),
{
    let r = str_insert(es, k, v);
    if es.len() == 0 {
    } else if es[0].0 == k {
        assert forall|i: int| 0 <= i < r.len() implies (#[trigger] r[i].0 == k || exists|j: int|
            0 <= j < es.len() && es[j] == r[i]) by {
            if i > 0 {
                assert(es[i] == r[i]);
            }
        }
    } else if str_lt(k, es[0].0) {
        assert forall|i: int, j: int| 0 <= i < j < r.len() implies str_lt(
            #[trigger] r[i].0,
            #[trigger] r[j].0,
        ) by {
            if i == 0 {
                if j > 1 {
                    lemma_str_lt_transitive(k, es[0].0, es[j - 1].0);
                }
            }
        }
        assert forall|i: int| 0 <= i < r.len() implies (#[trigger] r[i].0 == k || exists|j: int|
            0 <= j < es.len() && es[j] == r[i]) by {
            if i > 0 {
                assert(es[i - 1] == r[i]);
            }
        }
    } else {
        let t = es.drop_first();
        lemma_str_insert_increasing(t, k, v);
        let rt = str_insert(t, k, v);
        lemma_str_lt_total(k, es[0].0);
        assert forall|i: int, j: int| 0 <= i < j < r.len() implies str_lt(
            #[trigger] r[i].0,
            #[trigger] r[j].0,
        ) by {
            if i == 0 {
                assert(r[j] == rt[j - 1]);
                if rt[j - 1].0 == k {
                } else {
                    let jj = choose|jj: int| 0 <= jj < t.len() && t[jj] == rt[j - 1];
                    assert(t[jj] == es[jj + 1]);
                }
            } else {
                assert(r[i] == rt[i - 1]);
                assert(r[j] == rt[j - 1]);
            }
        }
        assert forall|i: int| 0 <= i < r.len() implies (#[trigger] r[i].0 == k || exists|j: int|
            0 <= j < es.len() && es[j] == r[i]) by {
            if i == 0 {
                assert(es[0] == r[0]);
            } else {
                assert(r[i] == rt[i - 1]);
                if rt[i - 1].0 != k {
                    let jj = choose|jj: int| 0 <= jj < t.len() && t[jj] == rt[i - 1];
                    assert(t[jj] == es[jj + 1]);
                }
            }
        }
    }
}

/// Inserting into increasing scalar keys keeps them increasing.
pub proof fn lemma_scalar_insert_increasing(
    es: Seq<(ScalarModel, ValueModel)>,
    k: ScalarModel,
    v: ValueModel,
)
    requires
        scalar_keys_increasing(es),
    ensures
        scalar_keys_increasing(scalar_insert(es, k, v)),
        forall|i: int|
            0 <= i < scalar_insert(es, k, v).len() ==> (#[trigger] scalar_insert(es, k, v)[i].0
                == k || exists|j: int| 0 <= j < es.len() && es[j] == scalar_insert(es, k, v)[i]),
    decreases es.len(),
{
    let r = scalar_insert(es, k, v);
    if es.len() == 0 {
    } else if es[0].0 == k {
        assert forall|i: int| 0 <= i < r.len() implies (#[trigger] r[i].0 == k || exists|j: int|
            0 <= j < es.len() && es[j] == r[i]) by {
            if i > 0 {
                assert(es[i] == r[i]);
            }
        }
    } else if scalar_lt(k, es[0].0) {
        assert forall|i: int, j: int| 0 <= i < j < r.len() implies scalar_lt(
            #[trigger] r[i].0,
            #[trigger] r[j].0,
        ) by {
            if i == 0 {
                if j > 1 {
                    lemma_scalar_lt_transitive(k, es[0].0, es[j - 1].0);
                }
            }
        }
        assert forall|i: int| 0 <= i < r.len() implies (#[trigger] r[i].0 == k || exists|j: int|
            0 <= j < es.len() && es[j] == r[i]) by {
            if i > 0 {
                assert(es[i - 1] == r[i]);
            }
        }
    } else {
        let t = es.drop_first();
        lemma_scalar_insert_increasing(t, k, v);
        let rt = scalar_insert(t, k, v);
        lemma_scalar_lt_total(k, es[0].0);
        assert forall|i: int, j: int| 0 <= i < j < r.len() implies scalar_lt(
            #[trigger] r[i].0,
            #[trigger] r[j].0,
        ) by {
            if i == 0 {
                assert(r[j] == rt[j - 1]);
                if rt[j - 1].0 == k {
                } else {
                    let jj = choose|jj: int| 0 <= jj < t.len() && t[jj] == rt[j - 1];
                    assert(t[jj] == es[jj + 1]);
                }
            } else {
                assert(r[i] == rt[i - 1]);
                assert(r[j] == rt[j - 1]);
            }
        }
        assert forall|i: int| 0 <= i < r.len() implies (#[trigger] r[i].0 == k || exists|j: int|
            0 <= j < es.len() && es[j] == r[i]) by {
            if i == 0 {
                assert(es[0] == r[0]);
            } else {
                assert(r[i] == rt[i - 1]);
                if rt[i - 1].0 != k {
                    let jj = choose|jj: int| 0 <= jj < t.len() && t[jj] == rt[i - 1];
                    assert(t[jj] == es[jj + 1]);
                }
            }
        }
    }
}


// ---------------------------------------------------------------------------
// Exec maps

impl View for StrMap {
    type V = Seq<(Seq<char>, ValueModel)>;

    open spec fn view(&self) -> Seq<(Seq<char>, ValueModel)> {
        str_entry_models(self.entries@)
    }
}

impl View for ScalarMap {
    type V = Seq<(ScalarModel, ValueModel)>;

    open spec fn view(&self) -> Seq<(ScalarModel, ValueModel)> {
        scalar_entry_models(self.entries@)
    }
}

impl StrMap {
    pub fn new() -> (m: StrMap)
        ensures
            m@ == Seq::<(Seq<char>, ValueModel)>::empty(),
    {
        let m = StrMap { entries: Vec::new() };
        assert(m@ =~= Seq::<(Seq<char>, ValueModel)>::empty());
        m
    }

    pub fn len(&self) -> (n: usize)
        ensures
            n == self@.len(),
    {
        self.entries.len()
    }

    pub fn is_empty(&self) -> (b: bool)
        ensures
            b == (self@.len() == 0),
    {
        self.entries.len() == 0
    }

    /// Insert `value` under `key`, replacing any value already stored there.
    pub fn insert(&mut self, key: String, value: Value)
        ensures
            final(self)@ == str_insert(old(self)@, key@, value.model()),
    {
        let ghost old_es = self@;
        let ghost km = key@;
        let ghost vm = value.model();
        let mut i: usize = 0;
        while i < self.entries.len() && compare_str(self.entries[i].0.as_str(), key.as_str())
            == Order::Less
            invariant
                i <= self.entries@.len(),
                self@ == old_es,
                key@ == km,
                forall|j: int| 0 <= j < i ==> str_lt(#[trigger] old_es[j].0, km),
            decreases self.entries@.len() - i,
        {
            i = i + 1;
        }
        proof {
            lemma_str_insert_at(old_es, km, vm, i as int);
        }
        if i < self.entries.len() && compare_str(self.entries[i].0.as_str(), key.as_str())
            == Order::Equal {
            self.entries.set(i, (key, value));
            assert(self@ =~= old_es.take(i as int) + seq![(km, vm)] + old_es.skip(i + 1));
        } else {
            self.entries.insert(i, (key, value));
            assert(self@ =~= old_es.take(i as int) + seq![(km, vm)] + old_es.skip(i as int));
        }
    }

    /// The value stored under `key`.
    pub fn get(&self, key: &str) -> (r: Option<&Value>)
        ensures
            r matches Some(v) ==> str_lookup(self@, key@) == Some(v.model()),
            r is None ==> str_lookup(self@, key@) is None,
    {
        let mut i: usize = 0;
        assert(self@.skip(0) =~= self@);
        while i < self.entries.len()
            invariant
                i <= self.entries@.len(),
                str_lookup(self@, key@) == str_lookup(self@.skip(i as int), key@),
            decreases self.entries@.len() - i,
        {
            assert(self@.skip(i as int)[0] == self@[i as int]);
            assert(self@.skip(i as int).drop_first() =~= self@.skip(i + 1));
            if compare_str(self.entries[i].0.as_str(), key) == Order::Equal {
                return Some(&self.entries[i].1);
            }
            i = i + 1;
        }
        None
    }

    pub fn contains_key(&self, key: &str) -> (b: bool)
        ensures
            b == str_lookup(self@, key@) is Some,
    {
        self.get(key).is_some()
    }

    /// Remove the entry stored under `key`, returning its value.
    pub fn remove(&mut self, key: &str) -> (r: Option<Value>)
        ensures
            r matches Some(v) ==> str_lookup(old(self)@, key@) == Some(v.model()),
            r is None ==> str_lookup(old(self)@, key@) is None,
            final(self)@ == str_remove(old(self)@, key@),
    {
        let ghost old_es = self@;
        let mut i: usize = 0;
        assert(old_es.skip(0) =~= old_es);
        assert(old_es.take(0) + old_es.skip(0) =~= old_es);
        while i < self.entries.len()
            invariant
                i <= self.entries@.len(),
                self@ == old_es,
                old_es == old(self)@,
                str_lookup(old_es, key@) == str_lookup(old_es.skip(i as int), key@),
                str_remove(old_es, key@) == old_es.take(i as int) + str_remove(old_es.skip(i as int), key@),
            decreases self.entries@.len() - i,
        {
            let ghost t = old_es.skip(i as int);
            assert(t[0] == old_es[i as int]);
            assert(t.drop_first() =~= old_es.skip(i + 1));
            if compare_str(self.entries[i].0.as_str(), key) == Order::Equal {
                assert(str_lookup(t, key@) == Some(t[0].1));
                assert(str_remove(t, key@) == t.drop_first());
                let (_, v) = self.entries.remove(i);
                assert(self@ =~= old_es.take(i as int) + t.drop_first());
                return Some(v);
            }
            assert(old_es.take(i + 1) =~= old_es.take(i as int) + seq![t[0]]);
            i = i + 1;
        }
        assert(old_es.skip(i as int).len() == 0);
        assert(old_es.take(i as int) =~= old_es);
        None
    }
}

/// Entries with the first entry whose key is `k` removed.
pub open spec fn str_remove(es: Seq<(Seq<char>, ValueModel)>, k: Seq<char>) -> Seq<(Seq<char>, ValueModel)>
    decreases es.len(),
{
    if es.len() == 0 {
        es
    } else if es[0].0 == k {
        es.drop_first()
    } else {
        seq![es[0]] + str_remove(es.drop_first(), k)
    }
}

/// Entries with the first entry whose scalar key is `k` removed.
pub open spec fn scalar_remove(es: Seq<(ScalarModel, ValueModel)>, k: ScalarModel) -> Seq<(ScalarModel, ValueModel)>
    decreases es.len(),
{
    if es.len() == 0 {
        es
    } else if es[0].0 == k {
        es.drop_first()
    } else {
        seq![es[0]] + scalar_remove(es.drop_first(), k)
    }
}

impl ScalarMap {
    pub fn new() -> (m: ScalarMap)
        ensures
            m@ == Seq::<(ScalarModel, ValueModel)>::empty(),
    {
        let m = ScalarMap { entries: Vec::new() };
        assert(m@ =~= Seq::<(ScalarModel, ValueModel)>::empty());
        m
    }

    pub fn len(&self) -> (n: usize)
        ensures
            n == self@.len(),
    {
        self.entries.len()
    }

    pub fn is_empty(&self) -> (b: bool)
        ensures
            b == (self@.len() == 0),
    {
        self.entries.len() == 0
    }

    /// Insert `value` under `key`, replacing any value already stored there.
    pub fn insert(&mut self, key: Scalar, value: Value)
        ensures
            final(self)@ == scalar_insert(old(self)@, key.model(), value.model()),
    {
        let ghost old_es = self@;
        let ghost km = key.model();
        let ghost vm = value.model();
        let mut i: usize = 0;
        while i < self.entries.len() && compare_scalar(&self.entries[i].0, &key) == Order::Less
            invariant
                i <= self.entries@.len(),
                self@ == old_es,
                key.model() == km,
                forall|j: int| 0 <= j < i ==> scalar_lt(#[trigger] old_es[j].0, km),
            decreases self.entries@.len() - i,
        {
            i = i + 1;
        }
        proof {
            lemma_scalar_insert_at(old_es, km, vm, i as int);
        }
        if i < self.entries.len() && compare_scalar(&self.entries[i].0, &key) == Order::Equal {
            self.entries.set(i, (key, value));
            assert(self@ =~= old_es.take(i as int) + seq![(km, vm)] + old_es.skip(i + 1));
        } else {
            self.entries.insert(i, (key, value));
            assert(self@ =~= old_es.take(i as int) + seq![(km, vm)] + old_es.skip(i as int));
        }
    }

    /// The value stored under `key`.
    pub fn get(&self, key: &Scalar) -> (r: Option<&Value>)
        ensures
            r matches Some(v) ==> scalar_lookup(self@, key.model()) == Some(v.model()),
            r is None ==> scalar_lookup(self@, key.model()) is None,
    {
        let mut i: usize = 0;
        assert(self@.skip(0) =~= self@);
        while i < self.entries.len()
            invariant
                i <= self.entries@.len(),
                scalar_lookup(self@, key.model()) == scalar_lookup(self@.skip(i as int), key.model()),
            decreases self.entries@.len() - i,
        {
            assert(self@.skip(i as int)[0] == self@[i as int]);
            assert(self@.skip(i as int).drop_first() =~= self@.skip(i + 1));
            if compare_scalar(&self.entries[i].0, key) == Order::Equal {
                return Some(&self.entries[i].1);
            }
            i = i + 1;
        }
        None
    }

    pub fn contains_key(&self, key: &Scalar) -> (b: bool)
        ensures
            b == scalar_lookup(self@, key.model()) is Some,
    {
        self.get(key).is_some()
    }

    /// Remove the entry stored under `key`, returning its value.
    pub fn remove(&mut self, key: &Scalar) -> (r: Option<Value>)
        ensures
            r matches Some(v) ==> scalar_lookup(old(self)@, key.model()) == Some(v.model()),
            r is None ==> scalar_lookup(old(self)@, key.model()) is None,
            final(self)@ == scalar_remove(old(self)@, key.model()),
    {
        let ghost old_es = self@;
        let mut i: usize = 0;
        assert(old_es.skip(0) =~= old_es);
        assert(old_es.take(0) + old_es.skip(0) =~= old_es);
        while i < self.entries.len()
            invariant
                i <= self.entries@.len(),
                self@ == old_es,
                old_es == old(self)@,
                scalar_lookup(old_es, key.model()) == scalar_lookup(old_es.skip(i as int), key.model()),
                scalar_remove(old_es, key.model()) == old_es.take(i as int) + scalar_remove(
                    old_es.skip(i as int),
                    key.model(),
                ),
            decreases self.entries@.len() - i,
        {
            let ghost t = old_es.skip(i as int);
            assert(t[0] == old_es[i as int]);
            assert(t.drop_first() =~= old_es.skip(i + 1));
            if compare_scalar(&self.entries[i].0, key) == Order::Equal {
                assert(scalar_lookup(t, key.model()) == Some(t[0].1));
                assert(scalar_remove(t, key.model()) == t.drop_first());
                let (_, v) = self.entries.remove(i);
                assert(self@ =~= old_es.take(i as int) + t.drop_first());
                return Some(v);
            }
            assert(old_es.take(i + 1) =~= old_es.take(i as int) + seq![t[0]]);
            i = i + 1;
        }
        assert(old_es.skip(i as int).len() == 0);
        assert(old_es.take(i as int) =~= old_es);
        None
    }
}

// ---------------------------------------------------------------------------
// Constructors, type names, copies and equality

/// The type name of a value model.
pub open spec fn value_type_label(v: ValueModel) -> Seq<char> {
    match v {
        ValueModel::Scalar(ScalarModel::Null) => "null"@,
        ValueModel::Scalar(ScalarModel::Bool(_)) => "bool"@,
        ValueModel::Scalar(ScalarModel::Int(_)) => "int"@,
        ValueModel::Scalar(ScalarModel::Float(_)) => "float"@,
        ValueModel::Scalar(ScalarModel::Str(_)) => "string"@,
        ValueModel::Scalar(ScalarModel::Bytes(_)) => "bytes"@,
        ValueModel::Hash(_) => "hash"@,
        ValueModel::SetOf(_) => "set"@,
        ValueModel::List(_) => "list"@,
        ValueModel::Tree(_) => "tree"@,
    }
}

impl Value {
    pub fn null() -> (v: Value)
        ensures
            v.model() == ValueModel::Scalar(ScalarModel::Null),
    {
        Value::Scalar(Scalar::Null)
    }

    pub fn bool(b: bool) -> (v: Value)
        ensures
            v.model() == ValueModel::Scalar(ScalarModel::Bool(b)),
    {
        Value::Scalar(Scalar::Bool(b))
    }

    pub fn integer(n: i64) -> (v: Value)
        ensures
            v.model() == ValueModel::Scalar(ScalarModel::Int(n)),
    {
        Value::Scalar(Scalar::Int(n))
    }

    pub fn string(s: &str) -> (v: Value)
        ensures
            v.model() == ValueModel::Scalar(ScalarModel::Str(s@)),
    {
        Value::Scalar(Scalar::String(s.to_owned()))
    }

    pub fn bytes(b: Vec<u8>) -> (v: Value)
        ensures
            v.model() == ValueModel::Scalar(ScalarModel::Bytes(b@)),
    {
        Value::Scalar(Scalar::Bytes(b))
    }

    /// The name of the value's type (`"null"`, `"int"`, `"hash"`, ...).
    pub fn typename(&self) -> (r: &'static str)
        ensures
            r@ == value_type_label(self.model()),
    {
        match self {
            Value::Scalar(Scalar::Null) => "null",
            Value::Scalar(Scalar::Bool(_)) => "bool",
            Value::Scalar(Scalar::Int(_)) => "int",
            Value::Scalar(Scalar::Float(_)) => "float",
            Value::Scalar(Scalar::String(_)) => "string",
            Value::Scalar(Scalar::Bytes(_)) => "bytes",
            Value::Hash(_) => "hash",
            Value::SetOf(_) => "set",
            Value::List(_) => "list",
            Value::Tree(_) => "tree",
        }
    }

    /// A copy of the value with the same model.
    pub fn deep_clone(&self) -> (r: Value)
        ensures
            r.model() == self.model(),
        decreases self,
    {
        proof {
            lemma_model_parts(*self);
        }
        let r = match self {
            Value::Scalar(s) => Value::Scalar(s.deep_clone()),
            Value::Hash(m) => Value::Hash(StrMap { entries: clone_str_entries(&m.entries) }),
            Value::SetOf(vs) => Value::SetOf(clone_values(vs)),
            Value::List(vs) => Value::List(clone_values(vs)),
            Value::Tree(m) => Value::Tree(ScalarMap { entries: clone_scalar_entries(&m.entries) }),
        };
        proof {
            lemma_model_parts(r);
        }
        r
    }
}

/// Copies of the entries of a string-keyed map.
fn clone_str_entries(es: &Vec<(String, Value)>) -> (r: Vec<(String, Value)>)
    ensures
        str_entry_models(r@) == str_entry_models(es@),
    decreases es,
{
    let mut out: Vec<(String, Value)> = Vec::new();
    let mut i: usize = 0;
    while i < es.len()
        invariant
            i <= es@.len(),
            out@.len() == i,
            str_entry_models(out@) =~= str_entry_models(es@).take(i as int),
        decreases es@.len() - i,
    {
        proof {
            let e = es@[i as int];
            assert(decreases_to!(es => es@[i as int]));
            assert(decreases_to!(e => e.1));
        }
        let k = es[i].0.clone();
        let v = es[i].1.deep_clone();
        let ghost prev = out@;
        out.push((k, v));
        assert forall|j: int| 0 <= j < i + 1 implies str_entry_models(out@)[j]
            == str_entry_models(es@)[j] by {
            if j < i {
                assert(out@[j] == prev[j]);
                assert(str_entry_models(prev)[j] == str_entry_models(es@)[j]);
            }
        }
        i = i + 1;
    }
    assert(str_entry_models(out@) =~= str_entry_models(es@));
    out
}

/// Copies of the entries of a scalar-keyed map.
fn clone_scalar_entries(es: &Vec<(Scalar, Value)>) -> (r: Vec<(Scalar, Value)>)
    ensures
        scalar_entry_models(r@) == scalar_entry_models(es@),
    decreases es,
{
    let mut out: Vec<(Scalar, Value)> = Vec::new();
    let mut i: usize = 0;
    while i < es.len()
        invariant
            i <= es@.len(),
            out@.len() == i,
            scalar_entry_models(out@) =~= scalar_entry_models(es@).take(i as int),
        decreases es@.len() - i,
    {
        proof {
            let e = es@[i as int];
            assert(decreases_to!(es => es@[i as int]));
            assert(decreases_to!(e => e.1));
        }
        let k = es[i].0.deep_clone();
        let v = es[i].1.deep_clone();
        let ghost prev = out@;
        out.push((k, v));
        assert forall|j: int| 0 <= j < i + 1 implies scalar_entry_models(out@)[j]
            == scalar_entry_models(es@)[j] by {
            if j < i {
                assert(out@[j] == prev[j]);
                assert(scalar_entry_models(prev)[j] == scalar_entry_models(es@)[j]);
            }
        }
        i = i + 1;
    }
    assert(scalar_entry_models(out@) =~= scalar_entry_models(es@));
    out
}

/// Copies of a sequence of values.
fn clone_values(vs: &Vec<Value>) -> (r: Vec<Value>)
    ensures
        models(r@) == models(vs@),
    decreases vs,
{
    let mut out: Vec<Value> = Vec::new();
    let mut i: usize = 0;
    while i < vs.len()
        invariant
            i <= vs@.len(),
            out@.len() == i,
            models(out@) =~= models(vs@).take(i as int),
        decreases vs@.len() - i,
    {
        assert(decreases_to!(vs => vs@[i as int]));
        let v = vs[i].deep_clone();
        let ghost prev = out@;
        out.push(v);
        assert forall|j: int| 0 <= j < i + 1 implies models(out@)[j] == models(vs@)[j] by {
            if j < i {
                assert(out@[j] == prev[j]);
                assert(models(prev)[j] == models(vs@)[j]);
            }
        }
        i = i + 1;
    }
    assert(models(out@) =~= models(vs@));
    out
}

impl Scalar {
    /// A copy of the scalar with the same model.
    pub fn deep_clone(&self) -> (r: Scalar)
        ensures
            r.model() == self.model(),
    {
        match self {
            Scalar::Null => Scalar::Null,
            Scalar::Bool(b) => Scalar::Bool(*b),
            Scalar::Int(n) => Scalar::Int(*n),
            Scalar::Float(b) => Scalar::Float(*b),
            Scalar::String(s) => Scalar::String(s.clone()),
            Scalar::Bytes(b) => Scalar::Bytes(vstd::slice::slice_to_vec(b.as_slice())),
        }
    }

    /// Equality of scalars (the same variant and payload).
    pub fn same_as(&self, other: &Scalar) -> (r: bool)
        ensures
            r == (self.model() == other.model()),
    {
        compare_scalar(self, other) == Order::Equal
    }
}

/// Inserting a key greater than every key appends the entry.
pub proof fn lemma_str_insert_at_end(es: Seq<(Seq<char>, ValueModel)>, k: Seq<char>, v: ValueModel)
    requires
        forall|j: int| 0 <= j < es.len() ==> str_lt(#[trigger] es[j].0, k),
    ensures
        str_insert(es, k, v) == es.push((k, v)),
{
    lemma_str_insert_at(es, k, v, es.len() as int);
    assert(es.take(es.len() as int) + seq![(k, v)] + es.skip(es.len() as int) =~= es.push((k, v)));
}

/// Inserting a key greater than every key appends the entry.
pub proof fn lemma_scalar_insert_at_end(es: Seq<(ScalarModel, ValueModel)>, k: ScalarModel, v: ValueModel)
    requires
        forall|j: int| 0 <= j < es.len() ==> scalar_lt(#[trigger] es[j].0, k),
    ensures
        scalar_insert(es, k, v) == es.push((k, v)),
{
    lemma_scalar_insert_at(es, k, v, es.len() as int);
    assert(es.take(es.len() as int) + seq![(k, v)] + es.skip(es.len() as int) =~= es.push((k, v)));
}
} // verus!
