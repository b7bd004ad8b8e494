//! Decoding an encoding gives the value back: canonical values exactly, any
//! value up to its canonical form (same encoding).

use vstd::prelude::*;
use vstd::utf8::encode_utf8;
use vstd::utf8::decode_utf8;
use vstd::utf8::valid_utf8;
use vstd::utf8::encode_utf8_valid_utf8;
use vstd::utf8::encode_utf8_decode_utf8;
use crate::bytes::{le32, from_le32, le64, from_le64, lemma_le32_roundtrip, lemma_le64_roundtrip, lemma_i64_bits_roundtrip};
use crate::order::bytes_lt;
use crate::order::lemma_bytes_lt_total;
use crate::order::lemma_bytes_lt_transitive;
use crate::order::lemma_bytes_lt_irreflexive;
use crate::order::lemma_bytes_lt_asymmetric;
use crate::order::str_lt;
use crate::value::{ScalarModel, ValueModel, str_insert, scalar_insert, str_keys_increasing, scalar_keys_increasing, scalar_lt};
use crate::codec::{lemma_insert_payload_at, CodecError, enc_str, enc_scalar, enc_value, enc_values, enc_hash_entries, enc_tree_entries, set_payloads, insert_payload, concat, spec_encode, spec_decode, parse_str, parse_value, parse_values, parse_set_members, parse_hash_entries, parse_tree_entries, build_hash, build_tree, CODEC_VERSION, TAG_HASH, TAG_SET, TAG_LIST, TAG_TREE};

verus! {

// ---------------------------------------------------------------------------
// Which values encode faithfully

/// Members of a set listed in strictly increasing payload order.
pub open spec fn payloads_increasing(ms: Seq<ValueModel>) -> bool {
    forall|i: int, j: int|
        0 <= i < j < ms.len() ==> bytes_lt(enc_value(#[trigger] ms[i]), enc_value(#[trigger] ms[j]))
}

impl ValueModel {
    /// The canonical form: maps sorted by key, sets sorted by payload without
    /// repeats, at every level. Decoding only ever produces canonical values.
    pub open spec fn canonical(self) -> bool
        decreases self,
    {
        match self {
            ValueModel::Scalar(_) => true,
            ValueModel::Hash(es) => str_keys_increasing(es) && forall|i: int|
                0 <= i < es.len() ==> (#[trigger] es[i]).1.canonical(),
            ValueModel::SetOf(ms) => payloads_increasing(ms) && forall|i: int|
                0 <= i < ms.len() ==> (#[trigger] ms[i]).canonical(),
            ValueModel::List(vs) => forall|i: int| 0 <= i < vs.len() ==> (#[trigger] vs[i]).canonical(),
            ValueModel::Tree(es) => scalar_keys_increasing(es) && forall|i: int|
                0 <= i < es.len() ==> (#[trigger] es[i]).1.canonical(),
        }
    }

    /// Every length in the value fits the 32-bit length fields of the encoding.
    pub open spec fn encodable(self) -> bool
        decreases self,
    {
        match self {
            ValueModel::Scalar(s) => scalar_encodable(s),
            ValueModel::Hash(es) => es.len() <= u32::MAX && forall|i: int|
                0 <= i < es.len() ==> encode_utf8((#[trigger] es[i]).0).len() <= u32::MAX
                    && es[i].1.encodable(),
            ValueModel::SetOf(ms) => ms.len() <= u32::MAX && forall|i: int|
                0 <= i < ms.len() ==> (#[trigger] ms[i]).encodable(),
            ValueModel::List(vs) => vs.len() <= u32::MAX && forall|i: int|
                0 <= i < vs.len() ==> (#[trigger] vs[i]).encodable(),
            ValueModel::Tree(es) => es.len() <= u32::MAX && forall|i: int|
                0 <= i < es.len() ==> scalar_encodable((#[trigger] es[i]).0) && es[i].1.encodable(),
        }
    }
}

pub open spec fn scalar_encodable(s: ScalarModel) -> bool {
    match s {
        ScalarModel::Str(cs) => encode_utf8(cs).len() <= u32::MAX,
        ScalarModel::Bytes(b) => b.len() <= u32::MAX,
        _ => true,
    }
}

/// Parsing the encoding of `v` followed by any bytes consumes exactly the
/// encoding and yields a value with the same encoding, which is `v` itself
/// when `v` is canonical.
pub open spec fn roundtrips(v: ValueModel) -> bool {
    forall|rest: Seq<u8>|
        #![trigger parse_value(enc_value(v) + rest)]
        parse_value(enc_value(v) + rest) matches Ok((w, k)) && k == enc_value(v).len()
            && enc_value(w) == enc_value(v) && (v.canonical() ==> w == v)
}

// ---------------------------------------------------------------------------
// Encodings read from the front

proof fn lemma_enc_values_front(vs: Seq<ValueModel>)
    requires
        vs.len() > 0,
    ensures
        enc_values(vs) == enc_value(vs[0]) + enc_values(vs.drop_first()),
    decreases vs.len(),
{
    if vs.len() == 1 {
        assert(vs.drop_last() =~= Seq::<ValueModel>::empty());
        assert(vs.drop_first() =~= Seq::<ValueModel>::empty());
        assert(enc_values(vs) =~= enc_value(vs[0]) + enc_values(vs.drop_first()));
    } else {
        lemma_enc_values_front(vs.drop_last());
        assert(vs.drop_last().drop_first() =~= vs.drop_first().drop_last());
        assert(vs.drop_first().last() == vs.last());
        assert(enc_values(vs) =~= enc_value(vs[0]) + enc_values(vs.drop_first()));
    }
}

proof fn lemma_enc_hash_entries_front(es: Seq<(Seq<char>, ValueModel)>)
    requires
        es.len() > 0,
    ensures
        enc_hash_entries(es) == enc_str(es[0].0) + enc_value(es[0].1) + enc_hash_entries(
            es.drop_first(),
        ),
    decreases es.len(),
{
    if es.len() == 1 {
        assert(es.drop_last() =~= Seq::<(Seq<char>, ValueModel)>::empty());
        assert(es.drop_first() =~= Seq::<(Seq<char>, ValueModel)>::empty());
        assert(enc_hash_entries(es) =~= enc_str(es[0].0) + enc_value(es[0].1) + enc_hash_entries(
            es.drop_first(),
        ));
    } else {
        lemma_enc_hash_entries_front(es.drop_last());
        assert(es.drop_last().drop_first() =~= es.drop_first().drop_last());
        assert(es.drop_first().last() == es.last());
        assert(enc_hash_entries(es) =~= enc_str(es[0].0) + enc_value(es[0].1) + enc_hash_entries(
            es.drop_first(),
        ));
    }
}

proof fn lemma_enc_tree_entries_front(es: Seq<(ScalarModel, ValueModel)>)
    requires
        es.len() > 0,
    ensures
        enc_tree_entries(es) == enc_scalar(es[0].0) + enc_value(es[0].1) + enc_tree_entries(
            es.drop_first(),
        ),
    decreases es.len(),
{
    if es.len() == 1 {
        assert(es.drop_last() =~= Seq::<(ScalarModel, ValueModel)>::empty());
        assert(es.drop_first() =~= Seq::<(ScalarModel, ValueModel)>::empty());
        assert(enc_tree_entries(es) =~= enc_scalar(es[0].0) + enc_value(es[0].1)
            + enc_tree_entries(es.drop_first()));
    } else {
        lemma_enc_tree_entries_front(es.drop_last());
        assert(es.drop_last().drop_first() =~= es.drop_first().drop_last());
        assert(es.drop_first().last() == es.last());
        assert(enc_tree_entries(es) =~= enc_scalar(es[0].0) + enc_value(es[0].1)
            + enc_tree_entries(es.drop_first()));
    }
}

proof fn lemma_concat_front(ps: Seq<Seq<u8>>)
    requires
        ps.len() > 0,
    ensures
        concat(ps) == ps[0] + concat(ps.drop_first()),
    decreases ps.len(),
{
    if ps.len() == 1 {
        assert(ps.drop_last() =~= Seq::<Seq<u8>>::empty());
        assert(ps.drop_first() =~= Seq::<Seq<u8>>::empty());
        assert(concat(ps) =~= ps[0] + concat(ps.drop_first()));
    } else {
        lemma_concat_front(ps.drop_last());
        assert(ps.drop_last().drop_first() =~= ps.drop_first().drop_last());
        assert(ps.drop_first().last() == ps.last());
        assert(concat(ps) =~= ps[0] + concat(ps.drop_first()));
    }
}

// ---------------------------------------------------------------------------
// Scalars and strings

proof fn lemma_parse_str_enc(cs: Seq<char>, rest: Seq<u8>)
    requires
        encode_utf8(cs).len() <= u32::MAX,
    ensures
        parse_str(enc_str(cs) + rest) == Ok::<(Seq<char>, int), CodecError>(
            (cs, enc_str(cs).len() as int),
        ),
{
    let b = encode_utf8(cs);
    let s = enc_str(cs) + rest;
    lemma_le32_roundtrip(b.len() as u32);
    assert(s.take(4) =~= le32(b.len() as u32));
    assert(s.subrange(4, 4 + b.len() as int) =~= b);
    encode_utf8_valid_utf8(cs);
    encode_utf8_decode_utf8(cs);
}

proof fn lemma_parse_scalar_enc(sc: ScalarModel, rest: Seq<u8>)
    requires
        scalar_encodable(sc),
    ensures
        parse_value(enc_scalar(sc) + rest) == Ok::<(ValueModel, int), CodecError>(
            (ValueModel::Scalar(sc), enc_scalar(sc).len() as int),
        ),
{
    let s = enc_scalar(sc) + rest;
    assert(s[0] == enc_scalar(sc)[0]);
    match sc {
        ScalarModel::Null => {},
        ScalarModel::Bool(b) => {
            assert(s.drop_first()[0] == enc_scalar(sc)[1]);
        },
        ScalarModel::Int(n) => {
            lemma_le64_roundtrip(n as u64);
            lemma_i64_bits_roundtrip(n);
            assert(s.drop_first().take(8) =~= le64(n as u64));
        },
        ScalarModel::Float(bits) => {
            lemma_le64_roundtrip(bits);
            assert(s.drop_first().take(8) =~= le64(bits));
        },
        ScalarModel::Str(cs) => {
            assert(s.drop_first() =~= enc_str(cs) + rest);
            lemma_parse_str_enc(cs, rest);
        },
        ScalarModel::Bytes(b) => {
            lemma_le32_roundtrip(b.len() as u32);
            assert(s.drop_first().take(4) =~= le32(b.len() as u32));
            assert(s.drop_first().subrange(4, 4 + b.len() as int) =~= b);
        },
    }
}

// ---------------------------------------------------------------------------
// Sequences of encodings

proof fn lemma_parse_values_enc(vs: Seq<ValueModel>, rest: Seq<u8>)
    requires
        forall|i: int| 0 <= i < vs.len() ==> roundtrips(#[trigger] vs[i]),
    ensures
        parse_values(enc_values(vs) + rest, vs.len()) matches Ok((ws, k)) && k == enc_values(
            vs,
        ).len() && ws.len() == vs.len() && enc_values(ws) == enc_values(vs) && ((forall|i: int|
            0 <= i < vs.len() ==> (#[trigger] vs[i]).canonical()) ==> ws == vs),
    decreases vs.len(),
{
    if vs.len() == 0 {
        assert(enc_values(vs) + rest =~= rest);
        let ws = Seq::<ValueModel>::empty();
        assert(ws =~= vs);
    } else {
        lemma_enc_values_front(vs);
        let t = vs.drop_first();
        let s = enc_values(vs) + rest;
        let r2 = enc_values(t) + rest;
        assert(s =~= enc_value(vs[0]) + r2);
        assert(roundtrips(vs[0]));
        let (w0, k0) = parse_value(enc_value(vs[0]) + r2)->Ok_0;
        assert(s.skip(k0) =~= r2);
        assert forall|i: int| 0 <= i < t.len() implies roundtrips(#[trigger] t[i]) by {
            assert(t[i] == vs[i + 1]);
        }
        lemma_parse_values_enc(t, rest);
        let (wt, kt) = parse_values(r2, t.len())->Ok_0;
        let ws = seq![w0] + wt;
        assert(parse_values(s, vs.len()) == Ok::<(Seq<ValueModel>, int), CodecError>(
            (ws, k0 + kt),
        ));
        lemma_enc_values_front(ws);
        assert(ws.drop_first() =~= wt);
        if forall|i: int| 0 <= i < vs.len() ==> (#[trigger] vs[i]).canonical() {
            assert(vs[0].canonical());
            assert forall|i: int| 0 <= i < t.len() implies (#[trigger] t[i]).canonical() by {
                assert(t[i] == vs[i + 1]);
            }
            assert(ws =~= vs);
        }
    }
}

#[verifier::rlimit(50)]
proof fn lemma_parse_hash_enc(es: Seq<(Seq<char>, ValueModel)>, rest: Seq<u8>)
    requires
        forall|i: int|
            0 <= i < es.len() ==> roundtrips((#[trigger] es[i]).1) && encode_utf8(es[i].0).len()
                <= u32::MAX,
    ensures
        parse_hash_entries(enc_hash_entries(es) + rest, es.len()) matches Ok((es2, k)) && k
            == enc_hash_entries(es).len() && es2.len() == es.len() && (forall|i: int|
            0 <= i < es.len() ==> (#[trigger] es2[i]).0 == es[i].0) && enc_hash_entries(es2)
            == enc_hash_entries(es) && ((forall|i: int|
            0 <= i < es.len() ==> (#[trigger] es[i]).1.canonical()) ==> es2 == es),
    decreases es.len(),
{
    if es.len() == 0 {
        assert(enc_hash_entries(es) + rest =~= rest);
        let e2 = Seq::<(Seq<char>, ValueModel)>::empty();
        assert(e2 =~= es);
    } else {
        lemma_enc_hash_entries_front(es);
        let t = es.drop_first();
        let s = enc_hash_entries(es) + rest;
        let r3 = enc_hash_entries(t) + rest;
        let r2 = enc_value(es[0].1) + r3;
        assert(s =~= enc_str(es[0].0) + r2);
        lemma_parse_str_enc(es[0].0, r2);
        let k1 = enc_str(es[0].0).len() as int;
        assert(parse_str(s) == Ok::<(Seq<char>, int), CodecError>((es[0].0, k1)));
        assert(s.skip(k1) =~= r2);
        assert(roundtrips(es[0].1));
        let (w0, k2) = parse_value(enc_value(es[0].1) + r3)->Ok_0;
        assert(s.skip(k1 + k2) =~= r3);
        assert forall|i: int| 0 <= i < t.len() implies roundtrips((#[trigger] t[i]).1)
            && encode_utf8(t[i].0).len() <= u32::MAX by {
            assert(t[i] == es[i + 1]);
        }
        lemma_parse_hash_enc(t, rest);
        let (et, kt) = parse_hash_entries(r3, t.len())->Ok_0;
        let e2 = seq![(es[0].0, w0)] + et;
        assert(parse_hash_entries(s, es.len()) == Ok::<
            (Seq<(Seq<char>, ValueModel)>, int),
            CodecError,
        >((e2, k1 + k2 + kt)));
        lemma_enc_hash_entries_front(e2);
        assert(e2.drop_first() =~= et);
        assert forall|i: int| 0 <= i < es.len() implies (#[trigger] e2[i]).0 == es[i].0 by {
            if i > 0 {
                assert(e2[i] == et[i - 1]);
                assert(t[i - 1] == es[i]);
            }
        }
        if forall|i: int| 0 <= i < es.len() ==> (#[trigger] es[i]).1.canonical() {
            assert(es[0].1.canonical());
            assert forall|i: int| 0 <= i < t.len() implies (#[trigger] t[i]).1.canonical() by {
                assert(t[i] == es[i + 1]);
            }
            assert(e2 =~= es);
        }
    }
}

proof fn lemma_parse_tree_enc(es: Seq<(ScalarModel, ValueModel)>, rest: Seq<u8>)
    requires
        forall|i: int|
            0 <= i < es.len() ==> roundtrips((#[trigger] es[i]).1) && scalar_encodable(es[i].0),
    ensures
        parse_tree_entries(enc_tree_entries(es) + rest, es.len()) matches Ok((es2, k)) && k
            == enc_tree_entries(es).len() && es2.len() == es.len() && (forall|i: int|
            0 <= i < es.len() ==> (#[trigger] es2[i]).0 == es[i].0) && enc_tree_entries(es2)
            == enc_tree_entries(es) && ((forall|i: int|
            0 <= i < es.len() ==> (#[trigger] es[i]).1.canonical()) ==> es2 == es),
    decreases es.len(),
{
    if es.len() == 0 {
        assert(enc_tree_entries(es) + rest =~= rest);
        let e2 = Seq::<(ScalarModel, ValueModel)>::empty();
        assert(e2 =~= es);
    } else {
        lemma_enc_tree_entries_front(es);
        let t = es.drop_first();
        let s = enc_tree_entries(es) + rest;
        let r3 = enc_tree_entries(t) + rest;
        let r2 = enc_value(es[0].1) + r3;
        assert(s =~= enc_scalar(es[0].0) + r2);
        lemma_parse_scalar_enc(es[0].0, r2);
        let k1 = enc_scalar(es[0].0).len() as int;
        assert(s.skip(k1) =~= r2);
        assert(roundtrips(es[0].1));
        let (w0, k2) = parse_value(enc_value(es[0].1) + r3)->Ok_0;
        assert(s.skip(k1 + k2) =~= r3);
        assert forall|i: int| 0 <= i < t.len() implies roundtrips((#[trigger] t[i]).1)
            && scalar_encodable(t[i].0) by {
            assert(t[i] == es[i + 1]);
        }
        lemma_parse_tree_enc(t, rest);
        let (et, kt) = parse_tree_entries(r3, t.len())->Ok_0;
        let e2 = seq![(es[0].0, w0)] + et;
        assert(parse_tree_entries(s, es.len()) == Ok::<
            (Seq<(ScalarModel, ValueModel)>, int),
            CodecError,
        >((e2, k1 + k2 + kt)));
        lemma_enc_tree_entries_front(e2);
        assert(e2.drop_first() =~= et);
        assert forall|i: int| 0 <= i < es.len() implies (#[trigger] e2[i]).0 == es[i].0 by {
            if i > 0 {
                assert(e2[i] == et[i - 1]);
                assert(t[i - 1] == es[i]);
            }
        }
        if forall|i: int| 0 <= i < es.len() ==> (#[trigger] es[i]).1.canonical() {
            assert(es[0].1.canonical());
            assert forall|i: int| 0 <= i < t.len() implies (#[trigger] t[i]).1.canonical() by {
                assert(t[i] == es[i + 1]);
            }
            assert(e2 =~= es);
        }
    }
}


// ---------------------------------------------------------------------------
// Sets

pub open spec fn strictly_increasing(ps: Seq<Seq<u8>>) -> bool {
    forall|i: int, j: int| 0 <= i < j < ps.len() ==> bytes_lt(#[trigger] ps[i], #[trigger] ps[j])
}

proof fn lemma_insert_payload_props(ps: Seq<Seq<u8>>, p: Seq<u8>)
    requires
        strictly_increasing(ps),
    ensures
        strictly_increasing(insert_payload(ps, p)),
        insert_payload(ps, p).len() <= ps.len() + 1,
        forall|j: int|
            0 <= j < insert_payload(ps, p).len() ==> (#[trigger] insert_payload(ps, p)[j] == p
                || exists|i: int| 0 <= i < ps.len() && ps[i] == insert_payload(ps, p)[j]),
        (forall|j: int| 0 <= j < ps.len() ==> bytes_lt(#[trigger] ps[j], p)) ==> insert_payload(
            ps,
            p,
        ) == ps.push(p),
    decreases ps.len(),
{
    let r = insert_payload(ps, p);
    if forall|j: int| 0 <= j < ps.len() ==> bytes_lt(#[trigger] ps[j], p) {
        lemma_insert_payload_at(ps, p, ps.len() as int);
        assert(ps.take(ps.len() as int) + seq![p] + ps.skip(ps.len() as int) =~= ps.push(p));
    }
    if ps.len() == 0 {
    } else if ps[0] == p {
        assert forall|j: int| 0 <= j < r.len() implies (#[trigger] r[j] == p || exists|i: int|
            0 <= i < ps.len() && ps[i] == r[j]) by {
            assert(ps[j] == r[j]);
        }
    } else if bytes_lt(p, ps[0]) {
        assert forall|i: int, j: int| 0 <= i < j < r.len() implies bytes_lt(
            #[trigger] r[i],
            #[trigger] r[j],
        ) by {
            if i == 0 && j > 1 {
                lemma_bytes_lt_transitive(p, ps[0], ps[j - 1]);
            }
        }
        assert forall|j: int| 0 <= j < r.len() implies (#[trigger] r[j] == p || exists|i: int|
            0 <= i < ps.len() && ps[i] == r[j]) by {
            if j > 0 {
                assert(ps[j - 1] == r[j]);
            }
        }
    } else {
        let t = ps.drop_first();
        assert forall|i: int, j: int| 0 <= i < j < t.len() implies bytes_lt(
            #[trigger] t[i],
            #[trigger] t[j],
        ) by {
            assert(t[i] == ps[i + 1]);
            assert(t[j] == ps[j + 1]);
        }
        lemma_insert_payload_props(t, p);
        let rt = insert_payload(t, p);
        lemma_bytes_lt_total(p, ps[0]);
        assert forall|i: int, j: int| 0 <= i < j < r.len() implies bytes_lt(
            #[trigger] r[i],
            #[trigger] r[j],
        ) by {
            if i == 0 {
                assert(r[j] == rt[j - 1]);
                if rt[j - 1] != p {
                    let ii = choose|ii: int| 0 <= ii < t.len() && t[ii] == rt[j - 1];
                    assert(t[ii] == ps[ii + 1]);
                }
            } else {
                assert(r[i] == rt[i - 1]);
                assert(r[j] == rt[j - 1]);
            }
        }
        assert forall|j: int| 0 <= j < r.len() implies (#[trigger] r[j] == p || exists|i: int|
            0 <= i < ps.len() && ps[i] == r[j]) by {
            if j == 0 {
                assert(ps[0] == r[0]);
            } else {
                assert(r[j] == rt[j - 1]);
                if rt[j - 1] != p {
                    let ii = choose|ii: int| 0 <= ii < t.len() && t[ii] == rt[j - 1];
                    assert(t[ii] == ps[ii + 1]);
                }
            }
        }
    }
}

/// The payloads of a set are strictly increasing, each is the payload of a
/// member, and for members already in increasing payload order they are
/// exactly the members' payloads.
pub proof fn lemma_set_payloads_props(ms: Seq<ValueModel>)
    ensures
        strictly_increasing(set_payloads(ms)),
        set_payloads(ms).len() <= ms.len(),
        forall|j: int|
            0 <= j < set_payloads(ms).len() ==> exists|i: int|
                0 <= i < ms.len() && enc_value(ms[i]) == #[trigger] set_payloads(ms)[j],
        payloads_increasing(ms) ==> set_payloads(ms) == Seq::new(
            ms.len(),
            |i: int| enc_value(ms[i]),
        ),
    decreases ms.len(),
{
    if ms.len() > 0 {
        let init = ms.drop_last();
        lemma_set_payloads_props(init);
        let pi = set_payloads(init);
        let p = enc_value(ms.last());
        lemma_insert_payload_props(pi, p);
        let r = set_payloads(ms);
        assert forall|j: int| 0 <= j < r.len() implies exists|i: int|
            0 <= i < ms.len() && enc_value(ms[i]) == #[trigger] r[j] by {
            if r[j] == p {
                assert(enc_value(ms[ms.len() - 1]) == r[j]);
            } else {
                let ii = choose|ii: int| 0 <= ii < pi.len() && pi[ii] == r[j];
                let i = choose|i: int| 0 <= i < init.len() && enc_value(init[i]) == pi[ii];
                assert(init[i] == ms[i]);
            }
        }
        if payloads_increasing(ms) {
            assert(payloads_increasing(init)) by {
                assert forall|i: int, j: int| 0 <= i < j < init.len() implies bytes_lt(
                    enc_value(#[trigger] init[i]),
                    enc_value(#[trigger] init[j]),
                ) by {
                    assert(init[i] == ms[i]);
                    assert(init[j] == ms[j]);
                }
            }
            assert forall|j: int| 0 <= j < pi.len() implies bytes_lt(#[trigger] pi[j], p) by {
                assert(pi[j] == enc_value(init[j]));
                assert(init[j] == ms[j]);
            }
            assert(r =~= Seq::new(ms.len(), |i: int| enc_value(ms[i])));
        }
    } else {
        assert(set_payloads(ms) =~= Seq::new(ms.len(), |i: int| enc_value(ms[i])));
    }
}

proof fn lemma_parse_set_enc(
    q: Seq<Seq<u8>>,
    src: Seq<ValueModel>,
    rest: Seq<u8>,
    prev: Option<Seq<u8>>,
)
    requires
        q.len() == src.len(),
        strictly_increasing(q),
        forall|j: int| 0 <= j < q.len() ==> q[j] == enc_value(#[trigger] src[j]) && roundtrips(
            src[j],
        ),
        prev matches Some(pq) ==> (q.len() > 0 ==> bytes_lt(pq, q[0])),
    ensures
        parse_set_members(concat(q) + rest, q.len(), prev) matches Ok((ws, k)) && k == concat(
            q,
        ).len() && ws.len() == q.len() && (forall|j: int|
            0 <= j < q.len() ==> enc_value(#[trigger] ws[j]) == q[j]) && ((forall|j: int|
            0 <= j < q.len() ==> (#[trigger] src[j]).canonical()) ==> ws == src),
    decreases q.len(),
{
    if q.len() == 0 {
        assert(concat(q) + rest =~= rest);
        let ws = Seq::<ValueModel>::empty();
        assert(ws =~= src);
    } else {
        lemma_concat_front(q);
        let qt = q.drop_first();
        let st = src.drop_first();
        let s = concat(q) + rest;
        let r2 = concat(qt) + rest;
        assert(s =~= enc_value(src[0]) + r2);
        assert(roundtrips(src[0]));
        let (w0, k0) = parse_value(enc_value(src[0]) + r2)->Ok_0;
        assert(s.skip(k0) =~= r2);
        assert forall|i: int, j: int| 0 <= i < j < qt.len() implies bytes_lt(
            #[trigger] qt[i],
            #[trigger] qt[j],
        ) by {
            assert(qt[i] == q[i + 1]);
            assert(qt[j] == q[j + 1]);
        }
        assert forall|j: int| 0 <= j < qt.len() implies qt[j] == enc_value(#[trigger] st[j])
            && roundtrips(st[j]) by {
            assert(qt[j] == q[j + 1]);
            assert(st[j] == src[j + 1]);
        }
        if qt.len() > 0 {
            assert(qt[0] == q[1]);
        }
        lemma_parse_set_enc(qt, st, rest, Some(q[0]));
        let (wt, kt) = parse_set_members(r2, qt.len(), Some(q[0]))->Ok_0;
        let ws = seq![w0] + wt;
        assert(parse_set_members(s, q.len(), prev) == Ok::<(Seq<ValueModel>, int), CodecError>(
            (ws, k0 + kt),
        ));
        assert forall|j: int| 0 <= j < q.len() implies enc_value(#[trigger] ws[j]) == q[j] by {
            if j > 0 {
                assert(ws[j] == wt[j - 1]);
                assert(qt[j - 1] == q[j]);
            }
        }
        if forall|j: int| 0 <= j < q.len() ==> (#[trigger] src[j]).canonical() {
            assert(src[0].canonical());
            assert forall|j: int| 0 <= j < st.len() implies (#[trigger] st[j]).canonical() by {
                assert(st[j] == src[j + 1]);
            }
            assert(ws =~= src);
        }
    }
}

proof fn lemma_build_hash_sorted(acc: Seq<(Seq<char>, ValueModel)>, es: Seq<(Seq<char>, ValueModel)>)
    requires
        str_keys_increasing(acc + es),
    ensures
        build_hash(acc, es) == acc + es,
    decreases es.len(),
{
    if es.len() == 0 {
        assert(acc + es =~= acc);
    } else {
        let all = acc + es;
        assert forall|j: int| 0 <= j < acc.len() implies str_lt(#[trigger] acc[j].0, es[0].0) by {
            assert(all[j] == acc[j]);
            assert(all[acc.len() as int] == es[0]);
        }
        crate::value::lemma_str_insert_at_end(acc, es[0].0, es[0].1);
        assert(acc.push(es[0]) + es.drop_first() =~= all);
        lemma_build_hash_sorted(acc.push(es[0]), es.drop_first());
    }
}

proof fn lemma_build_tree_sorted(acc: Seq<(ScalarModel, ValueModel)>, es: Seq<(ScalarModel, ValueModel)>)
    requires
        scalar_keys_increasing(acc + es),
    ensures
        build_tree(acc, es) == acc + es,
    decreases es.len(),
{
    if es.len() == 0 {
        assert(acc + es =~= acc);
    } else {
        let all = acc + es;
        assert forall|j: int| 0 <= j < acc.len() implies scalar_lt(#[trigger] acc[j].0, es[0].0) by {
            assert(all[j] == acc[j]);
            assert(all[acc.len() as int] == es[0]);
        }
        crate::value::lemma_scalar_insert_at_end(acc, es[0].0, es[0].1);
        assert(acc.push(es[0]) + es.drop_first() =~= all);
        lemma_build_tree_sorted(acc.push(es[0]), es.drop_first());
    }
}

// ---------------------------------------------------------------------------
// The roundtrip

/// Every well-formed value whose lengths fit the encoding round-trips.
#[verifier::spinoff_prover]
#[verifier::rlimit(40)]
pub proof fn lemma_roundtrips(v: ValueModel)
    requires
        v.wf(),
        v.encodable(),
    ensures
        roundtrips(v),
    decreases v,
{
    match v {
        ValueModel::Scalar(sc) => {
            assert forall|rest: Seq<u8>| #[trigger]
                parse_value(enc_value(v) + rest) matches Ok((w, k)) && k == enc_value(v).len()
                    && enc_value(w) == enc_value(v) && (v.canonical() ==> w == v) by {
                lemma_parse_scalar_enc(sc, rest);
            }
        },
        ValueModel::List(vs) => {
            assert forall|i: int| 0 <= i < vs.len() implies roundtrips(#[trigger] vs[i]) by {
                lemma_roundtrips(vs[i]);
            }
            assert forall|rest: Seq<u8>| #[trigger]
                parse_value(enc_value(v) + rest) matches Ok((w, k)) && k == enc_value(v).len()
                    && enc_value(w) == enc_value(v) && (v.canonical() ==> w == v) by {
                let s = enc_value(v) + rest;
                lemma_le32_roundtrip(vs.len() as u32);
                assert(s[0] == TAG_LIST);
                assert(s.drop_first().take(4) =~= le32(vs.len() as u32));
                assert(s.drop_first().skip(4) =~= enc_values(vs) + rest);
                lemma_parse_values_enc(vs, rest);
            }
        },
        ValueModel::Hash(es) => {
            assert forall|i: int| 0 <= i < es.len() implies roundtrips((#[trigger] es[i]).1)
                && encode_utf8(es[i].0).len() <= u32::MAX by {
                lemma_roundtrips(es[i].1);
            }
            assert forall|rest: Seq<u8>| #[trigger]
                parse_value(enc_value(v) + rest) matches Ok((w, k)) && k == enc_value(v).len()
                    && enc_value(w) == enc_value(v) && (v.canonical() ==> w == v) by {
                let s = enc_value(v) + rest;
                lemma_le32_roundtrip(es.len() as u32);
                assert(s[0] == TAG_HASH);
                assert(s.drop_first().take(4) =~= le32(es.len() as u32));
                assert(s.drop_first().skip(4) =~= enc_hash_entries(es) + rest);
                lemma_parse_hash_enc(es, rest);
                let (es2, k) = parse_hash_entries(enc_hash_entries(es) + rest, es.len())->Ok_0;
                assert(Seq::<(Seq<char>, ValueModel)>::empty() + es2 =~= es2);
                lemma_build_hash_sorted(Seq::empty(), es2);
            }
        },
        ValueModel::Tree(es) => {
            assert forall|i: int| 0 <= i < es.len() implies roundtrips((#[trigger] es[i]).1)
                && scalar_encodable(es[i].0) by {
                lemma_roundtrips(es[i].1);
            }
            assert forall|rest: Seq<u8>| #[trigger]
                parse_value(enc_value(v) + rest) matches Ok((w, k)) && k == enc_value(v).len()
                    && enc_value(w) == enc_value(v) && (v.canonical() ==> w == v) by {
                let s = enc_value(v) + rest;
                lemma_le32_roundtrip(es.len() as u32);
                assert(s[0] == TAG_TREE);
                assert(s.drop_first().take(4) =~= le32(es.len() as u32));
                assert(s.drop_first().skip(4) =~= enc_tree_entries(es) + rest);
                lemma_parse_tree_enc(es, rest);
                let (es2, k) = parse_tree_entries(enc_tree_entries(es) + rest, es.len())->Ok_0;
                assert(Seq::<(ScalarModel, ValueModel)>::empty() + es2 =~= es2);
                lemma_build_tree_sorted(Seq::empty(), es2);
            }
        },
        ValueModel::SetOf(ms) => {
            assert forall|i: int| 0 <= i < ms.len() implies roundtrips(#[trigger] ms[i]) by {
                lemma_roundtrips(ms[i]);
            }
            lemma_set_payloads_props(ms);
            let q = set_payloads(ms);
            let src = if v.canonical() {
                ms
            } else {
                Seq::new(
                    q.len(),
                    |j: int| ms[choose|i: int| 0 <= i < ms.len() && enc_value(ms[i]) == q[j]],
                )
            };
            assert forall|j: int| 0 <= j < q.len() implies q[j] == enc_value(#[trigger] src[j])
                && roundtrips(src[j]) by {
                if !v.canonical() {
                    let i = choose|i: int| 0 <= i < ms.len() && enc_value(ms[i]) == q[j];
                    assert(src[j] == ms[i]);
                }
            }
            assert forall|rest: Seq<u8>| #[trigger]
                parse_value(enc_value(v) + rest) matches Ok((w, k)) && k == enc_value(v).len()
                    && enc_value(w) == enc_value(v) && (v.canonical() ==> w == v) by {
                let s = enc_value(v) + rest;
                lemma_le32_roundtrip(q.len() as u32);
                assert(s[0] == TAG_SET);
                assert(s.drop_first().take(4) =~= le32(q.len() as u32));
                assert(s.drop_first().skip(4) =~= concat(q) + rest);
                lemma_parse_set_enc(q, src, rest, None);
                let (ws, k) = parse_set_members(concat(q) + rest, q.len(), None)->Ok_0;
                assert(payloads_increasing(ws));
                lemma_set_payloads_props(ws);
                assert(set_payloads(ws) =~= q);
            }
        },
    }
}

/// Decoding the encoding of a well-formed value succeeds and yields a value
/// with the same encoding; a canonical value comes back unchanged.
pub proof fn lemma_decode_encode(v: ValueModel)
    requires
        v.wf(),
        v.encodable(),
    ensures
        spec_decode(spec_encode(v)) matches Ok(w) && spec_encode(w) == spec_encode(v) && (
        v.canonical() ==> w == v),
{
    lemma_roundtrips(v);
    let b = spec_encode(v);
    assert(b.drop_first() =~= enc_value(v) + Seq::<u8>::empty());
    assert(b[0] == CODEC_VERSION);
}

/// An encoding followed by anything more is refused as having trailing
/// bytes.
pub proof fn lemma_trailing_bytes_refused(v: ValueModel, extra: Seq<u8>)
    requires
        v.wf(),
        v.encodable(),
        extra.len() > 0,
    ensures
        spec_decode(spec_encode(v) + extra) == Err::<ValueModel, CodecError>(CodecError::TrailingBytes),
{
    lemma_roundtrips(v);
    let b = spec_encode(v) + extra;
    assert(b.drop_first() =~= enc_value(v) + extra);
    assert(b[0] == CODEC_VERSION);
    assert(spec_encode(v).len() == enc_value(v).len() + 1);
}
} // verus!
