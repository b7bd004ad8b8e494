//! Hashes, trees and sets are canonical: what they hold, and so how they are
//! encoded, does not depend on the order their entries were added in.

use vstd::prelude::*;
use crate::order::{bytes_lt, str_lt, lemma_str_lt_total, lemma_str_lt_transitive};
use crate::order::{lemma_bytes_lt_irreflexive, lemma_bytes_lt_transitive};
use crate::value::{ScalarModel, ValueModel, str_insert, scalar_insert, scalar_lt, lemma_scalar_lt_total, lemma_scalar_lt_transitive};
use crate::codec::{enc_value, set_payloads, insert_payload};
use crate::roundtrip::{strictly_increasing, lemma_set_payloads_props};

verus! {

/// Adding two entries with different keys to a hash gives the same hash in
/// either order.
pub proof fn lemma_str_insert_commutes(
    es: Seq<(Seq<char>, ValueModel)>,
    k1: Seq<char>,
    v1: ValueModel,
    k2: Seq<char>,
    v2: ValueModel,
)
    requires
        k1 != k2,
    ensures
        str_insert(str_insert(es, k1, v1), k2, v2) == str_insert(str_insert(es, k2, v2), k1, v1),
    decreases es.len(),
{
    lemma_str_lt_total(k1, k2);
    if es.len() > 0 {
        let e = es[0].0;
        lemma_str_lt_total(k1, e);
        lemma_str_lt_total(k2, e);
        let t = es.drop_first();
        if str_lt(k1, e) && str_lt(e, k2) {
            lemma_str_lt_transitive(k1, e, k2);
        }
        if str_lt(k2, e) && str_lt(e, k1) {
            lemma_str_lt_transitive(k2, e, k1);
        }
        if e != k1 && e != k2 && !str_lt(k1, e) && !str_lt(k2, e) {
            lemma_str_insert_commutes(t, k1, v1, k2, v2);
        }
        assert(seq![(k1, v1)].drop_first() =~= Seq::<(Seq<char>, ValueModel)>::empty());
        assert((seq![(k1, v1)] + t).drop_first() =~= t);
        assert((seq![(k2, v2)] + t).drop_first() =~= t);
        assert((seq![(k1, v1)] + es).drop_first() =~= es);
        assert((seq![(k2, v2)] + es).drop_first() =~= es);
        assert((seq![es[0]] + str_insert(t, k1, v1)).drop_first() =~= str_insert(t, k1, v1));
        assert((seq![es[0]] + str_insert(t, k2, v2)).drop_first() =~= str_insert(t, k2, v2));
        assert(str_insert(str_insert(es, k1, v1), k2, v2) =~= str_insert(
            str_insert(es, k2, v2),
            k1,
            v1,
        ));
    } else {
        let one1 = seq![(k1, v1)];
        let one2 = seq![(k2, v2)];
        assert(one1.drop_first() =~= Seq::<(Seq<char>, ValueModel)>::empty());
        assert(one2.drop_first() =~= Seq::<(Seq<char>, ValueModel)>::empty());
        assert(str_insert(es, k1, v1) == one1);
        assert(str_insert(es, k2, v2) == one2);
        assert(str_insert(one1.drop_first(), k2, v2) == one2);
        assert(str_insert(one2.drop_first(), k1, v1) == one1);
        assert(str_insert(str_insert(es, k1, v1), k2, v2) =~= str_insert(
            str_insert(es, k2, v2),
            k1,
            v1,
        ));
    }
}

/// Adding two entries with different keys to a tree gives the same tree in
/// either order.
pub proof fn lemma_scalar_insert_commutes(
    es: Seq<(ScalarModel, ValueModel)>,
    k1: ScalarModel,
    v1: ValueModel,
    k2: ScalarModel,
    v2: ValueModel,
)
    requires
        k1 != k2,
    ensures
        scalar_insert(scalar_insert(es, k1, v1), k2, v2) == scalar_insert(scalar_insert(es, k2, v2), k1, v1),
    decreases es.len(),
{
    lemma_scalar_lt_total(k1, k2);
    if es.len() > 0 {
        let e = es[0].0;
        lemma_scalar_lt_total(k1, e);
        lemma_scalar_lt_total(k2, e);
        let t = es.drop_first();
        if scalar_lt(k1, e) && scalar_lt(e, k2) {
            lemma_scalar_lt_transitive(k1, e, k2);
        }
        if scalar_lt(k2, e) && scalar_lt(e, k1) {
            lemma_scalar_lt_transitive(k2, e, k1);
        }
        if e != k1 && e != k2 && !scalar_lt(k1, e) && !scalar_lt(k2, e) {
            lemma_scalar_insert_commutes(t, k1, v1, k2, v2);
        }
        assert(seq![(k1, v1)].drop_first() =~= Seq::<(ScalarModel, ValueModel)>::empty());
        assert((seq![(k1, v1)] + t).drop_first() =~= t);
        assert((seq![(k2, v2)] + t).drop_first() =~= t);
        assert((seq![(k1, v1)] + es).drop_first() =~= es);
        assert((seq![(k2, v2)] + es).drop_first() =~= es);
        assert((seq![es[0]] + scalar_insert(t, k1, v1)).drop_first() =~= scalar_insert(t, k1, v1));
        assert((seq![es[0]] + scalar_insert(t, k2, v2)).drop_first() =~= scalar_insert(t, k2, v2));
        assert(scalar_insert(scalar_insert(es, k1, v1), k2, v2) =~= scalar_insert(
            scalar_insert(es, k2, v2),
            k1,
            v1,
        ));
    } else {
        let one1 = seq![(k1, v1)];
        let one2 = seq![(k2, v2)];
        assert(one1.drop_first() =~= Seq::<(ScalarModel, ValueModel)>::empty());
        assert(one2.drop_first() =~= Seq::<(ScalarModel, ValueModel)>::empty());
        assert(scalar_insert(es, k1, v1) == one1);
        assert(scalar_insert(es, k2, v2) == one2);
        assert(scalar_insert(one1.drop_first(), k2, v2) == one2);
        assert(scalar_insert(one2.drop_first(), k1, v1) == one1);
        assert(scalar_insert(scalar_insert(es, k1, v1), k2, v2) =~= scalar_insert(
            scalar_insert(es, k2, v2),
            k1,
            v1,
        ));
    }
}

proof fn lemma_insert_payload_keeps(ps: Seq<Seq<u8>>, p: Seq<u8>)
    ensures
        insert_payload(ps, p).contains(p),
        forall|i: int| 0 <= i < ps.len() ==> insert_payload(ps, p).contains(#[trigger] ps[i]),
    decreases ps.len(),
{
    let r = insert_payload(ps, p);
    if ps.len() == 0 {
        assert(r[0] == p);
    } else if ps[0] == p {
        assert(r[0] == p);
        assert forall|i: int| 0 <= i < ps.len() implies r.contains(#[trigger] ps[i]) by {
            assert(r[i] == ps[i]);
        }
    } else if bytes_lt(p, ps[0]) {
        assert(r[0] == p);
        assert forall|i: int| 0 <= i < ps.len() implies r.contains(#[trigger] ps[i]) by {
            assert(r[i + 1] == ps[i]);
        }
    } else {
        let t = ps.drop_first();
        lemma_insert_payload_keeps(t, p);
        let rt = insert_payload(t, p);
        assert(r == seq![ps[0]] + rt);
        let jp = choose|j: int| 0 <= j < rt.len() && rt[j] == p;
        assert(r[jp + 1] == p);
        assert forall|i: int| 0 <= i < ps.len() implies r.contains(#[trigger] ps[i]) by {
            if i == 0 {
                assert(r[0] == ps[0]);
            } else {
                assert(t[i - 1] == ps[i]);
                assert(rt.contains(t[i - 1]));
                let j = choose|j: int| 0 <= j < rt.len() && rt[j] == t[i - 1];
                assert(r[j + 1] == ps[i]);
            }
        }
    }
}

/// Every member's payload is among the payloads a set encodes: together
/// with `lemma_set_payloads_props`, a set encodes exactly the distinct
/// payloads of its members, once each, in increasing order.
pub proof fn lemma_set_payloads_members(ms: Seq<ValueModel>)
    ensures
        forall|i: int| 0 <= i < ms.len() ==> set_payloads(ms).contains(enc_value(#[trigger] ms[i])),
    decreases ms.len(),
{
    if ms.len() > 0 {
        let init = ms.drop_last();
        lemma_set_payloads_members(init);
        let pi = set_payloads(init);
        lemma_insert_payload_keeps(pi, enc_value(ms.last()));
        let r = set_payloads(ms);
        assert forall|i: int| 0 <= i < ms.len() implies r.contains(enc_value(#[trigger] ms[i])) by {
            if i < ms.len() - 1 {
                assert(init[i] == ms[i]);
                assert(pi.contains(enc_value(init[i])));
                let j = choose|j: int| 0 <= j < pi.len() && pi[j] == enc_value(init[i]);
                assert(r.contains(pi[j]));
            }
        }
    }
}

proof fn lemma_increasing_same(a: Seq<Seq<u8>>, b: Seq<Seq<u8>>)
    requires
        strictly_increasing(a),
        strictly_increasing(b),
        forall|x: Seq<u8>| a.contains(x) <==> b.contains(x),
    ensures
        a == b,
    decreases a.len(),
{
    if a.len() == 0 {
        if b.len() > 0 {
            assert(b.contains(b[0]));
        }
        assert(a =~= b);
    } else {
        assert(a.contains(a[0]));
        let j = choose|j: int| 0 <= j < b.len() && b[j] == a[0];
        assert(b.contains(b[0]));
        let i = choose|i: int| 0 <= i < a.len() && a[i] == b[0];
        lemma_bytes_lt_irreflexive(a[0]);
        lemma_bytes_lt_irreflexive(b[0]);
        if j > 0 {
            assert(bytes_lt(b[0], b[j]));
            if i > 0 {
                assert(bytes_lt(a[0], a[i]));
                lemma_bytes_lt_transitive(b[0], a[0], b[0]);
            }
        }
        assert(a[0] == b[0]);
        let a2 = a.drop_first();
        let b2 = b.drop_first();
        assert forall|x: Seq<u8>| a2.contains(x) <==> b2.contains(x) by {
            if a2.contains(x) {
                let k = choose|k: int| 0 <= k < a2.len() && a2[k] == x;
                assert(a[k + 1] == x);
                assert(bytes_lt(a[0], a[k + 1]));
                assert(a.contains(x));
                let m = choose|m: int| 0 <= m < b.len() && b[m] == x;
                if m == 0 {
                    lemma_bytes_lt_irreflexive(x);
                }
                assert(b2[m - 1] == x);
            }
            if b2.contains(x) {
                let k = choose|k: int| 0 <= k < b2.len() && b2[k] == x;
                assert(b[k + 1] == x);
                assert(bytes_lt(b[0], b[k + 1]));
                assert(b.contains(x));
                let m = choose|m: int| 0 <= m < a.len() && a[m] == x;
                if m == 0 {
                    lemma_bytes_lt_irreflexive(x);
                }
                assert(a2[m - 1] == x);
            }
        }
        assert forall|p: int, q: int| 0 <= p < q < a2.len() implies bytes_lt(#[trigger] a2[p], #[trigger] a2[q]) by {
            assert(a2[p] == a[p + 1]);
            assert(a2[q] == a[q + 1]);
        }
        assert forall|p: int, q: int| 0 <= p < q < b2.len() implies bytes_lt(#[trigger] b2[p], #[trigger] b2[q]) by {
            assert(b2[p] == b[p + 1]);
            assert(b2[q] == b[q + 1]);
        }
        lemma_increasing_same(a2, b2);
        assert(a =~= seq![a[0]] + a2);
        assert(b =~= seq![b[0]] + b2);
    }
}

/// A set's encoding depends only on which members it has: two member lists
/// whose members encode alike, in any order and with any repeats, encode the
/// same set.
pub proof fn lemma_set_encoding_order_free(a: Seq<ValueModel>, b: Seq<ValueModel>)
    requires
        forall|i: int|
            0 <= i < a.len() ==> exists|j: int|
                0 <= j < b.len() && enc_value(b[j]) == enc_value(#[trigger] a[i]),
        forall|j: int|
            0 <= j < b.len() ==> exists|i: int|
                0 <= i < a.len() && enc_value(a[i]) == enc_value(#[trigger] b[j]),
    ensures
        set_payloads(a) == set_payloads(b),
        enc_value(ValueModel::SetOf(a)) == enc_value(ValueModel::SetOf(b)),
{
    lemma_set_payloads_props(a);
    lemma_set_payloads_props(b);
    lemma_set_payloads_members(a);
    lemma_set_payloads_members(b);
    let pa = set_payloads(a);
    let pb = set_payloads(b);
    assert forall|x: Seq<u8>| pa.contains(x) <==> pb.contains(x) by {
        if pa.contains(x) {
            let k = choose|k: int| 0 <= k < pa.len() && pa[k] == x;
            let i = choose|i: int| 0 <= i < a.len() && enc_value(a[i]) == pa[k];
            let j = choose|j: int| 0 <= j < b.len() && enc_value(b[j]) == enc_value(a[i]);
            assert(pb.contains(enc_value(b[j])));
        }
        if pb.contains(x) {
            let k = choose|k: int| 0 <= k < pb.len() && pb[k] == x;
            let j = choose|j: int| 0 <= j < b.len() && enc_value(b[j]) == pb[k];
            let i = choose|i: int| 0 <= i < a.len() && enc_value(a[i]) == enc_value(b[j]);
            assert(pa.contains(enc_value(a[i])));
        }
    }
    lemma_increasing_same(pa, pb);
}

} // verus!
