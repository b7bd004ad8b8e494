//! Decoding only ever yields canonical values: whatever bytes a value is
//! decoded from, its maps come out sorted by key and its sets sorted by
//! payload without repeats, at every level.

use vstd::prelude::*;
use crate::order::{bytes_lt, lemma_bytes_lt_transitive};
use crate::value::{
    ScalarModel, ValueModel, str_insert, scalar_insert, str_keys_increasing, scalar_keys_increasing,
    lemma_str_insert_increasing, lemma_scalar_insert_increasing,
};
use crate::codec::{
    enc_value, spec_decode, parse_value, parse_values, parse_set_members, parse_hash_entries,
    parse_tree_entries, build_hash, build_tree,
};
use crate::roundtrip::payloads_increasing;

verus! {

/// Every value in the list is canonical.
pub open spec fn all_canonical(vs: Seq<ValueModel>) -> bool {
    forall|i: int| 0 <= i < vs.len() ==> (#[trigger] vs[i]).canonical()
}

/// Every value of the string-keyed entries is canonical.
pub open spec fn hash_values_canonical(es: Seq<(Seq<char>, ValueModel)>) -> bool {
    forall|i: int| 0 <= i < es.len() ==> (#[trigger] es[i]).1.canonical()
}

/// Every value of the scalar-keyed entries is canonical.
pub open spec fn tree_values_canonical(es: Seq<(ScalarModel, ValueModel)>) -> bool {
    forall|i: int| 0 <= i < es.len() ==> (#[trigger] es[i]).1.canonical()
}

/// An entry after insertion is the inserted one or one that was there.
proof fn lemma_str_insert_entries(es: Seq<(Seq<char>, ValueModel)>, k: Seq<char>, v: ValueModel)
    ensures
        forall|i: int|
            0 <= i < str_insert(es, k, v).len() ==> #[trigger] str_insert(es, k, v)[i] == (k, v) || exists|
                j: int,
            |
                0 <= j < es.len() && es[j] == str_insert(es, k, v)[i],
    decreases es.len(),
{
    let r = str_insert(es, k, v);
    if es.len() == 0 {
    } else if es[0].0 == k {
        assert forall|i: int| 0 <= i < r.len() implies #[trigger] r[i] == (k, v) || exists|j: int|
            0 <= j < es.len() && es[j] == r[i] by {
            if i > 0 {
                assert(es[i] == r[i]);
            }
        }
    } else if crate::order::str_lt(k, es[0].0) {
        assert forall|i: int| 0 <= i < r.len() implies #[trigger] r[i] == (k, v) || exists|j: int|
            0 <= j < es.len() && es[j] == r[i] by {
            if i > 0 {
                assert(es[i - 1] == r[i]);
            }
        }
    } else {
        let t = es.drop_first();
        lemma_str_insert_entries(t, k, v);
        assert forall|i: int| 0 <= i < r.len() implies #[trigger] r[i] == (k, v) || exists|j: int|
            0 <= j < es.len() && es[j] == r[i] by {
            if i == 0 {
                assert(es[0] == r[0]);
            } else {
                assert(r[i] == str_insert(t, k, v)[i - 1]);
                if r[i] != (k, v) {
                    let j = choose|j: int| 0 <= j < t.len() && t[j] == str_insert(t, k, v)[i - 1];
                    assert(es[j + 1] == r[i]);
                }
            }
        }
    }
}

/// An entry after insertion is the inserted one or one that was there.
proof fn lemma_scalar_insert_entries(es: Seq<(ScalarModel, ValueModel)>, k: ScalarModel, v: ValueModel)
    ensures
        forall|i: int|
            0 <= i < scalar_insert(es, k, v).len() ==> #[trigger] scalar_insert(es, k, v)[i] == (k, v)
                || exists|j: int| 0 <= j < es.len() && es[j] == scalar_insert(es, k, v)[i],
    decreases es.len(),
{
    let r = scalar_insert(es, k, v);
    if es.len() == 0 {
    } else if es[0].0 == k {
        assert forall|i: int| 0 <= i < r.len() implies #[trigger] r[i] == (k, v) || exists|j: int|
            0 <= j < es.len() && es[j] == r[i] by {
            if i > 0 {
                assert(es[i] == r[i]);
            }
        }
    } else if crate::value::scalar_lt(k, es[0].0) {
        assert forall|i: int| 0 <= i < r.len() implies #[trigger] r[i] == (k, v) || exists|j: int|
            0 <= j < es.len() && es[j] == r[i] by {
            if i > 0 {
                assert(es[i - 1] == r[i]);
            }
        }
    } else {
        let t = es.drop_first();
        lemma_scalar_insert_entries(t, k, v);
        assert forall|i: int| 0 <= i < r.len() implies #[trigger] r[i] == (k, v) || exists|j: int|
            0 <= j < es.len() && es[j] == r[i] by {
            if i == 0 {
                assert(es[0] == r[0]);
            } else {
                assert(r[i] == scalar_insert(t, k, v)[i - 1]);
                if r[i] != (k, v) {
                    let j = choose|j: int| 0 <= j < t.len() && t[j] == scalar_insert(t, k, v)[i - 1];
                    assert(es[j + 1] == r[i]);
                }
            }
        }
    }
}

/// Building a map from entries with canonical values gives a sorted map
/// with canonical values.
proof fn lemma_build_hash_canonical(acc: Seq<(Seq<char>, ValueModel)>, es: Seq<(Seq<char>, ValueModel)>)
    requires
        str_keys_increasing(acc),
        hash_values_canonical(acc),
        hash_values_canonical(es),
    ensures
        str_keys_increasing(build_hash(acc, es)),
        hash_values_canonical(build_hash(acc, es)),
    decreases es.len(),
{
    if es.len() > 0 {
        let k = es[0].0;
        let v = es[0].1;
        let a2 = str_insert(acc, k, v);
        lemma_str_insert_increasing(acc, k, v);
        lemma_str_insert_entries(acc, k, v);
        assert(v.canonical());
        assert forall|i: int| 0 <= i < a2.len() implies (#[trigger] a2[i]).1.canonical() by {
            if a2[i] != (k, v) {
                let j = choose|j: int| 0 <= j < acc.len() && acc[j] == a2[i];
                assert(acc[j].1.canonical());
            }
        }
        let t = es.drop_first();
        assert forall|i: int| 0 <= i < t.len() implies (#[trigger] t[i]).1.canonical() by {
            assert(t[i] == es[i + 1]);
        }
        lemma_build_hash_canonical(a2, t);
    }
}

/// Building an ordered map from entries with canonical values gives a sorted
/// map with canonical values.
proof fn lemma_build_tree_canonical(acc: Seq<(ScalarModel, ValueModel)>, es: Seq<(ScalarModel, ValueModel)>)
    requires
        scalar_keys_increasing(acc),
        tree_values_canonical(acc),
        tree_values_canonical(es),
    ensures
        scalar_keys_increasing(build_tree(acc, es)),
        tree_values_canonical(build_tree(acc, es)),
    decreases es.len(),
{
    if es.len() > 0 {
        let k = es[0].0;
        let v = es[0].1;
        let a2 = scalar_insert(acc, k, v);
        lemma_scalar_insert_increasing(acc, k, v);
        lemma_scalar_insert_entries(acc, k, v);
        assert(v.canonical());
        assert forall|i: int| 0 <= i < a2.len() implies (#[trigger] a2[i]).1.canonical() by {
            if a2[i] != (k, v) {
                let j = choose|j: int| 0 <= j < acc.len() && acc[j] == a2[i];
                assert(acc[j].1.canonical());
            }
        }
        let t = es.drop_first();
        assert forall|i: int| 0 <= i < t.len() implies (#[trigger] t[i]).1.canonical() by {
            assert(t[i] == es[i + 1]);
        }
        lemma_build_tree_canonical(a2, t);
    }
}

proof fn lemma_parse_value_canonical(s: Seq<u8>)
    ensures
        parse_value(s) matches Ok((v, _)) ==> v.canonical(),
    decreases s.len(), 0int,
{
    if s.len() > 0 {
        let r = s.drop_first();
        if r.len() >= 4 {
            let n = crate::bytes::from_le32(r.take(4)) as nat;
            let body = r.skip(4);
            lemma_parse_hash_canonical(body, n);
            lemma_parse_set_canonical(body, n, None);
            lemma_parse_values_canonical(body, n);
            lemma_parse_tree_canonical(body, n);
            if parse_hash_entries(body, n) is Ok {
                let es = parse_hash_entries(body, n)->Ok_0.0;
                lemma_build_hash_canonical(Seq::empty(), es);
            }
            if parse_tree_entries(body, n) is Ok {
                let es = parse_tree_entries(body, n)->Ok_0.0;
                lemma_build_tree_canonical(Seq::empty(), es);
            }
        }
    }
}

proof fn lemma_parse_values_canonical(s: Seq<u8>, n: nat)
    ensures
        parse_values(s, n) matches Ok((vs, _)) ==> all_canonical(vs),
    decreases s.len(), n + 1,
{
    if n > 0 {
        lemma_parse_value_canonical(s);
        if parse_value(s) is Ok {
            let (v, k) = parse_value(s)->Ok_0;
            if 0 <= k <= s.len() {
                lemma_parse_values_canonical(s.skip(k), (n - 1) as nat);
                if parse_values(s, n) is Ok {
                    let vs = parse_values(s.skip(k), (n - 1) as nat)->Ok_0.0;
                    let all = seq![v] + vs;
                    assert forall|i: int| 0 <= i < all.len() implies (#[trigger] all[i]).canonical() by {
                        if i > 0 {
                            assert(all[i] == vs[i - 1]);
                        }
                    }
                }
            }
        }
    }
}

proof fn lemma_parse_set_canonical(s: Seq<u8>, n: nat, prev: Option<Seq<u8>>)
    ensures
        parse_set_members(s, n, prev) matches Ok((ms, _)) ==> payloads_increasing(ms) && all_canonical(ms) && (
        prev matches Some(p) ==> forall|i: int| 0 <= i < ms.len() ==> bytes_lt(p, enc_value(#[trigger] ms[i]))),
    decreases s.len(), n + 1,
{
    if n > 0 {
        lemma_parse_value_canonical(s);
        if parse_value(s) is Ok {
            let (v, k) = parse_value(s)->Ok_0;
            let p = enc_value(v);
            if 0 <= k <= s.len() && !(prev is Some && !bytes_lt(prev->0, p)) {
                lemma_parse_set_canonical(s.skip(k), (n - 1) as nat, Some(p));
                if parse_set_members(s, n, prev) is Ok {
                    let vs = parse_set_members(s.skip(k), (n - 1) as nat, Some(p))->Ok_0.0;
                    let ms = seq![v] + vs;
                    assert forall|i: int| 0 <= i < ms.len() implies (#[trigger] ms[i]).canonical() by {
                        if i > 0 {
                            assert(ms[i] == vs[i - 1]);
                        }
                    }
                    assert forall|i: int, j: int| 0 <= i < j < ms.len() implies bytes_lt(
                        enc_value(#[trigger] ms[i]),
                        enc_value(#[trigger] ms[j]),
                    ) by {
                        assert(ms[j] == vs[j - 1]);
                        if i > 0 {
                            assert(ms[i] == vs[i - 1]);
                        }
                    }
                    if prev is Some {
                        let q = prev->0;
                        assert forall|i: int| 0 <= i < ms.len() implies bytes_lt(q, enc_value(#[trigger] ms[i])) by {
                            if i > 0 {
                                assert(ms[i] == vs[i - 1]);
                                lemma_bytes_lt_transitive(q, p, enc_value(vs[i - 1]));
                            }
                        }
                    }
                }
            }
        }
    }
}

proof fn lemma_parse_hash_canonical(s: Seq<u8>, n: nat)
    ensures
        parse_hash_entries(s, n) matches Ok((es, _)) ==> hash_values_canonical(es),
    decreases s.len(), n + 1,
{
    if n > 0 {
        if crate::codec::parse_str(s) is Ok {
            let (key, k1) = crate::codec::parse_str(s)->Ok_0;
            if 0 <= k1 <= s.len() {
                lemma_parse_value_canonical(s.skip(k1));
                if parse_value(s.skip(k1)) is Ok {
                    let (v, k2) = parse_value(s.skip(k1))->Ok_0;
                    if 0 <= k2 <= s.len() - k1 {
                        lemma_parse_hash_canonical(s.skip(k1 + k2), (n - 1) as nat);
                        if parse_hash_entries(s, n) is Ok {
                            let es = parse_hash_entries(s.skip(k1 + k2), (n - 1) as nat)->Ok_0.0;
                            let all = seq![(key, v)] + es;
                            assert forall|i: int| 0 <= i < all.len() implies (#[trigger] all[i]).1.canonical() by {
                                if i > 0 {
                                    assert(all[i] == es[i - 1]);
                                }
                            }
                        }
                    }
                }
            }
        }
    }
}

proof fn lemma_parse_tree_canonical(s: Seq<u8>, n: nat)
    ensures
        parse_tree_entries(s, n) matches Ok((es, _)) ==> tree_values_canonical(es),
    decreases s.len(), n + 1,
{
    if n > 0 {
        if parse_value(s) is Ok {
            let (kv, k1) = parse_value(s)->Ok_0;
            if 0 <= k1 <= s.len() {
                if let ValueModel::Scalar(key) = kv {
                    lemma_parse_value_canonical(s.skip(k1));
                    if parse_value(s.skip(k1)) is Ok {
                        let (v, k2) = parse_value(s.skip(k1))->Ok_0;
                        if 0 <= k2 <= s.len() - k1 {
                            lemma_parse_tree_canonical(s.skip(k1 + k2), (n - 1) as nat);
                            if parse_tree_entries(s, n) is Ok {
                                let es = parse_tree_entries(s.skip(k1 + k2), (n - 1) as nat)->Ok_0.0;
                                let all = seq![(key, v)] + es;
                                assert forall|i: int| 0 <= i < all.len() implies (#[trigger] all[i]).1.canonical() by {
                                    if i > 0 {
                                        assert(all[i] == es[i - 1]);
                                    }
                                }
                            }
                        }
                    }
                }
            }
        }
    }
}

/// Decoding only ever yields canonical values: maps sorted by key, sets
/// sorted by payload without repeats, at every level, whatever the bytes.
pub proof fn lemma_decode_canonical(b: Seq<u8>)
    requires
        spec_decode(b) is Ok,
    ensures
        spec_decode(b)->Ok_0.canonical(),
{
    lemma_parse_value_canonical(b.drop_first());
}

} // verus!
