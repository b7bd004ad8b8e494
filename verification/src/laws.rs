//! What the namespace operations promise together: a read gives back what a
//! write stored, a new directory reads as a directory, a deleted path is
//! gone, and a pushed item lands at the end of its list.

use vstd::prelude::*;
use crate::bytes::{be64, lemma_be64_roundtrip};
use crate::codec::{spec_decode, spec_encode};
use crate::db::{
    spec_current, spec_list_push, spec_hash_set, spec_tree_set, spec_set_add, set_with,
    Kv, EntryKind, walk_ids, spec_resolve, spec_get, spec_exists, spec_set, spec_mkdir, spec_delete,
    spec_parent_dir, spec_next_id,
};
use crate::errors::NsErr;
use crate::keys::{
    ROOT_ID, NodeRec, node_key_spec, child_key_spec, type_index_key_spec, meta_next_id_key,
    decode_id_spec, parse_node_spec, lemma_child_key_injective, lemma_key_kinds_distinct,
    lemma_node_key_injective,
};
use crate::roundtrip::lemma_decode_encode;
use crate::value::{ValueModel, ScalarModel, str_insert, scalar_insert, str_lookup, scalar_lookup};
use crate::codec::enc_value;

verus! {

/// Every child link present in `kv` is present in `m` with the same target.
pub open spec fn child_links_kept(kv: Kv, m: Kv) -> bool {
    forall|p: u64, name: Seq<char>|
        #![trigger kv.contains_key(child_key_spec(p, name))]
        kv.contains_key(child_key_spec(p, name)) ==> m.contains_key(child_key_spec(p, name))
            && m[child_key_spec(p, name)] == kv[child_key_spec(p, name)]
}

/// Every child link names a node whose record parses.
pub open spec fn links_intact(kv: Kv) -> bool {
    forall|p: u64, name: Seq<char>|
        #![trigger kv.contains_key(child_key_spec(p, name))]
        kv.contains_key(child_key_spec(p, name)) ==> match decode_id_spec(kv[child_key_spec(p, name)]) {
            None => false,
            Some(c) => kv.contains_key(node_key_spec(c)) && parse_node_spec(kv[node_key_spec(c)]) is Ok,
        }
}

/// `m` holds some of `kv`'s entries and nothing else.
pub open spec fn submap(m: Kv, kv: Kv) -> bool {
    forall|k: Seq<u8>| #[trigger] m.contains_key(k) ==> kv.contains_key(k) && m[k] == kv[k]
}

pub(crate) proof fn lemma_walk_whole(kv: Kv, id: u64, segs: Seq<Seq<char>>, w1: Seq<char>, w2: Seq<char>)
    requires
        walk_ids(kv, id, segs, w1) is Ok,
    ensures
        walk_ids(kv, id, segs, w2) == walk_ids(kv, id, segs, w1),
    decreases segs.len(),
{
    if segs.len() > 0 {
        let k = child_key_spec(id, segs[0]);
        if let Some(c) = decode_id_spec(kv[k]) {
            lemma_walk_whole(kv, c, segs.drop_first(), w1, w2);
        }
    }
}

proof fn lemma_walk_append(kv: Kv, id: u64, a: Seq<Seq<char>>, b: Seq<Seq<char>>, w: Seq<char>)
    ensures
        walk_ids(kv, id, a + b, w) == match walk_ids(kv, id, a, w) {
            Ok(x) => walk_ids(kv, x, b, w),
            Err(e) => Err(e),
        },
    decreases a.len(),
{
    if a.len() == 0 {
        assert(a + b =~= b);
    } else {
        assert((a + b)[0] == a[0]);
        assert((a + b).drop_first() =~= a.drop_first() + b);
        let k = child_key_spec(id, a[0]);
        if kv.contains_key(k) {
            if let Some(c) = decode_id_spec(kv[k]) {
                lemma_walk_append(kv, c, a.drop_first(), b, w);
            }
        }
    }
}

pub(crate) proof fn lemma_walk_frame(kv: Kv, m: Kv, id: u64, segs: Seq<Seq<char>>, w: Seq<char>)
    requires
        walk_ids(kv, id, segs, w) is Ok,
        child_links_kept(kv, m),
    ensures
        walk_ids(m, id, segs, w) == walk_ids(kv, id, segs, w),
    decreases segs.len(),
{
    if segs.len() > 0 {
        let k = child_key_spec(id, segs[0]);
        assert(kv.contains_key(k));
        if let Some(c) = decode_id_spec(kv[k]) {
            lemma_walk_frame(kv, m, c, segs.drop_first(), w);
        }
    }
}

proof fn lemma_walk_submap(kv: Kv, m: Kv, id: u64, segs: Seq<Seq<char>>, w: Seq<char>)
    requires
        walk_ids(kv, id, segs, w) is Ok,
        submap(m, kv),
    ensures
        walk_ids(m, id, segs, w) == walk_ids(kv, id, segs, w) || walk_ids(m, id, segs, w)
            == Err::<u64, NsErr>(NsErr::NotFound(w)),
    decreases segs.len(),
{
    if segs.len() > 0 {
        let k = child_key_spec(id, segs[0]);
        if m.contains_key(k) {
            if let Some(c) = decode_id_spec(kv[k]) {
                lemma_walk_submap(kv, m, c, segs.drop_first(), w);
            }
        }
    }
}

/// Splitting a non-root path into its parent and its last segment.
pub(crate) proof fn lemma_split_last(segs: Seq<Seq<char>>)
    requires
        segs.len() > 0,
    ensures
        segs == segs.drop_last() + seq![segs.last()],
{
    assert(segs =~= segs.drop_last() + seq![segs.last()]);
}

/// One step of a walk.
pub(crate) proof fn lemma_walk_one(kv: Kv, id: u64, name: Seq<char>, w: Seq<char>)
    ensures
        walk_ids(kv, id, seq![name], w) == if !kv.contains_key(child_key_spec(id, name)) {
            Err(NsErr::NotFound(w))
        } else {
            match decode_id_spec(kv[child_key_spec(id, name)]) {
                None => Err(NsErr::Invalid("bad child id"@)),
                Some(c) => Ok(c),
            }
        },
{
    let s = seq![name];
    assert(s[0] == name);
    assert(s.drop_first() =~= Seq::<Seq<char>>::empty());
    let k = child_key_spec(id, name);
    if kv.contains_key(k) {
        if let Some(c) = decode_id_spec(kv[k]) {
            assert(walk_ids(kv, c, s.drop_first(), w) == Ok::<u64, NsErr>(c));
        }
    }
}

/// After `set` succeeds, `get` at the same path reads a value whose encoding
/// is that of the value stored, and which is the stored value itself when
/// that value is canonical (maps sorted, sets sorted without repeats).
pub proof fn lemma_get_after_set(kv: Kv, segs: Seq<Seq<char>>, v: ValueModel, indexed: bool)
    requires
        spec_set(kv, segs, v, indexed) is Ok,
        v.wf(),
        v.encodable(),
    ensures
        spec_get(spec_set(kv, segs, v, indexed)->Ok_0, segs) matches Ok((EntryKind::Value, Some(w)))
            && spec_encode(w) == spec_encode(v) && (v.canonical() ==> w == v),
{
    let m = spec_set(kv, segs, v, indexed)->Ok_0;
    let parent = segs.drop_last();
    let last = segs.last();
    let ps = crate::path::path_string(segs);
    let pid = spec_parent_dir(kv, segs)->Ok_0;
    let ck = child_key_spec(pid, last);
    let node = seq![1u8] + spec_encode(v);
    lemma_split_last(segs);
    lemma_walk_whole(kv, ROOT_ID, parent, crate::path::path_string(parent), ps);
    lemma_walk_append(m, ROOT_ID, parent, seq![last], ps);
    lemma_walk_one(m, pid, last, ps);
    let id: u64 = if kv.contains_key(ck) {
        decode_id_spec(kv[ck])->Some_0
    } else {
        spec_next_id(kv)->Ok_0
    };
    assert(child_links_kept(kv, m)) by {
        assert forall|p: u64, name: Seq<char>| #[trigger] kv.contains_key(child_key_spec(p, name)) implies m.contains_key(
            child_key_spec(p, name),
        ) && m[child_key_spec(p, name)] == kv[child_key_spec(p, name)] by {
            lemma_key_kinds_distinct(id, p, name, crate::value::value_type_label(v), id);
            if kv.contains_key(ck) {
                let old_ty = crate::value::value_type_label(
                    spec_decode(parse_node_spec(kv[node_key_spec(id)])->Ok_0->Value_0)->Ok_0,
                );
                lemma_key_kinds_distinct(id, p, name, old_ty, id);
            }
        }
    }
    lemma_walk_frame(kv, m, ROOT_ID, parent, ps);
    lemma_key_kinds_distinct(id, pid, last, crate::value::value_type_label(v), id);
    assert(m.contains_key(ck));
    if !kv.contains_key(ck) {
        lemma_be64_roundtrip(id);
        assert(m[ck] == be64(id));
    }
    assert(walk_ids(m, ROOT_ID, segs, ps) == Ok::<u64, NsErr>(id));
    assert(m.contains_key(node_key_spec(id)) && m[node_key_spec(id)] == node);
    assert(node.drop_first() =~= spec_encode(v));
    lemma_decode_encode(v);
}

/// After `mkdir` of a non-root path succeeds on a store whose links are
/// intact, `get` at that path reads a directory.
pub proof fn lemma_get_after_mkdir(kv: Kv, segs: Seq<Seq<char>>, indexed: bool)
    requires
        segs.len() > 0,
        links_intact(kv),
        spec_mkdir(kv, segs, indexed) is Ok,
    ensures
        spec_get(spec_mkdir(kv, segs, indexed)->Ok_0, segs) == Ok::<(EntryKind, Option<ValueModel>), NsErr>(
            (EntryKind::Directory, None),
        ),
{
    let m = spec_mkdir(kv, segs, indexed)->Ok_0;
    {
        let parent = segs.drop_last();
        let last = segs.last();
        let ps = crate::path::path_string(segs);
        let pid = spec_parent_dir(kv, segs)->Ok_0;
        let ck = child_key_spec(pid, last);
        let id = spec_next_id(kv)->Ok_0;
        lemma_split_last(segs);
        lemma_walk_whole(kv, ROOT_ID, parent, crate::path::path_string(parent), ps);
        lemma_walk_append(m, ROOT_ID, parent, seq![last], ps);
        lemma_walk_one(m, pid, last, ps);
        lemma_walk_append(kv, ROOT_ID, parent, seq![last], ps);
        lemma_walk_one(kv, pid, last, ps);
        assert(!kv.contains_key(ck)) by {
            if kv.contains_key(ck) {
                assert(walk_ids(kv, ROOT_ID, segs, ps) is Ok);
                assert(spec_resolve(kv, segs) is Ok);
            }
        }
        assert(child_links_kept(kv, m)) by {
            assert forall|p: u64, name: Seq<char>| #[trigger] kv.contains_key(child_key_spec(p, name)) implies m.contains_key(
                child_key_spec(p, name),
            ) && m[child_key_spec(p, name)] == kv[child_key_spec(p, name)] by {
                lemma_key_kinds_distinct(id, p, name, "directory"@, id);
            }
        }
        lemma_walk_frame(kv, m, ROOT_ID, parent, ps);
        lemma_key_kinds_distinct(id, pid, last, "directory"@, id);
        lemma_be64_roundtrip(id);
        assert(walk_ids(m, ROOT_ID, segs, ps) == Ok::<u64, NsErr>(id));
        assert(m[node_key_spec(id)] == seq![0u8]);
    }
}

/// After `delete` succeeds, the path no longer exists.
pub proof fn lemma_gone_after_delete(kv: Kv, segs: Seq<Seq<char>>, indexed: bool)
    requires
        spec_delete(kv, segs, indexed) is Ok,
    ensures
        spec_exists(spec_delete(kv, segs, indexed)->Ok_0, segs) == Ok::<bool, NsErr>(false),
{
    let m = spec_delete(kv, segs, indexed)->Ok_0;
    let parent = segs.drop_last();
    let last = segs.last();
    let ps = crate::path::path_string(segs);
    let pid = spec_resolve(kv, parent)->Ok_0.0;
    let ck = child_key_spec(pid, last);
    assert(submap(m, kv));
    assert(!m.contains_key(ck));
    lemma_split_last(segs);
    lemma_walk_whole(kv, ROOT_ID, parent, crate::path::path_string(parent), ps);
    lemma_walk_submap(kv, m, ROOT_ID, parent, ps);
    lemma_walk_append(m, ROOT_ID, parent, seq![last], ps);
    lemma_walk_one(m, pid, last, ps);
    assert(walk_ids(m, ROOT_ID, segs, ps) == Err::<u64, NsErr>(NsErr::NotFound(ps)));
}


/// A canonical value is well formed: its maps are sorted at every level.
pub proof fn lemma_canonical_wf(v: ValueModel)
    requires
        v.canonical(),
    ensures
        v.wf(),
    decreases v,
{
    match v {
        ValueModel::Hash(es) => {
            assert forall|i: int| 0 <= i < es.len() implies (#[trigger] es[i]).1.wf() by {
                lemma_canonical_wf(es[i].1);
            }
        },
        ValueModel::SetOf(ms) => {
            assert forall|i: int| 0 <= i < ms.len() implies (#[trigger] ms[i]).wf() by {
                lemma_canonical_wf(ms[i]);
            }
        },
        ValueModel::List(vs) => {
            assert forall|i: int| 0 <= i < vs.len() implies (#[trigger] vs[i]).wf() by {
                lemma_canonical_wf(vs[i]);
            }
        },
        ValueModel::Tree(es) => {
            assert forall|i: int| 0 <= i < es.len() implies (#[trigger] es[i]).1.wf() by {
                lemma_canonical_wf(es[i].1);
            }
        },
        ValueModel::Scalar(_) => {},
    }
}

/// `list_push` appends: where the path holds the list `vs`, it stores a
/// list one item longer whose last item is `v` and whose first items are
/// `vs` unchanged; where the path holds nothing, the one-item list of `v`;
/// a path holding anything else is refused.
pub proof fn lemma_list_push_appends(kv: Kv, segs: Seq<Seq<char>>, v: ValueModel, indexed: bool)
    ensures
        spec_current(kv, segs) matches Ok(Some(ValueModel::List(vs))) ==> exists|w: Seq<ValueModel>|
            #![trigger spec_set(kv, segs, ValueModel::List(w), indexed)]
            w.len() == vs.len() + 1 && w.last() == v && w.take(vs.len() as int) == vs && spec_list_push(
                kv,
                segs,
                v,
                indexed,
            ) == spec_set(kv, segs, ValueModel::List(w), indexed),
        spec_current(kv, segs) == Ok::<Option<ValueModel>, NsErr>(None) ==> exists|w: Seq<ValueModel>|
            #![trigger spec_set(kv, segs, ValueModel::List(w), indexed)]
            w.len() == 1 && w[0] == v && spec_list_push(kv, segs, v, indexed) == spec_set(
                kv,
                segs,
                ValueModel::List(w),
                indexed,
            ),
        spec_current(kv, segs) matches Ok(Some(x)) && !(x is List) ==> spec_list_push(kv, segs, v, indexed) is Err,
{
    if let Ok(Some(ValueModel::List(vs))) = spec_current(kv, segs) {
        let w = vs.push(v);
        assert(w.take(vs.len() as int) =~= vs);
        assert(spec_list_push(kv, segs, v, indexed) == spec_set(kv, segs, ValueModel::List(w), indexed));
    }
    if spec_current(kv, segs) == Ok::<Option<ValueModel>, NsErr>(None) {
        let w = seq![v];
        assert(spec_list_push(kv, segs, v, indexed) == spec_set(kv, segs, ValueModel::List(w), indexed));
    }
}

/// After `list_push` of `v` on a path holding the list `vs`, the path reads
/// as `vs` followed by `v`: one item longer, ending in `v`, starting with
/// `vs` unchanged (for an item whose sets are in canonical order, and
/// lengths within the encoding's limits).
pub proof fn lemma_get_after_list_push(kv: Kv, segs: Seq<Seq<char>>, v: ValueModel, vs: Seq<ValueModel>)
    requires
        spec_current(kv, segs) == Ok::<Option<ValueModel>, NsErr>(Some(ValueModel::List(vs))),
        spec_list_push(kv, segs, v, true) is Ok,
        v.canonical(),
        v.encodable(),
        vs.len() < u32::MAX,
        forall|i: int| 0 <= i < vs.len() ==> (#[trigger] vs[i]).encodable(),
    ensures
        spec_current(spec_list_push(kv, segs, v, true)->Ok_0, segs) matches Ok(Some(ValueModel::List(ws)))
            && ws.len() == vs.len() + 1 && ws.last() == v && ws.take(vs.len() as int) == vs,
{
    let enc = spec_resolve(kv, segs)->Ok_0.1->Value_0;
    crate::decodecanon::lemma_decode_canonical(enc);
    let w = vs.push(v);
    let l = ValueModel::List(w);
    assert(l.canonical()) by {
        assert forall|i: int| 0 <= i < w.len() implies (#[trigger] w[i]).canonical() by {
            if i < vs.len() {
                assert(w[i] == vs[i]);
            }
        }
    }
    lemma_canonical_wf(l);
    assert(l.encodable()) by {
        assert forall|i: int| 0 <= i < w.len() implies (#[trigger] w[i]).encodable() by {
            if i < vs.len() {
                assert(w[i] == vs[i]);
            }
        }
    }
    assert(spec_list_push(kv, segs, v, true) == spec_set(kv, segs, l, true));
    lemma_get_after_set(kv, segs, l, true);
    assert(w.take(vs.len() as int) =~= vs);
}


/// Writing `v` under the key `k` of a hash's entries makes `k` look up to
/// `v` and leaves every other key looking up what it did before.
pub proof fn lemma_str_insert_lookup(es: Seq<(Seq<char>, ValueModel)>, k: Seq<char>, v: ValueModel, k2: Seq<char>)
    ensures
        str_lookup(str_insert(es, k, v), k) == Some(v),
        k2 != k ==> str_lookup(str_insert(es, k, v), k2) == str_lookup(es, k2),
    decreases es.len(),
{
    let r = str_insert(es, k, v);
    if es.len() == 0 {
        assert(r.drop_first() =~= es);
    } else {
        if es[0].0 == k {
            assert(r.drop_first() =~= es.drop_first());
        } else if crate::order::str_lt(k, es[0].0) {
            assert(r.drop_first() =~= es);
        } else {
            lemma_str_insert_lookup(es.drop_first(), k, v, k2);
            assert(r.drop_first() =~= str_insert(es.drop_first(), k, v));
            assert(r[0] == es[0]);
        }
    }
}

/// Writing `v` under the key `k` of an ordered map's entries makes `k` look
/// up to `v` and leaves every other key looking up what it did before.
pub proof fn lemma_scalar_insert_lookup(es: Seq<(ScalarModel, ValueModel)>, k: ScalarModel, v: ValueModel, k2: ScalarModel)
    ensures
        scalar_lookup(scalar_insert(es, k, v), k) == Some(v),
        k2 != k ==> scalar_lookup(scalar_insert(es, k, v), k2) == scalar_lookup(es, k2),
    decreases es.len(),
{
    let r = scalar_insert(es, k, v);
    if es.len() == 0 {
        assert(r.drop_first() =~= es);
    } else {
        if es[0].0 == k {
            assert(r.drop_first() =~= es.drop_first());
        } else if crate::value::scalar_lt(k, es[0].0) {
            assert(r.drop_first() =~= es);
        } else {
            lemma_scalar_insert_lookup(es.drop_first(), k, v, k2);
            assert(r.drop_first() =~= scalar_insert(es.drop_first(), k, v));
            assert(r[0] == es[0]);
        }
    }
}

/// `hash_set` writes one field: where the path holds a hash (or nothing,
/// read as an empty hash), it stores a hash in which `key` looks up to `v`
/// and every other key looks up what it did before; a path holding
/// anything else is refused.
pub proof fn lemma_hash_set_writes(kv: Kv, segs: Seq<Seq<char>>, key: Seq<char>, v: ValueModel, indexed: bool, k2: Seq<char>)
    ensures
        spec_current(kv, segs) matches Ok(Some(ValueModel::Hash(es))) ==> exists|w: Seq<(Seq<char>, ValueModel)>|
            #![trigger spec_set(kv, segs, ValueModel::Hash(w), indexed)]
            str_lookup(w, key) == Some(v) && (k2 != key ==> str_lookup(w, k2) == str_lookup(es, k2))
                && spec_hash_set(kv, segs, key, v, indexed) == spec_set(kv, segs, ValueModel::Hash(w), indexed),
        spec_current(kv, segs) == Ok::<Option<ValueModel>, NsErr>(None) ==> exists|w: Seq<(Seq<char>, ValueModel)>|
            #![trigger spec_set(kv, segs, ValueModel::Hash(w), indexed)]
            str_lookup(w, key) == Some(v) && (k2 != key ==> str_lookup(w, k2) is None)
                && spec_hash_set(kv, segs, key, v, indexed) == spec_set(kv, segs, ValueModel::Hash(w), indexed),
        spec_current(kv, segs) matches Ok(Some(x)) && !(x is Hash) ==> spec_hash_set(kv, segs, key, v, indexed) is Err,
{
    if let Ok(Some(ValueModel::Hash(es))) = spec_current(kv, segs) {
        lemma_str_insert_lookup(es, key, v, k2);
        let w = str_insert(es, key, v);
        assert(spec_hash_set(kv, segs, key, v, indexed) == spec_set(kv, segs, ValueModel::Hash(w), indexed));
    }
    if spec_current(kv, segs) == Ok::<Option<ValueModel>, NsErr>(None) {
        lemma_str_insert_lookup(Seq::empty(), key, v, k2);
        let w = str_insert(Seq::empty(), key, v);
        assert(spec_hash_set(kv, segs, key, v, indexed) == spec_set(kv, segs, ValueModel::Hash(w), indexed));
    }
}

/// `tree_set` writes one entry: where the path holds an ordered map (or
/// nothing, read as an empty one), it stores an ordered map in which `key`
/// looks up to `v` and every other key looks up what it did before; a path
/// holding anything else is refused.
pub proof fn lemma_tree_set_writes(kv: Kv, segs: Seq<Seq<char>>, key: ScalarModel, v: ValueModel, indexed: bool, k2: ScalarModel)
    ensures
        spec_current(kv, segs) matches Ok(Some(ValueModel::Tree(es))) ==> exists|w: Seq<(ScalarModel, ValueModel)>|
            #![trigger spec_set(kv, segs, ValueModel::Tree(w), indexed)]
            scalar_lookup(w, key) == Some(v) && (k2 != key ==> scalar_lookup(w, k2) == scalar_lookup(es, k2))
                && spec_tree_set(kv, segs, key, v, indexed) == spec_set(kv, segs, ValueModel::Tree(w), indexed),
        spec_current(kv, segs) == Ok::<Option<ValueModel>, NsErr>(None) ==> exists|w: Seq<(ScalarModel, ValueModel)>|
            #![trigger spec_set(kv, segs, ValueModel::Tree(w), indexed)]
            scalar_lookup(w, key) == Some(v) && (k2 != key ==> scalar_lookup(w, k2) is None)
                && spec_tree_set(kv, segs, key, v, indexed) == spec_set(kv, segs, ValueModel::Tree(w), indexed),
        spec_current(kv, segs) matches Ok(Some(x)) && !(x is Tree) ==> spec_tree_set(kv, segs, key, v, indexed) is Err,
{
    if let Ok(Some(ValueModel::Tree(es))) = spec_current(kv, segs) {
        lemma_scalar_insert_lookup(es, key, v, k2);
        let w = scalar_insert(es, key, v);
        assert(spec_tree_set(kv, segs, key, v, indexed) == spec_set(kv, segs, ValueModel::Tree(w), indexed));
    }
    if spec_current(kv, segs) == Ok::<Option<ValueModel>, NsErr>(None) {
        lemma_scalar_insert_lookup(Seq::empty(), key, v, k2);
        let w = scalar_insert(Seq::empty(), key, v);
        assert(spec_tree_set(kv, segs, key, v, indexed) == spec_set(kv, segs, ValueModel::Tree(w), indexed));
    }
}

/// `set_add` adds a member: where the path holds a set `ms`, it stores a
/// set that keeps `ms` as its first members, has at most one member more,
/// and has a member with `v`'s encoding; it grows exactly when no member
/// of `ms` had that encoding, and then the new member is `v`. Where the
/// path holds nothing it stores the one-member set of `v`; a path holding
/// anything else is refused.
pub proof fn lemma_set_add_adds(kv: Kv, segs: Seq<Seq<char>>, v: ValueModel, indexed: bool)
    ensures
        spec_current(kv, segs) matches Ok(Some(ValueModel::SetOf(ms))) ==> exists|w: Seq<ValueModel>|
            #![trigger spec_set(kv, segs, ValueModel::SetOf(w), indexed)]
            w.take(ms.len() as int) == ms && (w.len() == ms.len() || w.len() == ms.len() + 1)
                && (exists|i: int| 0 <= i < w.len() && enc_value(#[trigger] w[i]) == enc_value(v))
                && (w.len() == ms.len() + 1 <==> !exists|i: int| 0 <= i < ms.len() && enc_value(#[trigger] ms[i]) == enc_value(v))
                && (w.len() == ms.len() + 1 ==> w.last() == v)
                && spec_set_add(kv, segs, v, indexed) == spec_set(kv, segs, ValueModel::SetOf(w), indexed),
        spec_current(kv, segs) == Ok::<Option<ValueModel>, NsErr>(None) ==> spec_set_add(kv, segs, v, indexed)
            == spec_set(kv, segs, ValueModel::SetOf(seq![v]), indexed),
        spec_current(kv, segs) matches Ok(Some(x)) && !(x is SetOf) ==> spec_set_add(kv, segs, v, indexed) is Err,
{
    if let Ok(Some(ValueModel::SetOf(ms))) = spec_current(kv, segs) {
        let w = set_with(ms, v);
        if exists|i: int| 0 <= i < ms.len() && enc_value(#[trigger] ms[i]) == enc_value(v) {
            assert(w.take(ms.len() as int) =~= ms);
        } else {
            assert(w.take(ms.len() as int) =~= ms);
            assert(enc_value(w[ms.len() as int]) == enc_value(v));
        }
        assert(spec_set_add(kv, segs, v, indexed) == spec_set(kv, segs, ValueModel::SetOf(w), indexed));
    }
}

} // verus!
