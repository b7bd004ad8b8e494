//! The namespace operations keep the type index matching the namespace.

use vstd::prelude::*;
use vstd::utf8::{encode_utf8, encode_scalar};
use crate::bytes::{be64, lemma_be64_roundtrip};
use crate::db::{
    Kv, has_children, spec_open, spec_open_base, index_version_key, spec_list, spec_index_from, spec_index_walk,
    walk_fuel, deletes_of, puts_of, spec_current, set_with, walk_ids, spec_resolve, spec_node_type, path_bytes, spec_set, spec_mkdir, spec_delete, spec_parent_dir, spec_next_id};
use crate::errors::NsErr;
use crate::keys::{
    ROOT_ID, NodeRec, node_key_spec, child_key_spec, child_prefix_spec, type_index_key_spec, type_index_prefix_spec, type_index_root,
    meta_next_id_key, decode_id_spec, parse_node_spec, lemma_child_key_injective, lemma_key_kinds_distinct,
    lemma_node_key_injective, lemma_be64_injective,
};
use crate::laws::{child_links_kept, lemma_walk_whole, lemma_walk_frame, lemma_split_last, lemma_walk_one};
use crate::nodes::{tree_shaped, link, next_id_of, lemma_walks_meet, lemma_walk_last, lemma_walk_append};
use crate::path::path_string;
use crate::storage::{has_prefix, is_prefix_scan, lemma_scan_rows, apply_ops, OpModel};
use crate::txn::{TxnOpModel, spec_op, spec_txn};
use crate::typeindex::{path_like, typed_at, node_at, index_faithful};
use crate::value::{ValueModel, ScalarModel, value_type_label, str_insert, scalar_insert};
use crate::bytes::{le32, le64};
use crate::codec::{
    enc_value, enc_str, enc_hash_entries, enc_tree_entries, enc_values, set_payloads, concat, spec_encode, spec_decode,
    TAG_NULL, TAG_BOOL, TAG_INT, TAG_FLOAT, TAG_STRING, TAG_BYTES, TAG_HASH, TAG_SET, TAG_LIST, TAG_TREE,
};
use crate::roundtrip::lemma_decode_encode;

verus! {

/// No child link hangs from a node at or above the next id to hand out.
pub open spec fn fresh_children(kv: Kv) -> bool {
    next_id_of(kv) matches Some(n) && forall|p: u64, name: Seq<char>|
        #[trigger] kv.contains_key(child_key_spec(p, name)) ==> p < n
}

proof fn lemma_scalar_no_slash(c: u32)
    requires
        c != 47,
    ensures
        forall|i: int| 0 <= i < encode_scalar(c).len() ==> encode_scalar(c)[i] != 47u8,
{
    assert(c <= 0x7F && c != 47 ==> (c & 0x7F) as u8 != 47u8) by (bit_vector);
    assert((0xC0u8 | ((c >> 6u32) & 0x1Fu32) as u8) != 47u8) by (bit_vector);
    assert((0xE0u8 | ((c >> 12u32) & 0x0Fu32) as u8) != 47u8) by (bit_vector);
    assert((0xF0u8 | ((c >> 18u32) & 0x7u32) as u8) != 47u8) by (bit_vector);
    assert((0x80u8 | (c & 0x3Fu32) as u8) != 47u8) by (bit_vector);
    assert((0x80u8 | ((c >> 6u32) & 0x3Fu32) as u8) != 47u8) by (bit_vector);
    assert((0x80u8 | ((c >> 12u32) & 0x3Fu32) as u8) != 47u8) by (bit_vector);
}

/// Text without `/` encodes to bytes without `/`.
proof fn lemma_utf8_no_slash(s: Seq<char>)
    requires
        !s.contains('/'),
    ensures
        forall|i: int| 0 <= i < encode_utf8(s).len() ==> encode_utf8(s)[i] != 47u8,
    decreases s.len(),
{
    if s.len() > 0 {
        assert(s[0] != '/');
        assert(s.drop_first().contains('/') ==> s.contains('/')) by {
            if s.drop_first().contains('/') {
                let j = choose|j: int| 0 <= j < s.drop_first().len() && s.drop_first()[j] == '/';
                assert(s[j + 1] == '/');
            }
        }
        lemma_utf8_no_slash(s.drop_first());
        assert('/' as u32 == 47);
        if s[0] as u32 == 47 {
            vstd::utf8::char_u32_cast(s[0], 47);
            vstd::utf8::char_u32_cast('/', 47);
        }
        lemma_scalar_no_slash(s[0] as u32);
        let a = encode_scalar(s[0] as u32);
        let b = encode_utf8(s.drop_first());
        assert forall|i: int| 0 <= i < (a + b).len() implies (a + b)[i] != 47u8 by {
            if i >= a.len() {
                assert((a + b)[i] == b[i - a.len()]);
            }
        }
    }
}

/// A row key lies under the prefix of one type name only, among names
/// without `/`.
pub proof fn lemma_prefix_unique(t: Seq<char>, ty: Seq<char>, id: u64)
    requires
        !t.contains('/'),
        !ty.contains('/'),
        has_prefix(type_index_key_spec(ty, id), type_index_prefix_spec(t)),
    ensures
        t == ty,
{
    let a = encode_utf8(t);
    let b = encode_utf8(ty);
    let k = type_index_key_spec(ty, id);
    let p = type_index_prefix_spec(t);
    lemma_utf8_no_slash(t);
    lemma_utf8_no_slash(ty);
    assert(k.take(p.len() as int) == p);
    let la = a.len() as int;
    let lb = b.len() as int;
    if a.len() < b.len() {
        assert(p[6 + la] == 47u8);
        assert(k[6 + la] == b[la]);
        assert(k.take(p.len() as int)[6 + la] == k[6 + la]);
    } else if a.len() > b.len() {
        assert(k[6 + lb] == 47u8);
        assert(p[6 + lb] == a[lb]);
        assert(k.take(p.len() as int)[6 + lb] == k[6 + lb]);
    } else {
        assert forall|i: int| 0 <= i < a.len() implies a[i] == b[i] by {
            assert(p[6 + i] == a[i]);
            assert(k[6 + i] == b[i]);
            assert(k.take(p.len() as int)[6 + i] == k[6 + i]);
        }
        assert(a =~= b);
        crate::order::lemma_encode_utf8_injective(t, ty);
    }
}

/// A row key names its node.
pub proof fn lemma_row_key_injective(t1: Seq<char>, i1: u64, t2: Seq<char>, i2: u64)
    ensures
        type_index_key_spec(t1, i1) == type_index_key_spec(t2, i2) ==> i1 == i2,
{
    let k1 = type_index_key_spec(t1, i1);
    let k2 = type_index_key_spec(t2, i2);
    if k1 == k2 {
        assert(k1.skip(k1.len() - 8) =~= be64(i1));
        assert(k2.skip(k2.len() - 8) =~= be64(i2));
        lemma_be64_injective(i1, i2);
    }
}

/// A node reached from the root is below the next id to hand out.
pub proof fn lemma_reached_below(kv: Kv, q: Seq<Seq<char>>, w: Seq<char>)
    requires
        tree_shaped(kv),
        walk_ids(kv, ROOT_ID, q, w) is Ok,
    ensures
        walk_ids(kv, ROOT_ID, q, w)->Ok_0 < next_id_of(kv)->Some_0,
{
    if q.len() > 0 {
        lemma_walk_last(kv, q, w);
        let p = walk_ids(kv, ROOT_ID, q.drop_last(), w)->Ok_0;
        assert(link(kv, p, q.last()) == Some(walk_ids(kv, ROOT_ID, q, w)->Ok_0));
    }
}


/// `m` holds the child links of `kv`, with `ck` added: all other child
/// links are as they were.
pub open spec fn links_plus(kv: Kv, m: Kv, ck: Seq<u8>) -> bool {
    forall|p: u64, nm: Seq<char>|
        #![trigger child_key_spec(p, nm)]
        child_key_spec(p, nm) != ck ==> (m.contains_key(child_key_spec(p, nm)) == kv.contains_key(
            child_key_spec(p, nm),
        )) && (kv.contains_key(child_key_spec(p, nm)) ==> m[child_key_spec(p, nm)] == kv[child_key_spec(p, nm)])
}

/// Where one new link from an entry's parent leads to the new node, the
/// walks that succeed are those that did before, and the walk to the new
/// entry.
proof fn lemma_new_walk(kv: Kv, m: Kv, segs: Seq<Seq<char>>, pid: u64, id: u64, q: Seq<Seq<char>>, w: Seq<char>)
    requires
        tree_shaped(kv),
        fresh_children(kv),
        next_id_of(kv) == Some(id),
        segs.len() > 0,
        walk_ids(kv, ROOT_ID, segs.drop_last(), path_string(segs.drop_last())) == Ok::<u64, NsErr>(pid),
        !kv.contains_key(child_key_spec(pid, segs.last())),
        m.contains_key(child_key_spec(pid, segs.last())),
        m[child_key_spec(pid, segs.last())] == be64(id),
        links_plus(kv, m, child_key_spec(pid, segs.last())),
        walk_ids(m, ROOT_ID, q, w) is Ok,
    ensures
        walk_ids(kv, ROOT_ID, q, w) == walk_ids(m, ROOT_ID, q, w) || (q == segs && walk_ids(m, ROOT_ID, q, w)
            == Ok::<u64, NsErr>(id)),
    decreases q.len(),
{
    let ck = child_key_spec(pid, segs.last());
    if q.len() > 0 {
        lemma_walk_last(m, q, w);
        let qp = q.drop_last();
        let last = q.last();
        let pp = walk_ids(m, ROOT_ID, qp, w)->Ok_0;
        let r = walk_ids(m, ROOT_ID, q, w)->Ok_0;
        lemma_new_walk(kv, m, segs, pid, id, qp, w);
        lemma_reached_below(kv, segs.drop_last(), path_string(segs.drop_last()));
        lemma_child_key_injective(pp, last, pid, segs.last());
        lemma_split_last(q);
        if qp == segs && pp == id {
            assert(m.contains_key(child_key_spec(id, last)));
            assert(child_key_spec(id, last) != ck);
            assert(kv.contains_key(child_key_spec(id, last)));
        } else {
            assert(walk_ids(kv, ROOT_ID, qp, w) == Ok::<u64, NsErr>(pp));
            if child_key_spec(pp, last) == ck {
                lemma_be64_roundtrip(id);
                lemma_walk_whole(kv, ROOT_ID, segs.drop_last(), path_string(segs.drop_last()), w);
                lemma_walks_meet(kv, qp, segs.drop_last(), w, w);
                lemma_split_last(segs);
            } else {
                lemma_walk_append(kv, ROOT_ID, qp, seq![last], w);
                lemma_walk_one(kv, pp, last, w);
                lemma_walk_append(m, ROOT_ID, qp, seq![last], w);
                lemma_walk_one(m, pp, last, w);
            }
        }
    }
}

/// Linking a new node at a new path, under its type's row, keeps the index
/// matching the namespace, and keeps new ids free of children.
pub proof fn lemma_link_keeps_index(
    kv: Kv,
    m: Kv,
    segs: Seq<Seq<char>>,
    pid: u64,
    id: u64,
    nodeb: Seq<u8>,
    ty: Seq<char>,
)
    requires
        tree_shaped(kv),
        fresh_children(kv),
        index_faithful(kv),
        next_id_of(kv) == Some(id),
        id < u64::MAX,
        path_like(segs),
        segs.len() > 0,
        !ty.contains('/'),
        walk_ids(kv, ROOT_ID, segs.drop_last(), path_string(segs.drop_last())) == Ok::<u64, NsErr>(pid),
        !kv.contains_key(child_key_spec(pid, segs.last())),
        parse_node_spec(nodeb) matches Ok(rec) && spec_node_type(rec) == Ok::<Seq<char>, NsErr>(ty),
        m == kv.insert(meta_next_id_key(), be64((id + 1) as u64)).insert(node_key_spec(id), nodeb).insert(
            child_key_spec(pid, segs.last()),
            be64(id),
        ).insert(type_index_key_spec(ty, id), path_bytes(segs)),
    ensures
        index_faithful(m),
        fresh_children(m),
{
    let name = segs.last();
    let ck = child_key_spec(pid, name);
    let tk = type_index_key_spec(ty, id);
    lemma_key_kinds_distinct(id, pid, name, ty, id);
    lemma_be64_roundtrip(id);
    lemma_be64_roundtrip((id + 1) as u64);
    lemma_reached_below(kv, segs.drop_last(), path_string(segs.drop_last()));
    assert(links_plus(kv, m, ck)) by {
        assert forall|p: u64, nm: Seq<char>| #![trigger child_key_spec(p, nm)] child_key_spec(p, nm) != ck implies (
        m.contains_key(child_key_spec(p, nm)) == kv.contains_key(child_key_spec(p, nm))) && (kv.contains_key(
            child_key_spec(p, nm),
        ) ==> m[child_key_spec(p, nm)] == kv[child_key_spec(p, nm)]) by {
            lemma_key_kinds_distinct(id, p, nm, ty, id);
        }
    }
    assert(child_links_kept(kv, m)) by {
        assert forall|p: u64, nm: Seq<char>| #![trigger kv.contains_key(child_key_spec(p, nm))] kv.contains_key(
            child_key_spec(p, nm),
        ) implies m.contains_key(child_key_spec(p, nm)) && m[child_key_spec(p, nm)] == kv[child_key_spec(p, nm)] by {
            lemma_key_kinds_distinct(id, p, nm, ty, id);
        }
    }
    // The new entry resolves to the new node, of type `ty`.
    let ps = path_string(segs);
    lemma_split_last(segs);
    lemma_walk_whole(kv, ROOT_ID, segs.drop_last(), path_string(segs.drop_last()), ps);
    lemma_walk_frame(kv, m, ROOT_ID, segs.drop_last(), ps);
    lemma_walk_append(m, ROOT_ID, segs.drop_last(), seq![name], ps);
    lemma_walk_one(m, pid, name, ps);
    assert(walk_ids(m, ROOT_ID, segs, ps) == Ok::<u64, NsErr>(id));
    assert(m[node_key_spec(id)] == nodeb);
    assert(typed_at(m, segs, ty) && node_at(m, segs) == id);
    // Old entries resolve as before.
    assert forall|q: Seq<Seq<char>>| #[trigger] walk_ids(kv, ROOT_ID, q, path_string(q)) is Ok implies spec_resolve(
        m,
        q,
    ) == spec_resolve(kv, q) && walk_ids(kv, ROOT_ID, q, path_string(q))->Ok_0 < id by {
        let w = path_string(q);
        lemma_walk_frame(kv, m, ROOT_ID, q, w);
        lemma_reached_below(kv, q, w);
        let r = walk_ids(kv, ROOT_ID, q, w)->Ok_0;
        lemma_node_key_injective(r, id);
        lemma_key_kinds_distinct(r, pid, name, ty, id);
        let nk = node_key_spec(r);
        assert(nk != meta_next_id_key() && nk != node_key_spec(id) && nk != ck && nk != tk);
        assert(m.contains_key(nk) == kv.contains_key(nk));
        assert(kv.contains_key(nk) ==> m[nk] == kv[nk]);
    }
    assert forall|q: Seq<Seq<char>>, t: Seq<char>| path_like(q) && #[trigger] typed_at(m, q, t) implies m.contains_key(
        type_index_key_spec(t, node_at(m, q)),
    ) && m[type_index_key_spec(t, node_at(m, q))] == path_bytes(q) by {
        let w = path_string(q);
        lemma_new_walk(kv, m, segs, pid, id, q, w);
        if walk_ids(kv, ROOT_ID, q, w) == walk_ids(m, ROOT_ID, q, w) {
            assert(walk_ids(kv, ROOT_ID, q, path_string(q)) is Ok);
            assert(typed_at(kv, q, t));
            let r = node_at(kv, q);
            let k = type_index_key_spec(t, r);
            lemma_row_key_injective(t, r, ty, id);
            lemma_key_kinds_distinct(id, pid, name, t, r);
            assert(k != tk);
        }
    }
    assert forall|t: Seq<char>, k: Seq<u8>|
        !t.contains('/') && m.contains_key(k) && #[trigger] has_prefix(k, type_index_prefix_spec(t)) implies exists|
        s: Seq<Seq<char>>,
    |
        #![trigger typed_at(m, s, t)]
        path_like(s) && typed_at(m, s, t) && k == type_index_key_spec(t, node_at(m, s)) && m[k] == path_bytes(s) by {
        assert(k[0] == type_index_prefix_spec(t)[0]) by {
            assert(k.take(type_index_prefix_spec(t).len() as int)[0] == k[0]);
        }
        if k == tk {
            lemma_prefix_unique(t, ty, id);
            assert(typed_at(m, segs, t));
        } else {
            assert(k != meta_next_id_key() && k != node_key_spec(id) && k != ck);
            assert(kv.contains_key(k) && m[k] == kv[k]);
            let s = choose|s: Seq<Seq<char>>|
                #![trigger typed_at(kv, s, t)]
                path_like(s) && typed_at(kv, s, t) && k == type_index_key_spec(t, node_at(kv, s)) && kv[k]
                    == path_bytes(s);
            assert(walk_ids(kv, ROOT_ID, s, path_string(s)) is Ok);
            assert(typed_at(m, s, t));
        }
    }
    assert(next_id_of(m) == Some((id + 1) as u64));
    assert forall|p: u64, nm: Seq<char>| #[trigger] m.contains_key(child_key_spec(p, nm)) implies p < id + 1 by {
        lemma_child_key_injective(p, nm, pid, name);
        if child_key_spec(p, nm) != ck {
            assert(kv.contains_key(child_key_spec(p, nm)));
        }
    }
}


/// Text in which no character is `/`, read left to right.
pub open spec fn no_slash(s: Seq<char>) -> bool
    decreases s.len(),
{
    s.len() == 0 || (s[0] != '/' && no_slash(s.drop_first()))
}

proof fn lemma_no_slash(s: Seq<char>)
    requires
        no_slash(s),
    ensures
        !s.contains('/'),
    decreases s.len(),
{
    if s.len() > 0 {
        lemma_no_slash(s.drop_first());
        assert forall|i: int| 0 <= i < s.len() implies s[i] != '/' by {
            if i > 0 {
                assert(s[i] == s.drop_first()[i - 1]);
            }
        }
    }
}

/// No type label holds a `/`.
pub proof fn lemma_label_plain(v: ValueModel)
    ensures
        !value_type_label(v).contains('/'),
{
    reveal_strlit("null");
    reveal_strlit("bool");
    reveal_strlit("int");
    reveal_strlit("float");
    reveal_strlit("string");
    reveal_strlit("bytes");
    reveal_strlit("hash");
    reveal_strlit("set");
    reveal_strlit("list");
    reveal_strlit("tree");
    reveal_with_fuel(no_slash, 8);
    lemma_no_slash(value_type_label(v));
}

/// The directory label holds no `/`.
pub proof fn lemma_directory_plain()
    ensures
        !"directory"@.contains('/'),
{
    reveal_strlit("directory");
    reveal_with_fuel(no_slash, 10);
    lemma_no_slash("directory"@);
}


/// The type label a payload's first byte stands for.
pub open spec fn tag_label(b: u8) -> Seq<char> {
    if b == TAG_NULL {
        "null"@
    } else if b == TAG_BOOL {
        "bool"@
    } else if b == TAG_INT {
        "int"@
    } else if b == TAG_FLOAT {
        "float"@
    } else if b == TAG_STRING {
        "string"@
    } else if b == TAG_BYTES {
        "bytes"@
    } else if b == TAG_HASH {
        "hash"@
    } else if b == TAG_SET {
        "set"@
    } else if b == TAG_LIST {
        "list"@
    } else {
        "tree"@
    }
}

proof fn lemma_label_tag(v: ValueModel)
    ensures
        enc_value(v).len() > 0,
        value_type_label(v) == tag_label(enc_value(v)[0]),
{
    let e = enc_value(v);
    match v {
        ValueModel::Scalar(sc) => match sc {
            ScalarModel::Null => {},
            ScalarModel::Bool(_) => {},
            ScalarModel::Int(n) => {
                assert((seq![TAG_INT] + le64(n as u64))[0] == TAG_INT);
            },
            ScalarModel::Float(b) => {
                assert((seq![TAG_FLOAT] + le64(b))[0] == TAG_FLOAT);
            },
            ScalarModel::Str(cs) => {
                assert((seq![TAG_STRING] + enc_str(cs))[0] == TAG_STRING);
            },
            ScalarModel::Bytes(b) => {
                assert((seq![TAG_BYTES] + le32(b.len() as u32) + b)[0] == TAG_BYTES);
            },
        },
        ValueModel::Hash(es) => {
            assert((seq![TAG_HASH] + le32(es.len() as u32) + enc_hash_entries(es))[0] == TAG_HASH);
        },
        ValueModel::SetOf(ms) => {
            assert((seq![TAG_SET] + le32(set_payloads(ms).len() as u32) + concat(set_payloads(ms)))[0] == TAG_SET);
        },
        ValueModel::List(vs) => {
            assert((seq![TAG_LIST] + le32(vs.len() as u32) + enc_values(vs))[0] == TAG_LIST);
        },
        ValueModel::Tree(es) => {
            assert((seq![TAG_TREE] + le32(es.len() as u32) + enc_tree_entries(es))[0] == TAG_TREE);
        },
    }
}

/// Values with one encoding have one type label.
pub proof fn lemma_label_by_encoding(v: ValueModel, w: ValueModel)
    requires
        spec_encode(v) == spec_encode(w),
    ensures
        value_type_label(v) == value_type_label(w),
{
    lemma_label_tag(v);
    lemma_label_tag(w);
    assert(spec_encode(v).drop_first() =~= enc_value(v));
    assert(spec_encode(w).drop_first() =~= enc_value(w));
}

/// The record of a value node reads back as a node of the value's type.
proof fn lemma_value_node_type(v: ValueModel)
    requires
        v.wf(),
        v.encodable(),
    ensures
        parse_node_spec(seq![1u8] + spec_encode(v)) matches Ok(rec) && spec_node_type(rec) == Ok::<Seq<char>, NsErr>(
            value_type_label(v),
        ),
{
    let nb = seq![1u8] + spec_encode(v);
    assert(nb.drop_first() =~= spec_encode(v));
    lemma_decode_encode(v);
    let w = spec_decode(spec_encode(v))->Ok_0;
    lemma_label_by_encoding(v, w);
}


/// Rewriting the record of the node at an existing entry, and moving its
/// row from the old type to the new, keeps the index matching the
/// namespace.
proof fn lemma_rewrite_keeps_index(
    kv: Kv,
    m: Kv,
    segs: Seq<Seq<char>>,
    id: u64,
    nodeb: Seq<u8>,
    old_ty: Seq<char>,
    ty: Seq<char>,
)
    requires
        tree_shaped(kv),
        fresh_children(kv),
        index_faithful(kv),
        path_like(segs),
        !ty.contains('/'),
        walk_ids(kv, ROOT_ID, segs, path_string(segs)) == Ok::<u64, NsErr>(id),
        typed_at(kv, segs, old_ty),
        parse_node_spec(nodeb) matches Ok(rec) && spec_node_type(rec) == Ok::<Seq<char>, NsErr>(ty),
        m == (if old_ty != ty {
            kv.remove(type_index_key_spec(old_ty, id))
        } else {
            kv
        }).insert(node_key_spec(id), nodeb).insert(type_index_key_spec(ty, id), path_bytes(segs)),
    ensures
        index_faithful(m),
        fresh_children(m),
{
    let tk = type_index_key_spec(ty, id);
    let ok = type_index_key_spec(old_ty, id);
    let nk = node_key_spec(id);
    assert forall|p: u64, nm: Seq<char>| #![trigger child_key_spec(p, nm)] (m.contains_key(child_key_spec(p, nm))
        == kv.contains_key(child_key_spec(p, nm))) && (kv.contains_key(child_key_spec(p, nm)) ==> m[child_key_spec(
        p,
        nm,
    )] == kv[child_key_spec(p, nm)]) by {
        lemma_key_kinds_distinct(id, p, nm, ty, id);
        lemma_key_kinds_distinct(id, p, nm, old_ty, id);
    }
    assert(crate::nodes::same_links(kv, m));
    lemma_key_kinds_distinct(id, ROOT_ID, Seq::empty(), ty, id);
    lemma_key_kinds_distinct(id, ROOT_ID, Seq::empty(), old_ty, id);
    assert(next_id_of(m) == next_id_of(kv));
    // Every entry but the rewritten one resolves as before.
    assert forall|q: Seq<Seq<char>>| #[trigger] spec_resolve(m, q) is Ok || spec_resolve(kv, q) is Ok implies (
    walk_ids(m, ROOT_ID, q, path_string(q)) == walk_ids(kv, ROOT_ID, q, path_string(q))) && (walk_ids(
        kv,
        ROOT_ID,
        q,
        path_string(q),
    ) != Ok::<u64, NsErr>(id) ==> spec_resolve(m, q) == spec_resolve(kv, q)) && (walk_ids(kv, ROOT_ID, q, path_string(q))
        == Ok::<u64, NsErr>(id) ==> q == segs) by {
        let w = path_string(q);
        crate::nodes::lemma_walk_same_links(kv, m, ROOT_ID, q, w);
        if walk_ids(kv, ROOT_ID, q, w) is Ok {
            let r = walk_ids(kv, ROOT_ID, q, w)->Ok_0;
            lemma_node_key_injective(r, id);
            lemma_key_kinds_distinct(r, ROOT_ID, Seq::empty(), ty, id);
            lemma_key_kinds_distinct(r, ROOT_ID, Seq::empty(), old_ty, id);
            if r == id {
                lemma_walks_meet(kv, q, segs, w, path_string(segs));
            }
        }
    }
    assert(spec_resolve(m, segs) is Ok);
    assert(typed_at(m, segs, ty) && node_at(m, segs) == id);
    assert forall|q: Seq<Seq<char>>, t: Seq<char>| path_like(q) && #[trigger] typed_at(m, q, t) implies m.contains_key(
        type_index_key_spec(t, node_at(m, q)),
    ) && m[type_index_key_spec(t, node_at(m, q))] == path_bytes(q) by {
        assert(spec_resolve(m, q) is Ok);
        if walk_ids(kv, ROOT_ID, q, path_string(q)) != Ok::<u64, NsErr>(id) {
            assert(typed_at(kv, q, t));
            let r = node_at(kv, q);
            lemma_row_key_injective(t, r, ty, id);
            lemma_row_key_injective(t, r, old_ty, id);
            lemma_key_kinds_distinct(id, ROOT_ID, Seq::empty(), t, r);
        }
    }
    assert forall|t: Seq<char>, k: Seq<u8>|
        !t.contains('/') && m.contains_key(k) && #[trigger] has_prefix(k, type_index_prefix_spec(t)) implies exists|
        s: Seq<Seq<char>>,
    |
        #![trigger typed_at(m, s, t)]
        path_like(s) && typed_at(m, s, t) && k == type_index_key_spec(t, node_at(m, s)) && m[k] == path_bytes(s) by {
        assert(k[0] == type_index_prefix_spec(t)[0]) by {
            assert(k.take(type_index_prefix_spec(t).len() as int)[0] == k[0]);
        }
        if k == tk {
            lemma_prefix_unique(t, ty, id);
            assert(typed_at(m, segs, t));
        } else {
            assert(k != nk);
            assert(kv.contains_key(k) && m[k] == kv[k]);
            let s = choose|s: Seq<Seq<char>>|
                #![trigger typed_at(kv, s, t)]
                path_like(s) && typed_at(kv, s, t) && k == type_index_key_spec(t, node_at(kv, s)) && kv[k]
                    == path_bytes(s);
            assert(spec_resolve(kv, s) is Ok);
            if walk_ids(kv, ROOT_ID, s, path_string(s)) == Ok::<u64, NsErr>(id) {
                assert(s == segs);
                assert(t == old_ty);
                assert(k == ok);
            } else {
                assert(typed_at(m, s, t));
            }
        }
    }
}

/// `set` keeps the type index matching the namespace, on a store whose
/// links form a tree and whose unused ids have no children: a new entry
/// gets its row, and a rewritten one has its row moved to its new type.
pub proof fn lemma_set_keeps_index(kv: Kv, segs: Seq<Seq<char>>, v: ValueModel)
    requires
        tree_shaped(kv),
        fresh_children(kv),
        index_faithful(kv),
        path_like(segs),
        v.wf(),
        v.encodable(),
        spec_set(kv, segs, v, true) is Ok,
    ensures
        tree_shaped(spec_set(kv, segs, v, true)->Ok_0),
        fresh_children(spec_set(kv, segs, v, true)->Ok_0),
        index_faithful(spec_set(kv, segs, v, true)->Ok_0),
{
    let m = spec_set(kv, segs, v, true)->Ok_0;
    crate::nodes::lemma_set_keeps_tree(kv, segs, v, true);
    lemma_value_node_type(v);
    lemma_label_plain(v);
    let ty = value_type_label(v);
    let nodeb = seq![1u8] + spec_encode(v);
    let pid = spec_parent_dir(kv, segs)->Ok_0;
    let name = segs.last();
    let ck = child_key_spec(pid, name);
    let parent = segs.drop_last();
    assert(walk_ids(kv, ROOT_ID, parent, path_string(parent)) == Ok::<u64, NsErr>(pid));
    if kv.contains_key(ck) {
        let id = decode_id_spec(kv[ck])->Some_0;
        let old_enc = parse_node_spec(kv[node_key_spec(id)])->Ok_0->Value_0;
        let old_ty = value_type_label(spec_decode(old_enc)->Ok_0);
        let ps = path_string(segs);
        lemma_split_last(segs);
        lemma_walk_whole(kv, ROOT_ID, parent, path_string(parent), ps);
        lemma_walk_append(kv, ROOT_ID, parent, seq![name], ps);
        lemma_walk_one(kv, pid, name, ps);
        assert(walk_ids(kv, ROOT_ID, segs, ps) == Ok::<u64, NsErr>(id));
        assert(typed_at(kv, segs, old_ty));
        lemma_rewrite_keeps_index(kv, m, segs, id, nodeb, old_ty, ty);
    } else {
        let id = spec_next_id(kv)->Ok_0;
        lemma_link_keeps_index(kv, m, segs, pid, id, nodeb, ty);
    }
}


/// Every child link hangs from a directory node and leads to a node whose
/// record reads.
pub open spec fn links_sound(kv: Kv) -> bool {
    forall|p: u64, nm: Seq<char>|
        #![trigger kv.contains_key(child_key_spec(p, nm))]
        kv.contains_key(child_key_spec(p, nm)) ==> kv.contains_key(node_key_spec(p)) && parse_node_spec(
            kv[node_key_spec(p)],
        ) == Ok::<NodeRec, Seq<char>>(NodeRec::Dir) && (decode_id_spec(kv[child_key_spec(p, nm)]) matches Some(c)
            && kv.contains_key(node_key_spec(c)) && parse_node_spec(kv[node_key_spec(c)]) is Ok)
}

/// The store's namespace is well kept: its links form a tree from the root,
/// hang from directories and lead to readable nodes, unused ids have no
/// children, and the type index matches the namespace.
pub open spec fn namespace_kept(kv: Kv) -> bool {
    &&& tree_shaped(kv)
    &&& fresh_children(kv)
    &&& links_sound(kv)
    &&& index_faithful(kv)
}

proof fn lemma_child_key_prefix(p: u64, nm: Seq<char>)
    ensures
        has_prefix(child_key_spec(p, nm), child_prefix_spec(p)),
{
    assert(child_key_spec(p, nm).take(child_prefix_spec(p).len() as int) =~= child_prefix_spec(p));
}

/// Linking a new node keeps the links sound.
proof fn lemma_link_keeps_links(kv: Kv, m: Kv, segs: Seq<Seq<char>>, pid: u64, id: u64, nodeb: Seq<u8>, ty: Seq<char>)
    requires
        tree_shaped(kv),
        fresh_children(kv),
        links_sound(kv),
        next_id_of(kv) == Some(id),
        segs.len() > 0,
        walk_ids(kv, ROOT_ID, segs.drop_last(), path_string(segs.drop_last())) == Ok::<u64, NsErr>(pid),
        kv.contains_key(node_key_spec(pid)),
        parse_node_spec(kv[node_key_spec(pid)]) == Ok::<NodeRec, Seq<char>>(NodeRec::Dir),
        parse_node_spec(nodeb) is Ok,
        m == kv.insert(meta_next_id_key(), be64((id + 1) as u64)).insert(node_key_spec(id), nodeb).insert(
            child_key_spec(pid, segs.last()),
            be64(id),
        ).insert(type_index_key_spec(ty, id), path_bytes(segs)),
    ensures
        links_sound(m),
{
    let ck = child_key_spec(pid, segs.last());
    lemma_reached_below(kv, segs.drop_last(), path_string(segs.drop_last()));
    lemma_be64_roundtrip(id);
    assert forall|p: u64, nm: Seq<char>| #![trigger m.contains_key(child_key_spec(p, nm))] m.contains_key(
        child_key_spec(p, nm),
    ) implies m.contains_key(node_key_spec(p)) && parse_node_spec(m[node_key_spec(p)]) == Ok::<NodeRec, Seq<char>>(
        NodeRec::Dir,
    ) && (decode_id_spec(m[child_key_spec(p, nm)]) matches Some(c) && m.contains_key(node_key_spec(c))
        && parse_node_spec(m[node_key_spec(c)]) is Ok) by {
        lemma_key_kinds_distinct(id, p, nm, ty, id);
        lemma_key_kinds_distinct(p, p, nm, ty, id);
        lemma_node_key_injective(p, id);
        lemma_key_kinds_distinct(pid, p, nm, ty, id);
        lemma_node_key_injective(pid, id);
        if child_key_spec(p, nm) != ck {
            assert(kv.contains_key(child_key_spec(p, nm)));
            let c = decode_id_spec(kv[child_key_spec(p, nm)])->Some_0;
            assert(link(kv, p, nm) == Some(c));
            lemma_node_key_injective(c, id);
            lemma_key_kinds_distinct(c, p, nm, ty, id);
        } else {
            lemma_child_key_injective(p, nm, pid, segs.last());
        }
    }
}

/// `mkdir` keeps the namespace well kept.
pub proof fn lemma_mkdir_keeps_namespace(kv: Kv, segs: Seq<Seq<char>>)
    requires
        namespace_kept(kv),
        path_like(segs),
        spec_mkdir(kv, segs, true) is Ok,
    ensures
        namespace_kept(spec_mkdir(kv, segs, true)->Ok_0),
{
    if segs.len() > 0 {
        let m = spec_mkdir(kv, segs, true)->Ok_0;
        crate::nodes::lemma_mkdir_keeps_tree(kv, segs, true);
        let parent = segs.drop_last();
        let name = segs.last();
        let ps = path_string(segs);
        let pid = spec_parent_dir(kv, segs)->Ok_0;
        let ck = child_key_spec(pid, name);
        let id = spec_next_id(kv)->Ok_0;
        lemma_split_last(segs);
        lemma_walk_whole(kv, ROOT_ID, parent, path_string(parent), ps);
        lemma_walk_append(kv, ROOT_ID, parent, seq![name], ps);
        lemma_walk_one(kv, pid, name, ps);
        assert(!kv.contains_key(ck)) by {
            if kv.contains_key(ck) {
                assert(walk_ids(kv, ROOT_ID, segs, ps) is Ok);
                assert(spec_resolve(kv, segs) is Ok);
            }
        }
        lemma_directory_plain();
        assert(parse_node_spec(seq![0u8]) == Ok::<NodeRec, Seq<char>>(NodeRec::Dir));
        lemma_link_keeps_index(kv, m, segs, pid, id, seq![0u8], "directory"@);
        lemma_link_keeps_links(kv, m, segs, pid, id, seq![0u8], "directory"@);
    }
}

/// `set` keeps the namespace well kept.
pub proof fn lemma_set_keeps_namespace(kv: Kv, segs: Seq<Seq<char>>, v: ValueModel)
    requires
        namespace_kept(kv),
        path_like(segs),
        v.wf(),
        v.encodable(),
        spec_set(kv, segs, v, true) is Ok,
    ensures
        namespace_kept(spec_set(kv, segs, v, true)->Ok_0),
{
    lemma_set_keeps_index(kv, segs, v);
    let m = spec_set(kv, segs, v, true)->Ok_0;
    lemma_value_node_type(v);
    let ty = value_type_label(v);
    let nodeb = seq![1u8] + spec_encode(v);
    let pid = spec_parent_dir(kv, segs)->Ok_0;
    let name = segs.last();
    let ck = child_key_spec(pid, name);
    let parent = segs.drop_last();
    assert(walk_ids(kv, ROOT_ID, parent, path_string(parent)) == Ok::<u64, NsErr>(pid));
    if kv.contains_key(ck) {
        let id = decode_id_spec(kv[ck])->Some_0;
        let old_enc = parse_node_spec(kv[node_key_spec(id)])->Ok_0->Value_0;
        let old_ty = value_type_label(spec_decode(old_enc)->Ok_0);
        assert forall|p: u64, nm: Seq<char>| #![trigger m.contains_key(child_key_spec(p, nm))] m.contains_key(
            child_key_spec(p, nm),
        ) implies m.contains_key(node_key_spec(p)) && parse_node_spec(m[node_key_spec(p)]) == Ok::<NodeRec, Seq<char>>(
            NodeRec::Dir,
        ) && (decode_id_spec(m[child_key_spec(p, nm)]) matches Some(c) && m.contains_key(node_key_spec(c))
            && parse_node_spec(m[node_key_spec(c)]) is Ok) by {
            lemma_key_kinds_distinct(id, p, nm, ty, id);
            lemma_key_kinds_distinct(id, p, nm, old_ty, id);
            assert(kv.contains_key(child_key_spec(p, nm)));
            let c = decode_id_spec(kv[child_key_spec(p, nm)])->Some_0;
            lemma_node_key_injective(p, id);
            lemma_node_key_injective(c, id);
            lemma_key_kinds_distinct(p, p, nm, ty, id);
            lemma_key_kinds_distinct(p, p, nm, old_ty, id);
            lemma_key_kinds_distinct(c, p, nm, ty, id);
            lemma_key_kinds_distinct(c, p, nm, old_ty, id);
        }
    } else {
        let id = spec_next_id(kv)->Ok_0;
        lemma_link_keeps_links(kv, m, segs, pid, id, nodeb, ty);
    }
}


/// A walk that succeeds in part of a store succeeds alike in the whole.
proof fn lemma_walk_sub_ok(kv: Kv, m: Kv, id: u64, segs: Seq<Seq<char>>, w: Seq<char>)
    requires
        crate::laws::submap(m, kv),
        walk_ids(m, id, segs, w) is Ok,
    ensures
        walk_ids(kv, id, segs, w) == walk_ids(m, id, segs, w),
    decreases segs.len(),
{
    if segs.len() > 0 {
        let k = child_key_spec(id, segs[0]);
        assert(m.contains_key(k));
        if let Some(c) = decode_id_spec(m[k]) {
            lemma_walk_sub_ok(kv, m, c, segs.drop_first(), w);
        }
    }
}

/// Where one link is taken away, a walk that no longer succeeds as before
/// ends at that link, or passes on from the node it led to.
proof fn lemma_lost_walk(kv: Kv, m: Kv, segs: Seq<Seq<char>>, pid: u64, id: u64, q: Seq<Seq<char>>, w: Seq<char>)
    requires
        tree_shaped(kv),
        segs.len() > 0,
        walk_ids(kv, ROOT_ID, segs.drop_last(), path_string(segs.drop_last())) == Ok::<u64, NsErr>(pid),
        link(kv, pid, segs.last()) == Some(id),
        !m.contains_key(child_key_spec(pid, segs.last())),
        links_plus(m, kv, child_key_spec(pid, segs.last())),
        walk_ids(kv, ROOT_ID, q, w) is Ok,
    ensures
        walk_ids(m, ROOT_ID, q, w) == walk_ids(kv, ROOT_ID, q, w) || q == segs || exists|x: Seq<char>|
            kv.contains_key(#[trigger] child_key_spec(id, x)),
    decreases q.len(),
{
    let ck = child_key_spec(pid, segs.last());
    if q.len() > 0 {
        lemma_walk_last(kv, q, w);
        let qp = q.drop_last();
        let last = q.last();
        let pp = walk_ids(kv, ROOT_ID, qp, w)->Ok_0;
        lemma_lost_walk(kv, m, segs, pid, id, qp, w);
        lemma_split_last(q);
        lemma_child_key_injective(pp, last, pid, segs.last());
        if qp == segs {
            lemma_walk_whole(kv, ROOT_ID, segs.drop_last(), path_string(segs.drop_last()), w);
            lemma_split_last(segs);
            lemma_walk_append(kv, ROOT_ID, segs.drop_last(), seq![segs.last()], w);
            lemma_walk_one(kv, pid, segs.last(), w);
            assert(pp == id);
            assert(kv.contains_key(child_key_spec(id, last)));
        } else if walk_ids(m, ROOT_ID, qp, w) == walk_ids(kv, ROOT_ID, qp, w) {
            if child_key_spec(pp, last) == ck {
                lemma_walk_whole(kv, ROOT_ID, segs.drop_last(), path_string(segs.drop_last()), w);
                lemma_walks_meet(kv, qp, segs.drop_last(), w, w);
                lemma_split_last(segs);
            } else {
                lemma_walk_append(kv, ROOT_ID, qp, seq![last], w);
                lemma_walk_one(kv, pp, last, w);
                lemma_walk_append(m, ROOT_ID, qp, seq![last], w);
                lemma_walk_one(m, pp, last, w);
            }
        }
    }
}

/// `delete` keeps the namespace well kept: the entry's row goes with it.
#[verifier::spinoff_prover]
#[verifier::rlimit(40)]
pub proof fn lemma_delete_keeps_namespace(kv: Kv, segs: Seq<Seq<char>>)
    requires
        namespace_kept(kv),
        spec_delete(kv, segs, true) is Ok,
    ensures
        namespace_kept(spec_delete(kv, segs, true)->Ok_0),
{
    let m = spec_delete(kv, segs, true)->Ok_0;
    crate::nodes::lemma_delete_keeps_tree(kv, segs, true);
    let id = spec_resolve(kv, segs)->Ok_0.0;
    let rec = spec_resolve(kv, segs)->Ok_0.1;
    let parent = segs.drop_last();
    let pid = spec_resolve(kv, parent)->Ok_0.0;
    let name = segs.last();
    let ck = child_key_spec(pid, name);
    let ty = spec_node_type(rec)->Ok_0;
    let tk = type_index_key_spec(ty, id);
    let nk = node_key_spec(id);
    let ps = path_string(segs);
    lemma_split_last(segs);
    lemma_walk_whole(kv, ROOT_ID, parent, path_string(parent), ps);
    lemma_walk_append(kv, ROOT_ID, parent, seq![name], ps);
    lemma_walk_one(kv, pid, name, ps);
    assert(walk_ids(kv, ROOT_ID, segs, ps) == Ok::<u64, NsErr>(id));
    assert(link(kv, pid, name) == Some(id));
    assert(walk_ids(kv, ROOT_ID, parent, path_string(parent)) == Ok::<u64, NsErr>(pid));
    lemma_key_kinds_distinct(id, pid, name, ty, id);
    // No link hangs from the deleted node.
    assert forall|x: Seq<char>| !kv.contains_key(#[trigger] child_key_spec(id, x)) by {
        if kv.contains_key(child_key_spec(id, x)) {
            lemma_child_key_prefix(id, x);
            assert(rec is Dir);
            assert(has_children(kv, id));
        }
    }
    assert(links_plus(m, kv, ck)) by {
        assert forall|p: u64, nm: Seq<char>| #![trigger child_key_spec(p, nm)] child_key_spec(p, nm) != ck implies (
        kv.contains_key(child_key_spec(p, nm)) == m.contains_key(child_key_spec(p, nm))) && (m.contains_key(
            child_key_spec(p, nm),
        ) ==> kv[child_key_spec(p, nm)] == m[child_key_spec(p, nm)]) by {
            lemma_key_kinds_distinct(id, p, nm, ty, id);
        }
    }
    assert(crate::laws::submap(m, kv));
    // An entry that still resolves resolves as before, and is not the deleted one.
    assert forall|q: Seq<Seq<char>>| #[trigger] spec_resolve(m, q) is Ok implies spec_resolve(m, q) == spec_resolve(kv, q)
        && walk_ids(kv, ROOT_ID, q, path_string(q))->Ok_0 != id by {
        let w = path_string(q);
        lemma_walk_sub_ok(kv, m, ROOT_ID, q, w);
        let r = walk_ids(m, ROOT_ID, q, w)->Ok_0;
        assert(walk_ids(kv, ROOT_ID, q, w) == Ok::<u64, NsErr>(r));
        if r == id {
            lemma_walks_meet(kv, q, segs, w, ps);
            crate::laws::lemma_gone_after_delete(kv, segs, true);
        }
        lemma_node_key_injective(r, id);
        lemma_key_kinds_distinct(r, pid, name, ty, id);
    }
    // An entry that resolved before still does, unless it is the deleted one.
    assert forall|q: Seq<Seq<char>>| #[trigger] spec_resolve(kv, q) is Ok && q != segs implies spec_resolve(m, q)
        == spec_resolve(kv, q) by {
        let w = path_string(q);
        lemma_lost_walk(kv, m, segs, pid, id, q, w);
        let r = walk_ids(kv, ROOT_ID, q, w)->Ok_0;
        if r == id {
            lemma_walks_meet(kv, q, segs, w, ps);
        }
        lemma_node_key_injective(r, id);
        lemma_key_kinds_distinct(r, pid, name, ty, id);
    }
    assert forall|q: Seq<Seq<char>>, t: Seq<char>| path_like(q) && #[trigger] typed_at(m, q, t) implies m.contains_key(
        type_index_key_spec(t, node_at(m, q)),
    ) && m[type_index_key_spec(t, node_at(m, q))] == path_bytes(q) by {
        assert(spec_resolve(m, q) is Ok);
        assert(typed_at(kv, q, t));
        let r = node_at(kv, q);
        lemma_row_key_injective(t, r, ty, id);
        lemma_key_kinds_distinct(id, pid, name, t, r);
    }
    assert forall|t: Seq<char>, k: Seq<u8>|
        !t.contains('/') && m.contains_key(k) && #[trigger] has_prefix(k, type_index_prefix_spec(t)) implies exists|
        s: Seq<Seq<char>>,
    |
        #![trigger typed_at(m, s, t)]
        path_like(s) && typed_at(m, s, t) && k == type_index_key_spec(t, node_at(m, s)) && m[k] == path_bytes(s) by {
        assert(kv.contains_key(k) && m[k] == kv[k]);
        let s = choose|s: Seq<Seq<char>>|
            #![trigger typed_at(kv, s, t)]
            path_like(s) && typed_at(kv, s, t) && k == type_index_key_spec(t, node_at(kv, s)) && kv[k]
                == path_bytes(s);
        assert(spec_resolve(kv, s) is Ok);
        if s == segs {
            assert(k == tk);
        } else {
            assert(typed_at(m, s, t));
        }
    }
    // Links stay sound, and unused ids stay childless.
    assert(next_id_of(m) == next_id_of(kv));
    assert forall|p: u64, nm: Seq<char>| #![trigger m.contains_key(child_key_spec(p, nm))] m.contains_key(
        child_key_spec(p, nm),
    ) implies m.contains_key(node_key_spec(p)) && parse_node_spec(m[node_key_spec(p)]) == Ok::<NodeRec, Seq<char>>(
        NodeRec::Dir,
    ) && (decode_id_spec(m[child_key_spec(p, nm)]) matches Some(c) && m.contains_key(node_key_spec(c))
        && parse_node_spec(m[node_key_spec(c)]) is Ok) by {
        assert(kv.contains_key(child_key_spec(p, nm)));
        let c = decode_id_spec(kv[child_key_spec(p, nm)])->Some_0;
        lemma_key_kinds_distinct(id, p, nm, ty, id);
        lemma_node_key_injective(p, id);
        lemma_node_key_injective(c, id);
        lemma_key_kinds_distinct(p, p, nm, ty, id);
        lemma_key_kinds_distinct(c, p, nm, ty, id);
        lemma_child_key_injective(p, nm, pid, name);
        assert(link(kv, p, nm) == Some(c));
        if c == id {
            assert(link(kv, p, nm) == link(kv, pid, name));
        }
    }
    assert forall|p: u64, nm: Seq<char>| #[trigger] m.contains_key(child_key_spec(p, nm)) implies p < next_id_of(
        m,
    )->Some_0 by {
        assert(kv.contains_key(child_key_spec(p, nm)));
    }
}


/// A store opened from nothing is well kept: it holds the root directory,
/// whose row in the index names `/`, and nothing else, so the root reads
/// as a directory and lists nothing.
pub proof fn lemma_fresh_store_kept()
    ensures
        spec_open(Map::empty()) matches Ok(m) ==> namespace_kept(m) && crate::db::spec_get(m, Seq::empty())
            == Ok::<(crate::db::EntryKind, Option<ValueModel>), NsErr>((crate::db::EntryKind::Directory, None))
            && spec_list(m, Seq::empty()) == Ok::<Seq<(Seq<char>, crate::db::EntryKind)>, NsErr>(Seq::empty()),
{
    crate::nodes::lemma_fresh_store_is_tree();
    let kv = Map::<Seq<u8>, Seq<u8>>::empty();
    let k1 = spec_open_base(kv);
    let ty = "directory"@;
    let tk = type_index_key_spec(ty, ROOT_ID);
    let nk = node_key_spec(ROOT_ID);
    let mk = meta_next_id_key();
    let vk = index_version_key();
    lemma_key_kinds_distinct(ROOT_ID, ROOT_ID, Seq::empty(), ty, ROOT_ID);
    lemma_be64_roundtrip((ROOT_ID + 1) as u64);
    assert(k1 == kv.insert(nk, seq![0u8]).insert(mk, be64((ROOT_ID + 1) as u64)).insert(tk, seq![47u8]));
    if spec_open(kv) is Ok {
        let m = spec_open(kv)->Ok_0;
        assert(!k1.contains_key(vk)) by {
            assert(vk[5] != mk[5]);
            assert(vk[0] != nk[0]);
            assert(vk[0] != tk[0]);
        }
        // the scans the rebuild makes
        let ir = type_index_root();
        let cp = child_prefix_spec(ROOT_ID);
        let rows = seq![(tk, seq![47u8])];
        assert(tk.take(ir.len() as int) =~= ir);
        assert(is_prefix_scan(k1, ir, rows)) by {
            assert forall|k: Seq<u8>| k1.contains_key(k) && has_prefix(k, ir) implies exists|i: int|
                0 <= i < rows.len() && #[trigger] rows[i].0 == k by {
                if k == nk {
                    assert(k.take(ir.len() as int)[0] == k[0]);
                } else if k == mk {
                    assert(k.take(ir.len() as int)[0] == k[0]);
                }
                assert(rows[0].0 == k);
            }
        }
        lemma_scan_rows(k1, ir, rows);
        assert(is_prefix_scan(k1, cp, Seq::empty())) by {
            assert forall|k: Seq<u8>| k1.contains_key(k) && has_prefix(k, cp) implies exists|i: int|
                0 <= i < Seq::<(Seq<u8>, Seq<u8>)>::empty().len() && #[trigger] Seq::<(Seq<u8>, Seq<u8>)>::empty()[i].0
                    == k by {
                assert(k.take(cp.len() as int)[0] == k[0]);
                assert(cp[0] == 99u8);
            }
        }
        lemma_scan_rows(k1, cp, Seq::empty());
        let e: Seq<Seq<char>> = Seq::empty();
        assert(walk_ids(k1, ROOT_ID, e, path_string(e)) == Ok::<u64, NsErr>(ROOT_ID));
        assert(spec_list(k1, e) == Ok::<Seq<(Seq<char>, crate::db::EntryKind)>, NsErr>(Seq::empty()));
        let here = seq![(tk, path_bytes(e))];
        assert(spec_index_from(k1, e, Seq::empty(), 0, (walk_fuel() - 1) as nat) == Ok::<
            Seq<(Seq<u8>, Seq<u8>)>,
            NsErr,
        >(Seq::empty()));
        assert(spec_index_walk(k1, e, walk_fuel()) == Ok::<Seq<(Seq<u8>, Seq<u8>)>, NsErr>(here + Seq::empty()));
        assert(here + Seq::<(Seq<u8>, Seq<u8>)>::empty() =~= here);
        // The root's path is `/`.
        assert(path_bytes(e) == seq![47u8]) by {
            assert((47u32 & 0x7Fu32) as u8 == 47u8) by (bit_vector);
            assert('/' as u32 == 47);
            assert(seq!['/'].drop_first() =~= Seq::<char>::empty());
            assert(encode_utf8(seq!['/']) =~= seq![47u8]);
        }
        let ops = deletes_of(rows) + puts_of(here);
        assert(ops =~= seq![OpModel::Delete(tk), OpModel::Put(tk, seq![47u8])]);
        assert(ops.drop_last() =~= seq![OpModel::Delete(tk)]);
        assert(ops.drop_last().drop_last() =~= Seq::<OpModel>::empty());
        let k2 = apply_ops(k1, ops);
        assert(apply_ops(k1, ops.drop_last().drop_last()) == k1);
        assert(ops.drop_last().last() == OpModel::Delete(tk));
        assert(apply_ops(k1, ops.drop_last()) == k1.remove(tk));
        assert(ops.last() == OpModel::Put(tk, seq![47u8]));
        assert(k2 == k1.remove(tk).insert(tk, seq![47u8]));
        assert(k2 =~= k1);
        assert(m == k1.insert(vk, be64(1)));
        assert forall|p: u64, nm: Seq<char>| !m.contains_key(#[trigger] child_key_spec(p, nm)) by {
            lemma_key_kinds_distinct(ROOT_ID, p, nm, ty, ROOT_ID);
            assert(vk[0] != child_key_spec(p, nm)[0]);
        }
        assert(next_id_of(m) == Some((ROOT_ID + 1) as u64)) by {
            assert(vk != mk);
        }
        lemma_directory_plain();
        assert(typed_at(m, e, ty) && node_at(m, e) == ROOT_ID) by {
            assert(vk != nk);
        }
        assert forall|q: Seq<Seq<char>>, t: Seq<char>| path_like(q) && #[trigger] typed_at(m, q, t) implies m.contains_key(
            type_index_key_spec(t, node_at(m, q)),
        ) && m[type_index_key_spec(t, node_at(m, q))] == path_bytes(q) by {
            if q.len() > 0 {
                assert(!m.contains_key(child_key_spec(ROOT_ID, q[0])));
            } else {
                assert(q == e);
                assert(vk != tk);
            }
        }
        assert forall|t: Seq<char>, k: Seq<u8>|
            !t.contains('/') && m.contains_key(k) && #[trigger] has_prefix(k, type_index_prefix_spec(t)) implies exists|
            s: Seq<Seq<char>>,
        |
            #![trigger typed_at(m, s, t)]
            path_like(s) && typed_at(m, s, t) && k == type_index_key_spec(t, node_at(m, s)) && m[k] == path_bytes(s) by {
            assert(k.take(type_index_prefix_spec(t).len() as int)[0] == k[0]);
            assert(k[0] == 105u8);
            assert(k != nk && k != mk && k != vk);
            assert(k == tk);
            lemma_prefix_unique(t, ty, ROOT_ID);
            assert(typed_at(m, e, t));
            assert(vk != tk);
        }
        assert(is_prefix_scan(m, cp, Seq::empty())) by {
            assert forall|k: Seq<u8>| m.contains_key(k) && has_prefix(k, cp) implies exists|i: int|
                0 <= i < Seq::<(Seq<u8>, Seq<u8>)>::empty().len() && #[trigger] Seq::<(Seq<u8>, Seq<u8>)>::empty()[i].0
                    == k by {
                assert(k.take(cp.len() as int)[0] == k[0]);
                assert(cp[0] == 99u8);
                assert(vk[0] == 109u8);
            }
        }
        lemma_scan_rows(m, cp, Seq::empty());
        assert(spec_resolve(m, e) == Ok::<(u64, NodeRec), NsErr>((ROOT_ID, NodeRec::Dir))) by {
            assert(vk != nk);
        }
    }
}


/// The value a transaction step writes on `kv`, for the steps that write
/// one: the value given, or the structure at the path updated by it.
pub open spec fn written_value(kv: Kv, op: TxnOpModel) -> Option<ValueModel> {
    match op {
        TxnOpModel::SetValue(_, v) => Some(v),
        TxnOpModel::HashSet(p, k, v) => match spec_current(kv, p) {
            Ok(None) => Some(ValueModel::Hash(str_insert(Seq::empty(), k, v))),
            Ok(Some(ValueModel::Hash(es))) => Some(ValueModel::Hash(str_insert(es, k, v))),
            _ => None,
        },
        TxnOpModel::ListPush(p, v) => match spec_current(kv, p) {
            Ok(None) => Some(ValueModel::List(seq![v])),
            Ok(Some(ValueModel::List(vs))) => Some(ValueModel::List(vs.push(v))),
            _ => None,
        },
        TxnOpModel::SetAdd(p, v) => match spec_current(kv, p) {
            Ok(None) => Some(ValueModel::SetOf(seq![v])),
            Ok(Some(ValueModel::SetOf(ms))) => Some(ValueModel::SetOf(set_with(ms, v))),
            _ => None,
        },
        TxnOpModel::TreeSet(p, k, v) => match spec_current(kv, p) {
            Ok(None) => Some(ValueModel::Tree(scalar_insert(Seq::empty(), k, v))),
            Ok(Some(ValueModel::Tree(es))) => Some(ValueModel::Tree(scalar_insert(es, k, v))),
            _ => None,
        },
        _ => None,
    }
}

/// The path a transaction step acts on.
pub open spec fn op_path(op: TxnOpModel) -> Seq<Seq<char>> {
    match op {
        TxnOpModel::Mkdir(p) => p,
        TxnOpModel::SetValue(p, _) => p,
        TxnOpModel::Delete(p) => p,
        TxnOpModel::HashSet(p, _, _) => p,
        TxnOpModel::ListPush(p, _) => p,
        TxnOpModel::SetAdd(p, _) => p,
        TxnOpModel::TreeSet(p, _, _) => p,
    }
}

/// A step fits a store: its path is one a path may be, and what it writes
/// there encodes faithfully.
pub open spec fn op_fits(kv: Kv, op: TxnOpModel) -> bool {
    path_like(op_path(op)) && (written_value(kv, op) matches Some(w) ==> w.wf() && w.encodable())
}

/// Every step of a transaction fits the store it meets.
pub open spec fn txn_fits(kv: Kv, ops: Seq<TxnOpModel>) -> bool
    decreases ops.len(),
{
    ops.len() == 0 || (txn_fits(kv, ops.drop_last()) && (spec_txn(kv, ops.drop_last()) matches Ok(m) ==> op_fits(
        m,
        ops.last(),
    )))
}

/// A successful step other than `mkdir` and `delete` is a `set` of the
/// value it writes.
#[verifier::spinoff_prover]
#[verifier::rlimit(100)]
proof fn lemma_step_writes(kv: Kv, op: TxnOpModel)
    requires
        !(op is Mkdir),
        !(op is Delete),
        spec_op(kv, op) is Ok,
    ensures
        written_value(kv, op) is Some,
        spec_op(kv, op) == spec_set(kv, op_path(op), written_value(kv, op)->Some_0, true),
{
    crate::txn::lemma_spec_op_cases(kv, op);
    match op {
        TxnOpModel::SetValue(p, v) => {},
        TxnOpModel::HashSet(p, k, v) => {
            assert(spec_op(kv, op) == crate::db::spec_hash_set(kv, p, k, v, true));
        },
        TxnOpModel::ListPush(p, v) => {
            assert(spec_op(kv, op) == crate::db::spec_list_push(kv, p, v, true));
        },
        TxnOpModel::SetAdd(p, v) => {
            assert(spec_op(kv, op) == crate::db::spec_set_add(kv, p, v, true));
        },
        TxnOpModel::TreeSet(p, k, v) => {
            assert(spec_op(kv, op) == crate::db::spec_tree_set(kv, p, k, v, true));
        },
        _ => {},
    }
}

/// What `mkdir` and `delete` steps are.
proof fn lemma_step_plain(kv: Kv, op: TxnOpModel)
    ensures
        op matches TxnOpModel::Mkdir(p) ==> spec_op(kv, op) == spec_mkdir(kv, p, true),
        op matches TxnOpModel::Delete(p) ==> spec_op(kv, op) == spec_delete(kv, p, true),
{
    crate::txn::lemma_spec_op_cases(kv, op);
}

/// Each step of a transaction, and so each single operation (`mkdir`,
/// `set`, `delete` and the updates of structures), keeps the namespace well
/// kept, where what it writes encodes faithfully.
#[verifier::spinoff_prover]
#[verifier::rlimit(60)]
pub proof fn lemma_op_keeps_namespace(kv: Kv, op: TxnOpModel)
    requires
        namespace_kept(kv),
        op_fits(kv, op),
        spec_op(kv, op) is Ok,
    ensures
        namespace_kept(spec_op(kv, op)->Ok_0),
{
    lemma_step_plain(kv, op);
    match op {
        TxnOpModel::Mkdir(p) => lemma_mkdir_keeps_namespace(kv, p),
        TxnOpModel::Delete(p) => lemma_delete_keeps_namespace(kv, p),
        _ => {
            lemma_step_writes(kv, op);
            lemma_set_keeps_namespace(kv, op_path(op), written_value(kv, op)->Some_0);
        },
    }
}

/// A transaction keeps the namespace well kept, where each step's writes
/// encode faithfully.
pub proof fn lemma_txn_keeps_namespace(kv: Kv, ops: Seq<TxnOpModel>)
    requires
        namespace_kept(kv),
        txn_fits(kv, ops),
        spec_txn(kv, ops) is Ok,
    ensures
        namespace_kept(spec_txn(kv, ops)->Ok_0),
    decreases ops.len(),
{
    if ops.len() > 0 {
        lemma_txn_keeps_namespace(kv, ops.drop_last());
        let m = spec_txn(kv, ops.drop_last())->Ok_0;
        lemma_op_keeps_namespace(m, ops.last());
    }
}


/// On a well-kept store, setting a path that does not exist and then
/// deleting it keeps the store well kept and gives every path its type
/// back: with the index matching, `paths_with_type` lists what it listed
/// before, as `get` and `exists` read what they read.
pub proof fn lemma_set_then_delete_restores_types(
    kv: Kv,
    segs: Seq<Seq<char>>,
    v: ValueModel,
    q: Seq<Seq<char>>,
    t: Seq<char>,
)
    requires
        namespace_kept(kv),
        path_like(segs),
        v.wf(),
        v.encodable(),
        crate::db::spec_exists(kv, segs) == Ok::<bool, NsErr>(false),
        spec_set(kv, segs, v, true) is Ok,
        spec_delete(spec_set(kv, segs, v, true)->Ok_0, segs, true) is Ok,
    ensures
        namespace_kept(spec_delete(spec_set(kv, segs, v, true)->Ok_0, segs, true)->Ok_0),
        typed_at(spec_delete(spec_set(kv, segs, v, true)->Ok_0, segs, true)->Ok_0, q, t) == typed_at(kv, q, t),
{
    lemma_set_keeps_namespace(kv, segs, v);
    lemma_delete_keeps_namespace(spec_set(kv, segs, v, true)->Ok_0, segs);
    crate::nodes::lemma_set_then_delete_restores_reads(kv, segs, v, q);
}


/// Reopening a store that has its root, its id counter and the current
/// index version changes nothing: every read after `open` is the read
/// before it, and a well-kept store stays well kept.
pub proof fn lemma_reopen_unchanged(kv: Kv)
    requires
        kv.contains_key(node_key_spec(ROOT_ID)),
        kv.contains_key(meta_next_id_key()),
        kv.contains_key(index_version_key()),
        kv[index_version_key()] == be64(1),
    ensures
        spec_open(kv) == Ok::<Kv, NsErr>(kv),
{
}

} // verus!
