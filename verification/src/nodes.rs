//! Paths and node ids correspond one to one: no two paths reach the same
//! node, on every store built by the namespace operations.

use vstd::prelude::*;
use vstd::utf8::{valid_utf8, decode_utf8};
use crate::bytes::{be64, lemma_be64_roundtrip};
use crate::db::{
    spec_exists, spec_get,
    Kv, walk_ids, spec_resolve, spec_mkdir, spec_set, spec_delete, spec_next_id, spec_parent_dir, spec_current,
    spec_hash_set, spec_list_push, spec_set_add, spec_tree_set, spec_import, spec_import_members,
    spec_import_value, child_path, spec_open, spec_open_base, spec_rebuild, spec_index_walk, spec_index_from,
    spec_list, list_rows, first_join_error, deletes_of, puts_of, walk_fuel, index_version_key, path_bytes,
};
use crate::storage::{agree_on_prefix, lemma_prefix_scan_transfer, OpModel, apply_ops, op_key, scan_rows, lemma_scan_rows, is_prefix_scan, has_prefix};
use crate::json::JsonModel;
use crate::txn::{TxnOpModel, spec_op, spec_txn};
use crate::errors::NsErr;
use crate::keys::{
    ROOT_ID, child_key_spec, node_key_spec, type_index_key_spec, meta_next_id_key, decode_id_spec, type_index_root,
    child_prefix_spec,
    lemma_child_key_injective, lemma_key_kinds_distinct,
};
use crate::path::path_string;
use crate::laws::{
    child_links_kept, lemma_walk_whole, lemma_walk_frame, lemma_split_last, lemma_walk_one,
};
use crate::value::ValueModel;

verus! {

/// The node the child link of `p` named `name` points to, when there is
/// such a link and it holds an id.
pub open spec fn link(kv: Kv, p: u64, name: Seq<char>) -> Option<u64> {
    if kv.contains_key(child_key_spec(p, name)) {
        decode_id_spec(kv[child_key_spec(p, name)])
    } else {
        None
    }
}

/// The id the store hands out next, when it holds one.
pub open spec fn next_id_of(kv: Kv) -> Option<u64> {
    if kv.contains_key(meta_next_id_key()) {
        decode_id_spec(kv[meta_next_id_key()])
    } else {
        None
    }
}

/// The child links form a tree under the root: every link points to a node
/// other than the root and below the next id to hand out, and no two links
/// point to the same node.
pub open spec fn tree_shaped(kv: Kv) -> bool {
    &&& next_id_of(kv) matches Some(n) && ROOT_ID < n && forall|p: u64, name: Seq<char>|
        #[trigger] link(kv, p, name) matches Some(c) ==> ROOT_ID < c < n
    &&& forall|p1: u64, n1: Seq<char>, p2: u64, n2: Seq<char>|
        #[trigger] link(kv, p1, n1) is Some && link(kv, p1, n1) == #[trigger] link(kv, p2, n2) ==> p1 == p2
            && n1 == n2
}

pub(crate) proof fn lemma_walk_last(kv: Kv, s: Seq<Seq<char>>, w: Seq<char>)
    requires
        s.len() > 0,
        walk_ids(kv, ROOT_ID, s, w) is Ok,
    ensures
        walk_ids(kv, ROOT_ID, s.drop_last(), w) matches Ok(p) && link(kv, p, s.last()) == Some(
            walk_ids(kv, ROOT_ID, s, w)->Ok_0,
        ),
{
    assert(s =~= s.drop_last() + seq![s.last()]);
    lemma_walk_append(kv, ROOT_ID, s.drop_last(), seq![s.last()], w);
    let p = walk_ids(kv, ROOT_ID, s.drop_last(), w)->Ok_0;
    let one = seq![s.last()];
    assert(one[0] == s.last());
    assert(one.drop_first() =~= Seq::<Seq<char>>::empty());
    let k = child_key_spec(p, s.last());
    if kv.contains_key(k) {
        if let Some(c) = decode_id_spec(kv[k]) {
            assert(walk_ids(kv, c, one.drop_first(), w) == Ok::<u64, NsErr>(c));
        }
    }
}

pub(crate) proof fn lemma_walk_append(kv: Kv, id: u64, a: Seq<Seq<char>>, b: Seq<Seq<char>>, w: Seq<char>)
    ensures
        walk_ids(kv, id, a + b, w) == match walk_ids(kv, id, a, w) {
            Ok(x) => walk_ids(kv, x, b, w),
            Err(e) => Err(e),
        },
    decreases a.len(),
{
    if a.len() == 0 {
        assert(a + b =~= b);
    } else {
        assert((a + b)[0] == a[0]);
        assert((a + b).drop_first() =~= a.drop_first() + b);
        let k = child_key_spec(id, a[0]);
        if kv.contains_key(k) {
            if let Some(c) = decode_id_spec(kv[k]) {
                lemma_walk_append(kv, c, a.drop_first(), b, w);
            }
        }
    }
}

pub(crate) proof fn lemma_walks_meet(kv: Kv, s1: Seq<Seq<char>>, s2: Seq<Seq<char>>, w1: Seq<char>, w2: Seq<char>)
    requires
        tree_shaped(kv),
        walk_ids(kv, ROOT_ID, s1, w1) is Ok,
        walk_ids(kv, ROOT_ID, s1, w1) == walk_ids(kv, ROOT_ID, s2, w2),
    ensures
        s1 == s2,
    decreases s1.len() + s2.len(),
{
    let x = walk_ids(kv, ROOT_ID, s1, w1)->Ok_0;
    if s1.len() == 0 && s2.len() == 0 {
        assert(s1 =~= s2);
    } else if s1.len() == 0 {
        lemma_walk_last(kv, s2, w2);
        let p2 = walk_ids(kv, ROOT_ID, s2.drop_last(), w2)->Ok_0;
        assert(link(kv, p2, s2.last()) == Some(x));
    } else if s2.len() == 0 {
        lemma_walk_last(kv, s1, w1);
        let p1 = walk_ids(kv, ROOT_ID, s1.drop_last(), w1)->Ok_0;
        assert(link(kv, p1, s1.last()) == Some(x));
    } else {
        lemma_walk_last(kv, s1, w1);
        lemma_walk_last(kv, s2, w2);
        let p1 = walk_ids(kv, ROOT_ID, s1.drop_last(), w1)->Ok_0;
        let p2 = walk_ids(kv, ROOT_ID, s2.drop_last(), w2)->Ok_0;
        assert(link(kv, p1, s1.last()) == Some(x));
        assert(link(kv, p2, s2.last()) == Some(x));
        assert(p1 == p2 && s1.last() == s2.last());
        lemma_walks_meet(kv, s1.drop_last(), s2.drop_last(), w1, w2);
        assert(s1 =~= s1.drop_last() + seq![s1.last()]);
        assert(s2 =~= s2.drop_last() + seq![s2.last()]);
    }
}

/// No two paths name the same node: on a store whose links form a tree,
/// two paths that resolve to the same node id are the same path.
pub proof fn lemma_one_path_per_node(kv: Kv, s1: Seq<Seq<char>>, s2: Seq<Seq<char>>)
    requires
        tree_shaped(kv),
        spec_resolve(kv, s1) is Ok,
        spec_resolve(kv, s2) is Ok,
        spec_resolve(kv, s1)->Ok_0.0 == spec_resolve(kv, s2)->Ok_0.0,
    ensures
        s1 == s2,
{
    lemma_walks_meet(kv, s1, s2, path_string(s1), path_string(s2));
}

proof fn lemma_fresh_link(kv: Kv, m: Kv, pid: u64, name: Seq<char>, id: u64)
    requires
        tree_shaped(kv),
        next_id_of(kv) == Some(id),
        id < u64::MAX,
        next_id_of(m) == Some((id + 1) as u64),
        link(m, pid, name) == Some(id),
        forall|p: u64, nm: Seq<char>| !(p == pid && nm == name) ==> #[trigger] link(m, p, nm) == link(kv, p, nm),
    ensures
        tree_shaped(m),
{
    assert forall|p: u64, nm: Seq<char>| #[trigger] link(m, p, nm) is Some implies ROOT_ID < link(m, p, nm)->Some_0 < id + 1 by {
        if !(p == pid && nm == name) {
            assert(link(kv, p, nm) == link(m, p, nm));
        }
    }
    assert forall|p1: u64, n1: Seq<char>, p2: u64, n2: Seq<char>|
        #[trigger] link(m, p1, n1) is Some && link(m, p1, n1) == #[trigger] link(m, p2, n2) implies p1 == p2
            && n1 == n2 by {
        let one = p1 == pid && n1 == name;
        let two = p2 == pid && n2 == name;
        if !one {
            assert(link(kv, p1, n1) == link(m, p1, n1));
        }
        if !two {
            assert(link(kv, p2, n2) == link(m, p2, n2));
        }
        if !one && !two {
            assert(link(kv, p1, n1) == link(kv, p2, n2));
        }
    }
}

proof fn lemma_fewer_links(kv: Kv, m: Kv)
    requires
        tree_shaped(kv),
        next_id_of(m) == next_id_of(kv),
        forall|p: u64, nm: Seq<char>| #[trigger] link(m, p, nm) is Some ==> link(m, p, nm) == link(kv, p, nm),
    ensures
        tree_shaped(m),
{
    assert forall|p: u64, nm: Seq<char>| #[trigger] link(m, p, nm) is Some implies ROOT_ID < link(m, p, nm)->Some_0
        < next_id_of(kv)->Some_0 by {
        assert(link(kv, p, nm) == link(m, p, nm));
    }
    assert forall|p1: u64, n1: Seq<char>, p2: u64, n2: Seq<char>|
        #[trigger] link(m, p1, n1) is Some && link(m, p1, n1) == #[trigger] link(m, p2, n2) implies p1 == p2
            && n1 == n2 by {
        assert(link(kv, p1, n1) == link(m, p1, n1));
        assert(link(kv, p2, n2) == link(m, p2, n2));
    }
}

/// `mkdir` keeps the links a tree.
pub proof fn lemma_mkdir_keeps_tree(kv: Kv, segs: Seq<Seq<char>>, indexed: bool)
    requires
        tree_shaped(kv),
        spec_mkdir(kv, segs, indexed) is Ok,
    ensures
        tree_shaped(spec_mkdir(kv, segs, indexed)->Ok_0),
{
    if segs.len() > 0 {
        let pid = spec_parent_dir(kv, segs)->Ok_0;
        let id = spec_next_id(kv)->Ok_0;
        let name = segs.last();
        let m = spec_mkdir(kv, segs, indexed)->Ok_0;
        let ty = "directory"@;
        lemma_be64_roundtrip(id);
        lemma_be64_roundtrip((id + 1) as u64);
        lemma_key_kinds_distinct(id, pid, name, ty, id);
        assert(next_id_of(m) == Some((id + 1) as u64));
        assert(link(m, pid, name) == Some(id));
        assert forall|p: u64, nm: Seq<char>| !(p == pid && nm == name) implies #[trigger] link(m, p, nm) == link(
            kv,
            p,
            nm,
        ) by {
            lemma_child_key_injective(p, nm, pid, name);
            lemma_key_kinds_distinct(id, p, nm, ty, id);
        }
        lemma_fresh_link(kv, m, pid, name, id);
    }
}

/// `set` keeps the links a tree.
pub proof fn lemma_set_keeps_tree(kv: Kv, segs: Seq<Seq<char>>, v: ValueModel, indexed: bool)
    requires
        tree_shaped(kv),
        spec_set(kv, segs, v, indexed) is Ok,
    ensures
        tree_shaped(spec_set(kv, segs, v, indexed)->Ok_0),
{
    let pid = spec_parent_dir(kv, segs)->Ok_0;
    let name = segs.last();
    let ck = child_key_spec(pid, name);
    let m = spec_set(kv, segs, v, indexed)->Ok_0;
    let ty = crate::value::value_type_label(v);
    if kv.contains_key(ck) {
        let id = decode_id_spec(kv[ck])->Some_0;
        assert forall|p: u64, nm: Seq<char>| #[trigger] link(m, p, nm) is Some implies link(m, p, nm) == link(
            kv,
            p,
            nm,
        ) by {
            lemma_key_kinds_distinct(id, p, nm, ty, id);
            if indexed {
                let old = crate::codec::spec_decode(
                    crate::keys::parse_node_spec(kv[node_key_spec(id)])->Ok_0->Value_0,
                )->Ok_0;
                lemma_key_kinds_distinct(id, p, nm, crate::value::value_type_label(old), id);
            }
        }
        lemma_key_kinds_distinct(id, pid, name, ty, id);
        if indexed {
            let old = crate::codec::spec_decode(
                crate::keys::parse_node_spec(kv[node_key_spec(id)])->Ok_0->Value_0,
            )->Ok_0;
            lemma_key_kinds_distinct(id, pid, name, crate::value::value_type_label(old), id);
        }
        assert(next_id_of(m) == next_id_of(kv));
        lemma_fewer_links(kv, m);
    } else {
        let id = spec_next_id(kv)->Ok_0;
        lemma_be64_roundtrip(id);
        lemma_be64_roundtrip((id + 1) as u64);
        lemma_key_kinds_distinct(id, pid, name, ty, id);
        assert(next_id_of(m) == Some((id + 1) as u64));
        assert(link(m, pid, name) == Some(id));
        assert forall|p: u64, nm: Seq<char>| !(p == pid && nm == name) implies #[trigger] link(m, p, nm) == link(
            kv,
            p,
            nm,
        ) by {
            lemma_child_key_injective(p, nm, pid, name);
            lemma_key_kinds_distinct(id, p, nm, ty, id);
        }
        lemma_fresh_link(kv, m, pid, name, id);
    }
}

/// `delete` keeps the links a tree.
pub proof fn lemma_delete_keeps_tree(kv: Kv, segs: Seq<Seq<char>>, indexed: bool)
    requires
        tree_shaped(kv),
        spec_delete(kv, segs, indexed) is Ok,
    ensures
        tree_shaped(spec_delete(kv, segs, indexed)->Ok_0),
{
    let id = spec_resolve(kv, segs)->Ok_0.0;
    let rec = spec_resolve(kv, segs)->Ok_0.1;
    let pid = spec_resolve(kv, segs.drop_last())->Ok_0.0;
    let name = segs.last();
    let m = spec_delete(kv, segs, indexed)->Ok_0;
    let ty = crate::db::spec_node_type(rec)->Ok_0;
    assert forall|p: u64, nm: Seq<char>| #[trigger] link(m, p, nm) is Some implies link(m, p, nm) == link(
        kv,
        p,
        nm,
    ) by {
        lemma_key_kinds_distinct(id, p, nm, ty, id);
    }
    lemma_key_kinds_distinct(id, pid, name, ty, id);
    assert(next_id_of(m) == next_id_of(kv));
    lemma_fewer_links(kv, m);
}

/// The updates of structures in place (`hash_set`, `list_push`, `set_add`,
/// `tree_set`) keep the links a tree.
pub proof fn lemma_updates_keep_tree(
    kv: Kv,
    segs: Seq<Seq<char>>,
    key: Seq<char>,
    skey: crate::value::ScalarModel,
    v: ValueModel,
    indexed: bool,
)
    requires
        tree_shaped(kv),
    ensures
        spec_hash_set(kv, segs, key, v, indexed) matches Ok(m) ==> tree_shaped(m),
        spec_list_push(kv, segs, v, indexed) matches Ok(m) ==> tree_shaped(m),
        spec_set_add(kv, segs, v, indexed) matches Ok(m) ==> tree_shaped(m),
        spec_tree_set(kv, segs, skey, v, indexed) matches Ok(m) ==> tree_shaped(m),
{
    match spec_current(kv, segs) {
        Ok(None) => {
            if spec_hash_set(kv, segs, key, v, indexed) is Ok {
                lemma_set_keeps_tree(kv, segs, ValueModel::Hash(crate::value::str_insert(Seq::empty(), key, v)), indexed);
            }
            if spec_list_push(kv, segs, v, indexed) is Ok {
                lemma_set_keeps_tree(kv, segs, ValueModel::List(seq![v]), indexed);
            }
            if spec_set_add(kv, segs, v, indexed) is Ok {
                lemma_set_keeps_tree(kv, segs, ValueModel::SetOf(seq![v]), indexed);
            }
            if spec_tree_set(kv, segs, skey, v, indexed) is Ok {
                lemma_set_keeps_tree(
                    kv,
                    segs,
                    ValueModel::Tree(crate::value::scalar_insert(Seq::empty(), skey, v)),
                    indexed,
                );
            }
        },
        Ok(Some(ValueModel::Hash(es))) => {
            if spec_hash_set(kv, segs, key, v, indexed) is Ok {
                lemma_set_keeps_tree(kv, segs, ValueModel::Hash(crate::value::str_insert(es, key, v)), indexed);
            }
        },
        Ok(Some(ValueModel::List(vs))) => {
            if spec_list_push(kv, segs, v, indexed) is Ok {
                lemma_set_keeps_tree(kv, segs, ValueModel::List(vs.push(v)), indexed);
            }
        },
        Ok(Some(ValueModel::SetOf(ms))) => {
            if spec_set_add(kv, segs, v, indexed) is Ok {
                lemma_set_keeps_tree(kv, segs, ValueModel::SetOf(crate::db::set_with(ms, v)), indexed);
            }
        },
        Ok(Some(ValueModel::Tree(es))) => {
            if spec_tree_set(kv, segs, skey, v, indexed) is Ok {
                lemma_set_keeps_tree(kv, segs, ValueModel::Tree(crate::value::scalar_insert(es, skey, v)), indexed);
            }
        },
        _ => {
        },
    }
}

/// A transaction keeps the links a tree.
pub proof fn lemma_txn_keeps_tree(kv: Kv, ops: Seq<TxnOpModel>)
    requires
        tree_shaped(kv),
        spec_txn(kv, ops) is Ok,
    ensures
        tree_shaped(spec_txn(kv, ops)->Ok_0),
    decreases ops.len(),
{
    if ops.len() > 0 {
        lemma_txn_keeps_tree(kv, ops.drop_last());
        let m = spec_txn(kv, ops.drop_last())->Ok_0;
        reveal(spec_op);
        match ops.last() {
            TxnOpModel::Mkdir(p) => lemma_mkdir_keeps_tree(m, p, true),
            TxnOpModel::SetValue(p, v) => lemma_set_keeps_tree(m, p, v, true),
            TxnOpModel::Delete(p) => lemma_delete_keeps_tree(m, p, true),
            TxnOpModel::HashSet(p, k, v) => lemma_updates_keep_tree(m, p, k, crate::value::ScalarModel::Null, v, true),
            TxnOpModel::ListPush(p, v) => lemma_updates_keep_tree(m, p, Seq::empty(), crate::value::ScalarModel::Null, v, true),
            TxnOpModel::SetAdd(p, v) => lemma_updates_keep_tree(m, p, Seq::empty(), crate::value::ScalarModel::Null, v, true),
            TxnOpModel::TreeSet(p, k, v) => lemma_updates_keep_tree(m, p, Seq::empty(), k, v, true),
        }
    }
}

/// Importing a document keeps the links a tree, whether it succeeds or
/// stops at an error.
pub proof fn lemma_import_keeps_tree(
    kv: Kv,
    segs: Seq<Seq<char>>,
    j: JsonModel,
    at_root: bool,
    b: Seq<(Seq<char>, u64)>,
)
    requires
        tree_shaped(kv),
    ensures
        tree_shaped(spec_import(kv, segs, j, at_root, b).0),
    decreases j, 1int, 0int,
{
    match j {
        JsonModel::Object(ms) => {
            if ms.len() == 1 && ms[0].0 == crate::export::word_dir() {
                if ms[0].1 is Object {
                    if !at_root && segs.len() > 0 {
                        if crate::db::spec_exists(kv, segs) == Ok::<bool, NsErr>(false) {
                            if spec_mkdir(kv, segs, true) is Ok {
                                lemma_mkdir_keeps_tree(kv, segs, true);
                                lemma_members_keep_tree(spec_mkdir(kv, segs, true)->Ok_0, segs, ms[0].1, 0, b);
                            }
                        } else {
                            lemma_members_keep_tree(kv, segs, ms[0].1, 0, b);
                        }
                    } else {
                        lemma_members_keep_tree(kv, segs, ms[0].1, 0, b);
                    }
                }
            } else if at_root {
                lemma_members_keep_tree(kv, segs, j, 0, b);
            } else {
                lemma_value_import_keeps_tree(kv, segs, j, b);
            }
        },
        _ => {
            if !at_root {
                lemma_value_import_keeps_tree(kv, segs, j, b);
            }
        },
    }
}

proof fn lemma_value_import_keeps_tree(kv: Kv, segs: Seq<Seq<char>>, j: JsonModel, b: Seq<(Seq<char>, u64)>)
    requires
        tree_shaped(kv),
    ensures
        tree_shaped(spec_import_value(kv, segs, j, b).0),
{
    if let Ok(v) = crate::export::json_value(j, b) {
        if spec_set(kv, segs, v, true) is Ok {
            lemma_set_keeps_tree(kv, segs, v, true);
        }
    }
}

proof fn lemma_members_keep_tree(kv: Kv, segs: Seq<Seq<char>>, obj: JsonModel, i: nat, b: Seq<(Seq<char>, u64)>)
    requires
        tree_shaped(kv),
    ensures
        tree_shaped(spec_import_members(kv, segs, obj, i, b).0),
    decreases obj, 0int, (if obj is Object {
        obj->Object_0.len()
    } else {
        0
    }) - i,
{
    match obj {
        JsonModel::Object(ms) => {
            if i < ms.len() {
                if let Ok(cs) = child_path(segs, ms[i as int].0) {
                    lemma_import_keeps_tree(kv, cs, ms[i as int].1, false, b);
                    let step = spec_import(kv, cs, ms[i as int].1, false, b);
                    if step.1 is Ok {
                        lemma_members_keep_tree(step.0, segs, obj, i + 1, b);
                    }
                }
            }
        },
        _ => {
        },
    }
}

/// Operations that touch only type-index keys leave the links and the id
/// counter alone.
proof fn lemma_index_ops_frame(kv: Kv, ops: Seq<OpModel>)
    requires
        forall|i: int| 0 <= i < ops.len() ==> (#[trigger] op_key(ops[i])).len() > 0 && op_key(ops[i])[0] == 105u8,
    ensures
        forall|p: u64, nm: Seq<char>| #[trigger] link(apply_ops(kv, ops), p, nm) == link(kv, p, nm),
        next_id_of(apply_ops(kv, ops)) == next_id_of(kv),
    decreases ops.len(),
{
    if ops.len() > 0 {
        let init = ops.drop_last();
        assert forall|i: int| 0 <= i < init.len() implies (#[trigger] op_key(init[i])).len() > 0 && op_key(init[i])[0]
            == 105u8 by {
            assert(init[i] == ops[i]);
        }
        lemma_index_ops_frame(kv, init);
        let k = op_key(ops.last());
        assert(k[0] == 105u8);
        lemma_key_kinds_distinct(ROOT_ID, ROOT_ID, Seq::empty(), Seq::empty(), ROOT_ID);
        assert(k != meta_next_id_key());
        assert forall|p: u64, nm: Seq<char>| #[trigger] link(apply_ops(kv, ops), p, nm) == link(kv, p, nm) by {
            lemma_key_kinds_distinct(ROOT_ID, p, nm, Seq::empty(), ROOT_ID);
            assert(k != child_key_spec(p, nm));
            assert(link(apply_ops(kv, init), p, nm) == link(kv, p, nm));
        }
    }
}

/// A store opened from nothing has its links in a tree: it has none yet,
/// and the next id to hand out follows the root's.
pub proof fn lemma_fresh_store_is_tree()
    ensures
        spec_open(Map::empty()) matches Ok(m) ==> tree_shaped(m),
{
    let kv = Map::<Seq<u8>, Seq<u8>>::empty();
    let k1 = spec_open_base(kv);
    let ty = "directory"@;
    let tk = type_index_key_spec(ty, ROOT_ID);
    let nk = node_key_spec(ROOT_ID);
    let mk = meta_next_id_key();
    lemma_key_kinds_distinct(ROOT_ID, ROOT_ID, Seq::empty(), ty, ROOT_ID);
    lemma_be64_roundtrip((ROOT_ID + 1) as u64);
    assert(k1 == kv.insert(nk, seq![0u8]).insert(mk, be64((ROOT_ID + 1) as u64)).insert(tk, seq![47u8]));
    assert(next_id_of(k1) == Some((ROOT_ID + 1) as u64));
    assert forall|p: u64, nm: Seq<char>| #[trigger] link(k1, p, nm) is None by {
        lemma_key_kinds_distinct(ROOT_ID, p, nm, ty, ROOT_ID);
    }
    assert(tree_shaped(k1));
    if spec_open(kv) is Ok {
        let m = spec_open(kv)->Ok_0;
        let vk = index_version_key();
        if k1.contains_key(vk) && k1[vk] == be64(1) {
        } else {
            // the scans the rebuild makes
            let ir = type_index_root();
            let cp = child_prefix_spec(ROOT_ID);
            let rows = seq![(tk, seq![47u8])];
            assert(tk.take(ir.len() as int) =~= ir);
            assert(is_prefix_scan(k1, ir, rows)) by {
                assert forall|k: Seq<u8>| k1.contains_key(k) && has_prefix(k, ir) implies exists|i: int|
                    0 <= i < rows.len() && #[trigger] rows[i].0 == k by {
                    if k == nk {
                        assert(k.take(ir.len() as int)[0] == k[0]);
                    } else if k == mk {
                        assert(k.take(ir.len() as int)[0] == k[0]);
                    }
                    assert(rows[0].0 == k);
                }
            }
            lemma_scan_rows(k1, ir, rows);
            assert(is_prefix_scan(k1, cp, Seq::empty())) by {
                assert forall|k: Seq<u8>| k1.contains_key(k) && has_prefix(k, cp) implies exists|i: int|
                    0 <= i < Seq::<(Seq<u8>, Seq<u8>)>::empty().len() && #[trigger] Seq::<(Seq<u8>, Seq<u8>)>::empty()[i].0 == k by {
                    assert(k.take(cp.len() as int)[0] == k[0]);
                    assert(cp[0] == 99u8);
                }
            }
            lemma_scan_rows(k1, cp, Seq::empty());
            let e: Seq<Seq<char>> = Seq::empty();
            assert(walk_ids(k1, ROOT_ID, e, crate::path::path_string(e)) == Ok::<u64, NsErr>(ROOT_ID));
            assert(spec_list(k1, e) == Ok::<Seq<(Seq<char>, crate::db::EntryKind)>, NsErr>(Seq::empty()));
            let here = seq![(tk, path_bytes(e))];
            assert(spec_index_from(k1, e, Seq::empty(), 0, (walk_fuel() - 1) as nat) == Ok::<
                Seq<(Seq<u8>, Seq<u8>)>,
                NsErr,
            >(Seq::empty()));
            assert(spec_index_walk(k1, e, walk_fuel()) == Ok::<Seq<(Seq<u8>, Seq<u8>)>, NsErr>(
                here + Seq::empty(),
            ));
            assert(here + Seq::<(Seq<u8>, Seq<u8>)>::empty() =~= here);
            let ops = deletes_of(rows) + puts_of(here);
            assert forall|i: int| 0 <= i < ops.len() implies (#[trigger] op_key(ops[i])).len() > 0 && op_key(
                ops[i],
            )[0] == 105u8 by {
                assert(op_key(ops[i]) == tk);
            }
            lemma_index_ops_frame(k1, ops);
            let k2 = apply_ops(k1, ops);
            assert(vk[5] != mk[5]);
            assert forall|p: u64, nm: Seq<char>| #[trigger] link(m, p, nm) is Some implies link(m, p, nm) == link(
                k1,
                p,
                nm,
            ) by {
                lemma_key_kinds_distinct(ROOT_ID, p, nm, ty, ROOT_ID);
                assert(vk != child_key_spec(p, nm));
                assert(link(k2, p, nm) == link(k1, p, nm));
            }
            lemma_fewer_links(k1, m);
        }
    }
}


/// `kv` and `m` hold the same child links.
pub open spec fn same_links(kv: Kv, m: Kv) -> bool {
    forall|p: u64, name: Seq<char>|
        #![trigger child_key_spec(p, name)]
        (kv.contains_key(child_key_spec(p, name)) == m.contains_key(child_key_spec(p, name))) && (kv.contains_key(
            child_key_spec(p, name),
        ) ==> kv[child_key_spec(p, name)] == m[child_key_spec(p, name)])
}

pub(crate) proof fn lemma_walk_same_links(kv: Kv, m: Kv, id: u64, segs: Seq<Seq<char>>, w: Seq<char>)
    requires
        same_links(kv, m),
    ensures
        walk_ids(m, id, segs, w) == walk_ids(kv, id, segs, w),
    decreases segs.len(),
{
    if segs.len() > 0 {
        let k = child_key_spec(id, segs[0]);
        assert(kv.contains_key(k) == m.contains_key(k));
        if kv.contains_key(k) {
            if let Some(c) = decode_id_spec(kv[k]) {
                lemma_walk_same_links(kv, m, c, segs.drop_first(), w);
            }
        }
    }
}

/// Setting a path that does not exist and then deleting it gives every
/// `get` and `exists` back: on a store whose links form a tree, each path
/// `q` resolves to the node, and reads, as before the two calls.
#[verifier::spinoff_prover]
#[verifier::rlimit(60)]
pub proof fn lemma_set_then_delete_restores_reads(
    kv: Kv,
    segs: Seq<Seq<char>>,
    v: ValueModel,
    q: Seq<Seq<char>>,
)
    requires
        tree_shaped(kv),
        spec_exists(kv, segs) == Ok::<bool, NsErr>(false),
        spec_set(kv, segs, v, true) is Ok,
        spec_delete(spec_set(kv, segs, v, true)->Ok_0, segs, true) is Ok,
    ensures
        spec_get(spec_delete(spec_set(kv, segs, v, true)->Ok_0, segs, true)->Ok_0, q) == spec_get(kv, q),
        spec_exists(spec_delete(spec_set(kv, segs, v, true)->Ok_0, segs, true)->Ok_0, q) == spec_exists(kv, q),
        spec_resolve(spec_delete(spec_set(kv, segs, v, true)->Ok_0, segs, true)->Ok_0, q) == spec_resolve(kv, q),
        forall|k: Seq<u8>|
            #![trigger spec_delete(spec_set(kv, segs, v, true)->Ok_0, segs, true)->Ok_0.contains_key(k)]
            k.len() > 0 && k[0] == 99u8 ==> (spec_delete(spec_set(kv, segs, v, true)->Ok_0, segs, true)->Ok_0.contains_key(
                k,
            ) == kv.contains_key(k)) && (kv.contains_key(k) ==> spec_delete(spec_set(kv, segs, v, true)->Ok_0, segs, true)->Ok_0[k]
                == kv[k]),
        forall|c: u64|
            #![trigger node_key_spec(c)]
            c < next_id_of(kv)->Some_0 ==> (spec_delete(spec_set(kv, segs, v, true)->Ok_0, segs, true)->Ok_0.contains_key(
                node_key_spec(c),
            ) == kv.contains_key(node_key_spec(c))) && (kv.contains_key(node_key_spec(c)) ==> spec_delete(
                spec_set(kv, segs, v, true)->Ok_0,
                segs,
                true,
            )->Ok_0[node_key_spec(c)] == kv[node_key_spec(c)]),
{
    let kv1 = spec_set(kv, segs, v, true)->Ok_0;
    let kv2 = spec_delete(kv1, segs, true)->Ok_0;
    let parent = segs.drop_last();
    let name = segs.last();
    let ps = path_string(segs);
    let pps = path_string(parent);
    let pid = spec_parent_dir(kv, segs)->Ok_0;
    let ck = child_key_spec(pid, name);
    // The parent resolves, and the new name is not linked yet.
    assert(walk_ids(kv, ROOT_ID, parent, pps) == Ok::<u64, NsErr>(pid));
    lemma_walk_whole(kv, ROOT_ID, parent, pps, ps);
    lemma_split_last(segs);
    lemma_walk_append(kv, ROOT_ID, parent, seq![name], ps);
    lemma_walk_one(kv, pid, name, ps);
    assert(!kv.contains_key(ck));
    let id = spec_next_id(kv)->Ok_0;
    let ty = crate::value::value_type_label(v);
    lemma_be64_roundtrip(id);
    lemma_key_kinds_distinct(id, pid, name, ty, id);
    // In the store after `set`, the path leads to the new node.
    assert forall|p: u64, nm: Seq<char>|
        #![trigger child_key_spec(p, nm)]
        kv.contains_key(child_key_spec(p, nm)) implies kv1.contains_key(child_key_spec(p, nm))
            && kv1[child_key_spec(p, nm)] == kv[child_key_spec(p, nm)] by {
        lemma_key_kinds_distinct(id, p, nm, ty, id);
        lemma_child_key_injective(p, nm, pid, name);
    }
    assert(child_links_kept(kv, kv1));
    lemma_walk_frame(kv, kv1, ROOT_ID, parent, pps);
    lemma_walk_frame(kv, kv1, ROOT_ID, parent, ps);
    lemma_walk_append(kv1, ROOT_ID, parent, seq![name], ps);
    lemma_walk_one(kv1, pid, name, ps);
    assert(walk_ids(kv1, ROOT_ID, segs, ps) == Ok::<u64, NsErr>(id));
    let rec = spec_resolve(kv1, segs)->Ok_0.1;
    assert(spec_resolve(kv1, segs)->Ok_0.0 == id);
    assert(spec_resolve(kv1, parent)->Ok_0.0 == pid);
    let ty2 = crate::db::spec_node_type(rec)->Ok_0;
    assert(kv2 == kv1.remove(type_index_key_spec(ty2, id)).remove(ck).remove(node_key_spec(id)));
    // The store after `delete` holds the links of the store before `set`.
    assert forall|p: u64, nm: Seq<char>|
        #![trigger child_key_spec(p, nm)]
        (kv.contains_key(child_key_spec(p, nm)) == kv2.contains_key(child_key_spec(p, nm))) && (kv.contains_key(
            child_key_spec(p, nm),
        ) ==> kv[child_key_spec(p, nm)] == kv2[child_key_spec(p, nm)]) by {
        lemma_key_kinds_distinct(id, p, nm, ty, id);
        lemma_key_kinds_distinct(id, p, nm, ty2, id);
        lemma_child_key_injective(p, nm, pid, name);
    }
    assert(same_links(kv, kv2));
    let w = path_string(q);
    lemma_walk_same_links(kv, kv2, ROOT_ID, q, w);
    // Every node a path reaches was there before `set`, so its record is
    // untouched.
    if walk_ids(kv, ROOT_ID, q, w) is Ok {
        let r = walk_ids(kv, ROOT_ID, q, w)->Ok_0;
        if q.len() > 0 {
            lemma_walk_last(kv, q, w);
            let pp = walk_ids(kv, ROOT_ID, q.drop_last(), w)->Ok_0;
            assert(link(kv, pp, q.last()) == Some(r));
        }
        assert(r < id);
        crate::keys::lemma_node_key_injective(r, id);
        lemma_key_kinds_distinct(r, pid, name, ty2, id);
        assert(kv2.contains_key(node_key_spec(r)) == kv.contains_key(node_key_spec(r)));
    }
    assert forall|k: Seq<u8>| #![trigger kv2.contains_key(k)] k.len() > 0 && k[0] == 99u8 implies (kv2.contains_key(k)
        == kv.contains_key(k)) && (kv.contains_key(k) ==> kv2[k] == kv[k]) by {
        lemma_key_kinds_distinct(id, pid, name, ty2, id);
        assert(k != meta_next_id_key() && k != node_key_spec(id) && k != type_index_key_spec(ty, id)
            && k != type_index_key_spec(ty2, id));
    }
    assert forall|c: u64| #![trigger node_key_spec(c)] c < next_id_of(kv)->Some_0 implies (kv2.contains_key(
        node_key_spec(c),
    ) == kv.contains_key(node_key_spec(c))) && (kv.contains_key(node_key_spec(c)) ==> kv2[node_key_spec(c)]
        == kv[node_key_spec(c)]) by {
        crate::keys::lemma_node_key_injective(c, id);
        lemma_key_kinds_distinct(c, pid, name, ty2, id);
        lemma_key_kinds_distinct(c, pid, name, ty, id);
    }
}

/// A scan of `kv`'s rows under `p` exists.
pub open spec fn has_scan(kv: Kv, p: Seq<u8>) -> bool {
    exists|rows: Seq<(Seq<u8>, Seq<u8>)>| is_prefix_scan(kv, p, rows)
}

/// Listing rows read the same in two stores that hold the same child nodes
/// below `n` and whose child rows lead below `n`.
proof fn lemma_list_rows_same(kv: Kv, m: Kv, r: u64, rows: Seq<(Seq<u8>, Seq<u8>)>, n: u64)
    requires
        forall|i: int|
            0 <= i < rows.len() ==> has_prefix(#[trigger] rows[i].0, child_prefix_spec(r)) && kv.contains_key(
                rows[i].0,
            ) && kv[rows[i].0] == rows[i].1,
        forall|p: u64, nm: Seq<char>| #[trigger] link(kv, p, nm) matches Some(c) ==> c < n,
        forall|c: u64|
            #![trigger node_key_spec(c)]
            c < n ==> (m.contains_key(node_key_spec(c)) == kv.contains_key(node_key_spec(c))) && (kv.contains_key(
                node_key_spec(c),
            ) ==> m[node_key_spec(c)] == kv[node_key_spec(c)]),
    ensures
        list_rows(m, child_prefix_spec(r), rows) == list_rows(kv, child_prefix_spec(r), rows),
    decreases rows.len(),
{
    if rows.len() > 0 {
        let front = rows.drop_last();
        assert forall|i: int| 0 <= i < front.len() implies has_prefix(#[trigger] front[i].0, child_prefix_spec(r))
            && kv.contains_key(front[i].0) && kv[front[i].0] == front[i].1 by {
            assert(front[i] == rows[i]);
        }
        lemma_list_rows_same(kv, m, r, front, n);
        let row = rows.last();
        let p = child_prefix_spec(r);
        assert(has_prefix(rows[rows.len() - 1].0, p));
        let nb = row.0.skip(p.len() as int);
        if valid_utf8(nb) {
            if let Some(c) = decode_id_spec(row.1) {
                let name = decode_utf8(nb);
                vstd::utf8::decode_utf8_encode_utf8(nb);
                assert(row.0 =~= row.0.take(p.len() as int) + nb);
                assert(child_key_spec(r, name) == row.0);
                assert(link(kv, r, name) == Some(c));
            }
        }
    }
}

/// Setting a path that does not exist and then deleting it gives every
/// listing back: on a store whose links form a tree, each directory lists
/// the children it listed before.
pub proof fn lemma_set_then_delete_restores_lists(
    kv: Kv,
    segs: Seq<Seq<char>>,
    v: ValueModel,
    q: Seq<Seq<char>>,
)
    requires
        tree_shaped(kv),
        spec_exists(kv, segs) == Ok::<bool, NsErr>(false),
        spec_set(kv, segs, v, true) is Ok,
        spec_delete(spec_set(kv, segs, v, true)->Ok_0, segs, true) is Ok,
        spec_resolve(kv, q) matches Ok((r, _)) ==> has_scan(kv, child_prefix_spec(r)),
    ensures
        spec_list(spec_delete(spec_set(kv, segs, v, true)->Ok_0, segs, true)->Ok_0, q) == spec_list(kv, q),
{
    let kv2 = spec_delete(spec_set(kv, segs, v, true)->Ok_0, segs, true)->Ok_0;
    lemma_set_then_delete_restores_reads(kv, segs, v, q);
    if spec_resolve(kv, q) is Ok {
        let r = spec_resolve(kv, q)->Ok_0.0;
        let p = child_prefix_spec(r);
        let rows0 = choose|rows: Seq<(Seq<u8>, Seq<u8>)>| is_prefix_scan(kv, p, rows);
        assert(agree_on_prefix(kv, kv2, p)) by {
            assert forall|k: Seq<u8>| has_prefix(k, p) implies (kv.contains_key(k) <==> kv2.contains_key(k)) && (
            kv.contains_key(k) ==> kv[k] == kv2[k]) by {
                assert(k.take(p.len() as int)[0] == k[0]);
                assert(kv2.contains_key(k) == kv.contains_key(k));
            }
        }
        lemma_prefix_scan_transfer(kv, kv2, p, rows0);
        lemma_scan_rows(kv, p, rows0);
        lemma_scan_rows(kv2, p, rows0);
        let n = next_id_of(kv)->Some_0;
        lemma_list_rows_same(kv, kv2, r, rows0, n);
    }
}

} // verus!
