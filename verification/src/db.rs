//! The hierarchical namespace over a key-value store: directories and typed
//! values addressed by absolute paths.

use vstd::prelude::*;
use vstd::utf8::encode_utf8;
use crate::bytes::be64;
use crate::codec::{CodecError, spec_decode, spec_encode, enc_value, decode, encode, encode_payload};
use crate::errors::{NsError, NsErr, codec_message, storage_failed, text};
use crate::keys::{ROOT_ID, NodeRec, type_index_root, type_index_all, NodeRecord, meta_next_id_key, node_key_spec, child_prefix_spec, child_key_spec, type_index_key_spec, type_index_prefix_spec, decode_id_spec, parse_node_spec, meta_next_id, node_key, child_key, child_prefix, type_index_key, type_index_prefix, encode_id, decode_id, encode_dir_node, encode_value_node, parse_node};
use crate::path::{DbPath, PathErr, path_string, spec_parse_path, valid_segment};
use crate::overlay::Overlay;
use crate::typeindex::{index_faithful, path_like, typed_at, lemma_paths_exact_listed};
use crate::storage::{Storage, WriteBatch, OpModel, apply_ops, is_prefix_scan, rows_view, has_prefix, ScanRows, scan_rows, lemma_scan_rows, keys_increasing};
use crate::strings::string_from_utf8;
use crate::bytes::copy_range;
use crate::order::{str_lt, lemma_bytes_lt_skip, lemma_str_lt_total, lemma_str_lt_transitive};
use vstd::seq_lib::{to_multiset_insert, to_multiset_build};
use vstd::utf8::{valid_utf8, decode_utf8, decode_utf8_encode_utf8};
use crate::json::{JsonVal, JsonModel, render_json, member_models, lemma_json_model_parts, json_text, spec_parse_json, parse_json_value};
use crate::strings::{trim_ws, trim_str};
use crate::export::{FloatTexts, FloatBits, texts_model, bits_model, value_json, json_value, word_dir, value_to_json, json_to_value};
use crate::value::{Value, ValueModel, Scalar, ScalarModel, StrMap, ScalarMap, value_type_label, str_insert, scalar_insert, str_lookup, models, lemma_model_parts};

verus! {

#[derive(Debug, Clone, Copy, PartialEq, Eq, Structural)]
pub enum EntryKind {
    Directory,
    Value,
}

/// A namespace entry: a directory, or a value with its contents.
#[derive(Debug)]
pub struct Entry {
    pub path: DbPath,
    pub kind: EntryKind,
    pub value: Option<Value>,
}

/// Database over any [`Storage`].
pub struct Database<S: Storage> {
    store: S,
}

pub type Kv = Map<Seq<u8>, Seq<u8>>;

// ---------------------------------------------------------------------------
// Specification: reading the namespace out of the store

/// Follow the child links named by `segs`, starting from node `id`.
pub open spec fn walk_ids(kv: Kv, id: u64, segs: Seq<Seq<char>>, whole: Seq<char>) -> Result<u64, NsErr>
    decreases segs.len(),
{
    if segs.len() == 0 {
        Ok(id)
    } else {
        let k = child_key_spec(id, segs[0]);
        if !kv.contains_key(k) {
            Err(NsErr::NotFound(whole))
        } else {
            match decode_id_spec(kv[k]) {
                None => Err(NsErr::Invalid("bad child id"@)),
                Some(c) => walk_ids(kv, c, segs.drop_first(), whole),
            }
        }
    }
}

/// The node id and record at a path.
pub open spec fn spec_resolve(kv: Kv, segs: Seq<Seq<char>>) -> Result<(u64, NodeRec), NsErr> {
    match walk_ids(kv, ROOT_ID, segs, path_string(segs)) {
        Err(e) => Err(e),
        Ok(id) => {
            let k = node_key_spec(id);
            if !kv.contains_key(k) {
                Err(NsErr::NotFound(path_string(segs)))
            } else {
                match parse_node_spec(kv[k]) {
                    Err(m) => Err(NsErr::Invalid(m)),
                    Ok(r) => Ok((id, r)),
                }
            }
        },
    }
}

/// What `get` reads: the kind of entry, and the value of a value entry.
pub open spec fn spec_get(kv: Kv, segs: Seq<Seq<char>>) -> Result<(EntryKind, Option<ValueModel>), NsErr> {
    match spec_resolve(kv, segs) {
        Err(e) => Err(e),
        Ok((_, NodeRec::Dir)) => Ok((EntryKind::Directory, None)),
        Ok((_, NodeRec::Value(enc))) => match spec_decode(enc) {
            Ok(v) => Ok((EntryKind::Value, Some(v))),
            Err(e) => Err(NsErr::Codec(codec_message(e))),
        },
    }
}

pub open spec fn spec_exists(kv: Kv, segs: Seq<Seq<char>>) -> Result<bool, NsErr> {
    match spec_resolve(kv, segs) {
        Ok(_) => Ok(true),
        Err(NsErr::NotFound(_)) => Ok(false),
        Err(e) => Err(e),
    }
}

pub open spec fn spec_next_id(kv: Kv) -> Result<u64, NsErr> {
    if !kv.contains_key(meta_next_id_key()) {
        Err(NsErr::Invalid("missing next_id"@))
    } else {
        match decode_id_spec(kv[meta_next_id_key()]) {
            None => Err(NsErr::Invalid("bad next_id"@)),
            Some(id) => if id == u64::MAX {
                Err(NsErr::Invalid("next id exhausted"@))
            } else {
                Ok(id)
            },
        }
    }
}

/// The id of the directory that would hold the entry at `segs` (not the root).
pub open spec fn spec_parent_dir(kv: Kv, segs: Seq<Seq<char>>) -> Result<u64, NsErr> {
    let parent = segs.drop_last();
    match spec_resolve(kv, parent) {
        Err(NsErr::NotFound(_)) => Err(NsErr::ParentMissing(path_string(parent))),
        Err(e) => Err(e),
        Ok((pid, NodeRec::Dir)) => Ok(pid),
        Ok((_, NodeRec::Value(_))) => Err(NsErr::NotDirectory(path_string(parent))),
    }
}

/// The bytes of a path string, as stored in the type index.
pub open spec fn path_bytes(segs: Seq<Seq<char>>) -> Seq<u8> {
    encode_utf8(path_string(segs))
}

/// The store after `mkdir`. With `indexed`, the type index gains the new
/// directory; without it (inside a transaction) the index is left alone and
/// any failure to resolve the path counts as "does not exist".
pub open spec fn spec_mkdir(kv: Kv, segs: Seq<Seq<char>>, indexed: bool) -> Result<Kv, NsErr> {
    if segs.len() == 0 {
        Ok(kv)
    } else {
        let present: Result<bool, NsErr> = if indexed {
            spec_exists(kv, segs)
        } else {
            Ok(spec_resolve(kv, segs) is Ok)
        };
        match present {
            Err(e) => Err(e),
            Ok(true) => Err(NsErr::AlreadyExists(path_string(segs))),
            Ok(false) => match spec_parent_dir(kv, segs) {
                Err(e) => Err(e),
                Ok(pid) => match spec_next_id(kv) {
                    Err(e) => Err(e),
                    Ok(id) => {
                        let m = kv.insert(meta_next_id_key(), be64((id + 1) as u64)).insert(
                            node_key_spec(id),
                            seq![0u8],
                        ).insert(child_key_spec(pid, segs.last()), be64(id));
                        Ok(
                            if indexed {
                                m.insert(type_index_key_spec("directory"@, id), path_bytes(segs))
                            } else {
                                m
                            },
                        )
                    },
                },
            },
        }
    }
}

/// The store after `set`. With `indexed`, the type index follows the value's
/// type; without it only the node and its link are written.
pub open spec fn spec_set(kv: Kv, segs: Seq<Seq<char>>, v: ValueModel, indexed: bool) -> Result<Kv, NsErr> {
    if segs.len() == 0 {
        Err(NsErr::Invalid("cannot set value at root"@))
    } else {
        match spec_parent_dir(kv, segs) {
            Err(e) => Err(e),
            Ok(pid) => {
                let ck = child_key_spec(pid, segs.last());
                let node = seq![1u8] + spec_encode(v);
                let ty = value_type_label(v);
                if kv.contains_key(ck) {
                    match decode_id_spec(kv[ck]) {
                        None => Err(NsErr::Invalid("bad child id"@)),
                        Some(id) => if !kv.contains_key(node_key_spec(id)) {
                            Err(NsErr::Invalid("missing node"@))
                        } else {
                            match parse_node_spec(kv[node_key_spec(id)]) {
                                Err(m) => Err(NsErr::Invalid(m)),
                                Ok(NodeRec::Dir) => Err(NsErr::IsDirectory(path_string(segs))),
                                Ok(NodeRec::Value(old_enc)) => if !indexed {
                                    Ok(kv.insert(node_key_spec(id), node))
                                } else {
                                    match spec_decode(old_enc) {
                                        Err(e) => Err(NsErr::Codec(codec_message(e))),
                                        Ok(old) => {
                                            let old_ty = value_type_label(old);
                                            let m1 = if old_ty != ty {
                                                kv.remove(type_index_key_spec(old_ty, id))
                                            } else {
                                                kv
                                            };
                                            Ok(
                                                m1.insert(node_key_spec(id), node).insert(
                                                    type_index_key_spec(ty, id),
                                                    path_bytes(segs),
                                                ),
                                            )
                                        },
                                    }
                                },
                            }
                        },
                    }
                } else {
                    match spec_next_id(kv) {
                        Err(e) => Err(e),
                        Ok(id) => {
                            let m = kv.insert(meta_next_id_key(), be64((id + 1) as u64)).insert(
                                node_key_spec(id),
                                node,
                            ).insert(ck, be64(id));
                            Ok(
                                if indexed {
                                    m.insert(type_index_key_spec(ty, id), path_bytes(segs))
                                } else {
                                    m
                                },
                            )
                        },
                    }
                }
            },
        }
    }
}

/// The type name under which a node is indexed.
pub open spec fn spec_node_type(rec: NodeRec) -> Result<Seq<char>, NsErr> {
    match rec {
        NodeRec::Dir => Ok("directory"@),
        NodeRec::Value(enc) => match spec_decode(enc) {
            Ok(v) => Ok(value_type_label(v)),
            Err(e) => Err(NsErr::Codec(codec_message(e))),
        },
    }
}

/// Node `id` has at least one child link.
pub open spec fn has_children(kv: Kv, id: u64) -> bool {
    exists|k: Seq<u8>| kv.contains_key(k) && has_prefix(k, child_prefix_spec(id))
}

/// The store after `delete`. With `indexed`, the node's type index entry goes
/// too, which needs the node's type.
pub open spec fn spec_delete(kv: Kv, segs: Seq<Seq<char>>, indexed: bool) -> Result<Kv, NsErr> {
    if segs.len() == 0 {
        Err(NsErr::Invalid("cannot delete root"@))
    } else {
        match spec_resolve(kv, segs) {
            Err(e) => Err(e),
            Ok((id, rec)) => if rec is Dir && has_children(kv, id) {
                Err(NsErr::Invalid("directory not empty: "@ + path_string(segs)))
            } else {
                match spec_resolve(kv, segs.drop_last()) {
                    Err(e) => Err(e),
                    Ok((pid, _)) => if !indexed {
                        Ok(kv.remove(child_key_spec(pid, segs.last())).remove(node_key_spec(id)))
                    } else {
                        match spec_node_type(rec) {
                            Err(e) => Err(e),
                            Ok(ty) => Ok(
                                kv.remove(type_index_key_spec(ty, id)).remove(
                                    child_key_spec(pid, segs.last()),
                                ).remove(node_key_spec(id)),
                            ),
                        }
                    },
                }
            },
        }
    }
}

/// What an update of the value at `segs` starts from: `None` when nothing is
/// there yet.
pub open spec fn spec_current(kv: Kv, segs: Seq<Seq<char>>) -> Result<Option<ValueModel>, NsErr> {
    match spec_get(kv, segs) {
        Ok((_, Some(v))) => Ok(Some(v)),
        Ok((_, None)) => Err(NsErr::IsDirectory(path_string(segs))),
        Err(NsErr::NotFound(_)) => Ok(None),
        Err(e) => Err(e),
    }
}

pub open spec fn not_a(segs: Seq<Seq<char>>, what: Seq<char>) -> NsErr {
    NsErr::TypeMismatch(path_string(segs) + " is not a "@ + what)
}

/// The store after `hash_set`.
pub open spec fn spec_hash_set(kv: Kv, segs: Seq<Seq<char>>, key: Seq<char>, v: ValueModel, indexed: bool) -> Result<Kv, NsErr> {
    match spec_current(kv, segs) {
        Err(e) => Err(e),
        Ok(None) => spec_set(kv, segs, ValueModel::Hash(str_insert(Seq::empty(), key, v)), indexed),
        Ok(Some(ValueModel::Hash(es))) => spec_set(kv, segs, ValueModel::Hash(str_insert(es, key, v)), indexed),
        Ok(Some(_)) => Err(not_a(segs, "hash"@)),
    }
}

/// The store after `list_push`.
pub open spec fn spec_list_push(kv: Kv, segs: Seq<Seq<char>>, v: ValueModel, indexed: bool) -> Result<Kv, NsErr> {
    match spec_current(kv, segs) {
        Err(e) => Err(e),
        Ok(None) => spec_set(kv, segs, ValueModel::List(seq![v]), indexed),
        Ok(Some(ValueModel::List(vs))) => spec_set(kv, segs, ValueModel::List(vs.push(v)), indexed),
        Ok(Some(_)) => Err(not_a(segs, "list"@)),
    }
}

/// `ms` with `v` added unless a member already has `v`'s payload.
pub open spec fn set_with(ms: Seq<ValueModel>, v: ValueModel) -> Seq<ValueModel> {
    if exists|i: int| 0 <= i < ms.len() && enc_value(#[trigger] ms[i]) == enc_value(v) {
        ms
    } else {
        ms.push(v)
    }
}

/// The store after `set_add`.
pub open spec fn spec_set_add(kv: Kv, segs: Seq<Seq<char>>, v: ValueModel, indexed: bool) -> Result<Kv, NsErr> {
    match spec_current(kv, segs) {
        Err(e) => Err(e),
        Ok(None) => spec_set(kv, segs, ValueModel::SetOf(seq![v]), indexed),
        Ok(Some(ValueModel::SetOf(ms))) => spec_set(kv, segs, ValueModel::SetOf(set_with(ms, v)), indexed),
        Ok(Some(_)) => Err(not_a(segs, "set"@)),
    }
}

/// The store after `tree_set`.
pub open spec fn spec_tree_set(kv: Kv, segs: Seq<Seq<char>>, key: ScalarModel, v: ValueModel, indexed: bool) -> Result<Kv, NsErr> {
    match spec_current(kv, segs) {
        Err(e) => Err(e),
        Ok(None) => spec_set(kv, segs, ValueModel::Tree(scalar_insert(Seq::empty(), key, v)), indexed),
        Ok(Some(ValueModel::Tree(es))) => spec_set(kv, segs, ValueModel::Tree(scalar_insert(es, key, v)), indexed),
        Ok(Some(_)) => Err(not_a(segs, "tree"@)),
    }
}

/// One child row of a directory as a listing entry.
pub open spec fn child_entry(kv: Kv, prefix: Seq<u8>, row: (Seq<u8>, Seq<u8>)) -> Result<(Seq<char>, EntryKind), NsErr> {
    let nb = row.0.skip(prefix.len() as int);
    if !valid_utf8(nb) {
        Err(NsErr::Invalid("child name not utf8"@))
    } else {
        match decode_id_spec(row.1) {
            None => Err(NsErr::Invalid("bad child id"@)),
            Some(c) => if !kv.contains_key(node_key_spec(c)) {
                Err(NsErr::Invalid("missing child node"@))
            } else {
                match parse_node_spec(kv[node_key_spec(c)]) {
                    Err(m) => Err(NsErr::Invalid(m)),
                    Ok(NodeRec::Dir) => Ok((decode_utf8(nb), EntryKind::Directory)),
                    Ok(NodeRec::Value(_)) => Ok((decode_utf8(nb), EntryKind::Value)),
                }
            },
        }
    }
}

/// The listing entries of child rows, or the first row's error.
pub open spec fn list_rows(kv: Kv, prefix: Seq<u8>, rows: Seq<(Seq<u8>, Seq<u8>)>) -> Result<Seq<(Seq<char>, EntryKind)>, NsErr>
    decreases rows.len(),
{
    if rows.len() == 0 {
        Ok(Seq::empty())
    } else {
        match list_rows(kv, prefix, rows.drop_last()) {
            Err(e) => Err(e),
            Ok(out) => match child_entry(kv, prefix, rows.last()) {
                Err(e) => Err(e),
                Ok(x) => Ok(out.push(x)),
            },
        }
    }
}

proof fn lemma_list_rows_err(kv: Kv, prefix: Seq<u8>, rows: Seq<(Seq<u8>, Seq<u8>)>, j: int)
    requires
        0 <= j <= rows.len(),
        list_rows(kv, prefix, rows.take(j)) is Err,
    ensures
        list_rows(kv, prefix, rows) == list_rows(kv, prefix, rows.take(j)),
    decreases rows.len(),
{
    if j == rows.len() {
        assert(rows.take(j) =~= rows);
    } else {
        assert(rows.drop_last().take(j) =~= rows.take(j));
        lemma_list_rows_err(kv, prefix, rows.drop_last(), j);
    }
}

/// What `list` reads: the children of the directory at `segs`, by name.
pub open spec fn spec_list(kv: Kv, segs: Seq<Seq<char>>) -> Result<Seq<(Seq<char>, EntryKind)>, NsErr> {
    match spec_resolve(kv, segs) {
        Err(e) => Err(e),
        Ok((_, NodeRec::Value(_))) => Err(NsErr::NotDirectory(path_string(segs))),
        Ok((id, NodeRec::Dir)) => list_rows(kv, child_prefix_spec(id), scan_rows(kv, child_prefix_spec(id))),
    }
}

pub open spec fn listing_model(v: Seq<(String, EntryKind)>) -> Seq<(Seq<char>, EntryKind)> {
    Seq::new(v.len(), |i: int| (v[i].0@, v[i].1))
}

/// Entry `a` is named by the bytes of row `a`'s key after the prefix.
pub open spec fn names_from_keys(l: Seq<(String, EntryKind)>, rows: Seq<(Seq<u8>, Seq<u8>)>, plen: int) -> bool {
    forall|a: int|
        0 <= a < l.len() ==> valid_utf8(#[trigger] rows[a].0.skip(plen)) && l[a].0@ == decode_utf8(
            rows[a].0.skip(plen),
        )
}

/// Names strictly increasing in string order.
pub open spec fn names_increasing(l: Seq<(Seq<char>, EntryKind)>) -> bool {
    forall|i: int, j: int| 0 <= i < j < l.len() ==> str_lt(#[trigger] l[i].0, #[trigger] l[j].0)
}

/// The paths stored in type-index rows, or the first row's error.
pub open spec fn index_rows_paths(rows: Seq<(Seq<u8>, Seq<u8>)>) -> Result<Seq<Seq<Seq<char>>>, NsErr>
    decreases rows.len(),
{
    if rows.len() == 0 {
        Ok(Seq::empty())
    } else {
        match index_rows_paths(rows.drop_last()) {
            Err(e) => Err(e),
            Ok(ps) => {
                let b = rows.last().1;
                if !valid_utf8(b) {
                    Err(NsErr::Invalid("idx path utf8"@))
                } else {
                    match spec_parse_path(decode_utf8(b)) {
                        Err(pe) => Err(NsErr::Path(pe)),
                        Ok(segs) => Ok(ps.push(segs)),
                    }
                }
            },
        }
    }
}

/// The paths the type index holds for type `ty`, in index order.
pub open spec fn spec_indexed_paths(kv: Kv, ty: Seq<char>) -> Result<Seq<Seq<Seq<char>>>, NsErr> {
    index_rows_paths(scan_rows(kv, type_index_prefix_spec(ty)))
}

/// Path order: by the canonical path string.
pub open spec fn path_le(a: Seq<Seq<char>>, b: Seq<Seq<char>>) -> bool {
    !str_lt(path_string(b), path_string(a))
}

pub open spec fn paths_sorted(ps: Seq<Seq<Seq<char>>>) -> bool {
    forall|i: int, j: int| 0 <= i < j < ps.len() ==> path_le(#[trigger] ps[i], #[trigger] ps[j])
}

pub open spec fn path_models(v: Seq<DbPath>) -> Seq<Seq<Seq<char>>> {
    Seq::new(v.len(), |i: int| v[i]@)
}

/// The error `join` gives for a segment it refuses.
pub open spec fn join_error(name: Seq<char>) -> PathErr {
    if name.len() == 0 {
        PathErr::EmptySegment
    } else {
        PathErr::ForbiddenSegment(name)
    }
}

/// The values in the subtree at `segs`, depth first with children in name
/// order; `fuel` bounds how many directory levels are entered.
pub open spec fn spec_walk(kv: Kv, segs: Seq<Seq<char>>, fuel: nat) -> Result<Seq<(Seq<Seq<char>>, ValueModel)>, NsErr>
    decreases fuel, 0nat,
{
    match spec_get(kv, segs) {
        Err(e) => Err(e),
        Ok((EntryKind::Value, Some(v))) => Ok(seq![(segs, v)]),
        Ok((EntryKind::Value, None)) => Ok(Seq::empty()),
        Ok((EntryKind::Directory, _)) => if fuel == 0 {
            Err(NsErr::Invalid("namespace too deep"@))
        } else {
            match spec_list(kv, segs) {
                Err(e) => Err(e),
                Ok(children) => spec_walk_children(kv, segs, children, (fuel - 1) as nat),
            }
        },
    }
}

/// The values under the listed children of `segs`, in listing order.
pub open spec fn spec_walk_children(
    kv: Kv,
    segs: Seq<Seq<char>>,
    children: Seq<(Seq<char>, EntryKind)>,
    fuel: nat,
) -> Result<Seq<(Seq<Seq<char>>, ValueModel)>, NsErr>
    decreases fuel, children.len() + 1,
{
    if children.len() == 0 {
        Ok(Seq::empty())
    } else {
        match spec_walk_children(kv, segs, children.drop_last(), fuel) {
            Err(e) => Err(e),
            Ok(acc) => {
                let name = children.last().0;
                if !valid_segment(name) {
                    Err(NsErr::Path(join_error(name)))
                } else {
                    match spec_walk(kv, segs.push(name), fuel) {
                        Err(e) => Err(e),
                        Ok(vs) => Ok(acc + vs),
                    }
                }
            },
        }
    }
}

pub open spec fn walk_models(v: Seq<(DbPath, Value)>) -> Seq<(Seq<Seq<char>>, ValueModel)> {
    Seq::new(v.len(), |i: int| (v[i].0@, v[i].1.model()))
}

/// Directory levels a walk from the root may enter.
pub open spec fn walk_fuel() -> nat {
    usize::MAX as nat
}

/// The first segment that `join` refuses among the listed names.
pub open spec fn first_join_error(children: Seq<(Seq<char>, EntryKind)>) -> Option<PathErr>
    decreases children.len(),
{
    if children.len() == 0 {
        None
    } else {
        match first_join_error(children.drop_last()) {
            Some(e) => Some(e),
            None => if valid_segment(children.last().0) {
                None
            } else {
                Some(join_error(children.last().0))
            },
        }
    }
}

/// The type-index entries of the subtree at `segs`: each node first, then
/// its children's subtrees from the last name to the first.
pub open spec fn spec_index_walk(kv: Kv, segs: Seq<Seq<char>>, fuel: nat) -> Result<Seq<(Seq<u8>, Seq<u8>)>, NsErr>
    decreases fuel, 0nat,
{
    match spec_resolve(kv, segs) {
        Err(e) => Err(e),
        Ok((id, rec)) => match spec_node_type(rec) {
            Err(e) => Err(e),
            Ok(ty) => {
                let here = seq![(type_index_key_spec(ty, id), path_bytes(segs))];
                if rec is Value {
                    Ok(here)
                } else if fuel == 0 {
                    Err(NsErr::Invalid("namespace too deep"@))
                } else {
                    match spec_list(kv, segs) {
                        Err(e) => Err(e),
                        Ok(children) => match first_join_error(children) {
                            Some(pe) => Err(NsErr::Path(pe)),
                            None => match spec_index_from(kv, segs, children, 0, (fuel - 1) as nat) {
                                Err(e) => Err(e),
                                Ok(rest) => Ok(here + rest),
                            },
                        },
                    }
                }
            },
        },
    }
}

/// The index entries of the children from position `i` on, the later
/// children's subtrees first.
pub open spec fn spec_index_from(
    kv: Kv,
    segs: Seq<Seq<char>>,
    children: Seq<(Seq<char>, EntryKind)>,
    i: nat,
    fuel: nat,
) -> Result<Seq<(Seq<u8>, Seq<u8>)>, NsErr>
    decreases fuel, children.len() + 1 - i,
{
    if i >= children.len() {
        Ok(Seq::empty())
    } else {
        match spec_index_from(kv, segs, children, i + 1, fuel) {
            Err(e) => Err(e),
            Ok(a) => match spec_index_walk(kv, segs.push(children[i as int].0), fuel) {
                Err(e) => Err(e),
                Ok(w) => Ok(a + w),
            },
        }
    }
}

pub open spec fn deletes_of(rows: Seq<(Seq<u8>, Seq<u8>)>) -> Seq<OpModel> {
    Seq::new(rows.len(), |i: int| OpModel::Delete(rows[i].0))
}

pub open spec fn puts_of(entries: Seq<(Seq<u8>, Seq<u8>)>) -> Seq<OpModel> {
    Seq::new(entries.len(), |i: int| OpModel::Put(entries[i].0, entries[i].1))
}

/// The store after rebuilding the type index: every index key removed, then
/// one entry per node reachable from the root.
pub open spec fn spec_rebuild(kv: Kv) -> Result<Kv, NsErr> {
    match spec_index_walk(kv, Seq::empty(), walk_fuel()) {
        Err(e) => Err(e),
        Ok(entries) => Ok(
            apply_ops(kv, deletes_of(scan_rows(kv, type_index_root())) + puts_of(entries)),
        ),
    }
}

/// The key recording which layout of the type index the store holds.
pub open spec fn index_version_key() -> Seq<u8> {
    seq![109u8, 101u8, 116u8, 97u8, 47u8, 116u8, 121u8, 112u8, 101u8, 95u8, 105u8, 110u8, 100u8, 101u8, 120u8, 95u8, 118u8, 101u8, 114u8, 115u8, 105u8, 111u8, 110u8]
}

/// The store after `open`: the root directory and the id counter exist, and
/// the type index is rebuilt unless it is at the current version.
pub open spec fn spec_open(kv: Kv) -> Result<Kv, NsErr> {
    let k1 = spec_open_base(kv);
    if k1.contains_key(index_version_key()) && k1[index_version_key()] == be64(1) {
        Ok(k1)
    } else {
        match spec_rebuild(k1) {
            Err(e) => Err(e),
            Ok(k2) => Ok(k2.insert(index_version_key(), be64(1))),
        }
    }
}

/// The store once the root directory and the id counter exist.
pub open spec fn spec_open_base(kv: Kv) -> Kv {
    if !kv.contains_key(node_key_spec(ROOT_ID)) {
        kv.insert(node_key_spec(ROOT_ID), seq![0u8]).insert(meta_next_id_key(), be64((ROOT_ID + 1) as u64)).insert(
            type_index_key_spec("directory"@, ROOT_ID),
            seq![47u8],
        )
    } else if !kv.contains_key(meta_next_id_key()) {
        kv.insert(meta_next_id_key(), be64((ROOT_ID + 1) as u64))
    } else {
        kv
    }
}

/// The JSON document of the subtree at `segs`: a directory is an object with
/// one member `__dir` holding its children by name; a value is its JSON form.
pub open spec fn spec_export(kv: Kv, segs: Seq<Seq<char>>, fuel: nat, t: Seq<(u64, Seq<char>)>) -> Result<JsonModel, NsErr>
    decreases fuel, 0nat,
{
    match spec_get(kv, segs) {
        Err(e) => Err(e),
        Ok((EntryKind::Value, Some(v))) => Ok(value_json(v, t)),
        Ok((EntryKind::Value, None)) => Ok(JsonModel::Null),
        Ok((EntryKind::Directory, _)) => if fuel == 0 {
            Err(NsErr::Invalid("namespace too deep"@))
        } else {
            match spec_list(kv, segs) {
                Err(e) => Err(e),
                Ok(children) => match spec_export_children(kv, segs, children, (fuel - 1) as nat, t) {
                    Err(e) => Err(e),
                    Ok(members) => Ok(JsonModel::Object(seq![(word_dir(), JsonModel::Object(members))])),
                },
            }
        },
    }
}

pub open spec fn spec_export_children(
    kv: Kv,
    segs: Seq<Seq<char>>,
    children: Seq<(Seq<char>, EntryKind)>,
    fuel: nat,
    t: Seq<(u64, Seq<char>)>,
) -> Result<Seq<(Seq<char>, JsonModel)>, NsErr>
    decreases fuel, children.len() + 1,
{
    if children.len() == 0 {
        Ok(Seq::empty())
    } else {
        match spec_export_children(kv, segs, children.drop_last(), fuel, t) {
            Err(e) => Err(e),
            Ok(acc) => {
                let name = children.last().0;
                if !valid_segment(name) {
                    Err(NsErr::Path(join_error(name)))
                } else {
                    match spec_export(kv, segs.push(name), fuel, t) {
                        Err(e) => Err(e),
                        Ok(body) => Ok(acc.push((name, body))),
                    }
                }
            },
        }
    }
}

/// The path of a member `k` of a directory object at `segs`: below the root
/// the member name is parsed as a path, elsewhere it is one segment.
pub open spec fn child_path(segs: Seq<Seq<char>>, k: Seq<char>) -> Result<Seq<Seq<char>>, PathErr> {
    if segs.len() == 0 {
        spec_parse_path(seq!['/'] + k)
    } else if valid_segment(k) {
        Ok(segs.push(k))
    } else {
        Err(join_error(k))
    }
}

/// The store and outcome of storing the value a document stands for.
pub open spec fn spec_import_value(kv: Kv, segs: Seq<Seq<char>>, j: JsonModel, b: Seq<(Seq<char>, u64)>) -> (Kv, Result<(), NsErr>) {
    match json_value(j, b) {
        Err(e) => (kv, Err(e)),
        Ok(v) => match spec_set(kv, segs, v, true) {
            Ok(m) => (m, Ok(())),
            Err(e) => (kv, Err(e)),
        },
    }
}

/// The store and outcome of importing document `j` at `segs`. Each mkdir
/// and set commits on its own, so an error leaves what came before it.
pub open spec fn spec_import(kv: Kv, segs: Seq<Seq<char>>, j: JsonModel, at_root: bool, b: Seq<(Seq<char>, u64)>) -> (Kv, Result<(), NsErr>)
    decreases j, 1int, 0int,
{
    match j {
        JsonModel::Object(ms) => if ms.len() == 1 && ms[0].0 == word_dir() {
            match ms[0].1 {
                JsonModel::Object(_) => {
                    let pre: (Kv, Result<(), NsErr>) = if !at_root && segs.len() > 0 {
                        match spec_exists(kv, segs) {
                            Err(e) => (kv, Err(e)),
                            Ok(true) => (kv, Ok(())),
                            Ok(false) => match spec_mkdir(kv, segs, true) {
                                Ok(m) => (m, Ok(())),
                                Err(e) => (kv, Err(e)),
                            },
                        }
                    } else {
                        (kv, Ok(()))
                    };
                    if pre.1 is Err {
                        pre
                    } else {
                        spec_import_members(pre.0, segs, ms[0].1, 0, b)
                    }
                },
                _ => (kv, Err(NsErr::Invalid("__dir must be object"@))),
            }
        } else if at_root {
            spec_import_members(kv, segs, j, 0, b)
        } else {
            spec_import_value(kv, segs, j, b)
        },
        _ => if at_root {
            (kv, Err(NsErr::Invalid("root import must be object"@)))
        } else {
            spec_import_value(kv, segs, j, b)
        },
    }
}

/// Importing the members of object `obj` from position `i` on, in order.
pub open spec fn spec_import_members(kv: Kv, segs: Seq<Seq<char>>, obj: JsonModel, i: nat, b: Seq<(Seq<char>, u64)>) -> (Kv, Result<(), NsErr>)
    decreases obj, 0int, (if obj is Object {
        obj->Object_0.len()
    } else {
        0
    }) - i,
{
    match obj {
        JsonModel::Object(ms) => if i >= ms.len() {
            (kv, Ok(()))
        } else {
            match child_path(segs, ms[i as int].0) {
                Err(pe) => (kv, Err(NsErr::Path(pe))),
                Ok(cs) => {
                    let step = spec_import(kv, cs, ms[i as int].1, false, b);
                    if step.1 is Err {
                        step
                    } else {
                        spec_import_members(step.0, segs, obj, i + 1, b)
                    }
                },
            }
        },
        _ => (kv, Ok(())),
    }
}

/// An exec result agrees with a specified one, unless storage failed.
pub open spec fn agrees<T, M>(r: Result<T, NsError>, s: Result<M, NsErr>, f: spec_fn(T) -> M) -> bool {
    storage_failed(r) || match s {
        Ok(m) => r matches Ok(t) && f(t) == m,
        Err(e) => r matches Err(x) && x.model() == e,
    }
}

/// A mutation agrees with its specification: when storage does not fail the
/// result and the new store are the specified ones; when it fails, the store
/// is either unchanged or exactly the specified new store.
pub open spec fn mutation_agrees(r: Result<(), NsError>, before: Kv, after: Kv, s: Result<Kv, NsErr>) -> bool {
    match s {
        Ok(m) => (r is Ok && after == m) || (storage_failed(r) && (after == before || after == m)),
        Err(e) => (r matches Err(x) && x.model() == e && after == before) || (storage_failed(r)
            && after == before),
    }
}

/// A staged update agrees with its specification: on success the overlay
/// holds the specified store; on failure nothing was staged.
pub open spec fn staged_agrees(r: Result<(), NsError>, before: Kv, after: Kv, s: Result<Kv, NsErr>) -> bool {
    match s {
        Ok(m) => (r is Ok && after == m) || (storage_failed(r) && after == before),
        Err(e) => r matches Err(x) && (x.model() == e || storage_failed(r)) && after == before,
    }
}

// ---------------------------------------------------------------------------
// Storage access

/// The UTF-8 bytes of a string.
pub fn str_bytes(s: &str) -> (b: Vec<u8>)
    ensures
        b@ == encode_utf8(s@),
{
    vstd::slice::slice_to_vec(s.as_bytes())
}

fn sget<S: Storage>(store: &S, key: &[u8]) -> (r: Result<Option<Vec<u8>>, NsError>)
    ensures
        store.reliable() ==> !storage_failed(r),
        store.reads_ok() ==> !storage_failed(r),
        r matches Ok(Some(v)) ==> store.kv().contains_key(key@) && store.kv()[key@] == v@,
        r matches Ok(None) ==> !store.kv().contains_key(key@),
        r is Err ==> storage_failed(r),
{
    match store.get(key) {
        Ok(x) => Ok(x),
        Err(e) => Err(NsError::from_storage(e)),
    }
}

fn scommit<S: Storage>(store: &mut S, batch: WriteBatch) -> (r: Result<(), NsError>)
    ensures
        old(store).reliable() ==> r is Ok,
        final(store).reliable() == old(store).reliable(),
        final(store).reads_ok() == old(store).reads_ok(),
        final(store).reads_ok() == old(store).reads_ok(),
        final(store).commits() == old(store).commits() + 1,
        r is Ok ==> final(store).kv() == apply_ops(old(store).kv(), batch@),
        r is Err ==> storage_failed(r) && (final(store).kv() == old(store).kv() || final(store).kv()
            == apply_ops(old(store).kv(), batch@)),
{
    match store.commit(batch) {
        Ok(()) => Ok(()),
        Err(e) => Err(NsError::from_storage(e)),
    }
}

fn sscan<S: Storage>(store: &S, prefix: &[u8]) -> (r: Result<ScanRows, NsError>)
    ensures
        store.reliable() ==> !storage_failed(r),
        store.reads_ok() ==> !storage_failed(r),
        r matches Ok(rows) ==> is_prefix_scan(store.kv(), prefix@, rows_view(rows@)),
        r is Err ==> storage_failed(r),
{
    match store.scan_prefix(prefix) {
        Ok(x) => Ok(x),
        Err(e) => Err(NsError::from_storage(e)),
    }
}

proof fn lemma_apply_push(m: Kv, ops: Seq<OpModel>, op: OpModel)
    ensures
        apply_ops(m, ops.push(op)) == crate::storage::apply_op(apply_ops(m, ops), op),
{
    assert(ops.push(op).drop_last() =~= ops);
}

proof fn lemma_apply_empty(m: Kv)
    ensures
        apply_ops(m, Seq::<OpModel>::empty()) == m,
{
}

// ---------------------------------------------------------------------------
// Namespace operations over any store

fn next_id_in<T: Storage>(store: &T) -> (r: Result<u64, NsError>)
    ensures
        store.reliable() ==> !storage_failed(r),
        store.reads_ok() ==> !storage_failed(r),
        agrees(r, spec_next_id(store.kv()), |x: u64| x),
{
    let raw = match sget(store, meta_next_id().as_slice())? {
        Some(raw) => raw,
        None => {
            return Err(NsError::Invalid(text("missing next_id")));
        },
    };
    match decode_id(raw.as_slice()) {
        Some(id) => {
            if id == u64::MAX {
                return Err(NsError::Invalid(text("next id exhausted")));
            }
            Ok(id)
        },
        None => Err(NsError::Invalid(text("bad next_id"))),
    }
}

/// The node id and record at `path`.
pub(crate) fn resolve_in<T: Storage>(store: &T, path: &DbPath) -> (r: Result<(u64, NodeRecord), NsError>)
    ensures
        store.reliable() ==> !storage_failed(r),
        store.reads_ok() ==> !storage_failed(r),
        agrees(r, spec_resolve(store.kv(), path@), |x: (u64, NodeRecord)| (x.0, x.1.model())),
{
    let ghost kv = store.kv();
    let ghost segs = path@;
    let n = path.depth();
    let mut id = ROOT_ID;
    let mut i: usize = 0;
    assert(segs.skip(0) =~= segs);
    while i < n
        invariant
            n == segs.len(),
            segs == path@,
            kv == store.kv(),
            i <= n,
            walk_ids(kv, ROOT_ID, segs, path_string(segs)) == walk_ids(
                kv,
                id,
                segs.skip(i as int),
                path_string(segs),
            ),
        decreases n - i,
    {
        let seg = path.segment(i);
        assert(segs.skip(i as int)[0] == segs[i as int]);
        assert(segs.skip(i as int).drop_first() =~= segs.skip(i + 1));
        let raw = match sget(store, child_key(id, seg.as_str()).as_slice())? {
            Some(raw) => raw,
            None => {
                return Err(NsError::NotFound(path.as_str()));
            },
        };
        id = match decode_id(raw.as_slice()) {
            Some(c) => c,
            None => {
                return Err(NsError::Invalid(text("bad child id")));
            },
        };
        i = i + 1;
    }
    let bytes = match sget(store, node_key(id).as_slice())? {
        Some(b) => b,
        None => {
            return Err(NsError::NotFound(path.as_str()));
        },
    };
    match parse_node(bytes.as_slice()) {
        Ok(rec) => Ok((id, rec)),
        Err(m) => Err(NsError::Invalid(m)),
    }
}

fn exists_in<T: Storage>(store: &T, path: &DbPath) -> (r: Result<bool, NsError>)
    ensures
        store.reliable() ==> !storage_failed(r),
        store.reads_ok() ==> !storage_failed(r),
        agrees(r, spec_exists(store.kv(), path@), |x: bool| x),
{
    match resolve_in(store, path) {
        Ok(_) => Ok(true),
        Err(NsError::NotFound(_)) => Ok(false),
        Err(e) => Err(e),
    }
}

pub open spec fn entry_model(e: Entry) -> (EntryKind, Option<ValueModel>) {
    (
        e.kind,
        match e.value {
            Some(v) => Some(v.model()),
            None => None,
        },
    )
}

fn get_in<T: Storage>(store: &T, path: &DbPath) -> (r: Result<Entry, NsError>)
    ensures
        store.reliable() ==> !storage_failed(r),
        store.reads_ok() ==> !storage_failed(r),
        agrees(r, spec_get(store.kv(), path@), |e: Entry| entry_model(e)),
        r matches Ok(e) ==> e.path@ == path@,
{
    let (_id, rec) = resolve_in(store, path)?;
    match rec {
        NodeRecord::Dir => Ok(Entry { path: path.clone_path(), kind: EntryKind::Directory, value: None }),
        NodeRecord::Value(enc) => match decode(enc.as_slice()) {
            Ok(v) => Ok(Entry { path: path.clone_path(), kind: EntryKind::Value, value: Some(v) }),
            Err(e) => Err(NsError::from_codec(e)),
        },
    }
}

/// Listing entries for the child rows of a directory.
fn list_rows_in<T: Storage>(store: &T, prefix: &Vec<u8>, rows: &ScanRows) -> (r: Result<Vec<(String, EntryKind)>, NsError>)
    requires
        forall|a: int| 0 <= a < rows@.len() ==> has_prefix(#[trigger] rows_view(rows@)[a].0, prefix@),
    ensures
        store.reliable() ==> !storage_failed(r),
        store.reads_ok() ==> !storage_failed(r),
        agrees(r, list_rows(store.kv(), prefix@, rows_view(rows@)), |v: Vec<(String, EntryKind)>| listing_model(v@)),
        r matches Ok(v) ==> names_from_keys(v@, rows_view(rows@), prefix@.len() as int)
            && v@.len() == rows@.len(),
{
    let ghost kv = store.kv();
    let ghost rv = rows_view(rows@);
    let ghost plen = prefix@.len() as int;
    let mut out: Vec<(String, EntryKind)> = Vec::new();
    let mut i: usize = 0;
    assert(rv.take(0) =~= Seq::<(Seq<u8>, Seq<u8>)>::empty());
    assert(listing_model(out@) =~= Seq::<(Seq<char>, EntryKind)>::empty());
    while i < rows.len()
        invariant
            i <= rows@.len(),
            kv == store.kv(),
            rv == rows_view(rows@),
            forall|a: int| 0 <= a < rows@.len() ==> has_prefix(#[trigger] rv[a].0, prefix@),
            plen == prefix@.len(),
            list_rows(kv, prefix@, rv.take(i as int)) == Ok::<Seq<(Seq<char>, EntryKind)>, NsErr>(
                listing_model(out@),
            ),
            out@.len() == i,
            names_from_keys(out@, rv, plen),
        decreases rows@.len() - i,
    {
        assert(rv.take(i + 1).drop_last() =~= rv.take(i as int));
        assert(rv.take(i + 1).last() == rv[i as int]);
        proof {
            if child_entry(kv, prefix@, rv[i as int]) is Err {
                lemma_list_rows_err(kv, prefix@, rv, i + 1);
            }
        }
        let key = &rows[i].0;
        assert(has_prefix(rv[i as int].0, prefix@));
        let name_bytes = copy_range(key.as_slice(), prefix.len(), key.len());
        assert(name_bytes@ =~= rv[i as int].0.skip(plen));
        let name = match string_from_utf8(name_bytes.as_slice()) {
            Some(s) => s,
            None => {
                return Err(NsError::Invalid(text("child name not utf8")));
            },
        };
        let child_id = match decode_id(rows[i].1.as_slice()) {
            Some(c) => c,
            None => {
                return Err(NsError::Invalid(text("bad child id")));
            },
        };
        let bytes = match sget(store, node_key(child_id).as_slice())? {
            Some(b) => b,
            None => {
                return Err(NsError::Invalid(text("missing child node")));
            },
        };
        let kind = match parse_node(bytes.as_slice()) {
            Err(m) => {
                return Err(NsError::Invalid(m));
            },
            Ok(NodeRecord::Dir) => EntryKind::Directory,
            Ok(NodeRecord::Value(_)) => EntryKind::Value,
        };
        let ghost before = out@;
        out.push((name, kind));
        assert(listing_model(out@) =~= listing_model(before).push((name@, kind)));
        assert forall|a: int| 0 <= a < out@.len() implies valid_utf8(#[trigger] rv[a].0.skip(plen))
            && out@[a].0@ == decode_utf8(rv[a].0.skip(plen)) by {
            if a < i {
                assert(out@[a] == before[a]);
            }
        }
        assert(names_from_keys(out@, rv, plen));
        i = i + 1;
    }
    assert(rv.take(i as int) =~= rv);
    Ok(out)
}

/// The children of the directory at `path`, sorted by name.
pub(crate) fn list_in<T: Storage>(store: &T, path: &DbPath) -> (r: Result<Vec<(String, EntryKind)>, NsError>)
    ensures
        store.reliable() ==> !storage_failed(r),
        store.reads_ok() ==> !storage_failed(r),
        agrees(r, spec_list(store.kv(), path@), |v: Vec<(String, EntryKind)>| listing_model(v@)),
        r matches Ok(v) ==> names_increasing(listing_model(v@)),
{
    let ghost kv = store.kv();
    let (id, rec) = resolve_in(store, path)?;
    if let NodeRecord::Value(_) = rec {
        return Err(NsError::NotDirectory(path.as_str()));
    }
    let prefix = child_prefix(id);
    let rows = sscan(store, prefix.as_slice())?;
    let ghost rv = rows_view(rows@);
    let ghost plen = prefix@.len() as int;
    proof {
        lemma_scan_rows(kv, prefix@, rv);
    }
    let out = list_rows_in(store, &prefix, &rows)?;
    proof {
        let l = listing_model(out@);
        assert(keys_increasing(rv));
        assert forall|a: int, b: int| 0 <= a < b < l.len() implies str_lt(#[trigger] l[a].0, #[trigger] l[b].0) by {
            assert(valid_utf8(rv[a].0.skip(plen)) && valid_utf8(rv[b].0.skip(plen)));
            decode_utf8_encode_utf8(rv[a].0.skip(plen));
            decode_utf8_encode_utf8(rv[b].0.skip(plen));
            assert(rv[a].0.take(plen) == prefix@);
            assert(rv[b].0.take(plen) == prefix@);
            lemma_bytes_lt_skip(rv[a].0, rv[b].0, plen);
        }
    }
    Ok(out)
}

proof fn lemma_index_rows_err(rows: Seq<(Seq<u8>, Seq<u8>)>, j: int)
    requires
        0 <= j <= rows.len(),
        index_rows_paths(rows.take(j)) is Err,
    ensures
        index_rows_paths(rows) == index_rows_paths(rows.take(j)),
    decreases rows.len(),
{
    if j == rows.len() {
        assert(rows.take(j) =~= rows);
    } else {
        assert(rows.drop_last().take(j) =~= rows.take(j));
        lemma_index_rows_err(rows.drop_last(), j);
    }
}

/// Insert `p` after every path that does not sort after it.
fn insert_sorted(out: &mut Vec<DbPath>, p: DbPath)
    requires
        paths_sorted(path_models(old(out)@)),
    ensures
        paths_sorted(path_models(final(out)@)),
        path_models(final(out)@).to_multiset() == path_models(old(out)@).to_multiset().insert(p@),
{
    let ghost before = path_models(out@);
    let ps = p.as_str();
    let mut j: usize = 0;
    while j < out.len() && crate::order::compare_str(ps.as_str(), out[j].as_str().as_str())
        != crate::order::Order::Less
        invariant
            j <= out@.len(),
            before == path_models(out@),
            ps@ == path_string(p@),
            forall|a: int| 0 <= a < j ==> path_le(#[trigger] before[a], p@),
        decreases out@.len() - j,
    {
        j = j + 1;
    }
    let ghost pm = p@;
    out.insert(j, p);
    proof {
        let after = path_models(out@);
        assert(after =~= before.insert(j as int, pm));
        to_multiset_insert(before, j as int, pm);
        lemma_str_lt_total(path_string(pm), path_string(pm));
        if j < before.len() {
            assert(str_lt(path_string(pm), path_string(before[j as int])));
        }
        assert forall|a: int, b: int| 0 <= a < b < after.len() implies path_le(#[trigger] after[a], #[trigger] after[b]) by {
            if a < j && b < j {
                assert(after[a] == before[a] && after[b] == before[b]);
            } else if a < j && b == j {
            } else if a < j {
                assert(after[a] == before[a] && after[b] == before[b - 1]);
            } else if a == j {
                assert(after[b] == before[b - 1]);
                lemma_str_lt_total(path_string(pm), path_string(before[j as int]));
                lemma_str_lt_total(path_string(before[j as int]), path_string(before[b - 1]));
                if b - 1 > j {
                    assert(path_le(before[j as int], before[b - 1]));
                    if str_lt(path_string(before[b - 1]), path_string(pm)) {
                        if path_string(before[j as int]) == path_string(before[b - 1]) {
                        } else {
                            lemma_str_lt_transitive(
                                path_string(pm),
                                path_string(before[j as int]),
                                path_string(before[b - 1]),
                            );
                            lemma_str_lt_total(path_string(pm), path_string(before[b - 1]));
                        }
                    }
                } else {
                    lemma_str_lt_total(path_string(pm), path_string(before[b - 1]));
                }
            } else {
                assert(after[a] == before[a - 1] && after[b] == before[b - 1]);
            }
        }
    }
}

/// The paths with type `ty` in the type index, sorted by path string.
pub(crate) fn indexed_paths_in<T: Storage>(store: &T, ty: &str) -> (r: Result<Vec<DbPath>, NsError>)
    ensures
        store.reliable() ==> !storage_failed(r),
        store.reads_ok() ==> !storage_failed(r),
        storage_failed(r) || match spec_indexed_paths(store.kv(), ty@) {
            Ok(ps) => r matches Ok(v) && path_models(v@).to_multiset() == ps.to_multiset() && paths_sorted(
                path_models(v@),
            ),
            Err(e) => r matches Err(x) && x.model() == e,
        },
        !storage_failed(r) ==> exists|rows: Seq<(Seq<u8>, Seq<u8>)>|
            is_prefix_scan(store.kv(), type_index_prefix_spec(ty@), rows),
{
    let ghost kv = store.kv();
    let prefix = type_index_prefix(ty);
    let rows = sscan(store, prefix.as_slice())?;
    let ghost rv = rows_view(rows@);
    proof {
        lemma_scan_rows(kv, prefix@, rv);
    }
    let mut out: Vec<DbPath> = Vec::new();
    let ghost mut parsed: Seq<Seq<Seq<char>>> = Seq::empty();
    let mut i: usize = 0;
    assert(rv.take(0) =~= Seq::<(Seq<u8>, Seq<u8>)>::empty());
    assert(path_models(out@) =~= Seq::<Seq<Seq<char>>>::empty());
    while i < rows.len()
        invariant
            i <= rows@.len(),
            rv == rows_view(rows@),
            kv == store.kv(),
            spec_indexed_paths(kv, ty@) == index_rows_paths(rv),
            is_prefix_scan(kv, type_index_prefix_spec(ty@), rv),
            index_rows_paths(rv.take(i as int)) == Ok::<Seq<Seq<Seq<char>>>, NsErr>(parsed),
            path_models(out@).to_multiset() == parsed.to_multiset(),
            paths_sorted(path_models(out@)),
        decreases rows@.len() - i,
    {
        assert(rv.take(i + 1).drop_last() =~= rv.take(i as int));
        assert(rv.take(i + 1).last() == rv[i as int]);
        let s = match string_from_utf8(rows[i].1.as_slice()) {
            Some(s) => s,
            None => {
                proof {
                    lemma_index_rows_err(rv, i + 1);
                }
                return Err(NsError::Invalid(text("idx path utf8")));
            },
        };
        let p = match DbPath::parse(s.as_str()) {
            Ok(p) => p,
            Err(e) => {
                proof {
                    lemma_index_rows_err(rv, i + 1);
                }
                return Err(NsError::from_path(e));
            },
        };
        proof {
            to_multiset_build(parsed, p@);
            parsed = parsed.push(p@);
        }
        insert_sorted(&mut out, p);
        i = i + 1;
    }
    assert(rv.take(i as int) =~= rv);
    Ok(out)
}

proof fn lemma_walk_children_err(kv: Kv, segs: Seq<Seq<char>>, children: Seq<(Seq<char>, EntryKind)>, fuel: nat, j: int)
    requires
        0 <= j <= children.len(),
        spec_walk_children(kv, segs, children.take(j), fuel) is Err,
    ensures
        spec_walk_children(kv, segs, children, fuel) == spec_walk_children(kv, segs, children.take(j), fuel),
    decreases children.len(),
{
    if j == children.len() {
        assert(children.take(j) =~= children);
    } else {
        assert(children.drop_last().take(j) =~= children.take(j));
        lemma_walk_children_err(kv, segs, children.drop_last(), fuel, j);
    }
}

/// Append the values of the subtree at `path` to `out`.
fn walk_rec<T: Storage>(store: &T, path: &DbPath, fuel: usize, out: &mut Vec<(DbPath, Value)>) -> (r: Result<(), NsError>)
    ensures
        store.reliable() ==> !storage_failed(r),
        store.reads_ok() ==> !storage_failed(r),
        storage_failed(r) || match spec_walk(store.kv(), path@, fuel as nat) {
            Ok(vs) => r is Ok && walk_models(final(out)@) == walk_models(old(out)@) + vs,
            Err(e) => r matches Err(x) && x.model() == e,
        },
    decreases fuel, 0nat,
{
    let entry = get_in(store, path)?;
    match entry.kind {
        EntryKind::Directory => {
            if fuel == 0 {
                return Err(NsError::Invalid(text("namespace too deep")));
            }
            let children = list_in(store, path)?;
            walk_children(store, path, &children, fuel - 1, out)
        },
        EntryKind::Value => {
            match entry.value {
                Some(v) => {
                    let ghost before = out@;
                    let ghost vm = v.model();
                    out.push((path.clone_path(), v));
                    assert(walk_models(out@) =~= walk_models(before) + seq![(path@, vm)]);
                },
                None => {
                    assert(walk_models(out@) =~= walk_models(out@) + Seq::<(Seq<Seq<char>>, ValueModel)>::empty());
                },
            }
            Ok(())
        },
    }
}

fn walk_children<T: Storage>(
    store: &T,
    path: &DbPath,
    children: &Vec<(String, EntryKind)>,
    fuel: usize,
    out: &mut Vec<(DbPath, Value)>,
) -> (r: Result<(), NsError>)
    ensures
        store.reliable() ==> !storage_failed(r),
        store.reads_ok() ==> !storage_failed(r),
        storage_failed(r) || match spec_walk_children(store.kv(), path@, listing_model(children@), fuel as nat) {
            Ok(vs) => r is Ok && walk_models(final(out)@) == walk_models(old(out)@) + vs,
            Err(e) => r matches Err(x) && x.model() == e,
        },
    decreases fuel, children@.len() + 1,
{
    let ghost kv = store.kv();
    let ghost cm = listing_model(children@);
    let ghost start = walk_models(out@);
    let mut i: usize = 0;
    assert(cm.take(0) =~= Seq::<(Seq<char>, EntryKind)>::empty());
    assert(start =~= start + Seq::<(Seq<Seq<char>>, ValueModel)>::empty());
    while i < children.len()
        invariant
            i <= children@.len(),
            kv == store.kv(),
            cm == listing_model(children@),
            spec_walk_children(kv, path@, cm.take(i as int), fuel as nat) matches Ok(acc) && walk_models(out@)
                == start + acc,
        decreases children@.len() - i,
    {
        assert(cm.take(i + 1).drop_last() =~= cm.take(i as int));
        assert(cm.take(i + 1).last() == cm[i as int]);
        let ghost acc = spec_walk_children(kv, path@, cm.take(i as int), fuel as nat)->Ok_0;
        let child = match path.join(children[i].0.as_str()) {
            Ok(c) => c,
            Err(e) => {
                proof {
                    lemma_walk_children_err(kv, path@, cm, fuel as nat, i + 1);
                }
                return Err(NsError::from_path(e));
            },
        };
        match walk_rec(store, &child, fuel, out) {
            Ok(()) => {},
            Err(e) => {
                proof {
                    if !storage_failed(Err::<(), NsError>(e)) {
                        lemma_walk_children_err(kv, path@, cm, fuel as nat, i + 1);
                    }
                }
                return Err(e);
            },
        }
        assert(walk_models(out@) == start + (acc + spec_walk(kv, path@.push(cm[i as int].0), fuel as nat)->Ok_0));
        i = i + 1;
    }
    assert(cm.take(i as int) =~= cm);
    Ok(())
}

proof fn lemma_first_join_error_prefix(children: Seq<(Seq<char>, EntryKind)>, j: int)
    requires
        0 <= j <= children.len(),
        first_join_error(children.take(j)) is Some,
    ensures
        first_join_error(children) == first_join_error(children.take(j)),
    decreases children.len(),
{
    if j == children.len() {
        assert(children.take(j) =~= children);
    } else {
        assert(children.drop_last().take(j) =~= children.take(j));
        lemma_first_join_error_prefix(children.drop_last(), j);
    }
}

/// The child paths of `path` for the listed names, in listing order.
fn join_children(path: &DbPath, children: &Vec<(String, EntryKind)>) -> (r: Result<Vec<DbPath>, NsError>)
    ensures
        match first_join_error(listing_model(children@)) {
            Some(pe) => r matches Err(x) && x.model() == NsErr::Path(pe),
            None => r matches Ok(v) && v@.len() == children@.len() && forall|i: int|
                0 <= i < v@.len() ==> (#[trigger] v@[i])@ == path@.push(children@[i].0@),
        },
{
    let ghost cm = listing_model(children@);
    let mut out: Vec<DbPath> = Vec::new();
    let mut i: usize = 0;
    assert(cm.take(0) =~= Seq::<(Seq<char>, EntryKind)>::empty());
    while i < children.len()
        invariant
            i <= children@.len(),
            cm == listing_model(children@),
            first_join_error(cm.take(i as int)) is None,
            out@.len() == i,
            forall|a: int| 0 <= a < i ==> (#[trigger] out@[a])@ == path@.push(children@[a].0@),
        decreases children@.len() - i,
    {
        assert(cm.take(i + 1).drop_last() =~= cm.take(i as int));
        assert(cm.take(i + 1).last() == cm[i as int]);
        match path.join(children[i].0.as_str()) {
            Ok(c) => {
                out.push(c);
            },
            Err(e) => {
                proof {
                    lemma_first_join_error_prefix(cm, i + 1);
                }
                return Err(NsError::from_path(e));
            },
        }
        i = i + 1;
    }
    assert(cm.take(i as int) =~= cm);
    Ok(out)
}

pub open spec fn batch_extends(before: Seq<OpModel>, after: Seq<OpModel>, entries: Seq<(Seq<u8>, Seq<u8>)>) -> bool {
    after == before + puts_of(entries)
}

proof fn lemma_index_from_err(
    kv: Kv,
    segs: Seq<Seq<char>>,
    children: Seq<(Seq<char>, EntryKind)>,
    k: nat,
    j: nat,
    fuel: nat,
)
    requires
        k <= j,
        spec_index_from(kv, segs, children, j, fuel) is Err,
    ensures
        spec_index_from(kv, segs, children, k, fuel) == spec_index_from(kv, segs, children, j, fuel),
    decreases j - k,
{
    if k < j {
        lemma_index_from_err(kv, segs, children, k + 1, j, fuel);
    }
}

/// Stage the type-index entries of the subtree at `path`.
fn index_rec<T: Storage>(store: &T, path: &DbPath, fuel: usize, batch: &mut WriteBatch) -> (r: Result<(), NsError>)
    ensures
        store.reliable() ==> !storage_failed(r),
        store.reads_ok() ==> !storage_failed(r),
        storage_failed(r) || match spec_index_walk(store.kv(), path@, fuel as nat) {
            Ok(es) => r is Ok && batch_extends(old(batch)@, final(batch)@, es),
            Err(e) => r matches Err(x) && x.model() == e,
        },
    decreases fuel, 0nat,
{
    let ghost kv = store.kv();
    let (id, rec) = resolve_in(store, path)?;
    let ty = node_type_name(&rec)?;
    let ghost b0 = batch@;
    batch.put(type_index_key(ty, id), str_bytes(path.as_str().as_str()));
    let ghost here = seq![(type_index_key_spec(ty@, id), path_bytes(path@))];
    assert(batch@ =~= b0 + puts_of(here));
    if let NodeRecord::Value(_) = rec {
        return Ok(());
    }
    if fuel == 0 {
        return Err(NsError::Invalid(text("namespace too deep")));
    }
    let children = list_in(store, path)?;
    let paths = join_children(path, &children)?;
    let ghost cm = listing_model(children@);
    let ghost b1 = batch@;
    let ghost f1 = (fuel - 1) as nat;
    let mut i = paths.len();
    assert(b1 =~= b0 + puts_of(here) + puts_of(Seq::<(Seq<u8>, Seq<u8>)>::empty()));
    while i > 0
        invariant
            i <= paths@.len(),
            paths@.len() == children@.len(),
            cm == listing_model(children@),
            kv == store.kv(),
            f1 == fuel - 1,
            spec_index_walk(kv, path@, fuel as nat) == match spec_index_from(kv, path@, cm, 0, f1) {
                Err(e) => Err(e),
                Ok(rest) => Ok(here + rest),
            },
            forall|a: int| 0 <= a < paths@.len() ==> (#[trigger] paths@[a])@ == path@.push(children@[a].0@),
            spec_index_from(kv, path@, cm, i as nat, f1) matches Ok(acc) && batch@ == b0 + puts_of(here)
                + puts_of(acc),
        decreases i,
    {
        i = i - 1;
        let ghost acc = spec_index_from(kv, path@, cm, (i + 1) as nat, f1)->Ok_0;
        assert(paths@[i as int]@ == path@.push(cm[i as int].0));
        match index_rec(store, &paths[i], fuel - 1, batch) {
            Ok(()) => {},
            Err(e) => {
                proof {
                    if !storage_failed(Err::<(), NsError>(e)) {
                        lemma_index_from_err(kv, path@, cm, 0, i as nat, f1);
                    }
                }
                return Err(e);
            },
        }
        proof {
            let w = spec_index_walk(kv, path@.push(cm[i as int].0), f1)->Ok_0;
            assert(puts_of(acc + w) =~= puts_of(acc) + puts_of(w));
            assert(b0 + puts_of(here) + puts_of(acc) + puts_of(w) =~= b0 + puts_of(here) + puts_of(acc + w));
        }
    }
    proof {
        let all = spec_index_from(kv, path@, cm, 0, f1)->Ok_0;
        assert(puts_of(here + all) =~= puts_of(here) + puts_of(all));
        assert(b0 + puts_of(here) + puts_of(all) =~= b0 + puts_of(here + all));
    }
    Ok(())
}

/// The key of the type-index version marker.
fn index_version() -> (k: Vec<u8>)
    ensures
        k@ == index_version_key(),
{
    let k = vec![109u8, 101u8, 116u8, 97u8, 47u8, 116u8, 121u8, 112u8, 101u8, 95u8, 105u8, 110u8, 100u8, 101u8, 120u8, 95u8, 118u8, 101u8, 114u8, 115u8, 105u8, 111u8, 110u8];
    assert(k@ =~= index_version_key());
    k
}

proof fn lemma_export_children_err(
    kv: Kv,
    segs: Seq<Seq<char>>,
    children: Seq<(Seq<char>, EntryKind)>,
    fuel: nat,
    t: Seq<(u64, Seq<char>)>,
    j: int,
)
    requires
        0 <= j <= children.len(),
        spec_export_children(kv, segs, children.take(j), fuel, t) is Err,
    ensures
        spec_export_children(kv, segs, children, fuel, t) == spec_export_children(kv, segs, children.take(j), fuel, t),
    decreases children.len(),
{
    if j == children.len() {
        assert(children.take(j) =~= children);
    } else {
        assert(children.drop_last().take(j) =~= children.take(j));
        lemma_export_children_err(kv, segs, children.drop_last(), fuel, t, j);
    }
}

fn dir_word() -> (s: String)
    ensures
        s@ == word_dir(),
{
    let s = text("__dir");
    proof {
        reveal_strlit("__dir");
    }
    assert(s@ =~= word_dir());
    s
}

/// The JSON document of the subtree at `path`.
fn export_rec<T: Storage>(store: &T, path: &DbPath, fuel: usize, t: &FloatTexts) -> (r: Result<JsonVal, NsError>)
    ensures
        store.reliable() ==> !storage_failed(r),
        store.reads_ok() ==> !storage_failed(r),
        storage_failed(r) || match spec_export(store.kv(), path@, fuel as nat, texts_model(t@)) {
            Ok(j) => r matches Ok(x) && x.model() == j,
            Err(e) => r matches Err(x) && x.model() == e,
        },
    decreases fuel, 0nat,
{
    let entry = get_in(store, path)?;
    match entry.kind {
        EntryKind::Directory => {
            if fuel == 0 {
                return Err(NsError::Invalid(text("namespace too deep")));
            }
            let children = list_in(store, path)?;
            let members = export_children(store, path, &children, fuel - 1, t)?;
            let inner = JsonVal::Object(members);
            let mut outer: Vec<(String, JsonVal)> = Vec::new();
            let ghost im = inner.model();
            outer.push((dir_word(), inner));
            let o = JsonVal::Object(outer);
            proof {
                lemma_json_model_parts(inner);
                lemma_json_model_parts(o);
                assert(member_models(outer@) =~= seq![(word_dir(), im)]);
            }
            Ok(o)
        },
        EntryKind::Value => match entry.value {
            Some(v) => Ok(value_to_json(&v, t)),
            None => Ok(JsonVal::Null),
        },
    }
}

fn export_children<T: Storage>(
    store: &T,
    path: &DbPath,
    children: &Vec<(String, EntryKind)>,
    fuel: usize,
    t: &FloatTexts,
) -> (r: Result<Vec<(String, JsonVal)>, NsError>)
    ensures
        store.reliable() ==> !storage_failed(r),
        store.reads_ok() ==> !storage_failed(r),
        storage_failed(r) || match spec_export_children(store.kv(), path@, listing_model(children@), fuel as nat, texts_model(t@)) {
            Ok(ms) => r matches Ok(x) && member_models(x@) == ms,
            Err(e) => r matches Err(x) && x.model() == e,
        },
    decreases fuel, children@.len() + 1,
{
    let ghost kv = store.kv();
    let ghost cm = listing_model(children@);
    let ghost tm = texts_model(t@);
    let mut out: Vec<(String, JsonVal)> = Vec::new();
    let mut i: usize = 0;
    assert(cm.take(0) =~= Seq::<(Seq<char>, EntryKind)>::empty());
    assert(member_models(out@) =~= Seq::<(Seq<char>, JsonModel)>::empty());
    while i < children.len()
        invariant
            i <= children@.len(),
            kv == store.kv(),
            cm == listing_model(children@),
            tm == texts_model(t@),
            spec_export_children(kv, path@, cm.take(i as int), fuel as nat, tm) == Ok::<Seq<(Seq<char>, JsonModel)>, NsErr>(
                member_models(out@),
            ),
        decreases children@.len() - i,
    {
        assert(cm.take(i + 1).drop_last() =~= cm.take(i as int));
        assert(cm.take(i + 1).last() == cm[i as int]);
        let child = match path.join(children[i].0.as_str()) {
            Ok(c) => c,
            Err(e) => {
                proof {
                    lemma_export_children_err(kv, path@, cm, fuel as nat, tm, i + 1);
                }
                return Err(NsError::from_path(e));
            },
        };
        let body = match export_rec(store, &child, fuel, t) {
            Ok(b) => b,
            Err(e) => {
                proof {
                    if !storage_failed(Err::<(), NsError>(e)) {
                        lemma_export_children_err(kv, path@, cm, fuel as nat, tm, i + 1);
                    }
                }
                return Err(e);
            },
        };
        let ghost before = out@;
        let ghost bm = body.model();
        out.push((children[i].0.clone(), body));
        assert(member_models(out@) =~= member_models(before).push((cm[i as int].0, bm)));
        i = i + 1;
    }
    assert(cm.take(i as int) =~= cm);
    Ok(out)
}

/// The id of the directory that holds `path`'s last segment.
fn parent_dir_in<T: Storage>(store: &T, path: &DbPath) -> (r: Result<u64, NsError>)
    requires
        path@.len() > 0,
    ensures
        store.reliable() ==> !storage_failed(r),
        store.reads_ok() ==> !storage_failed(r),
        agrees(r, spec_parent_dir(store.kv(), path@), |x: u64| x),
{
    let parent = match path.parent() {
        Some(p) => p,
        None => {
            return Err(NsError::Invalid(text("no parent")));
        },
    };
    match resolve_in(store, &parent) {
        Ok((pid, NodeRecord::Dir)) => Ok(pid),
        Ok((_, NodeRecord::Value(_))) => Err(NsError::NotDirectory(parent.as_str())),
        Err(NsError::NotFound(_)) => Err(NsError::ParentMissing(parent.as_str())),
        Err(e) => Err(e),
    }
}

pub(crate) fn mkdir_in<'a, S: Storage>(ov: &mut Overlay<'a, S>, path: &DbPath, indexed: bool) -> (r: Result<(), NsError>)
    ensures
        old(ov).reliable() ==> !storage_failed(r),
        final(ov).reliable() == old(ov).reliable(),
        final(ov).reads_ok() == old(ov).reads_ok(),
        staged_agrees(r, old(ov).kv(), final(ov).kv(), spec_mkdir(old(ov).kv(), path@, indexed)),
        final(ov).base_kv() == old(ov).base_kv(),
{
    if path.is_root() {
        return Ok(());
    }
    let present = if indexed {
        exists_in(&*ov, path)?
    } else {
        match resolve_in(&*ov, path) {
            Ok(_) => true,
            Err(NsError::Storage(m)) => {
                return Err(NsError::Storage(m));
            },
            Err(_) => false,
        }
    };
    if present {
        return Err(NsError::AlreadyExists(path.as_str()));
    }
    let parent_id = parent_dir_in(&*ov, path)?;
    let id = next_id_in(&*ov)?;
    let name = path.segment(path.depth() - 1);
    let mut batch = WriteBatch::new();
    batch.put(meta_next_id(), encode_id(id + 1));
    batch.put(node_key(id), encode_dir_node());
    batch.put(child_key(parent_id, name.as_str()), encode_id(id));
    if indexed {
        batch.put(type_index_key("directory", id), str_bytes(path.as_str().as_str()));
    }
    proof {
        let ghost b = batch@;
        let ghost kv = old(ov).kv();
        lemma_apply_empty(kv);
        lemma_apply_push(kv, b.take(0), b[0]);
        lemma_apply_push(kv, b.take(1), b[1]);
        lemma_apply_push(kv, b.take(2), b[2]);
        assert(b.take(0).push(b[0]) =~= b.take(1));
        assert(b.take(1).push(b[1]) =~= b.take(2));
        assert(b.take(0) =~= Seq::<OpModel>::empty());
        if indexed {
            lemma_apply_push(kv, b.take(3), b[3]);
            assert(b.take(2).push(b[2]) =~= b.take(3));
            assert(b.take(3).push(b[3]) =~= b);
        } else {
            assert(b.take(2).push(b[2]) =~= b);
        }
    }
    ov.stage(batch);
    Ok(())
}

pub(crate) fn set_in<'a, S: Storage>(ov: &mut Overlay<'a, S>, path: &DbPath, value: Value, indexed: bool) -> (r: Result<(), NsError>)
    ensures
        old(ov).reliable() ==> !storage_failed(r),
        final(ov).reliable() == old(ov).reliable(),
        final(ov).reads_ok() == old(ov).reads_ok(),
        staged_agrees(
            r,
            old(ov).kv(),
            final(ov).kv(),
            spec_set(old(ov).kv(), path@, value.model(), indexed),
        ),
        final(ov).base_kv() == old(ov).base_kv(),
        path@.len() == 0 ==> (r matches Err(NsError::Invalid(_))) && final(ov).kv() == old(ov).kv(),
{
    if path.is_root() {
        return Err(NsError::Invalid(text("cannot set value at root")));
    }
    let parent_id = parent_dir_in(&*ov, path)?;
    let name = path.segment(path.depth() - 1);
    let enc = encode(&value);
    let new_ty = value.typename();
    let ck = child_key(parent_id, name.as_str());
    let pbytes = str_bytes(path.as_str().as_str());
    let mut batch = WriteBatch::new();
    let ghost kv = ov.kv();
    match sget(&*ov, ck.as_slice())? {
        Some(raw) => {
            let id = match decode_id(raw.as_slice()) {
                Some(id) => id,
                None => {
                    return Err(NsError::Invalid(text("bad child id")));
                },
            };
            let existing = match sget(&*ov, node_key(id).as_slice())? {
                Some(b) => b,
                None => {
                    return Err(NsError::Invalid(text("missing node")));
                },
            };
            match parse_node(existing.as_slice()) {
                Err(m) => {
                    return Err(NsError::Invalid(m));
                },
                Ok(NodeRecord::Dir) => {
                    return Err(NsError::IsDirectory(path.as_str()));
                },
                Ok(NodeRecord::Value(old_enc)) => {
                    if !indexed {
                        batch.put(node_key(id), encode_value_node(enc.as_slice()));
                        proof {
                            let b = batch@;
                            lemma_apply_empty(kv);
                            lemma_apply_push(kv, b.take(0), b[0]);
                            assert(b.take(0).push(b[0]) =~= b);
                            assert(b.take(0) =~= Seq::<OpModel>::empty());
                        }
                    } else {
                        let old = match decode(old_enc.as_slice()) {
                            Ok(v) => v,
                            Err(e) => {
                                return Err(NsError::from_codec(e));
                            },
                        };
                        let old_ty = old.typename();
                        let same = crate::order::compare_str(old_ty, new_ty) == crate::order::Order::Equal;
                        if !same {
                            batch.delete(type_index_key(old_ty, id));
                        }
                        batch.put(node_key(id), encode_value_node(enc.as_slice()));
                        batch.put(type_index_key(new_ty, id), pbytes);
                        proof {
                            let b = batch@;
                            lemma_apply_empty(kv);
                            if !same {
                                lemma_apply_push(kv, b.take(0), b[0]);
                                lemma_apply_push(kv, b.take(1), b[1]);
                                lemma_apply_push(kv, b.take(2), b[2]);
                                assert(b.take(0).push(b[0]) =~= b.take(1));
                                assert(b.take(1).push(b[1]) =~= b.take(2));
                                assert(b.take(2).push(b[2]) =~= b);
                            } else {
                                lemma_apply_push(kv, b.take(0), b[0]);
                                lemma_apply_push(kv, b.take(1), b[1]);
                                assert(b.take(0).push(b[0]) =~= b.take(1));
                                assert(b.take(1).push(b[1]) =~= b);
                            }
                            assert(b.take(0) =~= Seq::<OpModel>::empty());
                        }
                    }
                },
            }
        },
        None => {
            let id = next_id_in(&*ov)?;
            batch.put(meta_next_id(), encode_id(id + 1));
            batch.put(node_key(id), encode_value_node(enc.as_slice()));
            batch.put(ck, encode_id(id));
            if indexed {
                batch.put(type_index_key(new_ty, id), pbytes);
            }
            proof {
                let b = batch@;
                lemma_apply_empty(kv);
                lemma_apply_push(kv, b.take(0), b[0]);
                lemma_apply_push(kv, b.take(1), b[1]);
                lemma_apply_push(kv, b.take(2), b[2]);
                assert(b.take(0).push(b[0]) =~= b.take(1));
                assert(b.take(1).push(b[1]) =~= b.take(2));
                assert(b.take(0) =~= Seq::<OpModel>::empty());
                if indexed {
                    lemma_apply_push(kv, b.take(3), b[3]);
                    assert(b.take(2).push(b[2]) =~= b.take(3));
                    assert(b.take(3).push(b[3]) =~= b);
                } else {
                    assert(b.take(2).push(b[2]) =~= b);
                }
            }
        },
    }
    ov.stage(batch);
    Ok(())
}

/// The type name under which a node is indexed.
fn node_type_name(rec: &NodeRecord) -> (r: Result<&'static str, NsError>)
    ensures
        match spec_node_type(rec.model()) {
            Ok(t) => r matches Ok(x) && x@ == t,
            Err(e) => r matches Err(x) && x.model() == e,
        },
{
    match rec {
        NodeRecord::Dir => Ok("directory"),
        NodeRecord::Value(enc) => match decode(enc.as_slice()) {
            Ok(v) => Ok(v.typename()),
            Err(e) => Err(NsError::from_codec(e)),
        },
    }
}

pub(crate) fn delete_in<'a, S: Storage>(ov: &mut Overlay<'a, S>, path: &DbPath, indexed: bool) -> (r: Result<(), NsError>)
    ensures
        old(ov).reliable() ==> !storage_failed(r),
        final(ov).reliable() == old(ov).reliable(),
        final(ov).reads_ok() == old(ov).reads_ok(),
        staged_agrees(r, old(ov).kv(), final(ov).kv(), spec_delete(old(ov).kv(), path@, indexed)),
        final(ov).base_kv() == old(ov).base_kv(),
{
    if path.is_root() {
        return Err(NsError::Invalid(text("cannot delete root")));
    }
    let (id, rec) = resolve_in(&*ov, path)?;
    let ghost kv = ov.kv();
    if let NodeRecord::Dir = rec {
        let children = sscan(&*ov, child_prefix(id).as_slice())?;
        if children.len() != 0 {
            proof {
                let rv = rows_view(children@);
                assert(has_prefix(rv[0].0, child_prefix_spec(id)) && kv.contains_key(rv[0].0));
            }
            let mut msg = text("directory not empty: ");
            msg.append(path.as_str().as_str());
            return Err(NsError::Invalid(msg));
        }
        proof {
            assert(!has_children(kv, id)) by {
                if has_children(kv, id) {
                    let k = choose|k: Seq<u8>| kv.contains_key(k) && has_prefix(k, child_prefix_spec(id));
                    let rv = rows_view(children@);
                    assert(exists|i: int| 0 <= i < rv.len() && #[trigger] rv[i].0 == k);
                }
            }
        }
    }
    let parent = match path.parent() {
        Some(p) => p,
        None => {
            return Err(NsError::Invalid(text("no parent")));
        },
    };
    let name = path.segment(path.depth() - 1);
    let (parent_id, _) = resolve_in(&*ov, &parent)?;
    let mut batch = WriteBatch::new();
    if indexed {
        let ty = node_type_name(&rec)?;
        batch.delete(type_index_key(ty, id));
    }
    batch.delete(child_key(parent_id, name.as_str()));
    batch.delete(node_key(id));
    proof {
        let b = batch@;
        lemma_apply_empty(kv);
        lemma_apply_push(kv, b.take(0), b[0]);
        lemma_apply_push(kv, b.take(1), b[1]);
        assert(b.take(0).push(b[0]) =~= b.take(1));
        assert(b.take(0) =~= Seq::<OpModel>::empty());
        if indexed {
            lemma_apply_push(kv, b.take(2), b[2]);
            assert(b.take(1).push(b[1]) =~= b.take(2));
            assert(b.take(2).push(b[2]) =~= b);
        } else {
            assert(b.take(1).push(b[1]) =~= b);
        }
    }
    ov.stage(batch);
    Ok(())
}

/// `path`'s text followed by " is not a " and a type name.
fn not_a_error(path: &DbPath, what: &str) -> (e: NsError)
    ensures
        e.model() == not_a(path@, what@),
{
    let mut msg = path.as_str();
    msg.append(" is not a ");
    msg.append(what);
    NsError::TypeMismatch(msg)
}

/// The value to update at `path`: `None` when nothing is there.
fn current_in<T: Storage>(store: &T, path: &DbPath) -> (r: Result<Option<Value>, NsError>)
    ensures
        store.reliable() ==> !storage_failed(r),
        store.reads_ok() ==> !storage_failed(r),
        agrees(
            r,
            spec_current(store.kv(), path@),
            |o: Option<Value>|
                match o {
                    Some(v) => Some(v.model()),
                    None => None,
                },
        ),
{
    match get_in(store, path) {
        Ok(e) => match e.value {
            Some(v) => Ok(Some(v)),
            None => Err(NsError::IsDirectory(path.as_str())),
        },
        Err(NsError::NotFound(_)) => Ok(None),
        Err(e) => Err(e),
    }
}

pub(crate) fn hash_set_in<'a, S: Storage>(ov: &mut Overlay<'a, S>, path: &DbPath, key: String, value: Value, indexed: bool) -> (r: Result<(), NsError>)
    ensures
        old(ov).reliable() ==> !storage_failed(r),
        final(ov).reliable() == old(ov).reliable(),
        final(ov).reads_ok() == old(ov).reads_ok(),
        staged_agrees(
            r,
            old(ov).kv(),
            final(ov).kv(),
            spec_hash_set(old(ov).kv(), path@, key@, value.model(), indexed),
        ),
        final(ov).base_kv() == old(ov).base_kv(),
{
    let cur = current_in(&*ov, path)?;
    proof {
        if cur is Some {
            lemma_model_parts(cur->0);
        }
    }
    let mut map = match cur {
        None => StrMap::new(),
        Some(Value::Hash(m)) => m,
        Some(_) => {
            return Err(not_a_error(path, "hash"));
        },
    };
    map.insert(key, value);
    let v = Value::Hash(map);
    proof {
        lemma_model_parts(v);
    }
    set_in(ov, path, v, indexed)
}

pub(crate) fn list_push_in<'a, S: Storage>(ov: &mut Overlay<'a, S>, path: &DbPath, value: Value, indexed: bool) -> (r: Result<(), NsError>)
    ensures
        old(ov).reliable() ==> !storage_failed(r),
        final(ov).reliable() == old(ov).reliable(),
        final(ov).reads_ok() == old(ov).reads_ok(),
        staged_agrees(
            r,
            old(ov).kv(),
            final(ov).kv(),
            spec_list_push(old(ov).kv(), path@, value.model(), indexed),
        ),
        final(ov).base_kv() == old(ov).base_kv(),
{
    let ghost vm = value.model();
    let cur = current_in(&*ov, path)?;
    proof {
        if cur is Some {
            lemma_model_parts(cur->0);
        }
    }
    let mut items = match cur {
        None => Vec::new(),
        Some(Value::List(v)) => v,
        Some(_) => {
            return Err(not_a_error(path, "list"));
        },
    };
    let ghost before = items@;
    items.push(value);
    let v = Value::List(items);
    proof {
        lemma_model_parts(v);
        assert(models(before.push(value)) =~= models(before).push(vm));
        assert(models(Seq::<Value>::empty().push(value)) =~= seq![vm]);
    }
    set_in(ov, path, v, indexed)
}

pub(crate) fn set_add_in<'a, S: Storage>(ov: &mut Overlay<'a, S>, path: &DbPath, value: Value, indexed: bool) -> (r: Result<(), NsError>)
    ensures
        old(ov).reliable() ==> !storage_failed(r),
        final(ov).reliable() == old(ov).reliable(),
        final(ov).reads_ok() == old(ov).reads_ok(),
        staged_agrees(
            r,
            old(ov).kv(),
            final(ov).kv(),
            spec_set_add(old(ov).kv(), path@, value.model(), indexed),
        ),
        final(ov).base_kv() == old(ov).base_kv(),
{
    let ghost vm = value.model();
    let cur = current_in(&*ov, path)?;
    proof {
        if cur is Some {
            lemma_model_parts(cur->0);
        }
    }
    let mut members = match cur {
        None => Vec::new(),
        Some(Value::SetOf(v)) => v,
        Some(_) => {
            return Err(not_a_error(path, "set"));
        },
    };
    let ghost before = models(members@);
    let payload = encode_payload(&value);
    let mut found = false;
    let mut i: usize = 0;
    while i < members.len()
        invariant
            i <= members@.len(),
            before == models(members@),
            payload@ == enc_value(vm),
            found <==> exists|j: int| 0 <= j < i && enc_value(#[trigger] before[j]) == enc_value(vm),
        decreases members@.len() - i,
    {
        let p = encode_payload(&members[i]);
        assert(before[i as int] == members@[i as int].model());
        if crate::order::compare_bytes(p.as_slice(), payload.as_slice()) == crate::order::Order::Equal {
            found = true;
        }
        i = i + 1;
    }
    if !found {
        members.push(value);
        proof {
            assert(models(members@) =~= before.push(vm));
        }
    }
    proof {
        if before.len() == 0 {
            assert(before.push(vm) =~= seq![vm]);
        }
    }
    let v = Value::SetOf(members);
    proof {
        lemma_model_parts(v);
    }
    set_in(ov, path, v, indexed)
}

pub(crate) fn tree_set_in<'a, S: Storage>(ov: &mut Overlay<'a, S>, path: &DbPath, key: Scalar, value: Value, indexed: bool) -> (r: Result<(), NsError>)
    ensures
        old(ov).reliable() ==> !storage_failed(r),
        final(ov).reliable() == old(ov).reliable(),
        final(ov).reads_ok() == old(ov).reads_ok(),
        staged_agrees(
            r,
            old(ov).kv(),
            final(ov).kv(),
            spec_tree_set(old(ov).kv(), path@, key.model(), value.model(), indexed),
        ),
        final(ov).base_kv() == old(ov).base_kv(),
{
    let cur = current_in(&*ov, path)?;
    proof {
        if cur is Some {
            lemma_model_parts(cur->0);
        }
    }
    let mut map = match cur {
        None => ScalarMap::new(),
        Some(Value::Tree(m)) => m,
        Some(_) => {
            return Err(not_a_error(path, "tree"));
        },
    };
    map.insert(key, value);
    let v = Value::Tree(map);
    proof {
        lemma_model_parts(v);
    }
    set_in(ov, path, v, indexed)
}

impl<S: Storage> Database<S> {
    /// The key-value pairs of the underlying store.
    pub closed spec fn kv(&self) -> Kv {
        self.store.kv()
    }

    /// Whether the store under the database never fails.
    pub closed spec fn reliable(&self) -> bool {
        self.store.reliable()
    }

    /// Whether reads of the store under the database never fail.
    pub closed spec fn reads_ok(&self) -> bool {
        self.store.reads_ok()
    }

    /// How many batches the database has committed to its store.
    pub closed spec fn commits(&self) -> nat {
        self.store.commits()
    }

    /// A database whose store never fails is read without failure.
    pub proof fn lemma_reliable_reads(&self)
        requires
            self.reliable(),
        ensures
            self.reads_ok(),
    {
        self.store.lemma_reliable_reads();
    }

    pub fn store(&self) -> (s: &S)
        ensures
            s.kv() == self.kv(),
            s.reliable() == self.reliable(),
            s.reads_ok() == self.reads_ok(),
            s.commits() == self.commits(),
    {
        &self.store
    }

    pub fn store_mut(&mut self) -> (s: &mut S)
        ensures
            s.kv() == old(self).kv(),
            final(self).kv() == final(s).kv(),
            s.reliable() == old(self).reliable(),
            final(self).reliable() == final(s).reliable(),
            s.reads_ok() == old(self).reads_ok(),
            final(self).reads_ok() == final(s).reads_ok(),
            s.commits() == old(self).commits(),
            final(self).commits() == final(s).commits(),
    {
        &mut self.store
    }

    pub fn into_store(self) -> (s: S)
        ensures
            s.kv() == self.kv(),
            s.reliable() == self.reliable(),
            s.reads_ok() == self.reads_ok(),
            s.commits() == self.commits(),
    {
        self.store
    }

    /// Commit the operations a staged update produced; nothing to commit is
    /// success.
    pub(crate) fn commit_batch(&mut self, batch: WriteBatch) -> (r: Result<(), NsError>)
        ensures
            old(self).reliable() ==> !storage_failed(r),
            final(self).reliable() == old(self).reliable(),
            final(self).reads_ok() == old(self).reads_ok(),
            final(self).reads_ok() == old(self).reads_ok(),
            final(self).commits() == old(self).commits() + if batch@.len() == 0 {
                0nat
            } else {
                1nat
            },
            r is Ok ==> final(self).kv() == apply_ops(old(self).kv(), batch@),
            r is Err ==> storage_failed(r) && (final(self).kv() == old(self).kv() || final(self).kv()
                == apply_ops(old(self).kv(), batch@)),
    {
        if batch.is_empty() {
            proof {
                lemma_apply_empty(self.kv());
                assert(batch@ =~= Seq::<OpModel>::empty());
            }
            return Ok(());
        }
        scommit(&mut self.store, batch)
    }

    pub fn exists_path(&self, path: &DbPath) -> (r: Result<bool, NsError>)
        ensures
            self.reliable() ==> !storage_failed(r),
            self.reads_ok() ==> !storage_failed(r),
            agrees(r, spec_exists(self.kv(), path@), |x: bool| x),
    {
        exists_in(&self.store, path)
    }

    pub fn get(&self, path: &DbPath) -> (r: Result<Entry, NsError>)
        ensures
            self.reliable() ==> !storage_failed(r),
            self.reads_ok() ==> !storage_failed(r),
            agrees(r, spec_get(self.kv(), path@), |e: Entry| entry_model(e)),
            r matches Ok(e) ==> e.path@ == path@,
    {
        get_in(&self.store, path)
    }

    /// The children of the directory at `path` with their kinds, sorted by
    /// name.
    pub fn list(&self, path: &DbPath) -> (r: Result<Vec<(String, EntryKind)>, NsError>)
        ensures
            self.reliable() ==> !storage_failed(r),
            self.reads_ok() ==> !storage_failed(r),
            agrees(r, spec_list(self.kv(), path@), |v: Vec<(String, EntryKind)>| listing_model(v@)),
            r matches Ok(v) ==> names_increasing(listing_model(v@)),
    {
        list_in(&self.store, path)
    }

    /// Paths of all nodes of type `ty` in the type index, sorted by
    /// path string.
    pub fn paths_with_type(&self, ty: &str) -> (r: Result<Vec<DbPath>, NsError>)
        ensures
            self.reliable() ==> !storage_failed(r),
            self.reads_ok() ==> !storage_failed(r),
            storage_failed(r) || match spec_indexed_paths(self.kv(), ty@) {
                Ok(ps) => r matches Ok(v) && path_models(v@).to_multiset() == ps.to_multiset()
                    && paths_sorted(path_models(v@)),
                Err(e) => r matches Err(x) && x.model() == e,
            },
            index_faithful(self.kv()) && !ty@.contains('/') && !storage_failed(r) ==> (r matches Ok(v)
                && forall|q: Seq<Seq<char>>|
                #![trigger path_models(v@).contains(q)]
                path_models(v@).contains(q) <==> path_like(q) && typed_at(self.kv(), q, ty@)),
            !storage_failed(r) ==> exists|rows: Seq<(Seq<u8>, Seq<u8>)>|
                is_prefix_scan(self.kv(), type_index_prefix_spec(ty@), rows),
    {
        let r = indexed_paths_in(&self.store, ty);
        proof {
            let kv = self.kv();
            if index_faithful(kv) && !ty@.contains('/') && !storage_failed(r) {
                lemma_paths_exact_listed(kv, ty@, r);
            }
        }
        r
    }

    /// Every value in the namespace with its path, depth first with children
    /// in name order.
    pub fn walk_values(&self) -> (r: Result<Vec<(DbPath, Value)>, NsError>)
        ensures
            self.reliable() ==> !storage_failed(r),
            self.reads_ok() ==> !storage_failed(r),
            storage_failed(r) || match spec_walk(self.kv(), Seq::empty(), walk_fuel()) {
                Ok(vs) => r matches Ok(v) && walk_models(v@) == vs,
                Err(e) => r matches Err(x) && x.model() == e,
            },
    {
        let mut out: Vec<(DbPath, Value)> = Vec::new();
        let root = DbPath::root();
        walk_rec(&self.store, &root, usize::MAX, &mut out)?;
        assert(walk_models(Seq::<(DbPath, Value)>::empty()) =~= Seq::<(Seq<Seq<char>>, ValueModel)>::empty());
        Ok(out)
    }

    /// Remove every type-index entry and index each node reachable from the
    /// root under its type, with its path.
    pub fn rebuild_type_index(&mut self) -> (r: Result<(), NsError>)
        ensures
            old(self).reliable() ==> !storage_failed(r),
            final(self).reliable() == old(self).reliable(),
            final(self).reads_ok() == old(self).reads_ok(),
            mutation_agrees(r, old(self).kv(), final(self).kv(), spec_rebuild(old(self).kv())),
    {
        let ghost kv = self.kv();
        let mut batch = WriteBatch::new();
        let prefix = type_index_all();
        let rows = sscan(&self.store, prefix.as_slice())?;
        let ghost rv = rows_view(rows@);
        proof {
            lemma_scan_rows(kv, prefix@, rv);
        }
        let mut i: usize = 0;
        assert(deletes_of(rv.take(0)) =~= batch@);
        while i < rows.len()
            invariant
                i <= rows@.len(),
                rv == rows_view(rows@),
                batch@ == deletes_of(rv.take(i as int)),
            decreases rows@.len() - i,
        {
            batch.delete(vstd::slice::slice_to_vec(rows[i].0.as_slice()));
            assert(deletes_of(rv.take(i + 1)) =~= deletes_of(rv.take(i as int)).push(OpModel::Delete(rv[i as int].0)));
            i = i + 1;
        }
        assert(rv.take(i as int) =~= rv);
        let root = DbPath::root();
        index_rec(&self.store, &root, usize::MAX, &mut batch)?;
        self.commit_batch(batch)
    }

    /// Open a database over `store`: create the root directory and the id
    /// counter when missing, and rebuild the type index unless it is at the
    /// current version.
    pub fn open(store: S) -> (r: Result<Self, NsError>)
        ensures
            store.reliable() ==> !storage_failed(r),
            r matches Ok(db) ==> db.reliable() == store.reliable(),
            r matches Ok(db) ==> db.reads_ok() == store.reads_ok(),
            storage_failed(r) || match spec_open(store.kv()) {
                Ok(m) => r matches Ok(db) && db.kv() == m,
                Err(e) => r matches Err(x) && x.model() == e,
            },
    {
        let ghost kv = store.kv();
        let mut store = store;
        let root_node = sget(&store, node_key(ROOT_ID).as_slice())?;
        if root_node.is_none() {
            let mut batch = WriteBatch::new();
            batch.put(node_key(ROOT_ID), encode_dir_node());
            batch.put(meta_next_id(), encode_id(ROOT_ID + 1));
            let slash = vec![47u8];
            assert(slash@ =~= seq![47u8]);
            batch.put(type_index_key("directory", ROOT_ID), slash);
            proof {
                let b = batch@;
                lemma_apply_empty(kv);
                lemma_apply_push(kv, b.take(0), b[0]);
                lemma_apply_push(kv, b.take(1), b[1]);
                lemma_apply_push(kv, b.take(2), b[2]);
                assert(b.take(0).push(b[0]) =~= b.take(1));
                assert(b.take(1).push(b[1]) =~= b.take(2));
                assert(b.take(2).push(b[2]) =~= b);
                assert(b.take(0) =~= Seq::<OpModel>::empty());
            }
            scommit(&mut store, batch)?;
        } else {
            let counter = sget(&store, meta_next_id().as_slice())?;
            if counter.is_none() {
                let mut batch = WriteBatch::new();
                batch.put(meta_next_id(), encode_id(ROOT_ID + 1));
                proof {
                    let b = batch@;
                    lemma_apply_empty(kv);
                    lemma_apply_push(kv, b.take(0), b[0]);
                    assert(b.take(0).push(b[0]) =~= b);
                    assert(b.take(0) =~= Seq::<OpModel>::empty());
                }
                scommit(&mut store, batch)?;
            }
        }
        let mut db = Database { store };
        assert(db.kv() == spec_open_base(kv));
        let vkey = index_version();
        let current = match sget(&db.store, vkey.as_slice())? {
            Some(v) => crate::order::compare_bytes(v.as_slice(), encode_id(1).as_slice()) == crate::order::Order::Equal,
            None => false,
        };
        if !current {
            db.rebuild_type_index()?;
            let mut batch = WriteBatch::new();
            batch.put(vkey, encode_id(1));
            proof {
                let b = batch@;
                lemma_apply_empty(db.kv());
                lemma_apply_push(db.kv(), b.take(0), b[0]);
                assert(b.take(0).push(b[0]) =~= b);
                assert(b.take(0) =~= Seq::<OpModel>::empty());
            }
            db.commit_batch(batch)?;
        }
        Ok(db)
    }

    /// The namespace as a JSON document, with the decimal text of floats
    /// taken from `floats`.
    pub fn export_tree(&self, floats: &FloatTexts) -> (r: Result<JsonVal, NsError>)
        ensures
            self.reliable() ==> !storage_failed(r),
            self.reads_ok() ==> !storage_failed(r),
            storage_failed(r) || match spec_export(self.kv(), Seq::empty(), walk_fuel(), texts_model(floats@)) {
                Ok(j) => r matches Ok(x) && x.model() == j,
                Err(e) => r matches Err(x) && x.model() == e,
            },
    {
        let root = DbPath::root();
        export_rec(&self.store, &root, usize::MAX, floats)
    }

    /// The namespace as JSON text (see [`Database::export_tree`]).
    pub fn export_json(&self, floats: &FloatTexts) -> (r: Result<String, NsError>)
        ensures
            self.reliable() ==> !storage_failed(r),
            self.reads_ok() ==> !storage_failed(r),
            storage_failed(r) || match spec_export(self.kv(), Seq::empty(), walk_fuel(), texts_model(floats@)) {
                Ok(j) => r matches Ok(s) && s@ == json_text(j),
                Err(e) => r matches Err(x) && x.model() == e,
            },
    {
        let tree = self.export_tree(floats)?;
        Ok(render_json(&tree))
    }

    /// Import a JSON document: the root must be an object; a directory is an
    /// object with one member `__dir`. Floats take their bits from `floats`.
    /// Each directory and value is committed on its own.
    pub fn import_json(&mut self, json: &str, floats: &FloatBits) -> (r: Result<(), NsError>)
        ensures
            old(self).reliable() ==> !storage_failed(r),
            final(self).reliable() == old(self).reliable(),
            final(self).reads_ok() == old(self).reads_ok(),
            storage_failed(r) || match spec_parse_json(trim_ws(json@)) {
                Err(m) => r matches Err(x) && x.model() == NsErr::Invalid(m) && final(self).kv() == old(self).kv(),
                Ok(j) => {
                    let s = spec_import(old(self).kv(), Seq::empty(), j, true, bits_model(floats@));
                    final(self).kv() == s.0 && match s.1 {
                        Ok(()) => r is Ok,
                        Err(e) => r matches Err(x) && x.model() == e,
                    }
                },
            },
    {
        let trimmed = trim_str(json);
        let doc = match parse_json_value(trimmed.as_str()) {
            Ok(d) => d,
            Err(m) => {
                return Err(NsError::Invalid(m));
            },
        };
        let root = DbPath::root();
        self.import_node(&root, &doc, true, floats)
    }

    #[verifier::spinoff_prover]
    #[verifier::rlimit(40)]
    fn import_node(&mut self, path: &DbPath, v: &JsonVal, at_root: bool, b: &FloatBits) -> (r: Result<(), NsError>)
        ensures
            old(self).reliable() ==> !storage_failed(r),
            final(self).reliable() == old(self).reliable(),
            final(self).reads_ok() == old(self).reads_ok(),
            storage_failed(r) || {
                let s = spec_import(old(self).kv(), path@, v.model(), at_root, bits_model(b@));
                final(self).kv() == s.0 && match s.1 {
                    Ok(()) => r is Ok,
                    Err(e) => r matches Err(x) && x.model() == e,
                }
            },
        decreases v, 1int, 0int,
    {
        proof {
            lemma_json_model_parts(*v);
            reveal_strlit("__dir");
            assert("__dir"@ =~= word_dir());
        }
        if let JsonVal::Object(ms) = v {
            if ms.len() == 1 && crate::order::compare_str(ms[0].0.as_str(), "__dir") == crate::order::Order::Equal {
                assert(decreases_to!(v => ms));
                assert(decreases_to!(ms => ms@[0]));
                assert(decreases_to!(ms@[0] => ms@[0].1));
                proof {
                    lemma_json_model_parts(ms@[0].1);
                }
                match &ms[0].1 {
                    JsonVal::Object(_) => {
                        if !at_root && !path.is_root() {
                            if !self.exists_path(path)? {
                                self.mkdir(path)?;
                            }
                        }
                        return self.import_members(path, &ms[0].1, b);
                    },
                    _ => {
                        return Err(NsError::Invalid(text("__dir must be object")));
                    },
                }
            }
            if at_root {
                return self.import_members(path, v, b);
            }
        } else if at_root {
            return Err(NsError::Invalid(text("root import must be object")));
        }
        let val = match json_to_value(v, b) {
            Ok(x) => x,
            Err(e) => {
                return Err(e);
            },
        };
        self.set(path, val)
    }

    #[verifier::loop_isolation(false)]
    #[verifier::spinoff_prover]
    #[verifier::rlimit(40)]
    fn import_members(&mut self, path: &DbPath, obj: &JsonVal, b: &FloatBits) -> (r: Result<(), NsError>)
        ensures
            old(self).reliable() ==> !storage_failed(r),
            final(self).reliable() == old(self).reliable(),
            final(self).reads_ok() == old(self).reads_ok(),
            storage_failed(r) || {
                let s = spec_import_members(old(self).kv(), path@, obj.model(), 0, bits_model(b@));
                final(self).kv() == s.0 && match s.1 {
                    Ok(()) => r is Ok,
                    Err(e) => r matches Err(x) && x.model() == e,
                }
            },
        decreases obj, 0int, 0int,
    {
        proof {
            lemma_json_model_parts(*obj);
        }
        let ghost om = obj.model();
        let ghost bm = bits_model(b@);
        let ghost kv0 = self.kv();
        let ghost rel0 = self.reliable();
        let ghost rok0 = self.reads_ok();
        if let JsonVal::Object(ms) = obj {
            let mut i: usize = 0;
            while i < ms.len()
                invariant
                    i <= ms@.len(),
                    self.reliable() == rel0,
                    self.reads_ok() == rok0,
                    om == obj.model(),
                    obj.model() == JsonModel::Object(member_models(ms@)),
                    bm == bits_model(b@),
                    spec_import_members(kv0, path@, om, 0, bm) == spec_import_members(self.kv(), path@, om, i as nat, bm),
                decreases ms@.len() - i,
            {
                let cp = if path.is_root() {
                    let mut s = text("/");
                    s.append(ms[i].0.as_str());
                    proof {
                        reveal_strlit("/");
                    }
                    assert(s@ =~= seq!['/'] + ms@[i as int].0@);
                    DbPath::parse(s.as_str())
                } else {
                    path.join(ms[i].0.as_str())
                };
                let cp = match cp {
                    Ok(p) => p,
                    Err(e) => {
                        return Err(NsError::from_path(e));
                    },
                };
                assert(decreases_to!(obj => ms));
                assert(decreases_to!(ms => ms@[i as int]));
                assert(decreases_to!(ms@[i as int] => ms@[i as int].1));
                self.import_node(&cp, &ms[i].1, false, b)?;
                i = i + 1;
            }
        }
        Ok(())
    }

    /// Create a directory; its parent must exist and be a directory.
    pub fn mkdir(&mut self, path: &DbPath) -> (r: Result<(), NsError>)
        ensures
            old(self).reliable() ==> !storage_failed(r),
            final(self).reliable() == old(self).reliable(),
            final(self).reads_ok() == old(self).reads_ok(),
            final(self).commits() <= old(self).commits() + 1,
            r is Err && !storage_failed(r) ==> final(self).commits() == old(self).commits(),
            mutation_agrees(r, old(self).kv(), final(self).kv(), spec_mkdir(old(self).kv(), path@, true)),
            path@.len() == 0 ==> r is Ok && final(self).kv() == old(self).kv(),
    {
        if path.is_root() {
            return Ok(());
        }
        let mut ov = Overlay::new(&self.store);
        mkdir_in(&mut ov, path, true)?;
        let batch = ov.into_batch();
        proof {
            ov.lemma_kv();
        }
        self.commit_batch(batch)
    }

    /// Set a value at `path`; the parent must be a directory. Replaces an
    /// existing value.
    pub fn set(&mut self, path: &DbPath, value: Value) -> (r: Result<(), NsError>)
        ensures
            old(self).reliable() ==> !storage_failed(r),
            final(self).reliable() == old(self).reliable(),
            final(self).reads_ok() == old(self).reads_ok(),
            final(self).commits() <= old(self).commits() + 1,
            r is Err && !storage_failed(r) ==> final(self).commits() == old(self).commits(),
            mutation_agrees(
                r,
                old(self).kv(),
                final(self).kv(),
                spec_set(old(self).kv(), path@, value.model(), true),
            ),
            path@.len() == 0 ==> (r matches Err(NsError::Invalid(_))) && final(self).kv() == old(self).kv(),
    {
        if path.is_root() {
            return Err(NsError::Invalid(text("cannot set value at root")));
        }
        let mut ov = Overlay::new(&self.store);
        set_in(&mut ov, path, value, true)?;
        let batch = ov.into_batch();
        proof {
            ov.lemma_kv();
        }
        self.commit_batch(batch)
    }

    /// Delete a value or an empty directory.
    pub fn delete(&mut self, path: &DbPath) -> (r: Result<(), NsError>)
        ensures
            old(self).reliable() ==> !storage_failed(r),
            final(self).reliable() == old(self).reliable(),
            final(self).reads_ok() == old(self).reads_ok(),
            final(self).commits() <= old(self).commits() + 1,
            r is Err && !storage_failed(r) ==> final(self).commits() == old(self).commits(),
            mutation_agrees(r, old(self).kv(), final(self).kv(), spec_delete(old(self).kv(), path@, true)),
            path@.len() == 0 ==> (r matches Err(NsError::Invalid(_))) && final(self).kv() == old(self).kv(),
    {
        if path.is_root() {
            return Err(NsError::Invalid(text("cannot delete root")));
        }
        let mut ov = Overlay::new(&self.store);
        delete_in(&mut ov, path, true)?;
        let batch = ov.into_batch();
        proof {
            ov.lemma_kv();
        }
        self.commit_batch(batch)
    }

    /// Store `value` under `key` in the hash at `path`, creating the hash.
    pub fn hash_set(&mut self, path: &DbPath, key: &str, value: Value) -> (r: Result<(), NsError>)
        ensures
            old(self).reliable() ==> !storage_failed(r),
            final(self).reliable() == old(self).reliable(),
            final(self).reads_ok() == old(self).reads_ok(),
            final(self).commits() <= old(self).commits() + 1,
            r is Err && !storage_failed(r) ==> final(self).commits() == old(self).commits(),
            mutation_agrees(
                r,
                old(self).kv(),
                final(self).kv(),
                spec_hash_set(old(self).kv(), path@, key@, value.model(), true),
            ),
    {
        let mut ov = Overlay::new(&self.store);
        hash_set_in(&mut ov, path, key.to_owned(), value, true)?;
        let batch = ov.into_batch();
        proof {
            ov.lemma_kv();
        }
        self.commit_batch(batch)
    }

    /// The value under `key` in the hash at `path`.
    pub fn hash_get(&self, path: &DbPath, key: &str) -> (r: Result<Option<Value>, NsError>)
        ensures
            self.reliable() ==> !storage_failed(r),
            self.reads_ok() ==> !storage_failed(r),
            agrees(
                r,
                match spec_get(self.kv(), path@) {
                    Err(e) => Err(e),
                    Ok((_, Some(ValueModel::Hash(es)))) => Ok(str_lookup(es, key@)),
                    Ok((_, Some(_))) => Err(not_a(path@, "hash"@)),
                    Ok((_, None)) => Err(NsErr::IsDirectory(path_string(path@))),
                },
                |o: Option<Value>|
                    match o {
                        Some(v) => Some(v.model()),
                        None => None,
                    },
            ),
    {
        let e = get_in(&self.store, path)?;
        proof {
            if e.value is Some {
                lemma_model_parts(e.value->0);
            }
        }
        match e.value {
            Some(Value::Hash(m)) => match m.get(key) {
                Some(v) => Ok(Some(v.deep_clone())),
                None => Ok(None),
            },
            Some(_) => Err(not_a_error(path, "hash")),
            None => Err(NsError::IsDirectory(path.as_str())),
        }
    }

    /// Append `value` to the list at `path`, creating the list.
    pub fn list_push(&mut self, path: &DbPath, value: Value) -> (r: Result<(), NsError>)
        ensures
            old(self).reliable() ==> !storage_failed(r),
            final(self).reliable() == old(self).reliable(),
            final(self).reads_ok() == old(self).reads_ok(),
            final(self).commits() <= old(self).commits() + 1,
            r is Err && !storage_failed(r) ==> final(self).commits() == old(self).commits(),
            mutation_agrees(
                r,
                old(self).kv(),
                final(self).kv(),
                spec_list_push(old(self).kv(), path@, value.model(), true),
            ),
    {
        let mut ov = Overlay::new(&self.store);
        list_push_in(&mut ov, path, value, true)?;
        let batch = ov.into_batch();
        proof {
            ov.lemma_kv();
        }
        self.commit_batch(batch)
    }

    /// Add `value` to the set at `path` unless a member encodes the same,
    /// creating the set.
    pub fn set_add(&mut self, path: &DbPath, value: Value) -> (r: Result<(), NsError>)
        ensures
            old(self).reliable() ==> !storage_failed(r),
            final(self).reliable() == old(self).reliable(),
            final(self).reads_ok() == old(self).reads_ok(),
            final(self).commits() <= old(self).commits() + 1,
            r is Err && !storage_failed(r) ==> final(self).commits() == old(self).commits(),
            mutation_agrees(
                r,
                old(self).kv(),
                final(self).kv(),
                spec_set_add(old(self).kv(), path@, value.model(), true),
            ),
    {
        let mut ov = Overlay::new(&self.store);
        set_add_in(&mut ov, path, value, true)?;
        let batch = ov.into_batch();
        proof {
            ov.lemma_kv();
        }
        self.commit_batch(batch)
    }

    /// Store `value` under `key` in the tree at `path`, creating the tree.
    pub fn tree_set(&mut self, path: &DbPath, key: Scalar, value: Value) -> (r: Result<(), NsError>)
        ensures
            old(self).reliable() ==> !storage_failed(r),
            final(self).reliable() == old(self).reliable(),
            final(self).reads_ok() == old(self).reads_ok(),
            final(self).commits() <= old(self).commits() + 1,
            r is Err && !storage_failed(r) ==> final(self).commits() == old(self).commits(),
            mutation_agrees(
                r,
                old(self).kv(),
                final(self).kv(),
                spec_tree_set(old(self).kv(), path@, key.model(), value.model(), true),
            ),
    {
        let mut ov = Overlay::new(&self.store);
        tree_set_in(&mut ov, path, key, value, true)?;
        let batch = ov.into_batch();
        proof {
            ov.lemma_kv();
        }
        self.commit_batch(batch)
    }
}

} // verus!
