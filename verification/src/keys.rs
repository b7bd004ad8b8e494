//! Storage key layout of the namespace.

use vstd::prelude::*;
use vstd::utf8::encode_utf8;
use crate::bytes::{be64, from_be64, write_u64_be, read_u64_be_at, append_bytes, copy_range, lemma_be64_roundtrip};
use crate::fmt::{decimal, push_decimal};
use crate::errors::text;

verus! {

pub const ROOT_ID: u64 = 1;

pub open spec fn meta_next_id_key() -> Seq<u8> {
    seq![109u8, 101u8, 116u8, 97u8, 47u8, 110u8, 101u8, 120u8, 116u8, 95u8, 105u8, 100u8]
}

pub open spec fn node_key_spec(id: u64) -> Seq<u8> {
    seq![110u8, 111u8, 100u8, 101u8, 47u8] + be64(id)
}

pub open spec fn child_prefix_spec(parent: u64) -> Seq<u8> {
    seq![99u8, 104u8, 105u8, 108u8, 100u8, 47u8] + be64(parent) + seq![47u8]
}

pub open spec fn child_key_spec(parent: u64, name: Seq<char>) -> Seq<u8> {
    child_prefix_spec(parent) + encode_utf8(name)
}

pub open spec fn type_index_root() -> Seq<u8> {
    seq![105u8, 100u8, 120u8, 47u8, 116u8, 47u8]
}

pub open spec fn type_index_prefix_spec(ty: Seq<char>) -> Seq<u8> {
    type_index_root() + encode_utf8(ty) + seq![47u8]
}

pub open spec fn type_index_key_spec(ty: Seq<char>, id: u64) -> Seq<u8> {
    type_index_prefix_spec(ty) + be64(id)
}

pub open spec fn decode_id_spec(b: Seq<u8>) -> Option<u64> {
    if b.len() == 8 {
        Some(from_be64(b))
    } else {
        None
    }
}

/// Node payload: tag 0 is a directory, tag 1 a value followed by its encoding.
pub enum NodeRec {
    Dir,
    Value(Seq<u8>),
}

#[derive(Debug)]
pub enum NodeRecord {
    Dir,
    Value(Vec<u8>),
}

impl NodeRecord {
    pub open spec fn model(&self) -> NodeRec {
        match self {
            NodeRecord::Dir => NodeRec::Dir,
            NodeRecord::Value(b) => NodeRec::Value(b@),
        }
    }
}

pub open spec fn parse_node_spec(b: Seq<u8>) -> Result<NodeRec, Seq<char>> {
    if b.len() == 0 {
        Err("empty node"@)
    } else if b[0] == 0 {
        Ok(NodeRec::Dir)
    } else if b[0] == 1 {
        Ok(NodeRec::Value(b.drop_first()))
    } else {
        Err("unknown node tag "@ + decimal(b[0] as nat))
    }
}

pub fn meta_next_id() -> (k: Vec<u8>)
    ensures
        k@ == meta_next_id_key(),
{
    let k = vec![109u8, 101u8, 116u8, 97u8, 47u8, 110u8, 101u8, 120u8, 116u8, 95u8, 105u8, 100u8];
    assert(k@ =~= meta_next_id_key());
    k
}

pub fn node_key(id: u64) -> (k: Vec<u8>)
    ensures
        k@ == node_key_spec(id),
{
    let mut k = vec![110u8, 111u8, 100u8, 101u8, 47u8];
    write_u64_be(&mut k, id);
    assert(k@ =~= node_key_spec(id));
    k
}

pub fn child_prefix(parent: u64) -> (k: Vec<u8>)
    ensures
        k@ == child_prefix_spec(parent),
{
    let mut k = vec![99u8, 104u8, 105u8, 108u8, 100u8, 47u8];
    write_u64_be(&mut k, parent);
    k.push(47u8);
    assert(k@ =~= child_prefix_spec(parent));
    k
}

pub fn child_key(parent: u64, name: &str) -> (k: Vec<u8>)
    ensures
        k@ == child_key_spec(parent, name@),
{
    let mut k = child_prefix(parent);
    append_bytes(&mut k, name.as_bytes());
    k
}

/// The prefix of every type-index key.
pub fn type_index_all() -> (k: Vec<u8>)
    ensures
        k@ == type_index_root(),
{
    let k = vec![105u8, 100u8, 120u8, 47u8, 116u8, 47u8];
    assert(k@ =~= type_index_root());
    k
}

pub fn type_index_prefix(ty: &str) -> (k: Vec<u8>)
    ensures
        k@ == type_index_prefix_spec(ty@),
{
    let mut k = vec![105u8, 100u8, 120u8, 47u8, 116u8, 47u8];
    append_bytes(&mut k, ty.as_bytes());
    k.push(47u8);
    assert(k@ =~= type_index_prefix_spec(ty@));
    k
}

pub fn type_index_key(ty: &str, id: u64) -> (k: Vec<u8>)
    ensures
        k@ == type_index_key_spec(ty@, id),
{
    let mut k = type_index_prefix(ty);
    write_u64_be(&mut k, id);
    k
}

pub fn encode_id(id: u64) -> (b: Vec<u8>)
    ensures
        b@ == be64(id),
{
    let mut b: Vec<u8> = Vec::new();
    write_u64_be(&mut b, id);
    assert(b@ =~= be64(id));
    b
}

pub fn decode_id(bytes: &[u8]) -> (r: Option<u64>)
    ensures
        r == decode_id_spec(bytes@),
{
    if bytes.len() != 8 {
        return None;
    }
    let r = read_u64_be_at(bytes, 0);
    assert(bytes@.subrange(0, 8) =~= bytes@);
    Some(r)
}

pub fn encode_dir_node() -> (b: Vec<u8>)
    ensures
        b@ == seq![0u8],
{
    let b = vec![0u8];
    assert(b@ =~= seq![0u8]);
    b
}

pub fn encode_value_node(encoded_value: &[u8]) -> (b: Vec<u8>)
    ensures
        b@ == seq![1u8] + encoded_value@,
{
    let mut b = vec![1u8];
    append_bytes(&mut b, encoded_value);
    b
}

pub fn parse_node(bytes: &[u8]) -> (r: Result<NodeRecord, String>)
    ensures
        match parse_node_spec(bytes@) {
            Ok(n) => r matches Ok(x) && x.model() == n,
            Err(m) => r matches Err(s) && s@ == m,
        },
{
    if bytes.len() == 0 {
        return Err(text("empty node"));
    }
    let t = bytes[0];
    if t == 0 {
        Ok(NodeRecord::Dir)
    } else if t == 1 {
        let rest = copy_range(bytes, 1, bytes.len());
        assert(rest@ =~= bytes@.drop_first());
        Ok(NodeRecord::Value(rest))
    } else {
        let mut s = text("unknown node tag ");
        push_decimal(&mut s, t as u64);
        Err(s)
    }
}

// ---------------------------------------------------------------------------
// Key spaces are disjoint and keys determine their parts.

pub proof fn lemma_be64_injective(a: u64, b: u64)
    ensures
        be64(a) == be64(b) ==> a == b,
{
    lemma_be64_roundtrip(a);
    lemma_be64_roundtrip(b);
}

pub proof fn lemma_node_key_injective(a: u64, b: u64)
    ensures
        node_key_spec(a) == node_key_spec(b) ==> a == b,
{
    if node_key_spec(a) == node_key_spec(b) {
        assert(be64(a) =~= node_key_spec(a).skip(5));
        assert(be64(b) =~= node_key_spec(b).skip(5));
        lemma_be64_injective(a, b);
    }
}

pub proof fn lemma_child_key_injective(p1: u64, n1: Seq<char>, p2: u64, n2: Seq<char>)
    ensures
        child_key_spec(p1, n1) == child_key_spec(p2, n2) ==> p1 == p2 && n1 == n2,
{
    if child_key_spec(p1, n1) == child_key_spec(p2, n2) {
        let k = child_key_spec(p1, n1);
        assert(be64(p1) =~= k.subrange(6, 14));
        assert(be64(p2) =~= child_key_spec(p2, n2).subrange(6, 14));
        lemma_be64_injective(p1, p2);
        assert(encode_utf8(n1) =~= k.skip(15));
        assert(encode_utf8(n2) =~= child_key_spec(p2, n2).skip(15));
        crate::order::lemma_encode_utf8_injective(n1, n2);
    }
}

/// Keys of different kinds never coincide: they differ in their first byte.
pub proof fn lemma_key_kinds_distinct(id: u64, parent: u64, name: Seq<char>, ty: Seq<char>, tid: u64)
    ensures
        node_key_spec(id)[0] == 110u8,
        child_key_spec(parent, name)[0] == 99u8,
        type_index_key_spec(ty, tid)[0] == 105u8,
        meta_next_id_key()[0] == 109u8,
        node_key_spec(id) != child_key_spec(parent, name),
        node_key_spec(id) != type_index_key_spec(ty, tid),
        node_key_spec(id) != meta_next_id_key(),
        child_key_spec(parent, name) != type_index_key_spec(ty, tid),
        child_key_spec(parent, name) != meta_next_id_key(),
        type_index_key_spec(ty, tid) != meta_next_id_key(),
{
}

} // verus!
