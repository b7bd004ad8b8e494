//! Byte-oriented key-value storage: write batches, the `Storage` trait, and
//! an ordered in-memory map.

use vstd::prelude::*;
use crate::order::Order;
use crate::order::bytes_lt;
use crate::order::compare_bytes;
use crate::order::lemma_bytes_lt_total;
use crate::order::lemma_bytes_lt_transitive;
use crate::order::lemma_bytes_lt_irreflexive;
use crate::order::lemma_bytes_lt_asymmetric;
use crate::bytes::starts_with;

verus! {

#[derive(Debug, PartialEq, Eq)]
pub enum StorageError {
    Io(String),
    Corrupt(String),
    Internal(String),
}

/// One mutation of a write batch.
#[derive(Debug, PartialEq, Eq)]
pub enum BatchOp {
    Put { key: Vec<u8>, value: Vec<u8> },
    Delete { key: Vec<u8> },
}

/// Model of a batch operation.
pub enum OpModel {
    Put(Seq<u8>, Seq<u8>),
    Delete(Seq<u8>),
}

impl BatchOp {
    pub open spec fn model(&self) -> OpModel {
        match self {
            BatchOp::Put { key, value } => OpModel::Put(key@, value@),
            BatchOp::Delete { key } => OpModel::Delete(key@),
        }
    }
}

/// Ordered mutations applied together by one commit.
#[derive(Debug, PartialEq, Eq)]
pub struct WriteBatch {
    pub ops: Vec<BatchOp>,
}

impl View for WriteBatch {
    type V = Seq<OpModel>;

    open spec fn view(&self) -> Seq<OpModel> {
        Seq::new(self.ops@.len(), |i: int| self.ops@[i].model())
    }
}

pub type ScanRows = Vec<(Vec<u8>, Vec<u8>)>;

pub open spec fn apply_op(m: Map<Seq<u8>, Seq<u8>>, op: OpModel) -> Map<Seq<u8>, Seq<u8>> {
    match op {
        OpModel::Put(k, v) => m.insert(k, v),
        OpModel::Delete(k) => m.remove(k),
    }
}

/// The map after applying the operations in order.
pub open spec fn apply_ops(m: Map<Seq<u8>, Seq<u8>>, ops: Seq<OpModel>) -> Map<Seq<u8>, Seq<u8>>
    decreases ops.len(),
{
    if ops.len() == 0 {
        m
    } else {
        apply_op(apply_ops(m, ops.drop_last()), ops.last())
    }
}

pub open spec fn has_prefix(k: Seq<u8>, prefix: Seq<u8>) -> bool {
    prefix.len() <= k.len() && k.take(prefix.len() as int) == prefix
}

/// Rows views of a scan result.
pub open spec fn rows_view(rows: Seq<(Vec<u8>, Vec<u8>)>) -> Seq<(Seq<u8>, Seq<u8>)> {
    Seq::new(rows.len(), |i: int| (rows[i].0@, rows[i].1@))
}

/// `rows` lists exactly the entries of `m` whose key starts with `prefix`,
/// in increasing key order.
pub open spec fn is_prefix_scan(
    m: Map<Seq<u8>, Seq<u8>>,
    prefix: Seq<u8>,
    rows: Seq<(Seq<u8>, Seq<u8>)>,
) -> bool {
    &&& keys_increasing(rows)
    &&& forall|i: int|
        0 <= i < rows.len() ==> has_prefix(#[trigger] rows[i].0, prefix) && m.contains_key(
            rows[i].0,
        ) && m[rows[i].0] == rows[i].1
    &&& forall|k: Seq<u8>|
        m.contains_key(k) && has_prefix(k, prefix) ==> exists|i: int|
            0 <= i < rows.len() && #[trigger] rows[i].0 == k
}

pub open spec fn keys_increasing(es: Seq<(Seq<u8>, Seq<u8>)>) -> bool {
    forall|i: int, j: int| 0 <= i < j < es.len() ==> bytes_lt(#[trigger] es[i].0, #[trigger] es[j].0)
}

/// The key an operation touches.
pub open spec fn op_key(op: OpModel) -> Seq<u8> {
    match op {
        OpModel::Put(k, _) => k,
        OpModel::Delete(k) => k,
    }
}

/// Applying `a` then `b` is applying their concatenation.
pub proof fn lemma_apply_ops_append(m: Map<Seq<u8>, Seq<u8>>, a: Seq<OpModel>, b: Seq<OpModel>)
    ensures
        apply_ops(m, a + b) == apply_ops(apply_ops(m, a), b),
    decreases b.len(),
{
    if b.len() == 0 {
        assert(a + b =~= a);
    } else {
        lemma_apply_ops_append(m, a, b.drop_last());
        assert((a + b).drop_last() =~= a + b.drop_last());
        assert((a + b).last() == b.last());
    }
}

/// Operations on other keys leave a key's entry as it was.
pub proof fn lemma_apply_ops_untouched(m: Map<Seq<u8>, Seq<u8>>, ops: Seq<OpModel>, k: Seq<u8>)
    requires
        forall|j: int| 0 <= j < ops.len() ==> op_key(#[trigger] ops[j]) != k,
    ensures
        apply_ops(m, ops).contains_key(k) == m.contains_key(k),
        m.contains_key(k) ==> apply_ops(m, ops)[k] == m[k],
    decreases ops.len(),
{
    if ops.len() > 0 {
        assert(op_key(ops[ops.len() - 1]) != k);
        lemma_apply_ops_untouched(m, ops.drop_last(), k);
    }
}

/// Two maps hold the same entries under keys that start with `p`.
pub open spec fn agree_on_prefix(a: Map<Seq<u8>, Seq<u8>>, b: Map<Seq<u8>, Seq<u8>>, p: Seq<u8>) -> bool {
    forall|k: Seq<u8>|
        #![trigger a.contains_key(k), has_prefix(k, p)]
        #![trigger b.contains_key(k), has_prefix(k, p)]
        has_prefix(k, p) ==> (a.contains_key(k) <==> b.contains_key(k)) && (a.contains_key(k) ==> a[k]
            == b[k])
}

pub proof fn lemma_apply_ops_agree(a: Map<Seq<u8>, Seq<u8>>, b: Map<Seq<u8>, Seq<u8>>, p: Seq<u8>, ops: Seq<OpModel>)
    requires
        agree_on_prefix(a, b, p),
    ensures
        agree_on_prefix(apply_ops(a, ops), apply_ops(b, ops), p),
    decreases ops.len(),
{
    if ops.len() > 0 {
        lemma_apply_ops_agree(a, b, p, ops.drop_last());
    }
}

pub proof fn lemma_prefix_scan_transfer(
    a: Map<Seq<u8>, Seq<u8>>,
    b: Map<Seq<u8>, Seq<u8>>,
    p: Seq<u8>,
    rows: Seq<(Seq<u8>, Seq<u8>)>,
)
    requires
        agree_on_prefix(a, b, p),
        is_prefix_scan(a, p, rows),
    ensures
        is_prefix_scan(b, p, rows),
{
    assert forall|i: int| 0 <= i < rows.len() implies has_prefix(#[trigger] rows[i].0, p)
        && b.contains_key(rows[i].0) && b[rows[i].0] == rows[i].1 by {
        assert(a.contains_key(rows[i].0));
    }
    assert forall|k: Seq<u8>| b.contains_key(k) && has_prefix(k, p) implies exists|i: int|
        0 <= i < rows.len() && #[trigger] rows[i].0 == k by {
        assert(a.contains_key(k));
    }
}

/// A map has one prefix scan: the rows under a prefix are determined.
pub proof fn lemma_prefix_scan_unique(
    m: Map<Seq<u8>, Seq<u8>>,
    p: Seq<u8>,
    r1: Seq<(Seq<u8>, Seq<u8>)>,
    r2: Seq<(Seq<u8>, Seq<u8>)>,
)
    requires
        is_prefix_scan(m, p, r1),
        is_prefix_scan(m, p, r2),
    ensures
        r1 == r2,
    decreases r1.len() + r2.len(),
{
    if r1.len() == 0 && r2.len() == 0 {
        assert(r1 =~= r2);
    } else if r1.len() == 0 {
        assert(has_prefix(r2[0].0, p) && m.contains_key(r2[0].0));
    } else if r2.len() == 0 {
        assert(has_prefix(r1[0].0, p) && m.contains_key(r1[0].0));
    } else {
        let k1 = r1[0].0;
        let k2 = r2[0].0;
        assert(has_prefix(k1, p) && m.contains_key(k1));
        assert(has_prefix(k2, p) && m.contains_key(k2));
        let j = choose|j: int| 0 <= j < r2.len() && #[trigger] r2[j].0 == k1;
        let i = choose|i: int| 0 <= i < r1.len() && #[trigger] r1[i].0 == k2;
        if j > 0 {
            assert(bytes_lt(k2, k1));
            if i > 0 {
                assert(bytes_lt(k1, k2));
                lemma_bytes_lt_asymmetric(k1, k2);
            } else {
                lemma_bytes_lt_irreflexive(k1);
            }
        }
        assert(k1 == k2);
        let m2 = m.remove(k1);
        let t1 = r1.drop_first();
        let t2 = r2.drop_first();
        assert forall|a: int| 0 <= a < t1.len() implies has_prefix(#[trigger] t1[a].0, p)
            && m2.contains_key(t1[a].0) && m2[t1[a].0] == t1[a].1 by {
            assert(t1[a] == r1[a + 1]);
            assert(bytes_lt(r1[0].0, r1[a + 1].0));
            lemma_bytes_lt_irreflexive(k1);
        }
        assert forall|k: Seq<u8>| m2.contains_key(k) && has_prefix(k, p) implies exists|a: int|
            0 <= a < t1.len() && #[trigger] t1[a].0 == k by {
            let a = choose|a: int| 0 <= a < r1.len() && #[trigger] r1[a].0 == k;
            assert(t1[a - 1] == r1[a]);
        }
        assert forall|a: int, b: int| 0 <= a < b < t1.len() implies bytes_lt(#[trigger] t1[a].0, #[trigger] t1[b].0) by {
            assert(t1[a] == r1[a + 1] && t1[b] == r1[b + 1]);
        }
        assert forall|a: int| 0 <= a < t2.len() implies has_prefix(#[trigger] t2[a].0, p)
            && m2.contains_key(t2[a].0) && m2[t2[a].0] == t2[a].1 by {
            assert(t2[a] == r2[a + 1]);
            assert(bytes_lt(r2[0].0, r2[a + 1].0));
            lemma_bytes_lt_irreflexive(k1);
        }
        assert forall|k: Seq<u8>| m2.contains_key(k) && has_prefix(k, p) implies exists|a: int|
            0 <= a < t2.len() && #[trigger] t2[a].0 == k by {
            let a = choose|a: int| 0 <= a < r2.len() && #[trigger] r2[a].0 == k;
            assert(t2[a - 1] == r2[a]);
        }
        assert forall|a: int, b: int| 0 <= a < b < t2.len() implies bytes_lt(#[trigger] t2[a].0, #[trigger] t2[b].0) by {
            assert(t2[a] == r2[a + 1] && t2[b] == r2[b + 1]);
        }
        lemma_prefix_scan_unique(m2, p, t1, t2);
        assert(r1 =~= seq![r1[0]] + t1);
        assert(r2 =~= seq![r2[0]] + t2);
    }
}

/// The rows a scan of `prefix` returns, in key order.
pub open spec fn scan_rows(m: Map<Seq<u8>, Seq<u8>>, prefix: Seq<u8>) -> Seq<(Seq<u8>, Seq<u8>)> {
    choose|rows: Seq<(Seq<u8>, Seq<u8>)>| is_prefix_scan(m, prefix, rows)
}

pub proof fn lemma_scan_rows(m: Map<Seq<u8>, Seq<u8>>, prefix: Seq<u8>, rows: Seq<(Seq<u8>, Seq<u8>)>)
    requires
        is_prefix_scan(m, prefix, rows),
    ensures
        scan_rows(m, prefix) == rows,
{
    lemma_prefix_scan_unique(m, prefix, scan_rows(m, prefix), rows);
}

impl WriteBatch {
    pub fn new() -> (b: WriteBatch)
        ensures
            b@ == Seq::<OpModel>::empty(),
    {
        let b = WriteBatch { ops: Vec::new() };
        assert(b@ =~= Seq::<OpModel>::empty());
        b
    }

    pub fn put(&mut self, key: Vec<u8>, value: Vec<u8>)
        ensures
            final(self)@ == old(self)@.push(OpModel::Put(key@, value@)),
    {
        self.ops.push(BatchOp::Put { key, value });
        assert(self@ =~= old(self)@.push(OpModel::Put(key@, value@)));
    }

    pub fn delete(&mut self, key: Vec<u8>)
        ensures
            final(self)@ == old(self)@.push(OpModel::Delete(key@)),
    {
        self.ops.push(BatchOp::Delete { key });
        assert(self@ =~= old(self)@.push(OpModel::Delete(key@)));
    }

    pub fn is_empty(&self) -> (b: bool)
        ensures
            b == (self@.len() == 0),
    {
        self.ops.len() == 0
    }

    pub fn len(&self) -> (n: usize)
        ensures
            n == self@.len(),
    {
        self.ops.len()
    }
}

/// Byte-oriented key-value storage used by the namespace layer.
pub trait Storage {
    /// The stored key-value pairs.
    spec fn kv(&self) -> Map<Seq<u8>, Seq<u8>>;

    /// Whether every call on the store succeeds (nothing outside can fail).
    spec fn reliable(&self) -> bool;

    /// Whether reads of the store succeed (they touch nothing outside).
    spec fn reads_ok(&self) -> bool;

    /// How many batches the store has been asked to commit.
    spec fn commits(&self) -> nat;

    /// A store on which every call succeeds is read without failure.
    proof fn lemma_reliable_reads(&self)
        requires
            self.reliable(),
        ensures
            self.reads_ok(),
    ;

    fn get(&self, key: &[u8]) -> (r: Result<Option<Vec<u8>>, StorageError>)
        ensures
            self.reliable() ==> r is Ok,
            self.reads_ok() ==> r is Ok,
            r matches Ok(Some(v)) ==> self.kv().contains_key(key@) && self.kv()[key@] == v@,
            r matches Ok(None) ==> !self.kv().contains_key(key@),
    ;

    /// Apply all operations of the batch, in order, as one unit: after an
    /// error either none or all of them took effect.
    fn commit(&mut self, batch: WriteBatch) -> (r: Result<(), StorageError>)
        ensures
            old(self).reliable() ==> r is Ok,
            final(self).reliable() == old(self).reliable(),
            final(self).reads_ok() == old(self).reads_ok(),
            final(self).commits() == old(self).commits() + 1,
            r is Ok ==> final(self).kv() == apply_ops(old(self).kv(), batch@),
            r is Err ==> final(self).kv() == old(self).kv() || final(self).kv() == apply_ops(
                old(self).kv(),
                batch@,
            ),
    ;

    /// Key-value pairs whose keys start with `prefix`, ordered by key.
    fn scan_prefix(&self, prefix: &[u8]) -> (r: Result<ScanRows, StorageError>)
        ensures
            self.reliable() ==> r is Ok,
            self.reads_ok() ==> r is Ok,
            r matches Ok(rows) ==> is_prefix_scan(self.kv(), prefix@, rows_view(rows@)),
    ;
}

// ---------------------------------------------------------------------------
// Ordered map on byte strings

/// Entries sorted by key without repeats.
pub struct KvMap {
    entries: Vec<(Vec<u8>, Vec<u8>)>,
}

/// The map that a list of entries with distinct keys denotes.
pub open spec fn entries_map(es: Seq<(Seq<u8>, Seq<u8>)>) -> Map<Seq<u8>, Seq<u8>>
    decreases es.len(),
{
    if es.len() == 0 {
        Map::empty()
    } else {
        entries_map(es.drop_last()).insert(es.last().0, es.last().1)
    }
}

proof fn lemma_entries_map(es: Seq<(Seq<u8>, Seq<u8>)>)
    requires
        keys_increasing(es),
    ensures
        forall|k: Seq<u8>|
            #[trigger] entries_map(es).contains_key(k) <==> exists|i: int|
                0 <= i < es.len() && es[i].0 == k,
        forall|i: int| 0 <= i < es.len() ==> entries_map(es)[#[trigger] es[i].0] == es[i].1,
        entries_map(es).dom().finite(),
    decreases es.len(),
{
    if es.len() > 0 {
        let init = es.drop_last();
        assert forall|i: int, j: int| 0 <= i < j < init.len() implies bytes_lt(
            #[trigger] init[i].0,
            #[trigger] init[j].0,
        ) by {
            assert(init[i] == es[i]);
            assert(init[j] == es[j]);
        }
        lemma_entries_map(init);
        assert forall|k: Seq<u8>| #[trigger] entries_map(es).contains_key(k) <==> exists|i: int|
            0 <= i < es.len() && es[i].0 == k by {
            if entries_map(es).contains_key(k) && k != es.last().0 {
                let i = choose|i: int| 0 <= i < init.len() && init[i].0 == k;
                assert(es[i] == init[i]);
            }
            if exists|i: int| 0 <= i < es.len() && es[i].0 == k {
                let i = choose|i: int| 0 <= i < es.len() && es[i].0 == k;
                if i < es.len() - 1 {
                    assert(init[i] == es[i]);
                }
            }
        }
        assert forall|i: int| 0 <= i < es.len() implies entries_map(es)[#[trigger] es[i].0]
            == es[i].1 by {
            if i < es.len() - 1 {
                assert(init[i] == es[i]);
                assert(bytes_lt(es[i].0, es[es.len() - 1].0));
                lemma_bytes_lt_irreflexive(es[i].0);
            }
        }
    }
}

impl KvMap {
    pub closed spec fn entries_view(&self) -> Seq<(Seq<u8>, Seq<u8>)> {
        Seq::new(self.entries@.len(), |i: int| (self.entries@[i].0@, self.entries@[i].1@))
    }

    pub closed spec fn wf(&self) -> bool {
        keys_increasing(self.entries_view())
    }

    pub closed spec fn map(&self) -> Map<Seq<u8>, Seq<u8>> {
        entries_map(self.entries_view())
    }

    /// The entries in key order.
    pub fn entry_list(&self) -> (r: &Vec<(Vec<u8>, Vec<u8>)>)
        ensures
            rows_view(r@) == self.entries_view(),
    {
        assert(rows_view(self.entries@) =~= self.entries_view());
        &self.entries
    }

    /// The map is the one its entries denote; a well-formed map lists its
    /// keys in increasing order.
    pub proof fn lemma_entries(&self)
        ensures
            self.map() == entries_map(self.entries_view()),
            self.wf() ==> keys_increasing(self.entries_view()),
    {
    }

    pub fn new() -> (m: KvMap)
        ensures
            m.wf(),
            m.map() == Map::<Seq<u8>, Seq<u8>>::empty(),
    {
        let m = KvMap { entries: Vec::new() };
        assert(m.entries_view() =~= Seq::<(Seq<u8>, Seq<u8>)>::empty());
        m
    }

    pub fn len(&self) -> (n: usize)
        requires
            self.wf(),
        ensures
            n == self.map().len(),
    {
        proof {
            lemma_entries_map(self.entries_view());
            lemma_map_len(self.entries_view());
        }
        self.entries.len()
    }

    /// Index of the first entry whose key is not below `key`.
    fn lower_bound(&self, key: &[u8]) -> (i: usize)
        requires
            self.wf(),
        ensures
            i <= self.entries@.len(),
            forall|j: int| 0 <= j < i ==> bytes_lt(#[trigger] self.entries_view()[j].0, key@),
            i < self.entries@.len() ==> !bytes_lt(self.entries_view()[i as int].0, key@),
    {
        let mut i: usize = 0;
        while i < self.entries.len() && compare_bytes(self.entries[i].0.as_slice(), key)
            == Order::Less
            invariant
                i <= self.entries@.len(),
                forall|j: int| 0 <= j < i ==> bytes_lt(#[trigger] self.entries_view()[j].0, key@),
            decreases self.entries@.len() - i,
        {
            i = i + 1;
        }
        i
    }

    pub fn get(&self, key: &[u8]) -> (r: Option<&Vec<u8>>)
        requires
            self.wf(),
        ensures
            r matches Some(v) ==> self.map().contains_key(key@) && self.map()[key@] == v@,
            r is None ==> !self.map().contains_key(key@),
    {
        proof {
            lemma_entries_map(self.entries_view());
        }
        let i = self.lower_bound(key);
        if i < self.entries.len() && compare_bytes(self.entries[i].0.as_slice(), key)
            == Order::Equal {
            assert(self.entries_view()[i as int].0 == key@);
            Some(&self.entries[i].1)
        } else {
            assert forall|j: int| 0 <= j < self.entries@.len() implies self.entries_view()[j].0
                != key@ by {
                if j >= i {
                    if j > i {
                        assert(bytes_lt(self.entries_view()[i as int].0, self.entries_view()[j].0));
                    }
                    lemma_bytes_lt_total(self.entries_view()[i as int].0, key@);
                    if self.entries_view()[j].0 == key@ && j > i {
                        lemma_bytes_lt_total(key@, self.entries_view()[i as int].0);
                        lemma_bytes_lt_asymmetric(self.entries_view()[i as int].0, key@);
                    }
                } else {
                    lemma_bytes_lt_irreflexive(key@);
                }
            }
            None
        }
    }

    pub fn put(&mut self, key: Vec<u8>, value: Vec<u8>)
        requires
            old(self).wf(),
        ensures
            final(self).wf(),
            final(self).map() == old(self).map().insert(key@, value@),
    {
        let ghost old_es = self.entries_view();
        proof {
            lemma_entries_map(old_es);
        }
        let i = self.lower_bound(key.as_slice());
        let ghost kv = key@;
        let ghost vv = value@;
        if i < self.entries.len() && compare_bytes(self.entries[i].0.as_slice(), key.as_slice())
            == Order::Equal {
            self.entries.set(i, (key, value));
            assert(self.entries_view() =~= old_es.update(i as int, (kv, vv)));
        } else {
            self.entries.insert(i, (key, value));
            assert(self.entries_view() =~= old_es.insert(i as int, (kv, vv)));
            proof {
                if i < old_es.len() {
                    lemma_bytes_lt_total(old_es[i as int].0, kv);
                }
            }
        }
        let ghost new_es = self.entries_view();
        assert forall|a: int, b: int| 0 <= a < b < new_es.len() implies bytes_lt(
            #[trigger] new_es[a].0,
            #[trigger] new_es[b].0,
        ) by {
            if new_es.len() == old_es.len() {
                if a == i {
                    if b > i {
                        assert(new_es[b] == old_es[b]);
                    }
                } else if b == i {
                    assert(new_es[a] == old_es[a]);
                }
            } else {
                if a == i {
                    if b > i + 1 {
                        lemma_bytes_lt_transitive(kv, old_es[i as int].0, old_es[b - 1].0);
                    }
                } else if b == i {
                } else if a < i {
                    if b > i {
                        assert(new_es[b] == old_es[b - 1]);
                    }
                } else {
                    assert(new_es[a] == old_es[a - 1]);
                    assert(new_es[b] == old_es[b - 1]);
                }
            }
        }
        proof {
            lemma_entries_map(new_es);
            assert forall|k: Seq<u8>| #[trigger] self.map().contains_key(k) <==> old(
                self,
            ).map().insert(kv, vv).contains_key(k) by {
                if self.map().contains_key(k) && k != kv {
                    let j = choose|j: int| 0 <= j < new_es.len() && new_es[j].0 == k;
                    if new_es.len() == old_es.len() {
                        assert(new_es[j] == old_es[j]);
                    } else if j < i {
                        assert(new_es[j] == old_es[j]);
                    } else {
                        assert(new_es[j] == old_es[j - 1]);
                    }
                }
                if old(self).map().contains_key(k) && k != kv {
                    let j = choose|j: int| 0 <= j < old_es.len() && old_es[j].0 == k;
                    if new_es.len() == old_es.len() {
                        assert(new_es[j] == old_es[j]);
                    } else if j < i {
                        assert(new_es[j] == old_es[j]);
                    } else {
                        assert(new_es[j + 1] == old_es[j]);
                    }
                }
                if k == kv {
                    assert(new_es[i as int].0 == kv);
                }
            }
            assert forall|k: Seq<u8>| #[trigger] self.map().contains_key(k) implies self.map()[k]
                == old(self).map().insert(kv, vv)[k] by {
                let j = choose|j: int| 0 <= j < new_es.len() && new_es[j].0 == k;
                assert(self.map()[new_es[j].0] == new_es[j].1);
                if j != i {
                    lemma_bytes_lt_irreflexive(kv);
                    if j < i {
                        assert(bytes_lt(new_es[j].0, new_es[i as int].0));
                    } else {
                        assert(bytes_lt(new_es[i as int].0, new_es[j].0));
                    }
                    assert(k != kv);
                    if new_es.len() == old_es.len() {
                        assert(new_es[j] == old_es[j]);
                        assert(old(self).map()[old_es[j].0] == old_es[j].1);
                    } else if j < i {
                        assert(new_es[j] == old_es[j]);
                        assert(old(self).map()[old_es[j].0] == old_es[j].1);
                    } else {
                        assert(new_es[j] == old_es[j - 1]);
                        assert(old(self).map()[old_es[j - 1].0] == old_es[j - 1].1);
                    }
                }
            }
            assert(self.map() =~= old(self).map().insert(kv, vv));
        }
    }

    pub fn delete(&mut self, key: &[u8])
        requires
            old(self).wf(),
        ensures
            final(self).wf(),
            final(self).map() == old(self).map().remove(key@),
    {
        let ghost old_es = self.entries_view();
        proof {
            lemma_entries_map(old_es);
        }
        let i = self.lower_bound(key);
        if i < self.entries.len() && compare_bytes(self.entries[i].0.as_slice(), key)
            == Order::Equal {
            self.entries.remove(i);
            let ghost new_es = self.entries_view();
            assert(new_es =~= old_es.remove(i as int));
            assert forall|a: int, b: int| 0 <= a < b < new_es.len() implies bytes_lt(
                #[trigger] new_es[a].0,
                #[trigger] new_es[b].0,
            ) by {
                if a < i {
                    if b >= i {
                        assert(new_es[b] == old_es[b + 1]);
                    }
                } else {
                    assert(new_es[a] == old_es[a + 1]);
                    assert(new_es[b] == old_es[b + 1]);
                }
            }
            proof {
                lemma_entries_map(new_es);
                assert forall|k: Seq<u8>| #[trigger] self.map().contains_key(k) <==> old(
                    self,
                ).map().remove(key@).contains_key(k) by {
                    if self.map().contains_key(k) {
                        let j = choose|j: int| 0 <= j < new_es.len() && new_es[j].0 == k;
                        if j < i {
                            assert(new_es[j] == old_es[j]);
                            assert(bytes_lt(old_es[j].0, old_es[i as int].0));
                        } else {
                            assert(new_es[j] == old_es[j + 1]);
                            assert(bytes_lt(old_es[i as int].0, old_es[j + 1].0));
                        }
                        lemma_bytes_lt_irreflexive(k);
                    }
                    if old(self).map().remove(key@).contains_key(k) {
                        let j = choose|j: int| 0 <= j < old_es.len() && old_es[j].0 == k;
                        if j < i {
                            assert(new_es[j] == old_es[j]);
                        } else if j > i {
                            assert(new_es[j - 1] == old_es[j]);
                        }
                    }
                }
                assert forall|k: Seq<u8>| #[trigger] self.map().contains_key(k) implies self.map()[k]
                    == old(self).map().remove(key@)[k] by {
                    let j = choose|j: int| 0 <= j < new_es.len() && new_es[j].0 == k;
                    if j < i {
                        assert(new_es[j] == old_es[j]);
                    } else {
                        assert(new_es[j] == old_es[j + 1]);
                    }
                }
                assert(self.map() =~= old(self).map().remove(key@));
            }
        } else {
            assert forall|j: int| 0 <= j < old_es.len() implies old_es[j].0 != key@ by {
                if j >= i {
                    lemma_bytes_lt_total(old_es[i as int].0, key@);
                    if j > i && old_es[j].0 == key@ {
                        lemma_bytes_lt_asymmetric(old_es[i as int].0, key@);
                    }
                } else {
                    lemma_bytes_lt_irreflexive(key@);
                }
            }
            assert(self.map() =~= old(self).map().remove(key@));
        }
    }

    /// The entries whose keys start with `prefix`, in key order.
    pub fn scan_prefix(&self, prefix: &[u8]) -> (rows: ScanRows)
        requires
            self.wf(),
        ensures
            is_prefix_scan(self.map(), prefix@, rows_view(rows@)),
    {
        proof {
            lemma_entries_map(self.entries_view());
        }
        let ghost es = self.entries_view();
        let mut out: ScanRows = Vec::new();
        let mut i: usize = 0;
        while i < self.entries.len()
            invariant
                i <= self.entries@.len(),
                es == self.entries_view(),
                keys_increasing(es),
                forall|a: int| 0 <= a < rows_view(out@).len() ==> es.contains(#[trigger] rows_view(out@)[a]),
                forall|a: int|
                    0 <= a < rows_view(out@).len() && i < es.len() ==> bytes_lt(
                        #[trigger] rows_view(out@)[a].0,
                        es[i as int].0,
                    ),
                forall|a: int, b: int|
                    0 <= a < b < rows_view(out@).len() ==> bytes_lt(
                        #[trigger] rows_view(out@)[a].0,
                        #[trigger] rows_view(out@)[b].0,
                    ),
                forall|a: int| 0 <= a < rows_view(out@).len() ==> has_prefix(#[trigger] rows_view(out@)[a].0, prefix@),
                forall|j: int|
                    0 <= j < i && has_prefix(#[trigger] es[j].0, prefix@) ==> rows_view(out@).contains(es[j]),
            decreases self.entries@.len() - i,
        {
            let ghost before = rows_view(out@);
            if starts_with(self.entries[i].0.as_slice(), prefix) {
                let k = vstd::slice::slice_to_vec(self.entries[i].0.as_slice());
                let v = vstd::slice::slice_to_vec(self.entries[i].1.as_slice());
                out.push((k, v));
                assert(rows_view(out@) =~= before.push(es[i as int]));
                assert(rows_view(out@)[before.len() as int] == es[i as int]);
                assert forall|j: int|
                    0 <= j < i + 1 && has_prefix(#[trigger] es[j].0, prefix@) implies rows_view(out@).contains(es[j]) by {
                    if j < i {
                        let a = choose|a: int| 0 <= a < before.len() && before[a] == es[j];
                        assert(rows_view(out@)[a] == before[a]);
                    }
                }
            }
            assert forall|a: int| 0 <= a < rows_view(out@).len() && i + 1 < es.len() implies bytes_lt(
                #[trigger] rows_view(out@)[a].0,
                es[i + 1].0,
            ) by {
                if a < before.len() {
                    assert(rows_view(out@)[a] == before[a]);
                    lemma_bytes_lt_transitive(before[a].0, es[i as int].0, es[i + 1].0);
                }
            }
            i = i + 1;
        }
        let ghost rv = rows_view(out@);
        assert forall|a: int| 0 <= a < rv.len() implies has_prefix(#[trigger] rv[a].0, prefix@)
            && self.map().contains_key(rv[a].0) && self.map()[rv[a].0] == rv[a].1 by {
            assert(es.contains(rv[a]));
            let j = choose|j: int| 0 <= j < es.len() && es[j] == rv[a];
        }
        assert forall|k: Seq<u8>| self.map().contains_key(k) && has_prefix(k, prefix@) implies exists|a: int|
            0 <= a < rv.len() && #[trigger] rv[a].0 == k by {
            let j = choose|j: int| 0 <= j < es.len() && es[j].0 == k;
            assert(rv.contains(es[j]));
            let a = choose|a: int| 0 <= a < rv.len() && rv[a] == es[j];
        }
        out
    }
}

proof fn lemma_map_len(es: Seq<(Seq<u8>, Seq<u8>)>)
    requires
        keys_increasing(es),
    ensures
        entries_map(es).len() == es.len(),
    decreases es.len(),
{
    if es.len() > 0 {
        let init = es.drop_last();
        assert forall|i: int, j: int| 0 <= i < j < init.len() implies bytes_lt(
            #[trigger] init[i].0,
            #[trigger] init[j].0,
        ) by {
            assert(init[i] == es[i]);
            assert(init[j] == es[j]);
        }
        lemma_map_len(init);
        lemma_entries_map(init);
        assert(!entries_map(init).contains_key(es.last().0)) by {
            if entries_map(init).contains_key(es.last().0) {
                let i = choose|i: int| 0 <= i < init.len() && init[i].0 == es.last().0;
                assert(init[i] == es[i]);
                assert(bytes_lt(es[i].0, es[es.len() - 1].0));
                lemma_bytes_lt_irreflexive(es[i].0);
            }
        }
    }
}

// ---------------------------------------------------------------------------
// In-memory storage

/// Storage held entirely in memory; every operation succeeds.
pub struct MemoryStorage {
    map: KvMap,
    committed: Ghost<nat>,
}

impl MemoryStorage {
    #[verifier::type_invariant]
    closed spec fn wf(&self) -> bool {
        self.map.wf()
    }

    pub fn new() -> (s: MemoryStorage)
        ensures
            s.kv() == Map::<Seq<u8>, Seq<u8>>::empty(),
            s.commits() == 0,
    {
        MemoryStorage { map: KvMap::new(), committed: Ghost(0) }
    }
}

/// Apply the operations of a batch to an ordered map.
pub fn apply_batch_ops(map: &mut KvMap, ops: Vec<BatchOp>)
    requires
        old(map).wf(),
    ensures
        final(map).wf(),
        final(map).map() == apply_ops(
            old(map).map(),
            Seq::new(ops@.len(), |i: int| ops@[i].model()),
        ),
{
    let ghost opm = Seq::new(ops@.len(), |i: int| ops@[i].model());
    let ghost start = map.map();
    let mut i: usize = 0;
    let n = ops.len();
    assert(opm.take(0) =~= Seq::<OpModel>::empty());
    while i < n
        invariant
            i <= n,
            n == opm.len(),
            n == ops@.len(),
            opm == Seq::new(ops@.len(), |i: int| ops@[i].model()),
            map.wf(),
            map.map() == apply_ops(start, opm.take(i as int)),
        decreases n - i,
    {
        match &ops[i] {
            BatchOp::Put { key, value } => map.put(
                vstd::slice::slice_to_vec(key.as_slice()),
                vstd::slice::slice_to_vec(value.as_slice()),
            ),
            BatchOp::Delete { key } => map.delete(key.as_slice()),
        }
        assert(opm.take(i + 1).drop_last() =~= opm.take(i as int));
        i = i + 1;
    }
    assert(opm.take(i as int) =~= opm);
}

impl Storage for MemoryStorage {
    closed spec fn kv(&self) -> Map<Seq<u8>, Seq<u8>> {
        self.map.map()
    }

    /// Memory holds no outside resource: every call succeeds.
    open spec fn reliable(&self) -> bool {
        true
    }

    open spec fn reads_ok(&self) -> bool {
        true
    }

    closed spec fn commits(&self) -> nat {
        self.committed@
    }

    proof fn lemma_reliable_reads(&self) {
    }

    fn get(&self, key: &[u8]) -> (r: Result<Option<Vec<u8>>, StorageError>) {
        proof {
            use_type_invariant(&*self);
        }
        match self.map.get(key) {
            Some(v) => Ok(Some(vstd::slice::slice_to_vec(v.as_slice()))),
            None => Ok(None),
        }
    }

    fn commit(&mut self, batch: WriteBatch) -> (r: Result<(), StorageError>) {
        proof {
            use_type_invariant(&*self);
        }
        assert(batch@ =~= Seq::new(batch.ops@.len(), |i: int| batch.ops@[i].model()));
        let mut m = KvMap::new();
        std::mem::swap(&mut m, &mut self.map);
        apply_batch_ops(&mut m, batch.ops);
        self.map = m;
        self.committed = Ghost(self.committed@ + 1);
        Ok(())
    }

    fn scan_prefix(&self, prefix: &[u8]) -> (r: Result<ScanRows, StorageError>) {
        proof {
            use_type_invariant(&*self);
        }
        Ok(self.map.scan_prefix(prefix))
    }
}

/// Storage that can rewrite its durable form more compactly without
/// changing what it holds.
pub trait Compact: Storage {
    fn compact(&mut self) -> (r: Result<(), StorageError>)
        ensures
            final(self).kv() == old(self).kv(),
            final(self).reliable() == old(self).reliable(),
            final(self).reads_ok() == old(self).reads_ok(),
            final(self).commits() == old(self).commits(),
    ;
}

impl Compact for MemoryStorage {
    /// Nothing to rewrite: memory holds no log.
    fn compact(&mut self) -> (r: Result<(), StorageError>)
        ensures
            r is Ok,
    {
        Ok(())
    }
}

} // verus!
