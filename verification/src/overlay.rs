//! A write overlay: reads see a base store with staged operations applied on
//! top, and the staged operations leave as one batch.

use vstd::prelude::*;
use crate::bytes::starts_with;
use crate::order::{Order, compare_bytes, lemma_bytes_lt_irreflexive};
use crate::storage::{
    Storage, StorageError, WriteBatch, BatchOp, OpModel, ScanRows, KvMap, apply_op, apply_ops, op_key,
    has_prefix, rows_view, is_prefix_scan, keys_increasing, agree_on_prefix,
    lemma_apply_ops_append, lemma_apply_ops_untouched, lemma_apply_ops_agree,
    lemma_prefix_scan_transfer,
};

verus! {

/// Staged writes over a store that is only read.
pub struct Overlay<'a, S: Storage> {
    base: &'a S,
    pending: WriteBatch,
    stagings: Ghost<nat>,
}

/// A byte-for-byte copy of a vector.
fn copy_bytes(v: &Vec<u8>) -> (r: Vec<u8>)
    ensures
        r@ == v@,
{
    vstd::slice::slice_to_vec(v.as_slice())
}

impl<'a, S: Storage> Overlay<'a, S> {
    /// The contents of the store being read.
    pub closed spec fn base_kv(&self) -> Map<Seq<u8>, Seq<u8>> {
        self.base.kv()
    }

    /// The operations staged so far, in order.
    pub closed spec fn staged(&self) -> Seq<OpModel> {
        self.pending@
    }

    pub proof fn lemma_kv(&self)
        ensures
            self.kv() == apply_ops(self.base_kv(), self.staged()),
    {
    }

    pub fn new(base: &'a S) -> (ov: Self)
        ensures
            ov.base_kv() == base.kv(),
            ov.staged() == Seq::<OpModel>::empty(),
            ov.kv() == base.kv(),
            ov.reliable() == base.reliable(),
            ov.reads_ok() == base.reads_ok(),
    {
        Overlay { base, pending: WriteBatch::new(), stagings: Ghost(0) }
    }

    /// Stage the operations of `batch` after those already staged.
    pub fn stage(&mut self, batch: WriteBatch)
        ensures
            final(self).base_kv() == old(self).base_kv(),
            final(self).staged() == old(self).staged() + batch@,
            final(self).kv() == apply_ops(old(self).kv(), batch@),
            final(self).reliable() == old(self).reliable(),
            final(self).reads_ok() == old(self).reads_ok(),
            final(self).commits() == old(self).commits(),
    {
        let mut b = batch;
        let ghost before = self.pending@;
        self.pending.ops.append(&mut b.ops);
        assert(self.pending@ =~= before + batch@);
        proof {
            lemma_apply_ops_append(self.base.kv(), before, batch@);
        }
    }

    /// The staged operations, as one batch.
    pub fn into_batch(self) -> (b: WriteBatch)
        ensures
            b@ == self.staged(),
    {
        self.pending
    }
}

impl<'a, S: Storage> Storage for Overlay<'a, S> {
    closed spec fn kv(&self) -> Map<Seq<u8>, Seq<u8>> {
        apply_ops(self.base.kv(), self.pending@)
    }

    /// As reliable as the store it reads.
    closed spec fn reliable(&self) -> bool {
        self.base.reliable()
    }

    /// Read as the store it reads is.
    closed spec fn reads_ok(&self) -> bool {
        self.base.reads_ok()
    }

    /// How many batches were staged.
    closed spec fn commits(&self) -> nat {
        self.stagings@
    }

    proof fn lemma_reliable_reads(&self) {
        self.base.lemma_reliable_reads();
    }

    /// The last staged operation on `key` decides; without one the base does.
    fn get(&self, key: &[u8]) -> (r: Result<Option<Vec<u8>>, StorageError>) {
        let ghost ops = self.pending@;
        let mut i = self.pending.ops.len();
        while i > 0
            invariant
                i <= ops.len(),
                ops == self.pending@,
                forall|j: int| i <= j < ops.len() ==> op_key(#[trigger] ops[j]) != key@,
            decreases i,
        {
            i = i - 1;
            let ghost m = apply_ops(self.base.kv(), ops.take(i + 1));
            proof {
                lemma_apply_ops_append(self.base.kv(), ops.take(i + 1), ops.skip(i + 1));
                assert(ops.take(i + 1) + ops.skip(i + 1) =~= ops);
                assert forall|j: int| 0 <= j < ops.skip(i + 1).len() implies op_key(
                    #[trigger] ops.skip(i + 1)[j],
                ) != key@ by {
                    assert(ops.skip(i + 1)[j] == ops[i + 1 + j]);
                }
                lemma_apply_ops_untouched(m, ops.skip(i + 1), key@);
                assert(ops.take(i + 1).drop_last() =~= ops.take(i as int));
                assert(ops.take(i + 1).last() == ops[i as int]);
            }
            match &self.pending.ops[i] {
                BatchOp::Put { key: k, value } => {
                    if compare_bytes(k.as_slice(), key) == Order::Equal {
                        return Ok(Some(copy_bytes(value)));
                    }
                },
                BatchOp::Delete { key: k } => {
                    if compare_bytes(k.as_slice(), key) == Order::Equal {
                        return Ok(None);
                    }
                },
            }
        }
        proof {
            assert(ops.skip(0) =~= ops);
            lemma_apply_ops_untouched(self.base.kv(), ops, key@);
        }
        self.base.get(key)
    }

    /// Staging never fails.
    fn commit(&mut self, batch: WriteBatch) -> (r: Result<(), StorageError>) {
        self.stage(batch);
        self.stagings = Ghost(self.stagings@ + 1);
        Ok(())
    }

    /// The base's rows under `prefix`, with the staged operations applied.
    fn scan_prefix(&self, prefix: &[u8]) -> (r: Result<ScanRows, StorageError>) {
        let rows = self.base.scan_prefix(prefix)?;
        let ghost rv = rows_view(rows@);
        let ghost base = self.base.kv();
        let mut m = KvMap::new();
        let mut i: usize = 0;
        while i < rows.len()
            invariant
                i <= rows@.len(),
                rv == rows_view(rows@),
                is_prefix_scan(base, prefix@, rv),
                m.wf(),
                forall|k: Seq<u8>|
                    #[trigger] m.map().contains_key(k) <==> exists|j: int| 0 <= j < i && rv[j].0 == k,
                forall|j: int| 0 <= j < i ==> m.map()[#[trigger] rv[j].0] == rv[j].1,
            decreases rows@.len() - i,
        {
            let ghost before = m.map();
            m.put(copy_bytes(&rows[i].0), copy_bytes(&rows[i].1));
            proof {
                assert forall|j: int| 0 <= j < i implies rv[j].0 != rv[i as int].0 by {
                    assert(keys_increasing(rv));
                    lemma_bytes_lt_irreflexive(rv[j].0);
                }
                assert forall|k: Seq<u8>| #[trigger] m.map().contains_key(k) <==> exists|j: int|
                    0 <= j < i + 1 && rv[j].0 == k by {
                    if m.map().contains_key(k) && k != rv[i as int].0 {
                        assert(before.contains_key(k));
                    }
                    if k == rv[i as int].0 {
                        assert(rv[i as int].0 == k);
                    }
                }
            }
            i = i + 1;
        }
        let ghost start = m.map();
        proof {
            assert forall|k: Seq<u8>| has_prefix(k, prefix@) implies (start.contains_key(k)
                <==> base.contains_key(k)) && (start.contains_key(k) ==> start[k] == base[k]) by {
                if start.contains_key(k) {
                    let j = choose|j: int| 0 <= j < rows@.len() && rv[j].0 == k;
                    assert(start[rv[j].0] == rv[j].1);
                }
                if base.contains_key(k) {
                    let j = choose|j: int| 0 <= j < rv.len() && #[trigger] rv[j].0 == k;
                    assert(start.contains_key(rv[j].0));
                }
            }
            assert(agree_on_prefix(start, base, prefix@));
        }
        let ghost ops = self.pending@;
        let n = self.pending.ops.len();
        let mut j: usize = 0;
        assert(ops.take(0) =~= Seq::<OpModel>::empty());
        while j < n
            invariant
                j <= n,
                n == ops.len(),
                ops == self.pending@,
                m.wf(),
                m.map() == apply_ops(start, ops.take(j as int)),
            decreases n - j,
        {
            match &self.pending.ops[j] {
                BatchOp::Put { key, value } => m.put(copy_bytes(key), copy_bytes(value)),
                BatchOp::Delete { key } => m.delete(key.as_slice()),
            }
            assert(ops.take(j + 1).drop_last() =~= ops.take(j as int));
            j = j + 1;
        }
        assert(ops.take(j as int) =~= ops);
        let out = m.scan_prefix(prefix);
        proof {
            lemma_apply_ops_agree(start, base, prefix@, ops);
            lemma_prefix_scan_transfer(m.map(), apply_ops(base, ops), prefix@, rows_view(out@));
        }
        Ok(out)
    }
}

} // verus!
