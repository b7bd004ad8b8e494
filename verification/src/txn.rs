//! Atomic multi-operation transactions: every operation is staged on one
//! overlay, and the staged writes reach the store in a single commit.

use vstd::prelude::*;
use crate::db::{
    Database, Kv, spec_mkdir, spec_set, spec_delete, spec_hash_set, spec_list_push, spec_set_add,
    spec_tree_set, staged_agrees, mutation_agrees, mkdir_in, set_in, delete_in, hash_set_in,
    list_push_in, set_add_in, tree_set_in,
};
use crate::errors::{NsError, NsErr, storage_failed, text};
use crate::overlay::Overlay;
use crate::path::DbPath;
use crate::storage::{Storage, OpModel, apply_ops};
use crate::value::{Scalar, ScalarModel, Value, ValueModel};

verus! {

/// One mutation inside a transaction.
#[derive(Debug)]
pub enum TxnOp {
    Mkdir { path: DbPath },
    SetValue { path: DbPath, value: Value },
    Delete { path: DbPath },
    HashSet { path: DbPath, key: String, value: Value },
    ListPush { path: DbPath, value: Value },
    SetAdd { path: DbPath, value: Value },
    TreeSet { path: DbPath, key: Scalar, value: Value },
}

/// Model of a transaction operation.
pub enum TxnOpModel {
    Mkdir(Seq<Seq<char>>),
    SetValue(Seq<Seq<char>>, ValueModel),
    Delete(Seq<Seq<char>>),
    HashSet(Seq<Seq<char>>, Seq<char>, ValueModel),
    ListPush(Seq<Seq<char>>, ValueModel),
    SetAdd(Seq<Seq<char>>, ValueModel),
    TreeSet(Seq<Seq<char>>, ScalarModel, ValueModel),
}

impl TxnOp {
    pub open spec fn model(&self) -> TxnOpModel {
        match self {
            TxnOp::Mkdir { path } => TxnOpModel::Mkdir(path@),
            TxnOp::SetValue { path, value } => TxnOpModel::SetValue(path@, value.model()),
            TxnOp::Delete { path } => TxnOpModel::Delete(path@),
            TxnOp::HashSet { path, key, value } => TxnOpModel::HashSet(path@, key@, value.model()),
            TxnOp::ListPush { path, value } => TxnOpModel::ListPush(path@, value.model()),
            TxnOp::SetAdd { path, value } => TxnOpModel::SetAdd(path@, value.model()),
            TxnOp::TreeSet { path, key, value } => TxnOpModel::TreeSet(path@, key.model(), value.model()),
        }
    }
}

pub open spec fn op_models(ops: Seq<TxnOp>) -> Seq<TxnOpModel> {
    Seq::new(ops.len(), |i: int| ops[i].model())
}

/// The store after one operation inside a transaction: what the operation
/// does on its own, type index included.
#[verifier::opaque]
pub open spec fn spec_op(kv: Kv, op: TxnOpModel) -> Result<Kv, NsErr> {
    match op {
        TxnOpModel::Mkdir(p) => spec_mkdir(kv, p, true),
        TxnOpModel::SetValue(p, v) => spec_set(kv, p, v, true),
        TxnOpModel::Delete(p) => spec_delete(kv, p, true),
        TxnOpModel::HashSet(p, k, v) => spec_hash_set(kv, p, k, v, true),
        TxnOpModel::ListPush(p, v) => spec_list_push(kv, p, v, true),
        TxnOpModel::SetAdd(p, v) => spec_set_add(kv, p, v, true),
        TxnOpModel::TreeSet(p, k, v) => spec_tree_set(kv, p, k, v, true),
    }
}

/// The store after the operations in order, or the first error.
pub open spec fn spec_txn(kv: Kv, ops: Seq<TxnOpModel>) -> Result<Kv, NsErr>
    decreases ops.len(),
{
    if ops.len() == 0 {
        Ok(kv)
    } else {
        match spec_txn(kv, ops.drop_last()) {
            Err(e) => Err(e),
            Ok(m) => spec_op(m, ops.last()),
        }
    }
}

/// Running `a` then `b` as one transaction is running `a`, then `b` on what
/// `a` left; an error in `a` is the transaction's error.
pub proof fn lemma_txn_compose(kv: Kv, a: Seq<TxnOpModel>, b: Seq<TxnOpModel>)
    ensures
        spec_txn(kv, a + b) == match spec_txn(kv, a) {
            Err(e) => Err(e),
            Ok(m) => spec_txn(m, b),
        },
    decreases b.len(),
{
    if b.len() == 0 {
        assert(a + b =~= a);
    } else {
        lemma_txn_compose(kv, a, b.drop_last());
        assert((a + b).drop_last() =~= a + b.drop_last());
        assert((a + b).last() == b.last());
    }
}

/// A transaction of one operation does what the operation does.
pub proof fn lemma_txn_single(kv: Kv, op: TxnOpModel)
    ensures
        spec_txn(kv, seq![op]) == spec_op(kv, op),
{
    let s = seq![op];
    assert(s.drop_last() =~= Seq::<TxnOpModel>::empty());
    assert(spec_txn(kv, s.drop_last()) == Ok::<Kv, NsErr>(kv));
    assert(s.last() == op);
}

/// For an operation at the root that needs no reading of the store: `true`
/// where it succeeds without change (`mkdir`), `false` where it is refused
/// as invalid (`set`, `delete`).
#[verifier::opaque]
pub open spec fn root_outcome(op: TxnOpModel) -> Option<bool> {
    match op {
        TxnOpModel::Mkdir(p) => if p.len() == 0 { Some(true) } else { None },
        TxnOpModel::SetValue(p, _) => if p.len() == 0 { Some(false) } else { None },
        TxnOpModel::Delete(p) => if p.len() == 0 { Some(false) } else { None },
        _ => None,
    }
}

/// Each step of a transaction does what the single call of the same
/// operation does (type index included); a transaction runs its steps in
/// order (`spec_txn`), so it equals the single calls made one after the
/// other, committed at once.
pub proof fn lemma_spec_op_cases(kv: Kv, op: TxnOpModel)
    ensures
        spec_op(kv, op) == match op {
            TxnOpModel::Mkdir(p) => spec_mkdir(kv, p, true),
            TxnOpModel::SetValue(p, v) => spec_set(kv, p, v, true),
            TxnOpModel::Delete(p) => spec_delete(kv, p, true),
            TxnOpModel::HashSet(p, k, v) => spec_hash_set(kv, p, k, v, true),
            TxnOpModel::ListPush(p, v) => spec_list_push(kv, p, v, true),
            TxnOpModel::SetAdd(p, v) => spec_set_add(kv, p, v, true),
            TxnOpModel::TreeSet(p, k, v) => spec_tree_set(kv, p, k, v, true),
        },
{
    reveal(spec_op);
}

/// Stage one operation on the overlay.
fn stage_op<'a, S: Storage>(ov: &mut Overlay<'a, S>, op: &TxnOp) -> (r: Result<(), NsError>)
    ensures
        old(ov).reliable() ==> !storage_failed(r),
        final(ov).reliable() == old(ov).reliable(),
        final(ov).reads_ok() == old(ov).reads_ok(),
        staged_agrees(r, old(ov).kv(), final(ov).kv(), spec_op(old(ov).kv(), op.model())),
        final(ov).base_kv() == old(ov).base_kv(),
{
    proof {
        lemma_spec_op_cases(ov.kv(), op.model());
    }
    match op {
        TxnOp::Mkdir { path } => mkdir_in(ov, path, true),
        TxnOp::SetValue { path, value } => set_in(ov, path, value.deep_clone(), true),
        TxnOp::Delete { path } => delete_in(ov, path, true),
        TxnOp::HashSet { path, key, value } => hash_set_in(ov, path, key.clone(), value.deep_clone(), true),
        TxnOp::ListPush { path, value } => list_push_in(ov, path, value.deep_clone(), true),
        TxnOp::SetAdd { path, value } => set_add_in(ov, path, value.deep_clone(), true),
        TxnOp::TreeSet { path, key, value } => tree_set_in(ov, path, key.deep_clone(), value.deep_clone(), true),
    }
}

/// Stage one operation on the overlay; at the root, `mkdir` does nothing
/// and `set` and `delete` are refused before the store is read.
fn apply_one<'a, S: Storage>(ov: &mut Overlay<'a, S>, op: &TxnOp) -> (r: Result<(), NsError>)
    ensures
        old(ov).reliable() ==> !storage_failed(r),
        final(ov).reliable() == old(ov).reliable(),
        final(ov).reads_ok() == old(ov).reads_ok(),
        staged_agrees(r, old(ov).kv(), final(ov).kv(), spec_op(old(ov).kv(), op.model())),
        final(ov).base_kv() == old(ov).base_kv(),
        root_outcome(op.model()) == Some(true) ==> r is Ok && final(ov).kv() == old(ov).kv(),
        root_outcome(op.model()) == Some(false) ==> (r matches Err(NsError::Invalid(_)))
            && final(ov).kv() == old(ov).kv(),
{
    proof {
        reveal(root_outcome);
        lemma_spec_op_cases(ov.kv(), op.model());
    }
    match op {
        TxnOp::Mkdir { path } => {
            if path.is_root() {
                return Ok(());
            }
        },
        TxnOp::SetValue { path, .. } => {
            if path.is_root() {
                return Err(NsError::Invalid(text("cannot set value at root")));
            }
        },
        TxnOp::Delete { path } => {
            if path.is_root() {
                return Err(NsError::Invalid(text("cannot delete root")));
            }
        },
        _ => {},
    }
    stage_op(ov, op)
}

impl<S: Storage> Database<S> {
    /// Apply all operations atomically, with a single storage commit. When an
    /// operation fails, nothing of the transaction reaches the store, and the
    /// store is asked for no commit; no operations ask for none either.
    pub fn apply_txn(&mut self, ops: &[TxnOp]) -> (r: Result<(), NsError>)
        ensures
            old(self).reliable() ==> !storage_failed(r),
            final(self).reliable() == old(self).reliable(),
            final(self).reads_ok() == old(self).reads_ok(),
            mutation_agrees(r, old(self).kv(), final(self).kv(), spec_txn(old(self).kv(), op_models(ops@))),
            ops@.len() == 0 ==> r is Ok && final(self).kv() == old(self).kv(),
            final(self).commits() <= old(self).commits() + 1,
            ops@.len() == 0 ==> final(self).commits() == old(self).commits(),
            r is Err && !storage_failed(r) ==> final(self).commits() == old(self).commits(),
    {
        let ghost kv = self.kv();
        let ghost opm = op_models(ops@);
        if ops.len() == 0 {
            return Ok(());
        }
        let ghost rel0 = self.reliable();
        let ghost c0 = self.commits();
        let mut ov = Overlay::new(self.store());
        let mut i: usize = 0;
        assert(opm.take(0) =~= Seq::<TxnOpModel>::empty());
        while i < ops.len()
            invariant
                i <= ops@.len(),
                opm == op_models(ops@),
                ov.base_kv() == kv,
                kv == self.kv(),
                ov.reliable() == rel0,
                rel0 == self.reliable(),
                c0 == self.commits(),
                spec_txn(kv, opm.take(i as int)) == Ok::<Kv, NsErr>(ov.kv()),
            decreases ops@.len() - i,
        {
            let ghost before = ov.kv();
            let res = apply_one(&mut ov, &ops[i]);
            proof {
                assert(opm.take(i + 1).drop_last() =~= opm.take(i as int));
                assert(opm.take(i + 1).last() == ops@[i as int].model());
            }
            match res {
                Ok(()) => {},
                Err(e) => {
                    proof {
                        if !storage_failed(Err::<(), NsError>(e)) {
                            lemma_txn_compose(kv, opm.take(i + 1), opm.skip(i + 1));
                            assert(opm.take(i + 1) + opm.skip(i + 1) =~= opm);
                        }
                    }
                    return Err(e);
                },
            }
            i = i + 1;
        }
        assert(opm.take(i as int) =~= opm);
        let batch = ov.into_batch();
        proof {
            ov.lemma_kv();
        }
        self.commit_batch(batch)
    }
}

} // verus!
