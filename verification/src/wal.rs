//! The on-disk formats of durable storage: commit records of the
//! write-ahead log, and checkpoints of the whole map, each protected by a
//! CRC-32.

use vstd::prelude::*;
use crate::bytes::{le32, from_le32, le64, from_le64, lemma_le32_roundtrip, lemma_le64_roundtrip, write_u32, write_u64, read_u32_at, read_u64_at, append_bytes, copy_range};
use crate::errors::text;
use crate::fmt::{decimal, push_decimal};
use crate::storage::{BatchOp, OpModel, KvMap, StorageError, apply_ops, entries_map, keys_increasing, rows_view, Storage, Compact, WriteBatch, ScanRows, apply_batch_ops};

verus! {

// ---------------------------------------------------------------------------
// CRC-32 (IEEE, reflected, polynomial 0xEDB88320)

/// One bit step of the CRC register.
pub open spec fn crc_bit(c: u32) -> u32 {
    if c & 1 == 1 {
        (c >> 1u32) ^ 0xEDB8_8320u32
    } else {
        c >> 1u32
    }
}

/// `k` bit steps of the CRC register.
pub open spec fn crc_bits(c: u32, k: nat) -> u32
    decreases k,
{
    if k == 0 {
        c
    } else {
        crc_bits(crc_bit(c), (k - 1) as nat)
    }
}

/// The CRC register after feeding `data` into a fresh one.
pub open spec fn crc_register(data: Seq<u8>) -> u32
    decreases data.len(),
{
    if data.len() == 0 {
        0xffff_ffffu32
    } else {
        crc_bits(crc_register(data.drop_last()) ^ (data.last() as u32), 8)
    }
}

/// The CRC-32 of `data`.
pub open spec fn crc32_spec(data: Seq<u8>) -> u32 {
    !crc_register(data)
}

/// The CRC-32 of `data`.
#[verifier::spinoff_prover]
#[verifier::rlimit(30)]
pub fn crc32(data: &[u8]) -> (r: u32)
    ensures
        r == crc32_spec(data@),
{
    let mut crc: u32 = 0xffff_ffff;
    let mut i: usize = 0;
    while i < data.len()
        invariant
            i <= data@.len(),
            crc == crc_register(data@.take(i as int)),
        decreases data@.len() - i,
    {
        assert(data@.take(i + 1).drop_last() =~= data@.take(i as int));
        assert(data@.take(i + 1).last() == data@[i as int]);
        let start = crc ^ (data[i] as u32);
        crc = start;
        let mut j: u32 = 0;
        while j < 8
            invariant
                j <= 8,
                crc_bits(crc, (8 - j) as nat) == crc_bits(start, 8),
            decreases 8 - j,
        {
            let next = if crc & 1 == 1 {
                (crc >> 1u32) ^ 0xEDB8_8320u32
            } else {
                crc >> 1u32
            };
            assert(next == crc_bit(crc));
            crc = next;
            j = j + 1;
        }
        i = i + 1;
    }
    assert(data@.take(i as int) =~= data@);
    !crc
}

// ---------------------------------------------------------------------------
// Commit records

/// A length as the formats store it: its value modulo 2^32, little-endian.
pub open spec fn len32(n: nat) -> Seq<u8> {
    le32((n % 0x1_0000_0000) as u32)
}

pub open spec fn wal_magic() -> Seq<u8> {
    seq![0x41u8, 0x4cu8, 0x45u8, 0x46u8]
}

/// The bytes of one operation: tag 1 with key and value, or tag 2 with key.
pub open spec fn op_bytes(op: OpModel) -> Seq<u8> {
    match op {
        OpModel::Put(k, v) => seq![1u8] + len32(k.len()) + k + len32(v.len()) + v,
        OpModel::Delete(k) => seq![2u8] + len32(k.len()) + k,
    }
}

pub open spec fn ops_bytes(ops: Seq<OpModel>) -> Seq<u8>
    decreases ops.len(),
{
    if ops.len() == 0 {
        Seq::empty()
    } else {
        ops_bytes(ops.drop_last()) + op_bytes(ops.last())
    }
}

/// The body of a commit record: type 1, the count, the operations.
pub open spec fn record_body(ops: Seq<OpModel>) -> Seq<u8> {
    seq![1u8] + len32(ops.len()) + ops_bytes(ops)
}

/// A commit record: magic, version 1, body length, body, CRC of the body.
pub open spec fn commit_record(ops: Seq<OpModel>) -> Seq<u8> {
    let body = record_body(ops);
    wal_magic() + seq![1u8] + len32(body.len()) + body + le32(crc32_spec(body))
}

fn push_len32(out: &mut Vec<u8>, n: usize)
    ensures
        final(out)@ == old(out)@ + len32(n as nat),
{
    let n64: u64 = n as u64;
    let m: u32 = #[verifier::truncate] (n64 as u32);
    assert(m == (n64 % 0x1_0000_0000) as u32) by (bit_vector)
        requires
            m == #[verifier::truncate] (n64 as u32),
    ;
    write_u32(out, m);
}

pub open spec fn ops_models(ops: Seq<BatchOp>) -> Seq<OpModel> {
    Seq::new(ops.len(), |i: int| ops[i].model())
}

/// The commit record of a batch of operations.
#[verifier::spinoff_prover]
#[verifier::rlimit(30)]
pub fn encode_commit_record(ops: &Vec<BatchOp>) -> (r: Vec<u8>)
    ensures
        r@ == commit_record(ops_models(ops@)),
{
    let ghost om = ops_models(ops@);
    let mut body: Vec<u8> = Vec::new();
    body.push(1u8);
    push_len32(&mut body, ops.len());
    let ghost head = body@;
    assert(om.take(0) =~= Seq::<OpModel>::empty());
    let mut i: usize = 0;
    while i < ops.len()
        invariant
            i <= ops@.len(),
            om == ops_models(ops@),
            body@ == head + ops_bytes(om.take(i as int)),
        decreases ops@.len() - i,
    {
        assert(om.take(i + 1).drop_last() =~= om.take(i as int));
        assert(om.take(i + 1).last() == ops@[i as int].model());
        let ghost before = body@;
        match &ops[i] {
            BatchOp::Put { key, value } => {
                body.push(1u8);
                push_len32(&mut body, key.len());
                append_bytes(&mut body, key.as_slice());
                push_len32(&mut body, value.len());
                append_bytes(&mut body, value.as_slice());
            },
            BatchOp::Delete { key } => {
                body.push(2u8);
                push_len32(&mut body, key.len());
                append_bytes(&mut body, key.as_slice());
            },
        }
        assert(body@ =~= before + op_bytes(ops@[i as int].model()));
        i = i + 1;
    }
    assert(om.take(i as int) =~= om);
    assert(body@ =~= record_body(om));
    let checksum = crc32(body.as_slice());
    let mut rec: Vec<u8> = Vec::new();
    rec.push(0x41u8);
    rec.push(0x4cu8);
    rec.push(0x45u8);
    rec.push(0x46u8);
    rec.push(1u8);
    push_len32(&mut rec, body.len());
    append_bytes(&mut rec, body.as_slice());
    write_u32(&mut rec, checksum);
    assert(rec@ =~= commit_record(om));
    rec
}

// ---------------------------------------------------------------------------
// Reading records back

pub open spec fn eof_text() -> Seq<char> {
    "unexpected eof"@
}

/// A byte string with a 32-bit length prefix at `pos`, and the position
/// after it.
pub open spec fn read_chunk(b: Seq<u8>, pos: int) -> Result<(Seq<u8>, int), Seq<char>> {
    if pos + 4 > b.len() {
        Err(eof_text())
    } else {
        let n = from_le32(b.subrange(pos, pos + 4)) as int;
        if pos + 4 + n > b.len() {
            Err(eof_text())
        } else {
            Ok((b.subrange(pos + 4, pos + 4 + n), pos + 4 + n))
        }
    }
}

/// One operation at `pos`, and the position after it.
pub open spec fn read_op(b: Seq<u8>, pos: int) -> Result<(OpModel, int), Seq<char>> {
    if pos >= b.len() {
        Err(eof_text())
    } else if b[pos] == 1 {
        match read_chunk(b, pos + 1) {
            Err(e) => Err(e),
            Ok((k, p)) => match read_chunk(b, p) {
                Err(e) => Err(e),
                Ok((v, q)) => Ok((OpModel::Put(k, v), q)),
            },
        }
    } else if b[pos] == 2 {
        match read_chunk(b, pos + 1) {
            Err(e) => Err(e),
            Ok((k, p)) => Ok((OpModel::Delete(k), p)),
        }
    } else {
        Err("unknown op tag "@ + decimal(b[pos] as nat))
    }
}

/// `n` operations from `pos` on, and the position after them, or the
/// first one's error.
pub open spec fn read_ops(b: Seq<u8>, pos: int, n: nat) -> Result<(Seq<OpModel>, int), Seq<char>>
    decreases n,
{
    if n == 0 {
        Ok((Seq::empty(), pos))
    } else {
        match read_ops(b, pos, (n - 1) as nat) {
            Err(e) => Err(e),
            Ok((ops, p)) => match read_op(b, p) {
                Err(e) => Err(e),
                Ok((op, q)) => Ok((ops.push(op), q)),
            },
        }
    }
}

/// The operations of a commit record's body, or why it is corrupt.
pub open spec fn parse_body(b: Seq<u8>) -> Result<Seq<OpModel>, Seq<char>> {
    if b.len() == 0 {
        Err("empty WAL body"@)
    } else if b[0] != 1 {
        Err("unknown record type "@ + decimal(b[0] as nat))
    } else if b.len() < 5 {
        Err(eof_text())
    } else {
        match read_ops(b, 5, from_le32(b.subrange(1, 5)) as nat) {
            Err(e) => Err(e),
            Ok((ops, p)) => if p != b.len() {
                Err("trailing bytes in WAL body"@)
            } else {
                Ok(ops)
            },
        }
    }
}

fn corrupt(m: &str) -> (e: StorageError)
    ensures
        e matches StorageError::Corrupt(x) && x@ == m@,
{
    StorageError::Corrupt(text(m))
}

fn corrupt_num(m: &str, n: u64) -> (e: StorageError)
    ensures
        e matches StorageError::Corrupt(x) && x@ == m@ + decimal(n as nat),
{
    let mut s = text(m);
    push_decimal(&mut s, n);
    StorageError::Corrupt(s)
}

fn read_chunk_at(b: &[u8], pos: usize) -> (r: Result<(Vec<u8>, usize), StorageError>)
    requires
        pos <= b@.len(),
    ensures
        match read_chunk(b@, pos as int) {
            Ok((c, p)) => r matches Ok((x, q)) && x@ == c && q == p,
            Err(m) => r matches Err(StorageError::Corrupt(x)) && x@ == m,
        },
{
    if b.len() - pos < 4 {
        return Err(corrupt("unexpected eof"));
    }
    let n = read_u32_at(b, pos) as usize;
    if b.len() - (pos + 4) < n {
        return Err(corrupt("unexpected eof"));
    }
    Ok((copy_range(b, pos + 4, pos + 4 + n), pos + 4 + n))
}

fn read_op_at(b: &[u8], pos: usize) -> (r: Result<(BatchOp, usize), StorageError>)
    requires
        pos <= b@.len(),
    ensures
        match read_op(b@, pos as int) {
            Ok((op, p)) => r matches Ok((x, q)) && x.model() == op && q == p,
            Err(m) => r matches Err(StorageError::Corrupt(x)) && x@ == m,
        },
{
    if pos >= b.len() {
        return Err(corrupt("unexpected eof"));
    }
    let tag = b[pos];
    if tag == 1 {
        let (k, p) = read_chunk_at(b, pos + 1)?;
        let (v, q) = read_chunk_at(b, p)?;
        Ok((BatchOp::Put { key: k, value: v }, q))
    } else if tag == 2 {
        let (k, p) = read_chunk_at(b, pos + 1)?;
        Ok((BatchOp::Delete { key: k }, p))
    } else {
        Err(corrupt_num("unknown op tag ", tag as u64))
    }
}

proof fn lemma_read_ops_err(b: Seq<u8>, pos: int, k: nat, n: nat)
    requires
        k <= n,
        read_ops(b, pos, k) is Err,
    ensures
        read_ops(b, pos, n) == read_ops(b, pos, k),
    decreases n,
{
    if n > k {
        lemma_read_ops_err(b, pos, k, (n - 1) as nat);
    }
}

proof fn lemma_read_ops_pos(b: Seq<u8>, pos: int, n: nat)
    requires
        0 <= pos,
    ensures
        read_ops(b, pos, n) matches Ok((_, p)) ==> pos <= p <= b.len() || (n == 0 && p == pos),
    decreases n,
{
    if n > 0 {
        lemma_read_ops_pos(b, pos, (n - 1) as nat);
    }
}

/// The operations of a commit record's body.
#[verifier::spinoff_prover]
#[verifier::rlimit(30)]
pub fn parse_record_body(body: &[u8]) -> (r: Result<Vec<BatchOp>, StorageError>)
    ensures
        match parse_body(body@) {
            Ok(ops) => r matches Ok(v) && ops_models(v@) == ops,
            Err(m) => r matches Err(StorageError::Corrupt(x)) && x@ == m,
        },
{
    if body.len() == 0 {
        return Err(corrupt("empty WAL body"));
    }
    if body[0] != 1 {
        return Err(corrupt_num("unknown record type ", body[0] as u64));
    }
    if body.len() < 5 {
        return Err(corrupt("unexpected eof"));
    }
    let n = read_u32_at(body, 1);
    let mut ops: Vec<BatchOp> = Vec::new();
    let mut pos: usize = 5;
    let mut k: u32 = 0;
    assert(ops_models(ops@) =~= Seq::<OpModel>::empty());
    while k < n
        invariant
            k <= n,
            n == from_le32(body@.subrange(1, 5)),
            body@.len() >= 5,
            body@[0] == 1,
            5 <= pos <= body@.len(),
            read_ops(body@, 5, k as nat) == Ok::<(Seq<OpModel>, int), Seq<char>>((ops_models(ops@), pos as int)),
        decreases n - k,
    {
        match read_op_at(body, pos) {
            Ok((op, q)) => {
                let ghost before = ops_models(ops@);
                ops.push(op);
                assert(ops_models(ops@) =~= before.push(op.model()));
                proof {
                    lemma_read_ops_pos(body@, 5, (k + 1) as nat);
                }
                pos = q;
                k = k + 1;
            },
            Err(e) => {
                proof {
                    let m = read_op(body@, pos as int)->Err_0;
                    assert(read_ops(body@, 5, (k + 1) as nat) == Err::<(Seq<OpModel>, int), Seq<char>>(m));
                    lemma_read_ops_err(body@, 5, (k + 1) as nat, n as nat);
                }
                return Err(e);
            },
        }
    }
    if pos != body.len() {
        return Err(corrupt("trailing bytes in WAL body"));
    }
    Ok(ops)
}

/// Apply the operations of a commit record's body to `map`; a corrupt
/// body changes nothing.
pub fn apply_record_body(body: &[u8], map: &mut KvMap) -> (r: Result<(), StorageError>)
    requires
        old(map).wf(),
    ensures
        final(map).wf(),
        match parse_body(body@) {
            Ok(ops) => r is Ok && final(map).map() == apply_ops(old(map).map(), ops),
            Err(m) => r matches Err(StorageError::Corrupt(x)) && x@ == m && final(map).map() == old(map).map(),
        },
{
    let ops = parse_record_body(body)?;
    crate::storage::apply_batch_ops(map, ops);
    Ok(())
}

/// Every length a record of `ops` stores fits in 32 bits.
pub open spec fn ops_fit(ops: Seq<OpModel>) -> bool {
    &&& ops.len() < 0x1_0000_0000
    &&& forall|i: int| 0 <= i < ops.len() ==> match #[trigger] ops[i] {
        OpModel::Put(k, v) => k.len() < 0x1_0000_0000 && v.len() < 0x1_0000_0000,
        OpModel::Delete(k) => k.len() < 0x1_0000_0000,
    }
}

proof fn lemma_len32(n: nat)
    requires
        n < 0x1_0000_0000,
    ensures
        from_le32(len32(n)) == n,
        len32(n).len() == 4,
{
    lemma_le32_roundtrip((n % 0x1_0000_0000) as u32);
}

proof fn lemma_read_chunk(b: Seq<u8>, pos: int, c: Seq<u8>)
    requires
        0 <= pos,
        c.len() < 0x1_0000_0000,
        pos + 4 + c.len() <= b.len(),
        b.subrange(pos, pos + 4 + c.len()) == len32(c.len()) + c,
    ensures
        read_chunk(b, pos) == Ok::<(Seq<u8>, int), Seq<char>>((c, pos + 4 + c.len())),
{
    lemma_len32(c.len());
    let w = b.subrange(pos, pos + 4 + c.len());
    assert(w.subrange(0, 4) =~= len32(c.len()));
    assert(w.subrange(4, 4 + c.len() as int) =~= c);
    assert(b.subrange(pos, pos + 4) =~= w.subrange(0, 4));
    assert(b.subrange(pos + 4, pos + 4 + c.len()) =~= w.subrange(4, 4 + c.len() as int));
}

proof fn lemma_read_op(b: Seq<u8>, pos: int, op: OpModel)
    requires
        0 <= pos,
        match op {
            OpModel::Put(k, v) => k.len() < 0x1_0000_0000 && v.len() < 0x1_0000_0000,
            OpModel::Delete(k) => k.len() < 0x1_0000_0000,
        },
        pos + op_bytes(op).len() <= b.len(),
        b.subrange(pos, pos + op_bytes(op).len()) == op_bytes(op),
    ensures
        read_op(b, pos) == Ok::<(OpModel, int), Seq<char>>((op, pos + op_bytes(op).len())),
{
    let ob = op_bytes(op);
    assert(b[pos] == ob[0]);
    match op {
        OpModel::Put(k, v) => {
            lemma_len32(k.len());
            lemma_len32(v.len());
            let p = pos + 1 + 4 + k.len();
            assert(b.subrange(pos + 1, p) =~= ob.subrange(1, 5 + k.len() as int));
            assert(ob.subrange(1, 5 + k.len() as int) =~= len32(k.len()) + k);
            lemma_read_chunk(b, pos + 1, k);
            assert(b.subrange(p, p + 4 + v.len()) =~= ob.subrange(5 + k.len() as int, ob.len() as int));
            assert(ob.subrange(5 + k.len() as int, ob.len() as int) =~= len32(v.len()) + v);
            lemma_read_chunk(b, p, v);
        },
        OpModel::Delete(k) => {
            lemma_len32(k.len());
            assert(b.subrange(pos + 1, pos + 5 + k.len()) =~= ob.subrange(1, ob.len() as int));
            assert(ob.subrange(1, ob.len() as int) =~= len32(k.len()) + k);
            lemma_read_chunk(b, pos + 1, k);
        },
    }
}

proof fn lemma_read_ops(b: Seq<u8>, pos: int, ops: Seq<OpModel>)
    requires
        0 <= pos,
        ops_fit(ops),
        pos + ops_bytes(ops).len() <= b.len(),
        b.subrange(pos, pos + ops_bytes(ops).len()) == ops_bytes(ops),
    ensures
        read_ops(b, pos, ops.len()) == Ok::<(Seq<OpModel>, int), Seq<char>>((ops, pos + ops_bytes(ops).len())),
    decreases ops.len(),
{
    if ops.len() > 0 {
        let init = ops.drop_last();
        let last = ops.last();
        let ib = ops_bytes(init);
        let lb = op_bytes(last);
        assert(ops_bytes(ops) == ib + lb);
        assert forall|i: int| 0 <= i < init.len() implies match #[trigger] init[i] {
            OpModel::Put(k, v) => k.len() < 0x1_0000_0000 && v.len() < 0x1_0000_0000,
            OpModel::Delete(k) => k.len() < 0x1_0000_0000,
        } by {
            assert(init[i] == ops[i]);
        }
        let w = b.subrange(pos, pos + ops_bytes(ops).len());
        assert(w == ib + lb);
        assert(w.subrange(0, ib.len() as int) =~= ib);
        assert(w.subrange(ib.len() as int, w.len() as int) =~= lb);
        assert(b.subrange(pos, pos + ib.len()) =~= w.subrange(0, ib.len() as int));
        lemma_read_ops(b, pos, init);
        assert(ops[ops.len() - 1] == last);
        assert(b.subrange(pos + ib.len(), pos + ib.len() + lb.len()) =~= w.subrange(ib.len() as int, w.len() as int));
        lemma_read_op(b, pos + ib.len(), last);
        assert(init.push(last) =~= ops);
        assert(read_ops(b, pos, (ops.len() - 1) as nat) == Ok::<(Seq<OpModel>, int), Seq<char>>((init, pos + ib.len())));
        assert(read_op(b, pos + ib.len()) == Ok::<(OpModel, int), Seq<char>>((last, pos + ib.len() + lb.len())));
    } else {
        assert(ops =~= Seq::<OpModel>::empty());
    }
}

/// A commit record's body reads back as the operations it was made of.
pub proof fn lemma_body_roundtrip(ops: Seq<OpModel>)
    requires
        ops_fit(ops),
    ensures
        parse_body(record_body(ops)) == Ok::<Seq<OpModel>, Seq<char>>(ops),
{
    let b = record_body(ops);
    lemma_len32(ops.len());
    assert(b.subrange(1, 5) =~= len32(ops.len()));
    assert(b.subrange(5, 5 + ops_bytes(ops).len() as int) =~= ops_bytes(ops));
    lemma_read_ops(b, 5, ops);
}

// ---------------------------------------------------------------------------
// Replaying a log

/// What replaying the log `b`, which starts at file offset `off`, does to
/// `kv`. An incomplete record at the end, or one whose checksum does not
/// match, ends the replay; a bad header or a corrupt body is an error.
pub open spec fn replay(b: Seq<u8>, off: nat, kv: Map<Seq<u8>, Seq<u8>>) -> Result<Map<Seq<u8>, Seq<u8>>, Seq<char>>
    decreases b.len(),
{
    if b.len() < 9 {
        Ok(kv)
    } else if b.take(4) != wal_magic() {
        Err("bad WAL magic at offset "@ + decimal(off))
    } else if b[4] != 1 {
        Err("unsupported WAL version "@ + decimal(b[4] as nat))
    } else {
        let n = from_le32(b.subrange(5, 9)) as int;
        if 13 + n > b.len() {
            Ok(kv)
        } else {
            let body = b.subrange(9, 9 + n);
            if crc32_spec(body) != from_le32(b.subrange(9 + n, 13 + n)) {
                Ok(kv)
            } else {
                match parse_body(body) {
                    Err(m) => Err(m),
                    Ok(ops) => replay(b.skip(13 + n), off + 13 + n as nat, apply_ops(kv, ops)),
                }
            }
        }
    }
}

fn bytes_are(b: &[u8], pos: usize, m: &[u8]) -> (r: bool)
    requires
        pos + m@.len() <= b@.len(),
    ensures
        r == (b@.subrange(pos as int, pos + m@.len()) == m@),
{
    let n = b.len();
    let mut i: usize = 0;
    while i < m.len()
        invariant
            i <= m@.len(),
            n == b@.len(),
            pos + m@.len() <= b@.len(),
            forall|j: int| 0 <= j < i ==> b@[pos + j] == m@[j],
        decreases m@.len() - i,
    {
        assert(pos + i < b@.len());
        if b[pos + i] != m[i] {
            assert(b@.subrange(pos as int, pos + m@.len())[i as int] != m@[i as int]);
            return false;
        }
        i = i + 1;
    }
    assert(b@.subrange(pos as int, pos + m@.len()) =~= m@);
    true
}

/// Replay the log bytes `buf`, which start at file offset `start`, into
/// `map`.
#[verifier::spinoff_prover]
#[verifier::rlimit(30)]
pub fn replay_wal(buf: &[u8], start: u64, map: &mut KvMap) -> (r: Result<(), StorageError>)
    requires
        old(map).wf(),
        start + buf@.len() <= u64::MAX,
    ensures
        final(map).wf(),
        match replay(buf@, start as nat, old(map).map()) {
            Ok(kv) => r is Ok && final(map).map() == kv,
            Err(m) => r matches Err(StorageError::Corrupt(x)) && x@ == m,
        },
{
    let ghost goal = replay(buf@, start as nat, map.map());
    let magic: [u8; 4] = [0x41u8, 0x4cu8, 0x45u8, 0x46u8];
    let mut i: usize = 0;
    assert(buf@.skip(0) =~= buf@);
    assert(magic@ =~= wal_magic());
    while i < buf.len()
        invariant
            i <= buf@.len(),
            start + buf@.len() <= u64::MAX,
            map.wf(),
            magic@ == wal_magic(),
            goal == replay(buf@, start as nat, old(map).map()),
            replay(buf@.skip(i as int), (start + i) as nat, map.map()) == goal,
        ensures
            map.wf(),
            goal == Ok::<Map<Seq<u8>, Seq<u8>>, Seq<char>>(map.map()),
        decreases buf@.len() - i,
    {
        let ghost rest = buf@.skip(i as int);
        if buf.len() - i < 9 {
            break;
        }
        assert(rest.take(4) =~= buf@.subrange(i as int, i + 4));
        if !bytes_are(buf, i, &magic) {
            return Err(corrupt_num("bad WAL magic at offset ", start + i as u64));
        }
        let version = buf[i + 4];
        assert(rest[4] == version);
        if version != 1 {
            return Err(corrupt_num("unsupported WAL version ", version as u64));
        }
        let body_len = read_u32_at(buf, i + 5) as usize;
        assert(rest.subrange(5, 9) =~= buf@.subrange(i + 5, i + 9));
        if buf.len() - (i + 9) < 4 || buf.len() - (i + 9) - 4 < body_len {
            break;
        }
        let rec_end = i + 9 + body_len + 4;
        let body = copy_range(buf, i + 9, i + 9 + body_len);
        assert(rest.subrange(9, 9 + body_len) =~= body@);
        let expect = read_u32_at(buf, i + 9 + body_len);
        assert(rest.subrange(9 + body_len, 13 + body_len) =~= buf@.subrange(i + 9 + body_len, i + 13 + body_len));
        if crc32(body.as_slice()) != expect {
            break;
        }
        apply_record_body(body.as_slice(), map)?;
        assert(rest.skip(13 + body_len) =~= buf@.skip(rec_end as int));
        i = rec_end;
    }
    Ok(())
}

/// The log of a sequence of commits, in commit order.
pub open spec fn log_of(batches: Seq<Seq<OpModel>>) -> Seq<u8>
    decreases batches.len(),
{
    if batches.len() == 0 {
        Seq::empty()
    } else {
        commit_record(batches[0]) + log_of(batches.drop_first())
    }
}

/// The map after applying each batch in turn.
pub open spec fn apply_batches(kv: Map<Seq<u8>, Seq<u8>>, batches: Seq<Seq<OpModel>>) -> Map<Seq<u8>, Seq<u8>>
    decreases batches.len(),
{
    if batches.len() == 0 {
        kv
    } else {
        apply_batches(apply_ops(kv, batches[0]), batches.drop_first())
    }
}

/// A record, and every length stored in it, fits the 32-bit fields.
pub open spec fn record_fits(ops: Seq<OpModel>) -> bool {
    ops_fit(ops) && record_body(ops).len() < 0x1_0000_0000
}

proof fn lemma_replay_record(ops: Seq<OpModel>, rest: Seq<u8>, off: nat, kv: Map<Seq<u8>, Seq<u8>>)
    requires
        record_fits(ops),
    ensures
        replay(commit_record(ops) + rest, off, kv) == replay(
            rest,
            off + commit_record(ops).len(),
            apply_ops(kv, ops),
        ),
{
    let body = record_body(ops);
    let b = commit_record(ops) + rest;
    let n = body.len();
    lemma_len32(n);
    lemma_le32_roundtrip(crc32_spec(body));
    lemma_body_roundtrip(ops);
    assert(b.take(4) =~= wal_magic());
    assert(b.subrange(5, 9) =~= len32(n));
    assert(b.subrange(9, 9 + n as int) =~= body);
    assert(b.subrange(9 + n as int, 13 + n as int) =~= le32(crc32_spec(body)));
    assert(b.skip(13 + n as int) =~= rest);
}

/// Replaying a log of whole commits followed by anything applies the
/// commits, then replays what follows from where they end.
#[verifier::spinoff_prover]
#[verifier::rlimit(30)]
pub proof fn lemma_replay_log_then(
    batches: Seq<Seq<OpModel>>,
    tail: Seq<u8>,
    off: nat,
    kv: Map<Seq<u8>, Seq<u8>>,
)
    requires
        forall|i: int| 0 <= i < batches.len() ==> record_fits(#[trigger] batches[i]),
    ensures
        replay(log_of(batches) + tail, off, kv) == replay(
            tail,
            off + log_of(batches).len(),
            apply_batches(kv, batches),
        ),
    decreases batches.len(),
{
    if batches.len() == 0 {
        assert(log_of(batches) + tail =~= tail);
    } else {
        let first = batches[0];
        let rest = batches.drop_first();
        assert(record_fits(batches[0]));
        assert forall|i: int| 0 <= i < rest.len() implies record_fits(#[trigger] rest[i]) by {
            assert(rest[i] == batches[i + 1]);
        }
        assert(log_of(batches) + tail =~= commit_record(first) + (log_of(rest) + tail));
        lemma_replay_record(first, log_of(rest) + tail, off, kv);
        lemma_replay_log_then(rest, tail, off + commit_record(first).len(), apply_ops(kv, first));
    }
}

/// A commit cut short by a crash is not applied, and every commit written
/// before it stays: replaying the log of the earlier commits followed by any
/// proper prefix of the next record gives the state after the earlier
/// commits alone.
pub proof fn lemma_torn_commit_absent(
    batches: Seq<Seq<OpModel>>,
    ops: Seq<OpModel>,
    k: int,
    off: nat,
    kv: Map<Seq<u8>, Seq<u8>>,
)
    requires
        forall|i: int| 0 <= i < batches.len() ==> record_fits(#[trigger] batches[i]),
        record_fits(ops),
        0 <= k < commit_record(ops).len(),
    ensures
        replay(log_of(batches) + commit_record(ops).take(k), off, kv) == Ok::<
            Map<Seq<u8>, Seq<u8>>,
            Seq<char>,
        >(apply_batches(kv, batches)),
{
    let r = commit_record(ops);
    let t = r.take(k);
    lemma_replay_log_then(batches, t, off, kv);
    let body = record_body(ops);
    let n = body.len();
    lemma_len32(n);
    if k >= 9 {
        assert(t.take(4) =~= wal_magic());
        assert(t[4] == 1u8);
        assert(t.subrange(5, 9) =~= len32(n));
    }
}

/// A tail at which the replay stops without applying anything: too short
/// for a header, a well-formed header whose body is cut short, or a whole
/// record whose checksum does not match.
pub open spec fn tail_ends_replay(t: Seq<u8>) -> bool {
    t.len() < 9 || (t.take(4) == wal_magic() && t[4] == 1 && {
        let n = from_le32(t.subrange(5, 9)) as int;
        13 + n > t.len() || crc32_spec(t.subrange(9, 9 + n)) != from_le32(t.subrange(9 + n, 13 + n))
    })
}

/// A log of whole commits followed by a torn or corrupt tail replays as the
/// commits alone: the tail is ignored.
pub proof fn lemma_bad_tail_ignored(batches: Seq<Seq<OpModel>>, tail: Seq<u8>, off: nat, kv: Map<Seq<u8>, Seq<u8>>)
    requires
        forall|i: int| 0 <= i < batches.len() ==> record_fits(#[trigger] batches[i]),
        tail_ends_replay(tail),
    ensures
        replay(log_of(batches) + tail, off, kv) == Ok::<Map<Seq<u8>, Seq<u8>>, Seq<char>>(apply_batches(kv, batches)),
{
    lemma_replay_log_then(batches, tail, off, kv);
}

/// A record whose checksum does not match ends the replay: replaying the
/// log of earlier commits followed by such a record, and whatever comes
/// after it, gives the state after the earlier commits alone.
pub proof fn lemma_bad_checksum_ends_replay(
    batches: Seq<Seq<OpModel>>,
    body: Seq<u8>,
    sum: u32,
    rest: Seq<u8>,
    off: nat,
    kv: Map<Seq<u8>, Seq<u8>>,
)
    requires
        forall|i: int| 0 <= i < batches.len() ==> record_fits(#[trigger] batches[i]),
        body.len() < 0x1_0000_0000,
        crc32_spec(body) != sum,
    ensures
        replay(
            log_of(batches) + (wal_magic() + seq![1u8] + len32(body.len()) + body + le32(sum) + rest),
            off,
            kv,
        ) == Ok::<Map<Seq<u8>, Seq<u8>>, Seq<char>>(apply_batches(kv, batches)),
{
    let t = wal_magic() + seq![1u8] + len32(body.len()) + body + le32(sum) + rest;
    lemma_replay_log_then(batches, t, off, kv);
    let n = body.len();
    lemma_len32(n);
    lemma_le32_roundtrip(sum);
    assert(t.take(4) =~= wal_magic());
    assert(t[4] == 1u8);
    assert(t.subrange(5, 9) =~= len32(n));
    assert(t.subrange(9, 9 + n as int) =~= body);
    assert(t.subrange(9 + n as int, 13 + n as int) =~= le32(sum));
}

/// Replaying the log of a sequence of commits applies every commit, in
/// order, to the state the log started from.
pub proof fn lemma_replay_log(batches: Seq<Seq<OpModel>>, off: nat, kv: Map<Seq<u8>, Seq<u8>>)
    requires
        forall|i: int| 0 <= i < batches.len() ==> record_fits(#[trigger] batches[i]),
    ensures
        replay(log_of(batches), off, kv) == Ok::<Map<Seq<u8>, Seq<u8>>, Seq<char>>(apply_batches(kv, batches)),
    decreases batches.len(),
{
    if batches.len() == 0 {
    } else {
        let first = batches[0];
        let rest = batches.drop_first();
        assert(record_fits(batches[0]));
        assert forall|i: int| 0 <= i < rest.len() implies record_fits(#[trigger] rest[i]) by {
            assert(rest[i] == batches[i + 1]);
        }
        lemma_replay_record(first, log_of(rest), off, kv);
        lemma_replay_log(rest, off + commit_record(first).len(), apply_ops(kv, first));
    }
}

// ---------------------------------------------------------------------------
// Checkpoints

pub open spec fn ckpt_magic() -> Seq<u8> {
    seq![0x43u8, 0x4bu8, 0x50u8, 0x54u8]
}

/// One entry as a checkpoint stores it: key and value, each with its
/// length.
pub open spec fn entry_bytes(e: (Seq<u8>, Seq<u8>)) -> Seq<u8> {
    len32(e.0.len()) + e.0 + len32(e.1.len()) + e.1
}

pub open spec fn entries_bytes(es: Seq<(Seq<u8>, Seq<u8>)>) -> Seq<u8>
    decreases es.len(),
{
    if es.len() == 0 {
        Seq::empty()
    } else {
        entries_bytes(es.drop_last()) + entry_bytes(es.last())
    }
}

/// The body of a checkpoint: the log offset it covers, the entry count,
/// the entries.
pub open spec fn checkpoint_body(es: Seq<(Seq<u8>, Seq<u8>)>, off: u64) -> Seq<u8> {
    le64(off) + len32(es.len()) + entries_bytes(es)
}

/// A checkpoint: magic, version 1, body length, body, CRC of the body.
pub open spec fn checkpoint_bytes(es: Seq<(Seq<u8>, Seq<u8>)>, off: u64) -> Seq<u8> {
    let body = checkpoint_body(es, off);
    ckpt_magic() + seq![1u8] + len32(body.len()) + body + le32(crc32_spec(body))
}

/// `n` entries from `pos` on, and the position after them.
pub open spec fn read_entries(b: Seq<u8>, pos: int, n: nat) -> Result<(Seq<(Seq<u8>, Seq<u8>)>, int), Seq<char>>
    decreases n,
{
    if n == 0 {
        Ok((Seq::empty(), pos))
    } else {
        match read_entries(b, pos, (n - 1) as nat) {
            Err(e) => Err(e),
            Ok((es, p)) => match read_chunk(b, p) {
                Err(e) => Err(e),
                Ok((k, q)) => match read_chunk(b, q) {
                    Err(e) => Err(e),
                    Ok((v, t)) => Ok((es.push((k, v)), t)),
                },
            },
        }
    }
}

/// The entries and log offset a checkpoint file holds, or why it is
/// corrupt.
pub open spec fn spec_load(buf: Seq<u8>) -> Result<(Seq<(Seq<u8>, Seq<u8>)>, u64), Seq<char>> {
    if buf.len() < 9 {
        Err("checkpoint too short"@)
    } else if buf.take(4) != ckpt_magic() {
        Err("bad checkpoint magic"@)
    } else if buf[4] != 1 {
        Err("unsupported checkpoint version "@ + decimal(buf[4] as nat))
    } else {
        let n = from_le32(buf.subrange(5, 9)) as int;
        if buf.len() < 13 + n {
            Err("checkpoint truncated"@)
        } else {
            let body = buf.subrange(9, 9 + n);
            if crc32_spec(body) != from_le32(buf.subrange(9 + n, 13 + n)) {
                Err("checkpoint checksum mismatch"@)
            } else if body.len() < 12 {
                Err(eof_text())
            } else {
                match read_entries(body, 12, from_le32(body.subrange(8, 12)) as nat) {
                    Err(e) => Err(e),
                    Ok((es, p)) => if p != body.len() {
                        Err("checkpoint trailing bytes"@)
                    } else {
                        Ok((es, from_le64(body.take(8))))
                    },
                }
            }
        }
    }
}

/// The checkpoint of `map`, covering the log up to `wal_offset`.
#[verifier::spinoff_prover]
#[verifier::rlimit(30)]
pub fn encode_checkpoint(map: &KvMap, wal_offset: u64) -> (r: Vec<u8>)
    ensures
        r@ == checkpoint_bytes(map.entries_view(), wal_offset),
{
    let es = map.entry_list();
    let ghost ev = map.entries_view();
    let mut body: Vec<u8> = Vec::new();
    write_u64(&mut body, wal_offset);
    push_len32(&mut body, es.len());
    let ghost head = body@;
    assert(ev.take(0) =~= Seq::<(Seq<u8>, Seq<u8>)>::empty());
    let mut i: usize = 0;
    while i < es.len()
        invariant
            i <= es@.len(),
            rows_view(es@) == ev,
            body@ == head + entries_bytes(ev.take(i as int)),
        decreases es@.len() - i,
    {
        assert(ev.take(i + 1).drop_last() =~= ev.take(i as int));
        assert(ev.take(i + 1).last() == ev[i as int]);
        let ghost before = body@;
        push_len32(&mut body, es[i].0.len());
        append_bytes(&mut body, es[i].0.as_slice());
        push_len32(&mut body, es[i].1.len());
        append_bytes(&mut body, es[i].1.as_slice());
        assert(body@ =~= before + entry_bytes(ev[i as int]));
        i = i + 1;
    }
    assert(ev.take(i as int) =~= ev);
    assert(body@ =~= checkpoint_body(ev, wal_offset));
    let checksum = crc32(body.as_slice());
    let mut out: Vec<u8> = Vec::new();
    out.push(0x43u8);
    out.push(0x4bu8);
    out.push(0x50u8);
    out.push(0x54u8);
    out.push(1u8);
    push_len32(&mut out, body.len());
    append_bytes(&mut out, body.as_slice());
    write_u32(&mut out, checksum);
    assert(out@ =~= checkpoint_bytes(ev, wal_offset));
    out
}

proof fn lemma_read_entries_err(b: Seq<u8>, pos: int, k: nat, n: nat)
    requires
        k <= n,
        read_entries(b, pos, k) is Err,
    ensures
        read_entries(b, pos, n) == read_entries(b, pos, k),
    decreases n,
{
    if n > k {
        lemma_read_entries_err(b, pos, k, (n - 1) as nat);
    }
}

/// The map and log offset a checkpoint file holds; later entries for a key
/// win over earlier ones.
#[verifier::spinoff_prover]
#[verifier::rlimit(30)]
pub fn load_checkpoint_bytes(buf: &[u8]) -> (r: Result<(KvMap, u64), StorageError>)
    ensures
        match spec_load(buf@) {
            Ok((es, off)) => r matches Ok((m, o)) && m.wf() && m.map() == entries_map(es) && o == off,
            Err(msg) => r matches Err(StorageError::Corrupt(x)) && x@ == msg,
        },
{
    if buf.len() < 9 {
        return Err(corrupt("checkpoint too short"));
    }
    let magic: [u8; 4] = [0x43u8, 0x4bu8, 0x50u8, 0x54u8];
    assert(magic@ =~= ckpt_magic());
    assert(buf@.take(4) =~= buf@.subrange(0, 4));
    if !bytes_are(buf, 0, &magic) {
        return Err(corrupt("bad checkpoint magic"));
    }
    if buf[4] != 1 {
        return Err(corrupt_num("unsupported checkpoint version ", buf[4] as u64));
    }
    let n = read_u32_at(buf, 5) as usize;
    assert(buf@.subrange(5, 9) =~= buf@.subrange(5, 9));
    if buf.len() - 9 < 4 || buf.len() - 13 < n {
        return Err(corrupt("checkpoint truncated"));
    }
    let body = copy_range(buf, 9, 9 + n);
    let expect = read_u32_at(buf, 9 + n);
    if crc32(body.as_slice()) != expect {
        return Err(corrupt("checkpoint checksum mismatch"));
    }
    if body.len() < 12 {
        proof {
            if body@.len() < 8 {
            }
        }
        return Err(corrupt("unexpected eof"));
    }
    let off = read_u64_at(body.as_slice(), 0);
    assert(body@.subrange(0, 8) =~= body@.take(8));
    let cnt = read_u32_at(body.as_slice(), 8);
    let ghost goal = spec_load(buf@);
    assert(goal == match read_entries(body@, 12, cnt as nat) {
        Err(e) => Err(e),
        Ok((es2, p)) => if p != body@.len() {
            Err("checkpoint trailing bytes"@)
        } else {
            Ok((es2, off))
        },
    });
    let mut map = KvMap::new();
    let ghost mut es: Seq<(Seq<u8>, Seq<u8>)> = Seq::empty();
    let mut pos: usize = 12;
    let mut k: u32 = 0;
    while k < cnt
        invariant
            k <= cnt,
            cnt == from_le32(body@.subrange(8, 12)),
            body@.len() >= 12,
            12 <= pos <= body@.len(),
            map.wf(),
            map.map() == entries_map(es),
            read_entries(body@, 12, k as nat) == Ok::<(Seq<(Seq<u8>, Seq<u8>)>, int), Seq<char>>((es, pos as int)),
            goal == spec_load(buf@),
            goal == match read_entries(body@, 12, cnt as nat) {
                Err(e) => Err(e),
                Ok((es2, p)) => if p != body@.len() {
                    Err("checkpoint trailing bytes"@)
                } else {
                    Ok((es2, off))
                },
            },
        decreases cnt - k,
    {
        let (key, p) = match read_chunk_at(body.as_slice(), pos) {
            Ok(x) => x,
            Err(e) => {
                proof {
                    lemma_read_entries_err(body@, 12, (k + 1) as nat, cnt as nat);
                }
                return Err(e);
            },
        };
        let (value, q) = match read_chunk_at(body.as_slice(), p) {
            Ok(x) => x,
            Err(e) => {
                proof {
                    lemma_read_entries_err(body@, 12, (k + 1) as nat, cnt as nat);
                }
                return Err(e);
            },
        };
        let ghost ne = (key@, value@);
        proof {
            assert(es.push(ne).drop_last() =~= es);
            es = es.push(ne);
        }
        map.put(key, value);
        pos = q;
        k = k + 1;
    }
    if pos != body.len() {
        return Err(corrupt("checkpoint trailing bytes"));
    }
    Ok((map, off))
}

/// Every length a checkpoint of `es` stores fits in 32 bits.
pub open spec fn checkpoint_fits(es: Seq<(Seq<u8>, Seq<u8>)>, off: u64) -> bool {
    &&& es.len() < 0x1_0000_0000
    &&& forall|i: int| 0 <= i < es.len() ==> (#[trigger] es[i]).0.len() < 0x1_0000_0000 && es[i].1.len() < 0x1_0000_0000
    &&& checkpoint_body(es, off).len() < 0x1_0000_0000
}

proof fn lemma_read_entries(b: Seq<u8>, pos: int, es: Seq<(Seq<u8>, Seq<u8>)>)
    requires
        0 <= pos,
        forall|i: int| 0 <= i < es.len() ==> (#[trigger] es[i]).0.len() < 0x1_0000_0000 && es[i].1.len() < 0x1_0000_0000,
        pos + entries_bytes(es).len() <= b.len(),
        b.subrange(pos, pos + entries_bytes(es).len()) == entries_bytes(es),
    ensures
        read_entries(b, pos, es.len()) == Ok::<(Seq<(Seq<u8>, Seq<u8>)>, int), Seq<char>>((es, pos + entries_bytes(es).len())),
    decreases es.len(),
{
    if es.len() > 0 {
        let init = es.drop_last();
        let last = es.last();
        let ib = entries_bytes(init);
        let lb = entry_bytes(last);
        let w = b.subrange(pos, pos + entries_bytes(es).len());
        assert(w == ib + lb);
        assert(w.subrange(0, ib.len() as int) =~= ib);
        assert(b.subrange(pos, pos + ib.len()) =~= w.subrange(0, ib.len() as int));
        assert forall|i: int| 0 <= i < init.len() implies (#[trigger] init[i]).0.len() < 0x1_0000_0000 && init[i].1.len() < 0x1_0000_0000 by {
            assert(init[i] == es[i]);
        }
        lemma_read_entries(b, pos, init);
        assert(es[es.len() - 1] == last);
        let p = pos + ib.len();
        let q = p + 4 + last.0.len();
        assert(b.subrange(p, q) =~= w.subrange(ib.len() as int, (ib.len() + 4 + last.0.len()) as int));
        assert(w.subrange(ib.len() as int, (ib.len() + 4 + last.0.len()) as int) =~= len32(last.0.len()) + last.0);
        lemma_read_chunk(b, p, last.0);
        assert(b.subrange(q, q + 4 + last.1.len()) =~= w.subrange((ib.len() + 4 + last.0.len()) as int, w.len() as int));
        assert(w.subrange((ib.len() + 4 + last.0.len()) as int, w.len() as int) =~= len32(last.1.len()) + last.1);
        lemma_read_chunk(b, q, last.1);
        assert(init.push(last) =~= es);
        assert(read_entries(b, pos, (es.len() - 1) as nat) == Ok::<(Seq<(Seq<u8>, Seq<u8>)>, int), Seq<char>>((init, p)));
    } else {
        assert(es =~= Seq::<(Seq<u8>, Seq<u8>)>::empty());
    }
}

/// A checkpoint reads back as the entries and log offset it was made of.
#[verifier::spinoff_prover]
#[verifier::rlimit(40)]
pub proof fn lemma_checkpoint_roundtrip(es: Seq<(Seq<u8>, Seq<u8>)>, off: u64)
    requires
        checkpoint_fits(es, off),
    ensures
        spec_load(checkpoint_bytes(es, off)) == Ok::<(Seq<(Seq<u8>, Seq<u8>)>, u64), Seq<char>>((es, off)),
{
    let body = checkpoint_body(es, off);
    let buf = checkpoint_bytes(es, off);
    let n = body.len();
    lemma_len32(n);
    lemma_len32(es.len());
    lemma_le32_roundtrip(crc32_spec(body));
    lemma_le64_roundtrip(off);
    assert(buf.take(4) =~= ckpt_magic());
    assert(buf.subrange(5, 9) =~= len32(n));
    assert(buf.subrange(9, 9 + n as int) =~= body);
    assert(buf.subrange(9 + n as int, 13 + n as int) =~= le32(crc32_spec(body)));
    assert(body.take(8) =~= le64(off));
    assert(body.subrange(8, 12) =~= len32(es.len()));
    assert(body.subrange(12, 12 + entries_bytes(es).len() as int) =~= entries_bytes(es));
    lemma_read_entries(body, 12, es);
}

/// Loading the checkpoint of a map gives back that map and the log offset
/// it was written with.
pub proof fn lemma_checkpoint_restores(map: KvMap, off: u64)
    requires
        map.wf(),
        checkpoint_fits(map.entries_view(), off),
    ensures
        spec_load(checkpoint_bytes(map.entries_view(), off)) matches Ok((es, o)) && entries_map(es) == map.map() && o == off,
{
    map.lemma_entries();
    lemma_checkpoint_roundtrip(map.entries_view(), off);
}

/// A checkpoint's log offset must lie within the log file.
pub fn check_wal_start(start: u64, file_len: u64) -> (r: Result<(), StorageError>)
    ensures
        start <= file_len ==> r is Ok,
        start > file_len ==> (r matches Err(StorageError::Corrupt(x)) && x@ == "checkpoint wal offset "@ + decimal(
            start as nat,
        ) + " beyond file len "@ + decimal(file_len as nat)),
{
    if start > file_len {
        let mut s = text("checkpoint wal offset ");
        push_decimal(&mut s, start);
        s.append(" beyond file len ");
        push_decimal(&mut s, file_len);
        return Err(StorageError::Corrupt(s));
    }
    Ok(())
}

// ---------------------------------------------------------------------------
// Durable storage over a log

/// Where a write-ahead store keeps its durable form: an append-only log of
/// commit records, and a checkpoint that replaces the log when written.
pub trait LogSink {
    /// Append `record` to the log durably.
    fn append(&mut self, record: &[u8]) -> Result<(), StorageError>;

    /// Make `checkpoint` the durable state and empty the log.
    fn write_checkpoint(&mut self, checkpoint: &[u8]) -> Result<(), StorageError>;
}

/// What a write-ahead store keeps in memory: the map, the size of the log,
/// when to checkpoint, and (for the proofs) what it has handed to its sink.
struct WalState {
    map: KvMap,
    /// Bytes appended to the log since the last checkpoint.
    wal_bytes: u64,
    /// Checkpoint once the log holds this many bytes (0: never).
    auto_compact_threshold: u64,
    /// The map the log since the last checkpoint starts from.
    base: Ghost<Map<Seq<u8>, Seq<u8>>>,
    /// The batches whose records were appended since then, in order.
    batches: Ghost<Seq<Seq<OpModel>>>,
    /// The last checkpoint written, if any.
    checkpoint: Ghost<Option<Seq<u8>>>,
    /// Whether every length written since then fit its 32-bit field.
    faithful: Ghost<bool>,
}

impl WalState {
    #[verifier::type_invariant]
    spec fn state_wf(&self) -> bool {
        &&& self.map.wf()
        &&& self.faithful@ ==> {
            &&& forall|i: int| 0 <= i < self.batches@.len() ==> record_fits(#[trigger] self.batches@[i])
            &&& apply_batches(self.base@, self.batches@) == self.map.map()
            &&& self.checkpoint@ matches Some(c) ==> spec_load(c) matches Ok((es, o)) && entries_map(es)
                == self.base@ && o == 0
        }
    }
}

proof fn lemma_log_of_push(batches: Seq<Seq<OpModel>>, ops: Seq<OpModel>)
    ensures
        log_of(batches.push(ops)) == log_of(batches) + commit_record(ops),
    decreases batches.len(),
{
    let b1 = batches.push(ops);
    if batches.len() == 0 {
        assert(b1[0] == ops);
        assert(b1.drop_first() =~= Seq::<Seq<OpModel>>::empty());
        assert(log_of(b1.drop_first()) == Seq::<u8>::empty());
        assert(log_of(b1) =~= log_of(batches) + commit_record(ops));
    } else {
        lemma_log_of_push(batches.drop_first(), ops);
        assert(b1[0] == batches[0]);
        assert(b1.drop_first() =~= batches.drop_first().push(ops));
        assert(log_of(batches.push(ops)) =~= log_of(batches) + commit_record(ops));
    }
}

proof fn lemma_apply_batches_push(kv: Map<Seq<u8>, Seq<u8>>, batches: Seq<Seq<OpModel>>, ops: Seq<OpModel>)
    ensures
        apply_batches(kv, batches.push(ops)) == apply_ops(apply_batches(kv, batches), ops),
    decreases batches.len(),
{
    let b1 = batches.push(ops);
    if batches.len() == 0 {
        assert(b1[0] == ops);
        assert(b1.drop_first() =~= Seq::<Seq<OpModel>>::empty());
        assert(apply_batches(apply_ops(kv, ops), b1.drop_first()) == apply_ops(kv, ops));
    } else {
        lemma_apply_batches_push(apply_ops(kv, batches[0]), batches.drop_first(), ops);
        assert(b1[0] == batches[0]);
        assert(b1.drop_first() =~= batches.drop_first().push(ops));
    }
}

/// Durable storage: every commit is appended to the log before it is
/// applied to the map in memory; once the log grows past a threshold, the
/// map is checkpointed and the log emptied.
pub struct WalStore<L: LogSink> {
    state: WalState,
    sink: L,
    committed: Ghost<nat>,
}

/// The map and log offset a store recovers from its checkpoint (if any)
/// and its log: the checkpoint's entries, then the log replayed from the
/// checkpoint's offset.
pub open spec fn recovered(checkpoint: Option<Seq<u8>>, log: Seq<u8>) -> Result<(Map<Seq<u8>, Seq<u8>>, u64), Seq<char>> {
    let start: Result<(Map<Seq<u8>, Seq<u8>>, u64), Seq<char>> = match checkpoint {
        None => Ok((Map::empty(), 0u64)),
        Some(c) => match spec_load(c) {
            Err(m) => Err(m),
            Ok((es, off)) => Ok((entries_map(es), off)),
        },
    };
    match start {
        Err(m) => Err(m),
        Ok((kv, off)) => if off > log.len() {
            Err("checkpoint wal offset "@ + decimal(off as nat) + " beyond file len "@ + decimal(log.len()))
        } else {
            match replay(log.skip(off as int), off as nat, kv) {
                Err(m) => Err(m),
                Ok(kv2) => Ok((kv2, off)),
            }
        },
    }
}

/// Recover the map from a checkpoint file's bytes (if there is one) and the
/// whole log file; gives the map and the log offset replay started at.
pub fn recover(checkpoint: Option<&[u8]>, log: &[u8]) -> (r: Result<(KvMap, u64), StorageError>)
    requires
        log@.len() <= u64::MAX,
    ensures
        match recovered(
            match checkpoint {
                Some(c) => Some(c@),
                None => None,
            },
            log@,
        ) {
            Ok((kv, off)) => r matches Ok((m, o)) && m.wf() && m.map() == kv && o == off,
            Err(msg) => r matches Err(StorageError::Corrupt(x)) && x@ == msg,
        },
{
    let (mut map, start) = match checkpoint {
        None => (KvMap::new(), 0u64),
        Some(c) => load_checkpoint_bytes(c)?,
    };
    check_wal_start(start, log.len() as u64)?;
    let rest = copy_range(log, start as usize, log.len());
    assert(rest@ =~= log@.skip(start as int));
    replay_wal(rest.as_slice(), start, &mut map)?;
    Ok((map, start))
}

impl<L: LogSink> WalStore<L> {
    /// The records handed to the log since the last checkpoint, or since
    /// the store was made.
    pub closed spec fn handed_log(&self) -> Seq<u8> {
        log_of(self.state.batches@)
    }

    /// The last checkpoint handed to the sink, if any.
    pub closed spec fn handed_checkpoint(&self) -> Option<Seq<u8>> {
        self.state.checkpoint@
    }

    /// The map the handed log starts from.
    pub closed spec fn start_map(&self) -> Map<Seq<u8>, Seq<u8>> {
        self.state.base@
    }

    /// Whether every length written since the last checkpoint fit its
    /// 32-bit field (a record or checkpoint over 4 GiB does not).
    pub closed spec fn lengths_kept(&self) -> bool {
        self.state.faithful@
    }

    /// The log size at which a commit checkpoints; 0 never does.
    pub closed spec fn compact_threshold(&self) -> u64 {
        self.state.auto_compact_threshold
    }

    /// The bytes appended to the log since the last checkpoint, as counted
    /// (the count stops at `u64::MAX`).
    pub closed spec fn log_bytes(&self) -> u64 {
        self.state.wal_bytes
    }

    /// The place the durable form is kept.
    pub closed spec fn held_sink(&self) -> L {
        self.sink
    }

    /// Reopening from what the store handed to its sink gives its map back:
    /// replaying the handed log onto the map it starts from gives the
    /// current map, and so does recovering from the handed checkpoint and
    /// that log.
    pub open spec fn reopens_as_is(&self) -> bool {
        self.lengths_kept() ==> {
            &&& replay(self.handed_log(), 0, self.start_map()) == Ok::<Map<Seq<u8>, Seq<u8>>, Seq<char>>(
                self.kv(),
            )
            &&& self.handed_checkpoint() matches Some(c) ==> recovered(Some(c), self.handed_log())
                == Ok::<(Map<Seq<u8>, Seq<u8>>, u64), Seq<char>>((self.kv(), 0u64))
        }
    }

    proof fn lemma_reopens(&self)
        requires
            self.state.state_wf(),
        ensures
            self.reopens_as_is(),
    {
        if self.state.faithful@ {
            lemma_replay_log(self.state.batches@, 0, self.state.base@);
            let log = log_of(self.state.batches@);
            assert(log.skip(0) =~= log);
        }
    }
}

impl<L: LogSink> WalStore<L> {
    /// A store holding `map`, whose log already holds `wal_bytes` bytes;
    /// it checkpoints once the log passes 8 MiB.
    pub fn new(map: KvMap, sink: L, wal_bytes: u64) -> (s: Self)
        requires
            map.wf(),
        ensures
            s.kv() == map.map(),
            s.handed_log() == Seq::<u8>::empty(),
            s.handed_checkpoint() is None,
            s.start_map() == map.map(),
            s.lengths_kept(),
            s.reopens_as_is(),
            s.compact_threshold() == 8 * 1024 * 1024,
            s.log_bytes() == wal_bytes,
            s.held_sink() == sink,
    {
        let ghost m = map.map();
        let s = WalStore {
            state: WalState {
                map,
                wal_bytes,
                auto_compact_threshold: 8 * 1024 * 1024,
                base: Ghost(m),
                batches: Ghost(Seq::empty()),
                checkpoint: Ghost(None),
                faithful: Ghost(true),
            },
            sink,
            committed: Ghost(0),
        };
        proof {
            s.lemma_reopens();
        }
        s
    }

    /// The number of stored keys.
    pub fn len(&self) -> (n: usize)
        ensures
            n == self.kv().len(),
    {
        proof {
            use_type_invariant(&self.state);
        }
        self.state.map.len()
    }

    pub fn is_empty(&self) -> (b: bool)
        ensures
            b == (self.kv().len() == 0),
    {
        self.len() == 0
    }

    /// Checkpoint once the log holds `bytes` bytes; 0 never does.
    pub fn set_auto_compact_threshold(&mut self, bytes: u64)
        ensures
            final(self).kv() == old(self).kv(),
            final(self).handed_log() == old(self).handed_log(),
            final(self).handed_checkpoint() == old(self).handed_checkpoint(),
            final(self).start_map() == old(self).start_map(),
            final(self).lengths_kept() == old(self).lengths_kept(),
            final(self).log_bytes() == old(self).log_bytes(),
            final(self).held_sink() == old(self).held_sink(),
            final(self).compact_threshold() == bytes,
    {
        proof {
            use_type_invariant(&self.state);
        }
        self.state.auto_compact_threshold = bytes;
    }

    /// The place the durable form is kept.
    pub fn sink(&self) -> (r: &L)
        ensures
            *r == self.held_sink(),
    {
        &self.sink
    }

    /// Write a checkpoint of the map and empty the log.
    fn checkpoint_now(&mut self) -> (r: Result<(), StorageError>)
        ensures
            final(self).kv() == old(self).kv(),
            r is Ok ==> final(self).handed_checkpoint() is Some && final(self).handed_log() == Seq::<u8>::empty()
                && final(self).log_bytes() == 0,
            final(self).compact_threshold() == old(self).compact_threshold(),
            r is Err ==> final(self).handed_log() == old(self).handed_log()
                && final(self).handed_checkpoint() == old(self).handed_checkpoint()
                && final(self).start_map() == old(self).start_map()
                && final(self).lengths_kept() == old(self).lengths_kept(),
            final(self).reopens_as_is(),
            final(self).committed == old(self).committed,
    {
        proof {
            use_type_invariant(&self.state);
            self.lemma_reopens();
        }
        let bytes = encode_checkpoint(&self.state.map, 0);
        self.sink.write_checkpoint(bytes.as_slice())?;
        let ghost m = self.state.map.map();
        let ghost fits = checkpoint_fits(self.state.map.entries_view(), 0);
        proof {
            if fits {
                lemma_checkpoint_restores(self.state.map, 0);
            }
        }
        self.state.faithful = Ghost(false);
        self.state.base = Ghost(m);
        self.state.batches = Ghost(Seq::empty());
        self.state.checkpoint = Ghost(Some(bytes@));
        self.state.faithful = Ghost(fits);
        self.state.wal_bytes = 0;
        proof {
            use_type_invariant(&self.state);
            self.lemma_reopens();
        }
        Ok(())
    }
}

impl<L: LogSink> Storage for WalStore<L> {
    closed spec fn kv(&self) -> Map<Seq<u8>, Seq<u8>> {
        self.state.map.map()
    }

    /// Writing to the sink can fail, so a commit may fail.
    open spec fn reliable(&self) -> bool {
        false
    }

    /// Reads touch only the map in memory.
    open spec fn reads_ok(&self) -> bool {
        true
    }

    closed spec fn commits(&self) -> nat {
        self.committed@
    }

    proof fn lemma_reliable_reads(&self) {
    }

    /// Reads touch only the map in memory, so they succeed.
    fn get(&self, key: &[u8]) -> (r: Result<Option<Vec<u8>>, StorageError>)
        ensures
            r is Ok,
    {
        proof {
            use_type_invariant(&self.state);
        }
        match self.state.map.get(key) {
            Some(v) => Ok(Some(vstd::slice::slice_to_vec(v.as_slice()))),
            None => Ok(None),
        }
    }

    fn commit(&mut self, batch: WriteBatch) -> (r: Result<(), StorageError>)
        ensures
            r is Ok && batch@.len() == 0 ==> final(self).handed_log() == old(self).handed_log(),
            r is Ok && batch@.len() > 0 ==> final(self).handed_log() == old(self).handed_log()
                + commit_record(batch@) || (final(self).handed_checkpoint() is Some
                && final(self).handed_log() == Seq::<u8>::empty()),
            final(self).compact_threshold() == old(self).compact_threshold(),
            r is Ok && batch@.len() > 0 ==> {
                let grown = if old(self).log_bytes() + commit_record(batch@).len() > u64::MAX {
                    u64::MAX as int
                } else {
                    old(self).log_bytes() + commit_record(batch@).len()
                };
                if old(self).compact_threshold() > 0 && grown >= old(self).compact_threshold() {
                    final(self).handed_checkpoint() is Some && final(self).handed_log() == Seq::<u8>::empty()
                        && final(self).log_bytes() == 0
                } else {
                    final(self).handed_log() == old(self).handed_log() + commit_record(batch@)
                        && final(self).handed_checkpoint() == old(self).handed_checkpoint()
                        && final(self).log_bytes() == grown
                }
            },
            final(self).reopens_as_is(),
    {
        self.committed = Ghost(self.committed@ + 1);
        proof {
            use_type_invariant(&self.state);
            self.lemma_reopens();
        }
        if batch.is_empty() {
            assert(batch@ =~= Seq::<OpModel>::empty());
            assert(apply_ops(self.state.map.map(), batch@) == self.state.map.map());
            return Ok(());
        }
        let record = encode_commit_record(&batch.ops);
        self.sink.append(record.as_slice())?;
        let n = record.len() as u64;
        let grown = if self.state.wal_bytes > u64::MAX - n {
            u64::MAX
        } else {
            self.state.wal_bytes + n
        };
        self.state.wal_bytes = grown;
        assert(batch@ =~= Seq::new(batch.ops@.len(), |i: int| batch.ops@[i].model()));
        let ghost was_faithful = self.state.faithful@;
        let ghost ops = batch@;
        let ghost bs = self.state.batches@;
        proof {
            lemma_apply_batches_push(self.state.base@, bs, ops);
            lemma_log_of_push(bs, ops);
        }
        self.state.faithful = Ghost(false);
        let mut m = KvMap::new();
        std::mem::swap(&mut m, &mut self.state.map);
        apply_batch_ops(&mut m, batch.ops);
        self.state.map = m;
        self.state.batches = Ghost(bs.push(ops));
        proof {
            assert forall|i: int| 0 <= i < bs.push(ops).len() && was_faithful && record_fits(ops) implies record_fits(
                #[trigger] bs.push(ops)[i],
            ) by {
                if i < bs.len() {
                    assert(bs.push(ops)[i] == bs[i]);
                }
            }
        }
        let ghost now_faithful = was_faithful && record_fits(ops);
        self.state.faithful = Ghost(now_faithful);
        if self.state.auto_compact_threshold > 0 && self.state.wal_bytes >= self.state.auto_compact_threshold {
            self.checkpoint_now()?;
        }
        proof {
            use_type_invariant(&self.state);
            self.lemma_reopens();
        }
        Ok(())
    }

    /// Reads touch only the map in memory, so they succeed.
    fn scan_prefix(&self, prefix: &[u8]) -> (r: Result<ScanRows, StorageError>)
        ensures
            r is Ok,
    {
        proof {
            use_type_invariant(&self.state);
        }
        Ok(self.state.map.scan_prefix(prefix))
    }
}

impl<L: LogSink> Compact for WalStore<L> {
    /// Write a checkpoint of the map and empty the log.
    fn compact(&mut self) -> (r: Result<(), StorageError>)
        ensures
            r is Ok ==> final(self).handed_checkpoint() is Some && final(self).handed_log() == Seq::<u8>::empty(),
            final(self).reopens_as_is(),
    {
        self.checkpoint_now()
    }
}

} // verus!
