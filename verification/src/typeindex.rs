//! The type index against the namespace. Where the index matches the
//! namespace (one row per entry, under the entry's type, naming its path),
//! the indexed paths of a type are exactly the paths of the entries of that
//! type, and a query that pins a type finds exactly the entries of that type
//! at which it holds: the index is a shortcut that changes no result.

use vstd::prelude::*;
use vstd::utf8::{decode_utf8, valid_utf8, encode_utf8_valid_utf8, encode_utf8_decode_utf8};
use crate::db::{Kv, path_models, spec_resolve, spec_node_type, spec_get, path_bytes, spec_indexed_paths, index_rows_paths};
use crate::errors::{NsErr, NsError, storage_failed};
use crate::path::DbPath;
use crate::eval::{CandModel, required_type, spec_candidates, spec_typed, spec_hits, expr_holds, visit_order};
use crate::query::ExprModel;
use crate::keys::{type_index_key_spec, type_index_prefix_spec};
use crate::order::lemma_bytes_lt_irreflexive;
use crate::path::{path_string, valid_segment, spec_parse_path, lemma_path_string_parses_back};
use crate::storage::{is_prefix_scan, scan_rows, has_prefix, lemma_scan_rows};

verus! {

/// Segments a path may hold: each nonempty, without `/` or NUL, and not `.`
/// or `..`.
pub open spec fn path_like(segs: Seq<Seq<char>>) -> bool {
    forall|i: int| 0 <= i < segs.len() ==> valid_segment(#[trigger] segs[i]) && !segs[i].contains('\0')
}

/// The entry at `segs` exists and is of type `ty`.
pub open spec fn typed_at(kv: Kv, segs: Seq<Seq<char>>, ty: Seq<char>) -> bool {
    spec_resolve(kv, segs) matches Ok((_, rec)) && spec_node_type(rec) == Ok::<Seq<char>, NsErr>(ty)
}

/// The node the entry at `segs` is.
pub open spec fn node_at(kv: Kv, segs: Seq<Seq<char>>) -> u64 {
    spec_resolve(kv, segs)->Ok_0.0
}

/// The type index matches the namespace: every entry has the row of its
/// node under its type, naming its path; and every row under a type name
/// without `/` is the row of an entry of that type, naming its path.
pub open spec fn index_faithful(kv: Kv) -> bool {
    &&& forall|segs: Seq<Seq<char>>, ty: Seq<char>|
        path_like(segs) && #[trigger] typed_at(kv, segs, ty) ==> kv.contains_key(
            type_index_key_spec(ty, node_at(kv, segs)),
        ) && kv[type_index_key_spec(ty, node_at(kv, segs))] == path_bytes(segs)
    &&& forall|ty: Seq<char>, k: Seq<u8>|
        !ty.contains('/') && kv.contains_key(k) && #[trigger] has_prefix(k, type_index_prefix_spec(ty)) ==> exists|
            segs: Seq<Seq<char>>,
        |
            #![trigger typed_at(kv, segs, ty)]
            path_like(segs) && typed_at(kv, segs, ty) && k == type_index_key_spec(ty, node_at(kv, segs)) && kv[k]
                == path_bytes(segs)
}

/// The stored bytes of a path decode back to the path.
proof fn lemma_path_bytes_parse(segs: Seq<Seq<char>>)
    requires
        path_like(segs),
    ensures
        valid_utf8(path_bytes(segs)),
        spec_parse_path(decode_utf8(path_bytes(segs))) == Ok::<Seq<Seq<char>>, crate::path::PathErr>(segs),
{
    encode_utf8_valid_utf8(path_string(segs));
    encode_utf8_decode_utf8(path_string(segs));
    lemma_path_string_parses_back(segs);
}

/// A row key of a type is under that type's prefix.
proof fn lemma_key_has_prefix(ty: Seq<char>, id: u64)
    ensures
        has_prefix(type_index_key_spec(ty, id), type_index_prefix_spec(ty)),
{
    let p = type_index_prefix_spec(ty);
    assert(type_index_key_spec(ty, id).take(p.len() as int) =~= p);
}

/// The paths of index rows under a type each name an entry of that type,
/// through the row of its node.
proof fn lemma_rows_paths(kv: Kv, ty: Seq<char>, rows: Seq<(Seq<u8>, Seq<u8>)>)
    requires
        index_faithful(kv),
        !ty.contains('/'),
        forall|i: int|
            0 <= i < rows.len() ==> has_prefix(#[trigger] rows[i].0, type_index_prefix_spec(ty)) && kv.contains_key(
                rows[i].0,
            ) && kv[rows[i].0] == rows[i].1,
    ensures
        index_rows_paths(rows) matches Ok(ps) && ps.len() == rows.len() && forall|i: int|
            0 <= i < ps.len() ==> path_like(#[trigger] ps[i]) && typed_at(kv, ps[i], ty) && rows[i].0
                == type_index_key_spec(ty, node_at(kv, ps[i])) && rows[i].1 == path_bytes(ps[i]),
    decreases rows.len(),
{
    if rows.len() > 0 {
        let front = rows.drop_last();
        assert forall|i: int| 0 <= i < front.len() implies has_prefix(
            #[trigger] front[i].0,
            type_index_prefix_spec(ty),
        ) && kv.contains_key(front[i].0) && kv[front[i].0] == front[i].1 by {
            assert(front[i] == rows[i]);
        }
        lemma_rows_paths(kv, ty, front);
        let ps = index_rows_paths(front)->Ok_0;
        let last = rows.last();
        assert(has_prefix(rows[rows.len() - 1].0, type_index_prefix_spec(ty)));
        let segs = choose|segs: Seq<Seq<char>>|
            #![trigger typed_at(kv, segs, ty)]
            path_like(segs) && typed_at(kv, segs, ty) && last.0 == type_index_key_spec(ty, node_at(kv, segs))
                && kv[last.0] == path_bytes(segs);
        lemma_path_bytes_parse(segs);
        let all = ps.push(segs);
        assert(index_rows_paths(rows) == Ok::<Seq<Seq<Seq<char>>>, NsErr>(all));
        assert forall|i: int| 0 <= i < all.len() implies path_like(#[trigger] all[i]) && typed_at(kv, all[i], ty)
            && rows[i].0 == type_index_key_spec(ty, node_at(kv, all[i])) && rows[i].1 == path_bytes(all[i]) by {
            if i < ps.len() {
                assert(all[i] == ps[i]);
                assert(rows[i] == front[i]);
            }
        }
    }
}

/// Where the index matches the namespace, the indexed paths of a type
/// whose name holds no `/` are exactly the paths of the entries of that
/// type, each once. (A name with `/` can reach rows of another type, whose
/// keys it prefixes.)
pub proof fn lemma_indexed_paths_exact(kv: Kv, ty: Seq<char>, q: Seq<Seq<char>>)
    requires
        index_faithful(kv),
        !ty.contains('/'),
        exists|rows: Seq<(Seq<u8>, Seq<u8>)>| is_prefix_scan(kv, type_index_prefix_spec(ty), rows),
    ensures
        spec_indexed_paths(kv, ty) matches Ok(ps) && ps.no_duplicates() && (ps.contains(q) <==> path_like(q)
            && typed_at(kv, q, ty)),
{
    let prefix = type_index_prefix_spec(ty);
    let rows0 = choose|rows: Seq<(Seq<u8>, Seq<u8>)>| is_prefix_scan(kv, prefix, rows);
    lemma_scan_rows(kv, prefix, rows0);
    let rows = scan_rows(kv, prefix);
    assert(is_prefix_scan(kv, prefix, rows));
    lemma_rows_paths(kv, ty, rows);
    let ps = index_rows_paths(rows)->Ok_0;
    assert forall|i: int, j: int| 0 <= i < j < ps.len() implies ps[i] != ps[j] by {
        lemma_bytes_lt_irreflexive(rows[i].0);
        assert(crate::order::bytes_lt(rows[i].0, rows[j].0));
    }
    if path_like(q) && typed_at(kv, q, ty) {
        let k = type_index_key_spec(ty, node_at(kv, q));
        lemma_key_has_prefix(ty, node_at(kv, q));
        assert(kv.contains_key(k) && has_prefix(k, prefix));
        let i = choose|i: int| 0 <= i < rows.len() && #[trigger] rows[i].0 == k;
        lemma_path_bytes_parse(q);
        lemma_path_bytes_parse(ps[i]);
        assert(ps[i] == q);
    }
}

/// A path whose entry has a type reads without error.
proof fn lemma_typed_reads(kv: Kv, segs: Seq<Seq<char>>, ty: Seq<char>)
    requires
        typed_at(kv, segs, ty),
    ensures
        spec_get(kv, segs) is Ok,
{
}

/// The candidates read at paths that all read without error: each path
/// with what it reads, in order.
proof fn lemma_typed_candidates(kv: Kv, qs: Seq<Seq<Seq<char>>>)
    requires
        forall|i: int| 0 <= i < qs.len() ==> spec_get(kv, #[trigger] qs[i]) is Ok,
    ensures
        spec_typed(kv, qs) matches Ok(cs) && cs.len() == qs.len() && forall|i: int|
            0 <= i < cs.len() ==> #[trigger] cs[i] == (qs[i], spec_get(kv, qs[i])->Ok_0.0, spec_get(
                kv,
                qs[i],
            )->Ok_0.1),
    decreases qs.len(),
{
    if qs.len() > 0 {
        let front = qs.drop_last();
        assert forall|i: int| 0 <= i < front.len() implies spec_get(kv, #[trigger] front[i]) is Ok by {
            assert(front[i] == qs[i]);
        }
        lemma_typed_candidates(kv, front);
        let acc = spec_typed(kv, front)->Ok_0;
        assert(spec_get(kv, qs[qs.len() - 1]) is Ok);
        let cs = spec_typed(kv, qs)->Ok_0;
        assert forall|i: int| 0 <= i < cs.len() implies #[trigger] cs[i] == (qs[i], spec_get(kv, qs[i])->Ok_0.0, spec_get(
            kv,
            qs[i],
        )->Ok_0.1) by {
            if i < acc.len() {
                assert(cs[i] == acc[i]);
                assert(front[i] == qs[i]);
            }
        }
    }
}

/// The paths of the hits.
pub open spec fn hit_paths(hs: Seq<(Seq<Seq<char>>, Seq<char>)>) -> Seq<Seq<Seq<char>>> {
    Seq::new(hs.len(), |i: int| hs[i].0)
}

/// A path is hit exactly where a candidate at it satisfies the query.
proof fn lemma_hits_contain(e: ExprModel, cs: Seq<CandModel>, p: Seq<Seq<char>>)
    ensures
        hit_paths(spec_hits(e, cs)).contains(p) <==> exists|i: int|
            0 <= i < cs.len() && (#[trigger] cs[i]).0 == p && expr_holds(e, cs[i].0, cs[i].1, cs[i].2),
    decreases cs.len(),
{
    if cs.len() > 0 {
        let front = cs.drop_last();
        lemma_hits_contain(e, front, p);
        let rest = spec_hits(e, front);
        let c = cs.last();
        let hs = spec_hits(e, cs);
        if hit_paths(hs).contains(p) {
            let j = choose|j: int| 0 <= j < hit_paths(hs).len() && hit_paths(hs)[j] == p;
            if expr_holds(e, c.0, c.1, c.2) && j == rest.len() {
                assert(cs[cs.len() - 1].0 == p);
            } else {
                assert(hit_paths(rest)[j] == p);
                let i = choose|i: int| 0 <= i < front.len() && (#[trigger] front[i]).0 == p && expr_holds(
                    e,
                    front[i].0,
                    front[i].1,
                    front[i].2,
                );
                assert(cs[i] == front[i]);
            }
        }
        if exists|i: int| 0 <= i < cs.len() && (#[trigger] cs[i]).0 == p && expr_holds(e, cs[i].0, cs[i].1, cs[i].2) {
            let i = choose|i: int| 0 <= i < cs.len() && (#[trigger] cs[i]).0 == p && expr_holds(e, cs[i].0, cs[i].1, cs[i].2);
            if i == cs.len() - 1 {
                assert(hit_paths(hs)[hs.len() - 1] == p);
            } else {
                assert(front[i] == cs[i]);
                assert(hit_paths(rest).contains(p));
                let j = choose|j: int| 0 <= j < hit_paths(rest).len() && hit_paths(rest)[j] == p;
                assert(hit_paths(hs)[j] == p);
            }
        }
    }
}

/// Where the index matches the namespace, a query that pins a type whose
/// name holds no `/` hits exactly the entries of that type at which it
/// holds: the same paths a look at every entry would find.
pub proof fn lemma_typed_query_exact(kv: Kv, e: ExprModel, qs: Seq<Seq<Seq<char>>>, p: Seq<Seq<char>>)
    requires
        index_faithful(kv),
        required_type(e) matches Some(t) && !t.contains('/'),
        exists|rows: Seq<(Seq<u8>, Seq<u8>)>| is_prefix_scan(kv, type_index_prefix_spec(required_type(e)->0), rows),
        visit_order(kv, e, qs),
    ensures
        spec_candidates(kv, e, qs) matches Ok(cs) && (hit_paths(spec_hits(e, cs)).contains(p) <==> path_like(p)
            && typed_at(kv, p, required_type(e)->0) && expr_holds(
            e,
            p,
            spec_get(kv, p)->Ok_0.0,
            spec_get(kv, p)->Ok_0.1,
        )),
{
    broadcast use vstd::seq_lib::group_to_multiset_ensures;

    let t = required_type(e)->0;
    lemma_indexed_paths_exact(kv, t, p);
    let ps = spec_indexed_paths(kv, t)->Ok_0;
    assert(qs.to_multiset() == ps.to_multiset());
    assert forall|i: int| 0 <= i < qs.len() implies spec_get(kv, #[trigger] qs[i]) is Ok by {
        assert(qs.to_multiset().count(qs[i]) > 0);
        assert(ps.contains(qs[i]));
        lemma_indexed_paths_exact(kv, t, qs[i]);
        lemma_typed_reads(kv, qs[i], t);
    }
    lemma_typed_candidates(kv, qs);
    let cs = spec_typed(kv, qs)->Ok_0;
    lemma_hits_contain(e, cs, p);
    assert(qs.contains(p) <==> ps.contains(p)) by {
        assert(qs.contains(p) <==> qs.to_multiset().count(p) > 0);
        assert(ps.contains(p) <==> ps.to_multiset().count(p) > 0);
    }
    if hit_paths(spec_hits(e, cs)).contains(p) {
        let i = choose|i: int| 0 <= i < cs.len() && (#[trigger] cs[i]).0 == p && expr_holds(e, cs[i].0, cs[i].1, cs[i].2);
        assert(cs[i] == (qs[i], spec_get(kv, qs[i])->Ok_0.0, spec_get(kv, qs[i])->Ok_0.1));
        assert(qs.contains(p));
    }
    if path_like(p) && typed_at(kv, p, t) && expr_holds(e, p, spec_get(kv, p)->Ok_0.0, spec_get(kv, p)->Ok_0.1) {
        assert(qs.contains(p));
        let i = choose|i: int| 0 <= i < qs.len() && qs[i] == p;
        assert(cs[i] == (qs[i], spec_get(kv, qs[i])->Ok_0.0, spec_get(kv, qs[i])->Ok_0.1));
    }
}


/// What `paths_with_type` gives, where the index matches the namespace and
/// the store was read: exactly the paths of the entries of that type.
pub proof fn lemma_paths_exact_listed(kv: Kv, ty: Seq<char>, r: Result<Vec<DbPath>, NsError>)
    requires
        index_faithful(kv),
        !ty.contains('/'),
        !storage_failed(r),
        match spec_indexed_paths(kv, ty) {
            Ok(ps) => r matches Ok(v) && path_models(v@).to_multiset() == ps.to_multiset(),
            Err(e) => r matches Err(x) && x.model() == e,
        },
        exists|rows: Seq<(Seq<u8>, Seq<u8>)>| is_prefix_scan(kv, type_index_prefix_spec(ty), rows),
    ensures
        r matches Ok(v) && forall|q: Seq<Seq<char>>|
            #![trigger path_models(v@).contains(q)]
            path_models(v@).contains(q) <==> path_like(q) && typed_at(kv, q, ty),
{
    broadcast use vstd::seq_lib::group_to_multiset_ensures;

    lemma_indexed_paths_exact(kv, ty, Seq::empty());
    let ps = spec_indexed_paths(kv, ty)->Ok_0;
    let v = r->Ok_0;
    assert forall|q: Seq<Seq<char>>| #![trigger path_models(v@).contains(q)] path_models(v@).contains(q) <==> path_like(q)
        && typed_at(kv, q, ty) by {
        lemma_indexed_paths_exact(kv, ty, q);
        assert(path_models(v@).contains(q) <==> path_models(v@).to_multiset().count(q) > 0);
        assert(ps.contains(q) <==> ps.to_multiset().count(q) > 0);
    }
}

} // verus!
