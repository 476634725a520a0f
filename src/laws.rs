//! Properties that relate several operations of the storage engine.
use vstd::prelude::*;

use crate::error::DbError;
use crate::listing::{capped, goes_before, has_more, insert_sorted, listed, listed_pred, page, rest_from, sort_rows};
use crate::params::Sorting;
use crate::models::{matching_sorted, put_applied, resolved, resolved_or_created, touched, write_lock_outcome, write_locked, read_key};
use crate::params::PutBso;
use crate::session::{CollectionLock, Session};
use crate::store::{
    bso_doomed_key, bso_key_is, bso_keep, bso_of, bso_unique, lemma_coll_id_row, lemma_row_binds, uc_keep, uc_modified, BsoRow,
    Tables, UserCollectionRow,
};

verus! {

/// A write lock is refused with `Conflict` whenever the stored timestamp of
/// the collection is not below the session's, and once granted, the write
/// that follows stamps the collection strictly later than before.
pub proof fn lemma_locked_writes_advance(t0: &Tables, s: &Session, user_id: u32, name: Seq<char>, t1: &Tables)
    requires
        t0.coll_id(name) is Some,
        s.lock(user_id, t0.coll_id(name)->0) != Some(CollectionLock::Read),
        touched(t0, t1, user_id, t0.coll_id(name)->0, s.timestamp),
    ensures
        ({
            let cid = t0.coll_id(name)->0;
            &&& (t0.modified_of(user_id, cid) is Some && t0.modified_of(user_id, cid)->0 >= s.timestamp)
                ==> write_lock_outcome(t0, s, user_id, name) == Err::<(), DbError>(DbError::Conflict)
            &&& write_lock_outcome(t0, s, user_id, name) is Ok ==> {
                &&& t1.modified_of(user_id, cid) == Some(s.timestamp)
                &&& (t0.modified_of(user_id, cid) is Some ==> t0.modified_of(user_id, cid)->0
                    < t1.modified_of(user_id, cid)->0)
            }
        }),
{
}

/// In one session a read lock never becomes a write lock: asking for the
/// write lock on a read-locked key fails.
pub proof fn lemma_no_escalation(t: &Tables, s: &Session, user_id: u32, name: Seq<char>)
    requires
        t.coll_id(name) is Some,
        s.lock(user_id, t.coll_id(name)->0) == Some(CollectionLock::Read),
    ensures
        write_lock_outcome(t, s, user_id, name) == Err::<(), DbError>(DbError::LockEscalation),
{
}

/// After a write lock on a key, a read lock on the same key finds a lock
/// in place (so it changes nothing), and the lock held stays a write lock.
pub proof fn lemma_read_after_write(s0: &Session, s1: &Session, t: &Tables, user_id: u32, name: Seq<char>, observed: Option<i64>)
    requires
        t.coll_id(name) is Some,
        write_locked(s0, s1, user_id, t.coll_id(name)->0, observed),
    ensures
        s1.lock(user_id, read_key(t, name)) == Some(CollectionLock::Write),
{
}

/// A write with a payload stores that payload; a later write of the same
/// object that gives only a sort index keeps the payload and the expiry,
/// sets the sort index and stamps the object anew.
pub proof fn lemma_put_round_trip(
    t0: &Tables,
    t1: &Tables,
    t2: &Tables,
    first: &PutBso,
    second: &PutBso,
    cid: i32,
    ts1: i64,
    ts2: i64,
)
    requires
        put_applied(t0, t1, first, cid, ts1),
        put_applied(t1, t2, second, cid, ts2),
        first.payload is Some,
        second.user_id == first.user_id,
        second.id@ == first.id@,
        second.payload is None,
        second.sortindex is Some,
        second.ttl is None,
    ensures
        bso_of(t1.bso@, first.user_id, cid, first.id@)->0.payload@ == first.payload->0@,
        bso_of(t2.bso@, first.user_id, cid, first.id@)->0.payload@ == first.payload->0@,
        bso_of(t2.bso@, first.user_id, cid, first.id@)->0.sortindex == second.sortindex,
        bso_of(t2.bso@, first.user_id, cid, first.id@)->0.modified == ts2,
        bso_of(t2.bso@, first.user_id, cid, first.id@)->0.expiry == bso_of(t1.bso@, first.user_id, cid, first.id@)->0.expiry,
{
}

/// An object written with a ttl of 0 is hidden from every read at or after
/// the write's time, yet its row stays in the table, so deleting its
/// collection has a row to remove.
pub proof fn lemma_zero_ttl_hidden(t0: &Tables, t1: &Tables, bso: &PutBso, cid: i32, ts: i64, now: i64)
    requires
        put_applied(t0, t1, bso, cid, ts),
        bso.ttl == Some(0u32),
        now >= ts,
    ensures
        ({
            let row = bso_of(t1.bso@, bso.user_id, cid, bso.id@)->0;
            &&& !(row.expiry > now)
            &&& forall|ids: Seq<String>, older: i64, newer: i64| !listed(row, bso.user_id, cid, ids, older, newer, now)
            &&& t1.bso@.filter(bso_keep(bso.user_id, Some(cid), None)).len() < t1.bso@.len()
            &&& t1.bso@.filter(bso_keep(bso.user_id, None, None)).len() < t1.bso@.len()
        }),
{
    lemma_delete_finds(t1.bso@, bso.user_id, cid, bso.id@, Some(cid));
    lemma_delete_finds(t1.bso@, bso.user_id, cid, bso.id@, None);
}

/// A delete that covers a stored object removes at least one row.
pub proof fn lemma_delete_finds(s: Seq<BsoRow>, user_id: u32, cid: i32, id: Seq<char>, scope: Option<i32>)
    requires
        bso_of(s, user_id, cid, id) is Some,
        bso_doomed_key(user_id, cid, id, user_id, scope, None),
    ensures
        s.filter(bso_keep(user_id, scope, None)).len() < s.len(),
    decreases s.len(),
{
    let pred = bso_keep(user_id, scope, None);
    reveal(Seq::filter);
    s.drop_last().lemma_filter_len(pred);
    if s.len() > 0 && bso_of(s.drop_last(), user_id, cid, id) is Some && !bso_doomed_key(
        s.last().user_id,
        s.last().collection_id,
        s.last().id@,
        user_id,
        scope,
        None,
    ) {
        lemma_delete_finds(s.drop_last(), user_id, cid, id, scope);
    }
}

/// Pages tile a listing: when rows remain beyond a page of `limit` rows at
/// `offset`, the page holds exactly `limit` rows, and the page at
/// `offset + limit` continues right after it; when at most `limit` rows
/// remain there, that next page holds all of them and reports no more.
pub proof fn lemma_pages_tile(all: Seq<BsoRow>, limit: i64, offset: i64)
    requires
        0 <= limit,
        0 <= offset,
        offset + limit <= i64::MAX,
        has_more(all, limit, offset),
    ensures
        page(all, limit, offset).len() == limit,
        page(all, limit, offset) + rest_from(all, (offset + limit) as i64) == rest_from(all, offset),
        rest_from(all, (offset + limit) as i64).len() <= limit ==> {
            &&& !has_more(all, limit, (offset + limit) as i64)
            &&& page(all, limit, (offset + limit) as i64) == rest_from(all, (offset + limit) as i64)
        },
{
    assert(page(all, limit, offset) + rest_from(all, (offset + limit) as i64) =~= rest_from(all, offset));
}

/// Once a name is bound to an id, every later state of the store (which
/// only appends collections) resolves the name to that same id, whichever
/// session created it.
pub proof fn lemma_resolution_stable(t1: &Tables, t2: &Tables, name: Seq<char>)
    requires
        t1.wf(),
        t2.wf(),
        t1.collections@.is_prefix_of(t2.collections@),
        t1.coll_id(name) is Some,
    ensures
        t2.coll_id(name) == t1.coll_id(name),
        resolved(t2, name) == resolved(t1, name),
        resolved_or_created(t2, name) == resolved_or_created(t1, name),
{
    lemma_coll_id_row(t1.collections@, name);
    let i = choose|i: int|
        0 <= i < t1.collections@.len() && #[trigger] t1.collections@[i].name@ == name && t1.collections@[i].id
            == t1.coll_id(name)->0;
    assert(t2.collections@[i] == t1.collections@[i]);
    lemma_row_binds(t2.collections@, i);
}

/// Deleting a collection that has a collection row but no objects still
/// removes a row.
pub proof fn lemma_delete_collection_row(t: &Tables, user_id: u32, cid: i32)
    requires
        t.modified_of(user_id, cid) is Some,
    ensures
        t.user_collections@.filter(uc_keep(user_id, Some(cid))).len() < t.user_collections@.len(),
{
    lemma_uc_delete_finds(t.user_collections@, user_id, cid);
}

/// A delete of (user, collection) that has a row removes at least one row.
pub proof fn lemma_uc_delete_finds(s: Seq<UserCollectionRow>, user_id: u32, cid: i32)
    requires
        uc_modified(s, user_id, cid) is Some,
    ensures
        s.filter(uc_keep(user_id, Some(cid))).len() < s.len(),
    decreases s.len(),
{
    let pred = uc_keep(user_id, Some(cid));
    reveal(Seq::filter);
    s.drop_last().lemma_filter_len(pred);
    if s.len() > 0 && !(s.last().user_id == user_id && s.last().collection_id == cid) {
        lemma_uc_delete_finds(s.drop_last(), user_id, cid);
    }
}

/// Whether no row of `s` goes before a row placed ahead of it.
pub open spec fn ordered(s: Seq<BsoRow>, sort: Sorting) -> bool {
    forall|i: int, j: int| 0 <= i < j < s.len() ==> !goes_before(#[trigger] s[j], #[trigger] s[i], sort)
}

/// Placing a row into ordered rows keeps them ordered and adds exactly that row.
pub proof fn lemma_insert_sorted(s: Seq<BsoRow>, x: BsoRow, sort: Sorting)
    requires
        ordered(s, sort),
    ensures
        ordered(insert_sorted(s, x, sort), sort),
        insert_sorted(s, x, sort).to_multiset() == s.to_multiset().insert(x),
    decreases s.len(),
{
    broadcast use vstd::seq_lib::group_to_multiset_ensures;

    if s.len() == 0 {
        assert(seq![x] =~= Seq::<BsoRow>::empty().push(x));
        assert(Seq::<BsoRow>::empty().to_multiset() =~= vstd::multiset::Multiset::empty());
    } else {
        let t = s.drop_last();
        let l = s.last();
        assert(s =~= t.push(l));
        assert forall|i: int, j: int| 0 <= i < j < t.len() implies !goes_before(#[trigger] t[j], #[trigger] t[i], sort) by {
            assert(t[i] == s[i] && t[j] == s[j]);
        }
        if goes_before(x, l, sort) {
            lemma_insert_sorted(t, x, sort);
            let u = insert_sorted(t, x, sort);
            let r = u.push(l);
            assert(u.to_multiset().insert(l) =~= s.to_multiset().insert(x));
            assert forall|k: int| 0 <= k < u.len() implies !goes_before(l, #[trigger] u[k], sort) by {
                assert(u.to_multiset().count(u[k]) > 0);
                if u[k] != x {
                    assert(t.to_multiset().count(u[k]) > 0);
                    assert(t.contains(u[k]));
                    let m = choose|m: int| 0 <= m < t.len() && t[m] == u[k];
                    assert(s[m] == t[m]);
                    assert(s[s.len() - 1] == l);
                }
            }
            assert forall|i: int, j: int| 0 <= i < j < r.len() implies !goes_before(#[trigger] r[j], #[trigger] r[i], sort) by {
                if j == r.len() - 1 {
                    assert(r[j] == l);
                    assert(r[i] == u[i]);
                } else {
                    assert(r[i] == u[i] && r[j] == u[j]);
                }
            }
        } else {
            let r = s.push(x);
            assert forall|i: int, j: int| 0 <= i < j < r.len() implies !goes_before(#[trigger] r[j], #[trigger] r[i], sort) by {
                assert(r[i] == s[i]);
                if j < s.len() {
                    assert(r[j] == s[j]);
                } else {
                    assert(s[s.len() - 1] == l);
                    if i < s.len() - 1 {
                        assert(!goes_before(s[s.len() - 1], s[i], sort));
                    }
                }
            }
        }
    }
}

/// A listing's order is ordered by its sort key, and holds exactly the rows
/// it was given.
pub proof fn lemma_sort_rows(s: Seq<BsoRow>, sort: Sorting)
    ensures
        ordered(sort_rows(s, sort), sort),
        sort_rows(s, sort).to_multiset() == s.to_multiset(),
    decreases s.len(),
{
    broadcast use vstd::seq_lib::group_to_multiset_ensures;

    if s.len() == 0 {
    } else {
        lemma_sort_rows(s.drop_last(), sort);
        lemma_insert_sorted(sort_rows(s.drop_last(), sort), s.last(), sort);
        assert(s =~= s.drop_last().push(s.last()));
    }
}

/// Every prefix of a `bso` table without duplicate keys has none either.
pub proof fn lemma_bso_unique_prefix(s: Seq<BsoRow>, n: int)
    requires
        bso_unique(s),
        0 <= n <= s.len(),
    ensures
        bso_unique(s.take(n)),
    decreases s.len(),
{
    if n < s.len() {
        assert(s.drop_last().take(n) =~= s.take(n));
        lemma_bso_unique_prefix(s.drop_last(), n);
    } else {
        assert(s.take(n) =~= s);
    }
}

/// In a `bso` table without duplicate keys, every row is the stored object
/// of its key, and no two rows share a key.
pub proof fn lemma_bso_rows_stored(s: Seq<BsoRow>, i: int, j: int)
    requires
        bso_unique(s),
        0 <= i < s.len(),
        0 <= j < s.len(),
    ensures
        bso_of(s, s[i].user_id, s[i].collection_id, s[i].id@) == Some(s[i]),
        i != j ==> !bso_key_is(s[j], s[i].user_id, s[i].collection_id, s[i].id@),
    decreases s.len(),
{
    lemma_bso_row_found(s, i);
    if i != j {
        let (a, b) = if i < j { (i, j) } else { (j, i) };
        let p = s.take(b + 1);
        lemma_bso_unique_prefix(s, b + 1);
        assert(p.drop_last() =~= s.take(b));
        lemma_bso_unique_prefix(s, b);
        assert(s.take(b)[a] == s[a]);
        lemma_bso_row_found(s.take(b), a);
        assert(p.last() == s[b]);
    }
}

/// In a `bso` table without duplicate keys, every row is the stored object of its key.
pub proof fn lemma_bso_row_found(s: Seq<BsoRow>, i: int)
    requires
        bso_unique(s),
        0 <= i < s.len(),
    ensures
        bso_of(s, s[i].user_id, s[i].collection_id, s[i].id@) == Some(s[i]),
    decreases s.len(),
{
    if i < s.len() - 1 {
        let t = s.drop_last();
        assert(t[i] == s[i]);
        lemma_bso_row_found(t, i);
    }
}

/// Every row that a listing returns passes its filters, is not expired,
/// and is the stored object of its key.
pub proof fn lemma_listing_rows(
    t: &Tables,
    user_id: u32,
    cid: i32,
    ids: Seq<String>,
    older: i64,
    newer: i64,
    now: i64,
    sort: Sorting,
    k: int,
)
    requires
        t.wf(),
        0 <= k < matching_sorted(t, user_id, cid, ids, older, newer, now, sort).len(),
    ensures
        ({
            let all = matching_sorted(t, user_id, cid, ids, older, newer, now, sort);
            &&& listed(all[k], user_id, cid, capped(ids), older, newer, now)
            &&& all[k].expiry > now
            &&& bso_of(t.bso@, all[k].user_id, all[k].collection_id, all[k].id@) == Some(all[k])
        }),
{
    broadcast use vstd::seq_lib::group_to_multiset_ensures;

    let pred = listed_pred(user_id, cid, capped(ids), older, newer, now);
    let f = t.bso@.filter(pred);
    let all = matching_sorted(t, user_id, cid, ids, older, newer, now, sort);
    lemma_sort_rows(f, sort);
    assert(all.to_multiset().count(all[k]) > 0);
    assert(f.contains(all[k]));
    t.bso@.filter_lemma(pred);
    t.bso@.lemma_filter_contains_rev(pred, all[k]);
    let i = choose|i: int| 0 <= i < t.bso@.len() && t.bso@[i] == all[k];
    lemma_bso_rows_stored(t.bso@, i, i);
}

/// Whether no two rows of `s` share a (user, collection, id) key.
pub open spec fn keys_distinct(s: Seq<BsoRow>) -> bool {
    forall|i: int, j: int|
        0 <= i < j < s.len() ==> !bso_key_is(#[trigger] s[j], s[i].user_id, s[i].collection_id, (#[trigger] s[i]).id@)
}

/// Any filter of a table keeps out a key that the table lacks.
pub proof fn lemma_filter_absent(s: Seq<BsoRow>, p: spec_fn(BsoRow) -> bool, u: u32, c: i32, id: Seq<char>)
    requires
        bso_of(s, u, c, id) is None,
    ensures
        bso_of(s.filter(p), u, c, id) is None,
    decreases s.len(),
{
    if s.len() > 0 {
        lemma_filter_absent(s.drop_last(), p, u, c, id);
        let f = s.drop_last().filter(p);
        reveal(Seq::filter);
        assert(s.filter(p) == if p(s.last()) { f.push(s.last()) } else { f });
        if p(s.last()) {
            assert(f.push(s.last()).drop_last() =~= f);
        }
    }
}

/// Any filter of a table without duplicate keys has none either.
pub proof fn lemma_filter_keys_distinct(s: Seq<BsoRow>, p: spec_fn(BsoRow) -> bool)
    requires
        bso_unique(s),
    ensures
        bso_unique(s.filter(p)),
        keys_distinct(s.filter(p)),
    decreases s.len(),
{
    if s.len() > 0 {
        lemma_filter_keys_distinct(s.drop_last(), p);
        let f = s.drop_last().filter(p);
        reveal(Seq::filter);
        assert(s.filter(p) == if p(s.last()) { f.push(s.last()) } else { f });
        if p(s.last()) {
            let l = s.last();
            lemma_filter_absent(s.drop_last(), p, l.user_id, l.collection_id, l.id@);
            assert(f.push(l).drop_last() =~= f);
            assert(f.push(l).last() == l);
        }
    }
    let g = s.filter(p);
    assert forall|i: int, j: int| 0 <= i < j < g.len() implies !bso_key_is(#[trigger] g[j], g[i].user_id, g[i].collection_id, (#[trigger] g[i]).id@) by {
        lemma_bso_rows_stored(g, i, j);
    }
}

/// Placing a row whose key is new into rows with distinct keys keeps the keys distinct.
pub proof fn lemma_insert_keys_distinct(s: Seq<BsoRow>, x: BsoRow, sort: Sorting)
    requires
        keys_distinct(s),
        forall|i: int| 0 <= i < s.len() ==> !bso_key_is(#[trigger] s[i], x.user_id, x.collection_id, x.id@),
    ensures
        keys_distinct(insert_sorted(s, x, sort)),
    decreases s.len(),
{
    broadcast use vstd::seq_lib::group_to_multiset_ensures;

    if s.len() > 0 {
        let t = s.drop_last();
        let l = s.last();
        assert(s[s.len() - 1] == l);
        assert forall|i: int, j: int| 0 <= i < j < t.len() implies !bso_key_is(#[trigger] t[j], t[i].user_id, t[i].collection_id, (#[trigger] t[i]).id@) by {
            assert(t[i] == s[i] && t[j] == s[j]);
        }
        if goes_before(x, l, sort) {
            assert forall|i: int| 0 <= i < t.len() implies !bso_key_is(#[trigger] t[i], x.user_id, x.collection_id, x.id@) by {
                assert(t[i] == s[i]);
            }
            lemma_insert_keys_distinct(t, x, sort);
            lemma_insert_sorted_elements(t, x, sort);
            let u = insert_sorted(t, x, sort);
            let r = u.push(l);
            assert forall|i: int, j: int| 0 <= i < j < r.len() implies !bso_key_is(#[trigger] r[j], r[i].user_id, r[i].collection_id, (#[trigger] r[i]).id@) by {
                assert(r[i] == u[i]);
                if j == r.len() - 1 {
                    assert(r[j] == l);
                    if u[i] != x {
                        let m = choose|m: int| 0 <= m < t.len() && t[m] == u[i];
                        assert(s[m] == t[m]);
                    }
                } else {
                    assert(r[j] == u[j]);
                }
            }
        } else {
            let r = s.push(x);
            assert forall|i: int, j: int| 0 <= i < j < r.len() implies !bso_key_is(#[trigger] r[j], r[i].user_id, r[i].collection_id, (#[trigger] r[i]).id@) by {
                assert(r[i] == s[i]);
                if j < s.len() {
                    assert(r[j] == s[j]);
                }
            }
        }
    } else {
        assert(seq![x].len() == 1);
    }
}

/// Every row of `insert_sorted(s, x)` is `x` or a row of `s`.
pub proof fn lemma_insert_sorted_elements(s: Seq<BsoRow>, x: BsoRow, sort: Sorting)
    ensures
        forall|k: int| 0 <= k < insert_sorted(s, x, sort).len() ==> #[trigger] insert_sorted(s, x, sort)[k] == x
            || exists|m: int| 0 <= m < s.len() && s[m] == insert_sorted(s, x, sort)[k],
    decreases s.len(),
{
    if s.len() > 0 {
        let t = s.drop_last();
        lemma_insert_sorted_elements(t, x, sort);
        let r = insert_sorted(s, x, sort);
        assert forall|k: int| 0 <= k < r.len() implies #[trigger] r[k] == x || exists|m: int| 0 <= m < s.len() && s[m] == r[k] by {
            if goes_before(x, s.last(), sort) {
                let u = insert_sorted(t, x, sort);
                if k == r.len() - 1 {
                    assert(s[s.len() - 1] == r[k]);
                } else {
                    assert(r[k] == u[k]);
                    if u[k] != x {
                        let m = choose|m: int| 0 <= m < t.len() && t[m] == u[k];
                        assert(s[m] == t[m]);
                    }
                }
            } else {
                if k < s.len() {
                    assert(s[k] == r[k]);
                }
            }
        }
    }
}

/// A sorted listing of rows with distinct keys has distinct keys.
pub proof fn lemma_sort_keys_distinct(s: Seq<BsoRow>, sort: Sorting)
    requires
        keys_distinct(s),
    ensures
        keys_distinct(sort_rows(s, sort)),
    decreases s.len(),
{
    broadcast use vstd::seq_lib::group_to_multiset_ensures;

    if s.len() > 0 {
        let t = s.drop_last();
        assert forall|i: int, j: int| 0 <= i < j < t.len() implies !bso_key_is(#[trigger] t[j], t[i].user_id, t[i].collection_id, (#[trigger] t[i]).id@) by {
            assert(t[i] == s[i] && t[j] == s[j]);
        }
        lemma_sort_keys_distinct(t, sort);
        lemma_sort_rows(t, sort);
        let u = sort_rows(t, sort);
        assert forall|i: int| 0 <= i < u.len() implies !bso_key_is(#[trigger] u[i], s.last().user_id, s.last().collection_id, s.last().id@) by {
            assert(u.to_multiset().count(u[i]) > 0);
            assert(t.contains(u[i]));
            let m = choose|m: int| 0 <= m < t.len() && t[m] == u[i];
            assert(s[m] == t[m]);
            assert(s[s.len() - 1] == s.last());
        }
        lemma_insert_keys_distinct(u, s.last(), sort);
    }
}

/// No two rows that a listing returns share an id.
pub proof fn lemma_listing_ids_distinct(
    t: &Tables,
    user_id: u32,
    cid: i32,
    ids: Seq<String>,
    older: i64,
    newer: i64,
    now: i64,
    sort: Sorting,
    k: int,
    m: int,
)
    requires
        t.wf(),
        0 <= k < m < matching_sorted(t, user_id, cid, ids, older, newer, now, sort).len(),
    ensures
        matching_sorted(t, user_id, cid, ids, older, newer, now, sort)[k].id@
            != matching_sorted(t, user_id, cid, ids, older, newer, now, sort)[m].id@,
{
    let pred = listed_pred(user_id, cid, capped(ids), older, newer, now);
    lemma_filter_keys_distinct(t.bso@, pred);
    lemma_sort_keys_distinct(t.bso@.filter(pred), sort);
    lemma_listing_rows(t, user_id, cid, ids, older, newer, now, sort, k);
    lemma_listing_rows(t, user_id, cid, ids, older, newer, now, sort, m);
}

} // verus!
