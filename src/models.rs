//! The storage engine: one session over the backing tables and the shared
//! collection cache.
use vstd::prelude::*;

use crate::cache::{lemma_cached_id, lemma_cached_name, lemma_coherent_grow, lemma_coherent_put, lemma_coherent_same, CollectionCache};
use crate::error::{error_text, DbError, Result};
use crate::session::{CollectionLock, Session};
use crate::listing::{cap_ids, capped, has_more, is_listed, listed_pred, page, rest_from, sort_by, sort_rows};
use crate::params::{self, PutBso, Sorting};
use crate::results;
use crate::store::{bso_keep, uc_keep, UserCollectionRow, bso_of, lemma_bso_of_key, lemma_coll_id_row, lemma_row_binds, BsoRow, CollectionRow, Tables};

verus! {

/// The ttl, in seconds, of rows that are never supposed to expire.
pub const DEFAULT_BSO_TTL: u32 = 2100000000;

/// Largest session timestamp: any ttl added to it stays within `i64`.
pub const MAX_TIMESTAMP: i64 = 9223372032559808512;

/// One session of the storage engine.
pub struct MysqlDb {
    /// The backing tables.
    pub conn: Tables,
    pub session: Session,
    /// Cache of collection ids and names shared across sessions.
    pub coll_cache: CollectionCache,
}

/// Outcome of resolving `name` against a store.
pub open spec fn resolved(t: &Tables, name: Seq<char>) -> Result<i32> {
    match t.coll_id(name) {
        Some(id) => Ok(id),
        None => Err(DbError::CollectionNotFound),
    }
}

/// Outcome of resolving `name` against a store, creating it when absent.
pub open spec fn resolved_or_created(t: &Tables, name: Seq<char>) -> Result<i32> {
    match t.coll_id(name) {
        Some(id) => Ok(id),
        None => if t.next_collection_id < i32::MAX {
            Ok(t.next_collection_id)
        } else {
            Err(DbError::CollectionIdsExhausted)
        },
    }
}

/// Key under which a read lock on `name` is taken: its id, or 0 when the
/// collection does not exist.
pub open spec fn read_key(t: &Tables, name: Seq<char>) -> i32 {
    match t.coll_id(name) {
        Some(id) => id,
        None => 0,
    }
}

/// `s1` is `s0` with a read lock on (user, collection) and that key's stored
/// timestamp, if any, cached.
pub open spec fn read_locked(s0: &Session, s1: &Session, t: &Tables, user_id: u32, cid: i32) -> bool {
    &&& s1.timestamp == s0.timestamp
    &&& forall|u: u32, c: i32|
        #[trigger] s1.lock(u, c) == if u == user_id && c == cid {
            Some(CollectionLock::Read)
        } else {
            s0.lock(u, c)
        }
    &&& forall|u: u32, c: i32|
        #[trigger] s1.cached_modified(u, c) == if u == user_id && c == cid && t.modified_of(u, c) is Some {
            t.modified_of(u, c)
        } else {
            s0.cached_modified(u, c)
        }
}

/// Outcome of taking a write lock on (user, `name`) in session `s` over `t`.
pub open spec fn write_lock_outcome(t: &Tables, s: &Session, user_id: u32, name: Seq<char>) -> Result<()> {
    match resolved_or_created(t, name) {
        Err(e) => Err(e),
        Ok(cid) => if s.lock(user_id, cid) == Some(CollectionLock::Read) {
            Err(DbError::LockEscalation)
        } else {
            match t.modified_of(user_id, cid) {
                Some(m) => if m >= s.timestamp {
                    Err(DbError::Conflict)
                } else {
                    Ok(())
                },
                None => Ok(()),
            }
        },
    }
}

/// `s1` is `s0` with a write lock on (user, collection) and the observed
/// timestamp, if any, cached.
pub open spec fn write_locked(s0: &Session, s1: &Session, user_id: u32, cid: i32, observed: Option<i64>) -> bool {
    &&& s1.timestamp == s0.timestamp
    &&& forall|u: u32, c: i32|
        #[trigger] s1.lock(u, c) == if u == user_id && c == cid {
            Some(CollectionLock::Write)
        } else {
            s0.lock(u, c)
        }
    &&& forall|u: u32, c: i32|
        #[trigger] s1.cached_modified(u, c) == if u == user_id && c == cid && observed is Some {
            observed
        } else {
            s0.cached_modified(u, c)
        }
}

/// Text of an optional string.
pub open spec fn opt_view(p: Option<String>) -> Option<Seq<char>> {
    match p {
        Some(x) => Some(x@),
        None => None,
    }
}

/// Data fields that a write of `payload`, `sortindex` and `ttl` at time
/// `ts` leaves in row `r`, given the stored row.
pub open spec fn write_outcome(
    stored: Option<BsoRow>,
    payload: Option<Seq<char>>,
    sortindex: Option<i32>,
    ttl: Option<u32>,
    ts: i64,
    r: BsoRow,
) -> bool {
    match stored {
        Some(old) => {
            &&& r.payload@ == match payload {
                Some(p) => p,
                None => old.payload@,
            }
            &&& r.sortindex == match sortindex {
                Some(s) => Some(s),
                None => old.sortindex,
            }
            &&& r.modified == if payload is Some || sortindex is Some {
                ts
            } else {
                old.modified
            }
            &&& r.expiry == match ttl {
                Some(t) => ts + t,
                None => old.expiry as int,
            }
        },
        None => {
            &&& r.payload@ == match payload {
                Some(p) => p,
                None => Seq::<char>::empty(),
            }
            &&& r.sortindex == sortindex
            &&& r.modified == ts
            &&& r.expiry == ts + match ttl {
                Some(t) => t,
                None => DEFAULT_BSO_TTL,
            }
        },
    }
}

/// Row that a write of `bso` leaves under its key, given the stored row.
pub open spec fn put_outcome(stored: Option<BsoRow>, bso: &PutBso, cid: i32, ts: i64, r: BsoRow) -> bool {
    &&& r.user_id == bso.user_id
    &&& r.collection_id == cid
    &&& r.id@ == bso.id@
    &&& write_outcome(stored, opt_view(bso.payload), bso.sortindex, bso.ttl, ts, r)
}

/// `t1.bso` is `t0.bso` with the write of `bso` into collection `cid` applied.
pub open spec fn put_applied(t0: &Tables, t1: &Tables, bso: &PutBso, cid: i32, ts: i64) -> bool {
    &&& bso_of(t1.bso@, bso.user_id, cid, bso.id@) is Some
    &&& put_outcome(
        bso_of(t0.bso@, bso.user_id, cid, bso.id@),
        bso,
        cid,
        ts,
        bso_of(t1.bso@, bso.user_id, cid, bso.id@)->0,
    )
    &&& forall|u: u32, c: i32, id: Seq<char>|
        !(u == bso.user_id && c == cid && id == bso.id@) ==> #[trigger] bso_of(t1.bso@, u, c, id)
            == bso_of(t0.bso@, u, c, id)
}

/// `t1.user_collections` is `t0.user_collections` with (user, collection)
/// stamped `ts`.
pub open spec fn touched(t0: &Tables, t1: &Tables, user_id: u32, cid: i32, ts: i64) -> bool {
    forall|u: u32, c: i32|
        #[trigger] t1.modified_of(u, c) == if u == user_id && c == cid {
            Some(ts)
        } else {
            t0.modified_of(u, c)
        }
}

/// The stored row `stored` with the fields that `bso` supplies applied.
fn put_bso_as_changeset(bso: &PutBso, stored: &BsoRow, ts: i64) -> (r: BsoRow)
    requires
        0 <= ts <= MAX_TIMESTAMP,
        stored.user_id == bso.user_id,
        stored.id@ == bso.id@,
    ensures
        put_outcome(Some(*stored), bso, stored.collection_id, ts, r),
{
    BsoRow {
        user_id: stored.user_id,
        collection_id: stored.collection_id,
        id: stored.id.clone(),
        sortindex: match bso.sortindex {
            Some(s) => Some(s),
            None => stored.sortindex,
        },
        payload: match &bso.payload {
            Some(p) => p.clone(),
            None => stored.payload.clone(),
        },
        modified: if bso.payload.is_some() || bso.sortindex.is_some() {
            ts
        } else {
            stored.modified
        },
        expiry: match bso.ttl {
            Some(t) => ts + t as i64,
            None => stored.expiry,
        },
    }
}

/// Latest `modified` among the user's rows of a `user_collections` table.
pub open spec fn max_modified(rows: Seq<UserCollectionRow>, user_id: u32) -> Option<i64>
    decreases rows.len(),
{
    if rows.len() == 0 {
        None
    } else {
        let rest = max_modified(rows.drop_last(), user_id);
        if rows.last().user_id != user_id {
            rest
        } else {
            match rest {
                Some(m) => if rows.last().modified > m { Some(rows.last().modified) } else { Some(m) },
                None => Some(rows.last().modified),
            }
        }
    }
}

/// The user's storage timestamp: the latest over their collections, else 0.
pub open spec fn storage_modified(t: &Tables, user_id: u32) -> i64 {
    match max_modified(t.user_collections@, user_id) {
        Some(m) => m,
        None => 0,
    }
}

/// `g` shows the stored row `row`.
pub open spec fn shows(g: results::GetBso, row: BsoRow) -> bool {
    &&& g.id@ == row.id@
    &&& g.modified == row.modified
    &&& g.payload@ == row.payload@
    &&& g.sortindex == row.sortindex
    &&& g.expiry == row.expiry
}

/// The visible fields of a stored row.
fn to_result(row: &BsoRow) -> (r: results::GetBso)
    ensures
        shows(r, *row),
{
    results::GetBso {
        id: row.id.clone(),
        modified: row.modified,
        payload: row.payload.clone(),
        sortindex: row.sortindex,
        expiry: row.expiry,
    }
}

/// Ids of the items whose write succeeded, in order.
pub open spec fn successes(ids: Seq<String>, outcomes: Seq<Result<u64>>) -> Seq<Seq<char>>
    decreases ids.len(),
{
    if ids.len() == 0 || outcomes.len() == 0 {
        Seq::empty()
    } else {
        let rest = successes(ids.drop_last(), outcomes.drop_last());
        if outcomes.last() is Ok {
            rest.push(ids.last()@)
        } else {
            rest
        }
    }
}

/// Ids of the items whose write failed, each with its error, in order.
pub open spec fn failures(ids: Seq<String>, outcomes: Seq<Result<u64>>) -> Seq<(Seq<char>, DbError)>
    decreases ids.len(),
{
    if ids.len() == 0 || outcomes.len() == 0 {
        Seq::empty()
    } else {
        let rest = failures(ids.drop_last(), outcomes.drop_last());
        match outcomes.last() {
            Ok(_) => rest,
            Err(e) => rest.push((ids.last()@, e)),
        }
    }
}

/// When every write succeeded, every id is a success and none failed.
pub proof fn lemma_all_succeeded(ids: Seq<String>, outcomes: Seq<Result<u64>>)
    requires
        ids.len() == outcomes.len(),
        forall|k: int| 0 <= k < outcomes.len() ==> #[trigger] outcomes[k] is Ok,
    ensures
        successes(ids, outcomes) == ids.map_values(|s: String| s@),
        failures(ids, outcomes).len() == 0,
    decreases ids.len(),
{
    if ids.len() > 0 {
        assert forall|k: int| 0 <= k < outcomes.drop_last().len() implies #[trigger] outcomes.drop_last()[k] is Ok by {
            assert(outcomes.drop_last()[k] == outcomes[k]);
        }
        lemma_all_succeeded(ids.drop_last(), outcomes.drop_last());
        assert(outcomes.last() == outcomes[outcomes.len() - 1]);
        assert(ids.map_values(|s: String| s@) =~= ids.drop_last().map_values(|s: String| s@).push(ids.last()@));
    }
}

/// Outcome of a batch from the ids of its items and the outcome of each
/// item's write: the ids that succeeded, in order, and the ids that failed,
/// in order, each with the text of its error.
pub fn batch_outcome(ids: &Vec<String>, outcomes: &Vec<Result<u64>>, modified: u64) -> (r: results::PostBsos)
    requires
        ids@.len() == outcomes@.len(),
    ensures
        r.modified == modified,
        r.success@.map_values(|s: String| s@) == successes(ids@, outcomes@),
        r.failed@.len() == failures(ids@, outcomes@).len(),
        forall|k: int|
            0 <= k < r.failed@.len() ==> {
                &&& (#[trigger] r.failed@[k]).0@ == failures(ids@, outcomes@)[k].0
                &&& r.failed@[k].1@ == error_text(failures(ids@, outcomes@)[k].1)
            },
{
    let mut success: Vec<String> = Vec::new();
    let mut failed: Vec<(String, String)> = Vec::new();
    let mut k: usize = 0;
    while k < ids.len()
        invariant
            ids@.len() == outcomes@.len(),
            k <= ids@.len(),
            success@.map_values(|s: String| s@) == successes(ids@.take(k as int), outcomes@.take(k as int)),
            failed@.len() == failures(ids@.take(k as int), outcomes@.take(k as int)).len(),
            forall|j: int|
                0 <= j < failed@.len() ==> {
                    &&& (#[trigger] failed@[j]).0@ == failures(ids@.take(k as int), outcomes@.take(k as int))[j].0
                    &&& failed@[j].1@ == error_text(failures(ids@.take(k as int), outcomes@.take(k as int))[j].1)
                },
        decreases ids@.len() - k,
    {
        proof {
            assert(ids@.take(k + 1).drop_last() =~= ids@.take(k as int));
            assert(outcomes@.take(k + 1).drop_last() =~= outcomes@.take(k as int));
            assert(ids@.take(k + 1).last() == ids@[k as int]);
            assert(outcomes@.take(k + 1).last() == outcomes@[k as int]);
        }
        let ghost before = success@;
        match &outcomes[k] {
            Ok(_) => {
                success.push(ids[k].clone());
                proof {
                    assert(success@.map_values(|s: String| s@) =~= before.map_values(|s: String| s@).push(ids@[k as int]@));
                }
            },
            Err(e) => {
                failed.push((ids[k].clone(), e.message()));
            },
        }
        k = k + 1;
    }
    proof {
        assert(ids@.take(k as int) =~= ids@);
        assert(outcomes@.take(k as int) =~= outcomes@);
    }
    results::PostBsos { modified, success, failed }
}

/// Whether no other item of a batch has the id of item `k`.
pub open spec fn unique_in(items: Seq<params::PostCollectionBso>, k: int) -> bool {
    forall|j: int| 0 <= j < items.len() && j != k ==> #[trigger] items[j].id@ != items[k].id@
}

/// The object of `item` in `t1` is what writing `item` over `t0` gives.
pub open spec fn item_stored(t0: &Tables, t1: &Tables, user_id: u32, cid: i32, item: params::PostCollectionBso, ts: i64) -> bool {
    &&& bso_of(t1.bso@, user_id, cid, item.id@) is Some
    &&& write_outcome(
        bso_of(t0.bso@, user_id, cid, item.id@),
        opt_view(item.payload),
        item.sortindex,
        item.ttl,
        ts,
        bso_of(t1.bso@, user_id, cid, item.id@)->0,
    )
}

/// Whether some item of a batch has the id `id`.
pub open spec fn in_items(items: Seq<params::PostCollectionBso>, id: Seq<char>) -> bool {
    exists|j: int| 0 <= j < items.len() && #[trigger] items[j].id@ == id
}

/// The rows that a listing takes, in its order.
pub open spec fn matching_sorted(
    t: &Tables,
    user_id: u32,
    cid: i32,
    ids: Seq<String>,
    older: i64,
    newer: i64,
    now: i64,
    sort: Sorting,
) -> Seq<BsoRow> {
    sort_rows(t.bso@.filter(listed_pred(user_id, cid, capped(ids), older, newer, now)), sort)
}

/// `g` is the page of `limit` rows at `offset` of `all`.
pub open spec fn listing_is(g: results::GetBsos, all: Seq<BsoRow>, limit: i64, offset: i64) -> bool {
    &&& g.more == has_more(all, limit, offset)
    &&& g.offset == if g.more { limit + offset } else { 0 }
    &&& g.bsos@.len() == page(all, limit, offset).len()
    &&& forall|k: int| 0 <= k < g.bsos@.len() ==> shows(#[trigger] g.bsos@[k], page(all, limit, offset)[k])
}

impl MysqlDb {
    pub open spec fn wf(&self) -> bool {
        &&& self.conn.wf()
        &&& self.coll_cache.coherent(&self.conn)
        &&& 0 <= self.session.timestamp <= MAX_TIMESTAMP
    }

    /// Both sessions see the same `user_collections` and `bso` tables.
    pub open spec fn same_data(&self, o: &MysqlDb) -> bool {
        &&& self.conn.user_collections == o.conn.user_collections
        &&& self.conn.bso == o.conn.bso
    }

    /// A session at reference time `timestamp` over `conn` and `coll_cache`.
    pub fn new(conn: Tables, coll_cache: CollectionCache, timestamp: i64) -> (r: MysqlDb)
        requires
            conn.wf(),
            coll_cache.coherent(&conn),
            0 <= timestamp <= MAX_TIMESTAMP,
        ensures
            r.wf(),
            r.conn == conn,
            r.coll_cache == coll_cache,
            r.session.timestamp == timestamp,
            r.session.coll_locks@.len() == 0,
            r.session.coll_modified_cache@.len() == 0,
    {
        MysqlDb { conn, coll_cache, session: Session::new(timestamp) }
    }

    /// Ends the session, handing back the tables and the cache.
    pub fn into_parts(self) -> (r: (Tables, CollectionCache))
        ensures
            r.0 == self.conn,
            r.1 == self.coll_cache,
    {
        (self.conn, self.coll_cache)
    }

    /// Records the binding `id`, `name` of the store in the cache.
    pub(crate) fn cache_binding(&mut self, id: i32, name: &String)
        requires
            old(self).wf(),
            old(self).conn.coll_id(name@) == Some(id),
        ensures
            final(self).wf(),
            final(self).conn == old(self).conn,
            final(self).session == old(self).session,
            final(self).coll_cache.id_of(name@) == Some(id),
            final(self).coll_cache.name_of(id) == Some(name@),
            forall|n: Seq<char>| old(self).coll_cache.id_of(n) is Some
                ==> #[trigger] final(self).coll_cache.id_of(n) == old(self).coll_cache.id_of(n),
            forall|x: i32| old(self).coll_cache.name_of(x) is Some
                ==> #[trigger] final(self).coll_cache.name_of(x) == old(self).coll_cache.name_of(x),
    {
        proof {
            lemma_coll_id_row(self.conn.collections@, name@);
            let i = choose|i: int|
                0 <= i < self.conn.collections@.len() && #[trigger] self.conn.collections@[i].name@ == name@
                    && self.conn.collections@[i].id == id;
            lemma_row_binds(self.conn.collections@, i);
        }
        let ghost before = self.coll_cache;
        self.coll_cache.put(id, name.clone());
        proof {
            lemma_coherent_put(&before, &self.coll_cache, &self.conn, id, *name);
        }
    }

    /// Id of the collection `name`: from the cache, else from the store,
    /// which then fills the cache.
    pub fn get_collection_id(&mut self, name: &String) -> (r: Result<i32>)
        requires
            old(self).wf(),
        ensures
            final(self).wf(),
            final(self).conn == old(self).conn,
            final(self).session == old(self).session,
            r == resolved(&old(self).conn, name@),
            r is Ok ==> final(self).coll_cache.id_of(name@) == Some(r->Ok_0),
            r is Ok ==> final(self).coll_cache.name_of(r->Ok_0) == Some(name@),
    {
        if let Some(id) = self.coll_cache.get_id(name) {
            proof {
                lemma_cached_id(&self.coll_cache, &self.conn, name@);
            }
            return Ok(id);
        }
        match self.conn.select_collection_id(name) {
            Some(id) => {
                self.cache_binding(id, name);
                Ok(id)
            },
            None => Err(DbError::CollectionNotFound),
        }
    }

    /// Creates the collection `name` in the store and caches it.
    pub fn create_collection(&mut self, name: &String) -> (r: Result<i32>)
        requires
            old(self).wf(),
            old(self).conn.coll_id(name@) is None,
        ensures
            final(self).wf(),
            final(self).session == old(self).session,
            final(self).same_data(old(self)),
            r is Ok ==> r->Ok_0 == old(self).conn.next_collection_id,
            r is Ok ==> final(self).coll_cache.id_of(name@) == Some(r->Ok_0),
            r is Ok ==> final(self).coll_cache.name_of(r->Ok_0) == Some(name@),
            r is Ok ==> final(self).conn.collections@ == old(self).conn.collections@.push(
                (CollectionRow { id: r->Ok_0, name: *name }),
            ),
            r is Err ==> r->Err_0 == DbError::CollectionIdsExhausted,
            r is Err ==> old(self).conn.next_collection_id == i32::MAX,
            r is Err ==> final(self).conn == old(self).conn,
    {
        let ghost before = self.conn.collections@;
        let ghost t0 = self.conn;
        match self.conn.insert_collection(name) {
            Some(id) => {
                proof {
                    lemma_coherent_grow(&self.coll_cache, &t0, &self.conn, CollectionRow { id, name: *name });
                    assert(self.conn.collections@.drop_last() =~= before);
                }
                self.cache_binding(id, name);
                Ok(id)
            },
            None => Err(DbError::CollectionIdsExhausted),
        }
    }

    /// Id of the collection `name`, creating the collection when the store
    /// has none of that name.
    pub fn get_or_create_collection_id(&mut self, name: &String) -> (r: Result<i32>)
        requires
            old(self).wf(),
        ensures
            final(self).wf(),
            final(self).session == old(self).session,
            final(self).same_data(old(self)),
            old(self).conn.collections@.is_prefix_of(final(self).conn.collections@),
            r == resolved_or_created(&old(self).conn, name@),
            r is Ok ==> final(self).conn.coll_id(name@) == Some(r->Ok_0),
            r is Ok ==> final(self).coll_cache.id_of(name@) == Some(r->Ok_0),
            r is Ok ==> final(self).coll_cache.name_of(r->Ok_0) == Some(name@),
            r is Err ==> final(self).conn == old(self).conn,
            old(self).conn.coll_id(name@) is Some ==> final(self).conn == old(self).conn,
    {
        let ghost before = self.conn.collections@;
        match self.get_collection_id(name) {
            Ok(id) => {
                proof {
                    assert(before.is_prefix_of(self.conn.collections@));
                }
                Ok(id)
            },
            Err(_) => {
                let r = self.create_collection(name);
                proof {
                    if r is Ok {
                        assert(self.conn.collections@.drop_last() =~= before);
                        assert(before.is_prefix_of(self.conn.collections@));
                    } else {
                        assert(before.is_prefix_of(self.conn.collections@));
                    }
                }
                r
            },
        }
    }

    /// Name of the collection `id`: from the cache, else from the store.
    pub fn get_collection_name(&self, id: i32) -> (r: Result<String>)
        requires
            self.wf(),
        ensures
            match r {
                Ok(n) => self.conn.coll_name(id) == Some(n@),
                Err(e) => e == DbError::CollectionNotFound && self.conn.coll_name(id) is None,
            },
    {
        if let Some(n) = self.coll_cache.get_name(id) {
            proof {
                lemma_cached_name(&self.coll_cache, &self.conn, id);
            }
            return Ok(n);
        }
        match self.conn.select_collection_name(id) {
            Some(n) => Ok(n),
            None => Err(DbError::CollectionNotFound),
        }
    }

    /// Takes a read lock on the user's collection `collection`. A collection
    /// that does not exist yet is locked under id 0. A lock already held on
    /// the key is kept as it is.
    pub fn lock_for_read(&mut self, user_id: u32, collection: &String) -> (r: Result<()>)
        requires
            old(self).wf(),
        ensures
            final(self).wf(),
            final(self).conn == old(self).conn,
            r is Ok,
            old(self).session.lock(user_id, read_key(&old(self).conn, collection@)) is Some
                ==> final(self).session == old(self).session,
            old(self).session.lock(user_id, read_key(&old(self).conn, collection@)) is None
                ==> read_locked(&old(self).session, &final(self).session, &old(self).conn, user_id, read_key(&old(self).conn, collection@)),
    {
        let collection_id = match self.get_collection_id(collection) {
            Ok(id) => id,
            Err(_) => 0,
        };
        if self.session.get_lock(user_id, collection_id).is_some() {
            return Ok(());
        }
        let ghost s0 = self.session;
        if let Some(modified) = self.conn.select_modified(user_id, collection_id) {
            self.session.set_cached_modified(user_id, collection_id, modified);
        }
        let ghost s1 = self.session;
        self.session.set_lock(user_id, collection_id, CollectionLock::Read);
        proof {
            assert(collection_id == read_key(&self.conn, collection@));
            assert forall|u: u32, c: i32| #[trigger] self.session.cached_modified(u, c) == s1.cached_modified(u, c) by {}
            assert(read_locked(&s0, &self.session, &self.conn, user_id, collection_id));
        }
        Ok(())
    }

    /// Takes a write lock on the user's collection `collection`, creating the
    /// collection if needed. Fails on a key already read-locked in this
    /// session, and with `Conflict` when the stored timestamp is not below
    /// the session's.
    pub fn lock_for_write(&mut self, user_id: u32, collection: &String) -> (r: Result<()>)
        requires
            old(self).wf(),
        ensures
            final(self).wf(),
            final(self).same_data(old(self)),
            final(self).session.timestamp == old(self).session.timestamp,
            r == write_lock_outcome(&old(self).conn, &old(self).session, user_id, collection@),
            old(self).conn.collections@.is_prefix_of(final(self).conn.collections@),
            old(self).conn.coll_id(collection@) is Some ==> final(self).conn == old(self).conn,
            r is Ok ==> final(self).conn.coll_id(collection@) == Some(
                resolved_or_created(&old(self).conn, collection@)->Ok_0,
            ),
            r is Ok ==> final(self).coll_cache.id_of(collection@) == Some(
                resolved_or_created(&old(self).conn, collection@)->Ok_0,
            ),
            r is Err ==> final(self).session == old(self).session,
            r is Ok ==> write_locked(
                &old(self).session,
                &final(self).session,
                user_id,
                resolved_or_created(&old(self).conn, collection@)->Ok_0,
                old(self).conn.modified_of(user_id, resolved_or_created(&old(self).conn, collection@)->Ok_0),
            ),
    {
        let ghost t0 = self.conn;
        let collection_id = match self.get_or_create_collection_id(collection) {
            Ok(id) => id,
            Err(e) => return Err(e),
        };
        if let Some(CollectionLock::Read) = self.session.get_lock(user_id, collection_id) {
            return Err(DbError::LockEscalation);
        }
        let ghost s0 = self.session;
        let modified = self.conn.select_modified(user_id, collection_id);
        proof {
            assert(modified == t0.modified_of(user_id, collection_id));
        }
        if let Some(modified) = modified {
            if modified >= self.session.timestamp {
                return Err(DbError::Conflict);
            }
            self.session.set_cached_modified(user_id, collection_id, modified);
        }
        let ghost s1 = self.session;
        self.session.set_lock(user_id, collection_id, CollectionLock::Write);
        proof {
            assert forall|u: u32, c: i32| #[trigger] self.session.cached_modified(u, c) == s1.cached_modified(u, c) by {}
            assert(write_locked(&s0, &self.session, user_id, collection_id, modified));
        }
        Ok(())
    }

    /// Upserts the user's collection row with the session timestamp, which
    /// it returns.
    pub fn touch_collection(&mut self, user_id: u32, collection_id: i32) -> (r: i64)
        requires
            old(self).wf(),
        ensures
            final(self).wf(),
            final(self).session == old(self).session,
            final(self).coll_cache == old(self).coll_cache,
            final(self).conn.collections == old(self).conn.collections,
            final(self).conn.next_collection_id == old(self).conn.next_collection_id,
            final(self).conn.bso == old(self).conn.bso,
            r == old(self).session.timestamp,
            forall|u: u32, c: i32|
                #[trigger] final(self).conn.modified_of(u, c) == if u == user_id && c == collection_id {
                    Some(r)
                } else {
                    old(self).conn.modified_of(u, c)
                },
    {
        let ts = self.session.timestamp;
        self.conn.upsert_modified(user_id, collection_id, ts);
        ts
    }

    /// Writes one object: fields that `bso` supplies replace the stored
    /// ones, a new object gets defaults for the rest. The user's collection
    /// is then touched, and its new timestamp returned.
    pub fn put_bso_sync(&mut self, bso: &PutBso) -> (r: Result<u64>)
        requires
            old(self).wf(),
        ensures
            final(self).wf(),
            final(self).session == old(self).session,
            old(self).conn.collections@.is_prefix_of(final(self).conn.collections@),
            match resolved_or_created(&old(self).conn, bso.collection@) {
                Err(e) => r == Err::<u64, DbError>(e) && final(self).conn == old(self).conn,
                Ok(cid) => {
                    &&& r == Ok::<u64, DbError>(old(self).session.timestamp as u64)
                    &&& final(self).conn.coll_id(bso.collection@) == Some(cid)
                    &&& put_applied(&old(self).conn, &final(self).conn, bso, cid, old(self).session.timestamp)
                    &&& touched(&old(self).conn, &final(self).conn, bso.user_id, cid, old(self).session.timestamp)
                },
            },
    {
        let ghost t0 = self.conn;
        let collection_id = match self.get_or_create_collection_id(&bso.collection) {
            Ok(id) => id,
            Err(e) => return Err(e),
        };
        let ghost t1 = self.conn;
        let user_id = bso.user_id;
        let ts = self.session.timestamp;
        proof {
            lemma_bso_of_key(self.conn.bso@, user_id, collection_id, bso.id@);
        }
        let row = match self.conn.select_bso(user_id, collection_id, &bso.id) {
            Some(stored) => put_bso_as_changeset(bso, &stored, ts),
            None => {
                let payload = match &bso.payload {
                    Some(p) => p.clone(),
                    None => String::new(),
                };
                let ttl = match bso.ttl {
                    Some(t) => t,
                    None => DEFAULT_BSO_TTL,
                };
                BsoRow {
                    user_id,
                    collection_id,
                    id: bso.id.clone(),
                    sortindex: bso.sortindex,
                    payload,
                    modified: ts,
                    expiry: ts + ttl as i64,
                }
            },
        };
        self.conn.put_row(row);
        let ghost t2 = self.conn;
        proof {
            lemma_coherent_same(&self.coll_cache, &t1, &self.conn);
        }
        self.touch_collection(user_id, collection_id);
        proof {
            assert(t0.bso == t1.bso);
            assert(t0.user_collections == t1.user_collections);
            assert(put_applied(&t0, &t2, bso, collection_id, ts));
        }
        Ok(ts as u64)
    }

    /// The object `params.id`, if stored and not expired.
    pub fn get_bso_sync(&mut self, params: &params::GetBso) -> (r: Result<results::GetBso>)
        requires
            old(self).wf(),
        ensures
            final(self).wf(),
            final(self).conn == old(self).conn,
            final(self).session == old(self).session,
            match resolved(&old(self).conn, params.collection@) {
                Err(e) => r == Err::<results::GetBso, DbError>(e),
                Ok(cid) => match bso_of(old(self).conn.bso@, params.user_id, cid, params.id@) {
                    Some(row) => if row.expiry > old(self).session.timestamp {
                        r is Ok && shows(r->Ok_0, row)
                    } else {
                        r == Err::<results::GetBso, DbError>(DbError::ItemNotFound)
                    },
                    None => r == Err::<results::GetBso, DbError>(DbError::ItemNotFound),
                },
            },
    {
        let collection_id = match self.get_collection_id(&params.collection) {
            Ok(id) => id,
            Err(e) => return Err(e),
        };
        match self.conn.select_bso(params.user_id, collection_id, &params.id) {
            Some(row) => {
                if row.expiry > self.session.timestamp {
                    Ok(to_result(&row))
                } else {
                    Err(DbError::ItemNotFound)
                }
            },
            None => Err(DbError::ItemNotFound),
        }
    }

    /// `modified` of the stored object `bso_id`, expired or not.
    pub fn get_bso_modified_sync(&mut self, user_id: u32, collection: &String, bso_id: &String) -> (r: Result<i64>)
        requires
            old(self).wf(),
        ensures
            final(self).wf(),
            final(self).conn == old(self).conn,
            final(self).session == old(self).session,
            match resolved(&old(self).conn, collection@) {
                Err(e) => r == Err::<i64, DbError>(e),
                Ok(cid) => match bso_of(old(self).conn.bso@, user_id, cid, bso_id@) {
                    Some(row) => r == Ok::<i64, DbError>(row.modified),
                    None => r == Err::<i64, DbError>(DbError::ItemNotFound),
                },
            },
    {
        let collection_id = match self.get_collection_id(collection) {
            Ok(id) => id,
            Err(e) => return Err(e),
        };
        match self.conn.select_bso(user_id, collection_id, bso_id) {
            Some(row) => Ok(row.modified),
            None => Err(DbError::ItemNotFound),
        }
    }

    /// Timestamp of the user's collection: the one this session observed,
    /// else the stored one.
    pub fn get_collection_modified_sync(&mut self, user_id: u32, collection: &String) -> (r: Result<i64>)
        requires
            old(self).wf(),
        ensures
            final(self).wf(),
            final(self).conn == old(self).conn,
            final(self).session == old(self).session,
            match resolved(&old(self).conn, collection@) {
                Err(e) => r == Err::<i64, DbError>(e),
                Ok(cid) => match old(self).session.cached_modified(user_id, cid) {
                    Some(m) => r == Ok::<i64, DbError>(m),
                    None => match old(self).conn.modified_of(user_id, cid) {
                        Some(m) => r == Ok::<i64, DbError>(m),
                        None => r == Err::<i64, DbError>(DbError::CollectionNotFound),
                    },
                },
            },
    {
        let collection_id = match self.get_collection_id(collection) {
            Ok(id) => id,
            Err(e) => return Err(e),
        };
        if let Some(modified) = self.session.get_cached_modified(user_id, collection_id) {
            return Ok(modified);
        }
        match self.conn.select_modified(user_id, collection_id) {
            Some(m) => Ok(m),
            None => Err(DbError::CollectionNotFound),
        }
    }

    /// Latest timestamp over the user's collections, 0 when there is none.
    pub fn get_storage_modified_sync(&self, user_id: u32) -> (r: i64)
        ensures
            r == match max_modified(self.conn.user_collections@, user_id) {
                Some(m) => m,
                None => 0,
            },
    {
        let rows = &self.conn.user_collections;
        let mut best: Option<i64> = None;
        let mut i: usize = 0;
        while i < rows.len()
            invariant
                i <= rows@.len(),
                best == max_modified(rows@.subrange(0, i as int), user_id),
            decreases rows@.len() - i,
        {
            let row = rows[i];
            proof {
                let s = rows@.subrange(0, i as int + 1);
                assert(s.drop_last() =~= rows@.subrange(0, i as int));
            }
            if row.user_id == user_id {
                best = match best {
                    Some(b) => if row.modified > b { Some(row.modified) } else { Some(b) },
                    None => Some(row.modified),
                };
            }
            i = i + 1;
        }
        proof {
            assert(rows@.subrange(0, i as int) =~= rows@);
        }
        match best {
            Some(m) => m,
            None => 0,
        }
    }

    /// Deletes the listed objects of the user's collection, then touches the
    /// collection and returns its new timestamp.
    pub fn delete_bsos_sync(&mut self, user_id: u32, collection: &String, bso_ids: &Vec<String>) -> (r: Result<i64>)
        requires
            old(self).wf(),
        ensures
            final(self).wf(),
            final(self).session == old(self).session,
            final(self).conn.collections == old(self).conn.collections,
            match resolved(&old(self).conn, collection@) {
                Err(e) => r == Err::<i64, DbError>(e) && final(self).conn == old(self).conn,
                Ok(cid) => {
                    &&& r == Ok::<i64, DbError>(old(self).session.timestamp)
                    &&& final(self).conn.bso@ == old(self).conn.bso@.filter(bso_keep(user_id, Some(cid), Some(bso_ids@)))
                    &&& touched(&old(self).conn, &final(self).conn, user_id, cid, old(self).session.timestamp)
                },
            },
    {
        let collection_id = match self.get_collection_id(collection) {
            Ok(id) => id,
            Err(e) => return Err(e),
        };
        let ghost t0 = self.conn;
        self.conn.delete_bsos_where(user_id, Some(collection_id), Some(bso_ids));
        proof {
            assert(self.conn.collections == t0.collections);
        }
        Ok(self.touch_collection(user_id, collection_id))
    }

    /// Deletes one object of the user's collection, then touches the
    /// collection and returns its new timestamp.
    pub fn delete_bso_sync(&mut self, user_id: u32, collection: &String, bso_id: &String) -> (r: Result<i64>)
        requires
            old(self).wf(),
        ensures
            final(self).wf(),
            final(self).session == old(self).session,
            final(self).conn.collections == old(self).conn.collections,
            match resolved(&old(self).conn, collection@) {
                Err(e) => r == Err::<i64, DbError>(e) && final(self).conn == old(self).conn,
                Ok(cid) => {
                    &&& r == Ok::<i64, DbError>(old(self).session.timestamp)
                    &&& final(self).conn.bso@ == old(self).conn.bso@.filter(bso_keep(user_id, Some(cid), Some(seq![*bso_id])))
                    &&& touched(&old(self).conn, &final(self).conn, user_id, cid, old(self).session.timestamp)
                },
            },
    {
        let mut ids: Vec<String> = Vec::new();
        ids.push(bso_id.clone());
        proof {
            assert(ids@ =~= seq![*bso_id]);
        }
        self.delete_bsos_sync(user_id, collection, &ids)
    }

    /// Deletes every object and collection row of the user.
    pub fn delete_storage_sync(&mut self, user_id: u32)
        requires
            old(self).wf(),
        ensures
            final(self).wf(),
            final(self).session == old(self).session,
            final(self).conn.collections == old(self).conn.collections,
            final(self).conn.bso@ == old(self).conn.bso@.filter(bso_keep(user_id, None, None)),
            final(self).conn.user_collections@ == old(self).conn.user_collections@.filter(uc_keep(user_id, None)),
    {
        let ghost t0 = self.conn;
        self.conn.delete_bsos_where(user_id, None, None);
        self.conn.delete_user_collections(user_id, None);
        proof {
            assert(self.conn.collections == t0.collections);
        }
    }

    /// Deletes the user's collection: its objects and its collection row.
    /// Fails with `CollectionNotFound` when nothing was there to delete;
    /// otherwise returns the user's remaining storage timestamp.
    pub fn delete_collection_sync(&mut self, user_id: u32, collection: &String) -> (r: Result<i64>)
        requires
            old(self).wf(),
        ensures
            final(self).wf(),
            final(self).session == old(self).session,
            final(self).conn.collections == old(self).conn.collections,
            match resolved(&old(self).conn, collection@) {
                Err(e) => r == Err::<i64, DbError>(e) && final(self).conn == old(self).conn,
                Ok(cid) => {
                    &&& final(self).conn.bso@ == old(self).conn.bso@.filter(bso_keep(user_id, Some(cid), None))
                    &&& final(self).conn.user_collections@ == old(self).conn.user_collections@.filter(
                        uc_keep(user_id, Some(cid)),
                    )
                    &&& r == if final(self).conn.bso@.len() == old(self).conn.bso@.len()
                        && final(self).conn.user_collections@.len() == old(self).conn.user_collections@.len() {
                        Err::<i64, DbError>(DbError::CollectionNotFound)
                    } else {
                        Ok::<i64, DbError>(storage_modified(&final(self).conn, user_id))
                    }
                },
            },
    {
        let collection_id = match self.get_collection_id(collection) {
            Ok(id) => id,
            Err(e) => return Err(e),
        };
        let ghost t0 = self.conn;
        let objects = self.conn.delete_bsos_where(user_id, Some(collection_id), None);
        let rows = self.conn.delete_user_collections(user_id, Some(collection_id));
        proof {
            assert(self.conn.collections == t0.collections);
        }
        if objects == 0 && rows == 0 {
            return Err(DbError::CollectionNotFound);
        }
        Ok(self.get_storage_modified_sync(user_id))
    }

    /// Writes each item of a batch into one collection, collecting the ids
    /// written and, apart, the ids that failed with the reason of each. The
    /// collection is touched once after all items.
    pub fn post_bsos_sync(&mut self, input: &params::PostBsos) -> (r: Result<results::PostBsos>)
        requires
            old(self).wf(),
        ensures
            final(self).wf(),
            final(self).session == old(self).session,
            old(self).conn.collections@.is_prefix_of(final(self).conn.collections@),
            match resolved_or_created(&old(self).conn, input.collection@) {
                Err(e) => r is Err && r->Err_0 == e && final(self).conn == old(self).conn,
                Ok(cid) => {
                    &&& r is Ok
                    &&& r->Ok_0.modified == old(self).session.timestamp as u64
                    &&& r->Ok_0.failed@.len() == 0
                    &&& r->Ok_0.success@.len() == input.bsos@.len()
                    &&& forall|k: int| 0 <= k < input.bsos@.len() ==> #[trigger] r->Ok_0.success@[k]@ == input.bsos@[k].id@
                    &&& forall|k: int| 0 <= k < input.bsos@.len() ==>
                        bso_of(final(self).conn.bso@, input.user_id, cid, #[trigger] input.bsos@[k].id@) is Some
                    &&& forall|k: int| 0 <= k < input.bsos@.len() && unique_in(input.bsos@, k) ==>
                        item_stored(&old(self).conn, &final(self).conn, input.user_id, cid, #[trigger] input.bsos@[k], old(self).session.timestamp)
                    &&& forall|u: u32, c: i32, id: Seq<char>|
                        !(u == input.user_id && c == cid && in_items(input.bsos@, id))
                        ==> #[trigger] bso_of(final(self).conn.bso@, u, c, id) == bso_of(old(self).conn.bso@, u, c, id)
                    &&& touched(&old(self).conn, &final(self).conn, input.user_id, cid, old(self).session.timestamp)
                },
            },
    {
        let ghost t0 = self.conn;
        let collection_id = match self.get_or_create_collection_id(&input.collection) {
            Ok(id) => id,
            Err(e) => return Err(e),
        };
        let ts = self.session.timestamp;
        let mut ids: Vec<String> = Vec::new();
        let mut outcomes: Vec<Result<u64>> = Vec::new();
        let mut k: usize = 0;
        while k < input.bsos.len()
            invariant
                self.wf(),
                self.session == old(self).session,
                ts == self.session.timestamp,
                t0.collections@.is_prefix_of(self.conn.collections@),
                self.conn.coll_id(input.collection@) == Some(collection_id),
                resolved_or_created(&t0, input.collection@) == Ok::<i32, DbError>(collection_id),
                k <= input.bsos@.len(),
                ids@.len() == k,
                outcomes@.len() == k,
                forall|j: int| 0 <= j < k ==> #[trigger] ids@[j]@ == input.bsos@[j].id@,
                forall|j: int| 0 <= j < k ==> #[trigger] outcomes@[j] is Ok,
                forall|j: int| 0 <= j < k ==>
                    bso_of(self.conn.bso@, input.user_id, collection_id, #[trigger] input.bsos@[j].id@) is Some,
                forall|j: int| 0 <= j < k && unique_in(input.bsos@.subrange(0, k as int), j) ==>
                    item_stored(&t0, &self.conn, input.user_id, collection_id, #[trigger] input.bsos@[j], ts),
                forall|u: u32, c: i32, id: Seq<char>|
                    !(u == input.user_id && c == collection_id && in_items(input.bsos@.subrange(0, k as int), id))
                    ==> #[trigger] bso_of(self.conn.bso@, u, c, id) == bso_of(t0.bso@, u, c, id),
                forall|u: u32, c: i32|
                    !(u == input.user_id && c == collection_id) ==> #[trigger] self.conn.modified_of(u, c)
                        == t0.modified_of(u, c),
            decreases input.bsos@.len() - k,
        {
            let pbso = &input.bsos[k];
            let put = PutBso {
                user_id: input.user_id,
                collection: input.collection.clone(),
                id: pbso.id.clone(),
                payload: match &pbso.payload {
                    Some(p) => Some(p.clone()),
                    None => None,
                },
                sortindex: pbso.sortindex,
                ttl: pbso.ttl,
            };
            let ghost before = self.conn;
            let outcome = self.put_bso_sync(&put);
            ids.push(pbso.id.clone());
            outcomes.push(outcome);
            proof {
                assert forall|u: u32, c: i32, id: Seq<char>|
                    !(u == input.user_id && c == collection_id && in_items(input.bsos@.subrange(0, k + 1), id))
                    implies #[trigger] bso_of(self.conn.bso@, u, c, id) == bso_of(t0.bso@, u, c, id) by {
                    assert(input.bsos@.subrange(0, k + 1)[k as int] == input.bsos@[k as int]);
                    if !(u == input.user_id && c == collection_id && id == put.id@) {
                        if in_items(input.bsos@.subrange(0, k as int), id) {
                            let j = choose|j: int| 0 <= j < k && #[trigger] input.bsos@.subrange(0, k as int)[j].id@ == id;
                            assert(input.bsos@.subrange(0, k + 1)[j] == input.bsos@.subrange(0, k as int)[j]);
                        }
                    }
                }
                let p0 = input.bsos@.subrange(0, k as int);
                let p1 = input.bsos@.subrange(0, k + 1);
                assert forall|j: int| 0 <= j < k + 1 && unique_in(p1, j) implies
                    item_stored(&t0, &self.conn, input.user_id, collection_id, #[trigger] input.bsos@[j], ts) by {
                    assert(p1[j] == input.bsos@[j]);
                    assert(p1[k as int] == input.bsos@[k as int]);
                    if j < k {
                        assert(input.bsos@[j].id@ != put.id@);
                        assert forall|x: int| 0 <= x < k && x != j implies #[trigger] p0[x].id@ != p0[j].id@ by {
                            assert(p0[x] == p1[x]);
                            assert(p0[j] == p1[j]);
                        }
                        assert(unique_in(p0, j));
                    } else {
                        if in_items(p0, put.id@) {
                            let x = choose|x: int| 0 <= x < p0.len() && #[trigger] p0[x].id@ == put.id@;
                            assert(p1[x] == p0[x]);
                        }
                        assert(bso_of(before.bso@, input.user_id, collection_id, put.id@)
                            == bso_of(t0.bso@, input.user_id, collection_id, put.id@));
                        assert(opt_view(put.payload) == opt_view(input.bsos@[j].payload));
                    }
                }
                assert forall|j: int| 0 <= j < k + 1 implies
                    bso_of(self.conn.bso@, input.user_id, collection_id, #[trigger] input.bsos@[j].id@) is Some by {
                    if j < k && input.bsos@[j].id@ != put.id@ {
                        assert(bso_of(self.conn.bso@, input.user_id, collection_id, input.bsos@[j].id@)
                            == bso_of(before.bso@, input.user_id, collection_id, input.bsos@[j].id@));
                    }
                }
            }
            k = k + 1;
        }
        proof {
            assert(input.bsos@.subrange(0, k as int) =~= input.bsos@);
        }
        let result = batch_outcome(&ids, &outcomes, ts as u64);
        proof {
            lemma_all_succeeded(ids@, outcomes@);
            assert(result.success@.map_values(|s: String| s@) == ids@.map_values(|s: String| s@));
            assert(result.success@.map_values(|s: String| s@).len() == result.success@.len());
            assert(ids@.map_values(|s: String| s@).len() == ids@.len());
            assert(result.success@.len() == input.bsos@.len());
            assert(result.failed@.len() == 0);
            assert forall|j: int| 0 <= j < input.bsos@.len() implies #[trigger] result.success@[j]@ == input.bsos@[j].id@ by {
                assert(result.success@.map_values(|s: String| s@)[j] == ids@.map_values(|s: String| s@)[j]);
                assert(result.success@.map_values(|s: String| s@)[j] == result.success@[j]@);
                assert(ids@.map_values(|s: String| s@)[j] == ids@[j]@);
            }
        }
        self.touch_collection(input.user_id, collection_id);
        Ok(result)
    }

    /// One page of the user's objects in `collection`: those with
    /// `newer < modified < older`, not expired, and among the first
    /// `MAX_IDS` of `ids` unless `ids` is empty; in the order `sort`, at most
    /// `limit` of them (all for a negative limit) from `offset` on. `more`
    /// tells whether further rows match, and `offset` then gives the next page.
    pub fn get_bsos_sync(
        &mut self,
        user_id: u32,
        collection: &String,
        ids: &Vec<String>,
        older: i64,
        newer: i64,
        sort: Sorting,
        limit: i64,
        offset: i64,
    ) -> (r: Result<results::GetBsos>)
        requires
            old(self).wf(),
            0 <= offset,
            limit < 0 || limit + offset <= i64::MAX,
        ensures
            final(self).wf(),
            final(self).conn == old(self).conn,
            final(self).session == old(self).session,
            match resolved(&old(self).conn, collection@) {
                Err(e) => r is Err && r->Err_0 == e,
                Ok(cid) => r is Ok && listing_is(
                    r->Ok_0,
                    matching_sorted(&old(self).conn, user_id, cid, ids@, older, newer, old(self).session.timestamp, sort),
                    limit,
                    offset,
                ),
            },
    {
        let collection_id = match self.get_collection_id(collection) {
            Ok(id) => id,
            Err(e) => return Err(e),
        };
        let ids = cap_ids(ids);
        let now = self.session.timestamp;
        let rows = &self.conn.bso;
        let mut matching: Vec<BsoRow> = Vec::new();
        let mut i: usize = 0;
        while i < rows.len()
            invariant
                i <= rows@.len(),
                matching@ == rows@.subrange(0, i as int).filter(listed_pred(user_id, collection_id, ids@, older, newer, now)),
            decreases rows@.len() - i,
        {
            let row = &rows[i];
            let take = is_listed(row, user_id, collection_id, &ids, older, newer, now);
            proof {
                let t = rows@.subrange(0, i as int + 1);
                assert(t.drop_last() =~= rows@.subrange(0, i as int));
                assert(t.last() == *row);
                reveal(Seq::filter);
                assert(listed_pred(user_id, collection_id, ids@, older, newer, now)(*row) == take);
            }
            if take {
                matching.push(row.copy());
            }
            i = i + 1;
        }
        proof {
            assert(rows@.subrange(0, i as int) =~= rows@);
        }
        let all = sort_by(matching, sort);
        let len = all.len();
        let start: usize = if (offset as u64) < (len as u64) { offset as usize } else { len };
        let mut bsos: Vec<results::GetBso> = Vec::new();
        let mut j: usize = start;
        while j < len && (limit < 0 || (bsos.len() as u64) <= (limit as u64))
            invariant
                len == all@.len(),
                start <= j <= len,
                bsos@.len() == j - start,
                limit >= 0 ==> bsos@.len() <= limit + 1,
                forall|t: int| 0 <= t < bsos@.len() ==> shows(#[trigger] bsos@[t], all@[start + t]),
            decreases len - j,
        {
            bsos.push(to_result(&all[j]));
            j = j + 1;
        }
        let ghost rest = rest_from(all@, offset);
        proof {
            assert(rest.len() == len - start);
        }
        let mut more = false;
        let mut next_offset: i64 = 0;
        if limit >= 0 && (bsos.len() as u64) > (limit as u64) {
            bsos.pop();
            more = true;
            next_offset = limit + offset;
        }
        proof {
            let p = page(all@, limit, offset);
            assert(more == has_more(all@, limit, offset));
            assert(bsos@.len() == p.len());
            assert forall|t: int| 0 <= t < bsos@.len() implies shows(#[trigger] bsos@[t], p[t]) by {
                assert(rest[t] == all@[start + t]);
            }
        }
        Ok(results::GetBsos { bsos, more, offset: next_offset })
    }
}

} // verus!
