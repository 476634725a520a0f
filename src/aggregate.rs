//! Per-user summaries: collection timestamps, sizes and counts, keyed by
//! collection name.
use vstd::prelude::*;

use crate::error::{DbError, Result};
use crate::models::MysqlDb;
use crate::store::{uc_modified, uc_unique, coll_name_of, lemma_coll_name_row, lemma_row_binds, name_in, BsoRow, CollectionRow, Tables, UserCollectionRow};

verus! {

/// Bytes of a row's payload.
pub open spec fn payload_size(r: BsoRow) -> nat {
    (vstd::utf8::encode_utf8(r.payload@).len() as usize) as nat
}

/// What a row adds to a total: its payload size, or 1 when counting.
pub open spec fn measure(r: BsoRow, by_size: bool) -> nat {
    if by_size {
        payload_size(r)
    } else {
        1
    }
}

/// Whether a row is a live object of the user within collection `cid` (any
/// collection for `None`).
pub open spec fn counted(r: BsoRow, user_id: u32, now: i64, cid: Option<i32>) -> bool {
    &&& r.user_id == user_id
    &&& r.expiry > now
    &&& match cid {
        Some(c) => r.collection_id == c,
        None => true,
    }
}

/// Sum of `measure` over the counted rows.
pub open spec fn total(rows: Seq<BsoRow>, user_id: u32, now: i64, cid: Option<i32>, by_size: bool) -> nat
    decreases rows.len(),
{
    if rows.len() == 0 {
        0
    } else {
        total(rows.drop_last(), user_id, now, cid, by_size) + if counted(rows.last(), user_id, now, cid) {
            measure(rows.last(), by_size)
        } else {
            0nat
        }
    }
}

/// `n`, or `i64::MAX` when it does not fit.
pub open spec fn clamp_i64(n: nat) -> i64 {
    if n > i64::MAX {
        i64::MAX
    } else {
        n as i64
    }
}

/// Whether the user has a live object in collection `cid`.
pub open spec fn has_group(rows: Seq<BsoRow>, user_id: u32, now: i64, cid: i32) -> bool {
    total(rows, user_id, now, Some(cid), false) > 0
}

/// `groups` holds, once each, every collection in which the user has a
/// live object, with its clamped total.
pub open spec fn groups_are(
    groups: Seq<(i32, i64)>,
    rows: Seq<BsoRow>,
    user_id: u32,
    now: i64,
    by_size: bool,
) -> bool {
    &&& forall|k: int|
        0 <= k < groups.len() ==> {
            &&& has_group(rows, user_id, now, #[trigger] groups[k].0)
            &&& groups[k].1 == clamp_i64(total(rows, user_id, now, Some(groups[k].0), by_size))
        }
    &&& forall|a: int, b: int|
        0 <= a < groups.len() && 0 <= b < groups.len() && a != b ==> #[trigger] groups[a].0 != #[trigger] groups[b].0
    &&& forall|c: i32|
        #[trigger] has_group(rows, user_id, now, c) ==> exists|k: int| 0 <= k < groups.len() && groups[k].0 == c
}

/// `r` names the totals of each collection in which the user has a live
/// object, or fails when one of those collections has no name.
pub open spec fn totals_by_name(r: Result<Vec<(String, i64)>>, t: &Tables, user_id: u32, now: i64, by_size: bool) -> bool {
    exists|groups: Seq<(i32, i64)>| {
        &&& groups_are(groups, t.bso@, user_id, now, by_size)
        &&& match r {
            Ok(named) => all_named(groups, t) && named_as(named@, groups, t) && names_distinct(named@),
            Err(e) => e == DbError::MissingCollectionName && !all_named(groups, t),
        }
    }
}

/// The user's rows of a `user_collections` table.
pub open spec fn of_user(user_id: u32) -> spec_fn(UserCollectionRow) -> bool {
    |r: UserCollectionRow| r.user_id == user_id
}

/// `named` is `by_id` with each collection id replaced by its name in `t`.
pub open spec fn named_as(named: Seq<(String, i64)>, by_id: Seq<(i32, i64)>, t: &Tables) -> bool {
    &&& named.len() == by_id.len()
    &&& forall|k: int|
        0 <= k < by_id.len() ==> {
            &&& Some((#[trigger] named[k]).0@) == t.coll_name(by_id[k].0)
            &&& named[k].1 == by_id[k].1
        }
}

/// Whether no two entries carry the same name.
pub open spec fn names_distinct(named: Seq<(String, i64)>) -> bool {
    forall|a: int, b: int| 0 <= a < b < named.len() ==> (#[trigger] named[a]).0@ != (#[trigger] named[b]).0@
}

/// Whether every collection id of `by_id` has a name in `t`.
pub open spec fn all_named(by_id: Seq<(i32, i64)>, t: &Tables) -> bool {
    forall|k: int| 0 <= k < by_id.len() ==> t.coll_name(#[trigger] by_id[k].0) is Some
}

/// Adds `m` to `v`, stopping at `i64::MAX`.
fn add_clamped(v: i64, m: usize) -> (r: i64)
    requires
        v >= 0,
    ensures
        r == if v + m > i64::MAX { i64::MAX } else { (v + m) as i64 },
{
    if m as u64 > (i64::MAX - v) as u64 {
        i64::MAX
    } else {
        v + m as i64
    }
}

/// A name bound in the store binds its id.
proof fn lemma_name_binds(t: &Tables, id: i32)
    requires
        t.wf(),
        t.coll_name(id) is Some,
    ensures
        t.coll_id(t.coll_name(id)->0) == Some(id),
{
    lemma_coll_name_row(t.collections@, id);
    let i = choose|i: int|
        0 <= i < t.collections@.len() && #[trigger] t.collections@[i].id == id && t.collections@[i].name@
            == t.coll_name(id)->0;
    lemma_row_binds(t.collections@, i);
}

impl MysqlDb {
    /// Names of the collections `ids`, from the cache where it has them and
    /// from the store otherwise; names read from the store are cached.
    pub fn load_collection_names(&mut self, ids: &Vec<i32>) -> (r: Vec<CollectionRow>)
        requires
            old(self).wf(),
        ensures
            final(self).wf(),
            final(self).conn == old(self).conn,
            final(self).session == old(self).session,
            forall|k: int| 0 <= k < ids@.len() ==> coll_name_of(r@, #[trigger] ids@[k]) == old(self).conn.coll_name(ids@[k]),
            forall|id: i32| #[trigger] coll_name_of(r@, id) is Some ==> ids@.contains(id),
            forall|k: int|
                0 <= k < ids@.len() && old(self).conn.coll_name(#[trigger] ids@[k]) is Some
                    ==> final(self).coll_cache.name_of(ids@[k]) == old(self).conn.coll_name(ids@[k]),
    {
        let ghost t = self.conn;
        let ghost s = self.session;
        let mut names: Vec<CollectionRow> = Vec::new();
        let mut k: usize = 0;
        while k < ids.len()
            invariant
                self.wf(),
                self.conn == t,
                self.session == s,
                k <= ids@.len(),
                forall|j: int| 0 <= j < k ==> coll_name_of(names@, #[trigger] ids@[j]) == t.coll_name(ids@[j]),
                forall|id: i32| #[trigger] coll_name_of(names@, id) is Some ==> coll_name_of(names@, id) == t.coll_name(id),
                forall|id: i32| #[trigger] coll_name_of(names@, id) is Some ==> ids@.take(k as int).contains(id),
                forall|j: int|
                    0 <= j < k && t.coll_name(#[trigger] ids@[j]) is Some ==> self.coll_cache.name_of(ids@[j]) == t.coll_name(ids@[j]),
            decreases ids@.len() - k,
        {
            let id = ids[k];
            let found = match self.coll_cache.get_name(id) {
                Some(n) => {
                    proof {
                        crate::cache::lemma_cached_name(&self.coll_cache, &self.conn, id);
                    }
                    Some(n)
                },
                None => match self.conn.select_collection_name(id) {
                    Some(n) => {
                        proof {
                            lemma_name_binds(&self.conn, id);
                        }
                        self.cache_binding(id, &n);
                        Some(n)
                    },
                    None => None,
                },
            };
            assert(match found {
                Some(n) => t.coll_name(id) == Some(n@),
                None => t.coll_name(id) is None,
            });
            let ghost before = names@;
            proof {
                assert forall|x: i32| #[trigger] coll_name_of(before, x) is Some implies ids@.take(k + 1).contains(x) by {
                    let j = choose|j: int| 0 <= j < k && ids@.take(k as int)[j] == x;
                    assert(ids@.take(k + 1)[j] == x);
                }
                assert(ids@.take(k + 1)[k as int] == id);
            }
            if let Some(n) = found {
                names.push(CollectionRow { id, name: n });
                proof {
                    assert(names@.drop_last() =~= before);
                    assert forall|x: i32| #[trigger] coll_name_of(names@, x) is Some implies coll_name_of(names@, x)
                        == t.coll_name(x) by {
                        if x != id {
                            assert(coll_name_of(names@, x) == coll_name_of(before, x));
                        }
                    }
                    assert forall|x: i32| #[trigger] coll_name_of(names@, x) is Some implies ids@.take(k + 1).contains(x) by {
                        if x != id {
                            assert(coll_name_of(names@, x) == coll_name_of(before, x));
                        }
                    }
                }
            }
            k = k + 1;
        }
        proof {
            assert(ids@.take(k as int) =~= ids@);
        }
        names
    }

    /// `by_id` with each collection id replaced by its name; fails when some
    /// id has no name in the store.
    pub fn map_collection_names(&mut self, by_id: Vec<(i32, i64)>) -> (r: Result<Vec<(String, i64)>>)
        requires
            old(self).wf(),
        ensures
            final(self).wf(),
            final(self).conn == old(self).conn,
            final(self).session == old(self).session,
            match r {
                Ok(named) => all_named(by_id@, &old(self).conn) && named_as(named@, by_id@, &old(self).conn),
                Err(e) => e == DbError::MissingCollectionName && !all_named(by_id@, &old(self).conn),
            },
            r is Ok && (forall|a: int, b: int| 0 <= a < b < by_id@.len() ==> #[trigger] by_id@[a].0 != #[trigger] by_id@[b].0)
                ==> names_distinct(r->Ok_0@),
    {
        let mut ids: Vec<i32> = Vec::new();
        let mut k: usize = 0;
        while k < by_id.len()
            invariant
                k <= by_id@.len(),
                ids@.len() == k,
                forall|j: int| 0 <= j < k ==> #[trigger] ids@[j] == by_id@[j].0,
            decreases by_id@.len() - k,
        {
            ids.push(by_id[k].0);
            k = k + 1;
        }
        let names = self.load_collection_names(&ids);
        let mut named: Vec<(String, i64)> = Vec::new();
        let mut k: usize = 0;
        while k < by_id.len()
            invariant
                k <= by_id@.len(),
                ids@.len() == by_id@.len(),
                self.wf(),
                self.conn == old(self).conn,
                self.session == old(self).session,
                forall|j: int| 0 <= j < by_id@.len() ==> #[trigger] ids@[j] == by_id@[j].0,
                forall|j: int| 0 <= j < ids@.len() ==> coll_name_of(names@, #[trigger] ids@[j]) == self.conn.coll_name(ids@[j]),
                all_named(by_id@.take(k as int), &self.conn),
                named_as(named@, by_id@.take(k as int), &self.conn),
            decreases by_id@.len() - k,
        {
            let (id, value) = by_id[k];
            assert(ids@[k as int] == id);
            match name_in(&names, id) {
                Some(n) => {
                    named.push((n, value));
                    proof {
                        assert forall|j: int| 0 <= j < k + 1 implies self.conn.coll_name(#[trigger] by_id@.take(k + 1)[j].0) is Some by {
                            if j < k {
                                assert(by_id@.take(k + 1)[j] == by_id@.take(k as int)[j]);
                            }
                        }
                        assert forall|j: int| 0 <= j < k + 1 implies {
                            &&& Some((#[trigger] named@[j]).0@) == self.conn.coll_name(by_id@.take(k + 1)[j].0)
                            &&& named@[j].1 == by_id@.take(k + 1)[j].1
                        } by {
                            if j < k {
                                assert(by_id@.take(k + 1)[j] == by_id@.take(k as int)[j]);
                            }
                        }
                    }
                },
                None => {
                    proof {
                        assert(self.conn.coll_name(by_id@[k as int].0) is None);
                    }
                    return Err(DbError::MissingCollectionName);
                },
            }
            k = k + 1;
        }
        proof {
            assert(by_id@.take(k as int) =~= by_id@);
            if forall|a: int, b: int| 0 <= a < b < by_id@.len() ==> #[trigger] by_id@[a].0 != #[trigger] by_id@[b].0 {
                assert forall|a: int, b: int| 0 <= a < b < named@.len() implies (#[trigger] named@[a]).0@
                    != (#[trigger] named@[b]).0@ by {
                    assert(by_id@[a].0 != by_id@[b].0);
                    if named@[a].0@ == named@[b].0@ {
                        lemma_names_distinct(&self.conn, by_id@[a].0, by_id@[b].0);
                    }
                }
            }
        }
        Ok(named)
    }

    /// Total payload size of the user's live objects.
    pub fn get_storage_size_sync(&self, user_id: u32) -> (r: u64)
        ensures
            r == if total(self.conn.bso@, user_id, self.session.timestamp, None, true) > u64::MAX {
                u64::MAX
            } else {
                total(self.conn.bso@, user_id, self.session.timestamp, None, true) as u64
            },
    {
        storage_size(&self.conn.bso, user_id, self.session.timestamp)
    }

    /// Total payload size of the user's live objects in each collection, by name.
    pub fn get_collection_sizes_sync(&mut self, user_id: u32) -> (r: Result<Vec<(String, i64)>>)
        requires
            old(self).wf(),
        ensures
            final(self).wf(),
            final(self).conn == old(self).conn,
            final(self).session == old(self).session,
            totals_by_name(r, &old(self).conn, user_id, old(self).session.timestamp, true),
    {
        let groups = group_totals(&self.conn.bso, user_id, self.session.timestamp, true);
        let r = self.map_collection_names(groups);
        proof {
            assert(groups_are(groups@, self.conn.bso@, user_id, self.session.timestamp, true));
        }
        r
    }

    /// Number of the user's live objects in each collection, by name.
    pub fn get_collection_counts_sync(&mut self, user_id: u32) -> (r: Result<Vec<(String, i64)>>)
        requires
            old(self).wf(),
        ensures
            final(self).wf(),
            final(self).conn == old(self).conn,
            final(self).session == old(self).session,
            totals_by_name(r, &old(self).conn, user_id, old(self).session.timestamp, false),
    {
        let groups = group_totals(&self.conn.bso, user_id, self.session.timestamp, false);
        let r = self.map_collection_names(groups);
        proof {
            assert(groups_are(groups@, self.conn.bso@, user_id, self.session.timestamp, false));
        }
        r
    }

    /// Timestamp of each of the user's collections, by name.
    pub fn get_collections_modified_sync(&mut self, user_id: u32) -> (r: Result<Vec<(String, i64)>>)
        requires
            old(self).wf(),
        ensures
            final(self).wf(),
            final(self).conn == old(self).conn,
            final(self).session == old(self).session,
            match r {
                Ok(named) => {
                    &&& all_named(modified_pairs(&old(self).conn, user_id), &old(self).conn)
                    &&& named_as(named@, modified_pairs(&old(self).conn, user_id), &old(self).conn)
                    &&& names_distinct(named@)
                },
                Err(e) => e == DbError::MissingCollectionName
                    && !all_named(modified_pairs(&old(self).conn, user_id), &old(self).conn),
            },
    {
        let rows = &self.conn.user_collections;
        let mut by_id: Vec<(i32, i64)> = Vec::new();
        let mut i: usize = 0;
        while i < rows.len()
            invariant
                i <= rows@.len(),
                by_id@ == pairs_of(rows@.subrange(0, i as int).filter(of_user(user_id))),
            decreases rows@.len() - i,
        {
            let row = rows[i];
            proof {
                let t = rows@.subrange(0, i as int + 1);
                assert(t.drop_last() =~= rows@.subrange(0, i as int));
                assert(t.last() == row);
                reveal(Seq::filter);
                let f = rows@.subrange(0, i as int).filter(of_user(user_id));
                assert(f.push(row).map_values(|r: UserCollectionRow| (r.collection_id, r.modified))
                    =~= f.map_values(|r: UserCollectionRow| (r.collection_id, r.modified)).push((row.collection_id, row.modified)));
            }
            if row.user_id == user_id {
                by_id.push((row.collection_id, row.modified));
            }
            i = i + 1;
        }
        proof {
            assert(rows@.subrange(0, i as int) =~= rows@);
        }
        let ghost pairs = by_id@;
        let r = self.map_collection_names(by_id);
        proof {
            if r is Ok {
                let named = r->Ok_0@;
                lemma_modified_pairs_distinct(&self.conn, user_id);
                assert forall|a: int, b: int| 0 <= a < b < named.len() implies (#[trigger] named[a]).0@ != (#[trigger] named[b]).0@ by {
                    assert(pairs == modified_pairs(&self.conn, user_id));
                    assert(Some(named[a].0@) == self.conn.coll_name(pairs[a].0));
                    assert(Some(named[b].0@) == self.conn.coll_name(pairs[b].0));
                    assert(modified_pairs(&self.conn, user_id)[a].0 != modified_pairs(&self.conn, user_id)[b].0);
                    if named[a].0@ == named[b].0@ {
                        lemma_names_distinct(&self.conn, pairs[a].0, pairs[b].0);
                    }
                }
            }
        }
        r
    }
}

/// What `row` adds to a total.
fn row_measure(row: &BsoRow, by_size: bool) -> (m: usize)
    ensures
        m == measure(*row, by_size),
{
    if by_size {
        row.payload.as_str().len()
    } else {
        1
    }
}

/// Sum of the payload sizes of the user's live objects, stopping at
/// `u64::MAX`.
pub fn storage_size(rows: &Vec<BsoRow>, user_id: u32, now: i64) -> (r: u64)
    ensures
        r == if total(rows@, user_id, now, None, true) > u64::MAX {
            u64::MAX
        } else {
            total(rows@, user_id, now, None, true) as u64
        },
{
    let mut sum: u64 = 0;
    let mut i: usize = 0;
    while i < rows.len()
        invariant
            i <= rows@.len(),
            sum == if total(rows@.subrange(0, i as int), user_id, now, None, true) > u64::MAX {
                u64::MAX
            } else {
                total(rows@.subrange(0, i as int), user_id, now, None, true) as u64
            },
        decreases rows@.len() - i,
    {
        let row = &rows[i];
        proof {
            let t = rows@.subrange(0, i as int + 1);
            assert(t.drop_last() =~= rows@.subrange(0, i as int));
            assert(t.last() == *row);
        }
        if row.user_id == user_id && row.expiry > now {
            let m = row_measure(row, true);
            if m as u64 > u64::MAX - sum {
                sum = u64::MAX;
            } else {
                sum = sum + m as u64;
            }
        }
        i = i + 1;
    }
    proof {
        assert(rows@.subrange(0, i as int) =~= rows@);
    }
    sum
}

/// Position of the group of collection `cid`, if any.
fn find_group(groups: &Vec<(i32, i64)>, cid: i32) -> (r: Option<usize>)
    ensures
        match r {
            Some(k) => k < groups@.len() && groups@[k as int].0 == cid,
            None => forall|k: int| 0 <= k < groups@.len() ==> #[trigger] groups@[k].0 != cid,
        },
{
    let mut k: usize = 0;
    while k < groups.len()
        invariant
            k <= groups@.len(),
            forall|j: int| 0 <= j < k ==> #[trigger] groups@[j].0 != cid,
        decreases groups@.len() - k,
    {
        if groups[k].0 == cid {
            return Some(k);
        }
        k = k + 1;
    }
    None
}

/// Totals of each collection in which the user has a live object.
pub fn group_totals(rows: &Vec<BsoRow>, user_id: u32, now: i64, by_size: bool) -> (r: Vec<(i32, i64)>)
    ensures
        groups_are(r@, rows@, user_id, now, by_size),
{
    let mut groups: Vec<(i32, i64)> = Vec::new();
    let mut i: usize = 0;
    while i < rows.len()
        invariant
            i <= rows@.len(),
            groups_are(groups@, rows@.subrange(0, i as int), user_id, now, by_size),
        decreases rows@.len() - i,
    {
        let row = &rows[i];
        let ghost sub = rows@.subrange(0, i as int);
        let ghost next = rows@.subrange(0, i as int + 1);
        proof {
            assert(next.drop_last() =~= sub);
            assert(next.last() == *row);
            assert forall|c: i32, b: bool| #[trigger] total(next, user_id, now, Some(c), b) == total(sub, user_id, now, Some(c), b)
                + if counted(*row, user_id, now, Some(c)) { measure(*row, b) } else { 0nat } by {}
        }
        let ghost old_groups = groups@;
        if row.user_id == user_id && row.expiry > now {
            let m = row_measure(row, by_size);
            let cid = row.collection_id;
            match find_group(&groups, cid) {
                Some(k) => {
                    let v = groups[k].1;
                    groups.set(k, (cid, add_clamped(v, m)));
                    proof {
                        assert forall|c: i32| #[trigger] has_group(next, user_id, now, c) implies exists|j: int|
                            0 <= j < groups@.len() && groups@[j].0 == c by {
                            if c != cid {
                                assert(has_group(sub, user_id, now, c));
                                let j = choose|j: int| 0 <= j < old_groups.len() && old_groups[j].0 == c;
                                assert(groups@[j].0 == c);
                            } else {
                                assert(groups@[k as int].0 == c);
                            }
                        }
                    }
                },
                None => {
                    groups.push((cid, add_clamped(0, m)));
                    proof {
                        assert forall|c: i32| #[trigger] has_group(next, user_id, now, c) implies exists|j: int|
                            0 <= j < groups@.len() && groups@[j].0 == c by {
                            if c != cid {
                                assert(has_group(sub, user_id, now, c));
                                let j = choose|j: int| 0 <= j < old_groups.len() && old_groups[j].0 == c;
                                assert(groups@[j].0 == c);
                            } else {
                                assert(groups@[old_groups.len() as int].0 == c);
                            }
                        }
                        if has_group(sub, user_id, now, cid) {
                            let j = choose|j: int| 0 <= j < old_groups.len() && old_groups[j].0 == cid;
                            assert(old_groups[j].0 != cid);
                        }
                        assert(total(sub, user_id, now, Some(cid), false) == 0);
                        assert(total(sub, user_id, now, Some(cid), by_size) == 0) by {
                            lemma_total_zero(sub, user_id, now, cid, by_size);
                        }
                    }
                },
            }
        } else {
            proof {
                assert forall|c: i32| #[trigger] has_group(next, user_id, now, c) implies exists|j: int|
                    0 <= j < groups@.len() && groups@[j].0 == c by {
                    assert(has_group(sub, user_id, now, c));
                }
            }
        }
        i = i + 1;
    }
    proof {
        assert(rows@.subrange(0, i as int) =~= rows@);
    }
    groups
}

/// A collection without live objects of the user totals 0 in any measure.
proof fn lemma_total_zero(rows: Seq<BsoRow>, user_id: u32, now: i64, cid: i32, by_size: bool)
    requires
        total(rows, user_id, now, Some(cid), false) == 0,
    ensures
        total(rows, user_id, now, Some(cid), by_size) == 0,
    decreases rows.len(),
{
    if rows.len() > 0 {
        lemma_total_zero(rows.drop_last(), user_id, now, cid, by_size);
    }
}

/// Keeping only one user's rows keeps exactly that user's keys.
proof fn lemma_of_user_lookup(s: Seq<UserCollectionRow>, user_id: u32, u: u32, c: i32)
    ensures
        uc_modified(s.filter(of_user(user_id)), u, c) == if u == user_id { uc_modified(s, u, c) } else { None },
    decreases s.len(),
{
    let pred = of_user(user_id);
    if s.len() > 0 {
        lemma_of_user_lookup(s.drop_last(), user_id, u, c);
        let f = s.drop_last().filter(pred);
        reveal(Seq::filter);
        assert(s.filter(pred) == if pred(s.last()) { f.push(s.last()) } else { f });
        if pred(s.last()) {
            assert(f.push(s.last()).drop_last() =~= f);
            assert(f.push(s.last()).last() == s.last());
        }
    }
}

/// One user's rows of a table without duplicate keys have none either.
proof fn lemma_of_user_unique(s: Seq<UserCollectionRow>, user_id: u32)
    requires
        uc_unique(s),
    ensures
        uc_unique(s.filter(of_user(user_id))),
    decreases s.len(),
{
    let pred = of_user(user_id);
    if s.len() > 0 {
        lemma_of_user_unique(s.drop_last(), user_id);
        let f = s.drop_last().filter(pred);
        reveal(Seq::filter);
        assert(s.filter(pred) == if pred(s.last()) { f.push(s.last()) } else { f });
        if pred(s.last()) {
            let l = s.last();
            lemma_of_user_lookup(s.drop_last(), user_id, l.user_id, l.collection_id);
            assert(f.push(l).drop_last() =~= f);
            assert(f.push(l).last() == l);
        }
    }
}

/// Every prefix of a table without duplicate keys has none either.
proof fn lemma_uc_unique_prefix(s: Seq<UserCollectionRow>, n: int)
    requires
        uc_unique(s),
        0 <= n <= s.len(),
    ensures
        uc_unique(s.take(n)),
    decreases s.len(),
{
    if n < s.len() {
        assert(s.drop_last().take(n) =~= s.take(n));
        lemma_uc_unique_prefix(s.drop_last(), n);
    } else {
        assert(s.take(n) =~= s);
    }
}

/// In a table without duplicate keys every row is found under its key.
proof fn lemma_uc_row_found(s: Seq<UserCollectionRow>, i: int)
    requires
        uc_unique(s),
        0 <= i < s.len(),
    ensures
        uc_modified(s, s[i].user_id, s[i].collection_id) is Some,
    decreases s.len(),
{
    if i < s.len() - 1 {
        let t = s.drop_last();
        assert(t[i] == s[i]);
        lemma_uc_row_found(t, i);
    }
}

/// In a table without duplicate keys no two rows share a key.
proof fn lemma_uc_rows_distinct(s: Seq<UserCollectionRow>, i: int, j: int)
    requires
        uc_unique(s),
        0 <= i < j < s.len(),
    ensures
        !(s[i].user_id == s[j].user_id && s[i].collection_id == s[j].collection_id),
{
    let p = s.take(j + 1);
    lemma_uc_unique_prefix(s, j + 1);
    assert(p.drop_last() =~= s.take(j));
    lemma_uc_unique_prefix(s, j);
    assert(s.take(j)[i] == s[i]);
    lemma_uc_row_found(s.take(j), i);
    assert(p.last() == s[j]);
}

/// The pairs of one user's collection rows name each collection once.
proof fn lemma_modified_pairs_distinct(t: &Tables, user_id: u32)
    requires
        t.wf(),
    ensures
        forall|a: int, b: int|
            0 <= a < b < modified_pairs(t, user_id).len() ==> #[trigger] modified_pairs(t, user_id)[a].0
                != #[trigger] modified_pairs(t, user_id)[b].0,
{
    let f = t.user_collections@.filter(of_user(user_id));
    lemma_of_user_unique(t.user_collections@, user_id);
    assert forall|a: int, b: int| 0 <= a < b < modified_pairs(t, user_id).len() implies
        #[trigger] modified_pairs(t, user_id)[a].0 != #[trigger] modified_pairs(t, user_id)[b].0 by {
        lemma_uc_rows_distinct(f, a, b);
    }
}

/// Two ids with the same name in a well-formed store are the same id.
proof fn lemma_names_distinct(t: &Tables, x: i32, y: i32)
    requires
        t.wf(),
        t.coll_name(x) is Some,
        t.coll_name(x) == t.coll_name(y),
    ensures
        x == y,
{
    lemma_coll_name_row(t.collections@, x);
    lemma_coll_name_row(t.collections@, y);
}

/// (collection id, modified) of each row.
pub open spec fn pairs_of(rows: Seq<UserCollectionRow>) -> Seq<(i32, i64)> {
    rows.map_values(|r: UserCollectionRow| (r.collection_id, r.modified))
}

/// (collection id, modified) of each of the user's collection rows.
pub open spec fn modified_pairs(t: &Tables, user_id: u32) -> Seq<(i32, i64)> {
    pairs_of(t.user_collections@.filter(of_user(user_id)))
}

} // verus!
