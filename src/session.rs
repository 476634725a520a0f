//! Per-session state: the fixed reference time, the lock table and the cache
//! of observed collection timestamps.
use vstd::prelude::*;

use crate::store::{uc_modified, UserCollectionRow};

verus! {

/// Lock held by a session on one (user, collection).
#[derive(Debug, Clone, Copy, PartialEq, Eq, Structural)]
pub enum CollectionLock {
    Read,
    Write,
}

/// One entry of a session's lock table.
#[derive(Debug, Clone, Copy, PartialEq, Eq, Structural)]
pub struct LockEntry {
    pub user_id: u32,
    pub collection_id: i32,
    pub lock: CollectionLock,
}

/// Lock recorded for (user, collection) in a lock table; the latest entry wins.
pub open spec fn lock_of(rows: Seq<LockEntry>, user_id: u32, collection_id: i32) -> Option<CollectionLock>
    decreases rows.len(),
{
    if rows.len() == 0 {
        None
    } else if rows.last().user_id == user_id && rows.last().collection_id == collection_id {
        Some(rows.last().lock)
    } else {
        lock_of(rows.drop_last(), user_id, collection_id)
    }
}

/// Per-session metadata.
pub struct Session {
    /// The "current time" used for all of this session's operations.
    pub timestamp: i64,
    /// Observed collection timestamps per (user, collection); the latest entry wins.
    pub coll_modified_cache: Vec<UserCollectionRow>,
    /// Locks held per (user, collection); the latest entry wins.
    pub coll_locks: Vec<LockEntry>,
}

impl Session {
    pub open spec fn lock(&self, user_id: u32, collection_id: i32) -> Option<CollectionLock> {
        lock_of(self.coll_locks@, user_id, collection_id)
    }

    pub open spec fn cached_modified(&self, user_id: u32, collection_id: i32) -> Option<i64> {
        uc_modified(self.coll_modified_cache@, user_id, collection_id)
    }

    /// A session at reference time `timestamp`, holding no locks.
    pub fn new(timestamp: i64) -> (r: Session)
        ensures
            r.timestamp == timestamp,
            r.coll_modified_cache@.len() == 0,
            r.coll_locks@.len() == 0,
    {
        Session { timestamp, coll_modified_cache: Vec::new(), coll_locks: Vec::new() }
    }

    /// Lock held on (user, collection), if any.
    pub fn get_lock(&self, user_id: u32, collection_id: i32) -> (r: Option<CollectionLock>)
        ensures
            r == self.lock(user_id, collection_id),
    {
        let mut found: Option<CollectionLock> = None;
        let mut i: usize = 0;
        while i < self.coll_locks.len()
            invariant
                i <= self.coll_locks@.len(),
                found == lock_of(self.coll_locks@.subrange(0, i as int), user_id, collection_id),
            decreases self.coll_locks@.len() - i,
        {
            let e = self.coll_locks[i];
            proof {
                let s = self.coll_locks@.subrange(0, i as int + 1);
                assert(s.drop_last() =~= self.coll_locks@.subrange(0, i as int));
            }
            if e.user_id == user_id && e.collection_id == collection_id {
                found = Some(e.lock);
            }
            i = i + 1;
        }
        proof {
            assert(self.coll_locks@.subrange(0, i as int) =~= self.coll_locks@);
        }
        found
    }

    /// Records `lock` on (user, collection).
    pub fn set_lock(&mut self, user_id: u32, collection_id: i32, lock: CollectionLock)
        ensures
            final(self).timestamp == old(self).timestamp,
            final(self).coll_modified_cache == old(self).coll_modified_cache,
            forall|u: u32, c: i32|
                #[trigger] final(self).lock(u, c) == if u == user_id && c == collection_id {
                    Some(lock)
                } else {
                    old(self).lock(u, c)
                },
    {
        let ghost before = self.coll_locks@;
        self.coll_locks.push(LockEntry { user_id, collection_id, lock });
        proof {
            assert(self.coll_locks@.drop_last() =~= before);
        }
    }

    /// Cached timestamp of (user, collection), if any.
    pub fn get_cached_modified(&self, user_id: u32, collection_id: i32) -> (r: Option<i64>)
        ensures
            r == self.cached_modified(user_id, collection_id),
    {
        let mut found: Option<i64> = None;
        let mut i: usize = 0;
        while i < self.coll_modified_cache.len()
            invariant
                i <= self.coll_modified_cache@.len(),
                found == uc_modified(self.coll_modified_cache@.subrange(0, i as int), user_id, collection_id),
            decreases self.coll_modified_cache@.len() - i,
        {
            let e = self.coll_modified_cache[i];
            proof {
                let s = self.coll_modified_cache@.subrange(0, i as int + 1);
                assert(s.drop_last() =~= self.coll_modified_cache@.subrange(0, i as int));
            }
            if e.user_id == user_id && e.collection_id == collection_id {
                found = Some(e.modified);
            }
            i = i + 1;
        }
        proof {
            assert(self.coll_modified_cache@.subrange(0, i as int) =~= self.coll_modified_cache@);
        }
        found
    }

    /// Caches `modified` as the timestamp of (user, collection).
    pub fn set_cached_modified(&mut self, user_id: u32, collection_id: i32, modified: i64)
        ensures
            final(self).timestamp == old(self).timestamp,
            final(self).coll_locks == old(self).coll_locks,
            forall|u: u32, c: i32|
                #[trigger] final(self).cached_modified(u, c) == if u == user_id && c == collection_id {
                    Some(modified)
                } else {
                    old(self).cached_modified(u, c)
                },
    {
        let ghost before = self.coll_modified_cache@;
        self.coll_modified_cache.push(UserCollectionRow { user_id, collection_id, modified });
        proof {
            assert(self.coll_modified_cache@.drop_last() =~= before);
        }
    }
}

} // verus!
