//! Process-wide, append-only cache of collection id and name bindings.
use vstd::prelude::*;

use crate::store::{coll_id_of, coll_name_of, lemma_coll_absent, lemma_coll_id_row, lemma_coll_name_row, name_in, CollectionRow, Tables};

verus! {

/// Bidirectional collection id and name map. Entries are only ever added.
pub struct CollectionCache {
    pub entries: Vec<CollectionRow>,
}

impl CollectionCache {
    /// Id cached for `name`.
    pub open spec fn id_of(&self, name: Seq<char>) -> Option<i32> {
        coll_id_of(self.entries@, name)
    }

    /// Name cached for `id`.
    pub open spec fn name_of(&self, id: i32) -> Option<Seq<char>> {
        coll_name_of(self.entries@, id)
    }

    /// Every cached binding is a binding of the backing store.
    pub open spec fn coherent(&self, t: &Tables) -> bool {
        forall|i: int|
            0 <= i < self.entries@.len() ==> {
                &&& t.coll_id(#[trigger] self.entries@[i].name@) == Some(self.entries@[i].id)
                &&& t.coll_name(self.entries@[i].id) == Some(self.entries@[i].name@)
            }
    }

    /// An empty cache.
    pub fn new() -> (r: CollectionCache)
        ensures
            r.entries@.len() == 0,
    {
        CollectionCache { entries: Vec::new() }
    }

    /// Id cached for `name`, if any.
    pub fn get_id(&self, name: &String) -> (r: Option<i32>)
        ensures
            r == self.id_of(name@),
    {
        let mut found: Option<i32> = None;
        let mut i: usize = 0;
        while i < self.entries.len()
            invariant
                i <= self.entries@.len(),
                found == coll_id_of(self.entries@.subrange(0, i as int), name@),
            decreases self.entries@.len() - i,
        {
            let e = &self.entries[i];
            proof {
                let s = self.entries@.subrange(0, i as int + 1);
                assert(s.drop_last() =~= self.entries@.subrange(0, i as int));
            }
            if e.name == *name {
                found = Some(e.id);
            }
            i = i + 1;
        }
        proof {
            assert(self.entries@.subrange(0, i as int) =~= self.entries@);
        }
        found
    }

    /// Name cached for `id`, if any.
    pub fn get_name(&self, id: i32) -> (r: Option<String>)
        ensures
            match r {
                Some(n) => self.name_of(id) == Some(n@),
                None => self.name_of(id) is None,
            },
    {
        name_in(&self.entries, id)
    }

    /// Records the binding of `id` and `name`. A binding that the cache
    /// already holds for the name or for the id is kept: repeated puts, and
    /// puts that raced, leave the first binding in place.
    pub fn put(&mut self, id: i32, name: String)
        ensures
            final(self).entries@ == if old(self).id_of(name@) is None && old(self).name_of(id) is None {
                old(self).entries@.push(CollectionRow { id, name })
            } else {
                old(self).entries@
            },
            forall|n: Seq<char>| old(self).id_of(n) is Some ==> #[trigger] final(self).id_of(n) == old(self).id_of(n),
            forall|x: i32| old(self).name_of(x) is Some ==> #[trigger] final(self).name_of(x) == old(self).name_of(x),
    {
        let ghost before = self.entries@;
        if self.get_id(&name).is_none() && self.get_name(id).is_none() {
            self.entries.push(CollectionRow { id, name });
            proof {
                assert(self.entries@.drop_last() =~= before);
            }
        }
    }
}

/// Putting a binding of the store into a cache that agrees with the store
/// keeps it in agreement, and the cache then holds that binding both ways.
pub proof fn lemma_coherent_put(before: &CollectionCache, after: &CollectionCache, t: &Tables, id: i32, name: String)
    requires
        before.coherent(t),
        t.coll_id(name@) == Some(id),
        t.coll_name(id) == Some(name@),
        after.entries@ == if before.id_of(name@) is None && before.name_of(id) is None {
            before.entries@.push(CollectionRow { id, name })
        } else {
            before.entries@
        },
    ensures
        after.coherent(t),
        after.id_of(name@) == Some(id),
        after.name_of(id) == Some(name@),
{
    let b = before.entries@;
    let a = after.entries@;
    if before.id_of(name@) is None && before.name_of(id) is None {
        assert(a.drop_last() =~= b);
        assert forall|i: int| 0 <= i < a.len() implies {
            &&& t.coll_id(#[trigger] a[i].name@) == Some(a[i].id)
            &&& t.coll_name(a[i].id) == Some(a[i].name@)
        } by {
            if i < b.len() {
                assert(a[i] == b[i]);
            }
        }
    } else if before.id_of(name@) is Some {
        lemma_cached_id(before, t, name@);
        lemma_coll_id_row(b, name@);
        lemma_coll_absent(b, name@, id);
        if before.name_of(id) is Some {
            lemma_cached_name(before, t, id);
        }
    } else {
        lemma_cached_name(before, t, id);
        lemma_coll_name_row(b, id);
        lemma_coll_absent(b, name@, id);
    }
}

/// A cache that agrees with a store agrees with any store whose
/// `collections` table is the same.
pub proof fn lemma_coherent_same(cache: &CollectionCache, t0: &Tables, t1: &Tables)
    requires
        cache.coherent(t0),
        t1.collections == t0.collections,
    ensures
        cache.coherent(t1),
{
}

/// A cache that agrees with a store keeps agreeing after the store binds a
/// new name to a new id.
pub proof fn lemma_coherent_grow(cache: &CollectionCache, t0: &Tables, t1: &Tables, row: CollectionRow)
    requires
        cache.coherent(t0),
        t0.coll_id(row.name@) is None,
        t0.coll_name(row.id) is None,
        t1.collections@ == t0.collections@.push(row),
    ensures
        cache.coherent(t1),
{
    assert(t1.collections@.drop_last() =~= t0.collections@);
    assert forall|i: int| 0 <= i < cache.entries@.len() implies {
        &&& t1.coll_id(#[trigger] cache.entries@[i].name@) == Some(cache.entries@[i].id)
        &&& t1.coll_name(cache.entries@[i].id) == Some(cache.entries@[i].name@)
    } by {
        let e = cache.entries@[i];
        assert(e.name@ != row.name@);
        assert(e.id != row.id);
    }
}

/// A cache that agrees with the store gives, for a name it holds, the
/// store's id for that name.
pub proof fn lemma_cached_id(cache: &CollectionCache, t: &Tables, name: Seq<char>)
    requires
        cache.coherent(t),
        cache.id_of(name) is Some,
    ensures
        t.coll_id(name) == cache.id_of(name),
        cache.name_of(cache.id_of(name)->0) == Some(name),
{
    let id = cache.id_of(name)->0;
    lemma_coll_id_row(cache.entries@, name);
    lemma_coll_absent(cache.entries@, name, id);
    lemma_cached_name(cache, t, id);
}

/// A cache that agrees with the store gives, for an id it holds, the
/// store's name for that id.
pub proof fn lemma_cached_name(cache: &CollectionCache, t: &Tables, id: i32)
    requires
        cache.coherent(t),
        cache.name_of(id) is Some,
    ensures
        t.coll_name(id) == cache.name_of(id),
{
    lemma_coll_name_row(cache.entries@, id);
}

} // verus!
