//! In-memory model of the backing relational tables: `collections`,
//! `user_collections` and `bso`. Lookups follow "the last matching row wins",
//! so every lookup is a function of the table contents.
use vstd::prelude::*;

verus! {

/// A row of the `collections` table: a global name to id binding.
pub struct CollectionRow {
    pub id: i32,
    pub name: String,
}

/// A row of the `user_collections` table: last-write time of one user's collection.
#[derive(Debug, Clone, Copy, PartialEq, Eq, Structural)]
pub struct UserCollectionRow {
    pub user_id: u32,
    pub collection_id: i32,
    pub modified: i64,
}

/// A row of the `bso` table: one storage object.
pub struct BsoRow {
    pub user_id: u32,
    pub collection_id: i32,
    pub id: String,
    pub sortindex: Option<i32>,
    pub payload: String,
    pub modified: i64,
    pub expiry: i64,
}

impl CollectionRow {
    pub fn copy(&self) -> (r: CollectionRow)
        ensures
            r == *self,
    {
        CollectionRow { id: self.id, name: self.name.clone() }
    }
}

impl BsoRow {
    pub fn copy(&self) -> (r: BsoRow)
        ensures
            r == *self,
    {
        BsoRow {
            user_id: self.user_id,
            collection_id: self.collection_id,
            id: self.id.clone(),
            sortindex: self.sortindex,
            payload: self.payload.clone(),
            modified: self.modified,
            expiry: self.expiry,
        }
    }
}

/// Id bound to `name` in a `collections` table.
pub open spec fn coll_id_of(rows: Seq<CollectionRow>, name: Seq<char>) -> Option<i32>
    decreases rows.len(),
{
    if rows.len() == 0 {
        None
    } else if rows.last().name@ == name {
        Some(rows.last().id)
    } else {
        coll_id_of(rows.drop_last(), name)
    }
}

/// Name bound to `id` in a `collections` table.
pub open spec fn coll_name_of(rows: Seq<CollectionRow>, id: i32) -> Option<Seq<char>>
    decreases rows.len(),
{
    if rows.len() == 0 {
        None
    } else if rows.last().id == id {
        Some(rows.last().name@)
    } else {
        coll_name_of(rows.drop_last(), id)
    }
}

/// Stored `modified` of (user, collection) in a `user_collections` table.
pub open spec fn uc_modified(rows: Seq<UserCollectionRow>, user_id: u32, collection_id: i32) -> Option<i64>
    decreases rows.len(),
{
    if rows.len() == 0 {
        None
    } else if rows.last().user_id == user_id && rows.last().collection_id == collection_id {
        Some(rows.last().modified)
    } else {
        uc_modified(rows.drop_last(), user_id, collection_id)
    }
}

/// Whether a row is the object (user, collection, id).
pub open spec fn bso_key_is(r: BsoRow, user_id: u32, collection_id: i32, id: Seq<char>) -> bool {
    r.user_id == user_id && r.collection_id == collection_id && r.id@ == id
}

/// Stored row of object (user, collection, id) in a `bso` table.
pub open spec fn bso_of(rows: Seq<BsoRow>, user_id: u32, collection_id: i32, id: Seq<char>) -> Option<BsoRow>
    decreases rows.len(),
{
    if rows.len() == 0 {
        None
    } else if bso_key_is(rows.last(), user_id, collection_id, id) {
        Some(rows.last())
    } else {
        bso_of(rows.drop_last(), user_id, collection_id, id)
    }
}

/// Whether a `user_collections` row falls under a delete of (user, collection?).
pub open spec fn uc_doomed(r: UserCollectionRow, user_id: u32, collection_id: Option<i32>) -> bool {
    r.user_id == user_id && match collection_id {
        Some(c) => r.collection_id == c,
        None => true,
    }
}

/// The rows that a delete of (user, collection?) keeps.
pub open spec fn uc_keep(user_id: u32, collection_id: Option<i32>) -> spec_fn(UserCollectionRow) -> bool {
    |r: UserCollectionRow| !uc_doomed(r, user_id, collection_id)
}

/// A delete leaves the rows of every key it does not cover as they were.
pub proof fn lemma_uc_filter(s: Seq<UserCollectionRow>, user_id: u32, collection_id: Option<i32>, u: u32, c: i32)
    requires
        !(u == user_id && match collection_id {
            Some(cc) => c == cc,
            None => true,
        }),
    ensures
        uc_modified(s.filter(uc_keep(user_id, collection_id)), u, c)
            == uc_modified(s, u, c),
    decreases s.len(),
{
    let pred = uc_keep(user_id, collection_id);
    if s.len() > 0 {
        lemma_uc_filter(s.drop_last(), user_id, collection_id, u, c);
        let f = s.drop_last().filter(pred);
        reveal(Seq::filter);
        assert(s.filter(pred) == if pred(s.last()) { f.push(s.last()) } else { f });
        if pred(s.last()) {
            assert(f.push(s.last()).drop_last() =~= f);
            assert(f.push(s.last()).last() == s.last());
        }
    }
}

/// No row of a table binds an id at or above every row's id.
pub proof fn lemma_coll_name_below(s: Seq<CollectionRow>, id: i32)
    requires
        forall|i: int| 0 <= i < s.len() ==> #[trigger] s[i].id < id,
    ensures
        coll_name_of(s, id) is None,
    decreases s.len(),
{
    if s.len() > 0 {
        lemma_coll_name_below(s.drop_last(), id);
    }
}

/// The id list of a delete, as a sequence.
pub open spec fn ids_view(ids: Option<&Vec<String>>) -> Option<Seq<String>> {
    match ids {
        Some(v) => Some(v@),
        None => None,
    }
}

/// Whether `id` is among `ids`.
pub open spec fn in_ids(ids: Seq<String>, id: Seq<char>) -> bool {
    exists|k: int| 0 <= k < ids.len() && #[trigger] ids[k]@ == id
}

/// Whether the key (user, collection, id) falls under a delete of
/// (user, collection?, ids?).
pub open spec fn bso_doomed_key(
    u: u32,
    c: i32,
    id: Seq<char>,
    user_id: u32,
    collection_id: Option<i32>,
    ids: Option<Seq<String>>,
) -> bool {
    &&& u == user_id
    &&& match collection_id {
        Some(cc) => c == cc,
        None => true,
    }
    &&& match ids {
        Some(v) => in_ids(v, id),
        None => true,
    }
}

/// Whether a `bso` row falls under a delete of (user, collection?, ids?).
pub open spec fn bso_doomed(r: BsoRow, user_id: u32, collection_id: Option<i32>, ids: Option<Seq<String>>) -> bool {
    bso_doomed_key(r.user_id, r.collection_id, r.id@, user_id, collection_id, ids)
}

/// The rows that a delete of (user, collection?, ids?) keeps.
pub open spec fn bso_keep(user_id: u32, collection_id: Option<i32>, ids: Option<Seq<String>>) -> spec_fn(BsoRow) -> bool {
    |r: BsoRow| !bso_doomed(r, user_id, collection_id, ids)
}

/// A delete leaves the object of every key it does not cover as it was.
pub proof fn lemma_bso_filter(
    s: Seq<BsoRow>,
    user_id: u32,
    collection_id: Option<i32>,
    ids: Option<Seq<String>>,
    u: u32,
    c: i32,
    id: Seq<char>,
)
    requires
        !bso_doomed_key(u, c, id, user_id, collection_id, ids),
    ensures
        bso_of(s.filter(bso_keep(user_id, collection_id, ids)), u, c, id) == bso_of(s, u, c, id),
    decreases s.len(),
{
    let pred = bso_keep(user_id, collection_id, ids);
    if s.len() > 0 {
        lemma_bso_filter(s.drop_last(), user_id, collection_id, ids, u, c, id);
        let f = s.drop_last().filter(pred);
        reveal(Seq::filter);
        assert(s.filter(pred) == if pred(s.last()) { f.push(s.last()) } else { f });
        if pred(s.last()) {
            assert(f.push(s.last()).drop_last() =~= f);
            assert(f.push(s.last()).last() == s.last());
        }
    }
}

/// Whether `id` is among `ids`.
pub fn contains_id(ids: &Vec<String>, id: &String) -> (r: bool)
    ensures
        r == in_ids(ids@, id@),
{
    let mut k: usize = 0;
    while k < ids.len()
        invariant
            k <= ids@.len(),
            forall|j: int| 0 <= j < k ==> ids@[j]@ != id@,
        decreases ids@.len() - k,
    {
        if ids[k] == *id {
            return true;
        }
        k = k + 1;
    }
    false
}

/// A name bound in a `collections` table stands in one of its rows.
pub proof fn lemma_coll_id_row(s: Seq<CollectionRow>, name: Seq<char>)
    ensures
        coll_id_of(s, name) is Some ==> exists|i: int|
            0 <= i < s.len() && #[trigger] s[i].name@ == name && s[i].id == coll_id_of(s, name)->0,
    decreases s.len(),
{
    if s.len() > 0 {
        lemma_coll_id_row(s.drop_last(), name);
        if coll_id_of(s, name) is Some && s.last().name@ != name {
            let i = choose|i: int|
                0 <= i < s.drop_last().len() && #[trigger] s.drop_last()[i].name@ == name
                    && s.drop_last()[i].id == coll_id_of(s, name)->0;
            assert(s[i] == s.drop_last()[i]);
        }
    }
}

/// An id bound in a `collections` table stands in one of its rows.
pub proof fn lemma_coll_name_row(s: Seq<CollectionRow>, id: i32)
    ensures
        coll_name_of(s, id) is Some ==> exists|i: int|
            0 <= i < s.len() && #[trigger] s[i].id == id && s[i].name@ == coll_name_of(s, id)->0,
    decreases s.len(),
{
    if s.len() > 0 {
        lemma_coll_name_row(s.drop_last(), id);
        if coll_name_of(s, id) is Some && s.last().id != id {
            let i = choose|i: int|
                0 <= i < s.drop_last().len() && #[trigger] s.drop_last()[i].id == id
                    && s.drop_last()[i].name@ == coll_name_of(s, id)->0;
            assert(s[i] == s.drop_last()[i]);
        }
    }
}

/// No two rows of a `collections` table share an id or a name.
pub open spec fn colls_unique(s: Seq<CollectionRow>) -> bool {
    forall|i: int, j: int|
        0 <= i < s.len() && 0 <= j < s.len() && i != j ==> #[trigger] s[i].id != #[trigger] s[j].id
            && s[i].name@ != s[j].name@
}

/// In a table without duplicates, each row is the binding of its name and of its id.
pub proof fn lemma_row_binds(s: Seq<CollectionRow>, i: int)
    requires
        colls_unique(s),
        0 <= i < s.len(),
    ensures
        coll_id_of(s, s[i].name@) == Some(s[i].id),
        coll_name_of(s, s[i].id) == Some(s[i].name@),
    decreases s.len(),
{
    if i < s.len() - 1 {
        let t = s.drop_last();
        assert(t[i] == s[i]);
        assert forall|a: int, b: int|
            0 <= a < t.len() && 0 <= b < t.len() && a != b implies #[trigger] t[a].id != #[trigger] t[b].id
                && t[a].name@ != t[b].name@ by {
            assert(t[a] == s[a] && t[b] == s[b]);
        }
        assert(s[s.len() - 1] == s.last());
        lemma_row_binds(t, i);
    }
}

/// The row found for a key carries that key.
pub proof fn lemma_bso_of_key(s: Seq<BsoRow>, u: u32, c: i32, id: Seq<char>)
    ensures
        bso_of(s, u, c, id) is Some ==> bso_key_is(bso_of(s, u, c, id)->0, u, c, id),
    decreases s.len(),
{
    if s.len() > 0 {
        lemma_bso_of_key(s.drop_last(), u, c, id);
    }
}

/// Name bound to `id` among `rows`.
pub fn name_in(rows: &Vec<CollectionRow>, id: i32) -> (r: Option<String>)
    ensures
        match r {
            Some(n) => coll_name_of(rows@, id) == Some(n@),
            None => coll_name_of(rows@, id) is None,
        },
{
    let mut found: Option<String> = None;
    let mut i: usize = 0;
    while i < rows.len()
        invariant
            i <= rows@.len(),
            match found {
                Some(n) => coll_name_of(rows@.subrange(0, i as int), id) == Some(n@),
                None => coll_name_of(rows@.subrange(0, i as int), id) is None,
            },
        decreases rows@.len() - i,
    {
        let row = &rows[i];
        proof {
            let s = rows@.subrange(0, i as int + 1);
            assert(s.drop_last() =~= rows@.subrange(0, i as int));
        }
        if row.id == id {
            found = Some(row.name.clone());
        }
        i = i + 1;
    }
    proof {
        assert(rows@.subrange(0, i as int) =~= rows@);
    }
    found
}

/// No two rows of a `user_collections` table share a (user, collection) key.
pub open spec fn uc_unique(s: Seq<UserCollectionRow>) -> bool
    decreases s.len(),
{
    s.len() == 0 || (uc_unique(s.drop_last()) && uc_modified(
        s.drop_last(),
        s.last().user_id,
        s.last().collection_id,
    ) is None)
}

/// No two rows of a `bso` table share a (user, collection, id) key.
pub open spec fn bso_unique(s: Seq<BsoRow>) -> bool
    decreases s.len(),
{
    s.len() == 0 || (bso_unique(s.drop_last()) && bso_of(
        s.drop_last(),
        s.last().user_id,
        s.last().collection_id,
        s.last().id@,
    ) is None)
}

/// A delete leaves no row of a key it covers.
pub proof fn lemma_uc_filter_doomed(s: Seq<UserCollectionRow>, user_id: u32, collection_id: Option<i32>, u: u32, c: i32)
    requires
        uc_doomed(UserCollectionRow { user_id: u, collection_id: c, modified: 0 }, user_id, collection_id),
    ensures
        uc_modified(s.filter(uc_keep(user_id, collection_id)), u, c) is None,
    decreases s.len(),
{
    let pred = uc_keep(user_id, collection_id);
    if s.len() > 0 {
        lemma_uc_filter_doomed(s.drop_last(), user_id, collection_id, u, c);
        let f = s.drop_last().filter(pred);
        reveal(Seq::filter);
        assert(s.filter(pred) == if pred(s.last()) { f.push(s.last()) } else { f });
        if pred(s.last()) {
            assert(f.push(s.last()).drop_last() =~= f);
            assert(f.push(s.last()).last() == s.last());
        }
    }
}

/// A delete keeps the keys of a table without duplicates unique.
pub proof fn lemma_uc_filter_unique(s: Seq<UserCollectionRow>, user_id: u32, collection_id: Option<i32>)
    requires
        uc_unique(s),
    ensures
        uc_unique(s.filter(uc_keep(user_id, collection_id))),
    decreases s.len(),
{
    let pred = uc_keep(user_id, collection_id);
    if s.len() > 0 {
        lemma_uc_filter_unique(s.drop_last(), user_id, collection_id);
        let f = s.drop_last().filter(pred);
        reveal(Seq::filter);
        assert(s.filter(pred) == if pred(s.last()) { f.push(s.last()) } else { f });
        if pred(s.last()) {
            let l = s.last();
            lemma_uc_filter(s.drop_last(), user_id, collection_id, l.user_id, l.collection_id);
            assert(f.push(l).drop_last() =~= f);
            assert(f.push(l).last() == l);
        }
    }
}

/// A delete leaves no row of a key it covers.
pub proof fn lemma_bso_filter_doomed(
    s: Seq<BsoRow>,
    user_id: u32,
    collection_id: Option<i32>,
    ids: Option<Seq<String>>,
    u: u32,
    c: i32,
    id: Seq<char>,
)
    requires
        bso_doomed_key(u, c, id, user_id, collection_id, ids),
    ensures
        bso_of(s.filter(bso_keep(user_id, collection_id, ids)), u, c, id) is None,
    decreases s.len(),
{
    let pred = bso_keep(user_id, collection_id, ids);
    if s.len() > 0 {
        lemma_bso_filter_doomed(s.drop_last(), user_id, collection_id, ids, u, c, id);
        let f = s.drop_last().filter(pred);
        reveal(Seq::filter);
        assert(s.filter(pred) == if pred(s.last()) { f.push(s.last()) } else { f });
        if pred(s.last()) {
            assert(f.push(s.last()).drop_last() =~= f);
            assert(f.push(s.last()).last() == s.last());
        }
    }
}

/// A delete keeps the keys of a table without duplicates unique.
pub proof fn lemma_bso_filter_unique(s: Seq<BsoRow>, user_id: u32, collection_id: Option<i32>, ids: Option<Seq<String>>)
    requires
        bso_unique(s),
    ensures
        bso_unique(s.filter(bso_keep(user_id, collection_id, ids))),
    decreases s.len(),
{
    let pred = bso_keep(user_id, collection_id, ids);
    if s.len() > 0 {
        lemma_bso_filter_unique(s.drop_last(), user_id, collection_id, ids);
        let f = s.drop_last().filter(pred);
        reveal(Seq::filter);
        assert(s.filter(pred) == if pred(s.last()) { f.push(s.last()) } else { f });
        if pred(s.last()) {
            let l = s.last();
            lemma_bso_filter(s.drop_last(), user_id, collection_id, ids, l.user_id, l.collection_id, l.id@);
            assert(f.push(l).drop_last() =~= f);
            assert(f.push(l).last() == l);
        }
    }
}

/// A name or id that a `collections` table does not bind stands in none of its rows.
pub proof fn lemma_coll_absent(s: Seq<CollectionRow>, name: Seq<char>, id: i32)
    ensures
        coll_id_of(s, name) is None ==> forall|i: int| 0 <= i < s.len() ==> #[trigger] s[i].name@ != name,
        coll_name_of(s, id) is None ==> forall|i: int| 0 <= i < s.len() ==> #[trigger] s[i].id != id,
    decreases s.len(),
{
    if s.len() > 0 {
        lemma_coll_absent(s.drop_last(), name, id);
        assert forall|i: int| 0 <= i < s.len() - 1 implies #[trigger] s[i] == s.drop_last()[i] by {}
    }
}

/// The backing tables.
pub struct Tables {
    pub collections: Vec<CollectionRow>,
    /// Id the next created collection receives.
    pub next_collection_id: i32,
    pub user_collections: Vec<UserCollectionRow>,
    pub bso: Vec<BsoRow>,
}

impl Tables {
    /// Every collection id is positive and below the next id to assign.
    pub open spec fn wf(&self) -> bool {
        &&& 0 < self.next_collection_id
        &&& forall|i: int|
            0 <= i < self.collections@.len() ==> 0 < #[trigger] self.collections@[i].id
                < self.next_collection_id
        &&& colls_unique(self.collections@)
        &&& uc_unique(self.user_collections@)
        &&& bso_unique(self.bso@)
    }

    pub open spec fn coll_id(&self, name: Seq<char>) -> Option<i32> {
        coll_id_of(self.collections@, name)
    }

    pub open spec fn coll_name(&self, id: i32) -> Option<Seq<char>> {
        coll_name_of(self.collections@, id)
    }

    pub open spec fn modified_of(&self, user_id: u32, collection_id: i32) -> Option<i64> {
        uc_modified(self.user_collections@, user_id, collection_id)
    }

    /// Empty tables.
    pub fn new() -> (r: Tables)
        ensures
            r.wf(),
            r.collections@.len() == 0,
            r.user_collections@.len() == 0,
            r.bso@.len() == 0,
    {
        Tables {
            collections: Vec::new(),
            next_collection_id: 1,
            user_collections: Vec::new(),
            bso: Vec::new(),
        }
    }

    /// `SELECT id FROM collections WHERE name = ?`
    pub fn select_collection_id(&self, name: &String) -> (r: Option<i32>)
        ensures
            r == self.coll_id(name@),
    {
        let mut found: Option<i32> = None;
        let mut i: usize = 0;
        while i < self.collections.len()
            invariant
                i <= self.collections@.len(),
                found == coll_id_of(self.collections@.subrange(0, i as int), name@),
            decreases self.collections@.len() - i,
        {
            let row = &self.collections[i];
            proof {
                let s = self.collections@.subrange(0, i as int + 1);
                assert(s.drop_last() =~= self.collections@.subrange(0, i as int));
            }
            if row.name == *name {
                found = Some(row.id);
            }
            i = i + 1;
        }
        proof {
            assert(self.collections@.subrange(0, i as int) =~= self.collections@);
        }
        found
    }

    /// `SELECT name FROM collections WHERE id = ?`
    pub fn select_collection_name(&self, id: i32) -> (r: Option<String>)
        ensures
            match r {
                Some(n) => self.coll_name(id) == Some(n@),
                None => self.coll_name(id) is None,
            },
    {
        name_in(&self.collections, id)
    }

    /// `INSERT INTO collections (name) VALUES (?)`, giving the new id; `None`
    /// once the id space is used up.
    pub fn insert_collection(&mut self, name: &String) -> (r: Option<i32>)
        requires
            old(self).wf(),
            old(self).coll_id(name@) is None,
        ensures
            final(self).wf(),
            final(self).user_collections == old(self).user_collections,
            final(self).bso == old(self).bso,
            match r {
                Some(id) => {
                    &&& id == old(self).next_collection_id
                    &&& final(self).collections@ == old(self).collections@.push(
                        CollectionRow { id, name: *name },
                    )
                    &&& old(self).coll_name(id) is None
                },
                None => {
                    &&& old(self).next_collection_id == i32::MAX
                    &&& *final(self) == *old(self)
                },
            },
    {
        if self.next_collection_id == i32::MAX {
            return None;
        }
        let id = self.next_collection_id;
        let ghost before = self.collections@;
        proof {
            lemma_coll_name_below(self.collections@, id);
        }
        self.collections.push(CollectionRow { id, name: name.clone() });
        proof {
            assert forall|i: int, j: int|
                0 <= i < self.collections@.len() && 0 <= j < self.collections@.len() && i != j implies
                #[trigger] self.collections@[i].id != #[trigger] self.collections@[j].id
                && self.collections@[i].name@ != self.collections@[j].name@ by {
                if j == before.len() {
                    lemma_row_binds(before, i);
                } else if i == before.len() {
                    lemma_row_binds(before, j);
                }
            }
        }
        self.next_collection_id = id + 1;
        Some(id)
    }

    /// `SELECT modified FROM user_collections WHERE user_id = ? AND collection_id = ?`
    pub fn select_modified(&self, user_id: u32, collection_id: i32) -> (r: Option<i64>)
        ensures
            r == self.modified_of(user_id, collection_id),
    {
        let mut found: Option<i64> = None;
        let mut i: usize = 0;
        while i < self.user_collections.len()
            invariant
                i <= self.user_collections@.len(),
                found == uc_modified(self.user_collections@.subrange(0, i as int), user_id, collection_id),
            decreases self.user_collections@.len() - i,
        {
            let row = self.user_collections[i];
            proof {
                let s = self.user_collections@.subrange(0, i as int + 1);
                assert(s.drop_last() =~= self.user_collections@.subrange(0, i as int));
            }
            if row.user_id == user_id && row.collection_id == collection_id {
                found = Some(row.modified);
            }
            i = i + 1;
        }
        proof {
            assert(self.user_collections@.subrange(0, i as int) =~= self.user_collections@);
        }
        found
    }

    /// `DELETE FROM user_collections WHERE user_id = ? [AND collection_id = ?]`,
    /// giving the number of rows removed.
    pub fn delete_user_collections(&mut self, user_id: u32, collection_id: Option<i32>) -> (count: usize)
        ensures
            final(self).collections == old(self).collections,
            final(self).next_collection_id == old(self).next_collection_id,
            final(self).bso == old(self).bso,
            final(self).user_collections@ == old(self).user_collections@.filter(uc_keep(user_id, collection_id)),
            count == old(self).user_collections@.len() - final(self).user_collections@.len(),
            uc_unique(old(self).user_collections@) ==> uc_unique(final(self).user_collections@),
    {
        proof {
            if uc_unique(self.user_collections@) {
                lemma_uc_filter_unique(self.user_collections@, user_id, collection_id);
            }
        }
        let mut kept: Vec<UserCollectionRow> = Vec::new();
        let mut i: usize = 0;
        while i < self.user_collections.len()
            invariant
                i <= self.user_collections@.len(),
                kept@ == self.user_collections@.subrange(0, i as int).filter(uc_keep(user_id, collection_id)),
                kept@.len() <= i,
            decreases self.user_collections@.len() - i,
        {
            let row = self.user_collections[i];
            proof {
                let s = self.user_collections@.subrange(0, i as int + 1);
                assert(s.drop_last() =~= self.user_collections@.subrange(0, i as int));
                assert(s.last() == row);
                reveal(Seq::filter);
                assert(s.filter(uc_keep(user_id, collection_id)) == if uc_keep(user_id, collection_id)(row) {
                    self.user_collections@.subrange(0, i as int).filter(uc_keep(user_id, collection_id)).push(row)
                } else {
                    self.user_collections@.subrange(0, i as int).filter(uc_keep(user_id, collection_id))
                });
            }
            let in_scope = match collection_id {
                Some(c) => row.collection_id == c,
                None => true,
            };
            let doomed = row.user_id == user_id && in_scope;
            assert(doomed == uc_doomed(row, user_id, collection_id));
            assert(uc_keep(user_id, collection_id)(row) == !doomed);
            if !doomed {
                kept.push(row);
            }
            i = i + 1;
        }
        proof {
            assert(self.user_collections@.subrange(0, i as int) =~= self.user_collections@);
        }
        let count = self.user_collections.len() - kept.len();
        self.user_collections = kept;
        count
    }

    /// `INSERT INTO user_collections ... ON DUPLICATE KEY UPDATE modified = ?`
    pub fn upsert_modified(&mut self, user_id: u32, collection_id: i32, modified: i64)
        ensures
            final(self).collections == old(self).collections,
            final(self).next_collection_id == old(self).next_collection_id,
            final(self).bso == old(self).bso,
            uc_unique(old(self).user_collections@) ==> uc_unique(final(self).user_collections@),
            forall|u: u32, c: i32|
                #[trigger] final(self).modified_of(u, c) == if u == user_id && c == collection_id {
                    Some(modified)
                } else {
                    old(self).modified_of(u, c)
                },
    {
        let ghost before = self.user_collections@;
        self.delete_user_collections(user_id, Some(collection_id));
        proof {
            assert forall|u: u32, c: i32| !(u == user_id && c == collection_id) implies
                uc_modified(self.user_collections@, u, c) == uc_modified(before, u, c) by {
                lemma_uc_filter(before, user_id, Some(collection_id), u, c);
            }
        }
        let ghost kept = self.user_collections@;
        self.user_collections.push(UserCollectionRow { user_id, collection_id, modified });
        proof {
            lemma_uc_filter_doomed(before, user_id, Some(collection_id), user_id, collection_id);
            assert(self.user_collections@.drop_last() =~= kept);
            assert forall|u: u32, c: i32| !(u == user_id && c == collection_id) implies
                #[trigger] uc_modified(self.user_collections@, u, c) == uc_modified(before, u, c) by {
                assert(self.user_collections@.drop_last() =~= before.filter(uc_keep(user_id, Some(collection_id))));
                lemma_uc_filter(before, user_id, Some(collection_id), u, c);
            }
        }
    }

    /// `SELECT ... FROM bso WHERE user_id = ? AND collection_id = ? AND id = ?`
    pub fn select_bso(&self, user_id: u32, collection_id: i32, id: &String) -> (r: Option<BsoRow>)
        ensures
            r == bso_of(self.bso@, user_id, collection_id, id@),
    {
        let mut found: Option<BsoRow> = None;
        let mut i: usize = 0;
        while i < self.bso.len()
            invariant
                i <= self.bso@.len(),
                found == bso_of(self.bso@.subrange(0, i as int), user_id, collection_id, id@),
            decreases self.bso@.len() - i,
        {
            let row = &self.bso[i];
            proof {
                let s = self.bso@.subrange(0, i as int + 1);
                assert(s.drop_last() =~= self.bso@.subrange(0, i as int));
            }
            if row.user_id == user_id && row.collection_id == collection_id && row.id == *id {
                found = Some(row.copy());
            }
            i = i + 1;
        }
        proof {
            assert(self.bso@.subrange(0, i as int) =~= self.bso@);
        }
        found
    }

    /// `DELETE FROM bso WHERE user_id = ? [AND collection_id = ?] [AND id IN (...)]`,
    /// giving the number of rows removed.
    pub fn delete_bsos_where(&mut self, user_id: u32, collection_id: Option<i32>, ids: Option<&Vec<String>>) -> (count: usize)
        ensures
            final(self).collections == old(self).collections,
            final(self).next_collection_id == old(self).next_collection_id,
            final(self).user_collections == old(self).user_collections,
            final(self).bso@ == old(self).bso@.filter(bso_keep(user_id, collection_id, ids_view(ids))),
            count == old(self).bso@.len() - final(self).bso@.len(),
            bso_unique(old(self).bso@) ==> bso_unique(final(self).bso@),
    {
        proof {
            if bso_unique(self.bso@) {
                lemma_bso_filter_unique(self.bso@, user_id, collection_id, ids_view(ids));
            }
        }
        let mut kept: Vec<BsoRow> = Vec::new();
        let mut i: usize = 0;
        while i < self.bso.len()
            invariant
                i <= self.bso@.len(),
                kept@ == self.bso@.subrange(0, i as int).filter(bso_keep(user_id, collection_id, ids_view(ids))),
                kept@.len() <= i,
            decreases self.bso@.len() - i,
        {
            let row = &self.bso[i];
            let in_scope = match collection_id {
                Some(c) => row.collection_id == c,
                None => true,
            };
            let listed = match ids {
                Some(v) => contains_id(v, &row.id),
                None => true,
            };
            let doomed = row.user_id == user_id && in_scope && listed;
            proof {
                let s = self.bso@.subrange(0, i as int + 1);
                assert(s.drop_last() =~= self.bso@.subrange(0, i as int));
                assert(s.last() == *row);
                reveal(Seq::filter);
                assert(doomed == bso_doomed(*row, user_id, collection_id, ids_view(ids)));
                assert(bso_keep(user_id, collection_id, ids_view(ids))(*row) == !doomed);
            }
            if !doomed {
                kept.push(row.copy());
            }
            i = i + 1;
        }
        proof {
            assert(self.bso@.subrange(0, i as int) =~= self.bso@);
        }
        let count = self.bso.len() - kept.len();
        self.bso = kept;
        count
    }

    /// Writes `row` as the object of its key, replacing any stored row of that key.
    pub fn put_row(&mut self, row: BsoRow)
        ensures
            final(self).collections == old(self).collections,
            final(self).next_collection_id == old(self).next_collection_id,
            final(self).user_collections == old(self).user_collections,
            bso_unique(old(self).bso@) ==> bso_unique(final(self).bso@),
            forall|u: u32, c: i32, id: Seq<char>|
                #[trigger] bso_of(final(self).bso@, u, c, id) == if bso_key_is(row, u, c, id) {
                    Some(row)
                } else {
                    bso_of(old(self).bso@, u, c, id)
                },
    {
        let ghost before = self.bso@;
        let ghost key = row.id@;
        let mut ids: Vec<String> = Vec::new();
        ids.push(row.id.clone());
        self.delete_bsos_where(row.user_id, Some(row.collection_id), Some(&ids));
        let ghost kept = self.bso@;
        self.bso.push(row);
        proof {
            assert(self.bso@.drop_last() =~= kept);
            assert(ids@[0]@ == key);
            lemma_bso_filter_doomed(before, row.user_id, Some(row.collection_id), ids_view(Some(&ids)), row.user_id, row.collection_id, row.id@);
            assert forall|u: u32, c: i32, id: Seq<char>| !bso_key_is(row, u, c, id) implies
                #[trigger] bso_of(self.bso@, u, c, id) == bso_of(before, u, c, id) by {
                assert(ids@[0]@ == key);
                lemma_bso_filter(before, row.user_id, Some(row.collection_id), ids_view(Some(&ids)), u, c, id);
            }
        }
    }
}

} // verus!
