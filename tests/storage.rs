use syncstorage::cache::CollectionCache;
use syncstorage::error::DbError;
use syncstorage::models::{batch_outcome, MysqlDb, DEFAULT_BSO_TTL};
use syncstorage::params::{GetBso, PostBsos, PostCollectionBso, PutBso, Sorting};
use syncstorage::store::{BsoRow, Tables, UserCollectionRow};

fn fresh(ts: i64) -> MysqlDb {
    MysqlDb::new(Tables::new(), CollectionCache::new(), ts)
}

fn next_session(db: MysqlDb, ts: i64) -> MysqlDb {
    let (conn, cache) = db.into_parts();
    MysqlDb::new(conn, cache, ts)
}

fn s(x: &str) -> String {
    x.to_string()
}

fn put(user_id: u32, coll: &str, id: &str, payload: Option<&str>, sortindex: Option<i32>, ttl: Option<u32>) -> PutBso {
    PutBso {
        user_id,
        collection: s(coll),
        id: s(id),
        sortindex,
        payload: payload.map(|p| p.to_string()),
        ttl,
    }
}

fn get(db: &mut MysqlDb, user_id: u32, coll: &str, id: &str) -> Result<syncstorage::results::GetBso, DbError> {
    db.get_bso_sync(&GetBso { user_id, collection: s(coll), id: s(id) })
}

fn list(db: &mut MysqlDb, coll: &str, sort: Sorting, limit: i64, offset: i64) -> syncstorage::results::GetBsos {
    db.get_bsos_sync(1, &s(coll), &Vec::new(), i64::MAX, 0, sort, limit, offset).unwrap()
}

fn ids_of(page: &syncstorage::results::GetBsos) -> Vec<String> {
    page.bsos.iter().map(|b| b.id.clone()).collect()
}

#[test]
fn put_then_get_round_trip() {
    let mut db = fresh(1000);
    assert_eq!(db.put_bso_sync(&put(1, "bookmarks", "a", Some("x"), None, None)), Ok(1000));
    let got = get(&mut db, 1, "bookmarks", "a").unwrap();
    assert_eq!(got.payload, "x");
    assert_eq!(got.modified, 1000);
    assert_eq!(got.sortindex, None);
    assert_eq!(got.expiry, 1000 + DEFAULT_BSO_TTL as i64);

    let mut db = next_session(db, 2000);
    assert_eq!(db.put_bso_sync(&put(1, "bookmarks", "a", None, Some(5), None)), Ok(2000));
    let got = get(&mut db, 1, "bookmarks", "a").unwrap();
    assert_eq!(got.payload, "x");
    assert_eq!(got.sortindex, Some(5));
    assert_eq!(got.modified, 2000);
    assert_eq!(got.expiry, 1000 + DEFAULT_BSO_TTL as i64);
}

#[test]
fn ttl_only_update_keeps_modified() {
    let mut db = fresh(1000);
    db.put_bso_sync(&put(1, "tabs", "a", Some("p"), None, None)).unwrap();
    let mut db = next_session(db, 3000);
    db.put_bso_sync(&put(1, "tabs", "a", None, None, Some(60))).unwrap();
    let got = get(&mut db, 1, "tabs", "a").unwrap();
    assert_eq!(got.modified, 1000);
    assert_eq!(got.expiry, 3060);
    assert_eq!(got.payload, "p");
    assert_eq!(db.get_collection_modified_sync(1, &s("tabs")), Ok(3000));
}

#[test]
fn new_object_without_payload_is_empty() {
    let mut db = fresh(10);
    db.put_bso_sync(&put(1, "c", "a", None, Some(3), Some(5))).unwrap();
    let got = get(&mut db, 1, "c", "a").unwrap();
    assert_eq!(got.payload, "");
    assert_eq!(got.sortindex, Some(3));
    assert_eq!(got.expiry, 15);
}

#[test]
fn zero_ttl_is_invisible_but_deletable() {
    let mut db = fresh(1000);
    db.put_bso_sync(&put(1, "history", "gone", Some("x"), None, Some(0))).unwrap();
    assert_eq!(get(&mut db, 1, "history", "gone").unwrap_err(), DbError::ItemNotFound);
    let page = list(&mut db, "history", Sorting::Unordered, -1, 0);
    assert!(page.bsos.is_empty());
    assert_eq!(db.get_storage_size_sync(1), 0);
    assert_eq!(db.delete_collection_sync(1, &s("history")), Ok(0));
    assert_eq!(db.conn.bso.len(), 0);
}

#[test]
fn zero_ttl_row_counts_for_delete_storage() {
    let mut db = fresh(1000);
    db.put_bso_sync(&put(1, "history", "gone", Some("x"), None, Some(0))).unwrap();
    db.put_bso_sync(&put(2, "history", "kept", Some("y"), None, None)).unwrap();
    db.delete_storage_sync(1);
    assert_eq!(db.conn.bso.len(), 1);
    assert_eq!(db.conn.bso[0].user_id, 2);
    assert_eq!(db.get_storage_modified_sync(1), 0);
}

fn five_objects() -> MysqlDb {
    let mut db = fresh(100);
    for (k, id) in ["a", "b", "c", "d", "e"].iter().enumerate() {
        if k > 0 {
            db = next_session(db, 100 + k as i64);
        }
        db.put_bso_sync(&put(1, "forms", id, Some("v"), Some(k as i32), None)).unwrap();
    }
    db
}

#[test]
fn pagination_fetches_pages_in_turn() {
    let mut db = five_objects();
    let first = list(&mut db, "forms", Sorting::Oldest, 2, 0);
    assert_eq!(ids_of(&first), vec![s("a"), s("b")]);
    assert!(first.more);
    assert_eq!(first.offset, 2);
    let second = list(&mut db, "forms", Sorting::Oldest, 2, first.offset);
    assert_eq!(ids_of(&second), vec![s("c"), s("d")]);
    assert!(second.more);
    assert_eq!(second.offset, 4);
    let last = list(&mut db, "forms", Sorting::Oldest, 2, second.offset);
    assert_eq!(ids_of(&last), vec![s("e")]);
    assert!(!last.more);
    assert_eq!(last.offset, 0);
}

#[test]
fn pagination_exact_fit_has_no_more() {
    let mut db = five_objects();
    let page = list(&mut db, "forms", Sorting::Newest, 5, 0);
    assert_eq!(page.bsos.len(), 5);
    assert!(!page.more);
    let page = list(&mut db, "forms", Sorting::Newest, 3, 2);
    assert_eq!(ids_of(&page), vec![s("c"), s("b"), s("a")]);
    assert!(!page.more);
    let beyond = list(&mut db, "forms", Sorting::Newest, 3, 9);
    assert!(beyond.bsos.is_empty());
    assert!(!beyond.more);
}

#[test]
fn negative_limit_lists_everything() {
    let mut db = five_objects();
    let page = list(&mut db, "forms", Sorting::Unordered, -1, 0);
    assert_eq!(ids_of(&page), vec![s("a"), s("b"), s("c"), s("d"), s("e")]);
    assert!(!page.more);
    assert_eq!(page.offset, 0);
}

#[test]
fn zero_limit_reports_more() {
    let mut db = five_objects();
    let page = list(&mut db, "forms", Sorting::Oldest, 0, 1);
    assert!(page.bsos.is_empty());
    assert!(page.more);
    assert_eq!(page.offset, 1);
}

#[test]
fn sort_orders() {
    let db = five_objects();
    let mut db = next_session(db, 200);
    db.put_bso_sync(&put(1, "forms", "f", Some("v"), None, None)).unwrap();
    let newest = list(&mut db, "forms", Sorting::Newest, -1, 0);
    assert_eq!(newest.bsos[0].id, "f");
    assert_eq!(newest.bsos[1].id, "e");
    let index = list(&mut db, "forms", Sorting::Index, -1, 0);
    assert_eq!(ids_of(&index), vec![s("e"), s("d"), s("c"), s("b"), s("a"), s("f")]);
    let oldest = list(&mut db, "forms", Sorting::Oldest, -1, 0);
    assert_eq!(oldest.bsos[0].id, "a");
    assert_eq!(oldest.bsos[5].id, "f");
}

#[test]
fn filters_by_modified_bounds_and_ids() {
    let mut db = five_objects();
    let page = db.get_bsos_sync(1, &s("forms"), &Vec::new(), 103, 100, Sorting::Oldest, -1, 0).unwrap();
    assert_eq!(ids_of(&page), vec![s("b"), s("c")]);
    let wanted = vec![s("e"), s("a"), s("zz")];
    let page = db.get_bsos_sync(1, &s("forms"), &wanted, i64::MAX, 0, Sorting::Oldest, -1, 0).unwrap();
    assert_eq!(ids_of(&page), vec![s("a"), s("e")]);
}

#[test]
fn id_filter_is_capped_at_one_hundred() {
    let mut db = five_objects();
    let mut wanted: Vec<String> = (0..100).map(|k| format!("x{}", k)).collect();
    wanted.push(s("a"));
    let page = db.get_bsos_sync(1, &s("forms"), &wanted, i64::MAX, 0, Sorting::Oldest, -1, 0).unwrap();
    assert!(page.bsos.is_empty());
    wanted.remove(0);
    let page = db.get_bsos_sync(1, &s("forms"), &wanted, i64::MAX, 0, Sorting::Oldest, -1, 0).unwrap();
    assert_eq!(ids_of(&page), vec![s("a")]);
}

#[test]
fn listing_unknown_collection_fails() {
    let mut db = fresh(5);
    let r = db.get_bsos_sync(1, &s("nope"), &Vec::new(), i64::MAX, 0, Sorting::Oldest, 10, 0);
    assert_eq!(r.unwrap_err(), DbError::CollectionNotFound);
    assert_eq!(get(&mut db, 1, "nope", "a").unwrap_err(), DbError::CollectionNotFound);
}

#[test]
fn batch_post_collects_successes() {
    let mut db = fresh(500);
    let items = vec![
        PostCollectionBso { id: s("one"), sortindex: None, payload: Some(s("1")), ttl: None },
        PostCollectionBso { id: s("two"), sortindex: Some(2), payload: None, ttl: None },
        PostCollectionBso { id: s("three"), sortindex: None, payload: Some(s("3")), ttl: Some(10) },
    ];
    let r = db.post_bsos_sync(&PostBsos { user_id: 7, collection: s("prefs"), bsos: items }).unwrap();
    assert_eq!(r.modified, 500);
    assert_eq!(r.success, vec![s("one"), s("two"), s("three")]);
    assert!(r.failed.is_empty());
    assert_eq!(db.conn.user_collections.len(), 1);
    assert_eq!(db.get_collection_modified_sync(7, &s("prefs")), Ok(500));
    assert_eq!(get(&mut db, 7, "prefs", "three").unwrap().payload, "3");
}

#[test]
fn batch_post_fails_when_no_collection_id_is_left() {
    let mut conn = Tables::new();
    conn.next_collection_id = i32::MAX;
    let mut db = MysqlDb::new(conn, CollectionCache::new(), 5);
    let items = vec![PostCollectionBso { id: s("one"), sortindex: None, payload: None, ttl: None }];
    let r = db.post_bsos_sync(&PostBsos { user_id: 7, collection: s("prefs"), bsos: items });
    assert_eq!(r.unwrap_err(), DbError::CollectionIdsExhausted);
    assert_eq!(db.put_bso_sync(&put(1, "c", "a", None, None, None)), Err(DbError::CollectionIdsExhausted));
}

#[test]
fn read_then_write_lock_is_escalation() {
    let mut db = fresh(100);
    db.put_bso_sync(&put(1, "bookmarks", "a", Some("x"), None, None)).unwrap();
    let mut db = next_session(db, 200);
    assert_eq!(db.lock_for_read(1, &s("bookmarks")), Ok(()));
    assert_eq!(db.lock_for_write(1, &s("bookmarks")), Err(DbError::LockEscalation));
    assert!(DbError::LockEscalation.is_internal());
}

#[test]
fn write_then_read_lock_keeps_write_lock() {
    let mut db = fresh(100);
    db.put_bso_sync(&put(1, "bookmarks", "a", Some("x"), None, None)).unwrap();
    let mut db = next_session(db, 200);
    assert_eq!(db.lock_for_write(1, &s("bookmarks")), Ok(()));
    let locks = db.session.coll_locks.len();
    assert_eq!(db.lock_for_read(1, &s("bookmarks")), Ok(()));
    assert_eq!(db.session.coll_locks.len(), locks);
    assert_eq!(db.get_collection_modified_sync(1, &s("bookmarks")), Ok(100));
}

#[test]
fn write_lock_conflicts_unless_time_advances() {
    let mut db = fresh(100);
    db.put_bso_sync(&put(1, "bookmarks", "a", Some("x"), None, None)).unwrap();
    let mut same = next_session(db, 100);
    assert_eq!(same.lock_for_write(1, &s("bookmarks")), Err(DbError::Conflict));
    let mut earlier = next_session(same, 50);
    assert_eq!(earlier.lock_for_write(1, &s("bookmarks")), Err(DbError::Conflict));
    let mut later = next_session(earlier, 101);
    assert_eq!(later.lock_for_write(1, &s("bookmarks")), Ok(()));
    assert_eq!(later.put_bso_sync(&put(1, "bookmarks", "b", Some("y"), None, None)), Ok(101));
    assert_eq!(later.get_storage_modified_sync(1), 101);
}

#[test]
fn write_lock_creates_collection() {
    let mut db = fresh(100);
    assert_eq!(db.lock_for_write(1, &s("fresh")), Ok(()));
    assert_eq!(db.conn.collections.len(), 1);
    assert_eq!(db.get_collection_id(&s("fresh")), Ok(1));
}

#[test]
fn read_lock_on_missing_collection_succeeds() {
    let mut db = fresh(100);
    assert_eq!(db.lock_for_read(3, &s("never")), Ok(()));
    assert_eq!(db.session.coll_locks.len(), 1);
    assert_eq!(db.session.coll_locks[0].collection_id, 0);
    assert_eq!(db.conn.collections.len(), 0);
}

#[test]
fn collection_ids_agree_across_sessions() {
    let mut first = fresh(10);
    let id = first.get_or_create_collection_id(&s("passwords")).unwrap();
    let (conn, _) = first.into_parts();
    let mut second = MysqlDb::new(conn, CollectionCache::new(), 20);
    assert_eq!(second.get_collection_id(&s("passwords")), Ok(id));
    assert_eq!(second.get_or_create_collection_id(&s("passwords")), Ok(id));
    assert_eq!(second.conn.collections.len(), 1);
    assert_eq!(second.coll_cache.get_id(&s("passwords")), Some(id));
    assert_eq!(second.get_collection_name(id), Ok(s("passwords")));
    assert_eq!(second.get_collection_name(99), Err(DbError::CollectionNotFound));
}

#[test]
fn cache_keeps_first_binding() {
    let mut cache = CollectionCache::new();
    cache.put(1, s("a"));
    cache.put(1, s("a"));
    cache.put(2, s("a"));
    cache.put(1, s("b"));
    assert_eq!(cache.entries.len(), 1);
    assert_eq!(cache.get_id(&s("a")), Some(1));
    assert_eq!(cache.get_name(1), Some(s("a")));
    assert_eq!(cache.get_id(&s("b")), None);
    assert_eq!(cache.get_name(2), None);
}

#[test]
fn delete_collection_cases() {
    let mut db = fresh(100);
    assert_eq!(db.delete_collection_sync(1, &s("never")), Err(DbError::CollectionNotFound));
    db.put_bso_sync(&put(1, "a", "x", Some("1"), None, None)).unwrap();
    let mut db = next_session(db, 200);
    db.put_bso_sync(&put(1, "b", "y", Some("2"), None, None)).unwrap();
    db.delete_bso_sync(1, &s("b"), &s("y")).unwrap();
    assert_eq!(db.delete_collection_sync(1, &s("b")), Ok(100));
    assert_eq!(db.delete_collection_sync(1, &s("b")), Err(DbError::CollectionNotFound));
    assert_eq!(db.delete_collection_sync(1, &s("a")), Ok(0));
}

#[test]
fn delete_objects_touches_collection() {
    let mut db = fresh(100);
    db.put_bso_sync(&put(1, "c", "x", Some("1"), None, None)).unwrap();
    db.put_bso_sync(&put(1, "c", "y", Some("2"), None, None)).unwrap();
    db.put_bso_sync(&put(1, "c", "z", Some("3"), None, None)).unwrap();
    let mut db = next_session(db, 300);
    assert_eq!(db.delete_bsos_sync(1, &s("c"), &vec![s("x"), s("z"), s("missing")]), Ok(300));
    assert_eq!(db.conn.bso.len(), 1);
    assert_eq!(db.get_collection_modified_sync(1, &s("c")), Ok(300));
    assert_eq!(db.delete_bso_sync(1, &s("c"), &s("y")), Ok(300));
    assert_eq!(db.conn.bso.len(), 0);
    assert_eq!(db.delete_bso_sync(1, &s("nope"), &s("y")), Err(DbError::CollectionNotFound));
}

#[test]
fn modified_queries() {
    let mut db = fresh(100);
    db.put_bso_sync(&put(1, "a", "x", Some("1"), None, None)).unwrap();
    let mut db = next_session(db, 250);
    db.put_bso_sync(&put(1, "b", "y", Some("2"), None, Some(0))).unwrap();
    assert_eq!(db.get_storage_modified_sync(1), 250);
    assert_eq!(db.get_storage_modified_sync(2), 0);
    assert_eq!(db.get_collection_modified_sync(1, &s("a")), Ok(100));
    assert_eq!(db.get_collection_modified_sync(2, &s("a")), Err(DbError::CollectionNotFound));
    assert_eq!(db.get_bso_modified_sync(1, &s("b"), &s("y")), Ok(250));
    assert_eq!(db.get_bso_modified_sync(1, &s("b"), &s("q")), Err(DbError::ItemNotFound));
    let mut map = db.get_collections_modified_sync(1).unwrap();
    map.sort();
    assert_eq!(map, vec![(s("a"), 100), (s("b"), 250)]);
}

#[test]
fn sizes_and_counts_by_collection() {
    let mut db = fresh(100);
    db.put_bso_sync(&put(1, "a", "x", Some("héllo"), None, None)).unwrap();
    db.put_bso_sync(&put(1, "a", "y", Some("abc"), None, None)).unwrap();
    db.put_bso_sync(&put(1, "b", "z", Some(""), None, None)).unwrap();
    db.put_bso_sync(&put(1, "c", "old", Some("zzzz"), None, Some(0))).unwrap();
    db.put_bso_sync(&put(2, "a", "w", Some("other"), None, None)).unwrap();
    assert_eq!(db.get_storage_size_sync(1), 9);
    let mut sizes = db.get_collection_sizes_sync(1).unwrap();
    sizes.sort();
    assert_eq!(sizes, vec![(s("a"), 9), (s("b"), 0)]);
    let mut counts = db.get_collection_counts_sync(1).unwrap();
    counts.sort();
    assert_eq!(counts, vec![(s("a"), 2), (s("b"), 1)]);
    assert_eq!(db.get_collection_counts_sync(3), Ok(Vec::new()));
}

#[test]
fn unnamed_collection_is_an_internal_error() {
    let mut conn = Tables::new();
    conn.bso.push(BsoRow {
        user_id: 1,
        collection_id: 42,
        id: s("x"),
        sortindex: None,
        payload: s("p"),
        modified: 1,
        expiry: 1000,
    });
    conn.user_collections.push(UserCollectionRow { user_id: 1, collection_id: 42, modified: 1 });
    let mut db = MysqlDb::new(conn, CollectionCache::new(), 10);
    assert_eq!(db.get_collection_counts_sync(1), Err(DbError::MissingCollectionName));
    assert_eq!(db.get_collection_sizes_sync(1), Err(DbError::MissingCollectionName));
    assert_eq!(db.get_collections_modified_sync(1), Err(DbError::MissingCollectionName));
    assert!(DbError::MissingCollectionName.is_internal());
}

#[test]
fn error_messages() {
    assert_eq!(DbError::LockEscalation.message(), "Can't escalate read-lock to write-lock");
    assert_eq!(DbError::Conflict.message(), "conflicting write: the collection was modified at or after this session's time");
    assert_eq!(DbError::ItemNotFound.message(), "item not found");
    assert_eq!(DbError::MissingCollectionName.message(), "a collection id has no name in the store");
    assert!(!DbError::Conflict.is_internal());
    assert!(!DbError::ItemNotFound.is_internal());
}

#[test]
fn batch_outcome_isolates_failed_items() {
    let ids = vec![s("one"), s("two"), s("three"), s("four")];
    let outcomes = vec![Ok(10), Err(DbError::Conflict), Ok(10), Ok(10)];
    let r = batch_outcome(&ids, &outcomes, 10);
    assert_eq!(r.modified, 10);
    assert_eq!(r.success, vec![s("one"), s("three"), s("four")]);
    assert_eq!(r.failed, vec![(s("two"), DbError::Conflict.message())]);
}

#[test]
fn batch_outcome_of_empty_batch() {
    let r = batch_outcome(&Vec::new(), &Vec::new(), 3);
    assert_eq!(r.modified, 3);
    assert!(r.success.is_empty());
    assert!(r.failed.is_empty());
}

#[test]
fn load_collection_names_fills_cache() {
    let mut first = fresh(10);
    let a = first.get_or_create_collection_id(&s("alpha")).unwrap();
    let b = first.get_or_create_collection_id(&s("beta")).unwrap();
    let (conn, _) = first.into_parts();
    let mut db = MysqlDb::new(conn, CollectionCache::new(), 20);
    let names = db.load_collection_names(&vec![b, 77, a]);
    assert_eq!(names.len(), 2);
    assert_eq!(db.coll_cache.get_name(a), Some(s("alpha")));
    assert_eq!(db.coll_cache.get_name(b), Some(s("beta")));
    assert_eq!(db.coll_cache.get_name(77), None);
}
