//! Filtering, ordering and paging of a collection's objects.
use vstd::prelude::*;

use crate::params::Sorting;
use crate::store::{contains_id, in_ids, BsoRow};

verus! {

/// Most ids that one listing filters on; further ids are ignored.
pub const MAX_IDS: usize = 100;

/// The ids a listing filters on: the first `MAX_IDS` of those given.
pub open spec fn capped(ids: Seq<String>) -> Seq<String> {
    if ids.len() > MAX_IDS {
        ids.take(MAX_IDS as int)
    } else {
        ids
    }
}

/// Whether a listing of (user, collection) over `ids` (none: all),
/// `modified` strictly between `newer` and `older`, at time `now`, takes `r`.
pub open spec fn listed(
    r: BsoRow,
    user_id: u32,
    cid: i32,
    ids: Seq<String>,
    older: i64,
    newer: i64,
    now: i64,
) -> bool {
    &&& r.user_id == user_id
    &&& r.collection_id == cid
    &&& r.modified < older
    &&& r.modified > newer
    &&& r.expiry > now
    &&& (ids.len() == 0 || in_ids(ids, r.id@))
}

pub open spec fn listed_pred(
    user_id: u32,
    cid: i32,
    ids: Seq<String>,
    older: i64,
    newer: i64,
    now: i64,
) -> spec_fn(BsoRow) -> bool {
    |r: BsoRow| listed(r, user_id, cid, ids, older, newer, now)
}

/// Sort key of `sortindex`; an absent index sorts below every present one.
pub open spec fn index_key(r: BsoRow) -> int {
    match r.sortindex {
        Some(x) => x as int,
        None => i32::MIN - 1,
    }
}

/// Whether `a` comes strictly before `b` in the order `sort`.
pub open spec fn goes_before(a: BsoRow, b: BsoRow, sort: Sorting) -> bool {
    match sort {
        Sorting::Index => index_key(a) > index_key(b),
        Sorting::Newest => a.modified > b.modified,
        Sorting::Oldest => a.modified < b.modified,
        Sorting::Unordered => false,
    }
}

/// `s` with `x` placed after every row that `x` does not go before.
pub open spec fn insert_sorted(s: Seq<BsoRow>, x: BsoRow, sort: Sorting) -> Seq<BsoRow>
    decreases s.len(),
{
    if s.len() == 0 {
        seq![x]
    } else if goes_before(x, s.last(), sort) {
        insert_sorted(s.drop_last(), x, sort).push(s.last())
    } else {
        s.push(x)
    }
}

/// `s` in the order `sort`; rows that the order does not tell apart keep
/// their order in `s`.
pub open spec fn sort_rows(s: Seq<BsoRow>, sort: Sorting) -> Seq<BsoRow>
    decreases s.len(),
{
    if s.len() == 0 {
        s
    } else {
        insert_sorted(sort_rows(s.drop_last(), sort), s.last(), sort)
    }
}

/// Rows of `all` from `offset` on.
pub open spec fn rest_from(all: Seq<BsoRow>, offset: i64) -> Seq<BsoRow> {
    if offset < all.len() {
        all.subrange(offset as int, all.len() as int)
    } else {
        Seq::empty()
    }
}

/// Whether rows beyond the page of `limit` rows at `offset` remain.
pub open spec fn has_more(all: Seq<BsoRow>, limit: i64, offset: i64) -> bool {
    limit >= 0 && rest_from(all, offset).len() > limit
}

/// The page of at most `limit` rows (a negative limit: all) of `all` at `offset`.
pub open spec fn page(all: Seq<BsoRow>, limit: i64, offset: i64) -> Seq<BsoRow> {
    if has_more(all, limit, offset) {
        rest_from(all, offset).take(limit as int)
    } else {
        rest_from(all, offset)
    }
}

/// Whether `a` goes before `b` in the order `sort`.
pub fn row_goes_before(a: &BsoRow, b: &BsoRow, sort: Sorting) -> (r: bool)
    ensures
        r == goes_before(*a, *b, sort),
{
    match sort {
        Sorting::Index => match (a.sortindex, b.sortindex) {
            (Some(x), Some(y)) => x > y,
            (Some(_), None) => true,
            (None, _) => false,
        },
        Sorting::Newest => a.modified > b.modified,
        Sorting::Oldest => a.modified < b.modified,
        Sorting::Unordered => false,
    }
}

/// Places `x` into the sorted rows `v`.
pub fn insert_row(v: Vec<BsoRow>, x: BsoRow, sort: Sorting) -> (r: Vec<BsoRow>)
    ensures
        r@ == insert_sorted(v@, x, sort),
    decreases v@.len(),
{
    let mut v = v;
    if v.len() == 0 {
        v.push(x);
        proof {
            assert(v@ =~= seq![x]);
        }
        return v;
    }
    let ghost s = v@;
    let last = v.pop().unwrap();
    proof {
        assert(v@ =~= s.drop_last());
    }
    if row_goes_before(&x, &last, sort) {
        let mut r = insert_row(v, x, sort);
        r.push(last);
        r
    } else {
        v.push(last);
        proof {
            assert(v@ =~= s);
        }
        v.push(x);
        v
    }
}

/// The rows `v` in the order `sort`.
pub fn sort_by(v: Vec<BsoRow>, sort: Sorting) -> (r: Vec<BsoRow>)
    ensures
        r@ == sort_rows(v@, sort),
{
    let ghost s = v@;
    let mut sorted: Vec<BsoRow> = Vec::new();
    let mut rest = v;
    let mut i: usize = 0;
    let n = rest.len();
    while i < n
        invariant
            n == s.len(),
            i <= n,
            rest@ == s,
            sorted@ == sort_rows(s.subrange(0, i as int), sort),
        decreases n - i,
    {
        let x = rest[i].copy();
        proof {
            let t = s.subrange(0, i as int + 1);
            assert(t.drop_last() =~= s.subrange(0, i as int));
            assert(t.last() == x);
        }
        sorted = insert_row(sorted, x, sort);
        i = i + 1;
    }
    proof {
        assert(s.subrange(0, i as int) =~= s);
    }
    sorted
}

/// The first `MAX_IDS` of `ids`.
pub fn cap_ids(ids: &Vec<String>) -> (r: Vec<String>)
    ensures
        r@ == capped(ids@),
{
    let n = if ids.len() > MAX_IDS { MAX_IDS } else { ids.len() };
    let mut r: Vec<String> = Vec::new();
    let mut k: usize = 0;
    while k < n
        invariant
            n <= ids@.len(),
            n == if ids@.len() > MAX_IDS { MAX_IDS as int } else { ids@.len() as int },
            k <= n,
            r@ == ids@.take(k as int),
        decreases n - k,
    {
        r.push(ids[k].clone());
        proof {
            assert(r@ =~= ids@.take(k as int + 1));
        }
        k = k + 1;
    }
    proof {
        assert(r@ =~= capped(ids@));
    }
    r
}

/// Whether a listing takes `r`.
pub fn is_listed(
    r: &BsoRow,
    user_id: u32,
    cid: i32,
    ids: &Vec<String>,
    older: i64,
    newer: i64,
    now: i64,
) -> (b: bool)
    ensures
        b == listed(*r, user_id, cid, ids@, older, newer, now),
{
    r.user_id == user_id && r.collection_id == cid && r.modified < older && r.modified > newer
        && r.expiry > now && (ids.len() == 0 || contains_id(ids, &r.id))
}

} // verus!
