use vstd::prelude::*;

use crate::categorize::recategorized;
use crate::model::{Category, PRView};
use crate::select::eligible;
use crate::store::{
    claimed, housekept, lease_expired, none_claimable, synced, upsert_all, upserted,
};
use crate::sync::{behind_cursor, row_of, step, steps, PlanView, UpstreamView};

verus! {

/// A draft is left to its author whatever its labels say, also when it is
/// marked as ready for a merger.
pub proof fn lemma_draft_awaits_author(labels: Seq<Seq<char>>, current: Option<Category>)
    ensures
        recategorized(labels, true, current) == Some(Category::AwaitingAuthor),
{
}

/// Housekeeping at `now` drops a lease that has gone longer than the lease time
/// without refresh, in the same pass that recategorizes the request.
pub proof fn lemma_expired_lease_cleared(m: Map<u64, PRView>, now: i64, id: u64)
    requires
        m.contains_key(id),
        lease_expired(m[id].reservation, now),
    ensures
        m.map_values(|p: PRView| housekept(p, now)).contains_key(id),
        m.map_values(|p: PRView| housekept(p, now))[id].reservation is None,
        m.map_values(|p: PRView| housekept(p, now))[id].category == recategorized(
            m[id].labels,
            m[id].draft,
            m[id].category,
        ),
{
}

/// Housekeeping twice at the same time does nothing the first pass did not.
pub proof fn lemma_housekeep_idempotent(m: Map<u64, PRView>, now: i64)
    ensures
        m.map_values(|p: PRView| housekept(p, now)).map_values(|p: PRView| housekept(p, now))
            == m.map_values(|p: PRView| housekept(p, now)),
{
    let once = m.map_values(|p: PRView| housekept(p, now));
    let twice = once.map_values(|p: PRView| housekept(p, now));
    assert(twice =~= once);
}

/// With exactly one claimable request, a claim finds it, and once it is
/// claimed (by anyone, at any time) a second claim finds nothing.
pub proof fn lemma_no_double_claim(
    m: Map<u64, PRView>,
    category: Option<Category>,
    terms: Seq<Seq<u8>>,
    id: u64,
    by: Seq<char>,
    now: i64,
)
    requires
        m.contains_key(id),
        eligible(m[id], category, terms, true),
        forall|k: u64|
            #[trigger] m.contains_key(k) && eligible(m[k], category, terms, true) ==> k == id,
    ensures
        !none_claimable(m, category, terms),
        none_claimable(m.insert(id, claimed(m[id], by, now)), category, terms),
{
    let after = m.insert(id, claimed(m[id], by, now));
    assert forall|k: u64| #[trigger] after.contains_key(k) implies !eligible(
        after[k],
        category,
        terms,
        true,
    ) by {
        if k != id {
            assert(m.contains_key(k));
        }
    }
}

/// The entry that the last snapshot for `k` in `rows` left, if any.
pub open spec fn last_row(rows: Seq<PRView>, k: u64) -> Option<PRView>
    decreases rows.len(),
{
    if rows.len() == 0 {
        None
    } else if rows.last().id == k {
        Some(rows.last())
    } else {
        last_row(rows.drop_last(), k)
    }
}

/// What `m` holds for `k`.
pub open spec fn entry(m: Map<u64, PRView>, k: u64) -> Option<PRView> {
    if m.contains_key(k) {
        Some(m[k])
    } else {
        None
    }
}

/// Snapshot `x` with the category and lease of `prev`.
pub open spec fn kept(prev: Option<PRView>, x: PRView) -> PRView {
    match prev {
        Some(p) => PRView { category: p.category, reservation: p.reservation, ..x },
        None => PRView { category: None, reservation: None, ..x },
    }
}

proof fn lemma_upsert_all_entry(m: Map<u64, PRView>, rows: Seq<PRView>, k: u64)
    ensures
        upsert_all(m, rows).contains_key(k) == (m.contains_key(k) || last_row(rows, k) is Some),
        last_row(rows, k) matches Some(x) ==> upsert_all(m, rows)[k] == kept(entry(m, k), x),
        last_row(rows, k) is None && m.contains_key(k) ==> upsert_all(m, rows)[k] == m[k],
    decreases rows.len(),
{
    if rows.len() > 0 {
        lemma_upsert_all_entry(m, rows.drop_last(), k);
    }
}

/// Applying a sync batch a second time changes nothing: upserts rewrite the
/// same snapshots over the same categories and leases, and deletions find
/// nothing left to delete.
pub proof fn lemma_sync_idempotent(m: Map<u64, PRView>, rows: Seq<PRView>, deletions: Seq<u64>)
    ensures
        synced(synced(m, rows, deletions), rows, deletions) == synced(m, rows, deletions),
{
    let m1 = synced(m, rows, deletions);
    let m2 = synced(m1, rows, deletions);
    assert forall|k: u64| #[trigger] m2.contains_key(k) == m1.contains_key(k) by {
        lemma_upsert_all_entry(m, rows, k);
        lemma_upsert_all_entry(m1, rows, k);
    }
    assert forall|k: u64| #[trigger] m2.contains_key(k) implies m2[k] == m1[k] by {
        lemma_upsert_all_entry(m, rows, k);
        lemma_upsert_all_entry(m1, rows, k);
    }
    assert(m2 =~= m1);
}

proof fn lemma_steps_after_cursor(p: PlanView, t: i64, items: Seq<UpstreamView>)
    requires
        p.cursor == Some(t),
        forall|j: int| 0 <= j < p.upserts.len() ==> (#[trigger] p.upserts[j]).last_updated >= t,
    ensures
        steps(p, items).cursor == Some(t),
        forall|j: int|
            0 <= j < steps(p, items).upserts.len() ==> (#[trigger] steps(
                p,
                items,
            ).upserts[j]).last_updated >= t,
    decreases items.len(),
{
    if items.len() > 0 {
        lemma_steps_after_cursor(p, t, items.drop_last());
        let q = steps(p, items.drop_last());
        let r = step(q, items.last());
        assert forall|j: int| 0 <= j < r.upserts.len() implies (#[trigger] r.upserts[j]).last_updated
            >= t by {
            if j < q.upserts.len() {
                assert(r.upserts[j] == q.upserts[j]);
            }
        }
    }
}

proof fn lemma_last_row_from(rows: Seq<PRView>, k: u64)
    requires
        exists|j: int| 0 <= j < rows.len() && rows[j].id == k,
    ensures
        last_row(rows, k) matches Some(x) && exists|j: int| 0 <= j < rows.len() && rows[j] == x,
    decreases rows.len(),
{
    if rows.last().id != k {
        let j = choose|j: int| 0 <= j < rows.len() && rows[j].id == k;
        assert(rows.drop_last()[j] == rows[j]);
        lemma_last_row_from(rows.drop_last(), k);
        let x = last_row(rows.drop_last(), k)->Some_0;
        let i = choose|i: int| 0 <= i < rows.drop_last().len() && rows.drop_last()[i] == x;
        assert(rows[i] == x);
    } else {
        assert(rows[rows.len() - 1] == rows.last());
    }
}

proof fn lemma_last_row_is_row(rows: Seq<PRView>, k: u64)
    requires
        last_row(rows, k) is Some,
    ensures
        exists|j: int| 0 <= j < rows.len() && #[trigger] rows[j].id == k,
    decreases rows.len(),
{
    if rows.last().id == k {
        assert(rows[rows.len() - 1].id == k);
    } else {
        lemma_last_row_is_row(rows.drop_last(), k);
        let j = choose|j: int| 0 <= j < rows.drop_last().len() && #[trigger] rows.drop_last()[j].id == k;
        assert(rows[j] == rows.drop_last()[j]);
    }
}

/// A sync run that starts from cursor `t` (the latest update stored) leaves
/// a request updated at `t` or later, so the latest stored update does not
/// move back. Left out is the one case where it does: the run deletes every
/// request stored at `t` and every request it upserted.
pub proof fn lemma_sync_keeps_cursor(m: Map<u64, PRView>, t: i64, items: Seq<UpstreamView>)
    requires
        cursor_of(m, Some(t)),
        ({
            let p = steps(start(Some(t)), items);
            exists|k: u64|
                !p.deletions.contains(k) && ((m.contains_key(k) && m[k].last_updated == t) || exists|
                    j: int,
                | 0 <= j < p.upserts.len() && #[trigger] p.upserts[j].id == k)
        }),
    ensures
        ({
            let p = steps(start(Some(t)), items);
            let r = synced(m, p.upserts, p.deletions);
            exists|k: u64| #[trigger] r.contains_key(k) && r[k].last_updated >= t
        }),
{
    let p = steps(start(Some(t)), items);
    lemma_steps_after_cursor(start(Some(t)), t, items);
    let r = synced(m, p.upserts, p.deletions);
    let k = choose|k: u64|
        !p.deletions.contains(k) && ((m.contains_key(k) && m[k].last_updated == t) || exists|j: int|
            0 <= j < p.upserts.len() && #[trigger] p.upserts[j].id == k);
    lemma_upsert_all_entry(m, p.upserts, k);
    let u = upsert_all(m, p.upserts);
    assert(!p.deletions.to_set().contains(k));
    if exists|j: int| 0 <= j < p.upserts.len() && #[trigger] p.upserts[j].id == k {
        lemma_last_row_from(p.upserts, k);
        let x = last_row(p.upserts, k)->Some_0;
        let i = choose|i: int| 0 <= i < p.upserts.len() && p.upserts[i] == x;
        assert(p.upserts[i].last_updated >= t);
        assert(u[k] == kept(entry(m, k), x));
        assert(u.contains_key(k) && u[k].last_updated >= t);
    } else {
        assert(last_row(p.upserts, k) is None) by {
            if last_row(p.upserts, k) is Some {
                lemma_last_row_is_row(p.upserts, k);
            }
        }
        assert(u.contains_key(k) && u[k].last_updated >= t);
    }
    assert(r.contains_key(k) && r[k].last_updated >= t);
}

/// A run's plan before it has read anything.
pub open spec fn start(cursor: Option<i64>) -> PlanView {
    PlanView { cursor, upserts: Seq::empty(), deletions: Seq::empty(), done: false }
}

/// Entry `x` ends a run from `cursor`.
pub open spec fn stops(cursor: Option<i64>, x: UpstreamView) -> bool {
    !x.closed && behind_cursor(cursor, x)
}

/// Entry `x` is stored when a run reaches it.
pub open spec fn storable(x: UpstreamView) -> bool {
    !x.closed && x.author is Some && x.updated_at is Some
}

/// A run from `cursor` reaches entry `i` of `feed` and goes on past it.
pub open spec fn reached(cursor: Option<i64>, feed: Seq<UpstreamView>, i: int) -> bool {
    forall|k: int| 0 <= k <= i ==> !stops(cursor, #[trigger] feed[k])
}

pub open spec fn upsert_from(cursor: Option<i64>, feed: Seq<UpstreamView>, row: PRView) -> bool {
    exists|i: int|
        0 <= i < feed.len() && reached(cursor, feed, i) && storable(feed[i]) && row == row_of(
            #[trigger] feed[i],
        )
}

pub open spec fn delete_from(cursor: Option<i64>, feed: Seq<UpstreamView>, id: u64) -> bool {
    exists|i: int|
        0 <= i < feed.len() && reached(cursor, feed, i) && feed[i].closed && id == (#[trigger] feed[i]).id
}

proof fn lemma_steps_shape(c: Option<i64>, feed: Seq<UpstreamView>)
    ensures
        steps(start(c), feed).cursor == c,
        steps(start(c), feed).done <==> exists|k: int| 0 <= k < feed.len() && stops(c, #[trigger] feed[k]),
        forall|j: int|
            0 <= j < steps(start(c), feed).upserts.len() ==> upsert_from(
                c,
                feed,
                #[trigger] steps(start(c), feed).upserts[j],
            ),
        forall|j: int|
            0 <= j < steps(start(c), feed).deletions.len() ==> delete_from(
                c,
                feed,
                #[trigger] steps(start(c), feed).deletions[j],
            ),
        forall|i: int|
            0 <= i < feed.len() && #[trigger] reached(c, feed, i) ==> (feed[i].closed ==> steps(
                start(c),
                feed,
            ).deletions.contains(feed[i].id)) && (storable(feed[i]) ==> steps(
                start(c),
                feed,
            ).upserts.contains(row_of(feed[i]))),
    decreases feed.len(),
{
    if feed.len() > 0 {
        let f = feed.drop_last();
        let n = feed.len() - 1;
        let x = feed.last();
        assert(x == feed[n]);
        lemma_steps_shape(c, f);
        let q = steps(start(c), f);
        let p = steps(start(c), feed);
        assert(p == step(q, x));
        assert forall|i: int| 0 <= i < n implies #[trigger] reached(c, feed, i) == reached(c, f, i) by {
            if reached(c, f, i) {
                assert forall|k: int| 0 <= k <= i implies !stops(c, #[trigger] feed[k]) by {
                    assert(feed[k] == f[k]);
                }
            }
            if reached(c, feed, i) {
                assert forall|k: int| 0 <= k <= i implies !stops(c, #[trigger] f[k]) by {
                    assert(feed[k] == f[k]);
                }
            }
        }
        // the stops of `feed` are those of `f` and possibly `x`
        assert((exists|k: int| 0 <= k < feed.len() && stops(c, #[trigger] feed[k])) <==> ((exists|
            k: int,
        | 0 <= k < f.len() && stops(c, #[trigger] f[k])) || stops(c, x))) by {
            if exists|k: int| 0 <= k < feed.len() && stops(c, #[trigger] feed[k]) {
                let k = choose|k: int| 0 <= k < feed.len() && stops(c, #[trigger] feed[k]);
                if k < n {
                    assert(f[k] == feed[k]);
                }
            }
            if exists|k: int| 0 <= k < f.len() && stops(c, #[trigger] f[k]) {
                let k = choose|k: int| 0 <= k < f.len() && stops(c, #[trigger] f[k]);
                assert(f[k] == feed[k]);
            }
        }
        // what `f` left stays attributed to the same entries
        assert forall|r: PRView| upsert_from(c, f, r) implies upsert_from(c, feed, r) by {
            let i = choose|i: int|
                0 <= i < f.len() && reached(c, f, i) && storable(f[i]) && r == row_of(#[trigger] f[i]);
            assert(f[i] == feed[i]);
            assert(reached(c, feed, i));
        }
        assert forall|d: u64| delete_from(c, f, d) implies delete_from(c, feed, d) by {
            let i = choose|i: int|
                0 <= i < f.len() && reached(c, f, i) && f[i].closed && d == (#[trigger] f[i]).id;
            assert(f[i] == feed[i]);
            assert(reached(c, feed, i));
        }
        let reach_last = reached(c, feed, n);
        if reach_last {
            assert forall|k: int| 0 <= k < f.len() implies !stops(c, #[trigger] f[k]) by {
                assert(f[k] == feed[k]);
            }
            assert(!q.done);
        }
        if !q.done && !stops(c, x) {
            assert forall|k: int| 0 <= k <= n implies !stops(c, #[trigger] feed[k]) by {
                if k < n {
                    assert(f[k] == feed[k]);
                }
            }
            assert(reach_last);
        }
        if reach_last && x.closed {
            assert(delete_from(c, feed, x.id));
        }
        if reach_last && storable(x) {
            assert(upsert_from(c, feed, row_of(x)));
        }
        assert forall|j: int| 0 <= j < p.upserts.len() implies upsert_from(
            c,
            feed,
            #[trigger] p.upserts[j],
        ) by {
            if j < q.upserts.len() {
                assert(p.upserts[j] == q.upserts[j]);
            }
        }
        assert forall|j: int| 0 <= j < p.deletions.len() implies delete_from(
            c,
            feed,
            #[trigger] p.deletions[j],
        ) by {
            if j < q.deletions.len() {
                assert(p.deletions[j] == q.deletions[j]);
            }
        }
        assert forall|i: int| 0 <= i < feed.len() && #[trigger] reached(c, feed, i) implies (
        feed[i].closed ==> p.deletions.contains(feed[i].id)) && (storable(feed[i])
            ==> p.upserts.contains(row_of(feed[i]))) by {
            if i < n {
                assert(reached(c, f, i));
                assert(f[i] == feed[i]);
                if feed[i].closed {
                    let a = choose|a: int| 0 <= a < q.deletions.len() && q.deletions[a] == f[i].id;
                    assert(p.deletions[a] == q.deletions[a]);
                }
                if storable(feed[i]) {
                    let a = choose|a: int| 0 <= a < q.upserts.len() && q.upserts[a] == row_of(f[i]);
                    assert(p.upserts[a] == q.upserts[a]);
                }
            } else {
                if x.closed {
                    assert(p.deletions[p.deletions.len() - 1] == x.id);
                }
                if storable(x) {
                    assert(p.upserts[p.upserts.len() - 1] == row_of(x));
                }
            }
        }
    }
}

/// `c` is the cursor a run starts from on `m`: nothing when `m` is empty,
/// else the latest update stored.
pub open spec fn cursor_of(m: Map<u64, PRView>, c: Option<i64>) -> bool {
    match c {
        None => m.dom().is_empty(),
        Some(t) => (exists|k: u64| #[trigger] m.contains_key(k) && m[k].last_updated == t)
            && forall|k: u64| #[trigger] m.contains_key(k) ==> m[k].last_updated <= t,
    }
}

/// What a run from `c` reads of the listing: only open requests when it
/// starts from nothing, every request otherwise.
pub open spec fn feed_for(c: Option<i64>, listing: Seq<UpstreamView>) -> Seq<UpstreamView> {
    if c is None {
        listing.filter(|x: UpstreamView| !x.closed)
    } else {
        listing
    }
}

/// The store after a whole sync run from cursor `c` over `listing`.
pub open spec fn sync_run(m: Map<u64, PRView>, c: Option<i64>, listing: Seq<UpstreamView>) -> Map<
    u64,
    PRView,
> {
    let p = steps(start(c), feed_for(c, listing));
    synced(m, p.upserts, p.deletions)
}

/// The listing reports each request once (entries that share an id are the
/// same entry): it did not change while it was read.
pub open spec fn listing_consistent(listing: Seq<UpstreamView>) -> bool {
    forall|i: int, j: int|
        0 <= i < listing.len() && 0 <= j < listing.len() && (#[trigger] listing[i]).id == (
        #[trigger] listing[j]).id ==> listing[i] == listing[j]
}

proof fn lemma_upsert_all_unchanged(m: Map<u64, PRView>, rows: Seq<PRView>)
    requires
        forall|j: int|
            0 <= j < rows.len() ==> m.contains_key((#[trigger] rows[j]).id) && m[rows[j].id] == kept(
                entry(m, rows[j].id),
                rows[j],
            ),
    ensures
        upsert_all(m, rows) == m,
    decreases rows.len(),
{
    if rows.len() > 0 {
        let r = rows.drop_last();
        assert forall|j: int| 0 <= j < r.len() implies m.contains_key((#[trigger] r[j]).id) && m[r[j].id]
            == kept(entry(m, r[j].id), r[j]) by {
            assert(r[j] == rows[j]);
        }
        lemma_upsert_all_unchanged(m, r);
        let x = rows.last();
        assert(x == rows[rows.len() - 1]);
        assert(upserted(m, x) =~= m);
    }
}

proof fn lemma_last_row_member(rows: Seq<PRView>, k: u64)
    requires
        last_row(rows, k) is Some,
    ensures
        rows.contains(last_row(rows, k)->Some_0),
        last_row(rows, k)->Some_0.id == k,
    decreases rows.len(),
{
    if rows.last().id == k {
        assert(rows[rows.len() - 1] == rows.last());
    } else {
        lemma_last_row_member(rows.drop_last(), k);
        let x = last_row(rows.drop_last(), k)->Some_0;
        let i = choose|i: int| 0 <= i < rows.drop_last().len() && rows.drop_last()[i] == x;
        assert(rows[i] == x);
    }
}

proof fn lemma_contains_last_row(rows: Seq<PRView>, x: PRView)
    requires
        rows.contains(x),
    ensures
        last_row(rows, x.id) is Some,
    decreases rows.len(),
{
    if rows.last().id != x.id {
        let i = choose|i: int| 0 <= i < rows.len() && rows[i] == x;
        assert(i < rows.len() - 1);
        assert(rows.drop_last()[i] == x);
        lemma_contains_last_row(rows.drop_last(), x);
    }
}

/// Two sync runs over the same listing, each from the store's cursor: the
/// second leaves the store as the first left it. Left out are a listing that
/// changed while it was read, and the case where the first run moved the
/// cursor back (it deleted every request at the cursor and stored none),
/// for then the second run reads entries the first never reached.
pub proof fn lemma_second_sync_changes_nothing(
    m: Map<u64, PRView>,
    listing: Seq<UpstreamView>,
    c1: Option<i64>,
    c2: Option<i64>,
)
    requires
        listing_consistent(listing),
        cursor_of(m, c1),
        cursor_of(sync_run(m, c1, listing), c2),
        c1 is Some ==> c2 is Some && c2->Some_0 >= c1->Some_0,
    ensures
        sync_run(sync_run(m, c1, listing), c2, listing) == sync_run(m, c1, listing),
{
    broadcast use vstd::seq_lib::group_filter_ensures;

    let pred = |x: UpstreamView| !x.closed;
    let feed1 = feed_for(c1, listing);
    let feed2 = feed_for(c2, listing);
    let p1 = steps(start(c1), feed1);
    let p2 = steps(start(c2), feed2);
    let m1 = sync_run(m, c1, listing);
    lemma_steps_shape(c1, feed1);
    lemma_steps_shape(c2, feed2);
    // entries of either feed are entries of the listing
    assert forall|y: UpstreamView| #[trigger] feed1.contains(y) implies listing.contains(y) by {
        if c1 is None {
            listing.lemma_filter_contains_rev(pred, y);
        }
    }
    assert forall|y: UpstreamView| #[trigger] feed2.contains(y) implies listing.contains(y) by {
        if c2 is None {
            listing.lemma_filter_contains_rev(pred, y);
        }
    }
    // every row that run one upserted is the snapshot of the one entry with its id
    assert forall|r: PRView, y: UpstreamView|
        #[trigger] p1.upserts.contains(r) && #[trigger] listing.contains(y) && r.id == y.id implies r == row_of(y)
        && storable(y) by {
        let j = choose|j: int| 0 <= j < p1.upserts.len() && p1.upserts[j] == r;
        assert(upsert_from(c1, feed1, p1.upserts[j]));
        let i = choose|i: int|
            0 <= i < feed1.len() && reached(c1, feed1, i) && storable(feed1[i]) && r == row_of(
                #[trigger] feed1[i],
            );
        assert(feed1.contains(feed1[i]));
        let a = choose|a: int| 0 <= a < listing.len() && listing[a] == feed1[i];
        let b = choose|b: int| 0 <= b < listing.len() && listing[b] == y;
        assert(listing[a].id == listing[b].id);
    }
    // no id that run one deleted belongs to an open entry
    assert forall|d: u64, y: UpstreamView|
        #[trigger] p1.deletions.contains(d) && #[trigger] listing.contains(y) && y.id == d implies y.closed by {
        let j = choose|j: int| 0 <= j < p1.deletions.len() && p1.deletions[j] == d;
        assert(delete_from(c1, feed1, p1.deletions[j]));
        let i = choose|i: int|
            0 <= i < feed1.len() && reached(c1, feed1, i) && feed1[i].closed && d == (
            #[trigger] feed1[i]).id;
        assert(feed1.contains(feed1[i]));
        let a = choose|a: int| 0 <= a < listing.len() && listing[a] == feed1[i];
        let b = choose|b: int| 0 <= b < listing.len() && listing[b] == y;
        assert(listing[a].id == listing[b].id);
    }
    // what run two upserts is stored already, unchanged by a second write
    assert forall|j: int| 0 <= j < p2.upserts.len() implies m1.contains_key(
        (#[trigger] p2.upserts[j]).id,
    ) && m1[p2.upserts[j].id] == kept(entry(m1, p2.upserts[j].id), p2.upserts[j]) by {
        assert(upsert_from(c2, feed2, p2.upserts[j]));
        let i = choose|i: int|
            0 <= i < feed2.len() && reached(c2, feed2, i) && storable(feed2[i]) && p2.upserts[j]
                == row_of(#[trigger] feed2[i]);
        let x = feed2[i];
        assert(feed2.contains(x));
        assert(listing.contains(x));
        // run one reached `x` too
        if c1 is Some {
            assert(feed1 == listing && feed2 == listing);
            assert forall|k: int| 0 <= k <= i implies !stops(c1, #[trigger] feed1[k]) by {
                assert(!stops(c2, feed2[k]));
            }
            assert(reached(c1, feed1, i));
        } else {
            let b = choose|b: int| 0 <= b < listing.len() && listing[b] == x;
            listing.lemma_filter_contains(pred, b);
            let i1 = choose|i1: int| 0 <= i1 < feed1.len() && feed1[i1] == x;
            assert(reached(c1, feed1, i1));
            assert(p1.upserts.contains(row_of(feed1[i1])));
        }
        assert(p1.upserts.contains(row_of(x)));
        let r = row_of(x);
        lemma_contains_last_row(p1.upserts, r);
        lemma_last_row_member(p1.upserts, r.id);
        let lr = last_row(p1.upserts, r.id)->Some_0;
        assert(lr == row_of(x));
        lemma_upsert_all_entry(m, p1.upserts, r.id);
        assert(!p1.deletions.contains(r.id));
        assert(!p1.deletions.to_set().contains(r.id));
    }
    // what run two deletes is gone already
    assert forall|j: int| 0 <= j < p2.deletions.len() implies !m1.contains_key(
        #[trigger] p2.deletions[j],
    ) by {
        assert(delete_from(c2, feed2, p2.deletions[j]));
        let i = choose|i: int|
            0 <= i < feed2.len() && reached(c2, feed2, i) && feed2[i].closed && p2.deletions[j] == (
            #[trigger] feed2[i]).id;
        let y = feed2[i];
        assert(feed2.contains(y));
        assert(listing.contains(y));
        let d = y.id;
        if c1 is Some {
            assert(feed1 == listing && feed2 == listing);
            assert forall|k: int| 0 <= k <= i implies !stops(c1, #[trigger] feed1[k]) by {
                assert(!stops(c2, feed2[k]));
            }
            assert(reached(c1, feed1, i));
            assert(p1.deletions.contains(d));
            assert(p1.deletions.to_set().contains(d));
        } else {
            assert(m.dom().is_empty());
            assert(!m.contains_key(d));
            lemma_upsert_all_entry(m, p1.upserts, d);
            if last_row(p1.upserts, d) is Some {
                lemma_last_row_member(p1.upserts, d);
                let lr = last_row(p1.upserts, d)->Some_0;
                assert(lr == row_of(y) && storable(y));
            }
        }
    }
    lemma_upsert_all_unchanged(m1, p2.upserts);
    assert(m1.remove_keys(p2.deletions.to_set()) =~= m1) by {
        assert forall|d: u64| p2.deletions.to_set().contains(d) implies !m1.contains_key(d) by {
            let j = choose|j: int| 0 <= j < p2.deletions.len() && p2.deletions[j] == d;
        }
    }
}

/// A first sync run into an empty store stores exactly the open requests of
/// the listing that have an author and an update time, each as its upstream
/// snapshot, with no category and no lease.
pub proof fn lemma_first_sync_stores_open_requests(listing: Seq<UpstreamView>)
    requires
        listing_consistent(listing),
    ensures
        forall|k: u64|
            #[trigger] sync_run(Map::empty(), None, listing).contains_key(k) <==> exists|i: int|
                0 <= i < listing.len() && listing[i].id == k && storable(listing[i]),
        forall|i: int|
            0 <= i < listing.len() && storable(#[trigger] listing[i]) ==> sync_run(
                Map::empty(),
                None,
                listing,
            )[listing[i].id] == row_of(listing[i]),
{
    broadcast use vstd::seq_lib::group_filter_ensures;

    let pred = |x: UpstreamView| !x.closed;
    let m = Map::<u64, PRView>::empty();
    let feed = feed_for(None, listing);
    let p = steps(start(None), feed);
    let r = sync_run(m, None, listing);
    lemma_steps_shape(None, feed);
    assert forall|y: UpstreamView| #[trigger] feed.contains(y) implies listing.contains(y) by {
        listing.lemma_filter_contains_rev(pred, y);
    }
    // no deletions: the feed holds open requests only
    assert forall|d: u64| !p.deletions.to_set().contains(d) by {
        if p.deletions.contains(d) {
            let j = choose|j: int| 0 <= j < p.deletions.len() && p.deletions[j] == d;
            assert(delete_from(None, feed, p.deletions[j]));
            let i = choose|i: int|
                0 <= i < feed.len() && reached(None, feed, i) && feed[i].closed && p.deletions[j] == (
                #[trigger] feed[i]).id;
            assert(pred(feed[i]));
        }
    }
    // every upserted row is the snapshot of the one entry with its id
    assert forall|u: PRView, y: UpstreamView|
        #[trigger] p.upserts.contains(u) && #[trigger] listing.contains(y) && u.id == y.id implies u
        == row_of(y) && storable(y) by {
        let j = choose|j: int| 0 <= j < p.upserts.len() && p.upserts[j] == u;
        assert(upsert_from(None, feed, p.upserts[j]));
        let i = choose|i: int|
            0 <= i < feed.len() && reached(None, feed, i) && storable(feed[i]) && u == row_of(
                #[trigger] feed[i],
            );
        assert(feed.contains(feed[i]));
        let a = choose|a: int| 0 <= a < listing.len() && listing[a] == feed[i];
        let b = choose|b: int| 0 <= b < listing.len() && listing[b] == y;
        assert(listing[a].id == listing[b].id);
    }
    assert forall|i: int| 0 <= i < listing.len() && storable(#[trigger] listing[i]) implies r.contains_key(
        listing[i].id,
    ) && r[listing[i].id] == row_of(listing[i]) by {
        let x = listing[i];
        listing.lemma_filter_contains(pred, i);
        let i1 = choose|i1: int| 0 <= i1 < feed.len() && feed[i1] == x;
        assert(reached(None, feed, i1));
        assert(p.upserts.contains(row_of(feed[i1])));
        let u = row_of(x);
        lemma_contains_last_row(p.upserts, u);
        lemma_last_row_member(p.upserts, u.id);
        assert(listing.contains(x));
        lemma_upsert_all_entry(m, p.upserts, u.id);
    }
    assert forall|k: u64|
        #[trigger] r.contains_key(k) implies exists|i: int|
            0 <= i < listing.len() && listing[i].id == k && storable(listing[i]) by {
        lemma_upsert_all_entry(m, p.upserts, k);
        lemma_last_row_member(p.upserts, k);
        let u = last_row(p.upserts, k)->Some_0;
        let j = choose|j: int| 0 <= j < p.upserts.len() && p.upserts[j] == u;
        assert(upsert_from(None, feed, p.upserts[j]));
        let i = choose|i: int|
            0 <= i < feed.len() && reached(None, feed, i) && storable(feed[i]) && u == row_of(
                #[trigger] feed[i],
            );
        assert(feed.contains(feed[i]));
        let a = choose|a: int| 0 <= a < listing.len() && listing[a] == feed[i];
        assert(listing[a].id == k);
    }
}

} // verus!
