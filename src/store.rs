use vstd::prelude::*;

use crate::categorize::recategorized;
use crate::filter::{construct_sql_filter, query_terms, valid_filter_query};
use crate::model::{AppError, Category, PRView, Reservation, ReservationView, PR};
use crate::select::{eligible, is_selection, key_of, precedes, same_category, select_rows};

verus! {

/// No two rows share an id.
pub open spec fn ids_unique(s: Seq<PR>) -> bool {
    forall|i: int, j: int|
        0 <= i < s.len() && 0 <= j < s.len() && i != j ==> #[trigger] s[i].id != #[trigger] s[j].id
}

/// The rows as a map from id to request.
pub open spec fn to_map(s: Seq<PR>) -> Map<u64, PRView>
    decreases s.len(),
{
    if s.len() == 0 {
        Map::empty()
    } else {
        to_map(s.drop_last()).insert(s.last().id, s.last()@)
    }
}

pub(crate) proof fn lemma_to_map(s: Seq<PR>)
    requires
        ids_unique(s),
    ensures
        forall|k: u64|
            to_map(s).contains_key(k) <==> exists|i: int| 0 <= i < s.len() && s[i].id == k,
        forall|i: int| 0 <= i < s.len() ==> to_map(s)[#[trigger] s[i].id] == s[i]@,
    decreases s.len(),
{
    if s.len() > 0 {
        let t = s.drop_last();
        assert(ids_unique(t)) by {
            assert forall|i: int, j: int|
                0 <= i < t.len() && 0 <= j < t.len() && i != j implies #[trigger] t[i].id
                != #[trigger] t[j].id by {
                assert(t[i] == s[i] && t[j] == s[j]);
            }
        }
        lemma_to_map(t);
        assert forall|k: u64|
            to_map(s).contains_key(k) <==> exists|i: int| 0 <= i < s.len() && s[i].id == k by {
            if to_map(s).contains_key(k) {
                if k == s.last().id {
                    assert(s[s.len() - 1].id == k);
                } else {
                    assert(to_map(t).contains_key(k));
                    let i = choose|i: int| 0 <= i < t.len() && t[i].id == k;
                    assert(t[i] == s[i]);
                    assert(s[i].id == k);
                }
            }
            if exists|i: int| 0 <= i < s.len() && s[i].id == k {
                let i = choose|i: int| 0 <= i < s.len() && s[i].id == k;
                if i < s.len() - 1 {
                    assert(t[i] == s[i]);
                    assert(t[i].id == k);
                }
            }
        }
        assert forall|i: int| 0 <= i < s.len() implies to_map(s)[#[trigger] s[i].id] == s[i]@ by {
            if i < s.len() - 1 {
                assert(t[i] == s[i]);
                assert(s[i].id != s[s.len() - 1].id);
            }
        }
    }
}

/// Rows whose ids agree index by index, the second obtained from the first by `f`.
proof fn lemma_to_map_pointwise(s: Seq<PR>, t: Seq<PR>, f: spec_fn(PRView) -> PRView)
    requires
        s.len() == t.len(),
        forall|j: int| 0 <= j < s.len() ==> (#[trigger] t[j]).id == s[j].id && t[j]@ == f(s[j]@),
    ensures
        to_map(t) == to_map(s).map_values(f),
    decreases s.len(),
{
    if s.len() > 0 {
        let s1 = s.drop_last();
        let t1 = t.drop_last();
        assert forall|j: int| 0 <= j < s1.len() implies (#[trigger] t1[j]).id == s1[j].id && t1[j]@
            == f(s1[j]@) by {
            assert(t1[j] == t[j] && s1[j] == s[j]);
        }
        lemma_to_map_pointwise(s1, t1, f);
        assert(t.last() == t[t.len() - 1]);
        assert(to_map(t) =~= to_map(s).map_values(f));
    }
}

/// Replacing the row at `i` by one with the same id replaces its entry.
proof fn lemma_to_map_update(s: Seq<PR>, i: int, x: PR)
    requires
        ids_unique(s),
        0 <= i < s.len(),
        x.id == s[i].id,
    ensures
        ids_unique(s.update(i, x)),
        to_map(s.update(i, x)) == to_map(s).insert(x.id, x@),
{
    let t = s.update(i, x);
    assert(ids_unique(t)) by {
        assert forall|a: int, b: int|
            0 <= a < t.len() && 0 <= b < t.len() && a != b implies #[trigger] t[a].id
            != #[trigger] t[b].id by {
            assert(s[a].id != s[b].id);
        }
    }
    lemma_to_map(s);
    lemma_to_map(t);
    assert forall|k: u64| #[trigger] to_map(t).contains_key(k) == to_map(s).insert(x.id, x@).contains_key(k)
        by {
        if to_map(t).contains_key(k) {
            let j = choose|j: int| 0 <= j < t.len() && t[j].id == k;
            assert(s[j].id == k);
        }
        if to_map(s).contains_key(k) {
            let j = choose|j: int| 0 <= j < s.len() && s[j].id == k;
            assert(t[j].id == k);
        }
        if k == x.id {
            assert(t[i].id == k);
        }
    }
    assert forall|k: u64| #[trigger] to_map(t).contains_key(k) implies to_map(t)[k] == to_map(
        s,
    ).insert(x.id, x@)[k] by {
        let j = choose|j: int| 0 <= j < t.len() && t[j].id == k;
        assert(to_map(t)[t[j].id] == t[j]@);
        if j != i {
            assert(to_map(s)[s[j].id] == s[j]@);
        }
    }
    assert(to_map(t) =~= to_map(s).insert(x.id, x@));
}

/// Dropping the row at `i` drops its entry.
proof fn lemma_to_map_remove(s: Seq<PR>, i: int)
    requires
        ids_unique(s),
        0 <= i < s.len(),
    ensures
        ids_unique(s.remove(i)),
        to_map(s.remove(i)) == to_map(s).remove(s[i].id),
{
    let t = s.remove(i);
    assert(ids_unique(t)) by {
        assert forall|a: int, b: int|
            0 <= a < t.len() && 0 <= b < t.len() && a != b implies #[trigger] t[a].id
            != #[trigger] t[b].id by {
            let a2 = if a < i { a } else { a + 1 };
            let b2 = if b < i { b } else { b + 1 };
            assert(t[a] == s[a2] && t[b] == s[b2]);
            assert(s[a2].id != s[b2].id);
        }
    }
    lemma_to_map(s);
    lemma_to_map(t);
    assert forall|k: u64| #[trigger] to_map(t).contains_key(k) == to_map(s).remove(s[i].id).contains_key(
        k,
    ) by {
        if to_map(t).contains_key(k) {
            let j = choose|j: int| 0 <= j < t.len() && t[j].id == k;
            let j2 = if j < i { j } else { j + 1 };
            assert(t[j] == s[j2]);
            assert(s[j2].id != s[i].id);
        }
        if to_map(s).contains_key(k) && k != s[i].id {
            let j = choose|j: int| 0 <= j < s.len() && s[j].id == k;
            if j < i {
                assert(t[j] == s[j]);
            } else {
                assert(t[j - 1] == s[j]);
            }
        }
    }
    assert forall|k: u64| #[trigger] to_map(t).contains_key(k) implies to_map(t)[k] == to_map(
        s,
    )[k] by {
        let j = choose|j: int| 0 <= j < t.len() && t[j].id == k;
        let j2 = if j < i { j } else { j + 1 };
        assert(t[j] == s[j2]);
        assert(to_map(t)[t[j].id] == t[j]@);
        assert(to_map(s)[s[j2].id] == s[j2]@);
    }
    assert(to_map(t) =~= to_map(s).remove(s[i].id));
}

/// How long a lease lasts without a refresh, in seconds.
pub const LEASE_SECONDS: i64 = 3600;

/// How far a bulk extension pushes every lease, in seconds (seven days).
pub const EXTENSION_SECONDS: i64 = 604800;

/// The lease has gone unrefreshed for longer than the lease time.
pub open spec fn lease_expired(r: Option<ReservationView>, now: i64) -> bool {
    match r {
        Some(l) => now - l.time > LEASE_SECONDS,
        None => false,
    }
}

/// A request after housekeeping: recategorized, and its lease dropped if
/// it expired.
pub open spec fn housekept(p: PRView, now: i64) -> PRView {
    PRView {
        category: recategorized(p.labels, p.draft, p.category),
        reservation: if lease_expired(p.reservation, now) {
            None
        } else {
            p.reservation
        },
        ..p
    }
}

/// A request whose lease, if any, now runs from `time`.
pub open spec fn lease_moved(p: PRView, time: i64) -> PRView {
    PRView {
        reservation: match p.reservation {
            Some(l) => Some(ReservationView { time, ..l }),
            None => None,
        },
        ..p
    }
}

/// A request claimed by `by` at `now`.
pub open spec fn claimed(p: PRView, by: Seq<char>, now: i64) -> PRView {
    PRView { reservation: Some(ReservationView { by, time: now }), ..p }
}

/// The urgency order applies unless merger-ready requests are listed.
pub open spec fn urgency_applies(category: Option<Category>, tweak_sort: bool) -> bool {
    tweak_sort && category != Some(Category::NeedsMerger)
}

/// What a claim takes: the eligible, unreserved request of `m` that was
/// updated least recently (ties by id).
pub open spec fn claimable_first(
    m: Map<u64, PRView>,
    category: Option<Category>,
    terms: Seq<Seq<u8>>,
    id: u64,
) -> bool {
    &&& m.contains_key(id)
    &&& eligible(m[id], category, terms, true)
    &&& forall|k: u64|
        #[trigger] m.contains_key(k) && eligible(m[k], category, terms, true) && k != id
            ==> precedes(key_of(m[id]), key_of(m[k]), false)
}

/// No request of `m` can be claimed.
pub open spec fn none_claimable(
    m: Map<u64, PRView>,
    category: Option<Category>,
    terms: Seq<Seq<u8>>,
) -> bool {
    forall|k: u64| #[trigger] m.contains_key(k) ==> !eligible(m[k], category, terms, true)
}

/// A fresh upstream snapshot `x` written over what `m` holds for its id:
/// category and lease are kept, an unknown id starts with neither.
pub open spec fn upserted(m: Map<u64, PRView>, x: PRView) -> Map<u64, PRView> {
    let kept = if m.contains_key(x.id) {
        PRView { category: m[x.id].category, reservation: m[x.id].reservation, ..x }
    } else {
        PRView { category: None, reservation: None, ..x }
    };
    m.insert(x.id, kept)
}

/// Every snapshot of `rows` upserted in turn.
pub open spec fn upsert_all(m: Map<u64, PRView>, rows: Seq<PRView>) -> Map<u64, PRView>
    decreases rows.len(),
{
    if rows.len() == 0 {
        m
    } else {
        upserted(upsert_all(m, rows.drop_last()), rows.last())
    }
}

/// The store after a sync batch: the upserts in order, then the deletions.
pub open spec fn synced(m: Map<u64, PRView>, rows: Seq<PRView>, deletions: Seq<u64>) -> Map<
    u64,
    PRView,
> {
    upsert_all(m, rows).remove_keys(deletions.to_set())
}

/// The abstract values of `rows`.
pub open spec fn views_of(rows: Seq<PR>) -> Seq<PRView> {
    rows.map_values(|p: PR| p@)
}

/// The store: every pull request known locally, at most one row per id.
pub struct DB {
    pulls: Vec<PR>,
}

impl View for DB {
    type V = Map<u64, PRView>;

    closed spec fn view(&self) -> Map<u64, PRView> {
        to_map(self.pulls@)
    }
}

impl DB {
    /// Well-formedness: ids are unique.
    pub closed spec fn wf(&self) -> bool {
        ids_unique(self.pulls@)
    }

    /// The rows in storage order.
    pub closed spec fn rows(&self) -> Seq<PR> {
        self.pulls@
    }

    /// An empty store.
    pub fn new() -> (r: DB)
        ensures
            r.wf(),
            r@ == Map::<u64, PRView>::empty(),
    {
        assert(to_map(Seq::<PR>::empty()) == Map::<u64, PRView>::empty());
        DB { pulls: Vec::new() }
    }

    /// A store holding `rows`; rows that share an id are refused.
    pub fn from_rows(rows: Vec<PR>) -> (r: Option<DB>)
        ensures
            r is Some <==> ids_unique(rows@),
            r matches Some(db) ==> db.wf() && db.rows() == rows@ && db@ == to_map(rows@),
    {
        let n = rows.len();
        let mut i: usize = 0;
        while i < n
            invariant
                n == rows@.len(),
                i <= n,
                forall|a: int, b: int|
                    0 <= a < i && 0 <= b < n && a != b ==> #[trigger] rows@[a].id
                        != #[trigger] rows@[b].id,
            decreases n - i,
        {
            let mut j: usize = 0;
            while j < n
                invariant
                    n == rows@.len(),
                    i < n,
                    j <= n,
                    forall|b: int| 0 <= b < j && b != i ==> rows@[i as int].id != #[trigger] rows@[b].id,
                decreases n - j,
            {
                if j != i && rows[i].id == rows[j].id {
                    return None;
                }
                j = j + 1;
            }
            i = i + 1;
        }
        Some(DB { pulls: rows })
    }

    /// All rows, in storage order.
    pub fn pulls(&self) -> (r: &Vec<PR>)
        requires
            self.wf(),
        ensures
            r@ == self.rows(),
            ids_unique(r@),
            to_map(r@) == self@,
    {
        &self.pulls
    }

    /// Where the row with `id` is stored.
    fn position(&self, id: u64) -> (r: Option<usize>)
        requires
            self.wf(),
        ensures
            r matches Some(i) ==> i < self.rows().len() && self.rows()[i as int].id == id,
            r is None <==> !self@.contains_key(id),
    {
        proof {
            lemma_to_map(self.pulls@);
        }
        let mut i: usize = 0;
        while i < self.pulls.len()
            invariant
                self.wf(),
                i <= self.pulls@.len(),
                forall|j: int| 0 <= j < i ==> self.pulls@[j].id != id,
            decreases self.pulls.len() - i,
        {
            if self.pulls[i].id == id {
                proof {
                    lemma_to_map(self.pulls@);
                    assert(self.pulls@[i as int].id == id);
                }
                return Some(i);
            }
            i = i + 1;
        }
        None
    }

    /// The stored request with `id`.
    pub fn find(&self, id: u64) -> (r: Option<&PR>)
        requires
            self.wf(),
        ensures
            r matches Some(p) ==> self@.contains_key(id) && p@ == self@[id],
            r is None <==> !self@.contains_key(id),
    {
        match self.position(id) {
            Some(i) => {
                proof {
                    lemma_to_map(self.pulls@);
                    assert(self@[self.pulls@[i as int].id] == self.pulls@[i as int]@);
                }
                Some(&self.pulls[i])
            },
            None => None,
        }
    }

    /// The latest `last_updated` of all rows; `None` when the store is empty.
    pub fn last_update(&self) -> (r: Option<i64>)
        requires
            self.wf(),
        ensures
            r is None <==> self@.dom().is_empty(),
            r matches Some(t) ==> (exists|k: u64| #[trigger]
                self@.contains_key(k) && self@[k].last_updated == t) && forall|k: u64| #[trigger]
                self@.contains_key(k) ==> self@[k].last_updated <= t,
    {
        proof {
            lemma_to_map(self.pulls@);
        }
        let mut best: Option<i64> = None;
        let mut i: usize = 0;
        while i < self.pulls.len()
            invariant
                i <= self.pulls@.len(),
                best is None <==> i == 0,
                best matches Some(t) ==> (exists|j: int| 0 <= j < i && self.pulls@[j].last_updated
                    == t) && forall|j: int| 0 <= j < i ==> self.pulls@[j].last_updated <= t,
            decreases self.pulls.len() - i,
        {
            let t = self.pulls[i].last_updated;
            match best {
                Some(b) => {
                    if t > b {
                        best = Some(t);
                    }
                },
                None => {
                    best = Some(t);
                },
            }
            i = i + 1;
        }
        proof {
            if self.pulls@.len() > 0 {
                assert(self@.contains_key(self.pulls@[0].id));
            } else {
                assert(self@.dom() =~= Set::<u64>::empty());
            }
            if best is Some {
                let t = best->Some_0;
                let j = choose|j: int| 0 <= j < self.pulls@.len() && self.pulls@[j].last_updated == t;
                assert(self@.contains_key(self.pulls@[j].id));
                assert forall|k: u64| #[trigger] self@.contains_key(k) implies self@[k].last_updated
                    <= t by {
                    let j2 = choose|j2: int| 0 <= j2 < self.pulls@.len() && self.pulls@[j2].id == k;
                    assert(self@[self.pulls@[j2].id] == self.pulls@[j2]@);
                }
            }
        }
        best
    }

    /// The requests of `category` whose payload holds every term of
    /// `filter_query`, optionally only unreserved ones, the `limit` least
    /// recently updated; with `tweak_sort` (ignored for merger-ready
    /// requests) that page is reordered by approval score first.
    pub fn get_pulls(
        &self,
        category: Option<Category>,
        filter_query: &str,
        only_not_reserved: bool,
        tweak_sort: bool,
        limit: usize,
    ) -> (r: Result<Vec<u64>, AppError>)
        requires
            self.wf(),
        ensures
            r is Err <==> !valid_filter_query(filter_query@),
            r is Err ==> r == Err::<Vec<u64>, AppError>(AppError::InvalidInput),
            r matches Ok(ids) ==> is_selection(
                self@,
                category,
                query_terms(filter_query@),
                only_not_reserved,
                urgency_applies(category, tweak_sort),
                limit as int,
                ids@,
            ),
    {
        let filter = match construct_sql_filter(filter_query) {
            Ok(f) => f,
            Err(e) => {
                return Err(e);
            },
        };
        let urgent = tweak_sort && !matches!(category, Some(Category::NeedsMerger));
        Ok(select_rows(&self.pulls, category, &filter, only_not_reserved, urgent, limit))
    }

    /// Claims for `requester` the unreserved request of `category` passing
    /// `filter_query` that was updated least recently, leasing it from `now`.
    /// `None` when there is none; the store is then unchanged.
    pub fn reserve_pr(
        &mut self,
        category: Option<Category>,
        filter_query: &str,
        requester: String,
        now: i64,
    ) -> (r: Result<Option<u64>, AppError>)
        requires
            old(self).wf(),
        ensures
            final(self).wf(),
            r is Err <==> !valid_filter_query(filter_query@),
            r is Err ==> r == Err::<Option<u64>, AppError>(AppError::InvalidInput),
            r matches Ok(None) ==> none_claimable(old(self)@, category, query_terms(filter_query@)),
            r matches Ok(Some(id)) ==> claimable_first(
                old(self)@,
                category,
                query_terms(filter_query@),
                id,
            ) && final(self)@ == old(self)@.insert(id, claimed(old(self)@[id], requester@, now)),
            !(r matches Ok(Some(_))) ==> final(self)@ == old(self)@,
    {
        let ghost terms = query_terms(filter_query@);
        let ids = match self.get_pulls(category, filter_query, true, true, 1) {
            Ok(ids) => ids,
            Err(e) => {
                return Err(e);
            },
        };
        if ids.len() == 0 {
            assert forall|k: u64| #[trigger] self@.contains_key(k) implies !eligible(
                self@[k],
                category,
                terms,
                true,
            ) by {
                if eligible(self@[k], category, terms, true) {
                    assert(!ids@.contains(k));
                }
            }
            return Ok(None);
        }
        let id = ids[0];
        assert(ids@[0] == id);
        assert forall|k: u64|
            #[trigger] self@.contains_key(k) && eligible(self@[k], category, terms, true) && k
                != id implies precedes(key_of(self@[id]), key_of(self@[k]), false) by {
            if ids@.contains(k) {
                let a = choose|a: int| 0 <= a < ids@.len() && ids@[a] == k;
                assert(a == 0);
            }
        }
        match self.position(id) {
            Some(i) => {
                let ghost before = self.pulls@;
                self.pulls[i].reservation = Some(Reservation { by: requester, time: now });
                proof {
                    lemma_to_map(before);
                    assert(self.pulls@ == before.update(i as int, self.pulls@[i as int]));
                    lemma_to_map_update(before, i as int, self.pulls@[i as int]);
                    assert(self.pulls@[i as int]@ == claimed(to_map(before)[id], requester@, now));
                }
                Ok(Some(id))
            },
            None => {
                // the selection only lists stored ids
                Ok(None)
            },
        }
    }

    /// Recategorizes every request and drops every lease that has gone
    /// longer than the lease time without refresh at `now`. Returns the ids whose
    /// category changed and the ids whose lease was dropped.
    pub fn housekeep_prs(&mut self, now: i64) -> (r: (Vec<u64>, Vec<u64>))
        requires
            old(self).wf(),
        ensures
            final(self).wf(),
            final(self)@ == old(self)@.map_values(|p: PRView| housekept(p, now)),
            r.0@.no_duplicates(),
            r.1@.no_duplicates(),
            forall|id: u64|
                r.0@.contains(id) <==> old(self)@.contains_key(id) && recategorized(
                    old(self)@[id].labels,
                    old(self)@[id].draft,
                    old(self)@[id].category,
                ) != old(self)@[id].category,
            forall|id: u64|
                r.1@.contains(id) <==> old(self)@.contains_key(id) && lease_expired(
                    old(self)@[id].reservation,
                    now,
                ),
    {
        let ghost orig = self.pulls@;
        let mut changed: Vec<u64> = Vec::new();
        let mut expired: Vec<u64> = Vec::new();
        let n = self.pulls.len();
        let mut i: usize = 0;
        while i < n
            invariant
                ids_unique(orig),
                n == orig.len(),
                self.pulls@.len() == n,
                i <= n,
                forall|j: int| 0 <= j < n ==> (#[trigger] self.pulls@[j]).id == orig[j].id,
                forall|j: int| 0 <= j < i ==> (#[trigger] self.pulls@[j])@ == housekept(orig[j]@, now),
                forall|j: int| i <= j < n ==> #[trigger] self.pulls@[j] == orig[j],
                changed@.no_duplicates(),
                expired@.no_duplicates(),
                forall|id: u64|
                    changed@.contains(id) <==> exists|j: int|
                        0 <= j < i && orig[j].id == id && #[trigger] recategorized(
                            orig[j]@.labels,
                            orig[j]@.draft,
                            orig[j]@.category,
                        ) != orig[j]@.category,
                forall|id: u64|
                    expired@.contains(id) <==> exists|j: int|
                        0 <= j < i && orig[j].id == id && #[trigger] lease_expired(
                            orig[j]@.reservation,
                            now,
                        ),
            decreases n - i,
        {
            let next = self.pulls[i].next_category();
            let cur = self.pulls[i].category;
            let id = self.pulls[i].id;
            let ghost oc = changed@;
            let ghost oe = expired@;
            assert forall|x: u64| oc.contains(x) || oe.contains(x) implies x != id by {
                if oc.contains(x) {
                    let j = choose|j: int|
                        0 <= j < i && orig[j].id == x && #[trigger] recategorized(
                            orig[j]@.labels,
                            orig[j]@.draft,
                            orig[j]@.category,
                        ) != orig[j]@.category;
                    assert(orig[j].id != orig[i as int].id);
                } else {
                    let j = choose|j: int|
                        0 <= j < i && orig[j].id == x && #[trigger] lease_expired(
                            orig[j]@.reservation,
                            now,
                        );
                    assert(orig[j].id != orig[i as int].id);
                }
            }
            if !same_category(next, cur) {
                self.pulls[i].category = next;
                changed.push(id);
                assert forall|a: int, b: int| 0 <= a < b < changed@.len() implies changed@[a] != changed@[b] by {
                    if b == changed@.len() - 1 {
                        assert(oc.contains(changed@[a]));
                    }
                }
            }
            let drop = match &self.pulls[i].reservation {
                Some(l) => (now as i128) - (l.time as i128) > LEASE_SECONDS as i128,
                None => false,
            };
            if drop {
                self.pulls[i].reservation = None;
                expired.push(id);
                assert forall|a: int, b: int| 0 <= a < b < expired@.len() implies expired@[a] != expired@[b] by {
                    if b == expired@.len() - 1 {
                        assert(oe.contains(expired@[a]));
                    }
                }
            }
            assert(self.pulls@[i as int]@ == housekept(orig[i as int]@, now));
            assert forall|x: u64| changed@.contains(x) <==> exists|j: int|
                0 <= j < i + 1 && orig[j].id == x && #[trigger] recategorized(
                    orig[j]@.labels,
                    orig[j]@.draft,
                    orig[j]@.category,
                ) != orig[j]@.category by {
                if changed@.contains(x) && !oc.contains(x) {
                    assert(x == id);
                }
                if x == id && recategorized(
                    orig[i as int]@.labels,
                    orig[i as int]@.draft,
                    orig[i as int]@.category,
                ) != orig[i as int]@.category {
                    assert(changed@.last() == x);
                    assert(changed@.contains(x));
                }
                if oc.contains(x) {
                    let a = choose|a: int| 0 <= a < oc.len() && oc[a] == x;
                    assert(changed@[a] == x);
                }
            }
            assert forall|x: u64| expired@.contains(x) <==> exists|j: int|
                0 <= j < i + 1 && orig[j].id == x && #[trigger] lease_expired(
                    orig[j]@.reservation,
                    now,
                ) by {
                if expired@.contains(x) && !oe.contains(x) {
                    assert(x == id);
                }
                if x == id && lease_expired(orig[i as int]@.reservation, now) {
                    assert(expired@.last() == x);
                    assert(expired@.contains(x));
                }
                if oe.contains(x) {
                    let a = choose|a: int| 0 <= a < oe.len() && oe[a] == x;
                    assert(expired@[a] == x);
                }
            }
            i = i + 1;
        }
        proof {
            lemma_to_map_pointwise(orig, self.pulls@, |p: PRView| housekept(p, now));
            assert(ids_unique(self.pulls@)) by {
                assert forall|a: int, b: int|
                    0 <= a < n && 0 <= b < n && a != b implies #[trigger] self.pulls@[a].id
                    != #[trigger] self.pulls@[b].id by {
                    assert(orig[a].id != orig[b].id);
                }
            }
            lemma_to_map(orig);
            assert forall|id: u64| changed@.contains(id) <==> to_map(orig).contains_key(id)
                && recategorized(
                to_map(orig)[id].labels,
                to_map(orig)[id].draft,
                to_map(orig)[id].category,
            ) != to_map(orig)[id].category by {
                if to_map(orig).contains_key(id) {
                    let j = choose|j: int| 0 <= j < orig.len() && orig[j].id == id;
                    assert(to_map(orig)[orig[j].id] == orig[j]@);
                }
                if changed@.contains(id) {
                    let j = choose|j: int|
                        0 <= j < n && orig[j].id == id && #[trigger] recategorized(
                            orig[j]@.labels,
                            orig[j]@.draft,
                            orig[j]@.category,
                        ) != orig[j]@.category;
                    assert(to_map(orig)[orig[j].id] == orig[j]@);
                }
            }
            assert forall|id: u64| expired@.contains(id) <==> to_map(orig).contains_key(id)
                && lease_expired(to_map(orig)[id].reservation, now) by {
                if to_map(orig).contains_key(id) {
                    let j = choose|j: int| 0 <= j < orig.len() && orig[j].id == id;
                    assert(to_map(orig)[orig[j].id] == orig[j]@);
                }
                if expired@.contains(id) {
                    let j = choose|j: int|
                        0 <= j < n && orig[j].id == id && #[trigger] lease_expired(
                            orig[j]@.reservation,
                            now,
                        );
                    assert(to_map(orig)[orig[j].id] == orig[j]@);
                }
            }
        }
        (changed, expired)
    }

    /// Moves every lease to run from seven days after `now`; returns the ids
    /// of the leases moved.
    pub fn extend_reservations(&mut self, now: i64) -> (r: Vec<u64>)
        requires
            old(self).wf(),
            now <= i64::MAX - EXTENSION_SECONDS,
        ensures
            final(self).wf(),
            final(self)@ == old(self)@.map_values(
                |p: PRView| lease_moved(p, (now + EXTENSION_SECONDS) as i64),
            ),
            r@.no_duplicates(),
            forall|id: u64|
                r@.contains(id) <==> old(self)@.contains_key(id) && old(self)@[id].reservation is Some,
    {
        let until = now + EXTENSION_SECONDS;
        let ghost orig = self.pulls@;
        let mut moved: Vec<u64> = Vec::new();
        let n = self.pulls.len();
        let mut i: usize = 0;
        while i < n
            invariant
                ids_unique(orig),
                n == orig.len(),
                self.pulls@.len() == n,
                i <= n,
                forall|j: int| 0 <= j < n ==> (#[trigger] self.pulls@[j]).id == orig[j].id,
                forall|j: int| 0 <= j < i ==> (#[trigger] self.pulls@[j])@ == lease_moved(orig[j]@, until),
                forall|j: int| i <= j < n ==> #[trigger] self.pulls@[j] == orig[j],
                moved@.no_duplicates(),
                forall|id: u64|
                    moved@.contains(id) <==> exists|j: int|
                        0 <= j < i && orig[j].id == id && (#[trigger] orig[j]@).reservation is Some,
            decreases n - i,
        {
            let id = self.pulls[i].id;
            let ghost om = moved@;
            if self.pulls[i].reservation.is_some() {
                match &mut self.pulls[i].reservation {
                    Some(l) => {
                        l.time = until;
                    },
                    None => {},
                }
                assert forall|x: u64| om.contains(x) implies x != id by {
                    let j = choose|j: int|
                        0 <= j < i && orig[j].id == x && (#[trigger] orig[j]@).reservation is Some;
                    assert(orig[j].id != orig[i as int].id);
                }
                moved.push(id);
                assert forall|a: int, b: int| 0 <= a < b < moved@.len() implies moved@[a] != moved@[b] by {
                    if b == moved@.len() - 1 {
                        assert(om.contains(moved@[a]));
                    }
                }
            }
            assert(self.pulls@[i as int]@ == lease_moved(orig[i as int]@, until));
            assert forall|x: u64| moved@.contains(x) <==> exists|j: int|
                0 <= j < i + 1 && orig[j].id == x && (#[trigger] orig[j]@).reservation is Some by {
                if moved@.contains(x) && !om.contains(x) {
                    assert(x == id);
                }
                if x == id && orig[i as int]@.reservation is Some {
                    assert(moved@.last() == x);
                    assert(moved@.contains(x));
                }
                if om.contains(x) {
                    let a = choose|a: int| 0 <= a < om.len() && om[a] == x;
                    assert(moved@[a] == x);
                }
            }
            i = i + 1;
        }
        proof {
            lemma_to_map_pointwise(orig, self.pulls@, |p: PRView| lease_moved(p, until));
            assert(ids_unique(self.pulls@)) by {
                assert forall|a: int, b: int|
                    0 <= a < n && 0 <= b < n && a != b implies #[trigger] self.pulls@[a].id
                    != #[trigger] self.pulls@[b].id by {
                    assert(orig[a].id != orig[b].id);
                }
            }
            lemma_to_map(orig);
            assert forall|id: u64| moved@.contains(id) <==> to_map(orig).contains_key(id)
                && to_map(orig)[id].reservation is Some by {
                if to_map(orig).contains_key(id) {
                    let j = choose|j: int| 0 <= j < orig.len() && orig[j].id == id;
                    assert(to_map(orig)[orig[j].id] == orig[j]@);
                }
                if moved@.contains(id) {
                    let j = choose|j: int|
                        0 <= j < n && orig[j].id == id && (#[trigger] orig[j]@).reservation is Some;
                    assert(to_map(orig)[orig[j].id] == orig[j]@);
                }
            }
        }
        moved
    }

    /// Writes one upstream snapshot over the stored request with its id,
    /// keeping category and lease, or stores it as a new request.
    fn upsert(&mut self, row: PR)
        requires
            old(self).wf(),
        ensures
            final(self).wf(),
            final(self)@ == upserted(old(self)@, row@),
    {
        let mut row = row;
        let ghost x = row@;
        let ghost before = self.pulls@;
        proof {
            lemma_to_map(before);
        }
        match self.position(row.id) {
            Some(i) => {
                std::mem::swap(&mut self.pulls[i], &mut row);
                self.pulls[i].category = row.category;
                self.pulls[i].reservation = row.reservation;
                proof {
                    assert(self.pulls@ == before.update(i as int, self.pulls@[i as int]));
                    lemma_to_map_update(before, i as int, self.pulls@[i as int]);
                    assert(to_map(before)[before[i as int].id] == before[i as int]@);
                    assert(self.pulls@[i as int]@ == PRView {
                        category: to_map(before)[x.id].category,
                        reservation: to_map(before)[x.id].reservation,
                        ..x
                    });
                }
            },
            None => {
                row.category = None;
                row.reservation = None;
                let ghost y = row;
                self.pulls.push(row);
                proof {
                    assert(self.pulls@ == before.push(y));
                    assert(self.pulls@.drop_last() == before);
                    assert(ids_unique(self.pulls@)) by {
                        assert forall|a: int, b: int|
                            0 <= a < self.pulls@.len() && 0 <= b < self.pulls@.len() && a != b implies #[trigger] self.pulls@[a].id
                            != #[trigger] self.pulls@[b].id by {
                            if a == before.len() {
                                assert(before[b].id != y.id);
                            } else if b == before.len() {
                                assert(before[a].id != y.id);
                            } else {
                                assert(before[a].id != before[b].id);
                            }
                        }
                    }
                }
            },
        }
    }

    /// Removes the request with `id`, and its lease with it.
    fn delete(&mut self, id: u64)
        requires
            old(self).wf(),
        ensures
            final(self).wf(),
            final(self)@ == old(self)@.remove(id),
    {
        let ghost before = self.pulls@;
        match self.position(id) {
            Some(i) => {
                self.pulls.remove(i);
                proof {
                    lemma_to_map_remove(before, i as int);
                }
            },
            None => {
                assert(to_map(before).remove(id) =~= to_map(before));
            },
        }
    }

    /// Applies one sync batch: each row of `rows` upserted in order (category
    /// and lease of a known id are kept), then each id of `deletions` removed.
    pub fn apply_sync(&mut self, rows: Vec<PR>, deletions: &Vec<u64>)
        requires
            old(self).wf(),
        ensures
            final(self).wf(),
            final(self)@ == synced(old(self)@, views_of(rows@), deletions@),
    {
        let ghost m0 = self@;
        let ghost all = views_of(rows@);
        let mut rows = rows;
        let n = rows.len();
        let mut k: usize = 0;
        while k < n
            invariant
                self.wf(),
                n == all.len(),
                k <= n,
                rows@.len() == n - k,
                views_of(rows@) == all.subrange(k as int, n as int),
                self@ == upsert_all(m0, all.subrange(0, k as int)),
            decreases n - k,
        {
            assert(views_of(rows@)[0] == rows@[0]@);
            assert(all.subrange(k as int, n as int)[0] == all[k as int]);
            let ghost prev = rows@;
            let row = rows.remove(0);
            assert(row@ == all[k as int]);
            assert forall|j: int| 0 <= j < rows@.len() implies views_of(rows@)[j] == all[k + 1 + j] by {
                assert(rows@[j] == prev[j + 1]);
                assert(views_of(prev)[j + 1] == prev[j + 1]@);
                assert(all.subrange(k as int, n as int)[j + 1] == all[k + 1 + j]);
            }
            self.upsert(row);
            assert(all.subrange(0, k + 1).drop_last() == all.subrange(0, k as int));
            assert(views_of(rows@) =~= all.subrange(k + 1, n as int));
            k = k + 1;
        }
        assert(all.subrange(0, n as int) == all);
        let ghost m1 = self@;
        let mut d: usize = 0;
        while d < deletions.len()
            invariant
                self.wf(),
                d <= deletions@.len(),
                self@ == m1.remove_keys(deletions@.subrange(0, d as int).to_set()),
            decreases deletions.len() - d,
        {
            let ghost before = self@;
            self.delete(deletions[d]);
            let ghost pre = deletions@.subrange(0, d as int);
            let ghost nxt = deletions@.subrange(0, d + 1);
            assert(nxt =~= pre.push(deletions@[d as int]));
            assert forall|x: u64| nxt.to_set().contains(x) <==> pre.to_set().insert(deletions@[d as int]).contains(x) by {
                if nxt.contains(x) {
                    let a = choose|a: int| 0 <= a < nxt.len() && nxt[a] == x;
                    if a < d {
                        assert(pre[a] == x);
                    }
                }
                if pre.contains(x) {
                    let a = choose|a: int| 0 <= a < pre.len() && pre[a] == x;
                    assert(nxt[a] == x);
                }
                if x == deletions@[d as int] {
                    assert(nxt[d as int] == x);
                }
            }
            assert(nxt.to_set() =~= pre.to_set().insert(deletions@[d as int]));
            assert(self@ =~= m1.remove_keys(deletions@.subrange(0, d + 1).to_set()));
            d = d + 1;
        }
        assert(deletions@.subrange(0, deletions@.len() as int) == deletions@);
    }

    /// How many requests of `category` pass `filter_query`, reserved or not.
    pub fn count_pulls(&self, category: Option<Category>, filter_query: &str) -> (r: Result<
        usize,
        AppError,
    >)
        requires
            self.wf(),
        ensures
            r is Err <==> !valid_filter_query(filter_query@),
            r is Err ==> r == Err::<usize, AppError>(AppError::InvalidInput),
            r matches Ok(n) ==> n == self@.dom().filter(
                |k: u64| eligible(self@[k], category, query_terms(filter_query@), false),
            ).len(),
    {
        let filter = match construct_sql_filter(filter_query) {
            Ok(f) => f,
            Err(e) => {
                return Err(e);
            },
        };
        let ghost terms = filter@;
        let ghost rows = self.pulls@;
        let ghost mut seen: Set<u64> = Set::empty();
        let n = self.pulls.len();
        let mut count: usize = 0;
        let mut i: usize = 0;
        while i < n
            invariant
                rows == self.pulls@,
                ids_unique(rows),
                n == rows.len(),
                i <= n,
                terms == filter@,
                seen.finite(),
                seen.len() == count,
                count <= i,
                forall|k: u64|
                    seen.contains(k) <==> exists|j: int|
                        0 <= j < i && rows[j].id == k && eligible(
                            #[trigger] rows[j]@,
                            category,
                            terms,
                            false,
                        ),
            decreases n - i,
        {
            let p = &self.pulls[i];
            let ghost before = seen;
            let fits = same_category(p.category, category) && filter.accepts(
                &p.payload,
            );
            assert(fits == eligible(rows[i as int]@, category, terms, false));
            if fits {
                proof {
                    assert(!seen.contains(rows[i as int].id)) by {
                        if seen.contains(rows[i as int].id) {
                            let j = choose|j: int|
                                0 <= j < i && rows[j].id == rows[i as int].id && eligible(
                                    #[trigger] rows[j]@,
                                    category,
                                    terms,
                                    false,
                                );
                        }
                    }
                    seen = seen.insert(rows[i as int].id);
                }
                count = count + 1;
            }
            assert forall|k: u64| seen.contains(k) <==> exists|j: int|
                0 <= j < i + 1 && rows[j].id == k && eligible(
                    #[trigger] rows[j]@,
                    category,
                    terms,
                    false,
                ) by {
                if before.contains(k) {
                    let j = choose|j: int|
                        0 <= j < i && rows[j].id == k && eligible(
                            #[trigger] rows[j]@,
                            category,
                            terms,
                            false,
                        );
                    assert(0 <= j < i + 1);
                }
                if exists|j: int|
                    0 <= j < i + 1 && rows[j].id == k && eligible(
                        #[trigger] rows[j]@,
                        category,
                        terms,
                        false,
                    ) {
                    let j = choose|j: int|
                        0 <= j < i + 1 && rows[j].id == k && eligible(
                            #[trigger] rows[j]@,
                            category,
                            terms,
                            false,
                        );
                    if j < i {
                        assert(before.contains(k));
                    } else {
                        assert(j == i);
                        assert(fits);
                    }
                }
                if seen.contains(k) && !before.contains(k) {
                    assert(k == rows[i as int].id && fits);
                }
            }
            i = i + 1;
        }
        proof {
            lemma_to_map(rows);
            let m = self@;
            let want = m.dom().filter(|k: u64| eligible(m[k], category, terms, false));
            assert forall|k: u64| seen.contains(k) <==> want.contains(k) by {
                if seen.contains(k) {
                    let j = choose|j: int|
                        0 <= j < n && rows[j].id == k && eligible(#[trigger] rows[j]@, category, terms, false);
                    assert(m[rows[j].id] == rows[j]@);
                }
                if want.contains(k) {
                    let j = choose|j: int| 0 <= j < rows.len() && rows[j].id == k;
                    assert(m[rows[j].id] == rows[j]@);
                }
            }
            assert(seen =~= want);
        }
        Ok(count)
    }
}

} // verus!
