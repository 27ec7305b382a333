use vstd::prelude::*;

use crate::categorize::{approval_rank, approval_score};
use crate::filter::{passes_filter, Filter};
use crate::model::{Category, PRView, PR};
use crate::store::{ids_unique, lemma_to_map, to_map};

verus! {

/// What orders requests for presentation: the approval score (used only by
/// the urgency order), then the last update, then the id.
#[derive(Clone, Copy, Debug)]
pub struct SortKey {
    pub score: u64,
    pub time: i64,
    pub id: u64,
}

/// `a` comes strictly before `b`: by update time then id, and with `urgent`
/// first by approval score.
pub open spec fn precedes(a: SortKey, b: SortKey, urgent: bool) -> bool {
    if urgent && a.score != b.score {
        a.score < b.score
    } else if a.time != b.time {
        a.time < b.time
    } else {
        a.id < b.id
    }
}

pub open spec fn sorted_by(v: Seq<SortKey>, urgent: bool) -> bool {
    forall|a: int, b: int| 0 <= a < b < v.len() ==> precedes(#[trigger] v[a], #[trigger] v[b], urgent)
}

/// The sort key of a request.
pub open spec fn key_of(p: PRView) -> SortKey {
    SortKey { score: approval_score(p.labels) as u64, time: p.last_updated, id: p.id }
}

/// A request can be listed: it is in `category`, its payload passes the
/// filter, and, when asked, nobody holds it.
pub open spec fn eligible(
    p: PRView,
    category: Option<Category>,
    terms: Seq<Seq<u8>>,
    only_unreserved: bool,
) -> bool {
    &&& p.category == category
    &&& passes_filter(p.payload, terms)
    &&& only_unreserved ==> p.reservation is None
}

/// `key` is the key of an eligible row of `pulls`.
pub open spec fn key_of_eligible_row(
    pulls: Seq<PR>,
    key: SortKey,
    category: Option<Category>,
    terms: Seq<Seq<u8>>,
    only_unreserved: bool,
) -> bool {
    exists|j: int|
        0 <= j < pulls.len() && key == key_of(pulls[j]@) && eligible(
            pulls[j]@,
            category,
            terms,
            only_unreserved,
        )
}

/// `r` lists the ids of eligible requests of `m`: the first `limit` of them
/// by last update (ties by id), ordered by `precedes` with `urgent`.
pub open spec fn is_selection(
    m: Map<u64, PRView>,
    category: Option<Category>,
    terms: Seq<Seq<u8>>,
    only_unreserved: bool,
    urgent: bool,
    limit: int,
    r: Seq<u64>,
) -> bool {
    &&& r.no_duplicates()
    &&& r.len() <= limit
    &&& forall|k: int|
        0 <= k < r.len() ==> m.contains_key(#[trigger] r[k]) && eligible(
            m[r[k]],
            category,
            terms,
            only_unreserved,
        )
    &&& forall|id: u64|
        #[trigger] m.contains_key(id) && eligible(m[id], category, terms, only_unreserved)
            && !r.contains(id) ==> r.len() == limit && forall|k: int|
            0 <= k < r.len() ==> precedes(key_of(m[#[trigger] r[k]]), key_of(m[id]), false)
    &&& forall|a: int, b: int|
        0 <= a < b < r.len() ==> precedes(
            key_of(m[#[trigger] r[a]]),
            key_of(m[#[trigger] r[b]]),
            urgent,
        )
}

fn precedes_exec(a: &SortKey, b: &SortKey, urgent: bool) -> (r: bool)
    ensures
        r == precedes(*a, *b, urgent),
{
    if urgent && a.score != b.score {
        a.score < b.score
    } else if a.time != b.time {
        a.time < b.time
    } else {
        a.id < b.id
    }
}

/// Inserts `k` into the sorted `v` where it belongs.
#[verifier::loop_isolation(false)]
fn insert_sorted(v: &mut Vec<SortKey>, k: SortKey, urgent: bool)
    requires
        sorted_by(old(v)@, urgent),
        forall|j: int| 0 <= j < old(v)@.len() ==> (#[trigger] old(v)@[j]).id != k.id,
    ensures
        sorted_by(final(v)@, urgent),
        final(v)@.len() == old(v)@.len() + 1,
        forall|x: SortKey| final(v)@.contains(x) <==> (old(v)@.contains(x) || x == k),
{
    let mut p: usize = 0;
    while p < v.len() && !precedes_exec(&k, &v[p], urgent)
        invariant
            v@ == old(v)@,
            p <= v@.len(),
            forall|q: int| 0 <= q < p ==> precedes(#[trigger] v@[q], k, urgent),
            forall|j: int| 0 <= j < v@.len() ==> (#[trigger] v@[j]).id != k.id,
        decreases v.len() - p,
    {
        assert(v@[p as int].id != k.id);
        p = p + 1;
    }
    let ghost before = v@;
    v.insert(p, k);
    assert(v@ == before.insert(p as int, k));
    assert forall|a: int, b: int| 0 <= a < b < v@.len() implies precedes(
        #[trigger] v@[a],
        #[trigger] v@[b],
        urgent,
    ) by {
        if b < p {
        } else if b == p {
        } else if a < p {
            assert(precedes(before[a], k, urgent));
            assert(precedes(k, before[p as int], urgent));
            if b - 1 > p {
                assert(precedes(before[p as int], before[b - 1], urgent));
            }
        } else if a == p {
            assert(precedes(k, before[p as int], urgent));
            if b - 1 > p {
                assert(precedes(before[p as int], before[b - 1], urgent));
            }
        } else {
            assert(precedes(before[a - 1], before[b - 1], urgent));
        }
    }
    assert forall|x: SortKey| v@.contains(x) <==> (before.contains(x) || x == k) by {
        if v@.contains(x) {
            let i = choose|i: int| 0 <= i < v@.len() && v@[i] == x;
            if i < p {
                assert(before[i] == x);
            } else if i > p {
                assert(before[i - 1] == x);
            }
        }
        if before.contains(x) {
            let i = choose|i: int| 0 <= i < before.len() && before[i] == x;
            if i < p {
                assert(v@[i] == x);
            } else {
                assert(v@[i + 1] == x);
            }
        }
        if x == k {
            assert(v@[p as int] == x);
        }
    }
    assert(before == old(v)@);
    assert(forall|x: SortKey| v@.contains(x) <==> (old(v)@.contains(x) || x == k));
}

pub(crate) fn same_category(a: Option<Category>, b: Option<Category>) -> (r: bool)
    ensures
        r == (a == b),
{
    match (a, b) {
        (None, None) => true,
        (Some(Category::AwaitingAuthor), Some(Category::AwaitingAuthor)) => true,
        (Some(Category::NeedsReviewer), Some(Category::NeedsReviewer)) => true,
        (Some(Category::NeedsMerger), Some(Category::NeedsMerger)) => true,
        _ => false,
    }
}

/// The ids of the eligible rows, the first `limit` by last update, in the
/// order that `urgent` asks for.
#[verifier::loop_isolation(false)]
pub fn select_rows(
    pulls: &Vec<PR>,
    category: Option<Category>,
    filter: &Filter,
    only_unreserved: bool,
    urgent: bool,
    limit: usize,
) -> (r: Vec<u64>)
    requires
        ids_unique(pulls@),
    ensures
        is_selection(to_map(pulls@), category, filter@, only_unreserved, urgent, limit as int, r@),
{
    let ghost m = to_map(pulls@);
    let ghost terms = filter@;
    proof {
        lemma_to_map(pulls@);
    }
    let mut all: Vec<SortKey> = Vec::new();
    let mut i: usize = 0;
    while i < pulls.len()
        invariant
            ids_unique(pulls@),
            terms == filter@,
            i <= pulls@.len(),
            sorted_by(all@, false),
            forall|k: int|
                0 <= k < all@.len() ==> exists|j: int|
                    0 <= j < i && #[trigger] all@[k] == key_of(pulls@[j]@) && eligible(
                        pulls@[j]@,
                        category,
                        terms,
                        only_unreserved,
                    ),
            forall|j: int|
                0 <= j < i && eligible(pulls@[j]@, category, terms, only_unreserved) ==> all@.contains(
                    key_of(#[trigger] pulls@[j]@),
                ),
        decreases pulls.len() - i,
    {
        let p = &pulls[i];
        if same_category(p.category, category) && filter.accepts(&p.payload) && (!only_unreserved
            || p.reservation.is_none()) {
            let k = SortKey { score: approval_rank(&p.labels), time: p.last_updated, id: p.id };
            assert(k == key_of(pulls@[i as int]@));
            assert forall|q: int| 0 <= q < all@.len() implies (#[trigger] all@[q]).id != k.id by {
                let j = choose|j: int|
                    0 <= j < i && #[trigger] all@[q] == key_of(pulls@[j]@) && eligible(
                        pulls@[j]@,
                        category,
                        terms,
                        only_unreserved,
                    );
                assert(pulls@[j].id != pulls@[i as int].id);
            }
            let ghost old_all = all@;
            insert_sorted(&mut all, k, false);
            assert forall|q: int| 0 <= q < all@.len() implies exists|j: int|
                0 <= j < i + 1 && #[trigger] all@[q] == key_of(pulls@[j]@) && eligible(
                    pulls@[j]@,
                    category,
                    terms,
                    only_unreserved,
                ) by {
                assert(all@.contains(all@[q]));
                if all@[q] != k {
                    assert(old_all.contains(all@[q]));
                    let q2 = choose|q2: int| 0 <= q2 < old_all.len() && old_all[q2] == all@[q];
                    let j = choose|j: int|
                        0 <= j < i && #[trigger] old_all[q2] == key_of(pulls@[j]@) && eligible(
                            pulls@[j]@,
                            category,
                            terms,
                            only_unreserved,
                        );
                    assert(0 <= j < i + 1 && all@[q] == key_of(pulls@[j]@));
                }
            }
        }
        i = i + 1;
    }
    let ghost full = all@;
    assert forall|k: int| 0 <= k < full.len() implies key_of_eligible_row(
        pulls@,
        #[trigger] full[k],
        category,
        terms,
        only_unreserved,
    ) by {
        let j = choose|j: int|
            0 <= j < i && #[trigger] all@[k] == key_of(pulls@[j]@) && eligible(
                pulls@[j]@,
                category,
                terms,
                only_unreserved,
            );
        assert(0 <= j < pulls@.len());
    }
    all.truncate(limit);
    let ghost page = all@;
    let mut fin: Vec<SortKey>;
    if urgent {
        fin = Vec::new();
        let mut k: usize = 0;
        while k < all.len()
            invariant
                ids_unique(pulls@),
                page == all@,
                sorted_by(page, false),
                forall|a: int|
                    0 <= a < page.len() ==> exists|j: int|
                        0 <= j < pulls@.len() && #[trigger] page[a] == key_of(pulls@[j]@),
                k <= page.len(),
                sorted_by(fin@, true),
                fin@.len() == k,
                forall|x: SortKey| fin@.contains(x) <==> page.subrange(0, k as int).contains(x),
            decreases all.len() - k,
        {
            let x = all[k];
            assert forall|q: int| 0 <= q < fin@.len() implies (#[trigger] fin@[q]).id != x.id by {
                let ghost pre = page.subrange(0, k as int);
                assert(fin@.contains(fin@[q]));
                let a = choose|a: int| 0 <= a < pre.len() && pre[a] == fin@[q];
                assert(page[a] == fin@[q]);
                let ja = choose|j: int| 0 <= j < pulls@.len() && #[trigger] page[a] == key_of(pulls@[j]@);
                let jb = choose|j: int|
                    0 <= j < pulls@.len() && #[trigger] page[k as int] == key_of(pulls@[j]@);
                if ja != jb {
                    assert(pulls@[ja].id != pulls@[jb].id);
                } else {
                    assert(precedes(page[a], page[k as int], false));
                }
            }
            let ghost old_fin = fin@;
            insert_sorted(&mut fin, x, true);
            let ghost pre = page.subrange(0, k as int);
            let ghost nxt = page.subrange(0, k + 1);
            assert(nxt =~= pre.push(x));
            assert forall|y: SortKey| fin@.contains(y) <==> nxt.contains(y) by {
                if pre.contains(y) {
                    let a = choose|a: int| 0 <= a < pre.len() && pre[a] == y;
                    assert(nxt[a] == y);
                }
                if y == x {
                    assert(nxt[k as int] == y);
                }
                if nxt.contains(y) {
                    let a = choose|a: int| 0 <= a < nxt.len() && nxt[a] == y;
                    if a < k {
                        assert(pre[a] == y);
                    }
                }
            }
            k = k + 1;
        }
        assert(page.subrange(0, page.len() as int) == page);
    } else {
        fin = all;
    }
    let mut r: Vec<u64> = Vec::new();
    let mut k: usize = 0;
    while k < fin.len()
        invariant
            k <= fin@.len(),
            r@.len() == k,
            forall|a: int| 0 <= a < k ==> r@[a] == (#[trigger] fin@[a]).id,
        decreases fin.len() - k,
    {
        r.push(fin[k].id);
        k = k + 1;
    }
    proof {
        lemma_selection(pulls@, category, terms, only_unreserved, urgent, limit as int, full, page, fin@, r@);
    }
    r
}

proof fn lemma_selection(
    pulls: Seq<PR>,
    category: Option<Category>,
    terms: Seq<Seq<u8>>,
    only_unreserved: bool,
    urgent: bool,
    limit: int,
    full: Seq<SortKey>,
    page: Seq<SortKey>,
    fin: Seq<SortKey>,
    r: Seq<u64>,
)
    requires
        ids_unique(pulls),
        limit >= 0,
        sorted_by(full, false),
        forall|k: int|
            0 <= k < full.len() ==> key_of_eligible_row(
                pulls,
                #[trigger] full[k],
                category,
                terms,
                only_unreserved,
            ),
        forall|j: int|
            0 <= j < pulls.len() && eligible(pulls[j]@, category, terms, only_unreserved)
                ==> full.contains(key_of(#[trigger] pulls[j]@)),
        limit <= full.len() ==> page == full.subrange(0, limit),
        limit > full.len() ==> page == full,
        sorted_by(fin, urgent),
        fin.len() == page.len(),
        forall|x: SortKey| fin.contains(x) <==> page.contains(x),
        r.len() == fin.len(),
        forall|a: int| 0 <= a < r.len() ==> r[a] == (#[trigger] fin[a]).id,
    ensures
        is_selection(to_map(pulls), category, terms, only_unreserved, urgent, limit, r),
{
    let m = to_map(pulls);
    lemma_to_map(pulls);
    // every key of `fin` is the key of an eligible row
    assert forall|a: int| 0 <= a < fin.len() implies m.contains_key(#[trigger] r[a]) && eligible(
        m[r[a]],
        category,
        terms,
        only_unreserved,
    ) && key_of(m[r[a]]) == fin[a] by {
        assert(page.contains(fin[a]));
        let q = choose|q: int| 0 <= q < page.len() && page[q] == fin[a];
        assert(full[q] == page[q]);
        assert(key_of_eligible_row(pulls, full[q], category, terms, only_unreserved));
        let j = choose|j: int|
            0 <= j < pulls.len() && full[q] == key_of(pulls[j]@) && eligible(
                pulls[j]@,
                category,
                terms,
                only_unreserved,
            );
        assert(m[pulls[j].id] == pulls[j]@);
    }
    assert(r.no_duplicates()) by {
        assert forall|a: int, b: int| 0 <= a < r.len() && 0 <= b < r.len() && a != b implies r[a]
            != r[b] by {
            assert(key_of(m[r[a]]) == fin[a]);
            assert(key_of(m[r[b]]) == fin[b]);
            if a < b {
                assert(precedes(fin[a], fin[b], urgent));
            } else {
                assert(precedes(fin[b], fin[a], urgent));
            }
        }
    }
    assert forall|id: u64|
        #[trigger] m.contains_key(id) && eligible(m[id], category, terms, only_unreserved)
            && !r.contains(id) implies r.len() == limit && forall|k: int|
        0 <= k < r.len() ==> precedes(key_of(m[#[trigger] r[k]]), key_of(m[id]), false) by {
        let j = choose|j: int| 0 <= j < pulls.len() && pulls[j].id == id;
        assert(m[pulls[j].id] == pulls[j]@);
        assert(full.contains(key_of(pulls[j]@)));
        let q = choose|q: int| 0 <= q < full.len() && full[q] == key_of(pulls[j]@);
        if q < page.len() {
            assert(page[q] == full[q]);
            assert(page.contains(full[q]));
            assert(fin.contains(full[q]));
            let a = choose|a: int| 0 <= a < fin.len() && fin[a] == full[q];
            assert(r[a] == id);
        }
        assert forall|k: int| 0 <= k < r.len() implies precedes(
            key_of(m[#[trigger] r[k]]),
            key_of(m[id]),
            false,
        ) by {
            assert(page.contains(fin[k]));
            let q2 = choose|q2: int| 0 <= q2 < page.len() && page[q2] == fin[k];
            assert(full[q2] == page[q2]);
        }
    }
    assert forall|a: int, b: int| 0 <= a < b < r.len() implies precedes(
        key_of(m[#[trigger] r[a]]),
        key_of(m[#[trigger] r[b]]),
        urgent,
    ) by {
        assert(precedes(fin[a], fin[b], urgent));
    }
}

} // verus!
