use vstd::prelude::*;

use crate::model::{PRView, PR};
use crate::store::{views_of, DB};

verus! {

/// One pull request as the upstream listing reports it.
pub struct Upstream {
    pub id: u64,
    pub author: Option<String>,
    pub updated_at: Option<i64>,
    pub closed: bool,
    pub payload: Vec<u8>,
    pub labels: Vec<String>,
    pub draft: bool,
}

pub ghost struct UpstreamView {
    pub id: u64,
    pub author: Option<Seq<char>>,
    pub updated_at: Option<i64>,
    pub closed: bool,
    pub payload: Seq<u8>,
    pub labels: Seq<Seq<char>>,
    pub draft: bool,
}

impl View for Upstream {
    type V = UpstreamView;

    open spec fn view(&self) -> UpstreamView {
        UpstreamView {
            id: self.id,
            author: match self.author {
                Some(a) => Some(a@),
                None => None,
            },
            updated_at: self.updated_at,
            closed: self.closed,
            payload: self.payload@,
            labels: self.labels.deep_view(),
            draft: self.draft,
        }
    }
}

/// The progress of one sync run over the upstream listing, newest update first.
pub struct SyncPlan {
    pub cursor: Option<i64>,
    pub upserts: Vec<PR>,
    pub deletions: Vec<u64>,
    pub done: bool,
}

pub ghost struct PlanView {
    pub cursor: Option<i64>,
    pub upserts: Seq<PRView>,
    pub deletions: Seq<u64>,
    pub done: bool,
}

impl View for SyncPlan {
    type V = PlanView;

    open spec fn view(&self) -> PlanView {
        PlanView {
            cursor: self.cursor,
            upserts: views_of(self.upserts@),
            deletions: self.deletions@,
            done: self.done,
        }
    }
}

/// The row stored for an open upstream request with an author and an
/// update time.
pub open spec fn row_of(x: UpstreamView) -> PRView {
    PRView {
        id: x.id,
        author: x.author->Some_0,
        last_updated: x.updated_at->Some_0,
        payload: x.payload,
        labels: x.labels,
        draft: x.draft,
        category: None,
        reservation: None,
    }
}

/// The listing is behind the cursor from `x` on: every later entry is
/// older, so nothing more needs reading.
pub open spec fn behind_cursor(cursor: Option<i64>, x: UpstreamView) -> bool {
    cursor is Some && x.updated_at is Some && x.updated_at->Some_0 < cursor->Some_0
}

/// One listing entry taken into the plan: a closed request is deleted, an
/// open one older than the cursor ends the run, one without author or update
/// time is skipped, any other is upserted.
pub open spec fn step(p: PlanView, x: UpstreamView) -> PlanView {
    if p.done {
        p
    } else if x.closed {
        PlanView { deletions: p.deletions.push(x.id), ..p }
    } else if behind_cursor(p.cursor, x) {
        PlanView { done: true, ..p }
    } else if x.author is Some && x.updated_at is Some {
        PlanView { upserts: p.upserts.push(row_of(x)), ..p }
    } else {
        p
    }
}

/// The entries of `items` taken in order.
pub open spec fn steps(p: PlanView, items: Seq<UpstreamView>) -> PlanView
    decreases items.len(),
{
    if items.len() == 0 {
        p
    } else {
        step(steps(p, items.drop_last()), items.last())
    }
}

/// The abstract values of `items`.
pub open spec fn upstream_views(items: Seq<Upstream>) -> Seq<UpstreamView> {
    items.map_values(|x: Upstream| x@)
}

impl SyncPlan {
    /// A run that starts from `cursor`, the latest update already stored.
    pub fn new(cursor: Option<i64>) -> (r: SyncPlan)
        ensures
            r@ == (PlanView { cursor, upserts: Seq::empty(), deletions: Seq::empty(), done: false }),
    {
        let r = SyncPlan { cursor, upserts: Vec::new(), deletions: Vec::new(), done: false };
        assert(views_of(r.upserts@) =~= Seq::<PRView>::empty());
        r
    }

    /// Whether closed requests must be listed too: only when something is
    /// stored already, so that closed ones can be found and removed.
    pub fn scan_all(&self) -> (r: bool)
        ensures
            r == self.cursor is Some,
    {
        self.cursor.is_some()
    }

    /// Takes one entry of the listing.
    fn take(&mut self, x: Upstream)
        ensures
            final(self)@ == step(old(self)@, x@),
    {
        if self.done {
            return;
        }
        if x.closed {
            self.deletions.push(x.id);
            return;
        }
        let behind = match (self.cursor, x.updated_at) {
            (Some(c), Some(u)) => u < c,
            _ => false,
        };
        if behind {
            self.done = true;
            return;
        }
        match (x.author, x.updated_at) {
            (Some(author), Some(updated)) => {
                let row = PR {
                    id: x.id,
                    author,
                    last_updated: updated,
                    payload: x.payload,
                    labels: x.labels,
                    draft: x.draft,
                    category: None,
                    reservation: None,
                };
                let ghost before = self.upserts@;
                self.upserts.push(row);
                assert(views_of(self.upserts@) =~= views_of(before).push(row@));
            },
            _ => {},
        }
    }

    /// Takes one page of the listing; an empty page ends the run.
    pub fn take_page(&mut self, page: Vec<Upstream>)
        ensures
            page@.len() == 0 ==> final(self)@ == (PlanView { done: true, ..old(self)@ }),
            page@.len() > 0 ==> final(self)@ == steps(old(self)@, upstream_views(page@)),
    {
        if page.len() == 0 {
            self.done = true;
            return;
        }
        let ghost start = self@;
        let ghost all = upstream_views(page@);
        let mut page = page;
        let n = page.len();
        let mut k: usize = 0;
        while k < n
            invariant
                n == all.len(),
                k <= n,
                page@.len() == n - k,
                upstream_views(page@) == all.subrange(k as int, n as int),
                self@ == steps(start, all.subrange(0, k as int)),
            decreases n - k,
        {
            let ghost prev = page@;
            assert(upstream_views(prev)[0] == prev[0]@);
            assert(all.subrange(k as int, n as int)[0] == all[k as int]);
            let x = page.remove(0);
            assert forall|j: int| 0 <= j < page@.len() implies upstream_views(page@)[j] == all[k + 1
                + j] by {
                assert(page@[j] == prev[j + 1]);
                assert(upstream_views(prev)[j + 1] == prev[j + 1]@);
                assert(all.subrange(k as int, n as int)[j + 1] == all[k + 1 + j]);
            }
            self.take(x);
            assert(all.subrange(0, k + 1).drop_last() == all.subrange(0, k as int));
            assert(upstream_views(page@) =~= all.subrange(k + 1, n as int));
            k = k + 1;
        }
        assert(all.subrange(0, n as int) == all);
    }

    /// Whether the run has reached what is already stored, or the end of
    /// the listing.
    pub fn is_done(&self) -> (r: bool)
        ensures
            r == self.done,
    {
        self.done
    }
}

impl DB {
    /// Starts a sync run from the latest update stored.
    pub fn start_sync(&self) -> (r: SyncPlan)
        requires
            self.wf(),
        ensures
            r@.upserts.len() == 0,
            r@.deletions.len() == 0,
            !r@.done,
            r@.cursor is None <==> self@.dom().is_empty(),
            r@.cursor matches Some(t) ==> (exists|k: u64| #[trigger]
                self@.contains_key(k) && self@[k].last_updated == t) && forall|k: u64| #[trigger]
                self@.contains_key(k) ==> self@[k].last_updated <= t,
    {
        SyncPlan::new(self.last_update())
    }

    /// Writes what a sync run collected.
    pub fn finish_sync(&mut self, plan: SyncPlan)
        requires
            old(self).wf(),
        ensures
            final(self).wf(),
            final(self)@ == crate::store::synced(old(self)@, plan@.upserts, plan@.deletions),
    {
        let deletions = plan.deletions;
        self.apply_sync(plan.upserts, &deletions);
    }
}

} // verus!
