use vstd::prelude::*;

use crate::model::{Category, PR};
use crate::text::{str_equals, str_starts_with};

verus! {

/// Whether one of `labels` is exactly `name`.
pub open spec fn has_label(labels: Seq<Seq<char>>, name: Seq<char>) -> bool {
    exists|i: int| 0 <= i < labels.len() && labels[i] == name
}

/// Whether one of `labels` begins with `prefix`.
pub open spec fn has_label_prefix(labels: Seq<Seq<char>>, prefix: Seq<char>) -> bool {
    exists|i: int|
        0 <= i < labels.len() && prefix.len() <= labels[i].len() && labels[i].subrange(
            0,
            prefix.len() as int,
        ) == prefix
}

/// The author has work to do: changes were asked for, there is a merge
/// conflict, or the request is still a draft.
pub open spec fn awaits_author(labels: Seq<Seq<char>>, draft: bool) -> bool {
    has_label(labels, "awaiting_changes"@) || has_label(labels, "2.status: merge conflict"@)
        || has_label(labels, "2.status: needs-changes"@) || draft
}

/// The request is ready for someone with merge rights.
pub open spec fn ready_for_merger(labels: Seq<Seq<char>>) -> bool {
    has_label(labels, "needs_merger"@) || has_label(labels, "awaiting_merger"@) || has_label(
        labels,
        "12.approvals: 3+"@,
    ) || has_label(labels, "12.approved-by: package-maintainer"@)
}

/// The automated evaluation has labelled the request.
pub open spec fn evaluated(labels: Seq<Seq<char>>) -> bool {
    has_label_prefix(labels, "10."@)
}

/// The category that housekeeping gives a request; the first rule that
/// applies wins, and a request that matches none keeps its category.
pub open spec fn recategorized(
    labels: Seq<Seq<char>>,
    draft: bool,
    current: Option<Category>,
) -> Option<Category> {
    if awaits_author(labels, draft) {
        Some(Category::AwaitingAuthor)
    } else if ready_for_merger(labels) {
        Some(Category::NeedsMerger)
    } else if evaluated(labels) {
        Some(Category::NeedsReviewer)
    } else {
        current
    }
}

/// The approval tier (0 to 3) plus one for a maintainer's approval.
pub open spec fn approval_score(labels: Seq<Seq<char>>) -> int {
    let tier = if has_label(labels, "12.approvals: 3+"@) {
        3int
    } else if has_label(labels, "12.approvals: 2"@) {
        2int
    } else if has_label(labels, "12.approvals: 1"@) {
        1int
    } else {
        0int
    };
    if has_label(labels, "12.approved-by: package-maintainer"@) {
        tier + 1
    } else {
        tier
    }
}

/// Whether one of `labels` is exactly `name`.
pub fn contains_label(labels: &Vec<String>, name: &str) -> (r: bool)
    ensures
        r == has_label(labels.deep_view(), name@),
{
    let mut i: usize = 0;
    while i < labels.len()
        invariant
            i <= labels.len(),
            forall|j: int| 0 <= j < i ==> labels.deep_view()[j] != name@,
        decreases labels.len() - i,
    {
        if str_equals(labels[i].as_str(), name) {
            assert(labels.deep_view()[i as int] == name@);
            return true;
        }
        i = i + 1;
    }
    false
}

/// Whether one of `labels` begins with `prefix`.
pub fn contains_label_prefix(labels: &Vec<String>, prefix: &str) -> (r: bool)
    ensures
        r == has_label_prefix(labels.deep_view(), prefix@),
{
    let mut i: usize = 0;
    while i < labels.len()
        invariant
            i <= labels.len(),
            forall|j: int|
                0 <= j < i ==> !(prefix@.len() <= labels.deep_view()[j].len()
                    && labels.deep_view()[j].subrange(0, prefix@.len() as int) == prefix@),
        decreases labels.len() - i,
    {
        if str_starts_with(labels[i].as_str(), prefix) {
            assert(labels.deep_view()[i as int] == labels[i as int]@);
            return true;
        }
        i = i + 1;
    }
    false
}

/// The category of a request with these labels and draft flag, which is
/// now in `current`.
pub fn recategorize(labels: &Vec<String>, draft: bool, current: Option<Category>) -> (r: Option<
    Category,
>)
    ensures
        r == recategorized(labels.deep_view(), draft, current),
{
    let author = draft || contains_label(labels, "awaiting_changes") || contains_label(
        labels,
        "2.status: merge conflict",
    ) || contains_label(labels, "2.status: needs-changes");
    if author {
        return Some(Category::AwaitingAuthor);
    }
    let merger = contains_label(labels, "needs_merger") || contains_label(labels, "awaiting_merger")
        || contains_label(labels, "12.approvals: 3+") || contains_label(
        labels,
        "12.approved-by: package-maintainer",
    );
    if merger {
        return Some(Category::NeedsMerger);
    }
    if contains_label_prefix(labels, "10.") {
        return Some(Category::NeedsReviewer);
    }
    current
}

/// The approval score that orders requests for urgency: the highest
/// "N approvals" tier present, plus one for a maintainer's approval.
pub fn approval_rank(labels: &Vec<String>) -> (r: u64)
    ensures
        r as int == approval_score(labels.deep_view()),
        r <= 4,
{
    let mut score: u64 = 0;
    if contains_label(labels, "12.approvals: 1") {
        score = 1;
    }
    if contains_label(labels, "12.approvals: 2") {
        score = 2;
    }
    if contains_label(labels, "12.approvals: 3+") {
        score = 3;
    }
    if contains_label(labels, "12.approved-by: package-maintainer") {
        score = score + 1;
    }
    score
}

impl PR {
    /// The category that housekeeping gives this request.
    pub fn next_category(&self) -> (r: Option<Category>)
        ensures
            r == recategorized(self@.labels, self@.draft, self@.category),
    {
        recategorize(&self.labels, self.draft, self.category)
    }
}

} // verus!
