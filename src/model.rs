use vstd::prelude::*;

use crate::text::str_equals;

verus! {

/// The triage bucket of a pull request. A request with no category is "New".
#[derive(Clone, Copy, Debug, PartialEq, Eq, Structural)]
pub enum Category {
    AwaitingAuthor,
    NeedsReviewer,
    NeedsMerger,
}

/// The stored name of a category.
pub open spec fn category_name(c: Category) -> Seq<char> {
    match c {
        Category::AwaitingAuthor => "AwaitingAuthor"@,
        Category::NeedsReviewer => "NeedsReviewer"@,
        Category::NeedsMerger => "NeedsMerger"@,
    }
}

impl Category {
    /// The name under which the category is stored and requested.
    pub fn name(&self) -> (r: &'static str)
        ensures
            r@ == category_name(*self),
    {
        match self {
            Category::AwaitingAuthor => "AwaitingAuthor",
            Category::NeedsReviewer => "NeedsReviewer",
            Category::NeedsMerger => "NeedsMerger",
        }
    }

    /// Reads a requested category: "New" is the absence of one, any other
    /// name must be one of the categories.
    pub fn from_name(s: &str) -> (r: Result<Option<Category>, AppError>)
        ensures
            s@ == "New"@ ==> r == Ok::<Option<Category>, AppError>(None),
            s@ != "New"@ ==> (r is Ok <==> exists|c: Category| category_name(c) == s@),
            r matches Ok(Some(c)) ==> category_name(c) == s@,
            r is Err ==> r == Err::<Option<Category>, AppError>(AppError::InvalidInput),
            forall|c: Category|
                category_name(c) == s@ ==> r == Ok::<Option<Category>, AppError>(Some(c)),
    {
        proof {
            reveal_strlit("New");
            reveal_strlit("AwaitingAuthor");
            reveal_strlit("NeedsReviewer");
            reveal_strlit("NeedsMerger");
            assert("New"@.len() == 3);
            assert("AwaitingAuthor"@.len() == 14);
            assert("NeedsReviewer"@.len() == 13);
            assert("NeedsMerger"@.len() == 11);
        }
        if str_equals(s, "New") {
            return Ok(None);
        }
        if str_equals(s, "AwaitingAuthor") {
            assert(category_name(Category::AwaitingAuthor) == s@);
            return Ok(Some(Category::AwaitingAuthor));
        }
        if str_equals(s, "NeedsReviewer") {
            assert(category_name(Category::NeedsReviewer) == s@);
            return Ok(Some(Category::NeedsReviewer));
        }
        if str_equals(s, "NeedsMerger") {
            assert(category_name(Category::NeedsMerger) == s@);
            return Ok(Some(Category::NeedsMerger));
        }
        Err(AppError::InvalidInput)
    }
}

/// Why an operation of the library failed.
#[derive(Clone, Copy, Debug, PartialEq, Eq, Structural)]
pub enum AppError {
    /// A filter term or a request parameter was malformed.
    InvalidInput,
    /// A stored value (a payload, a timestamp) could not be read back.
    DataCorruption,
}

/// A lease on one pull request: who holds it and when it was last refreshed
/// (seconds on the naive local clock).
pub struct Reservation {
    pub by: String,
    pub time: i64,
}

pub ghost struct ReservationView {
    pub by: Seq<char>,
    pub time: i64,
}

impl View for Reservation {
    type V = ReservationView;

    open spec fn view(&self) -> ReservationView {
        ReservationView { by: self.by@, time: self.time }
    }
}

/// What the store knows of one pull request. `labels` and `draft` are read
/// from `payload`, the serialized upstream snapshot, when the row is loaded.
pub struct PR {
    pub id: u64,
    pub author: String,
    pub last_updated: i64,
    pub payload: Vec<u8>,
    pub labels: Vec<String>,
    pub draft: bool,
    pub category: Option<Category>,
    pub reservation: Option<Reservation>,
}

pub ghost struct PRView {
    pub id: u64,
    pub author: Seq<char>,
    pub last_updated: i64,
    pub payload: Seq<u8>,
    pub labels: Seq<Seq<char>>,
    pub draft: bool,
    pub category: Option<Category>,
    pub reservation: Option<ReservationView>,
}

impl Reservation {
    /// The lease stored for a request from its two columns: the claimant and
    /// the lease time. A claimant with no lease time gets the earliest time,
    /// so that the next housekeeping pass clears the claim.
    pub fn from_columns(by: Option<String>, time: Option<i64>) -> (r: Option<Reservation>)
        ensures
            by is None ==> r is None,
            by is Some ==> (r matches Some(l) && l@.by == by->Some_0@ && l@.time == (match time {
                Some(t) => t,
                None => i64::MIN,
            })),
    {
        match by {
            Some(by) => {
                let time = match time {
                    Some(t) => t,
                    None => i64::MIN,
                };
                Some(Reservation { by, time })
            },
            None => None,
        }
    }
}

pub open spec fn view_reservation(r: Option<Reservation>) -> Option<ReservationView> {
    match r {
        Some(l) => Some(l@),
        None => None,
    }
}

impl View for PR {
    type V = PRView;

    open spec fn view(&self) -> PRView {
        PRView {
            id: self.id,
            author: self.author@,
            last_updated: self.last_updated,
            payload: self.payload@,
            labels: self.labels.deep_view(),
            draft: self.draft,
            category: self.category,
            reservation: view_reservation(self.reservation),
        }
    }
}

} // verus!
