//! Triage of pull requests: incremental sync from upstream, categorization,
//! selection with an urgency order, and lease-based reservations, over an
//! in-memory model of the store. Persistence, the upstream client and the
//! HTTP surface live outside this library and hand it plain values.

pub mod categorize;
pub mod filter;
pub mod laws;
pub mod model;
pub mod select;
pub mod store;
pub mod sync;
pub mod timestamp;
mod text;

pub use categorize::{approval_rank, recategorize};
pub use filter::{construct_sql_filter, Filter};
pub use laws::{
    lemma_draft_awaits_author, lemma_expired_lease_cleared, lemma_first_sync_stores_open_requests,
    lemma_housekeep_idempotent, lemma_no_double_claim, lemma_second_sync_changes_nothing,
    lemma_sync_idempotent, lemma_sync_keeps_cursor,
};
pub use model::{AppError, Category, Reservation, PR};
pub use select::SortKey;
pub use store::DB;
pub use sync::{SyncPlan, Upstream};
pub use timestamp::{format_timestamp, parse_timestamp, TIME_FORMAT};
