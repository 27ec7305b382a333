use pr_dashboard::{
    approval_rank, construct_sql_filter, format_timestamp, parse_timestamp, recategorize, AppError,
    Category, Reservation, SyncPlan, Upstream, DB, PR,
};

const DAY: i64 = 86_400;
const NOW: i64 = 1_700_000_000;

fn labels(names: &[&str]) -> Vec<String> {
    names.iter().map(|s| s.to_string()).collect()
}

fn payload(id: u64, names: &[&str]) -> Vec<u8> {
    let quoted: Vec<String> = names.iter().map(|n| format!("{{\"name\":\"{n}\"}}")).collect();
    format!("{{\"number\":{id},\"labels\":[{}]}}", quoted.join(",")).into_bytes()
}

fn pr(id: u64, updated: i64, names: &[&str], category: Option<Category>) -> PR {
    PR {
        id,
        author: format!("user{id}"),
        last_updated: updated,
        payload: payload(id, names),
        labels: labels(names),
        draft: false,
        category,
        reservation: None,
    }
}

fn upstream(id: u64, updated: i64, closed: bool, names: &[&str]) -> Upstream {
    Upstream {
        id,
        author: Some(format!("user{id}")),
        updated_at: Some(updated),
        closed,
        payload: payload(id, names),
        labels: labels(names),
        draft: false,
    }
}

fn db_of(rows: Vec<PR>) -> DB {
    DB::from_rows(rows).expect("ids are unique")
}

fn snapshot(db: &DB) -> Vec<(u64, String, i64, Vec<u8>, Option<Category>, Option<(String, i64)>)> {
    let mut rows: Vec<_> = db
        .pulls()
        .iter()
        .map(|p| {
            (
                p.id,
                p.author.clone(),
                p.last_updated,
                p.payload.clone(),
                p.category,
                p.reservation.as_ref().map(|r| (r.by.clone(), r.time)),
            )
        })
        .collect();
    rows.sort_by_key(|r| r.0);
    rows
}

fn find(db: &DB, id: u64) -> &PR {
    db.find(id).expect("stored")
}

#[test]
fn filter_rejects_script_term() {
    assert_eq!(construct_sql_filter("a;<script>").err(), Some(AppError::InvalidInput));
    let db = db_of(vec![pr(1, NOW, &[], None)]);
    assert_eq!(db.get_pulls(None, "a;<script>", false, false, 10), Err(AppError::InvalidInput));
}

#[test]
fn filter_splits_terms() {
    let f = construct_sql_filter("6.topic: python;(x)/y_z-1.0").unwrap();
    assert_eq!(f.terms, vec![b"6.topic: python".to_vec(), b"(x)/y_z-1.0".to_vec()]);
    let empty = construct_sql_filter("").unwrap();
    assert_eq!(empty.terms, vec![Vec::<u8>::new()]);
    assert_eq!(construct_sql_filter("caf\u{e9}").err(), Some(AppError::InvalidInput));
    assert_eq!(construct_sql_filter("a%b").err(), Some(AppError::InvalidInput));
}

#[test]
fn filter_matches_payload_substrings_case_sensitively() {
    let db = db_of(vec![
        pr(1, NOW - 3 * DAY, &["6.topic: python"], None),
        pr(2, NOW - 2 * DAY, &["6.topic: rust"], None),
        pr(3, NOW - DAY, &["6.topic: python", "8.has: tests"], None),
    ]);
    assert_eq!(db.get_pulls(None, "python", false, false, 10), Ok(vec![1, 3]));
    assert_eq!(db.get_pulls(None, "python;tests", false, false, 10), Ok(vec![3]));
    assert_eq!(db.get_pulls(None, "Python", false, false, 10), Ok(vec![]));
    assert_eq!(db.get_pulls(None, "", false, false, 10), Ok(vec![1, 2, 3]));
}

#[test]
fn draft_with_merger_label_awaits_author() {
    let l = labels(&["needs_merger", "12.approvals: 3+"]);
    assert_eq!(recategorize(&l, true, None), Some(Category::AwaitingAuthor));
    assert_eq!(recategorize(&l, false, None), Some(Category::NeedsMerger));
}

#[test]
fn categorizer_rules_in_order() {
    assert_eq!(
        recategorize(&labels(&["2.status: merge conflict", "needs_merger"]), false, None),
        Some(Category::AwaitingAuthor)
    );
    assert_eq!(
        recategorize(&labels(&["12.approved-by: package-maintainer", "10.rebuild-linux: 1"]), false, None),
        Some(Category::NeedsMerger)
    );
    assert_eq!(
        recategorize(&labels(&["10.rebuild-linux: 1-10"]), false, None),
        Some(Category::NeedsReviewer)
    );
    assert_eq!(
        recategorize(&labels(&["6.topic: python"]), false, Some(Category::NeedsReviewer)),
        Some(Category::NeedsReviewer)
    );
    assert_eq!(recategorize(&labels(&["1.severity: security"]), false, None), None);
}

#[test]
fn approval_rank_takes_highest_tier_plus_maintainer() {
    assert_eq!(approval_rank(&labels(&[])), 0);
    assert_eq!(approval_rank(&labels(&["12.approvals: 1", "12.approvals: 2"])), 2);
    assert_eq!(approval_rank(&labels(&["12.approvals: 3+", "12.approved-by: package-maintainer"])), 4);
    assert_eq!(approval_rank(&labels(&["12.approved-by: package-maintainer"])), 1);
}

#[test]
fn urgency_ordering() {
    let db = db_of(vec![
        pr(2, NOW - DAY, &["12.approvals: 2"], None),
        pr(1, NOW - 10 * DAY, &[], None),
    ]);
    assert_eq!(db.get_pulls(None, "", false, true, 10), Ok(vec![1, 2]));
    let merger = db_of(vec![
        pr(2, NOW - DAY, &["12.approvals: 2"], Some(Category::NeedsMerger)),
        pr(1, NOW - 10 * DAY, &[], Some(Category::NeedsMerger)),
    ]);
    assert_eq!(merger.get_pulls(Some(Category::NeedsMerger), "", false, true, 10), Ok(vec![1, 2]));
}

#[test]
fn urgency_puts_fewer_approvals_first() {
    let db = db_of(vec![
        pr(1, NOW - 10 * DAY, &["12.approvals: 2"], None),
        pr(2, NOW - DAY, &[], None),
        pr(3, NOW - 5 * DAY, &[], None),
    ]);
    assert_eq!(db.get_pulls(None, "", false, false, 10), Ok(vec![1, 3, 2]));
    assert_eq!(db.get_pulls(None, "", false, true, 10), Ok(vec![3, 2, 1]));
    assert_eq!(db.get_pulls(None, "", false, true, 2), Ok(vec![3, 1]));
    let merger = db_of(vec![
        pr(1, NOW - 10 * DAY, &["12.approvals: 2"], Some(Category::NeedsMerger)),
        pr(2, NOW - DAY, &[], Some(Category::NeedsMerger)),
    ]);
    assert_eq!(merger.get_pulls(Some(Category::NeedsMerger), "", false, true, 10), Ok(vec![1, 2]));
}

#[test]
fn selection_respects_category_reservation_and_limit() {
    let mut db = db_of(vec![
        pr(1, NOW - 4 * DAY, &[], None),
        pr(2, NOW - 3 * DAY, &[], Some(Category::AwaitingAuthor)),
        pr(3, NOW - 2 * DAY, &[], None),
        pr(4, NOW - 2 * DAY, &[], None),
    ]);
    assert_eq!(db.get_pulls(None, "", false, false, 2), Ok(vec![1, 3]));
    assert_eq!(db.get_pulls(Some(Category::AwaitingAuthor), "", false, false, 5), Ok(vec![2]));
    assert_eq!(db.get_pulls(None, "", false, false, 0), Ok(vec![]));
    assert_eq!(db.reserve_pr(None, "", "10.0.0.1".to_string(), NOW), Ok(Some(1)));
    assert_eq!(db.get_pulls(None, "", true, false, 5), Ok(vec![3, 4]));
    assert_eq!(db.get_pulls(None, "", false, false, 5), Ok(vec![1, 3, 4]));
}

#[test]
fn no_double_claim() {
    let mut db = db_of(vec![
        pr(1, NOW - DAY, &[], Some(Category::NeedsReviewer)),
        pr(2, NOW - 2 * DAY, &[], None),
    ]);
    let first = db.reserve_pr(Some(Category::NeedsReviewer), "", "alice".to_string(), NOW);
    let second = db.reserve_pr(Some(Category::NeedsReviewer), "", "bob".to_string(), NOW);
    assert_eq!(first, Ok(Some(1)));
    assert_eq!(second, Ok(None));
    let r = find(&db, 1).reservation.as_ref().unwrap();
    assert_eq!((r.by.as_str(), r.time), ("alice", NOW));
}

#[test]
fn claim_with_invalid_filter_changes_nothing() {
    let mut db = db_of(vec![pr(1, NOW, &[], None)]);
    let before = snapshot(&db);
    assert_eq!(db.reserve_pr(None, "x;y=1", "carol".to_string(), NOW), Err(AppError::InvalidInput));
    assert_eq!(snapshot(&db), before);
}

#[test]
fn lease_expiry() {
    let mut old = pr(1, NOW - DAY, &[], None);
    old.reservation = Some(Reservation { by: "a".to_string(), time: NOW - 61 * 60 });
    let mut edge = pr(2, NOW - DAY, &[], None);
    edge.reservation = Some(Reservation { by: "b".to_string(), time: NOW - 3601 });
    let mut hour = pr(4, NOW - DAY, &[], None);
    hour.reservation = Some(Reservation { by: "d".to_string(), time: NOW - 3600 });
    let mut fresh = pr(3, NOW - DAY, &["awaiting_changes"], None);
    fresh.reservation = Some(Reservation { by: "c".to_string(), time: NOW - 59 * 60 });
    let mut db = db_of(vec![old, edge, fresh, hour]);
    let (changed, expired) = db.housekeep_prs(NOW);
    assert_eq!(changed, vec![3]);
    assert_eq!(expired, vec![1, 2]);
    assert!(find(&db, 1).reservation.is_none());
    assert!(find(&db, 2).reservation.is_none());
    assert_eq!(find(&db, 3).reservation.as_ref().map(|r| r.time), Some(NOW - 59 * 60));
    assert_eq!(find(&db, 3).category, Some(Category::AwaitingAuthor));
    assert_eq!(find(&db, 4).reservation.as_ref().map(|r| r.time), Some(NOW - 3600));
    let again = db.housekeep_prs(NOW);
    assert_eq!(again, (vec![], vec![]));
}

#[test]
fn housekeeping_never_demotes() {
    let mut db = db_of(vec![pr(1, NOW, &[], Some(Category::NeedsMerger))]);
    let (changed, _) = db.housekeep_prs(NOW);
    assert!(changed.is_empty());
    assert_eq!(find(&db, 1).category, Some(Category::NeedsMerger));
}

#[test]
fn extend_moves_every_lease_a_week_out() {
    let mut a = pr(1, NOW, &[], None);
    a.reservation = Some(Reservation { by: "a".to_string(), time: NOW - 10 });
    let b = pr(2, NOW, &[], None);
    let mut db = db_of(vec![a, b]);
    let moved = db.extend_reservations(NOW);
    assert_eq!(moved, vec![1]);
    assert_eq!(find(&db, 1).reservation.as_ref().map(|r| r.time), Some(NOW + 7 * DAY));
    assert!(find(&db, 2).reservation.is_none());
}

#[test]
fn sync_stops_at_cursor_and_collects_closed() {
    let db = db_of(vec![pr(7, 100, &[], None)]);
    let mut plan = db.start_sync();
    assert_eq!(plan.cursor, Some(100));
    assert!(plan.scan_all());
    let mut no_author = upstream(8, 170, false, &[]);
    no_author.author = None;
    plan.take_page(vec![
        upstream(9, 200, true, &[]),
        no_author,
        upstream(5, 150, false, &[]),
        upstream(4, 50, false, &[]),
        upstream(6, 160, false, &[]),
    ]);
    assert!(plan.is_done());
    assert_eq!(plan.deletions, vec![9]);
    let ids: Vec<u64> = plan.upserts.iter().map(|p| p.id).collect();
    assert_eq!(ids, vec![5]);
}

#[test]
fn sync_keeps_category_and_lease() {
    let mut stored = pr(1, 100, &[], Some(Category::NeedsReviewer));
    stored.reservation = Some(Reservation { by: "x".to_string(), time: 5 });
    let mut db = db_of(vec![stored, pr(2, 90, &[], None)]);
    let mut plan = db.start_sync();
    plan.take_page(vec![upstream(1, 120, false, &["needs_merger"]), upstream(2, 110, true, &[])]);
    plan.take_page(vec![]);
    db.finish_sync(plan);
    let one = find(&db, 1);
    assert_eq!(one.last_updated, 120);
    assert_eq!(one.labels, labels(&["needs_merger"]));
    assert_eq!(one.category, Some(Category::NeedsReviewer));
    assert_eq!(one.reservation.as_ref().map(|r| r.time), Some(5));
    assert!(db.pulls().iter().all(|p| p.id != 2));
}

#[test]
fn sync_twice_is_idempotent() {
    let feed = || vec![upstream(3, 300, false, &["a"]), upstream(4, 250, true, &[]), upstream(1, 100, false, &[])];
    let mut db = db_of(vec![pr(1, 100, &[], None), pr(4, 90, &[], None)]);
    let mut plan = db.start_sync();
    plan.take_page(feed());
    plan.take_page(vec![]);
    db.finish_sync(plan);
    let first = snapshot(&db);
    let mut plan = db.start_sync();
    plan.take_page(feed());
    plan.take_page(vec![]);
    db.finish_sync(plan);
    assert_eq!(snapshot(&db), first);
}

#[test]
fn applying_a_batch_twice_is_idempotent() {
    let mut db = db_of(vec![pr(1, 10, &[], Some(Category::AwaitingAuthor)), pr(2, 20, &[], None)]);
    db.apply_sync(vec![pr(1, 30, &["x"], None), pr(5, 40, &[], None)], &vec![2]);
    let once = snapshot(&db);
    db.apply_sync(vec![pr(1, 30, &["x"], None), pr(5, 40, &[], None)], &vec![2]);
    assert_eq!(snapshot(&db), once);
    assert_eq!(find(&db, 1).category, Some(Category::AwaitingAuthor));
}

#[test]
fn cursor_does_not_move_back() {
    let mut db = db_of(vec![pr(1, 100, &[], None), pr(2, 80, &[], None)]);
    let before = db.last_update();
    let mut plan = db.start_sync();
    plan.take_page(vec![upstream(3, 130, false, &[]), upstream(2, 120, true, &[]), upstream(1, 100, false, &[])]);
    plan.take_page(vec![]);
    db.finish_sync(plan);
    assert_eq!(before, Some(100));
    assert!(db.last_update() >= before);
    assert_eq!(db.last_update(), Some(130));
}

#[test]
fn end_to_end() {
    let mut db = DB::new();
    assert_eq!(db.last_update(), None);
    let mut plan = db.start_sync();
    assert!(!plan.scan_all());
    plan.take_page(vec![
        upstream(3, NOW - DAY, false, &["awaiting_changes"]),
        upstream(2, NOW - 2 * DAY, false, &[]),
        upstream(1, NOW - 3 * DAY, false, &[]),
    ]);
    assert!(!plan.is_done());
    plan.take_page(vec![]);
    assert!(plan.is_done());
    db.finish_sync(plan);
    assert_eq!(db.pulls().len(), 3);
    let (changed, expired) = db.housekeep_prs(NOW);
    assert_eq!(changed, vec![3]);
    assert!(expired.is_empty());
    assert_eq!(db.reserve_pr(None, "", "alice".to_string(), NOW), Ok(Some(1)));
    assert_eq!(db.reserve_pr(None, "", "bob".to_string(), NOW), Ok(Some(2)));
    assert_eq!(db.reserve_pr(None, "", "carol".to_string(), NOW), Ok(None));
}

#[test]
fn store_refuses_duplicate_ids() {
    assert!(DB::from_rows(vec![pr(1, 1, &[], None), pr(1, 2, &[], None)]).is_none());
    assert!(DB::from_rows(vec![pr(1, 1, &[], None), pr(2, 2, &[], None)]).is_some());
}

#[test]
fn timestamps_round_trip() {
    assert_eq!(parse_timestamp("2024-01-02 03:04:05"), Ok(1_704_164_645));
    assert_eq!(parse_timestamp("yesterday"), Err(AppError::DataCorruption));
    assert_eq!(format_timestamp(1_704_164_645), Ok("2024-01-02 03:04:05".to_string()));
    assert_eq!(format_timestamp(i64::MAX), Err(AppError::InvalidInput));
}

#[test]
fn category_names() {
    assert_eq!(Category::from_name("New"), Ok(None));
    assert_eq!(Category::from_name("NeedsMerger"), Ok(Some(Category::NeedsMerger)));
    assert_eq!(Category::from_name("AwaitingReviewer"), Err(AppError::InvalidInput));
    assert_eq!(Category::AwaitingAuthor.name(), "AwaitingAuthor");
}

#[test]
fn find_by_id() {
    let db = db_of(vec![pr(4, 10, &["x"], None), pr(9, 20, &[], Some(Category::NeedsMerger))]);
    assert_eq!(db.find(9).map(|p| p.category), Some(Some(Category::NeedsMerger)));
    assert_eq!(db.find(4).map(|p| p.last_updated), Some(10));
    assert!(db.find(5).is_none());
}

#[test]
fn counts_per_category() {
    let mut reserved = pr(3, 30, &["6.topic: rust"], None);
    reserved.reservation = Some(Reservation { by: "r".to_string(), time: NOW });
    let db = db_of(vec![
        pr(1, 10, &["6.topic: rust"], None),
        pr(2, 20, &["6.topic: python"], None),
        reserved,
        pr(4, 40, &["6.topic: rust"], Some(Category::NeedsMerger)),
    ]);
    assert_eq!(db.count_pulls(None, ""), Ok(3));
    assert_eq!(db.count_pulls(None, "rust"), Ok(2));
    assert_eq!(db.count_pulls(Some(Category::NeedsMerger), "rust"), Ok(1));
    assert_eq!(db.count_pulls(Some(Category::AwaitingAuthor), ""), Ok(0));
    assert_eq!(db.count_pulls(None, "<b>"), Err(AppError::InvalidInput));
}

#[test]
fn lease_from_columns() {
    let full = Reservation::from_columns(Some("a".to_string()), Some(7)).unwrap();
    assert_eq!((full.by.as_str(), full.time), ("a", 7));
    let orphan = Reservation::from_columns(Some("b".to_string()), None).unwrap();
    assert_eq!(orphan.time, i64::MIN);
    assert!(Reservation::from_columns(None, Some(7)).is_none());
    let mut p = pr(1, NOW, &[], None);
    p.reservation = Some(orphan);
    let mut db = db_of(vec![p]);
    assert_eq!(db.housekeep_prs(NOW).1, vec![1]);
}
