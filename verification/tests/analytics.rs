use follower_analytics::date::{Date, Month, MAX_TIMESTAMP, MIN_TIMESTAMP};
use follower_analytics::engine::{count_observed_on_or_before, group_by_observed_date,
    sorted_by_identity};
use follower_analytics::model::{Relation, RelationError, Relationships};
use std::cmp::Ordering;

const DAY: i64 = 86_400;

fn rel(name: &str, ts: i64) -> Relation {
    Relation::new(String::from(name), ts).unwrap()
}

fn date(year: i32, month: u8, day: u8) -> Date {
    Date { year, month, day }
}

#[test]
fn relation_accessors_round_trip() {
    let r = rel("alice", 1234);
    assert_eq!(r.name(), "alice");
    assert_eq!(r.start_timestamp(), 1234);
}

#[test]
fn relation_equality_is_identity_only() {
    assert_eq!(rel("alice", 1), rel("alice", 999));
    assert_ne!(rel("alice", 1), rel("bob", 1));
}

#[test]
fn relation_rejects_unrepresentable_instants() {
    assert_eq!(
        Relation::new(String::from("alice"), MAX_TIMESTAMP + 1).unwrap_err(),
        RelationError::InvalidTimestamp,
    );
    assert_eq!(
        Relation::new(String::from("alice"), MIN_TIMESTAMP - 1).unwrap_err(),
        RelationError::InvalidTimestamp,
    );
    assert!(Relation::new(String::from("alice"), MAX_TIMESTAMP).is_ok());
    assert!(Relation::new(String::from("alice"), MIN_TIMESTAMP).is_ok());
}

#[test]
fn started_at_is_the_utc_calendar_date() {
    assert_eq!(rel("a", 0).started_at(), date(1970, 1, 1));
    assert_eq!(rel("a", DAY - 1).started_at(), date(1970, 1, 1));
    assert_eq!(rel("a", DAY).started_at(), date(1970, 1, 2));
    assert_eq!(rel("a", -1).started_at(), date(1969, 12, 31));
    // 2024 is a leap year: day 60 of it is February 29.
    let feb29 = 19_782 * DAY; // 2024-02-29
    assert_eq!(rel("a", feb29).started_at(), date(2024, 2, 29));
}

#[test]
fn not_reciprocated_lists_the_unmatched() {
    let snapshot = Relationships::new(
        vec![rel("alice", 10), rel("bob", 20), rel("cara", 30)],
        vec![rel("bob", 99), rel("dave", 5)],
    );
    let out = snapshot.following_not_followers();
    assert_eq!(out.len(), 2);
    assert_eq!(out[0].name(), "alice");
    assert_eq!(out[1].name(), "cara");
}

#[test]
fn not_reciprocated_of_empty_followers_is_all_of_following() {
    let snapshot = Relationships::new(vec![rel("alice", 11)], vec![]);
    let out = snapshot.following_not_followers();
    assert_eq!(out.len(), 1);
    assert_eq!(out[0].name(), "alice");
    assert_eq!(out[0].start_timestamp(), 11);
}

#[test]
fn not_reciprocated_ignores_timestamps() {
    let snapshot = Relationships::new(vec![rel("a", 1)], vec![rel("a", 999)]);
    assert!(snapshot.following_not_followers().is_empty());
}

#[test]
fn count_on_or_before_counts_by_calendar_date() {
    let followers = vec![rel("a", 0), rel("b", DAY - 1), rel("c", DAY), rel("d", 40 * DAY)];
    assert_eq!(count_observed_on_or_before(&followers, date(1969, 12, 31)), 0);
    assert_eq!(count_observed_on_or_before(&followers, date(1970, 1, 1)), 2);
    assert_eq!(count_observed_on_or_before(&followers, date(1970, 1, 2)), 3);
    assert_eq!(count_observed_on_or_before(&followers, date(1970, 2, 15)), 4);
}

#[test]
fn count_on_or_before_is_monotonic_in_the_date() {
    let followers = vec![rel("a", 0), rel("b", 3 * DAY), rel("c", 10 * DAY)];
    let snapshot = Relationships::new(vec![], followers);
    let mut last = 0;
    for day in 1..=12u8 {
        let c = snapshot.follower_count_on(date(1970, 1, day));
        assert!(c >= last);
        last = c;
    }
    assert_eq!(last, 3);
}

#[test]
fn group_by_observed_date_partitions_and_sorts() {
    // alice and bob on day one, cara a month later.
    let followers = vec![rel("alice", 0), rel("bob", 0), rel("cara", 31 * DAY)];
    let groups = group_by_observed_date(&followers);
    assert_eq!(groups, vec![(date(1970, 1, 1), 2), (date(1970, 2, 1), 1)]);
}

#[test]
fn group_by_observed_date_needs_no_adjacency() {
    // Entries of the same date are not contiguous in the input.
    let followers = vec![rel("a", 0), rel("b", DAY), rel("c", 30), rel("d", DAY + 7)];
    let groups = group_by_observed_date(&followers);
    assert_eq!(groups, vec![(date(1970, 1, 1), 2), (date(1970, 1, 2), 2)]);
    let total: usize = groups.iter().map(|g| g.1).sum();
    assert_eq!(total, followers.len());
}

#[test]
fn group_by_observed_date_of_empty_is_empty() {
    assert!(group_by_observed_date(&vec![]).is_empty());
}

#[test]
fn sorted_by_identity_orders_lexicographically() {
    let rels = vec![rel("cara", 3), rel("alice", 1), rel("bob", 2)];
    let sorted = sorted_by_identity(&rels);
    let names: Vec<&str> = sorted.iter().map(|r| r.name()).collect();
    assert_eq!(names, vec!["alice", "bob", "cara"]);
}

#[test]
fn sorted_by_identity_is_stable_on_ties() {
    let rels = vec![rel("bob", 1), rel("alice", 2), rel("bob", 3)];
    let sorted = sorted_by_identity(&rels);
    assert_eq!(sorted.len(), 3);
    assert_eq!(sorted[0].name(), "alice");
    assert_eq!(sorted[1].start_timestamp(), 1);
    assert_eq!(sorted[2].start_timestamp(), 3);
}

#[test]
fn identity_order_is_timestamp_blind() {
    assert!(rel("apple", 99).le_by_identity(&rel("banana", 1)));
    assert!(!rel("banana", 1).le_by_identity(&rel("apple", 99)));
    assert!(rel("a", 5).le_by_identity(&rel("ab", 5)));
    assert!(rel("same", 9).le_by_identity(&rel("same", 1)));
}

#[test]
fn compare_by_identity_is_three_way_and_timestamp_blind() {
    assert_eq!(rel("alpha", 9).compare_by_identity(&rel("beta", 1)), Ordering::Less);
    assert_eq!(rel("beta", 1).compare_by_identity(&rel("alpha", 9)), Ordering::Greater);
    assert_eq!(rel("alpha", 1).compare_by_identity(&rel("alpha", 999)), Ordering::Equal);
    assert_eq!(rel("ab", 1).compare_by_identity(&rel("abc", 1)), Ordering::Less);
}

#[test]
fn monthly_series_reports_cumulative_and_delta() {
    // Five followers on 1970-01-01, three more on 1970-02-10:
    // the count as of the first of January, February, March is 5, 5, 8.
    let mut followers = Vec::new();
    for n in ["a", "b", "c", "d", "e"] {
        followers.push(rel(n, 0));
    }
    for n in ["f", "g", "h"] {
        followers.push(rel(n, 40 * DAY));
    }
    let snapshot = Relationships::new(vec![], followers);
    let series = snapshot
        .monthly_series(Month { year: 1970, month: 2 }, Month { year: 1970, month: 3 })
        .unwrap();
    assert_eq!(series.len(), 2);
    assert_eq!(series[0].month_start, date(1970, 2, 1));
    assert_eq!(series[0].cumulative, 5);
    assert_eq!(series[0].delta, 0);
    assert_eq!(series[1].month_start, date(1970, 3, 1));
    assert_eq!(series[1].cumulative, 8);
    assert_eq!(series[1].delta, 3);
}

#[test]
fn monthly_series_steps_calendar_months_across_year_ends() {
    let snapshot = Relationships::new(vec![], vec![rel("a", 0)]);
    let series = snapshot
        .monthly_series(Month { year: 2023, month: 11 }, Month { year: 2024, month: 2 })
        .unwrap();
    let months: Vec<Date> = series.iter().map(|e| e.month_start).collect();
    assert_eq!(
        months,
        vec![date(2023, 11, 1), date(2023, 12, 1), date(2024, 1, 1), date(2024, 2, 1)],
    );
    for entry in &series {
        assert_eq!(entry.cumulative, 1);
        assert_eq!(entry.delta, 0);
    }
}

#[test]
fn monthly_series_deltas_telescope() {
    let followers = vec![rel("a", 0), rel("b", 40 * DAY), rel("c", 70 * DAY), rel("d", 71 * DAY)];
    let snapshot = Relationships::new(vec![], followers);
    let start = Month { year: 1970, month: 2 };
    let end = Month { year: 1970, month: 5 };
    let series = snapshot.monthly_series(start, end).unwrap();
    let base = snapshot.follower_count_on(date(1970, 1, 1));
    let sum: usize = series.iter().map(|e| e.delta).sum();
    assert_eq!(sum, series.last().unwrap().cumulative - base);
}

#[test]
fn monthly_series_rejects_an_empty_range() {
    let snapshot = Relationships::new(vec![], vec![rel("a", 0)]);
    let err = snapshot
        .monthly_series(Month { year: 2024, month: 5 }, Month { year: 2024, month: 4 })
        .unwrap_err();
    assert_eq!(err, RelationError::EmptyRange);
    let err = snapshot
        .monthly_series(Month { year: 2025, month: 1 }, Month { year: 2024, month: 12 })
        .unwrap_err();
    assert_eq!(err, RelationError::EmptyRange);
}

#[test]
fn snapshot_getters_preserve_input_order() {
    let snapshot = Relationships::new(
        vec![rel("x", 1), rel("y", 2)],
        vec![rel("z", 3)],
    );
    let f: Vec<&str> = snapshot.following().iter().map(|r| r.name()).collect();
    let w: Vec<&str> = snapshot.followers().iter().map(|r| r.name()).collect();
    assert_eq!(f, vec!["x", "y"]);
    assert_eq!(w, vec!["z"]);
}
