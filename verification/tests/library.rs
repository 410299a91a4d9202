use std::collections::BTreeSet;

use habitsync::analytics::{
    completion_hits, current_streak, days_from_civil, habit_report, longest_streak, parse_date,
};
use habitsync::calendar::{civil_in_range, date_fields, date_in_range_of, is_leap_year, month_length};
use habitsync::model::{Checkin, Habit};
use habitsync::routes::{path_of, route, Endpoint, Method};
use habitsync::store::{active_habits, habit_stats, sync_fits, sync_round, Data};
use habitsync::sync::{apply, changes_since, Item, Table};
use habitsync::text::{chars_of, compare_text, text_eq, TextOrder};

fn habit(id: &str, name: &str, updated: u64) -> Habit {
    Habit {
        id: id.to_string(),
        name: name.to_string(),
        schedule: String::new(),
        updated_at: updated,
        deleted: false,
        seq: 0,
    }
}

fn checkin(id: &str, habit_id: &str, date: &str, updated: u64) -> Checkin {
    Checkin {
        id: id.to_string(),
        habit_id: habit_id.to_string(),
        date: date.to_string(),
        updated_at: updated,
        deleted: false,
        seq: 0,
    }
}

#[test]
fn text_order_is_code_point_order() {
    assert_eq!(compare_text("a", "b"), TextOrder::Less);
    assert_eq!(compare_text("ab", "a"), TextOrder::Greater);
    assert_eq!(compare_text("", ""), TextOrder::Equal);
    assert_eq!(compare_text("Z", "a"), TextOrder::Less);
    assert_eq!(compare_text("é", "z"), TextOrder::Greater);
    assert!(text_eq("héllo", "héllo"));
    assert!(!text_eq("hello", "hell"));
    assert_eq!(chars_of("añb"), vec!['a', 'ñ', 'b']);
}

#[test]
fn table_keeps_one_record_per_id_in_id_order() {
    let mut t: Table<Habit> = Table::new();
    t.insert(habit("m", "x", 1));
    t.insert(habit("b", "y", 1));
    t.insert(habit("z", "z", 1));
    t.insert(habit("b", "w", 2));
    assert_eq!(t.len(), 3);
    let ids: Vec<&str> = t.values().iter().map(|h| h.id.as_str()).collect();
    assert_eq!(ids, vec!["b", "m", "z"]);
    assert_eq!(t.get("b").unwrap().name, "w");
    assert!(t.get("q").is_none());
}

#[test]
fn newer_write_on_same_id_replaces_and_renumbers() {
    let mut t: Table<Habit> = Table::new();
    let mut counter: u64 = 41;
    assert_eq!(apply(&mut t, vec![habit("a", "one", 7), habit("a", "two", 8), habit("a", "old", 3)], &mut counter), 2);
    assert_eq!(counter, 43);
    let a = t.get("a").unwrap();
    assert_eq!(a.name, "two");
    assert_eq!(a.seq, 43);
}

#[test]
fn equal_version_does_not_win() {
    let mut t: Table<Habit> = Table::new();
    let mut counter: u64 = 0;
    apply(&mut t, vec![habit("a", "first", 9)], &mut counter);
    assert_eq!(apply(&mut t, vec![habit("a", "second", 9)], &mut counter), 0);
    assert_eq!(t.get("a").unwrap().name, "first");
    assert_eq!(counter, 1);
}

#[test]
fn pushing_the_same_batch_twice_is_a_no_op() {
    let mut t: Table<Habit> = Table::new();
    let mut counter: u64 = 0;
    let batch = || vec![habit("a", "run", 3), habit("b", "read", 4), habit("a", "walk", 2)];
    assert_eq!(apply(&mut t, batch(), &mut counter), 2);
    let seq_a = t.get("a").unwrap().seq;
    assert_eq!(apply(&mut t, batch(), &mut counter), 0);
    assert_eq!(counter, 2);
    assert_eq!(t.get("a").unwrap().seq, seq_a);
}

#[test]
fn changes_come_in_change_order_then_id_order() {
    let mut t: Table<Habit> = Table::new();
    let mut h1 = habit("c", "c", 1);
    h1.seq = 5;
    let mut h2 = habit("a", "a", 1);
    h2.seq = 7;
    let mut h3 = habit("b", "b", 1);
    h3.seq = 5;
    t.insert(h1);
    t.insert(h2);
    t.insert(h3);
    let d = changes_since(&t, 4);
    let ids: Vec<&str> = d.iter().map(|h| h.id.as_str()).collect();
    assert_eq!(ids, vec!["b", "c", "a"]);
    assert_eq!(changes_since(&t, 5).len(), 1);
    assert_eq!(changes_since(&t, 7).len(), 0);
}

#[test]
fn sync_round_answers_a_losing_push_with_the_winner() {
    let mut data = Data::new();
    let r1 = sync_round(&mut data, 0, vec![habit("h1", "Read", 10)], vec![checkin("c1", "h1", "2026-06-27", 1)]);
    assert_eq!(r1.cursor, 2);
    assert_eq!(r1.habits.len(), 1);
    assert_eq!(r1.checkins.len(), 1);
    assert_eq!(r1.checkins[0].seq, 2);

    // a stale push after the client's cursor: the delta is empty, but the
    // pushed id is answered with what the server holds
    let r2 = sync_round(&mut data, 2, vec![habit("h1", "Stale", 5)], vec![]);
    assert_eq!(r2.cursor, 2);
    assert_eq!(r2.habits.len(), 1);
    assert_eq!(r2.habits[0].name, "Read");
    assert_eq!(r2.checkins.len(), 0);

    // a fresh push is numbered and sent once, not echoed twice
    let r3 = sync_round(&mut data, 2, vec![habit("h1", "Run", 11), habit("h1", "Run", 11)], vec![]);
    assert_eq!(r3.cursor, 3);
    assert_eq!(r3.habits.len(), 1);
    assert_eq!(r3.habits[0].name, "Run");
    assert_eq!(r3.habits[0].seq, 3);
}

#[test]
fn active_habits_sorted_by_name_then_id() {
    let mut data = Data::new();
    let mut gone = habit("d", "Aaa", 1);
    gone.deleted = true;
    sync_round(
        &mut data,
        0,
        vec![habit("c", "Walk", 1), habit("a", "Read", 1), habit("b", "Read", 1), gone],
        vec![],
    );
    let list = active_habits(&data);
    let ids: Vec<&str> = list.iter().map(|h| h.id.as_str()).collect();
    assert_eq!(ids, vec!["a", "b", "c"]);
}

#[test]
fn dates_parse_as_rust_parses_numbers() {
    assert_eq!(date_fields("+2026-06-27"), Some((2026, 6, 27)));
    assert_eq!(date_fields("2026-6-7"), Some((2026, 6, 7)));
    assert_eq!(date_fields("0002026-006-027"), Some((2026, 6, 27)));
    assert_eq!(date_fields("2026-06-27-1"), None);
    assert_eq!(date_fields("2026-06"), None);
    assert_eq!(date_fields("2026--06-27"), None);
    assert_eq!(date_fields(" 2026-06-27"), None);
    assert_eq!(date_fields("2026-+-27"), None);
    assert_eq!(date_fields("99999999999999999999-01-01"), None);
    assert_eq!(date_fields("2026-04-31"), None);
    assert_eq!(date_fields("2026-04-30"), Some((2026, 4, 30)));
    assert_eq!(date_fields("2026-00-10"), None);
    assert_eq!(date_fields("2026-01-00"), None);
}

#[test]
fn leap_years_follow_the_gregorian_rule() {
    assert!(is_leap_year(2024));
    assert!(!is_leap_year(2026));
    assert!(!is_leap_year(1900));
    assert!(is_leap_year(2000));
    assert!(is_leap_year(-4));
    assert_eq!(month_length(2000, 2), 29);
    assert_eq!(month_length(1900, 2), 28);
    assert_eq!(month_length(2026, 9), 30);
    assert_eq!(month_length(2026, 12), 31);
}

#[test]
fn day_numbers_count_from_the_epoch() {
    assert_eq!(days_from_civil(1970, 1, 1), 0);
    assert_eq!(days_from_civil(1969, 12, 31), -1);
    assert_eq!(days_from_civil(2000, 3, 1), 11017);
    assert_eq!(days_from_civil(2000, 2, 29) + 1, days_from_civil(2000, 3, 1));
    assert_eq!(days_from_civil(2025, 12, 31) + 1, days_from_civil(2026, 1, 1));
    assert_eq!(days_from_civil(2026, 6, 27), 20631);
    assert_eq!(days_from_civil(0, 3, 1), -719468);
    assert_eq!(parse_date("1970-01-02"), Some(1));
}

#[test]
fn day_number_range_is_checked_exactly() {
    assert!(civil_in_range(2026, 6, 27));
    assert!(!civil_in_range(i64::MAX, 6, 27));
    assert!(!civil_in_range(i64::MIN, 1, 1));
    assert!(date_in_range_of("2026-06-27"));
    assert!(date_in_range_of("garbage"));
    assert!(!date_in_range_of("9223372036854775807-01-01"));
}

#[test]
fn longest_streak_of_empty_and_scattered_sets() {
    let empty: BTreeSet<i64> = BTreeSet::new();
    assert_eq!(longest_streak(&empty), 0);
    assert_eq!(current_streak(&empty, 10), 0);
    let days: BTreeSet<i64> = [1, 2, 3, 4, 10, 11, 20].into_iter().collect();
    assert_eq!(longest_streak(&days), 4);
    assert_eq!(current_streak(&days, 11), 2);
    assert_eq!(current_streak(&days, 12), 2);
    assert_eq!(current_streak(&days, 13), 0);
}

#[test]
fn completion_hits_counts_the_window() {
    let days: BTreeSet<i64> = [1, 2, 3, 4, 10, 11, 20].into_iter().collect();
    assert_eq!(completion_hits(&days, 11, 0), 0);
    assert_eq!(completion_hits(&days, 11, -3), 0);
    assert_eq!(completion_hits(&days, 11, 2), 2);
    assert_eq!(completion_hits(&days, 11, 9), 4);
    assert_eq!(completion_hits(&days, 11, 100), 6);
}

#[test]
fn analytics_per_habit() {
    let mut data = Data::new();
    let base = days_from_civil(2026, 6, 27);
    let mut dead = checkin("c4", "h1", "2026-06-24", 1);
    dead.deleted = true;
    sync_round(
        &mut data,
        0,
        vec![habit("h1", "Read", 1), habit("h2", "Run", 1)],
        vec![
            checkin("c1", "h1", "2026-06-27", 1),
            checkin("c2", "h1", "2026-06-26", 1),
            checkin("c3", "h1", "not a date", 1),
            checkin("c5", "h1", "2026-06-26", 1),
            dead,
            checkin("c6", "h2", "2026-06-20", 1),
        ],
    );
    let now = (base as u64) * 86_400 + 3_600;
    let stats = habit_stats(&data, now).unwrap();
    assert_eq!(stats.len(), 2);
    assert_eq!(stats[0].id, "h1");
    assert_eq!(stats[0].current_streak, 2);
    assert_eq!(stats[0].longest_streak, 2);
    assert_eq!(stats[0].total, 2);
    assert_eq!(stats[0].done_last_30, 2);
    assert_eq!(stats[1].id, "h2");
    assert_eq!(stats[1].current_streak, 0);
    assert_eq!(stats[1].total, 1);

    let report = habit_report(&habit("h2", "Run", 1), data.checkins.values(), base).unwrap();
    assert_eq!(report.longest_streak, 1);
}

#[test]
fn analytics_refuse_an_unnumberable_date() {
    let mut data = Data::new();
    sync_round(
        &mut data,
        0,
        vec![habit("h1", "Read", 1)],
        vec![checkin("c1", "h1", "9223372036854775807-01-01", 1)],
    );
    assert!(habit_stats(&data, 0).is_none());
}

#[test]
fn routes_by_method_and_path() {
    assert_eq!(path_of("/sync?x=1?y"), vec!['/', 's', 'y', 'n', 'c']);
    assert_eq!(route(Method::Get, "/health", 0), Endpoint::Health);
    assert_eq!(route(Method::Post, "/sync?since=3", 10), Endpoint::Sync);
    assert_eq!(route(Method::Get, "/sync", 0), Endpoint::NotFound);
    assert_eq!(route(Method::Get, "/habits", 0), Endpoint::Habits);
    assert_eq!(route(Method::Get, "/analytics?", 0), Endpoint::Analytics);
    assert_eq!(route(Method::Other, "/health", 0), Endpoint::NotFound);
    assert_eq!(route(Method::Get, "/health/", 0), Endpoint::NotFound);
    assert_eq!(route(Method::Post, "/sync", 1 << 20), Endpoint::Sync);
    assert_eq!(route(Method::Post, "/sync", (1 << 20) + 1), Endpoint::TooLarge);
}

#[test]
fn item_accessors_read_the_fields() {
    let mut c = checkin("c9", "h", "2026-01-01", 12);
    c.set_seq(4);
    assert_eq!(c.id(), "c9");
    assert_eq!(c.updated_at(), 12);
    assert!(!c.deleted());
    assert_eq!(c.seq(), 4);
    let d = c.duplicate();
    assert_eq!(d.date, "2026-01-01");
}

#[test]
fn syncing_again_with_the_cursor_sends_only_newer_writes() {
    let mut data = Data::new();
    let first = sync_round(&mut data, 0, vec![habit("a", "run", 1), habit("b", "read", 1)], vec![]);
    assert_eq!(first.cursor, 2);
    let other = sync_round(&mut data, 0, vec![habit("c", "swim", 1)], vec![]);
    assert_eq!(other.cursor, 3);
    let again = sync_round(&mut data, first.cursor, vec![], vec![]);
    assert_eq!(again.cursor, 3);
    assert_eq!(again.habits.len(), 1);
    assert_eq!(again.habits[0].id, "c");
    let idle = sync_round(&mut data, again.cursor, vec![], vec![]);
    assert_eq!(idle.habits.len(), 0);
}

#[test]
fn sync_fits_counts_only_accepted_records() {
    let mut data = Data::new();
    sync_round(&mut data, 0, vec![habit("a", "run", 5)], vec![]);
    data.counter = u64::MAX - 1;
    // one stale record and one new one: only one more number is needed
    assert!(sync_fits(&data, &vec![habit("a", "old", 1), habit("b", "new", 1)], &vec![]));
    assert!(!sync_fits(&data, &vec![habit("b", "new", 1), habit("c", "new", 1)], &vec![]));
    assert!(!sync_fits(&data, &vec![habit("b", "new", 1)], &vec![checkin("k", "b", "2026-01-01", 1)]));
}
