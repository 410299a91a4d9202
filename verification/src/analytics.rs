//! Streaks and completion counts over the set of days a habit was done.
use std::collections::BTreeSet;

use vstd::prelude::*;
use vstd::std_specs::iter::IteratorSpec;

pub use crate::calendar::{days_from_civil, parse_date};
use crate::calendar::{date_in_range, date_in_range_of, parse_date_spec};
use crate::model::{Checkin, Habit};
use crate::sync::{ids_increasing, records_map, lemma_records_map_at, index_of_id, Item};
use crate::text::{lex_lt, text_eq};

verus! {

broadcast use {vstd::std_specs::btree::group_btree_axioms, vstd::laws_cmp::group_laws_cmp};

/// `x` is a day in `days`.
pub open spec fn has_day(days: Set<i64>, x: int) -> bool {
    i64::MIN <= x <= i64::MAX && days.contains(x as i64)
}

/// The days `start - n + 1` through `start` are all in `days`, and
/// `start - n` is not: the run ending at `start` has length `n`.
pub open spec fn run_back(days: Set<i64>, start: int, n: int) -> bool {
    &&& n >= 0
    &&& forall|x: int| start - n < x <= start ==> #[trigger] has_day(days, x)
    &&& !has_day(days, start - n)
}

/// The day a current streak is counted back from: today when it is done,
/// else yesterday (today may still be done later).
pub open spec fn streak_start(days: Set<i64>, today: int) -> int {
    if has_day(days, today) {
        today
    } else {
        today - 1
    }
}

/// Counting the run back from `start` stays within `u32` and `i64`.
pub open spec fn run_back_fits(days: Set<i64>, start: int) -> bool {
    exists|n: int| #[trigger] run_back(days, start, n) && n <= u32::MAX && start - n >= i64::MIN
}

/// A run has one length.
pub proof fn lemma_run_back_unique(days: Set<i64>, start: int, n1: int, n2: int)
    requires
        run_back(days, start, n1),
        run_back(days, start, n2),
    ensures
        n1 == n2,
{
    if n1 < n2 {
        assert(has_day(days, start - n1));
    } else if n2 < n1 {
        assert(has_day(days, start - n2));
    }
}

/// The length of the run of days ending at `start`.
fn run_back_length(days: &BTreeSet<i64>, start: i64) -> (n: u128)
    ensures
        run_back(days@, start as int, n as int),
{
    let mut day: i128 = start as i128;
    let mut n: u128 = 0;
    while day >= i64::MIN as i128 && days.contains(&(day as i64))
        invariant
            i64::MIN - 1 <= day <= start,
            day == start - n,
            forall|x: int| start - n < x <= start ==> #[trigger] has_day(days@, x),
        decreases day - i64::MIN + 1,
    {
        assert(has_day(days@, day as int));
        n = n + 1;
        day = day - 1;
    }
    n
}

/// The number of consecutive days done up to today, or up to yesterday when
/// today is not done yet.
pub fn current_streak(days: &BTreeSet<i64>, today: i64) -> (streak: u32)
    requires
        has_day(days@, today as int) || today > i64::MIN,
        run_back_fits(days@, streak_start(days@, today as int)),
    ensures
        run_back(days@, streak_start(days@, today as int), streak as int),
{
    let day = if days.contains(&today) {
        today
    } else {
        today - 1
    };
    let n = run_back_length(days, day);
    proof {
        let w = choose|w: int| #[trigger] run_back(days@, day as int, w) && w <= u32::MAX && day - w >= i64::MIN;
        lemma_run_back_unique(days@, day as int, n as int, w);
    }
    n as u32
}

/// The days `a` through `a + n - 1` are all in `days`.
pub open spec fn is_run(days: Set<i64>, a: int, n: int) -> bool {
    n >= 0 && forall|x: int| a <= x < a + n ==> #[trigger] has_day(days, x)
}

/// `n` is the length of the longest run of consecutive days in `days`.
pub open spec fn is_longest_run(days: Set<i64>, n: int) -> bool {
    &&& exists|a: int| #[trigger] is_run(days, a, n)
    &&& forall|a: int, k: int| #[trigger] is_run(days, a, k) ==> k <= n
}

/// No run of consecutive days in `days` is longer than `u32::MAX`.
pub open spec fn runs_fit(days: Set<i64>) -> bool {
    forall|a: int, k: int| #[trigger] is_run(days, a, k) ==> k <= u32::MAX
}

/// The days of `s` before position `i`.
spec fn prefix_days(s: Seq<i64>, i: int) -> Set<i64> {
    s.take(i).to_set()
}

/// A set of days is walked in increasing order.
proof fn lemma_days_increasing(days: &BTreeSet<i64>)
    ensures
        ({
            let s = vstd::std_specs::btree::spec_btree_keys_iter(days).remaining().unref();
            forall|i: int, j: int| 0 <= i < j < s.len() ==> s[i] < s[j]
        }),
{
    let r = vstd::std_specs::btree::spec_btree_keys_iter(days).remaining();
    let s = r.unref();
    assert(vstd::std_specs::btree::increasing_seq(r));
    assert(vstd::laws_cmp::obeys_cmp::<i64>());
    assert(vstd::laws_cmp::obeys_cmp::<&i64>());
    vstd::std_specs::btree::axiom_increasing_seq_meaning(r);
    assert forall|i: int, j: int| 0 <= i < j < s.len() implies s[i] < s[j] by {
        assert(vstd::std_specs::cmp::OrdSpec::cmp_spec(&r[i], &r[j]) is Less);
        assert(s[i] == *r[i]);
        assert(s[j] == *r[j]);
    }
}

/// The length of the longest run of consecutive days.
pub fn longest_streak(days: &BTreeSet<i64>) -> (best: u32)
    requires
        runs_fit(days@),
    ensures
        is_longest_run(days@, best as int),
{
    let best = longest_run_length(days);
    proof {
        let a = choose|a: int| #[trigger] is_run(days@, a, best as int);
    }
    best as u32
}

/// The length of the longest run of consecutive days, counted wide enough
/// never to overflow.
fn longest_run_length(days: &BTreeSet<i64>) -> (best: u64)
    ensures
        is_longest_run(days@, best as int),
{
    let ghost s = vstd::std_specs::btree::spec_btree_keys_iter(days).remaining().unref();
    let count = days.len();
    proof {
        assert(s.len() == days@.len());
        assert(s.len() == count);
        assert(s.to_set() == days@);
        lemma_days_increasing(days);
        assert(prefix_days(s, 0) =~= Set::<i64>::empty());
        assert(is_run(prefix_days(s, 0), 0, 0));
        assert forall|a: int, k: int| #[trigger] is_run(prefix_days(s, 0), a, k) implies k <= 0 by {
            if k > 0 {
                assert(has_day(prefix_days(s, 0), a));
            }
        }
    }
    let mut best: u64 = 0;
    let mut run: u64 = 0;
    let mut prev: Option<i64> = None;
    for day in it: days.iter()
        invariant
            it.seq().unref() == s,
            s.to_set() == days@,
            s.len() <= usize::MAX,
            forall|i: int, j: int| 0 <= i < j < s.len() ==> s[i] < s[j],
            best <= it.index(),
            prev is Some ==> run <= it.index(),
            prev is None <==> it.index() == 0,
            prev matches Some(p) ==> p == s[it.index() - 1],
            prev matches Some(p) ==> run >= 1 && run_back(prefix_days(s, it.index() as int), p as int, run as int),
            is_longest_run(prefix_days(s, it.index() as int), best as int),
    {
        let ghost i = it.index() as int;
        let d: i64 = *day;
        let ghost before = prefix_days(s, i);
        let ghost after = prefix_days(s, i + 1);
        proof {
            assert(d == s[i]);
            assert(s.take(i + 1) =~= s.take(i).push(d));
            assert forall|x: i64| after.contains(x) <==> before.insert(d).contains(x) by {
                if after.contains(x) && x != d {
                    let j = choose|j: int| 0 <= j < s.take(i + 1).len() && #[trigger] s.take(i + 1)[j] == x;
                    assert(s.take(i)[j] == x);
                }
                if before.contains(x) {
                    let j = choose|j: int| 0 <= j < s.take(i).len() && #[trigger] s.take(i)[j] == x;
                    assert(s.take(i + 1)[j] == x);
                }
                if x == d {
                    assert(s.take(i + 1)[i] == d);
                }
            }
            assert(after =~= before.insert(d));
            // every earlier day is below d
            assert forall|x: i64| before.contains(x) implies x < d by {
                let j = choose|j: int| 0 <= j < s.take(i).len() && #[trigger] s.take(i)[j] == x;
                assert(s[j] == x);
            }
            // runs of the shorter prefix are runs of the whole set
            assert forall|a: int, k: int| #[trigger] is_run(after, a, k) implies is_run(days@, a, k) by {
                assert forall|x: int| a <= x < a + k implies #[trigger] has_day(days@, x) by {
                    assert(has_day(after, x));
                    let y = x as i64;
                    let j = choose|j: int| 0 <= j < s.take(i + 1).len() && #[trigger] s.take(i + 1)[j] == y;
                    assert(s[j] == y);
                    assert(s.contains(y));
                }
            }
        }
        run = match prev {
            Some(p) if d == p + 1 => {
                proof {
                    assert(is_run(after, p - run + 1, run + 1)) by {
                        assert forall|x: int| p - run + 1 <= x < p - run + 1 + run + 1 implies #[trigger] has_day(after, x) by {
                            if x <= p {
                                assert(has_day(before, x));
                            }
                        }
                    }
                }
                run + 1
            },
            _ => {
                proof {
                    assert(is_run(after, d as int, 1)) by {
                        assert forall|x: int| d <= x < d + 1 implies #[trigger] has_day(after, x) by {
                            assert(x == d);
                        }
                    }
                }
                1
            },
        };
        proof {
            // the run ending at d is maximal
            assert(run_back(after, d as int, run as int)) by {
                assert forall|x: int| d - run < x <= d implies #[trigger] has_day(after, x) by {
                    if x < d {
                        assert(has_day(before, x));
                    }
                }
                if has_day(after, d - run) {
                    assert(has_day(before, d - run));
                }
            }
        }
        let ghost old_best = best;
        best = if run > best { run } else { best };
        proof {
            assert(is_run(after, d - run + 1, run as int)) by {
                assert forall|x: int| d - run + 1 <= x < d - run + 1 + run implies #[trigger] has_day(after, x) by {
                    assert(d - run < x <= d);
                }
            }
            if run <= old_best {
                let a0 = choose|a: int| #[trigger] is_run(before, a, old_best as int);
                assert(is_run(after, a0, old_best as int)) by {
                    assert forall|x: int| a0 <= x < a0 + old_best implies #[trigger] has_day(after, x) by {
                        assert(has_day(before, x));
                    }
                }
            }
            assert(is_longest_run(after, best as int)) by {
                assert forall|a: int, k: int| #[trigger] is_run(after, a, k) implies k <= best by {
                    if k > 0 {
                        if a + k - 1 >= d {
                            // the run reaches d: it is inside the run ending at d
                            assert(a + k - 1 == d) by {
                                assert(has_day(after, a + k - 1));
                            }
                            if a <= d - run {
                                assert(has_day(after, d - run));
                            }
                        } else {
                            assert(is_run(before, a, k)) by {
                                assert forall|x: int| a <= x < a + k implies #[trigger] has_day(before, x) by {
                                    assert(has_day(after, x));
                                }
                            }
                        }
                    }
                }
            }
        }
        prev = Some(d);
    }
    proof {
        assert(s.take(s.len() as int) =~= s);
    }
    best
}


/// The days of `days` from `today - window + 1` through `today`.
pub open spec fn window_days(days: Set<i64>, today: int, window: int) -> Set<i64> {
    days.filter(|x: i64| today - window + 1 <= x <= today)
}

/// How many days of the last `window` days, ending today, are done; none
/// when the window is empty.
pub open spec fn window_hits(days: Set<i64>, today: int, window: int) -> int {
    if window <= 0 {
        0
    } else {
        window_days(days, today, window).len() as int
    }
}

/// How many of the `window` days ending today are done (none for an empty
/// window); the completion rate is this count over `window`.
pub fn completion_hits(days: &BTreeSet<i64>, today: i64, window: i64) -> (hits: usize)
    requires
        window <= 0 || today - window >= i64::MIN,
    ensures
        hits == window_hits(days@, today as int, window as int),
{
    if window <= 0 {
        return 0;
    }
    let start = today - window + 1;
    let ghost s = vstd::std_specs::btree::spec_btree_keys_iter(days).remaining().unref();
    let ghost f = |x: i64| today - window + 1 <= x <= today;
    let count = days.len();
    proof {
        lemma_days_increasing(days);
        assert(s.len() == count);
        assert(prefix_days(s, 0) =~= Set::<i64>::empty());
        assert(prefix_days(s, 0).filter(f) =~= Set::<i64>::empty());
    }
    let mut hits: usize = 0;
    for day in it: days.iter()
        invariant
            it.seq().unref() == s,
            s.to_set() == days@,
            s.len() <= usize::MAX,
            forall|i: int, j: int| 0 <= i < j < s.len() ==> s[i] < s[j],
            start == today - window + 1,
            f == (|x: i64| today - window + 1 <= x <= today),
            prefix_days(s, it.index() as int).finite(),
            hits == prefix_days(s, it.index() as int).filter(f).len(),
            hits <= it.index(),
    {
        let ghost i = it.index() as int;
        let d: i64 = *day;
        let ghost before = prefix_days(s, i);
        let ghost after = prefix_days(s, i + 1);
        proof {
            assert(d == s[i]);
            assert(s.take(i + 1) =~= s.take(i).push(d));
            assert forall|x: i64| after.contains(x) <==> before.insert(d).contains(x) by {
                if after.contains(x) && x != d {
                    let j = choose|j: int| 0 <= j < s.take(i + 1).len() && #[trigger] s.take(i + 1)[j] == x;
                    assert(s.take(i)[j] == x);
                }
                if before.contains(x) {
                    let j = choose|j: int| 0 <= j < s.take(i).len() && #[trigger] s.take(i)[j] == x;
                    assert(s.take(i + 1)[j] == x);
                }
                if x == d {
                    assert(s.take(i + 1)[i] == d);
                }
            }
            assert(after =~= before.insert(d));
            assert(!before.contains(d)) by {
                if before.contains(d) {
                    let j = choose|j: int| 0 <= j < s.take(i).len() && #[trigger] s.take(i)[j] == d;
                    assert(s[j] == d);
                }
            }
            assert(before.filter(f).finite()) by {
                vstd::set_lib::lemma_set_subset_finite(before, before.filter(f));
            }
            if f(d) {
                assert(after.filter(f) =~= before.filter(f).insert(d));
            } else {
                assert(after.filter(f) =~= before.filter(f));
            }
        }
        if start <= d && d <= today {
            hits = hits + 1;
        }
    }
    proof {
        assert(s.take(s.len() as int) =~= s);
    }
    hits
}


/// Check-in `c` counts for habit `habit_id`: it is not deleted and names it.
pub open spec fn counts_for(c: Checkin, habit_id: Seq<char>) -> bool {
    !c.deleted && c.habit_id@ == habit_id
}

/// The days of the check-ins that count for a habit and name a date.
pub open spec fn habit_days(checkins: Map<Seq<char>, Checkin>, habit_id: Seq<char>) -> Set<i64> {
    Set::new(
        |x: i64|
            exists|k: Seq<char>|
                #[trigger] checkins.contains_key(k) && counts_for(checkins[k], habit_id) && parse_date_spec(
                    checkins[k].date@,
                ) == Some(x as int),
    )
}

/// Every date of the check-ins that count for the habit can be numbered in
/// `i64`.
pub open spec fn habit_dates_in_range(checkins: Map<Seq<char>, Checkin>, habit_id: Seq<char>) -> bool {
    forall|k: Seq<char>|
        #[trigger] checkins.contains_key(k) && counts_for(checkins[k], habit_id) ==> date_in_range(
            checkins[k].date@,
        )
}

/// The days named by the check-ins among the first `j` of `cs` that count
/// for the habit.
spec fn days_among(cs: Seq<Checkin>, habit_id: Seq<char>, j: int) -> Set<i64> {
    Set::new(
        |x: i64|
            exists|q: int|
                0 <= q < j && counts_for(#[trigger] cs[q], habit_id) && parse_date_spec(cs[q].date@) == Some(
                    x as int,
                ),
    )
}

/// The set of days a habit was done, or `None` when some date cannot be
/// numbered in `i64`.
fn collect_days(checkins: &[Checkin], habit_id: &str) -> (r: Option<BTreeSet<i64>>)
    requires
        ids_increasing(checkins@),
    ensures
        r is Some == habit_dates_in_range(records_map(checkins@), habit_id@),
        r matches Some(days) ==> days@ == habit_days(records_map(checkins@), habit_id@),
{
    let ghost cs = checkins@;
    let ghost m = records_map(cs);
    let mut days: BTreeSet<i64> = BTreeSet::new();
    proof {
        assert(days@ =~= days_among(cs, habit_id@, 0));
    }
    for j in 0..checkins.len()
        invariant
            cs == checkins@,
            m == records_map(cs),
            ids_increasing(cs),
            days@ == days_among(cs, habit_id@, j as int),
            forall|q: int| 0 <= q < j && counts_for(#[trigger] cs[q], habit_id@) ==> date_in_range(cs[q].date@),
    {
        let c = &checkins[j];
        if !c.deleted && text_eq(c.habit_id.as_str(), habit_id) {
            if !date_in_range_of(c.date.as_str()) {
                proof {
                    lemma_records_map_at(cs, j as int);
                    assert(m.contains_key(cs[j as int].spec_id()));
                }
                return None;
            }
            let ghost before = days@;
            match parse_date(c.date.as_str()) {
                Some(d) => {
                    days.insert(d);
                    proof {
                        assert(days@ =~= days_among(cs, habit_id@, j + 1)) by {
                            assert forall|x: i64| days_among(cs, habit_id@, j + 1).contains(x) implies days@.contains(x) by {
                                let q = choose|q: int|
                                    0 <= q < j + 1 && counts_for(#[trigger] cs[q], habit_id@) && parse_date_spec(
                                        cs[q].date@,
                                    ) == Some(x as int);
                                if q < j {
                                    assert(before.contains(x));
                                }
                            }
                            assert forall|x: i64| days@.contains(x) implies days_among(cs, habit_id@, j + 1).contains(x) by {
                                if x != d {
                                    let q = choose|q: int|
                                        0 <= q < j && counts_for(#[trigger] cs[q], habit_id@) && parse_date_spec(
                                            cs[q].date@,
                                        ) == Some(x as int);
                                } else {
                                    assert(counts_for(cs[j as int], habit_id@));
                                }
                            }
                        }
                    }
                },
                None => {
                    proof {
                        assert(days@ =~= days_among(cs, habit_id@, j + 1)) by {
                            assert forall|x: i64| days_among(cs, habit_id@, j + 1).contains(x) implies days@.contains(x) by {
                                let q = choose|q: int|
                                    0 <= q < j + 1 && counts_for(#[trigger] cs[q], habit_id@) && parse_date_spec(
                                        cs[q].date@,
                                    ) == Some(x as int);
                                if q < j {
                                    assert(before.contains(x));
                                }
                            }
                        }
                    }
                },
            }
        } else {
            proof {
                assert(days@ =~= days_among(cs, habit_id@, j + 1)) by {
                    assert forall|x: i64| days_among(cs, habit_id@, j + 1).contains(x) implies days@.contains(x) by {
                        let q = choose|q: int|
                            0 <= q < j + 1 && counts_for(#[trigger] cs[q], habit_id@) && parse_date_spec(
                                cs[q].date@,
                            ) == Some(x as int);
                        if q < j {
                            assert(days@.contains(x));
                        }
                    }
                }
            }
        }
    }
    proof {
        assert forall|k: Seq<char>| #[trigger] m.contains_key(k) && counts_for(m[k], habit_id@) implies date_in_range(
            m[k].date@,
        ) by {
            let q = index_of_id(cs, k);
            assert(cs[q] == m[k]);
        }
        assert(days@ =~= habit_days(m, habit_id@)) by {
            assert forall|x: i64| days@.contains(x) implies habit_days(m, habit_id@).contains(x) by {
                let q = choose|q: int|
                    0 <= q < cs.len() && counts_for(#[trigger] cs[q], habit_id@) && parse_date_spec(cs[q].date@)
                        == Some(x as int);
                lemma_records_map_at(cs, q);
                assert(m.contains_key(cs[q].spec_id()));
            }
            assert forall|x: i64| habit_days(m, habit_id@).contains(x) implies days@.contains(x) by {
                let k = choose|k: Seq<char>|
                    #[trigger] m.contains_key(k) && counts_for(m[k], habit_id@) && parse_date_spec(m[k].date@) == Some(
                        x as int,
                    );
                let q = index_of_id(cs, k);
                assert(cs[q] == m[k]);
            }
        }
    }
    Some(days)
}


/// Streaks and counts of one habit, as the analytics endpoint reports them
/// (the completion rate is `done_last_30` over 30).
pub struct HabitStats {
    pub id: String,
    pub name: String,
    pub current_streak: u32,
    pub longest_streak: u32,
    pub total: usize,
    pub done_last_30: usize,
}

/// The day number of the UTC day that contains `now_secs`.
pub open spec fn day_of(now_secs: u64) -> int {
    now_secs as int / 86400
}

/// The analytics of one habit can be computed without overflow.
#[verifier::opaque]
pub open spec fn habit_fits(checkins: Map<Seq<char>, Checkin>, habit_id: Seq<char>, today: int) -> bool {
    let days = habit_days(checkins, habit_id);
    &&& habit_dates_in_range(checkins, habit_id)
    &&& run_back_fits(days, streak_start(days, today))
    &&& runs_fit(days)
}

/// Habit `h` is stored and not deleted.
pub open spec fn is_active(habits: Map<Seq<char>, Habit>, h: Habit) -> bool {
    habits.contains_key(h.id@) && habits[h.id@] == h && !h.deleted
}

/// The analytics of every active habit can be computed without overflow.
pub open spec fn stats_fit(habits: Map<Seq<char>, Habit>, checkins: Map<Seq<char>, Checkin>, today: int) -> bool {
    forall|k: Seq<char>|
        #[trigger] habits.contains_key(k) && !habits[k].deleted ==> habit_fits(checkins, k, today)
}

/// `st` reports habit `h` on day `today`.
#[verifier::opaque]
pub open spec fn reports(checkins: Map<Seq<char>, Checkin>, h: Habit, today: int, st: HabitStats) -> bool {
    let days = habit_days(checkins, h.id@);
    &&& st.id@ == h.id@
    &&& st.name@ == h.name@
    &&& run_back(days, streak_start(days, today), st.current_streak as int)
    &&& is_longest_run(days, st.longest_streak as int)
    &&& st.total == days.len()
    &&& st.done_last_30 == window_hits(days, today, 30)
}

/// The analytics of habit `h` on day `today`, or `None` when some value
/// would overflow.
pub fn habit_report(h: &Habit, checkins: &[Checkin], today: i64) -> (r: Option<HabitStats>)
    requires
        ids_increasing(checkins@),
        today >= 0,
    ensures
        r is Some == habit_fits(records_map(checkins@), h.id@, today as int),
        r matches Some(st) ==> reports(records_map(checkins@), *h, today as int, st) && st.id@ == h.id@,
{
    reveal(habit_fits);
    reveal(reports);
    let days = match collect_days(checkins, h.id.as_str()) {
        Some(days) => days,
        None => return None,
    };
    let ghost ds = days@;
    let start = if days.contains(&today) {
        today
    } else {
        today - 1
    };
    let n = run_back_length(&days, start);
    if n > u32::MAX as u128 || (start as i128) - (n as i128) < i64::MIN as i128 {
        proof {
            assert(!run_back_fits(ds, streak_start(ds, today as int))) by {
                if run_back_fits(ds, streak_start(ds, today as int)) {
                    let w = choose|w: int|
                        #[trigger] run_back(ds, start as int, w) && w <= u32::MAX && start - w >= i64::MIN;
                    lemma_run_back_unique(ds, start as int, n as int, w);
                }
            }
        }
        return None;
    }
    let longest = longest_run_length(&days);
    if longest > u32::MAX as u64 {
        proof {
            let a = choose|a: int| #[trigger] is_run(ds, a, longest as int);
        }
        return None;
    }
    Some(
        HabitStats {
            id: h.id.clone(),
            name: h.name.clone(),
            current_streak: current_streak(&days, today),
            longest_streak: longest_streak(&days),
            total: days.len(),
            done_last_30: completion_hits(&days, today, 30),
        },
    )
}


/// The current streak is never longer than the longest streak.
pub proof fn lemma_current_within_longest(days: Set<i64>, today: int, current: int, longest: int)
    requires
        run_back(days, streak_start(days, today), current),
        is_longest_run(days, longest),
    ensures
        current <= longest,
{
    let start = streak_start(days, today);
    assert(is_run(days, start - current + 1, current)) by {
        assert forall|x: int| start - current + 1 <= x < start - current + 1 + current implies #[trigger] has_day(
            days,
            x,
        ) by {
            assert(start - current < x <= start);
        }
    }
}


/// The `i64` days from `a` through `a + n - 1`.
spec fn day_range(a: int, n: nat) -> Set<i64> {
    Set::new(|x: i64| a <= x < a + n)
}

proof fn lemma_day_range_len(a: int, n: nat)
    ensures
        day_range(a, n).finite(),
        day_range(a, n).len() <= n,
    decreases n,
{
    if n == 0 {
        assert(day_range(a, n) =~= Set::<i64>::empty());
    } else {
        let m = (n - 1) as nat;
        lemma_day_range_len(a, m);
        let last = a + m;
        if i64::MIN <= last <= i64::MAX {
            assert(day_range(a, n) =~= day_range(a, m).insert(last as i64));
        } else {
            assert(day_range(a, n) =~= day_range(a, m));
        }
    }
}

/// At most `window` of the last `window` days are done, so the completion
/// rate never passes one.
pub proof fn lemma_hits_within_window(days: Set<i64>, today: int, window: int)
    ensures
        0 <= window_hits(days, today, window),
        window > 0 ==> window_hits(days, today, window) <= window,
{
    if window > 0 {
        let r = day_range(today - window + 1, window as nat);
        lemma_day_range_len(today - window + 1, window as nat);
        assert(window_days(days, today, window).subset_of(r));
        vstd::set_lib::lemma_len_subset(window_days(days, today, window), r);
    }
}


/// `day_of(n)` is the UTC day that contains second `n`.
pub proof fn lemma_day_of_contains(now_secs: u64)
    ensures
        day_of(now_secs) * 86400 <= now_secs < (day_of(now_secs) + 1) * 86400,
        day_of(now_secs) >= 0,
{
    let n = now_secs as int;
    vstd::arithmetic::div_mod::lemma_fundamental_div_mod(n, 86400);
    assert(0 <= n / 86400) by {
        vstd::arithmetic::div_mod::lemma_div_pos_is_pos(n, 86400);
    }
}

/// The window count starts at zero, and adding a day not yet in the set
/// adds one exactly when the day lies between `today - window + 1` and
/// `today`.
pub proof fn lemma_window_hits_insert(days: Set<i64>, today: int, window: int, x: i64)
    requires
        days.finite(),
        !days.contains(x),
    ensures
        window_hits(Set::<i64>::empty(), today, window) == 0,
        window > 0 && today - window + 1 <= x <= today ==> window_hits(days.insert(x), today, window)
            == window_hits(days, today, window) + 1,
        !(window > 0 && today - window + 1 <= x <= today) ==> window_hits(days.insert(x), today, window)
            == window_hits(days, today, window),
{
    assert(window_days(Set::<i64>::empty(), today, window) =~= Set::<i64>::empty());
    if window > 0 {
        let w = window_days(days, today, window);
        assert(w.finite()) by {
            vstd::set_lib::lemma_set_subset_finite(days, w);
        }
        if today - window + 1 <= x <= today {
            assert(window_days(days.insert(x), today, window) =~= w.insert(x));
        } else {
            assert(window_days(days.insert(x), today, window) =~= w);
        }
    }
}

} // verus!
