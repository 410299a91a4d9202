//! The server's state and the operations the endpoints run on it: one sync
//! round (push then pull) and the listing of current habits.
use vstd::prelude::*;

use crate::analytics::{day_of, habit_fits, habit_report, is_active, reports, stats_fit, HabitStats};
use crate::model::{Checkin, Habit};
use crate::sync::{
    accepted_count, apply, changed_since, changes_since, in_change_order, keyed_by_id, merged, numbered_below, Item, Table,
    ids_increasing, index_of_id, lemma_records_map_at, records_map,
    lemma_merged_numbers_changes, lemma_merged_prefix,
};
use crate::text::{compare_text, lex_lt, text_eq, TextOrder, lemma_lex_total, lemma_lex_transitive, lemma_lex_irreflexive};

verus! {

/// Everything the server keeps: the change counter and both record tables.
pub struct Data {
    pub counter: u64,
    pub habits: Table<Habit>,
    pub checkins: Table<Checkin>,
}

impl Data {
    /// Empty state with the counter at zero.
    pub fn new() -> (d: Data)
        ensures
            d.counter == 0,
            d.habits.view() == Map::<Seq<char>, Habit>::empty(),
            d.checkins.view() == Map::<Seq<char>, Checkin>::empty(),
    {
        Data { counter: 0, habits: Table::new(), checkins: Table::new() }
    }
}

impl Default for Data {
    fn default() -> (d: Data)
        ensures
            d.counter == 0,
            d.habits.view() == Map::<Seq<char>, Habit>::empty(),
            d.checkins.view() == Map::<Seq<char>, Checkin>::empty(),
    {
        Data::new()
    }
}

/// What a sync round answers: the new cursor and the records to send back.
pub struct SyncResponse {
    pub cursor: u64,
    pub habits: Vec<Habit>,
    pub checkins: Vec<Checkin>,
}

/// The ids of the pushed records, in push order.
pub open spec fn ids_of<T: Item>(s: Seq<T>) -> Seq<Seq<char>> {
    s.map_values(|r: T| r.spec_id())
}

/// Whether some record of `s` has id `k`.
pub open spec fn lists_id<T: Item>(s: Seq<T>, k: Seq<char>) -> bool {
    exists|j: int| 0 <= j < s.len() && #[trigger] s[j].spec_id() == k
}

/// `out` after appending, for each pushed id in order, the stored record
/// when its change number is not past `since` and `out` holds no record
/// with that id yet: a pushed record that lost is answered with the winner.
pub open spec fn echoed<T: Item>(store: Map<Seq<char>, T>, since: u64, ids: Seq<Seq<char>>, out: Seq<T>) -> Seq<T>
    decreases ids.len(),
{
    if ids.len() == 0 {
        out
    } else {
        let o = echoed(store, since, ids.drop_last(), out);
        let k = ids.last();
        if store.contains_key(k) && store[k].spec_seq() <= since && !lists_id(o, k) {
            o.push(store[k])
        } else {
            o
        }
    }
}

/// `s` is the delta of `store` past `since`: every record changed since,
/// in change order.
pub open spec fn is_delta<T: Item>(store: Map<Seq<char>, T>, since: u64, s: Seq<T>) -> bool {
    &&& forall|x: T| s.contains(x) <==> changed_since(store, since, x)
    &&& in_change_order(s)
}

/// `reply` is the delta of `store` past `since` followed by the echoes of
/// the pushed ids.
pub open spec fn sync_list<T: Item>(store: Map<Seq<char>, T>, since: u64, ids: Seq<Seq<char>>, reply: Seq<T>) -> bool {
    exists|n: int|
        0 <= n <= reply.len() && is_delta(store, since, #[trigger] reply.take(n)) && reply == echoed(
            store,
            since,
            ids,
            reply.take(n),
        )
}

/// Appends to `out` the stored records of pushed ids that the delta left out.
fn echo_pushed<T: Item>(store: &Table<T>, since: u64, ids: &Vec<String>, out: &mut Vec<T>)
    ensures
        final(out)@ == echoed(store.view(), since, ids@.map_values(|s: String| s@), old(out)@),
{
    let ghost ks = ids@.map_values(|s: String| s@);
    let ghost start = out@;
    for i in 0..ids.len()
        invariant
            ks == ids@.map_values(|s: String| s@),
            out@ == echoed(store.view(), since, ks.take(i as int), start),
    {
        let id = ids[i].as_str();
        proof {
            assert(ks.take(i + 1).drop_last() =~= ks.take(i as int));
            assert(ks.take(i + 1).last() == id@);
        }
        match store.get(id) {
            Some(current) => {
                if current.seq() <= since {
                    let mut listed = false;
                    let mut j: usize = 0;
                    while j < out.len()
                        invariant
                            j <= out@.len(),
                            listed == exists|q: int| 0 <= q < j && #[trigger] out@[q].spec_id() == id@,
                        decreases out@.len() - j,
                    {
                        if text_eq(out[j].id(), id) {
                            listed = true;
                        }
                        j = j + 1;
                    }
                    if !listed {
                        out.push(current.duplicate());
                    }
                }
            },
            None => {},
        }
    }
    proof {
        assert(ks.take(ids@.len() as int) =~= ks);
    }
}

/// One sync round: applies the pushed habits, then the pushed check-ins,
/// with one shared counter; answers with the new cursor, every record
/// changed past `since`, and the stored record of each pushed id that the
/// delta did not already carry.
pub fn sync_round(data: &mut Data, since: u64, habits: Vec<Habit>, checkins: Vec<Checkin>) -> (r: SyncResponse)
    requires
        merged(
            old(data).checkins.view(),
            checkins@,
            merged(old(data).habits.view(), habits@, old(data).counter as int).1,
        ).1 <= u64::MAX,
    ensures
        final(data).habits.view() == merged(old(data).habits.view(), habits@, old(data).counter as int).0,
        final(data).checkins.view() == merged(
            old(data).checkins.view(),
            checkins@,
            merged(old(data).habits.view(), habits@, old(data).counter as int).1,
        ).0,
        final(data).counter == merged(
            old(data).checkins.view(),
            checkins@,
            merged(old(data).habits.view(), habits@, old(data).counter as int).1,
        ).1,
        r.cursor == final(data).counter,
        sync_list(final(data).habits.view(), since, ids_of(habits@), r.habits@),
        sync_list(final(data).checkins.view(), since, ids_of(checkins@), r.checkins@),
        forall|i: int, j: int|
            0 <= i < j < r.habits@.len() ==> (#[trigger] r.habits@[i]).id@ != (#[trigger] r.habits@[j]).id@,
        forall|i: int, j: int|
            0 <= i < j < r.checkins@.len() ==> (#[trigger] r.checkins@[i]).id@ != (#[trigger] r.checkins@[j]).id@,
{
    let mut pushed_habits: Vec<String> = Vec::new();
    for i in 0..habits.len()
        invariant
            pushed_habits@.len() == i,
            pushed_habits@.map_values(|s: String| s@) == ids_of(habits@).take(i as int),
    {
        let id = habits[i].id.clone();
        pushed_habits.push(id);
        assert(pushed_habits@[i as int]@ == habits@[i as int].spec_id());
        assert(pushed_habits@.map_values(|s: String| s@) =~= ids_of(habits@).take(i + 1));
    }
    let mut pushed_checkins: Vec<String> = Vec::new();
    for i in 0..checkins.len()
        invariant
            pushed_checkins@.len() == i,
            pushed_checkins@.map_values(|s: String| s@) == ids_of(checkins@).take(i as int),
    {
        let id = checkins[i].id.clone();
        pushed_checkins.push(id);
        assert(pushed_checkins@[i as int]@ == checkins@[i as int].spec_id());
        assert(pushed_checkins@.map_values(|s: String| s@) =~= ids_of(checkins@).take(i + 1));
    }
    assert(ids_of(habits@).take(habits@.len() as int) =~= ids_of(habits@));
    assert(ids_of(checkins@).take(checkins@.len() as int) =~= ids_of(checkins@));
    proof {
        let c1 = merged(data.habits.view(), habits@, data.counter as int);
        lemma_merged_prefix(data.habits.view(), habits@, data.counter as int, 0);
        lemma_merged_prefix(data.checkins.view(), checkins@, c1.1, 0);
    }
    apply(&mut data.habits, habits, &mut data.counter);
    apply(&mut data.checkins, checkins, &mut data.counter);
    let mut out_habits = changes_since(&data.habits, since);
    let ghost base_h = out_habits@;
    echo_pushed(&data.habits, since, &pushed_habits, &mut out_habits);
    let mut out_checkins = changes_since(&data.checkins, since);
    let ghost base_c = out_checkins@;
    echo_pushed(&data.checkins, since, &pushed_checkins, &mut out_checkins);
    proof {
        lemma_echoed_extends(data.habits.view(), since, ids_of(habits@), base_h);
        lemma_echoed_extends(data.checkins.view(), since, ids_of(checkins@), base_c);
        assert(out_habits@.take(base_h.len() as int) =~= base_h);
        assert(out_checkins@.take(base_c.len() as int) =~= base_c);
        crate::sync::lemma_records_map_keyed(data.habits.records());
        crate::sync::lemma_records_map_keyed(data.checkins.records());
        lemma_sync_ids_distinct(data.habits.view(), since, ids_of(habits@), out_habits@);
        lemma_sync_ids_distinct(data.checkins.view(), since, ids_of(checkins@), out_checkins@);
    }
    SyncResponse { cursor: data.counter, habits: out_habits, checkins: out_checkins }
}

/// Whether a sync round with these pushes keeps the change counter within
/// `u64`, as `sync_round` requires.
pub fn sync_fits(data: &Data, habits: &Vec<Habit>, checkins: &Vec<Checkin>) -> (r: bool)
    ensures
        r == (merged(
            data.checkins.view(),
            checkins@,
            merged(data.habits.view(), habits@, data.counter as int).1,
        ).1 <= u64::MAX),
{
    let nh = accepted_count(&data.habits, habits);
    let nc = accepted_count(&data.checkins, checkins);
    proof {
        let h = merged(data.habits.view(), habits@, data.counter as int);
        assert(h.2 == nh);
        lemma_merged_prefix(data.habits.view(), habits@, data.counter as int, 0);
        let c = merged(data.checkins.view(), checkins@, h.1);
        assert(c.2 == nc);
        lemma_merged_prefix(data.checkins.view(), checkins@, h.1, 0);
    }
    (data.counter as u128) + (nh as u128) + (nc as u128) <= u64::MAX as u128
}

/// Echoing only appends.
pub proof fn lemma_echoed_extends<T: Item>(store: Map<Seq<char>, T>, since: u64, ids: Seq<Seq<char>>, out: Seq<T>)
    ensures
        echoed(store, since, ids, out).len() >= out.len(),
        echoed(store, since, ids, out).take(out.len() as int) == out,
    decreases ids.len(),
{
    if ids.len() > 0 {
        lemma_echoed_extends(store, since, ids.drop_last(), out);
        let o = echoed(store, since, ids.drop_last(), out);
        assert(o.push(store[ids.last()]).take(out.len() as int) =~= o.take(out.len() as int));
    }
}


/// `x` is the record `store` holds under its id.
pub open spec fn is_current<T: Item>(store: Map<Seq<char>, T>, x: T) -> bool {
    store.contains_key(x.spec_id()) && store[x.spec_id()] == x
}

proof fn lemma_echoed_answers<T: Item>(store: Map<Seq<char>, T>, since: u64, ids: Seq<Seq<char>>, base: Seq<T>)
    requires
        keyed_by_id(store),
        forall|x: T| base.contains(x) ==> is_current(store, x),
        forall|x: T| changed_since(store, since, x) ==> base.contains(x),
    ensures
        forall|x: T| echoed(store, since, ids, base).contains(x) ==> is_current(store, x),
        forall|x: T| base.contains(x) ==> echoed(store, since, ids, base).contains(x),
        forall|i: int|
            0 <= i < ids.len() && store.contains_key(#[trigger] ids[i]) ==> echoed(
                store,
                since,
                ids,
                base,
            ).contains(store[ids[i]]),
    decreases ids.len(),
{
    if ids.len() > 0 {
        let prev = ids.drop_last();
        lemma_echoed_answers(store, since, prev, base);
        let o = echoed(store, since, prev, base);
        let e = echoed(store, since, ids, base);
        let k = ids.last();
        assert forall|x: T| o.contains(x) implies e.contains(x) by {
            let j = choose|j: int| 0 <= j < o.len() && o[j] == x;
            if e != o {
                assert(e[j] == x);
            }
        }
        assert forall|x: T| e.contains(x) implies is_current(store, x) by {
            let j = choose|j: int| 0 <= j < e.len() && e[j] == x;
            if j < o.len() {
                assert(o.contains(x));
            }
        }
        assert forall|i: int| 0 <= i < ids.len() && store.contains_key(#[trigger] ids[i]) implies e.contains(
            store[ids[i]],
        ) by {
            if i < prev.len() {
                assert(prev[i] == ids[i]);
                assert(o.contains(store[prev[i]]));
            } else {
                assert(ids[i] == k);
                if store[k].spec_seq() > since {
                    assert(changed_since(store, since, store[k]));
                    assert(base.contains(store[k]));
                    assert(o.contains(store[k]));
                    assert(e.contains(store[k]));
                } else if lists_id(o, k) {
                    let j = choose|j: int| 0 <= j < o.len() && #[trigger] o[j].spec_id() == k;
                    assert(o.contains(o[j]));
                    assert(o[j] == store[k]);
                    assert(e.contains(o[j]));
                } else {
                    assert(e[e.len() - 1] == store[k]);
                    assert(e.contains(store[k]));
                }
            }
        }
    }
}

/// A sync answer carries every record changed since the client's cursor,
/// carries only records as the server now stores them, and, for each pushed
/// id the server stores, carries the stored record: a push that lost is
/// answered with the version that won.
pub proof fn lemma_sync_answers_pushed<T: Item>(store: Map<Seq<char>, T>, since: u64, ids: Seq<Seq<char>>, reply: Seq<T>)
    requires
        keyed_by_id(store),
        sync_list(store, since, ids, reply),
    ensures
        forall|x: T| changed_since(store, since, x) ==> reply.contains(x),
        forall|x: T| reply.contains(x) ==> is_current(store, x),
        forall|i: int| 0 <= i < ids.len() && store.contains_key(#[trigger] ids[i]) ==> reply.contains(store[ids[i]]),
{
    let n = choose|n: int|
        0 <= n <= reply.len() && is_delta(store, since, #[trigger] reply.take(n)) && reply == echoed(
            store,
            since,
            ids,
            reply.take(n),
        );
    let base = reply.take(n);
    lemma_echoed_answers(store, since, ids, base);
    assert forall|x: T| changed_since(store, since, x) implies reply.contains(x) by {
        assert(base.contains(x));
    }
}

/// If every stored change number is at most the counter, a sync round keeps
/// that so for the new counter it answers with as cursor, and the records
/// numbered past the old counter are exactly the ones the round wrote: a
/// client that syncs again with the returned cursor is sent only newer
/// writes.
pub proof fn lemma_sync_cursor<T: Item, U: Item>(
    habits: Map<Seq<char>, T>,
    checkins: Map<Seq<char>, U>,
    counter: u64,
    pushed_habits: Seq<T>,
    pushed_checkins: Seq<U>,
)
    requires
        numbered_below(habits, counter as int),
        numbered_below(checkins, counter as int),
        merged(checkins, pushed_checkins, merged(habits, pushed_habits, counter as int).1).1 <= u64::MAX,
    ensures
        ({
            let h = merged(habits, pushed_habits, counter as int);
            let c = merged(checkins, pushed_checkins, h.1);
            &&& numbered_below(h.0, c.1)
            &&& numbered_below(c.0, c.1)
            &&& counter <= h.1 <= c.1
            &&& forall|k: Seq<char>| #[trigger] h.0.contains_key(k) ==> (h.0[k].spec_seq() > counter <==> !(
                habits.contains_key(k) && habits[k] == h.0[k]))
            &&& forall|k: Seq<char>| #[trigger] c.0.contains_key(k) ==> (c.0[k].spec_seq() > counter <==> !(
                checkins.contains_key(k) && checkins[k] == c.0[k]))
        }),
{
    let h = merged(habits, pushed_habits, counter as int);
    lemma_merged_prefix(checkins, pushed_checkins, h.1, 0);
    lemma_merged_prefix(habits, pushed_habits, counter as int, 0);
    lemma_merged_numbers_changes(habits, pushed_habits, counter as int);
    assert(numbered_below(checkins, h.1));
    lemma_merged_numbers_changes(checkins, pushed_checkins, h.1);
    let c = merged(checkins, pushed_checkins, h.1);
    assert forall|k: Seq<char>| #[trigger] c.0.contains_key(k) implies (c.0[k].spec_seq() > counter <==> !(
        checkins.contains_key(k) && checkins[k] == c.0[k])) by {
        if checkins.contains_key(k) && checkins[k] == c.0[k] {
            assert(checkins[k].spec_seq() <= counter);
        } else {
            assert(c.0[k].spec_seq() > h.1);
        }
    }
}


/// Habits ordered by name, and habits with equal names by id.
pub open spec fn in_name_order(s: Seq<Habit>) -> bool {
    forall|i: int, j: int|
        0 <= i < j < s.len() ==> {
            ||| lex_lt((#[trigger] s[i]).name@, (#[trigger] s[j]).name@)
            ||| (s[i].name@ == s[j].name@ && lex_lt(s[i].id@, s[j].id@))
        }
}

/// The habits that are not tombstoned, sorted by name (a stable sort of the
/// id-ordered table, so equal names keep id order).
pub fn active_habits(data: &Data) -> (list: Vec<Habit>)
    ensures
        forall|x: Habit| list@.contains(x) <==> (is_current(data.habits.view(), x) && !x.deleted),
        in_name_order(list@),
{
    let values = data.habits.values();
    let ghost vs = values@;
    let mut list: Vec<Habit> = Vec::new();
    for i in 0..values.len()
        invariant
            vs == values@,
            crate::sync::ids_increasing(vs),
            crate::sync::records_map(vs) == data.habits.view(),
            in_name_order(list@),
            forall|x: Habit|
                list@.contains(x) <==> exists|j: int| 0 <= j < i && #[trigger] vs[j] == x && !x.deleted,
            forall|q: int|
                0 <= q < list@.len() ==> lex_lt(#[trigger] list@[q].id@, vs[i as int].id@) || i == vs.len(),
    {
        let habit = &values[i];
        if !habit.deleted {
            let mut p: usize = 0;
            while p < list.len() && !matches!(compare_text(list[p].name.as_str(), habit.name.as_str()), TextOrder::Greater)
                invariant
                    p <= list@.len(),
                    forall|q: int| 0 <= q < p ==> !lex_lt(habit.name@, (#[trigger] list@[q]).name@),
                decreases list@.len() - p,
            {
                proof {
                    lemma_lex_total(list@[p as int].name@, habit.name@);
                }
                p = p + 1;
            }
            let ghost before = list@;
            proof {
                if p < before.len() {
                    lemma_lex_total(before[p as int].name@, habit.name@);
                }
            }
            let copy = habit.duplicate();
            list.insert(p, copy);
            proof {
                assert(list@ == before.insert(p as int, *habit));
                assert forall|a: int, b: int| 0 <= a < b < list@.len() implies {
                    ||| lex_lt((#[trigger] list@[a]).name@, (#[trigger] list@[b]).name@)
                    ||| (list@[a].name@ == list@[b].name@ && lex_lt(list@[a].id@, list@[b].id@))
                } by {
                    if a == p {
                        // every later name is past this habit's name
                        let nb = before[b - 1].name@;
                        assert(lex_lt(habit.name@, before[p as int].name@));
                        if b - 1 > p {
                            if lex_lt(before[p as int].name@, nb) {
                                lemma_lex_transitive(habit.name@, before[p as int].name@, nb);
                            }
                        }
                    } else if b == p {
                        let na = before[a].name@;
                        lemma_lex_total(habit.name@, na);
                        assert(lex_lt(before[a].id@, vs[i as int].id@));
                    }
                }
                assert forall|x: Habit| list@.contains(x) <==> exists|j: int|
                    0 <= j < i + 1 && #[trigger] vs[j] == x && !x.deleted by {
                    if list@.contains(x) {
                        let q = choose|q: int| 0 <= q < list@.len() && list@[q] == x;
                        if q == p {
                            assert(vs[i as int] == x);
                        } else {
                            let oq = if q < p { q } else { q - 1 };
                            assert(before[oq] == x);
                            assert(before.contains(x));
                        }
                    }
                    if exists|j: int| 0 <= j < i + 1 && #[trigger] vs[j] == x && !x.deleted {
                        let j = choose|j: int| 0 <= j < i + 1 && #[trigger] vs[j] == x && !x.deleted;
                        if j == i {
                            assert(list@[p as int] == x);
                        } else {
                            assert(before.contains(x));
                            let q = choose|q: int| 0 <= q < before.len() && before[q] == x;
                            let nq = if q < p { q } else { q + 1 };
                            assert(list@[nq] == x);
                        }
                    }
                }
            }
        } else {
            proof {
                assert forall|x: Habit| list@.contains(x) <==> exists|j: int|
                    0 <= j < i + 1 && #[trigger] vs[j] == x && !x.deleted by {
                    if exists|j: int| 0 <= j < i + 1 && #[trigger] vs[j] == x && !x.deleted {
                        let j = choose|j: int| 0 <= j < i + 1 && #[trigger] vs[j] == x && !x.deleted;
                        assert(j != i);
                    }
                }
            }
        }
        proof {
            if i + 1 < vs.len() {
                assert forall|q: int| 0 <= q < list@.len() implies lex_lt(
                    #[trigger] list@[q].id@,
                    vs[i + 1].id@,
                ) by {
                    let x = list@[q];
                    assert(list@.contains(x));
                    let j = choose|j: int| 0 <= j < i + 1 && #[trigger] vs[j] == x && !x.deleted;
                    assert(lex_lt(vs[j].spec_id(), vs[i + 1].spec_id()));
                }
            }
        }
    }
    proof {
        assert forall|x: Habit| list@.contains(x) <==> (is_current(data.habits.view(), x) && !x.deleted) by {
            if list@.contains(x) {
                let j = choose|j: int| 0 <= j < vs.len() && #[trigger] vs[j] == x && !x.deleted;
                crate::sync::lemma_records_map_at(vs, j);
            }
            if is_current(data.habits.view(), x) && !x.deleted {
                let j = crate::sync::index_of_id(vs, x.spec_id());
                assert(vs[j] == x);
            }
        }
    }
    list
}

/// What the walk over all habits establishes about the reports it built.
/// Some report of `v` is about habit `id`.
pub open spec fn has_report(v: Seq<HabitStats>, id: Seq<char>) -> bool {
    exists|q: int| 0 <= q < v.len() && (#[trigger] v[q]).id@ == id
}

/// `st` reports some habit that is stored and not deleted.
pub open spec fn reported(
    habits: Map<Seq<char>, Habit>,
    checkins: Map<Seq<char>, Checkin>,
    today: int,
    st: HabitStats,
) -> bool {
    exists|h: Habit| is_active(habits, h) && #[trigger] reports(checkins, h, today, st)
}

proof fn lemma_stats_cover(
    hm: Map<Seq<char>, Habit>,
    cm: Map<Seq<char>, Checkin>,
    t: int,
    hs: Seq<Habit>,
    out: Seq<HabitStats>,
    src: Seq<int>,
)
    requires
        ids_increasing(hs),
        records_map(hs) == hm,
        forall|j: int| 0 <= j < hs.len() && !(#[trigger] hs[j]).deleted ==> habit_fits(cm, hs[j].id@, t),
        src.len() == out.len(),
        forall|q: int|
            0 <= q < src.len() ==> 0 <= #[trigger] src[q] < hs.len() && !hs[src[q]].deleted && reports(
                cm,
                hs[src[q]],
                t,
                out[q],
            ) && out[q].id@ == hs[src[q]].id@,
        forall|a: int, b: int| 0 <= a < b < src.len() ==> #[trigger] src[a] < #[trigger] src[b],
        forall|j: int|
            0 <= j < hs.len() && !(#[trigger] hs[j]).deleted ==> exists|q: int| 0 <= q < src.len() && src[q] == j,
    ensures
        stats_fit(hm, cm, t),
        forall|q: int| 0 <= q < out.len() ==> #[trigger] reported(hm, cm, t, out[q]),
        forall|h: Habit| is_active(hm, h) ==> #[trigger] has_report(out, h.id@),
        forall|a: int, b: int| 0 <= a < b < out.len() ==> lex_lt((#[trigger] out[a]).id@, (#[trigger] out[b]).id@),
{
    lemma_stats_fit_all(hm, cm, t, hs);
    lemma_stats_sound(hm, cm, t, hs, out, src);
    lemma_stats_complete(hm, hs, out, src);
    lemma_stats_ordered(hs, out, src);
}

proof fn lemma_stats_fit_all(hm: Map<Seq<char>, Habit>, cm: Map<Seq<char>, Checkin>, t: int, hs: Seq<Habit>)
    requires
        ids_increasing(hs),
        records_map(hs) == hm,
        forall|j: int| 0 <= j < hs.len() && !(#[trigger] hs[j]).deleted ==> habit_fits(cm, hs[j].id@, t),
    ensures
        stats_fit(hm, cm, t),
{
    assert forall|k: Seq<char>| #[trigger] hm.contains_key(k) && !hm[k].deleted implies habit_fits(cm, k, t) by {
        let j = index_of_id(hs, k);
        assert(hs[j] == hm[k]);
    }
}

proof fn lemma_stats_sound(
    hm: Map<Seq<char>, Habit>,
    cm: Map<Seq<char>, Checkin>,
    t: int,
    hs: Seq<Habit>,
    out: Seq<HabitStats>,
    src: Seq<int>,
)
    requires
        ids_increasing(hs),
        records_map(hs) == hm,
        src.len() == out.len(),
        forall|q: int|
            0 <= q < src.len() ==> 0 <= #[trigger] src[q] < hs.len() && !hs[src[q]].deleted && reports(
                cm,
                hs[src[q]],
                t,
                out[q],
            ),
    ensures
        forall|q: int| 0 <= q < out.len() ==> #[trigger] reported(hm, cm, t, out[q]),
{
    assert forall|q: int| 0 <= q < out.len() implies #[trigger] reported(hm, cm, t, out[q]) by {
        let j = src[q];
        lemma_records_map_at(hs, j);
        assert(is_active(hm, hs[j]));
        assert(reports(cm, hs[j], t, out[q]));
    }
}

proof fn lemma_stats_complete(hm: Map<Seq<char>, Habit>, hs: Seq<Habit>, out: Seq<HabitStats>, src: Seq<int>)
    requires
        ids_increasing(hs),
        records_map(hs) == hm,
        src.len() == out.len(),
        forall|q: int| 0 <= q < src.len() ==> 0 <= #[trigger] src[q] < hs.len() && out[q].id@ == hs[src[q]].id@,
        forall|j: int|
            0 <= j < hs.len() && !(#[trigger] hs[j]).deleted ==> exists|q: int| 0 <= q < src.len() && src[q] == j,
    ensures
        forall|h: Habit| is_active(hm, h) ==> #[trigger] has_report(out, h.id@),
{
    assert forall|h: Habit| is_active(hm, h) implies #[trigger] has_report(out, h.id@) by {
        let j = index_of_id(hs, h.id@);
        assert(hs[j] == h);
        assert(!hs[j].deleted);
        let q = choose|q: int| 0 <= q < src.len() && src[q] == j;
        assert(out[q].id@ == h.id@);
    }
}

proof fn lemma_stats_ordered(hs: Seq<Habit>, out: Seq<HabitStats>, src: Seq<int>)
    requires
        ids_increasing(hs),
        src.len() == out.len(),
        forall|q: int| 0 <= q < src.len() ==> 0 <= #[trigger] src[q] < hs.len() && out[q].id@ == hs[src[q]].id@,
        forall|a: int, b: int| 0 <= a < b < src.len() ==> #[trigger] src[a] < #[trigger] src[b],
    ensures
        forall|a: int, b: int| 0 <= a < b < out.len() ==> lex_lt((#[trigger] out[a]).id@, (#[trigger] out[b]).id@),
{
    assert forall|a: int, b: int| 0 <= a < b < out.len() implies lex_lt((#[trigger] out[a]).id@, (#[trigger] out[b]).id@) by {
        assert(src[a] < src[b]);
        assert(out[a].id@ == hs[src[a]].id@);
        assert(out[b].id@ == hs[src[b]].id@);
        assert(lex_lt(hs[src[a]].spec_id(), hs[src[b]].spec_id()));
    }
}

/// The analytics of every habit that is not deleted, in id order, for the
/// day that contains `now_secs`; `None` when some value would overflow.
#[verifier::rlimit(30)]
pub fn habit_stats(data: &Data, now_secs: u64) -> (r: Option<Vec<HabitStats>>)
    ensures
        r is Some == stats_fit(data.habits.view(), data.checkins.view(), day_of(now_secs)),
        r matches Some(v) ==> forall|q: int|
            0 <= q < v.len() ==> #[trigger] reported(data.habits.view(), data.checkins.view(), day_of(now_secs), v[q]),
        r matches Some(v) ==> forall|h: Habit| is_active(data.habits.view(), h) ==> #[trigger] has_report(v@, h.id@),
        r matches Some(v) ==> forall|a: int, b: int|
            0 <= a < b < v.len() ==> lex_lt((#[trigger] v[a]).id@, (#[trigger] v[b]).id@),
{
    let today = (now_secs / 86400) as i64;
    let ghost t = day_of(now_secs);
    let ghost hm = data.habits.view();
    let ghost cm = data.checkins.view();
    let habits = data.habits.values();
    let checkins = data.checkins.values();
    let ghost hs = habits@;
    let mut out: Vec<HabitStats> = Vec::new();
    let ghost mut src: Seq<int> = Seq::empty();
    for i in 0..habits.len()
        invariant
            hs == habits@,
            ids_increasing(hs),
            records_map(hs) == hm,
            ids_increasing(checkins@),
            records_map(checkins@) == cm,
            hm == data.habits.view(),
            cm == data.checkins.view(),
            t == day_of(now_secs),
            today == t,
            0 <= t <= i64::MAX,
            forall|j: int| 0 <= j < i && !(#[trigger] hs[j]).deleted ==> habit_fits(cm, hs[j].id@, t),
            src.len() == out@.len(),
            forall|q: int|
                0 <= q < src.len() ==> 0 <= #[trigger] src[q] < i && !hs[src[q]].deleted && reports(
                    cm,
                    hs[src[q]],
                    t,
                    out@[q],
                ) && out@[q].id@ == hs[src[q]].id@,
            forall|a: int, b: int| 0 <= a < b < src.len() ==> #[trigger] src[a] < #[trigger] src[b],
            forall|j: int| 0 <= j < i && !(#[trigger] hs[j]).deleted ==> exists|q: int| 0 <= q < src.len() && src[q] == j,
    {
        let h = &habits[i];
        if !h.deleted {
            let stats = match habit_report(h, checkins, today) {
                Some(st) => st,
                None => {
                    proof {
                        lemma_records_map_at(hs, i as int);
                        let k = hs[i as int].id@;
                        assert(hm.contains_key(k) && !hm[k].deleted && !habit_fits(cm, k, t));
                        assert(!stats_fit(hm, cm, t));
                    }
                    return None;
                },
            };
            let ghost before = src;
            let ghost before_out = out@;
            out.push(stats);
            proof {
                src = src.push(i as int);
                assert forall|q: int| 0 <= q < src.len() implies 0 <= #[trigger] src[q] < i + 1 && !hs[src[q]].deleted
                    && reports(cm, hs[src[q]], t, out@[q]) && out@[q].id@ == hs[src[q]].id@ by {
                    if q < before.len() {
                        assert(out@[q] == before_out[q]);
                        assert(src[q] == before[q]);
                    }
                }
                assert forall|j: int| 0 <= j < i + 1 && !(#[trigger] hs[j]).deleted implies exists|q: int|
                    0 <= q < src.len() && src[q] == j by {
                    if j < i {
                        let q = choose|q: int| 0 <= q < before.len() && before[q] == j;
                        assert(src[q] == j);
                    } else {
                        assert(src[src.len() - 1] == j);
                    }
                }
            }
        }
    }
    proof {
        lemma_stats_cover(hm, cm, t, hs, out@, src);
        assert(hm == data.habits.view());
        assert(t == day_of(now_secs));
        assert(forall|q: int| 0 <= q < out.len() ==> #[trigger] reported(data.habits.view(), data.checkins.view(), day_of(now_secs), out[q]));
        assert(forall|a: int, b: int| 0 <= a < b < out.len() ==> lex_lt((#[trigger] out[a]).id@, (#[trigger] out[b]).id@));
    }
    Some(out)
}


/// No two records of `s` share an id.
pub open spec fn ids_distinct<T: Item>(s: Seq<T>) -> bool {
    forall|i: int, j: int| 0 <= i < j < s.len() ==> (#[trigger] s[i]).spec_id() != (#[trigger] s[j]).spec_id()
}

proof fn lemma_echoed_distinct<T: Item>(store: Map<Seq<char>, T>, since: u64, ids: Seq<Seq<char>>, out: Seq<T>)
    requires
        keyed_by_id(store),
        ids_distinct(out),
    ensures
        ids_distinct(echoed(store, since, ids, out)),
    decreases ids.len(),
{
    if ids.len() > 0 {
        lemma_echoed_distinct(store, since, ids.drop_last(), out);
        let o = echoed(store, since, ids.drop_last(), out);
        let k = ids.last();
        if store.contains_key(k) && store[k].spec_seq() <= since && !lists_id(o, k) {
            let e = o.push(store[k]);
            assert forall|i: int, j: int| 0 <= i < j < e.len() implies (#[trigger] e[i]).spec_id() != (
            #[trigger] e[j]).spec_id() by {
                if j == o.len() {
                    assert(e[j].spec_id() == k);
                    assert(e[i] == o[i]);
                    if o[i].spec_id() == k {
                        assert(lists_id(o, k));
                    }
                } else {
                    assert(e[i] == o[i] && e[j] == o[j]);
                }
            }
        }
    }
}

/// A sync reply never carries two records with the same id: the delta holds
/// each stored record once, and a pushed id is answered only when the reply
/// has no record with that id yet.
pub proof fn lemma_sync_ids_distinct<T: Item>(store: Map<Seq<char>, T>, since: u64, ids: Seq<Seq<char>>, reply: Seq<T>)
    requires
        keyed_by_id(store),
        sync_list(store, since, ids, reply),
    ensures
        forall|i: int, j: int|
            0 <= i < j < reply.len() ==> (#[trigger] reply[i]).spec_id() != (#[trigger] reply[j]).spec_id(),
{
    let n = choose|n: int|
        0 <= n <= reply.len() && is_delta(store, since, #[trigger] reply.take(n)) && reply == echoed(
            store,
            since,
            ids,
            reply.take(n),
        );
    let base = reply.take(n);
    assert(ids_distinct(base)) by {
        assert forall|i: int, j: int| 0 <= i < j < base.len() implies (#[trigger] base[i]).spec_id() != (
        #[trigger] base[j]).spec_id() by {
            if base[i].spec_id() == base[j].spec_id() {
                assert(base.contains(base[i]));
                assert(base.contains(base[j]));
                assert(changed_since(store, since, base[i]));
                assert(changed_since(store, since, base[j]));
                assert(base[i] == base[j]);
                lemma_lex_irreflexive(base[i].spec_id());
                assert(in_change_order(base));
            }
        }
    }
    lemma_echoed_distinct(store, since, ids, base);
}

} // verus!
