//! Last-write-wins merging of pushed records and cursor-based deltas.
use vstd::prelude::*;

use crate::model::{Checkin, Habit};
use crate::text::{compare_char_seqs, chars_of, lex_lt, lemma_lex_irreflexive, lemma_lex_total, lemma_lex_transitive, TextOrder};

verus! {

/// A synced record: it has an id, the client's write time, a tombstone flag
/// and the server's change number.
pub trait Item: Sized + Clone {
    spec fn spec_id(&self) -> Seq<char>;

    spec fn spec_updated_at(&self) -> u64;

    spec fn spec_deleted(&self) -> bool;

    spec fn spec_seq(&self) -> u64;

    /// The same record with its change number replaced.
    spec fn with_seq(&self, seq: u64) -> Self;

    /// Replacing the change number keeps everything else that syncing reads.
    proof fn lemma_with_seq(&self, seq: u64)
        ensures
            self.with_seq(seq).spec_id() == self.spec_id(),
            self.with_seq(seq).spec_updated_at() == self.spec_updated_at(),
            self.with_seq(seq).spec_deleted() == self.spec_deleted(),
            self.with_seq(seq).spec_seq() == seq,
    ;

    fn id(&self) -> (r: &str)
        ensures
            r@ == self.spec_id(),
    ;

    fn updated_at(&self) -> (r: u64)
        ensures
            r == self.spec_updated_at(),
    ;

    fn deleted(&self) -> (r: bool)
        ensures
            r == self.spec_deleted(),
    ;

    fn seq(&self) -> (r: u64)
        ensures
            r == self.spec_seq(),
    ;

    fn set_seq(&mut self, seq: u64)
        ensures
            *final(self) == old(self).with_seq(seq),
    ;

    /// A copy of the record, equal to it.
    fn duplicate(&self) -> (r: Self)
        ensures
            r == *self,
    ;
}

impl Item for Habit {
    open spec fn spec_id(&self) -> Seq<char> {
        self.id@
    }

    open spec fn spec_updated_at(&self) -> u64 {
        self.updated_at
    }

    open spec fn spec_deleted(&self) -> bool {
        self.deleted
    }

    open spec fn spec_seq(&self) -> u64 {
        self.seq
    }

    open spec fn with_seq(&self, seq: u64) -> Self {
        Habit {
            id: self.id,
            name: self.name,
            schedule: self.schedule,
            updated_at: self.updated_at,
            deleted: self.deleted,
            seq: seq,
        }
    }

    proof fn lemma_with_seq(&self, seq: u64) {
    }

    fn id(&self) -> (r: &str) {
        self.id.as_str()
    }

    fn updated_at(&self) -> (r: u64) {
        self.updated_at
    }

    fn deleted(&self) -> (r: bool) {
        self.deleted
    }

    fn seq(&self) -> (r: u64) {
        self.seq
    }

    fn set_seq(&mut self, seq: u64) {
        self.seq = seq;
    }

    fn duplicate(&self) -> (r: Self) {
        Habit {
            id: self.id.clone(),
            name: self.name.clone(),
            schedule: self.schedule.clone(),
            updated_at: self.updated_at,
            deleted: self.deleted,
            seq: self.seq,
        }
    }
}

impl Item for Checkin {
    open spec fn spec_id(&self) -> Seq<char> {
        self.id@
    }

    open spec fn spec_updated_at(&self) -> u64 {
        self.updated_at
    }

    open spec fn spec_deleted(&self) -> bool {
        self.deleted
    }

    open spec fn spec_seq(&self) -> u64 {
        self.seq
    }

    open spec fn with_seq(&self, seq: u64) -> Self {
        Checkin {
            id: self.id,
            habit_id: self.habit_id,
            date: self.date,
            updated_at: self.updated_at,
            deleted: self.deleted,
            seq: seq,
        }
    }

    proof fn lemma_with_seq(&self, seq: u64) {
    }

    fn id(&self) -> (r: &str) {
        self.id.as_str()
    }

    fn updated_at(&self) -> (r: u64) {
        self.updated_at
    }

    fn deleted(&self) -> (r: bool) {
        self.deleted
    }

    fn seq(&self) -> (r: u64) {
        self.seq
    }

    fn set_seq(&mut self, seq: u64) {
        self.seq = seq;
    }

    fn duplicate(&self) -> (r: Self) {
        Checkin {
            id: self.id.clone(),
            habit_id: self.habit_id.clone(),
            date: self.date.clone(),
            updated_at: self.updated_at,
            deleted: self.deleted,
            seq: self.seq,
        }
    }
}

/// Records in strictly increasing id order (so no id occurs twice).
pub open spec fn ids_increasing<T: Item>(s: Seq<T>) -> bool {
    forall|i: int, j: int| 0 <= i < j < s.len() ==> lex_lt(#[trigger] s[i].spec_id(), #[trigger] s[j].spec_id())
}

/// Whether some record of `s` has id `k`.
pub open spec fn has_id<T: Item>(s: Seq<T>, k: Seq<char>) -> bool {
    exists|i: int| 0 <= i < s.len() && #[trigger] s[i].spec_id() == k
}

/// A position of `s` holding a record with id `k`, where there is one.
pub open spec fn index_of_id<T: Item>(s: Seq<T>, k: Seq<char>) -> int {
    choose|i: int| 0 <= i < s.len() && #[trigger] s[i].spec_id() == k
}

/// The records of `s` keyed by id.
pub open spec fn records_map<T: Item>(s: Seq<T>) -> Map<Seq<char>, T> {
    Map::new(|k: Seq<char>| has_id(s, k), |k: Seq<char>| s[index_of_id(s, k)])
}

/// Every key of `m` maps to a record with that id.
pub open spec fn keyed_by_id<T: Item>(m: Map<Seq<char>, T>) -> bool {
    forall|k: Seq<char>| #[trigger] m.contains_key(k) ==> m[k].spec_id() == k
}

/// A table's records are stored under their own ids.
pub proof fn lemma_records_map_keyed<T: Item>(s: Seq<T>)
    ensures
        keyed_by_id(records_map(s)),
{
    assert forall|k: Seq<char>| #[trigger] records_map(s).contains_key(k) implies records_map(s)[k].spec_id() == k by {
        assert(has_id(s, k));
    }
}

/// In a sequence with increasing ids, each record is what its id maps to.
pub proof fn lemma_records_map_at<T: Item>(s: Seq<T>, i: int)
    requires
        ids_increasing(s),
        0 <= i < s.len(),
    ensures
        records_map(s).contains_key(s[i].spec_id()),
        records_map(s)[s[i].spec_id()] == s[i],
{
    let k = s[i].spec_id();
    assert(has_id(s, k));
    let j = index_of_id(s, k);
    if j != i {
        lemma_lex_irreflexive(k);
        if j < i {
            assert(lex_lt(s[j].spec_id(), s[i].spec_id()));
        } else {
            assert(lex_lt(s[i].spec_id(), s[j].spec_id()));
        }
    }
}

/// A table of records keyed by id, held in increasing id order as a
/// `BTreeMap<String, _>` would hold them.
pub struct Table<T: Item> {
    entries: Vec<T>,
}

impl<T: Item> Table<T> {
    #[verifier::type_invariant]
    spec fn well_ordered(self) -> bool {
        ids_increasing(self.entries@)
    }

    /// The records in increasing id order.
    pub closed spec fn records(self) -> Seq<T> {
        self.entries@
    }

    /// The records keyed by id.
    pub open spec fn view(self) -> Map<Seq<char>, T> {
        records_map(self.records())
    }

    /// An empty table.
    pub fn new() -> (t: Self)
        ensures
            t.view() == Map::<Seq<char>, T>::empty(),
    {
        let t = Table { entries: Vec::new() };
        assert(t.view() =~= Map::<Seq<char>, T>::empty());
        t
    }

    /// The number of records.
    pub fn len(&self) -> (n: usize)
        ensures
            n == self.view().len(),
    {
        proof {
            use_type_invariant(self);
            lemma_records_map_len(self.entries@);
        }
        self.entries.len()
    }

    /// The records in increasing id order.
    pub fn values(&self) -> (r: &[T])
        ensures
            ids_increasing(r@),
            records_map(r@) == self.view(),
    {
        proof {
            use_type_invariant(self);
        }
        self.entries.as_slice()
    }

    /// The position where `key` stands or would stand, and whether it is there.
    fn locate(&self, key: &[char]) -> (r: (usize, bool))
        ensures
            r.0 <= self.entries@.len(),
            forall|i: int| 0 <= i < r.0 ==> lex_lt(#[trigger] self.entries@[i].spec_id(), key@),
            forall|i: int|
                r.0 <= i < self.entries@.len() ==> !lex_lt(#[trigger] self.entries@[i].spec_id(), key@),
            r.1 == (r.0 < self.entries@.len() && self.entries@[r.0 as int].spec_id() == key@),
    {
        proof {
            use_type_invariant(self);
        }
        let ghost s = self.entries@;
        let mut lo: usize = 0;
        let mut hi: usize = self.entries.len();
        while lo < hi
            invariant
                s == self.entries@,
                ids_increasing(s),
                lo <= hi <= s.len(),
                forall|i: int| 0 <= i < lo ==> lex_lt(#[trigger] s[i].spec_id(), key@),
                forall|i: int| hi <= i < s.len() ==> !lex_lt(#[trigger] s[i].spec_id(), key@),
            decreases hi - lo,
        {
            let mid = lo + (hi - lo) / 2;
            let mid_chars = chars_of(self.entries[mid].id());
            match compare_char_seqs(mid_chars.as_slice(), key) {
                TextOrder::Less => {
                    assert forall|i: int| 0 <= i < mid + 1 implies lex_lt(
                        #[trigger] s[i].spec_id(),
                        key@,
                    ) by {
                        if i < mid {
                            lemma_lex_transitive(s[i].spec_id(), s[mid as int].spec_id(), key@);
                        }
                    }
                    lo = mid + 1;
                },
                _ => {
                    proof {
                        lemma_lex_total(s[mid as int].spec_id(), key@);
                    }
                    assert forall|i: int| mid <= i < s.len() implies !lex_lt(
                        #[trigger] s[i].spec_id(),
                        key@,
                    ) by {
                        if i > mid && lex_lt(s[i].spec_id(), key@) {
                            lemma_lex_transitive(s[mid as int].spec_id(), s[i].spec_id(), key@);
                        }
                    }
                    hi = mid;
                },
            }
        }
        if lo < self.entries.len() {
            let c = chars_of(self.entries[lo].id());
            match compare_char_seqs(c.as_slice(), key) {
                TextOrder::Equal => (lo, true),
                _ => (lo, false),
            }
        } else {
            (lo, false)
        }
    }

    /// The record with the given id, if there is one.
    pub fn get(&self, id: &str) -> (r: Option<&T>)
        ensures
            r.is_some() == self.view().contains_key(id@),
            r matches Some(x) ==> *x == self.view()[id@],
    {
        proof {
            use_type_invariant(self);
        }
        let key = chars_of(id);
        let (pos, found) = self.locate(key.as_slice());
        if found {
            proof {
                lemma_records_map_at(self.entries@, pos as int);
            }
            Some(&self.entries[pos])
        } else {
            assert(!has_id(self.entries@, id@)) by {
                if has_id(self.entries@, id@) {
                    let j = choose|j: int| 0 <= j < self.entries@.len() && #[trigger] self.entries@[j].spec_id() == id@;
                    lemma_lex_irreflexive(id@);
                    if j > pos {
                        lemma_lex_total(self.entries@[pos as int].spec_id(), id@);
                    }
                }
            }
            None
        }
    }

    /// Stores `item` under its id, replacing any record with that id.
    pub fn insert(&mut self, item: T)
        ensures
            final(self).view() == old(self).view().insert(item.spec_id(), item),
    {
        proof {
            use_type_invariant(&*self);
        }
        let key = chars_of(item.id());
        let (pos, found) = self.locate(key.as_slice());
        let ghost old_s = self.entries@;
        let ghost k = item.spec_id();
        let mut v: Vec<T> = Vec::new();
        std::mem::swap(&mut v, &mut self.entries);
        if found {
            v.set(pos, item);
        } else {
            v.insert(pos, item);
        }
        let ghost new_s = v@;
        proof {
            lemma_lex_irreflexive(k);
            if found {
                assert(new_s == old_s.update(pos as int, item));
            } else {
                assert(new_s == old_s.insert(pos as int, item));
            }
            assert(ids_increasing(new_s)) by {
                assert forall|i: int, j: int| 0 <= i < j < new_s.len() implies lex_lt(
                    #[trigger] new_s[i].spec_id(),
                    #[trigger] new_s[j].spec_id(),
                ) by {
                    if found {
                        if j == pos {
                            assert(lex_lt(old_s[i].spec_id(), k));
                        } else if i == pos {
                            assert(lex_lt(old_s[pos as int].spec_id(), old_s[j].spec_id()));
                        }
                    } else {
                        if i == pos {
                            lemma_lex_total(old_s[j - 1].spec_id(), k);
                            assert(!lex_lt(old_s[j - 1].spec_id(), k));
                            if old_s[j - 1].spec_id() != k {
                                assert(lex_lt(k, old_s[j - 1].spec_id()));
                            } else {
                                assert(false);
                            }
                        } else if j == pos {
                            assert(lex_lt(old_s[i].spec_id(), k));
                        } else if i < pos && j > pos {
                            assert(lex_lt(old_s[i].spec_id(), old_s[j - 1].spec_id()));
                        } else if i > pos {
                            assert(lex_lt(old_s[i - 1].spec_id(), old_s[j - 1].spec_id()));
                        }
                    }
                }
            }
            lemma_insert_map(old_s, new_s, pos as int, item, found);
        }
        self.entries = v;
    }
}

/// A sequence with increasing ids has as many records as ids.
proof fn lemma_records_map_len<T: Item>(s: Seq<T>)
    requires
        ids_increasing(s),
    ensures
        records_map(s).len() == s.len(),
        records_map(s).dom().finite(),
    decreases s.len(),
{
    if s.len() == 0 {
        assert(records_map(s).dom() =~= Set::<Seq<char>>::empty());
    } else {
        let p = s.drop_last();
        assert(ids_increasing(p));
        lemma_records_map_len(p);
        let k = s.last().spec_id();
        assert(!has_id(p, k)) by {
            if has_id(p, k) {
                let j = choose|j: int| 0 <= j < p.len() && #[trigger] p[j].spec_id() == k;
                lemma_lex_irreflexive(k);
                assert(lex_lt(s[j].spec_id(), s[s.len() - 1].spec_id()));
            }
        }
        assert(records_map(s).dom() =~= records_map(p).dom().insert(k)) by {
            assert forall|x: Seq<char>| has_id(s, x) implies has_id(p, x) || x == k by {
                let j = choose|j: int| 0 <= j < s.len() && #[trigger] s[j].spec_id() == x;
                if j < p.len() {
                    assert(p[j].spec_id() == x);
                }
            }
            assert forall|x: Seq<char>| has_id(p, x) implies has_id(s, x) by {
                let j = choose|j: int| 0 <= j < p.len() && #[trigger] p[j].spec_id() == x;
                assert(s[j].spec_id() == x);
            }
            assert(s[s.len() - 1].spec_id() == k);
        }
    }
}

/// Placing `item` at `pos` (over a record with the same id, or between the
/// smaller and the larger ids) stores it under its id.
proof fn lemma_insert_map<T: Item>(old_s: Seq<T>, new_s: Seq<T>, pos: int, item: T, found: bool)
    requires
        ids_increasing(old_s),
        ids_increasing(new_s),
        0 <= pos <= old_s.len(),
        found ==> pos < old_s.len() && old_s[pos].spec_id() == item.spec_id() && new_s == old_s.update(pos, item),
        !found ==> new_s == old_s.insert(pos, item),
    ensures
        records_map(new_s) == records_map(old_s).insert(item.spec_id(), item),
{
    let k = item.spec_id();
    let m_new = records_map(new_s);
    let m_old = records_map(old_s).insert(k, item);
    assert(new_s[pos] == item);
    lemma_records_map_at(new_s, pos);
    assert forall|x: Seq<char>| #[trigger] m_new.contains_key(x) <==> m_old.contains_key(x) by {
        if has_id(new_s, x) {
            let j = choose|j: int| 0 <= j < new_s.len() && #[trigger] new_s[j].spec_id() == x;
            if j != pos {
                let oj = if !found && j > pos { j - 1 } else { j };
                assert(old_s[oj].spec_id() == x);
                assert(has_id(old_s, x));
            }
        }
        if has_id(old_s, x) && x != k {
            let j = choose|j: int| 0 <= j < old_s.len() && #[trigger] old_s[j].spec_id() == x;
            let nj = if !found && j >= pos { j + 1 } else { j };
            assert(new_s[nj].spec_id() == x);
        }
    }
    assert forall|x: Seq<char>| #[trigger] m_new.contains_key(x) implies m_new[x] == m_old[x] by {
        if x != k {
            let j = choose|j: int| 0 <= j < new_s.len() && #[trigger] new_s[j].spec_id() == x;
            assert(j != pos);
            let oj = if !found && j > pos { j - 1 } else { j };
            assert(old_s[oj] == new_s[j]);
            lemma_records_map_at(new_s, j);
            lemma_records_map_at(old_s, oj);
        }
    }
    assert(m_new =~= m_old);
}


/// Whether `incoming` wins over `existing` under last-write-wins: a later
/// write wins, and on an identical timestamp a delete beats an edit.
pub open spec fn newer<T: Item>(incoming: T, existing: T) -> bool {
    ||| incoming.spec_updated_at() > existing.spec_updated_at()
    ||| (incoming.spec_updated_at() == existing.spec_updated_at() && incoming.spec_deleted()
        && !existing.spec_deleted())
}

/// Whether the store takes `record`: its id is new, or it is newer than
/// the stored record.
pub open spec fn accepts<T: Item>(store: Map<Seq<char>, T>, record: T) -> bool {
    !store.contains_key(record.spec_id()) || newer(record, store[record.spec_id()])
}

/// The store, the change counter and the number of accepted records after
/// `incoming` is merged in order; each accepted record gets the next change
/// number.
pub open spec fn merged<T: Item>(store: Map<Seq<char>, T>, incoming: Seq<T>, counter: int) -> (
    Map<Seq<char>, T>,
    int,
    nat,
)
    decreases incoming.len(),
{
    if incoming.len() == 0 {
        (store, counter, 0)
    } else {
        let before = merged(store, incoming.drop_last(), counter);
        let record = incoming.last();
        if accepts(before.0, record) {
            (
                before.0.insert(record.spec_id(), record.with_seq((before.1 + 1) as u64)),
                before.1 + 1,
                before.2 + 1,
            )
        } else {
            before
        }
    }
}

/// Merging a prefix never takes the counter past merging the whole batch,
/// and the counter advances by exactly the number of accepted records.
pub proof fn lemma_merged_prefix<T: Item>(store: Map<Seq<char>, T>, incoming: Seq<T>, counter: int, i: int)
    requires
        0 <= i <= incoming.len(),
    ensures
        merged(store, incoming.take(i), counter).1 <= merged(store, incoming, counter).1,
        merged(store, incoming, counter).1 == counter + merged(store, incoming, counter).2,
        merged(store, incoming, counter).2 <= incoming.len(),
    decreases incoming.len(),
{
    if incoming.len() == 0 {
        assert(incoming.take(i) =~= incoming);
    } else if i == incoming.len() {
        assert(incoming.take(i) =~= incoming);
        lemma_merged_prefix(store, incoming.drop_last(), counter, i - 1);
    } else {
        assert(incoming.take(i) =~= incoming.drop_last().take(i));
        lemma_merged_prefix(store, incoming.drop_last(), counter, i);
    }
}

/// Applies pushed records to `store` with last-write-wins on `updated_at`
/// (a delete wins an exact tie), numbering each accepted record with the
/// next value of `counter`; returns how many were accepted.
pub fn apply<T: Item>(store: &mut Table<T>, incoming: Vec<T>, counter: &mut u64) -> (applied: usize)
    requires
        merged(old(store).view(), incoming@, *old(counter) as int).1 <= u64::MAX,
    ensures
        final(store).view() == merged(old(store).view(), incoming@, *old(counter) as int).0,
        *final(counter) == merged(old(store).view(), incoming@, *old(counter) as int).1,
        applied == merged(old(store).view(), incoming@, *old(counter) as int).2,
{
    let ghost m0 = store.view();
    let ghost c0 = *counter as int;
    let ghost all = incoming@;
    let mut applied: usize = 0;
    proof {
        assert(all.take(0) =~= Seq::<T>::empty());
        assert(all.len() == incoming.len());
    }
    for record in it: incoming
        invariant
            it.seq() == all,
            all.len() <= usize::MAX,
            merged(m0, all, c0).1 <= u64::MAX,
            store.view() == merged(m0, all.take(it.index() as int), c0).0,
            *counter == merged(m0, all.take(it.index() as int), c0).1,
            applied == merged(m0, all.take(it.index() as int), c0).2,
    {
        let ghost i = it.index() as int;
        let mut record = record;
        proof {
            assert(all.take(i + 1).drop_last() =~= all.take(i));
            assert(all.take(i + 1).last() == record);
            lemma_merged_prefix(m0, all, c0, i + 1);
            lemma_merged_prefix(m0, all.take(i + 1), c0, i);
            assert(all.take(i + 1).take(i) =~= all.take(i));
            lemma_merged_prefix(m0, all.take(i), c0, i);
            assert(all.take(i).take(i) =~= all.take(i));
        }
        let accept = match store.get(record.id()) {
            None => true,
            Some(existing) => {
                record.updated_at() > existing.updated_at() || (record.updated_at()
                    == existing.updated_at() && record.deleted() && !existing.deleted())
            },
        };
        if accept {
            *counter = *counter + 1;
            proof {
                record.lemma_with_seq(*counter);
            }
            record.set_seq(*counter);
            store.insert(record);
            applied = applied + 1;
        }
    }
    proof {
        assert(all.take(all.len() as int) =~= all);
    }
    applied
}

/// Changes are ordered by change number, and records with equal change
/// numbers by id.
pub open spec fn in_change_order<T: Item>(s: Seq<T>) -> bool {
    forall|i: int, j: int|
        0 <= i < j < s.len() ==> {
            ||| #[trigger] s[i].spec_seq() < #[trigger] s[j].spec_seq()
            ||| (s[i].spec_seq() == s[j].spec_seq() && lex_lt(s[i].spec_id(), s[j].spec_id()))
        }
}

/// `record` is stored in `store` with a change number past `cursor`.
pub open spec fn changed_since<T: Item>(store: Map<Seq<char>, T>, cursor: u64, record: T) -> bool {
    &&& store.contains_key(record.spec_id())
    &&& store[record.spec_id()] == record
    &&& record.spec_seq() > cursor
}

/// Every stored record whose change number is past `cursor`, in change
/// order (ties in id order, as a stable sort of the id-ordered records).
pub fn changes_since<T: Item>(store: &Table<T>, cursor: u64) -> (changes: Vec<T>)
    ensures
        forall|x: T| changes@.contains(x) <==> changed_since(store.view(), cursor, x),
        in_change_order(changes@),
{
    let values = store.values();
    let ghost vs = values@;
    let mut changes: Vec<T> = Vec::new();
    for i in 0..values.len()
        invariant
            vs == values@,
            ids_increasing(vs),
            records_map(vs) == store.view(),
            in_change_order(changes@),
            forall|x: T|
                changes@.contains(x) <==> exists|j: int|
                    0 <= j < i && #[trigger] vs[j] == x && x.spec_seq() > cursor,
            forall|q: int| 0 <= q < changes@.len() ==> lex_lt(#[trigger] changes@[q].spec_id(), vs[i as int].spec_id()) || i == vs.len(),
    {
        let record = &values[i];
        if record.seq() > cursor {
            let mut p: usize = 0;
            while p < changes.len() && changes[p].seq() <= record.seq()
                invariant
                    p <= changes@.len(),
                    forall|q: int| 0 <= q < p ==> (#[trigger] changes@[q]).spec_seq() <= record.spec_seq(),
                decreases changes@.len() - p,
            {
                p = p + 1;
            }
            let ghost before = changes@;
            let copy = record.duplicate();
            changes.insert(p, copy);
            proof {
                assert(changes@ == before.insert(p as int, *record));
                assert forall|a: int, b: int| 0 <= a < b < changes@.len() implies {
                    ||| #[trigger] changes@[a].spec_seq() < #[trigger] changes@[b].spec_seq()
                    ||| (changes@[a].spec_seq() == changes@[b].spec_seq() && lex_lt(
                        changes@[a].spec_id(),
                        changes@[b].spec_id(),
                    ))
                } by {
                    if a == p {
                        assert(before[b - 1].spec_seq() > record.spec_seq()) by {
                            if p < before.len() && b - 1 > p {
                                assert(before[p as int].spec_seq() <= before[b - 1].spec_seq());
                            }
                        }
                    } else if b == p {
                        assert(lex_lt(before[a].spec_id(), vs[i as int].spec_id()));
                    }
                }
                assert forall|x: T| changes@.contains(x) <==> exists|j: int|
                    0 <= j < i + 1 && #[trigger] vs[j] == x && x.spec_seq() > cursor by {
                    if changes@.contains(x) {
                        let q = choose|q: int| 0 <= q < changes@.len() && changes@[q] == x;
                        if q == p {
                            assert(vs[i as int] == x);
                        } else {
                            let oq = if q < p { q } else { q - 1 };
                            assert(before[oq] == x);
                            assert(before.contains(x));
                        }
                    }
                    if exists|j: int| 0 <= j < i + 1 && #[trigger] vs[j] == x && x.spec_seq() > cursor {
                        let j = choose|j: int| 0 <= j < i + 1 && #[trigger] vs[j] == x && x.spec_seq() > cursor;
                        if j == i {
                            assert(changes@[p as int] == x);
                        } else {
                            assert(before.contains(x));
                            let q = choose|q: int| 0 <= q < before.len() && before[q] == x;
                            let nq = if q < p { q } else { q + 1 };
                            assert(changes@[nq] == x);
                        }
                    }
                }
            }
        } else {
            proof {
                assert forall|x: T| changes@.contains(x) <==> exists|j: int|
                    0 <= j < i + 1 && #[trigger] vs[j] == x && x.spec_seq() > cursor by {
                    if exists|j: int| 0 <= j < i + 1 && #[trigger] vs[j] == x && x.spec_seq() > cursor {
                        let j = choose|j: int| 0 <= j < i + 1 && #[trigger] vs[j] == x && x.spec_seq() > cursor;
                        assert(j != i);
                    }
                }
            }
        }
        proof {
            if i + 1 < vs.len() {
                assert forall|q: int| 0 <= q < changes@.len() implies lex_lt(
                    #[trigger] changes@[q].spec_id(),
                    vs[i + 1].spec_id(),
                ) by {
                    let x = changes@[q];
                    assert(changes@.contains(x));
                    let j = choose|j: int| 0 <= j < i + 1 && #[trigger] vs[j] == x && x.spec_seq() > cursor;
                    assert(lex_lt(vs[j].spec_id(), vs[i + 1].spec_id()));
                }
            }
        }
    }
    proof {
        assert forall|x: T| changes@.contains(x) <==> changed_since(store.view(), cursor, x) by {
            if changes@.contains(x) {
                let j = choose|j: int| 0 <= j < vs.len() && #[trigger] vs[j] == x && x.spec_seq() > cursor;
                lemma_records_map_at(vs, j);
            }
            if changed_since(store.view(), cursor, x) {
                let j = index_of_id(vs, x.spec_id());
                assert(vs[j] == x);
            }
        }
    }
    changes
}


/// `a`'s version (write time, then tombstone over live) is not past `b`'s.
pub open spec fn no_newer<T: Item>(a: T, b: T) -> bool {
    !newer(a, b)
}

/// A delete beats an edit that carries the identical timestamp, and the edit
/// does not beat the delete.
pub proof fn lemma_delete_wins_tie<T: Item>(edit: T, tomb: T)
    requires
        edit.spec_updated_at() == tomb.spec_updated_at(),
        tomb.spec_deleted(),
        !edit.spec_deleted(),
    ensures
        newer(tomb, edit),
        !newer(edit, tomb),
{
}

/// Last-write-wins orders versions totally: of two records, exactly one is
/// newer unless both carry the same timestamp and tombstone flag.
pub proof fn lemma_newer_total<T: Item>(a: T, b: T)
    ensures
        !(newer(a, b) && newer(b, a)),
        newer(a, b) || newer(b, a) || (a.spec_updated_at() == b.spec_updated_at()
            && a.spec_deleted() == b.spec_deleted()),
{
}

/// After a merge, every id that was stored is still stored with a version
/// at least as new, and every pushed record is matched by a stored version
/// at least as new.
pub proof fn lemma_merged_keeps_newest<T: Item>(store: Map<Seq<char>, T>, incoming: Seq<T>, counter: int)
    ensures
        forall|k: Seq<char>|
            #![trigger store.contains_key(k)]
            store.contains_key(k) ==> merged(store, incoming, counter).0.contains_key(k)
                && no_newer(store[k], merged(store, incoming, counter).0[k]),
        forall|i: int|
            0 <= i < incoming.len() ==> merged(store, incoming, counter).0.contains_key(
                (#[trigger] incoming[i]).spec_id(),
            ) && no_newer(incoming[i], merged(store, incoming, counter).0[incoming[i].spec_id()]),
    decreases incoming.len(),
{
    if incoming.len() > 0 {
        let prev = incoming.drop_last();
        lemma_merged_keeps_newest(store, prev, counter);
        let before = merged(store, prev, counter);
        let r = incoming.last();
        let after = merged(store, incoming, counter);
        if accepts(before.0, r) {
            r.lemma_with_seq((before.1 + 1) as u64);
            assert forall|i: int| 0 <= i < incoming.len() implies after.0.contains_key(
                (#[trigger] incoming[i]).spec_id(),
            ) && no_newer(incoming[i], after.0[incoming[i].spec_id()]) by {
                if i < prev.len() {
                    assert(incoming[i] == prev[i]);
                }
            }
        } else {
            assert forall|i: int| 0 <= i < incoming.len() implies after.0.contains_key(
                (#[trigger] incoming[i]).spec_id(),
            ) && no_newer(incoming[i], after.0[incoming[i].spec_id()]) by {
                if i < prev.len() {
                    assert(incoming[i] == prev[i]);
                }
            }
        }
    }
}

/// A store that already holds a version at least as new as every pushed
/// record accepts none of them.
pub proof fn lemma_merged_rejects_covered<T: Item>(store: Map<Seq<char>, T>, incoming: Seq<T>, counter: int)
    requires
        forall|i: int|
            0 <= i < incoming.len() ==> store.contains_key((#[trigger] incoming[i]).spec_id())
                && no_newer(incoming[i], store[incoming[i].spec_id()]),
    ensures
        merged(store, incoming, counter) == (store, counter, 0nat),
    decreases incoming.len(),
{
    if incoming.len() > 0 {
        let prev = incoming.drop_last();
        assert forall|i: int| 0 <= i < prev.len() implies store.contains_key(
            (#[trigger] prev[i]).spec_id(),
        ) && no_newer(prev[i], store[prev[i].spec_id()]) by {
            assert(prev[i] == incoming[i]);
        }
        lemma_merged_rejects_covered(store, prev, counter);
        assert(incoming.last() == incoming[incoming.len() - 1]);
    }
}

/// Pushing the same batch twice changes nothing the second time: a client
/// that retries a push after a lost reply gets no record re-numbered.
pub proof fn lemma_apply_idempotent<T: Item>(store: Map<Seq<char>, T>, incoming: Seq<T>, counter: int)
    ensures
        merged(
            merged(store, incoming, counter).0,
            incoming,
            merged(store, incoming, counter).1,
        ) == (merged(store, incoming, counter).0, merged(store, incoming, counter).1, 0nat),
{
    lemma_merged_keeps_newest(store, incoming, counter);
    lemma_merged_rejects_covered(
        merged(store, incoming, counter).0,
        incoming,
        merged(store, incoming, counter).1,
    );
}

/// Every stored change number is at most `counter`.
pub open spec fn numbered_below<T: Item>(store: Map<Seq<char>, T>, counter: int) -> bool {
    forall|k: Seq<char>| #[trigger] store.contains_key(k) ==> store[k].spec_seq() <= counter
}

/// `record` is what `store` held under its id before.
pub open spec fn unchanged<T: Item>(store: Map<Seq<char>, T>, k: Seq<char>, record: T) -> bool {
    store.contains_key(k) && store[k] == record
}

/// If no stored change number is past the counter, a merge keeps it so, and
/// afterwards exactly the records this merge wrote carry change numbers past
/// the old counter; so a client whose cursor is the old counter is sent
/// exactly what changed since.
pub proof fn lemma_merged_numbers_changes<T: Item>(store: Map<Seq<char>, T>, incoming: Seq<T>, counter: int)
    requires
        numbered_below(store, counter),
        0 <= counter,
        merged(store, incoming, counter).1 <= u64::MAX,
    ensures
        numbered_below(merged(store, incoming, counter).0, merged(store, incoming, counter).1),
        merged(store, incoming, counter).1 >= counter,
        forall|k: Seq<char>|
            #[trigger] merged(store, incoming, counter).0.contains_key(k) ==> (merged(
                store,
                incoming,
                counter,
            ).0[k].spec_seq() > counter <==> !unchanged(store, k, merged(store, incoming, counter).0[k])),
    decreases incoming.len(),
{
    if incoming.len() > 0 {
        let prev = incoming.drop_last();
        lemma_merged_prefix(store, incoming, counter, incoming.len() - 1);
        assert(incoming.take(incoming.len() - 1) =~= prev);
        lemma_merged_prefix(store, prev, counter, 0);
        lemma_merged_numbers_changes(store, prev, counter);
        let before = merged(store, prev, counter);
        let r = incoming.last();
        if accepts(before.0, r) {
            r.lemma_with_seq((before.1 + 1) as u64);
            let after = merged(store, incoming, counter);
            assert forall|k: Seq<char>| #[trigger] after.0.contains_key(k) implies (after.0[k].spec_seq()
                > counter <==> !unchanged(store, k, after.0[k])) by {
                if k == r.spec_id() {
                    if store.contains_key(k) {
                        assert(store[k].spec_seq() <= counter);
                    }
                }
            }
        }
    }
}


/// A pushed record that wins is stored under its id with the next change
/// number; one that loses leaves the store and the counter as they were.
pub proof fn lemma_single_push<T: Item>(store: Map<Seq<char>, T>, record: T, counter: int)
    ensures
        accepts(store, record) ==> merged(store, seq![record], counter) == (
            store.insert(record.spec_id(), record.with_seq((counter + 1) as u64)),
            counter + 1,
            1nat,
        ),
        !accepts(store, record) ==> merged(store, seq![record], counter) == (store, counter, 0nat),
{
    let s = seq![record];
    assert(s.drop_last() =~= Seq::<T>::empty());
    assert(s.last() == record);
    assert(merged(store, s.drop_last(), counter) == (store, counter, 0nat));
    assert(s.len() == 1);
}


/// Two stores hold the same ids with the same versions (write time and
/// tombstone flag); they may differ in change numbers and payloads.
pub open spec fn same_versions<T: Item>(a: Map<Seq<char>, T>, b: Map<Seq<char>, T>) -> bool {
    &&& a.dom() == b.dom()
    &&& forall|k: Seq<char>|
        #[trigger] a.contains_key(k) ==> a[k].spec_updated_at() == b[k].spec_updated_at() && a[k].spec_deleted()
            == b[k].spec_deleted()
}

/// Which pushed records a store accepts depends only on the versions it
/// holds, not on change numbers or payloads.
pub proof fn lemma_merged_same_versions<T: Item>(
    a: Map<Seq<char>, T>,
    b: Map<Seq<char>, T>,
    incoming: Seq<T>,
    ca: int,
    cb: int,
)
    requires
        same_versions(a, b),
    ensures
        same_versions(merged(a, incoming, ca).0, merged(b, incoming, cb).0),
        merged(a, incoming, ca).2 == merged(b, incoming, cb).2,
    decreases incoming.len(),
{
    if incoming.len() > 0 {
        let prev = incoming.drop_last();
        lemma_merged_same_versions(a, b, prev, ca, cb);
        let ma = merged(a, prev, ca);
        let mb = merged(b, prev, cb);
        let r = incoming.last();
        r.lemma_with_seq((ma.1 + 1) as u64);
        r.lemma_with_seq((mb.1 + 1) as u64);
        assert(ma.0.contains_key(r.spec_id()) == mb.0.contains_key(r.spec_id()));
        if accepts(ma.0, r) {
            let na = ma.0.insert(r.spec_id(), r.with_seq((ma.1 + 1) as u64));
            let nb = mb.0.insert(r.spec_id(), r.with_seq((mb.1 + 1) as u64));
            assert(na.dom() =~= nb.dom());
        }
    }
}

impl<T: Item> Table<T> {
    /// A copy of the table.
    pub fn copy(&self) -> (t: Self)
        ensures
            t.view() == self.view(),
    {
        proof {
            use_type_invariant(self);
        }
        let mut entries: Vec<T> = Vec::new();
        for i in 0..self.entries.len()
            invariant
                entries@ == self.entries@.take(i as int),
        {
            entries.push(self.entries[i].duplicate());
            assert(entries@ =~= self.entries@.take(i + 1));
        }
        assert(entries@ =~= self.entries@);
        Table { entries }
    }
}

/// How many of the pushed records `apply` would accept, whatever the counter.
pub fn accepted_count<T: Item>(store: &Table<T>, incoming: &Vec<T>) -> (n: usize)
    ensures
        forall|c: int| #[trigger] merged(store.view(), incoming@, c).2 == n,
{
    let ghost m0 = store.view();
    let ghost all = incoming@;
    let mut scratch = store.copy();
    let mut n: usize = 0;
    proof {
        assert(all.take(0) =~= Seq::<T>::empty());
    }
    for i in 0..incoming.len()
        invariant
            all == incoming@,
            same_versions(scratch.view(), merged(m0, all.take(i as int), 0).0),
            n == merged(m0, all.take(i as int), 0).2,
    {
        let record = &incoming[i];
        let ghost before = merged(m0, all.take(i as int), 0);
        proof {
            assert(all.take(i + 1).drop_last() =~= all.take(i as int));
            assert(all.take(i + 1).last() == *record);
            lemma_merged_prefix(m0, all.take(i + 1), 0, i as int);
            assert(all.take(i + 1).take(i as int) =~= all.take(i as int));
        }
        let accept = match scratch.get(record.id()) {
            None => true,
            Some(existing) => {
                record.updated_at() > existing.updated_at() || (record.updated_at()
                    == existing.updated_at() && record.deleted() && !existing.deleted())
            },
        };
        if accept {
            proof {
                record.lemma_with_seq((before.1 + 1) as u64);
                let na = scratch.view().insert(record.spec_id(), *record);
                let nb = before.0.insert(record.spec_id(), record.with_seq((before.1 + 1) as u64));
                assert(na.dom() =~= nb.dom());
            }
            scratch.insert(record.duplicate());
            n = n + 1;
        }
    }
    proof {
        assert(all.take(all.len() as int) =~= all);
        assert forall|c: int| #[trigger] merged(m0, all, c).2 == n by {
            lemma_merged_same_versions(m0, m0, all, c, 0);
        }
    }
    n
}


/// Last-write-wins in terms of the two records' fields: a strictly later
/// write always wins, whatever the tombstone flags; a strictly earlier one
/// never does; on an identical timestamp exactly a delete over a live record
/// wins.
pub proof fn lemma_newer_is_last_write_wins<T: Item>(a: T, b: T)
    ensures
        a.spec_updated_at() > b.spec_updated_at() ==> newer(a, b),
        a.spec_updated_at() < b.spec_updated_at() ==> !newer(a, b),
        a.spec_updated_at() == b.spec_updated_at() ==> (newer(a, b) <==> (a.spec_deleted()
            && !b.spec_deleted())),
{
}

/// Pushing one record onto a store that holds its id: if the pushed write is
/// later, it is stored (renumbered with the next change number) and counted;
/// if it is earlier, the store and counter are unchanged.
pub proof fn lemma_push_over_stored<T: Item>(store: Map<Seq<char>, T>, record: T, counter: int)
    requires
        store.contains_key(record.spec_id()),
    ensures
        record.spec_updated_at() > store[record.spec_id()].spec_updated_at() ==> {
            &&& merged(store, seq![record], counter).0.contains_key(record.spec_id())
            &&& merged(store, seq![record], counter).0[record.spec_id()] == record.with_seq(
                (counter + 1) as u64,
            )
            &&& merged(store, seq![record], counter).1 == counter + 1
            &&& merged(store, seq![record], counter).2 == 1
        },
        record.spec_updated_at() < store[record.spec_id()].spec_updated_at() ==> merged(
            store,
            seq![record],
            counter,
        ) == (store, counter, 0nat),
{
    lemma_single_push(store, record, counter);
    lemma_newer_is_last_write_wins(record, store[record.spec_id()]);
}

} // verus!
