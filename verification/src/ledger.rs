//! The dated ledger of a habit: at most one value for each day.

use vstd::prelude::*;
use crate::date::{lemma_day_number, Date, Ymd, DAY_NUMBERS};

verus! {

/// The dates of `entries` grow from each entry to the next, so no date
/// occurs twice.
pub open spec fn ascending<V>(entries: Seq<(Ymd, V)>) -> bool {
    forall|i: int, j: int|
        0 <= i < j < entries.len() ==> (#[trigger] entries[i]).0.precedes((#[trigger] entries[j]).0)
}

/// Every date of `entries` is a calendar date.
pub open spec fn dated<V>(entries: Seq<(Ymd, V)>) -> bool {
    forall|i: int| 0 <= i < entries.len() ==> (#[trigger] entries[i]).0.is_calendar_date()
}

/// The map from date to value that `entries` lists. Where a date occurs
/// twice the later entry counts.
pub open spec fn as_map<V>(entries: Seq<(Ymd, V)>) -> Map<Ymd, V>
    decreases entries.len(),
{
    if entries.len() == 0 {
        Map::empty()
    } else {
        as_map(entries.drop_last()).insert(entries.last().0, entries.last().1)
    }
}

/// The days up to `as_of` whose value does not count as done.
pub open spec fn open_days<V>(ledger: Map<Ymd, V>, as_of: Ymd, done: spec_fn(V) -> bool) -> Set<Ymd> {
    ledger.dom().filter(|day: Ymd| day.on_or_before(as_of) && !done(ledger[day]))
}

/// The ascending list of what `ledger` holds: its entries from the earliest
/// day to the latest. No map has two such lists
/// ([`lemma_listing_unique`]), and an ascending list is the listing of its
/// own map ([`lemma_listing`]).
pub open spec fn listing<V>(ledger: Map<Ymd, V>) -> Seq<(Ymd, V)> {
    choose|entries: Seq<(Ymd, V)>| ascending(entries) && as_map(entries) == ledger
}

/// What the map of an ascending list holds: the dates of the list and no
/// others, each with the value listed beside it.
pub proof fn lemma_as_map<V>(entries: Seq<(Ymd, V)>)
    requires
        ascending(entries),
    ensures
        as_map(entries).dom().finite(),
        as_map(entries).dom().len() == entries.len(),
        forall|i: int|
            0 <= i < entries.len() ==> as_map(entries).contains_pair(
                (#[trigger] entries[i]).0,
                entries[i].1,
            ),
        forall|day: Ymd| #[trigger]
            as_map(entries).dom().contains(day) ==> exists|i: int|
                0 <= i < entries.len() && (#[trigger] entries[i]).0 == day,
    decreases entries.len(),
{
    if entries.len() > 0 {
        let front = entries.drop_last();
        let last = entries.last();
        lemma_as_map(front);
        assert forall|i: int| 0 <= i < front.len() implies (#[trigger] front[i]).0 != last.0 by {
            assert(front[i] == entries[i]);
            assert(entries[i].0.precedes(entries[entries.len() - 1].0));
        }
        assert(!as_map(front).dom().contains(last.0));
        assert forall|i: int| 0 <= i < entries.len() implies as_map(entries).contains_pair(
            (#[trigger] entries[i]).0,
            entries[i].1,
        ) by {
            if i < front.len() {
                assert(front[i] == entries[i]);
            }
        }
        assert forall|day: Ymd| #[trigger] as_map(entries).dom().contains(day) implies exists|
            i: int,
        |
            0 <= i < entries.len() && (#[trigger] entries[i]).0 == day by {
            if day == last.0 {
                assert(entries[entries.len() - 1].0 == day);
            } else {
                let i = choose|i: int| 0 <= i < front.len() && (#[trigger] front[i]).0 == day;
                assert(entries[i].0 == day);
            }
        }
    }
}

/// Two ascending lists of the same map are the same list.
pub proof fn lemma_listing_unique<V>(a: Seq<(Ymd, V)>, b: Seq<(Ymd, V)>)
    requires
        ascending(a),
        ascending(b),
        as_map(a) == as_map(b),
    ensures
        a == b,
    decreases a.len(),
{
    lemma_as_map(a);
    lemma_as_map(b);
    if a.len() == 0 {
        assert(a =~= b);
    } else {
        let n = a.len() as int;
        let (front_a, last_a) = (a.drop_last(), a.last());
        let (front_b, last_b) = (b.drop_last(), b.last());
        assert(as_map(b).dom().contains(a[n - 1].0));
        assert(as_map(a).dom().contains(b[n - 1].0));
        let j = choose|j: int| 0 <= j < n && (#[trigger] b[j]).0 == last_a.0;
        let i = choose|i: int| 0 <= i < n && (#[trigger] a[i]).0 == last_b.0;
        if j < n - 1 {
            assert(b[j].0.precedes(b[n - 1].0));
            if i < n - 1 {
                assert(a[i].0.precedes(a[n - 1].0));
            }
        }
        assert(last_a.0 == last_b.0);
        assert(as_map(a).contains_pair(a[n - 1].0, a[n - 1].1));
        assert(as_map(b).contains_pair(b[n - 1].0, b[n - 1].1));
        assert(last_a == last_b);
        lemma_as_map(front_a);
        lemma_as_map(front_b);
        assert forall|k: int| 0 <= k < n - 1 implies (#[trigger] front_a[k]).0 != last_a.0 by {
            assert(a[k].0.precedes(a[n - 1].0));
        }
        assert forall|k: int| 0 <= k < n - 1 implies (#[trigger] front_b[k]).0 != last_b.0 by {
            assert(b[k].0.precedes(b[n - 1].0));
        }
        assert(as_map(front_a) =~= as_map(a).remove(last_a.0));
        assert(as_map(front_b) =~= as_map(b).remove(last_b.0));
        lemma_listing_unique(front_a, front_b);
        assert(a =~= front_a.push(last_a));
        assert(b =~= front_b.push(last_b));
    }
}

/// An ascending list is the [`listing`] of its map.
pub proof fn lemma_listing<V>(entries: Seq<(Ymd, V)>)
    requires
        ascending(entries),
    ensures
        listing(as_map(entries)) == entries,
{
    lemma_listing_unique(entries, listing(as_map(entries)));
}

/// An ascending list of calendar dates is no longer than there are calendar
/// dates.
pub proof fn lemma_ascending_len<V>(entries: Seq<(Ymd, V)>)
    requires
        ascending(entries),
        dated(entries),
    ensures
        entries.len() <= DAY_NUMBERS,
        forall|i: int| 0 <= i < entries.len() ==> i <= (#[trigger] entries[i]).0.day_number(),
    decreases entries.len(),
{
    if entries.len() > 0 {
        let front = entries.drop_last();
        lemma_ascending_len(front);
        let last = entries.last();
        assert forall|i: int| 0 <= i < entries.len() implies i <= (#[trigger] entries[i]).0.day_number() by {
            if i < front.len() {
                assert(front[i] == entries[i]);
            } else if i > 0 {
                assert(front[i - 1] == entries[i - 1]);
                assert(entries[i - 1].0.precedes(entries[i].0));
                lemma_day_number(entries[i - 1].0, entries[i].0);
            } else {
                lemma_day_number(entries[i].0, entries[i].0);
            }
        }
        lemma_day_number(last.0, last.0);
        assert(entries[entries.len() - 1] == last);
    }
}

/// Listing one more day adds it to the open days exactly when it lies on or
/// before `as_of` and is not done.
proof fn lemma_open_days_push<V>(
    entries: Seq<(Ymd, V)>,
    as_of: Ymd,
    done: spec_fn(V) -> bool,
)
    requires
        ascending(entries),
        entries.len() > 0,
    ensures
        open_days(as_map(entries.drop_last()), as_of, done).finite(),
        open_days(as_map(entries), as_of, done).finite(),
        open_days(as_map(entries.drop_last()), as_of, done).len() <= entries.len() - 1,
        open_days(as_map(entries), as_of, done).len() == open_days(
            as_map(entries.drop_last()),
            as_of,
            done,
        ).len() + if entries.last().0.on_or_before(as_of) && !done(entries.last().1) {
            1nat
        } else {
            0nat
        },
{
    let front = entries.drop_last();
    let last = entries.last();
    lemma_as_map(front);
    lemma_as_map(entries);
    assert forall|i: int| 0 <= i < front.len() implies (#[trigger] front[i]).0 != last.0 by {
        assert(front[i] == entries[i]);
        assert(entries[i].0.precedes(entries[entries.len() - 1].0));
    }
    assert(!as_map(front).dom().contains(last.0));
    let before = open_days(as_map(front), as_of, done);
    let after = open_days(as_map(entries), as_of, done);
    as_map(front).dom().lemma_len_filter(|day: Ymd| day.on_or_before(as_of) && !done(as_map(front)[day]));
    as_map(entries).dom().lemma_len_filter(|day: Ymd| day.on_or_before(as_of) && !done(as_map(entries)[day]));
    if last.0.on_or_before(as_of) && !done(last.1) {
        assert(after =~= before.insert(last.0));
    } else {
        assert(after =~= before);
    }
}

/// Counting the open days entry by entry: the first `i + 1` entries have one
/// open day more than the first `i` exactly when entry `i` lies on or before
/// `as_of` and is not done; and the first `i` entries have at most `i`.
pub proof fn lemma_open_days_step<V>(
    entries: Seq<(Ymd, V)>,
    i: int,
    as_of: Ymd,
    done: spec_fn(V) -> bool,
)
    requires
        ascending(entries),
        0 <= i < entries.len(),
    ensures
        open_days(as_map(entries.take(i)), as_of, done).len() <= i,
        open_days(as_map(entries.take(i + 1)), as_of, done).len() == open_days(
            as_map(entries.take(i)),
            as_of,
            done,
        ).len() + if entries[i].0.on_or_before(as_of) && !done(entries[i].1) {
            1nat
        } else {
            0nat
        },
        entries.take(entries.len() as int) == entries,
{
    let upto = entries.take(i + 1);
    assert forall|a: int, b: int| 0 <= a < b < upto.len() implies (#[trigger] upto[a]).0.precedes(
        (#[trigger] upto[b]).0,
    ) by {
        assert(entries[a].0.precedes(entries[b].0));
    }
    assert(upto.drop_last() =~= entries.take(i));
    lemma_open_days_push(upto, as_of, done);
    assert(entries.take(entries.len() as int) =~= entries);
}

/// Before any entry is counted there is no open day.
pub proof fn lemma_open_days_none<V>(entries: Seq<(Ymd, V)>, as_of: Ymd, done: spec_fn(V) -> bool)
    ensures
        open_days(as_map(entries.take(0)), as_of, done).len() == 0,
        entries.len() == 0 ==> entries.take(0) == entries,
{
    assert(open_days(as_map(entries.take(0)), as_of, done) =~= Set::<Ymd>::empty());
    if entries.len() == 0 {
        assert(entries.take(0) =~= entries);
    }
}

/// A ledger: for each day that was ever recorded, the value recorded last.
///
/// The entries are kept in the order of their dates, so a day is found by
/// halving the search range.
#[derive(Clone, Debug, PartialEq, Eq)]
pub struct Ledger<V> {
    entries: Vec<(Date, V)>,
}

impl<V> View for Ledger<V> {
    type V = Seq<(Ymd, V)>;

    /// The entries from the earliest day to the latest.
    closed spec fn view(&self) -> Seq<(Ymd, V)> {
        Seq::new(self.entries@.len(), |i: int| (self.entries@[i].0@, self.entries@[i].1))
    }
}

impl<V: Copy> Ledger<V> {
    /// The entries are in the order of their dates, all of them calendar dates.
    pub open spec fn wf(&self) -> bool {
        ascending(self@) && dated(self@)
    }

    /// The ledger as a map from day to value.
    pub open spec fn map(&self) -> Map<Ymd, V> {
        as_map(self@)
    }

    /// A ledger without entries.
    pub fn new() -> (ledger: Ledger<V>)
        ensures
            ledger.wf(),
            ledger@ == Seq::<(Ymd, V)>::empty(),
            ledger.map() == Map::<Ymd, V>::empty(),
    {
        let ledger = Ledger { entries: Vec::new() };
        assert(ledger@ =~= Seq::<(Ymd, V)>::empty());
        ledger
    }

    /// The number of days recorded.
    pub fn len(&self) -> (len: usize)
        requires
            self.wf(),
        ensures
            len == self@.len(),
            len == self.map().dom().len(),
            len <= DAY_NUMBERS,
    {
        proof {
            lemma_as_map(self@);
            lemma_ascending_len(self@);
        }
        self.entries.len()
    }

    /// The entry at place `index`, counting from the earliest day.
    pub fn entry_at(&self, index: usize) -> (entry: (Date, V))
        requires
            index < self@.len(),
        ensures
            (entry.0@, entry.1) == self@[index as int],
    {
        self.entries[index]
    }

    /// The number of entries whose day is earlier than `date`.
    fn rank(&self, date: &Date) -> (rank: usize)
        requires
            self.wf(),
        ensures
            rank <= self@.len(),
            forall|i: int| 0 <= i < rank ==> (#[trigger] self@[i]).0.precedes(date@),
            forall|i: int| rank <= i < self@.len() ==> date@.on_or_before((#[trigger] self@[i]).0),
    {
        let mut low: usize = 0;
        let mut high: usize = self.entries.len();
        while low < high
            invariant
                self.wf(),
                low <= high <= self@.len(),
                self@.len() == self.entries@.len(),
                forall|i: int| 0 <= i < low ==> (#[trigger] self@[i]).0.precedes(date@),
                forall|i: int| high <= i < self@.len() ==> date@.on_or_before((#[trigger] self@[i]).0),
            decreases high - low,
        {
            let mid = low + (high - low) / 2;
            let probe = self.entries[mid].0;
            assert(probe@ == self@[mid as int].0);
            if probe.precedes(date) {
                assert forall|i: int| 0 <= i < mid + 1 implies (#[trigger] self@[i]).0.precedes(date@) by {
                    if i < mid {
                        assert(self@[i].0.precedes(self@[mid as int].0));
                    }
                }
                low = mid + 1;
            } else {
                assert forall|i: int| mid <= i < self@.len() implies date@.on_or_before(
                    (#[trigger] self@[i]).0,
                ) by {
                    if mid < i {
                        assert(self@[mid as int].0.precedes(self@[i].0));
                    }
                }
                high = mid;
            }
        }
        low
    }

    /// The value recorded for `date`, if there is one.
    pub fn get(&self, date: Date) -> (value: Option<V>)
        requires
            self.wf(),
        ensures
            value == if self.map().dom().contains(date@) {
                Some(self.map()[date@])
            } else {
                None
            },
    {
        let rank = self.rank(&date);
        proof {
            lemma_as_map(self@);
        }
        if rank < self.entries.len() {
            let entry = self.entries[rank];
            assert((entry.0@, entry.1) == self@[rank as int]);
            if entry.0.same_day(&date) {
                return Some(entry.1);
            }
        }
        proof {
            if self.map().dom().contains(date@) {
                let i = choose|i: int| 0 <= i < self@.len() && (#[trigger] self@[i]).0 == date@;
                if i < rank {
                    assert(self@[i].0.precedes(date@));
                } else {
                    assert(self@[rank as int].0.precedes(self@[i].0) || i == rank);
                    assert(date@.on_or_before(self@[rank as int].0));
                }
            }
        }
        None
    }

    /// Records `value` for `date`, in place of what was recorded for that
    /// day before.
    pub fn insert_entry(&mut self, date: Date, value: V)
        requires
            old(self).wf(),
        ensures
            final(self).wf(),
            final(self).map() == old(self).map().insert(date@, value),
            final(self)@ == listing(old(self).map().insert(date@, value)),
    {
        let rank = self.rank(&date);
        let ghost before = self@;
        proof {
            use_type_invariant(&date);
            lemma_as_map(before);
        }
        let replace = rank < self.entries.len() && self.entries[rank].0.same_day(&date);
        if replace {
            assert(before[rank as int].0 == date@);
            self.entries.set(rank, (date, value));
            assert(self@ =~= before.update(rank as int, (date@, value)));
        } else {
            proof {
                if rank < before.len() {
                    assert(date@.on_or_before(before[rank as int].0));
                }
            }
            self.entries.insert(rank, (date, value));
            assert(self@ =~= before.insert(rank as int, (date@, value)));
        }
        proof {
            let after = self@;
            assert forall|i: int, j: int| 0 <= i < j < after.len() implies (#[trigger] after[i]).0.precedes(
                (#[trigger] after[j]).0,
            ) by {
                if replace {
                    assert(before[i].0.precedes(before[j].0));
                } else {
                    if i < rank && j > rank {
                        assert(before[i].0.precedes(before[j - 1].0));
                    } else if i < rank && j < rank {
                        assert(before[i].0.precedes(before[j].0));
                    } else if i > rank {
                        assert(before[i - 1].0.precedes(before[j - 1].0));
                    } else if i == rank {
                        assert(date@.on_or_before(before[j - 1].0));
                        assert(before[rank as int].0.precedes(before[j - 1].0) || j - 1 == rank);
                    } else {
                        assert(before[i].0.precedes(date@));
                    }
                }
            }
            assert(dated(after)) by {
                assert forall|i: int| 0 <= i < after.len() implies (#[trigger] after[i]).0.is_calendar_date() by {
                    if replace {
                        assert(before[i].0.is_calendar_date());
                    } else if i < rank {
                        assert(before[i].0.is_calendar_date());
                    } else if i > rank {
                        assert(before[i - 1].0.is_calendar_date());
                    }
                }
            }
            lemma_as_map(after);
            let wanted = as_map(before).insert(date@, value);
            assert forall|day: Ymd| as_map(after).dom().contains(day) <==> wanted.dom().contains(day) by {
                if as_map(after).dom().contains(day) {
                    let i = choose|i: int| 0 <= i < after.len() && (#[trigger] after[i]).0 == day;
                    if replace {
                        assert(before[i].0 == day);
                    } else if i < rank {
                        assert(before[i].0 == day);
                    } else if i > rank {
                        assert(before[i - 1].0 == day);
                    }
                }
                if as_map(before).dom().contains(day) {
                    let i = choose|i: int| 0 <= i < before.len() && (#[trigger] before[i]).0 == day;
                    if replace || i < rank {
                        assert(after[i].0 == day);
                    } else {
                        assert(after[i + 1].0 == day);
                    }
                }
                if day == date@ {
                    assert(after[rank as int].0 == day);
                }
            }
            assert forall|day: Ymd| #[trigger] as_map(after).dom().contains(day) implies as_map(after)[day] == wanted[day] by {
                let i = choose|i: int| 0 <= i < after.len() && (#[trigger] after[i]).0 == day;
                assert(as_map(after).contains_pair(after[i].0, after[i].1));
                if i == rank {
                } else if replace || i < rank {
                    assert(as_map(before).contains_pair(before[i].0, before[i].1));
                } else {
                    assert(as_map(before).contains_pair(before[i - 1].0, before[i - 1].1));
                }
            }
            assert(as_map(after) =~= wanted);
            lemma_listing(after);
        }
    }

    /// Records `value` for `date` after all other entries, if `date` is
    /// later than every day recorded so far; says whether it did.
    pub fn append(&mut self, date: Date, value: V) -> (appended: bool)
        requires
            old(self).wf(),
        ensures
            final(self).wf(),
            appended == (old(self)@.len() == 0 || old(self)@.last().0.precedes(date@)),
            appended ==> final(self)@ == old(self)@.push((date@, value)),
            !appended ==> final(self)@ == old(self)@,
    {
        let ghost before = self@;
        let len = self.entries.len();
        if len > 0 {
            let last = self.entries[len - 1].0;
            assert(last@ == before[len - 1].0);
            if !last.precedes(&date) {
                return false;
            }
        }
        proof {
            use_type_invariant(&date);
        }
        self.entries.push((date, value));
        proof {
            let after = self@;
            assert(after =~= before.push((date@, value)));
            assert forall|i: int, j: int| 0 <= i < j < after.len() implies (#[trigger] after[i]).0.precedes(
                (#[trigger] after[j]).0,
            ) by {
                if j < before.len() {
                    assert(before[i].0.precedes(before[j].0));
                } else if i < before.len() - 1 {
                    assert(before[i].0.precedes(before[before.len() - 1].0));
                }
            }
            assert forall|i: int| 0 <= i < after.len() implies (#[trigger] after[i]).0.is_calendar_date() by {
                if i < before.len() {
                    assert(before[i].0.is_calendar_date());
                }
            }
        }
        true
    }
}

} // verus!
