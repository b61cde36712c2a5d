//! Habits: a name, a target and a ledger, in two kinds.
//!
//! A [`Bit`] is done or not done on a day; a [`Count`] logs an amount for a
//! day and is done on it once the amount reaches the target. Days without an
//! entry are not counted at all: neither as tracked nor as remaining.

use vstd::prelude::*;
use crate::date::{Date, Ymd};
use crate::event::{Event, Step};
use crate::ledger::{
    as_map, ascending, dated, lemma_as_map, lemma_open_days_none, lemma_open_days_step, listing,
    open_days, Ledger,
};

verus! {

/// The amounts that count as done for a target: those that reach it.
pub open spec fn reaches(target: u32) -> spec_fn(u32) -> bool {
    |amount: u32| amount >= target
}

/// The marks that count as done: `true`.
pub open spec fn ticked() -> spec_fn(bool) -> bool {
    |done: bool| done
}

/// What a [`Count`] stands for.
pub struct CountView {
    pub name: Seq<char>,
    pub target: u32,
    /// The logged amounts, from the earliest day to the latest.
    pub entries: Seq<(Ymd, u32)>,
}

impl CountView {
    /// The entries are in the order of their dates, all of them calendar dates.
    pub open spec fn wf(self) -> bool {
        ascending(self.entries) && dated(self.entries)
    }

    /// The ledger: the amount logged for each recorded day.
    pub open spec fn ledger(self) -> Map<Ymd, u32> {
        as_map(self.entries)
    }

    /// The number of recorded days.
    pub open spec fn total(self) -> nat {
        self.ledger().dom().len()
    }

    /// The number of recorded days up to `as_of` whose amount is below the
    /// target.
    pub open spec fn remaining(self, as_of: Ymd) -> nat {
        open_days(self.ledger(), as_of, reaches(self.target)).len()
    }

    /// The amount logged for `day`; none counts as zero.
    pub open spec fn amount_on(self, day: Ymd) -> u32 {
        if self.ledger().dom().contains(day) {
            self.ledger()[day]
        } else {
            0
        }
    }

    /// The habit with `amount` logged for `day`, in place of any earlier
    /// amount for that day.
    pub open spec fn with_entry(self, day: Ymd, amount: u32) -> CountView {
        CountView { entries: listing(self.ledger().insert(day, amount)), ..self }
    }

    /// The habit after one step on `today`: one more, unless the amount is
    /// the largest there is, or one less, unless it is zero.
    pub open spec fn stepped(self, step: Step, today: Ymd) -> CountView {
        let amount = self.amount_on(today);
        self.with_entry(
            today,
            match step {
                Step::Up => if amount < u32::MAX {
                    (amount + 1) as u32
                } else {
                    amount
                },
                Step::Down => if amount > 0 {
                    (amount - 1) as u32
                } else {
                    amount
                },
            },
        )
    }

    /// The habit after an input: stepped where the input asks for a step,
    /// unchanged where it does not.
    pub open spec fn after_input(self, event: Event, today: Ymd) -> CountView {
        match event.step() {
            Some(step) => self.stepped(step, today),
            None => self,
        }
    }
}

/// What a [`Bit`] stands for.
pub struct BitView {
    pub name: Seq<char>,
    pub target: u32,
    /// The marks, from the earliest day to the latest.
    pub entries: Seq<(Ymd, bool)>,
}

impl BitView {
    /// The entries are in the order of their dates, all of them calendar dates.
    pub open spec fn wf(self) -> bool {
        ascending(self.entries) && dated(self.entries)
    }

    /// The ledger: for each recorded day, whether the habit was done.
    pub open spec fn ledger(self) -> Map<Ymd, bool> {
        as_map(self.entries)
    }

    /// The number of recorded days.
    pub open spec fn total(self) -> nat {
        self.ledger().dom().len()
    }

    /// The number of recorded days up to `as_of` on which the habit was not
    /// done.
    pub open spec fn remaining(self, as_of: Ymd) -> nat {
        open_days(self.ledger(), as_of, ticked()).len()
    }

    /// The habit with `done` recorded for `day`, in place of any earlier mark
    /// for that day.
    pub open spec fn with_entry(self, day: Ymd, done: bool) -> BitView {
        BitView { entries: listing(self.ledger().insert(day, done)), ..self }
    }

    /// The habit after one step on `today`: up marks the day done, down marks
    /// it not done.
    pub open spec fn stepped(self, step: Step, today: Ymd) -> BitView {
        self.with_entry(today, step == Step::Up)
    }

    /// The habit after an input: stepped where the input asks for a step,
    /// unchanged where it does not.
    pub open spec fn after_input(self, event: Event, today: Ymd) -> BitView {
        match event.step() {
            Some(step) => self.stepped(step, today),
            None => self,
        }
    }
}

/// What a [`Habit`] stands for.
pub enum HabitView {
    Bit(BitView),
    Count(CountView),
}

impl HabitView {
    /// The entries are in the order of their dates, all of them calendar dates.
    pub open spec fn wf(self) -> bool {
        match self {
            HabitView::Bit(bit) => bit.wf(),
            HabitView::Count(count) => count.wf(),
        }
    }

    /// The name of the habit.
    pub open spec fn name(self) -> Seq<char> {
        match self {
            HabitView::Bit(bit) => bit.name,
            HabitView::Count(count) => count.name,
        }
    }

    /// The target of the habit.
    pub open spec fn target(self) -> u32 {
        match self {
            HabitView::Bit(bit) => bit.target,
            HabitView::Count(count) => count.target,
        }
    }

    /// The number of recorded days.
    pub open spec fn total(self) -> nat {
        match self {
            HabitView::Bit(bit) => bit.total(),
            HabitView::Count(count) => count.total(),
        }
    }

    /// The number of recorded days up to `as_of` that are not done.
    pub open spec fn remaining(self, as_of: Ymd) -> nat {
        match self {
            HabitView::Bit(bit) => bit.remaining(as_of),
            HabitView::Count(count) => count.remaining(as_of),
        }
    }

    /// The habit after an input that reached it on `today`.
    pub open spec fn after_input(self, event: Event, today: Ymd) -> HabitView {
        match self {
            HabitView::Bit(bit) => HabitView::Bit(bit.after_input(event, today)),
            HabitView::Count(count) => HabitView::Count(count.after_input(event, today)),
        }
    }
}

/// No habit has more days to do than days recorded.
pub proof fn lemma_remaining_within_total(habit: HabitView, as_of: Ymd)
    requires
        habit.wf(),
    ensures
        habit.remaining(as_of) <= habit.total(),
{
    match habit {
        HabitView::Bit(bit) => {
            lemma_as_map(bit.entries);
            bit.ledger().dom().lemma_len_filter(
                |day: Ymd| day.on_or_before(as_of) && !ticked()(bit.ledger()[day]),
            );
        },
        HabitView::Count(count) => {
            lemma_as_map(count.entries);
            count.ledger().dom().lemma_len_filter(
                |day: Ymd| day.on_or_before(as_of) && !reaches(count.target)(count.ledger()[day]),
            );
        },
    }
}

/// A habit that logs an amount for a day, and is done on the days on which
/// the amount reaches the target.
#[derive(Clone, Debug, PartialEq, Eq)]
pub struct Count {
    name: String,
    target: u32,
    ledger: Ledger<u32>,
}

impl View for Count {
    type V = CountView;

    closed spec fn view(&self) -> CountView {
        CountView { name: self.name@, target: self.target, entries: self.ledger@ }
    }
}

/// The habit that the tracker adds on request: a gym habit with a target of
/// five and five days logged in April 2020.
pub open spec fn sample_habit() -> CountView {
    CountView {
        name: "gym"@,
        target: 5,
        entries: seq![
            (Ymd { year: 2020, month: 4, day: 11 }, 7u32),
            (Ymd { year: 2020, month: 4, day: 12 }, 8u32),
            (Ymd { year: 2020, month: 4, day: 13 }, 9u32),
            (Ymd { year: 2020, month: 4, day: 14 }, 10u32),
            (Ymd { year: 2020, month: 4, day: 15 }, 11u32),
        ],
    }
}

impl Count {
    /// The entries are in the order of their dates, all of them calendar dates.
    pub open spec fn wf(&self) -> bool {
        self@.wf()
    }

    /// A habit without entries.
    pub fn new(name: &str, target: u32) -> (habit: Count)
        ensures
            habit.wf(),
            habit@ == (CountView { name: name@, target, entries: Seq::empty() }),
    {
        Count { name: name.to_owned(), target, ledger: Ledger::new() }
    }

    /// The habit with this name, target and ledger.
    pub fn from_parts(name: String, target: u32, ledger: Ledger<u32>) -> (habit: Count)
        ensures
            habit@ == (CountView { name: name@, target, entries: ledger@ }),
    {
        Count { name, target, ledger }
    }

    /// The ledger of the habit.
    pub fn ledger(&self) -> (ledger: &Ledger<u32>)
        ensures
            ledger@ == self@.entries,
    {
        &self.ledger
    }

    /// The sample habit.
    pub fn sample() -> (habit: Count)
        ensures
            habit.wf(),
            habit@ == sample_habit(),
    {
        let mut habit = Count::new("gym", 5);
        let mut day: u32 = 11;
        while day < 16
            invariant
                11 <= day <= 16,
                habit.wf(),
                habit@.name == "gym"@,
                habit@.target == 5,
                habit@.entries == sample_habit().entries.take(day - 11),
            decreases 16 - day,
        {
            let ghost before = habit@.entries;
            match Date::from_ymd(2020, 4, day) {
                Some(date) => {
                    let appended = habit.ledger.append(date, day - 4);
                    assert(appended) by {
                        if before.len() > 0 {
                            assert(before.last() == sample_habit().entries[day - 12]);
                        }
                    }
                    assert(habit@.entries =~= sample_habit().entries.take(day - 10));
                },
                None => {
                    assert(false);
                },
            }
            day += 1;
        }
        assert(habit@.entries =~= sample_habit().entries);
        habit
    }

    /// The name of the habit.
    pub fn name(&self) -> (name: &str)
        ensures
            name@ == self@.name,
    {
        self.name.as_str()
    }

    /// The target of the habit.
    pub fn target(&self) -> (target: u32)
        ensures
            target == self@.target,
    {
        self.target
    }

    /// Logs `amount` for `date`, in place of any earlier amount for that day.
    pub fn insert_entry(&mut self, date: Date, amount: u32)
        requires
            old(self).wf(),
        ensures
            final(self).wf(),
            final(self)@ == old(self)@.with_entry(date@, amount),
            final(self)@.ledger() == old(self)@.ledger().insert(date@, amount),
    {
        self.ledger.insert_entry(date, amount);
    }

    /// The amount logged for `date`, if one was.
    pub fn get(&self, date: Date) -> (amount: Option<u32>)
        requires
            self.wf(),
        ensures
            amount == if self@.ledger().dom().contains(date@) {
                Some(self@.ledger()[date@])
            } else {
                None
            },
    {
        self.ledger.get(date)
    }

    /// The number of recorded days.
    pub fn total(&self) -> (total: u32)
        requires
            self.wf(),
        ensures
            total == self@.total(),
            total == self@.entries.len(),
    {
        self.ledger.len() as u32
    }

    /// The number of recorded days up to `as_of` whose amount is below the
    /// target.
    pub fn remaining(&self, as_of: Date) -> (remaining: u32)
        requires
            self.wf(),
        ensures
            remaining == self@.remaining(as_of@),
            remaining <= self@.total(),
    {
        let len = self.ledger.len();
        let mut remaining: u32 = 0;
        let mut i: usize = 0;
        proof {
            lemma_open_days_none(self@.entries, as_of@, reaches(self.target));
        }
        while i < len
            invariant
                i <= len,
                len == self@.entries.len(),
                len <= u32::MAX,
                self.wf(),
                self@.entries == self.ledger@,
                remaining <= i,
                remaining == open_days(as_map(self@.entries.take(i as int)), as_of@, reaches(self.target)).len(),
            decreases len - i,
        {
            let (day, amount) = self.ledger.entry_at(i);
            proof {
                lemma_open_days_step(self@.entries, i as int, as_of@, reaches(self.target));
            }
            if day.on_or_before(&as_of) && amount < self.target {
                remaining += 1;
            }
            i += 1;
        }
        proof {
            if len > 0 {
                lemma_open_days_step(self@.entries, 0, as_of@, reaches(self.target));
            }
            lemma_as_map(self@.entries);
        }
        remaining
    }

    /// Lets the habit react to an input on `today`. Enter and `n` log one
    /// more for today, backspace and `p` one less; the amount neither wraps
    /// around nor falls below zero. Says whether the input meant anything.
    pub fn handle_input(&mut self, event: &Event, today: Date) -> (consumed: bool)
        requires
            old(self).wf(),
        ensures
            final(self).wf(),
            consumed == event.step() is Some,
            final(self)@ == old(self)@.after_input(*event, today@),
    {
        match event.to_step() {
            Some(step) => {
                let amount = match self.ledger.get(today) {
                    Some(amount) => amount,
                    None => 0,
                };
                let next = match step {
                    Step::Up => if amount < u32::MAX {
                        amount + 1
                    } else {
                        amount
                    },
                    Step::Down => if amount > 0 {
                        amount - 1
                    } else {
                        amount
                    },
                };
                self.ledger.insert_entry(today, next);
                true
            },
            None => false,
        }
    }
}

/// A habit that is done or not done on a day. Its target is kept with
/// it; whether a day is done does not depend on it.
#[derive(Clone, Debug, PartialEq, Eq)]
pub struct Bit {
    name: String,
    target: u32,
    ledger: Ledger<bool>,
}

impl View for Bit {
    type V = BitView;

    closed spec fn view(&self) -> BitView {
        BitView { name: self.name@, target: self.target, entries: self.ledger@ }
    }
}

impl Bit {
    /// The entries are in the order of their dates, all of them calendar dates.
    pub open spec fn wf(&self) -> bool {
        self@.wf()
    }

    /// A habit without entries.
    pub fn new(name: &str, target: u32) -> (habit: Bit)
        ensures
            habit.wf(),
            habit@ == (BitView { name: name@, target, entries: Seq::empty() }),
    {
        Bit { name: name.to_owned(), target, ledger: Ledger::new() }
    }

    /// The habit with this name, target and ledger.
    pub fn from_parts(name: String, target: u32, ledger: Ledger<bool>) -> (habit: Bit)
        ensures
            habit@ == (BitView { name: name@, target, entries: ledger@ }),
    {
        Bit { name, target, ledger }
    }

    /// The ledger of the habit.
    pub fn ledger(&self) -> (ledger: &Ledger<bool>)
        ensures
            ledger@ == self@.entries,
    {
        &self.ledger
    }

    /// The name of the habit.
    pub fn name(&self) -> (name: &str)
        ensures
            name@ == self@.name,
    {
        self.name.as_str()
    }

    /// The target of the habit.
    pub fn target(&self) -> (target: u32)
        ensures
            target == self@.target,
    {
        self.target
    }

    /// Records for `date` whether the habit was done, in place of any
    /// earlier mark for that day.
    pub fn insert_entry(&mut self, date: Date, done: bool)
        requires
            old(self).wf(),
        ensures
            final(self).wf(),
            final(self)@ == old(self)@.with_entry(date@, done),
            final(self)@.ledger() == old(self)@.ledger().insert(date@, done),
    {
        self.ledger.insert_entry(date, done);
    }

    /// The mark recorded for `date`, if one was.
    pub fn get(&self, date: Date) -> (done: Option<bool>)
        requires
            self.wf(),
        ensures
            done == if self@.ledger().dom().contains(date@) {
                Some(self@.ledger()[date@])
            } else {
                None
            },
    {
        self.ledger.get(date)
    }

    /// The number of recorded days.
    pub fn total(&self) -> (total: u32)
        requires
            self.wf(),
        ensures
            total == self@.total(),
            total == self@.entries.len(),
    {
        self.ledger.len() as u32
    }

    /// The number of recorded days up to `as_of` on which the habit was not
    /// done.
    pub fn remaining(&self, as_of: Date) -> (remaining: u32)
        requires
            self.wf(),
        ensures
            remaining == self@.remaining(as_of@),
            remaining <= self@.total(),
    {
        let len = self.ledger.len();
        let mut remaining: u32 = 0;
        let mut i: usize = 0;
        proof {
            lemma_open_days_none(self@.entries, as_of@, ticked());
        }
        while i < len
            invariant
                i <= len,
                len == self@.entries.len(),
                len <= u32::MAX,
                self.wf(),
                self@.entries == self.ledger@,
                remaining <= i,
                remaining == open_days(as_map(self@.entries.take(i as int)), as_of@, ticked()).len(),
            decreases len - i,
        {
            let (day, done) = self.ledger.entry_at(i);
            proof {
                lemma_open_days_step(self@.entries, i as int, as_of@, ticked());
            }
            if day.on_or_before(&as_of) && !done {
                remaining += 1;
            }
            i += 1;
        }
        proof {
            if len > 0 {
                lemma_open_days_step(self@.entries, 0, as_of@, ticked());
            }
            lemma_as_map(self@.entries);
        }
        remaining
    }

    /// Lets the habit react to an input on `today`. Enter and `n` mark today
    /// done, backspace and `p` mark it not done. Says whether the input
    /// meant anything.
    pub fn handle_input(&mut self, event: &Event, today: Date) -> (consumed: bool)
        requires
            old(self).wf(),
        ensures
            final(self).wf(),
            consumed == event.step() is Some,
            final(self)@ == old(self)@.after_input(*event, today@),
    {
        match event.to_step() {
            Some(step) => {
                let done = match step {
                    Step::Up => true,
                    Step::Down => false,
                };
                self.ledger.insert_entry(today, done);
                true
            },
            None => false,
        }
    }
}

/// A habit of either kind.
#[derive(Clone, Debug, PartialEq, Eq)]
pub enum Habit {
    Bit(Bit),
    Count(Count),
}

impl View for Habit {
    type V = HabitView;

    open spec fn view(&self) -> HabitView {
        match self {
            Habit::Bit(bit) => HabitView::Bit(bit@),
            Habit::Count(count) => HabitView::Count(count@),
        }
    }
}

impl Habit {
    /// The entries are in the order of their dates, all of them calendar dates.
    pub open spec fn wf(&self) -> bool {
        self@.wf()
    }

    /// The name of the habit.
    pub fn name(&self) -> (name: &str)
        ensures
            name@ == self@.name(),
    {
        match self {
            Habit::Bit(bit) => bit.name(),
            Habit::Count(count) => count.name(),
        }
    }

    /// The target of the habit.
    pub fn target(&self) -> (target: u32)
        ensures
            target == self@.target(),
    {
        match self {
            Habit::Bit(bit) => bit.target(),
            Habit::Count(count) => count.target(),
        }
    }

    /// The number of recorded days, whatever the day asked about.
    pub fn total(&self) -> (total: u32)
        requires
            self.wf(),
        ensures
            total == self@.total(),
    {
        match self {
            Habit::Bit(bit) => bit.total(),
            Habit::Count(count) => count.total(),
        }
    }

    /// The number of recorded days up to `as_of` that are not done.
    pub fn remaining(&self, as_of: Date) -> (remaining: u32)
        requires
            self.wf(),
        ensures
            remaining == self@.remaining(as_of@),
            remaining <= self@.total(),
    {
        match self {
            Habit::Bit(bit) => bit.remaining(as_of),
            Habit::Count(count) => count.remaining(as_of),
        }
    }

    /// Lets the habit react to an input on `today`; says whether the input
    /// meant anything to it.
    pub fn handle_input(&mut self, event: &Event, today: Date) -> (consumed: bool)
        requires
            old(self).wf(),
        ensures
            final(self).wf(),
            consumed == event.step() is Some,
            final(self)@ == old(self)@.after_input(*event, today@),
    {
        match self {
            Habit::Bit(bit) => bit.handle_input(event, today),
            Habit::Count(count) => count.handle_input(event, today),
        }
    }
}

} // verus!
