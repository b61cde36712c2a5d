//! The snapshot: all habits and the focus as one text, and that text read
//! back.
//!
//! The text is JSON of one fixed shape, without spaces:
//!
//! ```text
//! {"habits":[{"kind":"count","name":"gym","target":5,"ledger":[[2020,4,11,7]]},
//! {"kind":"bit","name":"read","target":1,"ledger":[[2020,4,12,true]]}],"focus":0}
//! ```
//!
//! (in one line). An entry of a ledger is year, month, day and value. Only
//! text of exactly this shape is read.

use vstd::prelude::*;
use crate::date::{Date, Ymd, MAX_YEAR, MIN_YEAR};
use crate::habit::{Bit, BitView, Count, CountView, Habit, HabitView};
use crate::ledger::{ascending, dated, Ledger};
use crate::text::{
    decimal, is_digit, lemma_decimal, lemma_number_read, lemma_number_written,
    lemma_quoted_read, lemma_quoted_written, lemma_stands_at_char, lemma_stands_at_joined,
    number_at, push_decimal, push_quoted, push_str, quoted, quoted_at, read_number, read_quoted,
    skip_piece, stands_at, to_chars, to_string,
};

verus! {

/// The two kinds of habit.
#[derive(Clone, Copy, Debug, PartialEq, Eq, Structural)]
pub enum Kind {
    Bit,
    Count,
}

/// A character stands before a piece exactly when it stands first and the
/// piece behind it.
pub proof fn lemma_char_then(text: Seq<char>, at: int, c: char, rest: Seq<char>)
    ensures
        stands_at(text, at, seq![c] + rest) <==> 0 <= at < text.len() && text[at] == c
            && stands_at(text, at + 1, rest),
        stands_at(text, at, seq![c]) <==> 0 <= at < text.len() && text[at] == c,
{
    lemma_stands_at_joined(text, at, seq![c], rest);
    if stands_at(text, at, seq![c]) {
        lemma_stands_at_char(text, at, seq![c], 0);
    }
    if 0 <= at < text.len() && text[at] == c {
        assert(text.subrange(at, at + 1) =~= seq![c]);
    }
}

/// A whole number as written: in decimal, with a minus sign before it where
/// it is below zero.
pub open spec fn int_text(i: int) -> Seq<char> {
    if i < 0 {
        seq!['-'] + decimal((-i) as nat)
    } else {
        decimal(i as nat)
    }
}

/// The whole number written at `at` and the place behind it.
pub open spec fn int_at(text: Seq<char>, at: int) -> Option<(int, int)> {
    if 0 <= at < text.len() && text[at] == '-' {
        match number_at(text, at + 1) {
            Some((n, end)) => if n > 0 {
                Some((-(n as int), end))
            } else {
                None
            },
            None => None,
        }
    } else {
        match number_at(text, at) {
            Some((n, end)) => Some((n as int, end)),
            None => None,
        }
    }
}

/// Reading a whole number that was written, where no digit follows it.
pub proof fn lemma_int_written(text: Seq<char>, at: int, i: int)
    requires
        stands_at(text, at, int_text(i)),
        at + int_text(i).len() < text.len() ==> !is_digit(text[at + int_text(i).len()]),
    ensures
        int_at(text, at) == Some((i, at + int_text(i).len())),
{
    if i < 0 {
        lemma_char_then(text, at, '-', decimal((-i) as nat));
        lemma_number_written(text, at + 1, (-i) as nat);
    } else {
        lemma_decimal(i as nat);
        lemma_stands_at_char(text, at, decimal(i as nat), 0);
        lemma_number_written(text, at, i as nat);
    }
}

/// A whole number that was read stands at its place as written.
pub proof fn lemma_int_read(text: Seq<char>, at: int, i: int, end: int)
    requires
        int_at(text, at) == Some((i, end)),
    ensures
        stands_at(text, at, int_text(i)),
        end == at + int_text(i).len(),
        at < end <= text.len(),
        end < text.len() ==> !is_digit(text[end]),
{
    if 0 <= at < text.len() && text[at] == '-' {
        lemma_number_read(text, at + 1, (-i) as nat, end);
        lemma_char_then(text, at, '-', decimal((-i) as nat));
    } else {
        lemma_number_read(text, at, i as nat, end);
    }
}

/// The value of a ledger entry as written: an amount in decimal, a mark as
/// `true` or `false`.
pub open spec fn value_text(kind: Kind, value: u32) -> Seq<char> {
    match kind {
        Kind::Count => decimal(value as nat),
        Kind::Bit => if value != 0 {
            "true"@
        } else {
            "false"@
        },
    }
}

/// The value written at `at` and the place behind it. A mark is read as 1
/// or 0.
pub open spec fn value_at(kind: Kind, text: Seq<char>, at: int) -> Option<(u32, int)> {
    match kind {
        Kind::Count => match number_at(text, at) {
            Some((n, end)) => if n <= u32::MAX {
                Some((n as u32, end))
            } else {
                None
            },
            None => None,
        },
        Kind::Bit => if stands_at(text, at, "true"@) {
            Some((1u32, at + 4))
        } else if stands_at(text, at, "false"@) {
            Some((0u32, at + 5))
        } else {
            None
        },
    }
}

/// Whether `value` can be the value of an entry of this kind: a mark is 0
/// or 1.
pub open spec fn fits(kind: Kind, value: u32) -> bool {
    kind == Kind::Bit ==> value <= 1
}

/// Reading a value that was written, where no digit follows it.
pub proof fn lemma_value_written(kind: Kind, text: Seq<char>, at: int, value: u32)
    requires
        fits(kind, value),
        stands_at(text, at, value_text(kind, value)),
        at + value_text(kind, value).len() < text.len() ==> !is_digit(
            text[at + value_text(kind, value).len()],
        ),
    ensures
        value_at(kind, text, at) == Some((value, at + value_text(kind, value).len())),
{
    reveal_strlit("true");
    reveal_strlit("false");
    match kind {
        Kind::Count => {
            lemma_number_written(text, at, value as nat);
        },
        Kind::Bit => {
            if value == 0 {
                if stands_at(text, at, "true"@) {
                    lemma_stands_at_char(text, at, "true"@, 0);
                    lemma_stands_at_char(text, at, "false"@, 0);
                }
            }
        },
    }
}

/// A value that was read stands at its place as written, and fits its kind.
pub proof fn lemma_value_read(kind: Kind, text: Seq<char>, at: int, value: u32, end: int)
    requires
        value_at(kind, text, at) == Some((value, end)),
    ensures
        fits(kind, value),
        stands_at(text, at, value_text(kind, value)),
        end == at + value_text(kind, value).len(),
        at < end <= text.len(),
{
    reveal_strlit("true");
    reveal_strlit("false");
    match kind {
        Kind::Count => {
            lemma_number_read(text, at, value as nat, end);
        },
        Kind::Bit => {},
    }
}

/// An entry of a ledger as written: year, month, day and value between
/// square brackets.
#[verifier::opaque]
pub open spec fn entry_text(kind: Kind, entry: (Ymd, u32)) -> Seq<char> {
    seq!['['] + (int_text(entry.0.year) + (seq![','] + (decimal(entry.0.month as nat) + (seq![',']
        + (decimal(entry.0.day as nat) + (seq![','] + (value_text(kind, entry.1) + seq![
        ']',
    ])))))))
}

/// The entry written at `at` and the place behind it. Its date must be a
/// calendar date.
#[verifier::opaque]
pub open spec fn entry_at(kind: Kind, text: Seq<char>, at: int) -> Option<((Ymd, u32), int)> {
    if !(0 <= at < text.len() && text[at] == '[') {
        None
    } else {
        match int_at(text, at + 1) {
            Some((year, a)) => if !(a < text.len() && text[a] == ',') {
                None
            } else {
                match number_at(text, a + 1) {
                    Some((month, b)) => if !(b < text.len() && text[b] == ',') {
                        None
                    } else {
                        match number_at(text, b + 1) {
                            Some((day, c)) => if !(c < text.len() && text[c] == ',') {
                                None
                            } else {
                                match value_at(kind, text, c + 1) {
                                    Some((value, d)) => {
                                        let date = Ymd {
                                            year,
                                            month: month as int,
                                            day: day as int,
                                        };
                                        if d < text.len() && text[d] == ']'
                                            && date.is_calendar_date() {
                                            Some(((date, value), d + 1))
                                        } else {
                                            None
                                        }
                                    },
                                    None => None,
                                }
                            },
                            None => None,
                        }
                    },
                    None => None,
                }
            },
            None => None,
        }
    }
}

/// Reading an entry that was written.
pub proof fn lemma_entry_written(kind: Kind, text: Seq<char>, at: int, entry: (Ymd, u32))
    requires
        entry.0.is_calendar_date(),
        fits(kind, entry.1),
        stands_at(text, at, entry_text(kind, entry)),
    ensures
        entry_at(kind, text, at) == Some((entry, at + entry_text(kind, entry).len())),
        0 <= at < text.len(),
        text[at] == '[',
{
    reveal(entry_text);
    reveal(entry_at);
    let year = int_text(entry.0.year);
    let month = decimal(entry.0.month as nat);
    let day = decimal(entry.0.day as nat);
    let value = value_text(kind, entry.1);
    let t7 = seq![']'];
    let t6 = value + t7;
    let t5 = seq![','] + t6;
    let t4 = day + t5;
    let t3 = seq![','] + t4;
    let t2 = month + t3;
    let t1 = seq![','] + t2;
    let t0 = year + t1;
    let p0 = at + 1;
    let p1 = p0 + year.len();
    let p2 = p1 + 1;
    let p3 = p2 + month.len();
    let p4 = p3 + 1;
    let p5 = p4 + day.len();
    let p6 = p5 + 1;
    let p7 = p6 + value.len();
    lemma_char_then(text, at, '[', t0);
    lemma_stands_at_joined(text, p0, year, t1);
    lemma_char_then(text, p1, ',', t2);
    lemma_stands_at_joined(text, p2, month, t3);
    lemma_char_then(text, p3, ',', t4);
    lemma_stands_at_joined(text, p4, day, t5);
    lemma_char_then(text, p5, ',', t6);
    lemma_stands_at_joined(text, p6, value, t7);
    lemma_char_then(text, p7, ']', Seq::empty());
    lemma_int_written(text, p0, entry.0.year);
    lemma_number_written(text, p2, entry.0.month as nat);
    lemma_number_written(text, p4, entry.0.day as nat);
    lemma_value_written(kind, text, p6, entry.1);
    let date = Ymd { year: entry.0.year, month: entry.0.month as nat as int, day: entry.0.day as nat as int };
    assert(date == entry.0);
}

/// An entry that was read stands at its place as written; its date is a
/// calendar date and its value fits its kind.
pub proof fn lemma_entry_read(kind: Kind, text: Seq<char>, at: int, entry: (Ymd, u32), end: int)
    requires
        entry_at(kind, text, at) == Some((entry, end)),
    ensures
        entry.0.is_calendar_date(),
        fits(kind, entry.1),
        stands_at(text, at, entry_text(kind, entry)),
        end == at + entry_text(kind, entry).len(),
        at < end <= text.len(),
{
    reveal(entry_text);
    reveal(entry_at);
    let year = int_text(entry.0.year);
    let month = decimal(entry.0.month as nat);
    let day = decimal(entry.0.day as nat);
    let value = value_text(kind, entry.1);
    let t7 = seq![']'];
    let t6 = value + t7;
    let t5 = seq![','] + t6;
    let t4 = day + t5;
    let t3 = seq![','] + t4;
    let t2 = month + t3;
    let t1 = seq![','] + t2;
    let t0 = year + t1;
    let p0 = at + 1;
    let (y, p1) = int_at(text, p0).unwrap();
    let p2 = p1 + 1;
    let (m, p3) = number_at(text, p2).unwrap();
    let p4 = p3 + 1;
    let (d, p5) = number_at(text, p4).unwrap();
    let p6 = p5 + 1;
    let (v, p7) = value_at(kind, text, p6).unwrap();
    lemma_int_read(text, p0, y, p1);
    lemma_number_read(text, p2, m, p3);
    lemma_number_read(text, p4, d, p5);
    lemma_value_read(kind, text, p6, v, p7);
    lemma_char_then(text, p7, ']', Seq::empty());
    lemma_stands_at_joined(text, p6, value, t7);
    lemma_char_then(text, p5, ',', t6);
    lemma_stands_at_joined(text, p4, day, t5);
    lemma_char_then(text, p3, ',', t4);
    lemma_stands_at_joined(text, p2, month, t3);
    lemma_char_then(text, p1, ',', t2);
    lemma_stands_at_joined(text, p0, year, t1);
    lemma_char_then(text, at, '[', t0);
}

/// The value of every entry fits the kind.
pub open spec fn all_fit(kind: Kind, entries: Seq<(Ymd, u32)>) -> bool {
    forall|i: int| 0 <= i < entries.len() ==> fits(kind, (#[trigger] entries[i]).1)
}

/// Entries as written one behind the other, a comma before each.
pub open spec fn entries_run(kind: Kind, entries: Seq<(Ymd, u32)>) -> Seq<char>
    decreases entries.len(),
{
    if entries.len() == 0 {
        Seq::empty()
    } else {
        seq![','] + (entry_text(kind, entries[0]) + entries_run(kind, entries.drop_first()))
    }
}

/// A ledger as written: its entries between square brackets, with commas
/// between them.
pub open spec fn entries_text(kind: Kind, entries: Seq<(Ymd, u32)>) -> Seq<char> {
    if entries.len() == 0 {
        seq!['[', ']']
    } else {
        seq!['['] + (entry_text(kind, entries[0]) + (entries_run(kind, entries.drop_first())
            + seq![']']))
    }
}

/// The entries written from `at` on, a comma before each, up to the closing
/// bracket, and the place behind that bracket.
pub open spec fn entries_run_at(kind: Kind, text: Seq<char>, at: int) -> Option<
    (Seq<(Ymd, u32)>, int),
>
    decreases text.len() - at,
{
    if !(0 <= at < text.len()) {
        None
    } else if text[at] == ']' {
        Some((Seq::empty(), at + 1))
    } else if text[at] == ',' {
        match entry_at(kind, text, at + 1) {
            Some((entry, next)) => if at < next <= text.len() {
                match entries_run_at(kind, text, next) {
                    Some((rest, end)) => Some((seq![entry] + rest, end)),
                    None => None,
                }
            } else {
                None
            },
            None => None,
        }
    } else {
        None
    }
}

/// The ledger written at `at` and the place behind it.
pub open spec fn entries_at(kind: Kind, text: Seq<char>, at: int) -> Option<
    (Seq<(Ymd, u32)>, int),
> {
    if !(0 <= at < text.len() && text[at] == '[') {
        None
    } else if at + 1 < text.len() && text[at + 1] == ']' {
        Some((Seq::empty(), at + 2))
    } else {
        match entry_at(kind, text, at + 1) {
            Some((entry, next)) => match entries_run_at(kind, text, next) {
                Some((rest, end)) => Some((seq![entry] + rest, end)),
                None => None,
            },
            None => None,
        }
    }
}

/// Writing one more entry at the end adds a comma and the entry.
pub proof fn lemma_entries_run_push(kind: Kind, entries: Seq<(Ymd, u32)>, entry: (Ymd, u32))
    ensures
        entries_run(kind, entries.push(entry)) == entries_run(kind, entries) + (seq![',']
            + entry_text(kind, entry)),
    decreases entries.len(),
{
    let longer = entries.push(entry);
    if entries.len() == 0 {
        assert(longer.drop_first() =~= Seq::<(Ymd, u32)>::empty());
        assert(entries_run(kind, longer.drop_first()) =~= Seq::<char>::empty());
        assert(entries_run(kind, longer) =~= entries_run(kind, entries) + (seq![',']
            + entry_text(kind, entry)));
    } else {
        lemma_entries_run_push(kind, entries.drop_first(), entry);
        assert(longer.drop_first() =~= entries.drop_first().push(entry));
        assert(longer[0] == entries[0]);
        assert(entries_run(kind, longer) =~= entries_run(kind, entries) + (seq![',']
            + entry_text(kind, entry)));
    }
}

/// Reading entries that were written, up to the closing bracket.
pub proof fn lemma_entries_run_written(
    kind: Kind,
    text: Seq<char>,
    at: int,
    entries: Seq<(Ymd, u32)>,
)
    requires
        dated(entries),
        all_fit(kind, entries),
        stands_at(text, at, entries_run(kind, entries) + seq![']']),
    ensures
        entries_run_at(kind, text, at) == Some(
            (entries, at + entries_run(kind, entries).len() + 1),
        ),
    decreases entries.len(),
{
    let close = seq![']'];
    if entries.len() == 0 {
        assert(entries_run(kind, entries) + close =~= close);
        lemma_char_then(text, at, ']', Seq::empty());
    } else {
        let first = entry_text(kind, entries[0]);
        let rest = entries.drop_first();
        let tail = entries_run(kind, rest) + close;
        assert(entries_run(kind, entries) + close =~= seq![','] + (first + tail));
        lemma_char_then(text, at, ',', first + tail);
        lemma_stands_at_joined(text, at + 1, first, tail);
        assert(entries[0].0.is_calendar_date() && fits(kind, entries[0].1));
        lemma_entry_written(kind, text, at + 1, entries[0]);
        assert forall|i: int| 0 <= i < rest.len() implies (#[trigger] rest[i]).0.is_calendar_date()
            && fits(kind, rest[i].1) by {
            assert(rest[i] == entries[i + 1]);
        }
        lemma_entries_run_written(kind, text, at + 1 + first.len(), rest);
        assert(seq![entries[0]] + rest =~= entries);
    }
}

/// Entries that were read up to the closing bracket stand at their place
/// as written; their dates are calendar dates and their values fit.
pub proof fn lemma_entries_run_read(
    kind: Kind,
    text: Seq<char>,
    at: int,
    entries: Seq<(Ymd, u32)>,
    end: int,
)
    requires
        entries_run_at(kind, text, at) == Some((entries, end)),
    ensures
        dated(entries),
        all_fit(kind, entries),
        stands_at(text, at, entries_run(kind, entries) + seq![']']),
        end == at + entries_run(kind, entries).len() + 1,
        at < end <= text.len(),
    decreases text.len() - at,
{
    let close = seq![']'];
    if text[at] == ']' {
        assert(entries_run(kind, entries) + close =~= close);
        lemma_char_then(text, at, ']', Seq::empty());
    } else {
        let (entry, next) = entry_at(kind, text, at + 1).unwrap();
        let (rest, _) = entries_run_at(kind, text, next).unwrap();
        lemma_entry_read(kind, text, at + 1, entry, next);
        lemma_entries_run_read(kind, text, next, rest, end);
        assert(entries.drop_first() =~= rest);
        assert(entries[0] == entry);
        let first = entry_text(kind, entry);
        let tail = entries_run(kind, rest) + close;
        assert(entries_run(kind, entries) + close =~= seq![','] + (first + tail));
        lemma_stands_at_joined(text, at + 1, first, tail);
        lemma_char_then(text, at, ',', first + tail);
        assert forall|i: int| 0 <= i < entries.len() implies (#[trigger] entries[i]).0.is_calendar_date()
            && fits(kind, entries[i].1) by {
            if i > 0 {
                assert(entries[i] == rest[i - 1]);
            }
        }
    }
}

/// Reading a ledger that was written.
pub proof fn lemma_entries_written(kind: Kind, text: Seq<char>, at: int, entries: Seq<(Ymd, u32)>)
    requires
        dated(entries),
        all_fit(kind, entries),
        stands_at(text, at, entries_text(kind, entries)),
    ensures
        entries_at(kind, text, at) == Some((entries, at + entries_text(kind, entries).len())),
{
    if entries.len() == 0 {
        lemma_char_then(text, at, '[', seq![']']);
        lemma_char_then(text, at + 1, ']', Seq::empty());
        assert(seq!['['] + seq![']'] =~= seq!['[', ']']);
    } else {
        let first = entry_text(kind, entries[0]);
        let rest = entries.drop_first();
        let tail = entries_run(kind, rest) + seq![']'];
        lemma_char_then(text, at, '[', first + tail);
        lemma_stands_at_joined(text, at + 1, first, tail);
        assert(entries[0].0.is_calendar_date() && fits(kind, entries[0].1));
        lemma_entry_written(kind, text, at + 1, entries[0]);
        assert forall|i: int| 0 <= i < rest.len() implies (#[trigger] rest[i]).0.is_calendar_date()
            && fits(kind, rest[i].1) by {
            assert(rest[i] == entries[i + 1]);
        }
        lemma_entries_run_written(kind, text, at + 1 + first.len(), rest);
        assert(seq![entries[0]] + rest =~= entries);
    }
}

/// A ledger that was read stands at its place as written; its dates are
/// calendar dates and its values fit.
pub proof fn lemma_entries_read(
    kind: Kind,
    text: Seq<char>,
    at: int,
    entries: Seq<(Ymd, u32)>,
    end: int,
)
    requires
        entries_at(kind, text, at) == Some((entries, end)),
    ensures
        dated(entries),
        all_fit(kind, entries),
        stands_at(text, at, entries_text(kind, entries)),
        end == at + entries_text(kind, entries).len(),
        at < end <= text.len(),
{
    if at + 1 < text.len() && text[at + 1] == ']' {
        lemma_char_then(text, at + 1, ']', Seq::empty());
        lemma_char_then(text, at, '[', seq![']']);
        assert(seq!['['] + seq![']'] =~= seq!['[', ']']);
    } else {
        let (entry, next) = entry_at(kind, text, at + 1).unwrap();
        let (rest, _) = entries_run_at(kind, text, next).unwrap();
        lemma_entry_read(kind, text, at + 1, entry, next);
        lemma_entries_run_read(kind, text, next, rest, end);
        assert(entries.drop_first() =~= rest);
        assert(entries[0] == entry);
        let first = entry_text(kind, entry);
        let tail = entries_run(kind, rest) + seq![']'];
        lemma_stands_at_joined(text, at + 1, first, tail);
        lemma_char_then(text, at, '[', first + tail);
        assert forall|i: int| 0 <= i < entries.len() implies (#[trigger] entries[i]).0.is_calendar_date()
            && fits(kind, entries[i].1) by {
            if i > 0 {
                assert(entries[i] == rest[i - 1]);
            }
        }
    }
}

/// The kind of a habit.
pub open spec fn kind_of(habit: HabitView) -> Kind {
    match habit {
        HabitView::Bit(_) => Kind::Bit,
        HabitView::Count(_) => Kind::Count,
    }
}

/// The entries of a habit with numbers for values: a mark counts as 1 where
/// it is set and as 0 where it is not.
pub open spec fn numbered(habit: HabitView) -> Seq<(Ymd, u32)> {
    match habit {
        HabitView::Bit(bit) => Seq::new(
            bit.entries.len(),
            |i: int|
                (
                    bit.entries[i].0,
                    if bit.entries[i].1 {
                        1u32
                    } else {
                        0u32
                    },
                ),
        ),
        HabitView::Count(count) => count.entries,
    }
}

/// The habit of the given kind with these entries, a mark being set where
/// the number is not 0.
pub open spec fn habit_from(kind: Kind, name: Seq<char>, target: u32, entries: Seq<(Ymd, u32)>) -> HabitView {
    match kind {
        Kind::Bit => HabitView::Bit(
            BitView {
                name,
                target,
                entries: Seq::new(entries.len(), |i: int| (entries[i].0, entries[i].1 != 0)),
            },
        ),
        Kind::Count => HabitView::Count(CountView { name, target, entries }),
    }
}

/// How a habit of each kind begins.
pub open spec fn head_text(kind: Kind) -> Seq<char> {
    match kind {
        Kind::Bit => "{\"kind\":\"bit\",\"name\":"@,
        Kind::Count => "{\"kind\":\"count\",\"name\":"@,
    }
}

/// What stands before the target of a habit.
pub open spec fn target_key() -> Seq<char> {
    ",\"target\":"@
}

/// What stands before the ledger of a habit.
pub open spec fn ledger_key() -> Seq<char> {
    ",\"ledger\":"@
}

/// How the snapshot begins.
pub open spec fn habits_key() -> Seq<char> {
    "{\"habits\":"@
}

/// What stands before the focus.
pub open spec fn focus_key() -> Seq<char> {
    ",\"focus\":"@
}

/// What the pieces hold that the proofs need: their lengths, the comma
/// that begins those that follow a number, and the letter that tells the
/// two kinds apart.
pub proof fn lemma_pieces()
    ensures
        head_text(Kind::Bit).len() == 21,
        head_text(Kind::Count).len() == 23,
        head_text(Kind::Bit)[9] == 'b',
        head_text(Kind::Count)[9] == 'c',
        head_text(Kind::Bit)[0] == '{',
        head_text(Kind::Count)[0] == '{',
        target_key().len() == 10,
        ledger_key().len() == 10,
        ledger_key()[0] == ',',
        habits_key().len() == 10,
        focus_key().len() == 9,
        focus_key()[0] == ',',
{
    reveal_strlit("{\"kind\":\"bit\",\"name\":");
    reveal_strlit("{\"kind\":\"count\",\"name\":");
    reveal_strlit(",\"target\":");
    reveal_strlit(",\"ledger\":");
    reveal_strlit("{\"habits\":");
    reveal_strlit(",\"focus\":");
}

/// A habit as written: kind, name, target and ledger.
#[verifier::opaque]
pub open spec fn habit_text(habit: HabitView) -> Seq<char> {
    head_text(kind_of(habit)) + (quoted(habit.name()) + (target_key() + (decimal(
        habit.target() as nat,
    ) + (ledger_key() + (entries_text(kind_of(habit), numbered(habit)) + seq!['}'])))))
}

/// The kind of the habit that begins at `at`.
pub open spec fn kind_at(text: Seq<char>, at: int) -> Option<Kind> {
    if stands_at(text, at, head_text(Kind::Bit)) {
        Some(Kind::Bit)
    } else if stands_at(text, at, head_text(Kind::Count)) {
        Some(Kind::Count)
    } else {
        None
    }
}

/// The habit written at `at` and the place behind it. Its target must be
/// within the range of targets and its entries in the order of their dates.
#[verifier::opaque]
pub open spec fn habit_at(text: Seq<char>, at: int) -> Option<(HabitView, int)> {
    match kind_at(text, at) {
        Some(kind) => match quoted_at(text, at + head_text(kind).len()) {
            Some((name, a)) => if !stands_at(text, a, target_key()) {
                None
            } else {
                match number_at(text, a + target_key().len()) {
                    Some((target, b)) => if target > u32::MAX || !stands_at(text, b, ledger_key()) {
                        None
                    } else {
                        match entries_at(kind, text, b + ledger_key().len()) {
                            Some((entries, c)) => if c < text.len() && text[c] == '}' && ascending(
                                entries,
                            ) {
                                Some((habit_from(kind, name, target as u32, entries), c + 1))
                            } else {
                                None
                            },
                            None => None,
                        }
                    },
                    None => None,
                }
            },
            None => None,
        },
        None => None,
    }
}

/// The numbered entries of a well-formed habit are in order, dated and
/// fitting, and the habit is made of them again.
pub proof fn lemma_numbered(habit: HabitView)
    requires
        habit.wf(),
    ensures
        ascending(numbered(habit)),
        dated(numbered(habit)),
        all_fit(kind_of(habit), numbered(habit)),
        habit_from(kind_of(habit), habit.name(), habit.target(), numbered(habit)) == habit,
{
    match habit {
        HabitView::Bit(bit) => {
            let entries = numbered(habit);
            assert forall|i: int, j: int| 0 <= i < j < entries.len() implies (#[trigger] entries[i]).0.precedes(
                (#[trigger] entries[j]).0,
            ) by {
                assert(bit.entries[i].0.precedes(bit.entries[j].0));
            }
            assert forall|i: int| 0 <= i < entries.len() implies (#[trigger] entries[i]).0.is_calendar_date() by {
                assert(bit.entries[i].0.is_calendar_date());
            }
            assert(Seq::new(entries.len(), |i: int| (entries[i].0, entries[i].1 != 0))
                =~= bit.entries);
        },
        HabitView::Count(count) => {},
    }
}

/// A habit made of ordered, dated and fitting entries is well formed and
/// has these as its numbered entries.
pub proof fn lemma_habit_from(kind: Kind, name: Seq<char>, target: u32, entries: Seq<(Ymd, u32)>)
    requires
        ascending(entries),
        dated(entries),
        all_fit(kind, entries),
    ensures
        habit_from(kind, name, target, entries).wf(),
        kind_of(habit_from(kind, name, target, entries)) == kind,
        habit_from(kind, name, target, entries).name() == name,
        habit_from(kind, name, target, entries).target() == target,
        numbered(habit_from(kind, name, target, entries)) == entries,
{
    let habit = habit_from(kind, name, target, entries);
    match habit {
        HabitView::Bit(bit) => {
            assert forall|i: int, j: int| 0 <= i < j < bit.entries.len() implies (#[trigger] bit.entries[i]).0.precedes(
                (#[trigger] bit.entries[j]).0,
            ) by {
                assert(entries[i].0.precedes(entries[j].0));
            }
            assert forall|i: int| 0 <= i < bit.entries.len() implies (#[trigger] bit.entries[i]).0.is_calendar_date() by {
                assert(entries[i].0.is_calendar_date());
            }
            assert forall|i: int| 0 <= i < entries.len() implies numbered(habit)[i] == entries[i] by {
                assert(fits(kind, entries[i].1));
            }
            assert(numbered(habit) =~= entries);
        },
        HabitView::Count(count) => {},
    }
}

/// Reading a habit that was written.
pub proof fn lemma_habit_written(text: Seq<char>, at: int, habit: HabitView)
    requires
        habit.wf(),
        stands_at(text, at, habit_text(habit)),
    ensures
        habit_at(text, at) == Some((habit, at + habit_text(habit).len())),
        0 <= at < text.len(),
        text[at] == '{',
{
    reveal(habit_text);
    reveal(habit_at);
    lemma_pieces();
    lemma_numbered(habit);
    let kind = kind_of(habit);
    let head = head_text(kind);
    let name = quoted(habit.name());
    let target = decimal(habit.target() as nat);
    let entries = entries_text(kind, numbered(habit));
    let t5 = seq!['}'];
    let t4 = entries + t5;
    let t3 = ledger_key() + t4;
    let t2 = target + t3;
    let t1 = target_key() + t2;
    let t0 = name + t1;
    let p0 = at + head.len();
    let p1 = p0 + name.len();
    let p2 = p1 + target_key().len();
    let p3 = p2 + target.len();
    let p4 = p3 + ledger_key().len();
    let p5 = p4 + entries.len();
    lemma_stands_at_joined(text, at, head, t0);
    lemma_stands_at_joined(text, p0, name, t1);
    lemma_stands_at_joined(text, p1, target_key(), t2);
    lemma_stands_at_joined(text, p2, target, t3);
    lemma_stands_at_joined(text, p3, ledger_key(), t4);
    lemma_stands_at_joined(text, p4, entries, t5);
    lemma_char_then(text, p5, '}', Seq::empty());
    lemma_stands_at_char(text, at, head, 9);
    lemma_stands_at_char(text, at, head, 0);
    if stands_at(text, at, head_text(Kind::Bit)) {
        lemma_stands_at_char(text, at, head_text(Kind::Bit), 9);
    }
    assert(kind_at(text, at) == Some(kind));
    lemma_quoted_written(text, p0, habit.name());
    lemma_stands_at_char(text, p3, ledger_key(), 0);
    lemma_number_written(text, p2, habit.target() as nat);
    lemma_entries_written(kind, text, p4, numbered(habit));
}

/// A habit that was read is well formed and stands at its place as
/// written.
pub proof fn lemma_habit_read(text: Seq<char>, at: int, habit: HabitView, end: int)
    requires
        habit_at(text, at) == Some((habit, end)),
    ensures
        habit.wf(),
        stands_at(text, at, habit_text(habit)),
        end == at + habit_text(habit).len(),
        at < end <= text.len(),
{
    reveal(habit_text);
    reveal(habit_at);
    lemma_pieces();
    let kind = kind_at(text, at).unwrap();
    let head = head_text(kind);
    let p0 = at + head.len();
    let (name, p1) = quoted_at(text, p0).unwrap();
    let p2 = p1 + target_key().len();
    let (target, p3) = number_at(text, p2).unwrap();
    let p4 = p3 + ledger_key().len();
    let (raw, p5) = entries_at(kind, text, p4).unwrap();
    lemma_quoted_read(text, p0, name, p1);
    lemma_number_read(text, p2, target, p3);
    lemma_entries_read(kind, text, p4, raw, p5);
    lemma_habit_from(kind, name, target as u32, raw);
    let t5 = seq!['}'];
    let t4 = entries_text(kind, raw) + t5;
    let t3 = ledger_key() + t4;
    let t2 = decimal(target) + t3;
    let t1 = target_key() + t2;
    let t0 = quoted(name) + t1;
    lemma_char_then(text, p5, '}', Seq::empty());
    lemma_stands_at_joined(text, p4, entries_text(kind, raw), t5);
    lemma_stands_at_joined(text, p3, ledger_key(), t4);
    lemma_stands_at_joined(text, p2, decimal(target), t3);
    lemma_stands_at_joined(text, p1, target_key(), t2);
    lemma_stands_at_joined(text, p0, quoted(name), t1);
    lemma_stands_at_joined(text, at, head, t0);
}

/// Every habit of the list is well formed.
pub open spec fn all_wf(habits: Seq<HabitView>) -> bool {
    forall|i: int| 0 <= i < habits.len() ==> (#[trigger] habits[i]).wf()
}

/// Habits as written one behind the other, a comma before each.
pub open spec fn habits_run(habits: Seq<HabitView>) -> Seq<char>
    decreases habits.len(),
{
    if habits.len() == 0 {
        Seq::empty()
    } else {
        seq![','] + (habit_text(habits[0]) + habits_run(habits.drop_first()))
    }
}

/// The habits as written: between square brackets, with commas between
/// them.
pub open spec fn habits_text(habits: Seq<HabitView>) -> Seq<char> {
    if habits.len() == 0 {
        seq!['[', ']']
    } else {
        seq!['['] + (habit_text(habits[0]) + (habits_run(habits.drop_first()) + seq![']']))
    }
}

/// The habits written from `at` on, a comma before each, up to the closing
/// bracket, and the place behind that bracket.
pub open spec fn habits_run_at(text: Seq<char>, at: int) -> Option<(Seq<HabitView>, int)>
    decreases text.len() - at,
{
    if !(0 <= at < text.len()) {
        None
    } else if text[at] == ']' {
        Some((Seq::empty(), at + 1))
    } else if text[at] == ',' {
        match habit_at(text, at + 1) {
            Some((habit, next)) => if at < next <= text.len() {
                match habits_run_at(text, next) {
                    Some((rest, end)) => Some((seq![habit] + rest, end)),
                    None => None,
                }
            } else {
                None
            },
            None => None,
        }
    } else {
        None
    }
}

/// The habits written at `at` and the place behind them.
pub open spec fn habits_at(text: Seq<char>, at: int) -> Option<(Seq<HabitView>, int)> {
    if !(0 <= at < text.len() && text[at] == '[') {
        None
    } else if at + 1 < text.len() && text[at + 1] == ']' {
        Some((Seq::empty(), at + 2))
    } else {
        match habit_at(text, at + 1) {
            Some((habit, next)) => match habits_run_at(text, next) {
                Some((rest, end)) => Some((seq![habit] + rest, end)),
                None => None,
            },
            None => None,
        }
    }
}

/// Writing one more habit at the end adds a comma and the habit.
pub proof fn lemma_habits_run_push(habits: Seq<HabitView>, habit: HabitView)
    ensures
        habits_run(habits.push(habit)) == habits_run(habits) + (seq![','] + habit_text(habit)),
    decreases habits.len(),
{
    let longer = habits.push(habit);
    if habits.len() == 0 {
        assert(longer.drop_first() =~= Seq::<HabitView>::empty());
        assert(habits_run(longer.drop_first()) =~= Seq::<char>::empty());
        assert(habits_run(longer) =~= habits_run(habits) + (seq![','] + habit_text(habit)));
    } else {
        lemma_habits_run_push(habits.drop_first(), habit);
        assert(longer.drop_first() =~= habits.drop_first().push(habit));
        assert(longer[0] == habits[0]);
        assert(habits_run(longer) =~= habits_run(habits) + (seq![','] + habit_text(habit)));
    }
}

/// Reading habits that were written, up to the closing bracket.
pub proof fn lemma_habits_run_written(text: Seq<char>, at: int, habits: Seq<HabitView>)
    requires
        all_wf(habits),
        stands_at(text, at, habits_run(habits) + seq![']']),
    ensures
        habits_run_at(text, at) == Some((habits, at + habits_run(habits).len() + 1)),
    decreases habits.len(),
{
    let close = seq![']'];
    if habits.len() == 0 {
        assert(habits_run(habits) + close =~= close);
        lemma_char_then(text, at, ']', Seq::empty());
    } else {
        let first = habit_text(habits[0]);
        let rest = habits.drop_first();
        let tail = habits_run(rest) + close;
        assert(habits_run(habits) + close =~= seq![','] + (first + tail));
        lemma_char_then(text, at, ',', first + tail);
        lemma_stands_at_joined(text, at + 1, first, tail);
        assert(habits[0].wf());
        lemma_habit_written(text, at + 1, habits[0]);
        assert forall|i: int| 0 <= i < rest.len() implies (#[trigger] rest[i]).wf() by {
            assert(rest[i] == habits[i + 1]);
        }
        lemma_habits_run_written(text, at + 1 + first.len(), rest);
        assert(seq![habits[0]] + rest =~= habits);
    }
}

/// Habits that were read up to the closing bracket are well formed and
/// stand at their place as written.
pub proof fn lemma_habits_run_read(text: Seq<char>, at: int, habits: Seq<HabitView>, end: int)
    requires
        habits_run_at(text, at) == Some((habits, end)),
    ensures
        all_wf(habits),
        stands_at(text, at, habits_run(habits) + seq![']']),
        end == at + habits_run(habits).len() + 1,
        at < end <= text.len(),
    decreases text.len() - at,
{
    let close = seq![']'];
    if text[at] == ']' {
        assert(habits_run(habits) + close =~= close);
        lemma_char_then(text, at, ']', Seq::empty());
    } else {
        let (habit, next) = habit_at(text, at + 1).unwrap();
        let (rest, _) = habits_run_at(text, next).unwrap();
        lemma_habit_read(text, at + 1, habit, next);
        lemma_habits_run_read(text, next, rest, end);
        assert(habits.drop_first() =~= rest);
        assert(habits[0] == habit);
        let first = habit_text(habit);
        let tail = habits_run(rest) + close;
        assert(habits_run(habits) + close =~= seq![','] + (first + tail));
        lemma_stands_at_joined(text, at + 1, first, tail);
        lemma_char_then(text, at, ',', first + tail);
        assert forall|i: int| 0 <= i < habits.len() implies (#[trigger] habits[i]).wf() by {
            if i > 0 {
                assert(habits[i] == rest[i - 1]);
            }
        }
    }
}

/// Reading the habits that were written.
pub proof fn lemma_habits_written(text: Seq<char>, at: int, habits: Seq<HabitView>)
    requires
        all_wf(habits),
        stands_at(text, at, habits_text(habits)),
    ensures
        habits_at(text, at) == Some((habits, at + habits_text(habits).len())),
{
    if habits.len() == 0 {
        lemma_char_then(text, at, '[', seq![']']);
        lemma_char_then(text, at + 1, ']', Seq::empty());
        assert(seq!['['] + seq![']'] =~= seq!['[', ']']);
    } else {
        let first = habit_text(habits[0]);
        let rest = habits.drop_first();
        let tail = habits_run(rest) + seq![']'];
        lemma_char_then(text, at, '[', first + tail);
        lemma_stands_at_joined(text, at + 1, first, tail);
        assert(habits[0].wf());
        lemma_habit_written(text, at + 1, habits[0]);
        assert forall|i: int| 0 <= i < rest.len() implies (#[trigger] rest[i]).wf() by {
            assert(rest[i] == habits[i + 1]);
        }
        lemma_habits_run_written(text, at + 1 + first.len(), rest);
        assert(seq![habits[0]] + rest =~= habits);
    }
}

/// The habits that were read are well formed and stand at their place as
/// written.
pub proof fn lemma_habits_read(text: Seq<char>, at: int, habits: Seq<HabitView>, end: int)
    requires
        habits_at(text, at) == Some((habits, end)),
    ensures
        all_wf(habits),
        stands_at(text, at, habits_text(habits)),
        end == at + habits_text(habits).len(),
        at < end <= text.len(),
{
    if at + 1 < text.len() && text[at + 1] == ']' {
        lemma_char_then(text, at + 1, ']', Seq::empty());
        lemma_char_then(text, at, '[', seq![']']);
        assert(seq!['['] + seq![']'] =~= seq!['[', ']']);
    } else {
        let (habit, next) = habit_at(text, at + 1).unwrap();
        let (rest, _) = habits_run_at(text, next).unwrap();
        lemma_habit_read(text, at + 1, habit, next);
        lemma_habits_run_read(text, next, rest, end);
        assert(habits.drop_first() =~= rest);
        assert(habits[0] == habit);
        let first = habit_text(habit);
        let tail = habits_run(rest) + seq![']'];
        lemma_stands_at_joined(text, at + 1, first, tail);
        lemma_char_then(text, at, '[', first + tail);
        assert forall|i: int| 0 <= i < habits.len() implies (#[trigger] habits[i]).wf() by {
            if i > 0 {
                assert(habits[i] == rest[i - 1]);
            }
        }
    }
}

/// What is kept of a tracker: its habits in their order and the place of
/// the focus.
pub struct Snapshot {
    pub habits: Seq<HabitView>,
    pub focus: nat,
}

impl Snapshot {
    /// Every habit is well formed and the focus is on a habit; with no habit
    /// it is zero.
    pub open spec fn wf(self) -> bool {
        &&& all_wf(self.habits)
        &&& if self.habits.len() == 0 {
            self.focus == 0
        } else {
            self.focus < self.habits.len()
        }
    }

    /// The snapshot as written.
    pub open spec fn text(self) -> Seq<char> {
        habits_key() + (habits_text(self.habits) + (focus_key() + (decimal(self.focus) + seq![
            '}',
        ])))
    }

    /// The snapshot that `text` is the writing of, if it is that of any
    /// well-formed snapshot. There is at most one ([`lemma_one_snapshot`]).
    pub open spec fn of(text: Seq<char>) -> Option<Snapshot> {
        if exists|snapshot: Snapshot| snapshot.wf() && snapshot.text() == text {
            Some(choose|snapshot: Snapshot| snapshot.wf() && snapshot.text() == text)
        } else {
            None
        }
    }
}

/// The snapshot read from the whole of `text`, piece by piece.
pub open spec fn snapshot_in(text: Seq<char>) -> Option<Snapshot> {
    if !stands_at(text, 0, habits_key()) {
        None
    } else {
        match habits_at(text, habits_key().len() as int) {
            Some((habits, a)) => if !stands_at(text, a, focus_key()) {
                None
            } else {
                match number_at(text, a + focus_key().len()) {
                    Some((focus, b)) => {
                        let snapshot = Snapshot { habits, focus };
                        if b + 1 == text.len() && text[b] == '}' && snapshot.wf() {
                            Some(snapshot)
                        } else {
                            None
                        }
                    },
                    None => None,
                }
            },
            None => None,
        }
    }
}

/// Reading a snapshot that was written gives the snapshot.
pub proof fn lemma_snapshot_written(snapshot: Snapshot)
    requires
        snapshot.wf(),
    ensures
        snapshot_in(snapshot.text()) == Some(snapshot),
{
    lemma_pieces();
    let text = snapshot.text();
    let habits = habits_text(snapshot.habits);
    let focus = decimal(snapshot.focus);
    let t3 = seq!['}'];
    let t2 = focus + t3;
    let t1 = focus_key() + t2;
    let t0 = habits + t1;
    let p0 = habits_key().len() as int;
    let p1 = p0 + habits.len();
    let p2 = p1 + focus_key().len();
    let p3 = p2 + focus.len();
    assert(text.subrange(0, text.len() as int) =~= text);
    lemma_stands_at_joined(text, 0, habits_key(), t0);
    lemma_stands_at_joined(text, p0, habits, t1);
    lemma_stands_at_joined(text, p1, focus_key(), t2);
    lemma_stands_at_joined(text, p2, focus, t3);
    lemma_char_then(text, p3, '}', Seq::empty());
    lemma_habits_written(text, p0, snapshot.habits);
    lemma_number_written(text, p2, snapshot.focus);
}

/// A snapshot that was read is well formed, and the text is its writing.
pub proof fn lemma_snapshot_read(text: Seq<char>, snapshot: Snapshot)
    requires
        snapshot_in(text) == Some(snapshot),
    ensures
        snapshot.wf(),
        snapshot.text() == text,
{
    lemma_pieces();
    let p0 = habits_key().len() as int;
    let (habits, p1) = habits_at(text, p0).unwrap();
    let p2 = p1 + focus_key().len();
    let (focus, p3) = number_at(text, p2).unwrap();
    lemma_habits_read(text, p0, habits, p1);
    lemma_number_read(text, p2, focus, p3);
    let t3 = seq!['}'];
    let t2 = decimal(focus) + t3;
    let t1 = focus_key() + t2;
    let t0 = habits_text(habits) + t1;
    lemma_char_then(text, p3, '}', Seq::empty());
    lemma_stands_at_joined(text, p2, decimal(focus), t3);
    lemma_stands_at_joined(text, p1, focus_key(), t2);
    lemma_stands_at_joined(text, p0, habits_text(habits), t1);
    lemma_stands_at_joined(text, 0, habits_key(), t0);
    assert(text.subrange(0, text.len() as int) =~= text);
}

/// No two well-formed snapshots are written alike, and reading piece by
/// piece finds the one that a text is the writing of.
pub proof fn lemma_one_snapshot(text: Seq<char>)
    ensures
        Snapshot::of(text) == snapshot_in(text),
        forall|a: Snapshot, b: Snapshot|
            a.wf() && b.wf() && #[trigger] a.text() == text && #[trigger] b.text() == text ==> a
                == b,
{
    assert forall|a: Snapshot| a.wf() && #[trigger] a.text() == text implies snapshot_in(text)
        == Some(a) by {
        lemma_snapshot_written(a);
    }
    match snapshot_in(text) {
        Some(found) => {
            lemma_snapshot_read(text, found);
        },
        None => {},
    }
}

/// What was saved is what is loaded: the writing of a well-formed snapshot
/// is read as that snapshot, with the habits in their order, their
/// ledgers and the focus.
pub proof fn lemma_round_trip(snapshot: Snapshot)
    requires
        snapshot.wf(),
    ensures
        Snapshot::of(snapshot.text()) == Some(snapshot),
{
    lemma_snapshot_written(snapshot);
    lemma_one_snapshot(snapshot.text());
}

/// What the habits of a tracker stand for, one by one.
pub open spec fn views_of(habits: Seq<Habit>) -> Seq<HabitView> {
    Seq::new(habits.len(), |i: int| habits[i]@)
}

/// Writes a whole number behind what `out` holds.
fn push_int(out: &mut Vec<char>, i: i32)
    ensures
        final(out)@ == old(out)@ + int_text(i as int),
{
    let ghost before = out@;
    if i < 0 {
        out.push('-');
        push_decimal(out, (0 - i as i64) as u128);
        assert(out@ =~= before + int_text(i as int));
    } else {
        push_decimal(out, i as u128);
    }
}

/// Writes an entry behind what `out` holds.
fn push_entry(out: &mut Vec<char>, kind: Kind, date: Date, value: u32)
    ensures
        final(out)@ == old(out)@ + entry_text(kind, (date@, value)),
{
    let ghost before = out@;
    proof {
        reveal(entry_text);
    }
    out.push('[');
    push_int(out, date.year());
    out.push(',');
    push_decimal(out, date.month() as u128);
    out.push(',');
    push_decimal(out, date.day() as u128);
    out.push(',');
    match kind {
        Kind::Count => {
            push_decimal(out, value as u128);
        },
        Kind::Bit => {
            if value != 0 {
                push_str(out, "true");
            } else {
                push_str(out, "false");
            }
        },
    }
    out.push(']');
    assert(out@ =~= before + entry_text(kind, (date@, value)));
}

/// Writes a ledger behind what `out` holds.
fn push_entries(out: &mut Vec<char>, kind: Kind, ledger: &Ledger<u32>)
    requires
        ledger.wf(),
    ensures
        final(out)@ == old(out)@ + entries_text(kind, ledger@),
{
    let ghost before = out@;
    let ghost entries = ledger@;
    let len = ledger.len();
    out.push('[');
    if len > 0 {
        let (date, value) = ledger.entry_at(0);
        push_entry(out, kind, date, value);
        let mut i: usize = 1;
        assert(entries.drop_first().take(0) =~= Seq::<(Ymd, u32)>::empty());
        while i < len
            invariant
                1 <= i <= len,
                len == entries.len(),
                entries == ledger@,
                out@ == before + seq!['['] + (entry_text(kind, entries[0]) + entries_run(
                    kind,
                    entries.drop_first().take(i - 1),
                )),
            decreases len - i,
        {
            let (date, value) = ledger.entry_at(i);
            proof {
                lemma_entries_run_push(kind, entries.drop_first().take(i - 1), entries[i as int]);
                assert(entries.drop_first().take(i as int) =~= entries.drop_first().take(
                    i - 1,
                ).push(entries[i as int]));
            }
            let ghost sofar = out@;
            out.push(',');
            push_entry(out, kind, date, value);
            assert(out@ =~= sofar + (seq![','] + entry_text(kind, entries[i as int])));
            assert(out@ =~= before + seq!['['] + (entry_text(kind, entries[0]) + entries_run(
                kind,
                entries.drop_first().take(i as int),
            )));
            i += 1;
        }
        assert(entries.drop_first().take(len - 1) =~= entries.drop_first());
    }
    out.push(']');
    assert(out@ =~= before + entries_text(kind, ledger@));
}

/// The ledger of marks with numbers for values: 1 for a set mark, 0 for
/// one that is not set.
fn numbered_ledger(marks: &Ledger<bool>) -> (numbers: Ledger<u32>)
    requires
        marks.wf(),
    ensures
        numbers.wf(),
        numbers@ == Seq::new(
            marks@.len(),
            |i: int|
                (
                    marks@[i].0,
                    if marks@[i].1 {
                        1u32
                    } else {
                        0u32
                    },
                ),
        ),
{
    let mut numbers: Ledger<u32> = Ledger::new();
    let len = marks.len();
    let mut i: usize = 0;
    while i < len
        invariant
            i <= len,
            len == marks@.len(),
            marks.wf(),
            numbers.wf(),
            numbers@.len() == i,
            forall|j: int|
                0 <= j < i ==> #[trigger] numbers@[j] == (
                    marks@[j].0,
                    if marks@[j].1 {
                        1u32
                    } else {
                        0u32
                    },
                ),
        decreases len - i,
    {
        let (date, done) = marks.entry_at(i);
        proof {
            if i > 0 {
                assert(marks@[i - 1].0.precedes(marks@[i as int].0));
                assert(numbers@.last() == numbers@[i - 1]);
            }
        }
        let appended = numbers.append(
            date,
            if done {
                1
            } else {
                0
            },
        );
        assert(appended);
        i += 1;
    }
    assert(numbers@ =~= Seq::new(
        marks@.len(),
        |i: int|
            (
                marks@[i].0,
                if marks@[i].1 {
                    1u32
                } else {
                    0u32
                },
            ),
    ));
    numbers
}

/// The ledger of numbers with marks for values: set where the number is
/// not 0.
fn marked_ledger(numbers: &Ledger<u32>) -> (marks: Ledger<bool>)
    requires
        numbers.wf(),
    ensures
        marks.wf(),
        marks@ == Seq::new(numbers@.len(), |i: int| (numbers@[i].0, numbers@[i].1 != 0)),
{
    let mut marks: Ledger<bool> = Ledger::new();
    let len = numbers.len();
    let mut i: usize = 0;
    while i < len
        invariant
            i <= len,
            len == numbers@.len(),
            numbers.wf(),
            marks.wf(),
            marks@.len() == i,
            forall|j: int| 0 <= j < i ==> #[trigger] marks@[j] == (numbers@[j].0, numbers@[j].1 != 0),
        decreases len - i,
    {
        let (date, number) = numbers.entry_at(i);
        proof {
            if i > 0 {
                assert(numbers@[i - 1].0.precedes(numbers@[i as int].0));
                assert(marks@.last() == marks@[i - 1]);
            }
        }
        let appended = marks.append(date, number != 0);
        assert(appended);
        i += 1;
    }
    assert(marks@ =~= Seq::new(numbers@.len(), |i: int| (numbers@[i].0, numbers@[i].1 != 0)));
    marks
}

/// Writes a habit behind what `out` holds.
fn push_habit(out: &mut Vec<char>, habit: &Habit)
    requires
        habit.wf(),
    ensures
        final(out)@ == old(out)@ + habit_text(habit@),
{
    let ghost before = out@;
    proof {
        reveal(habit_text);
    }
    match habit {
        Habit::Bit(bit) => {
            push_str(out, "{\"kind\":\"bit\",\"name\":");
            push_quoted(out, bit.name());
            push_str(out, ",\"target\":");
            push_decimal(out, bit.target() as u128);
            push_str(out, ",\"ledger\":");
            let numbers = numbered_ledger(bit.ledger());
            push_entries(out, Kind::Bit, &numbers);
        },
        Habit::Count(count) => {
            push_str(out, "{\"kind\":\"count\",\"name\":");
            push_quoted(out, count.name());
            push_str(out, ",\"target\":");
            push_decimal(out, count.target() as u128);
            push_str(out, ",\"ledger\":");
            push_entries(out, Kind::Count, count.ledger());
        },
    }
    out.push('}');
    assert(out@ =~= before + habit_text(habit@));
}

/// The snapshot of these habits and this focus, as text.
pub fn to_text(habits: &Vec<Habit>, focus: usize) -> (text: String)
    requires
        forall|i: int| 0 <= i < habits@.len() ==> (#[trigger] habits@[i]).wf(),
    ensures
        text@ == (Snapshot { habits: views_of(habits@), focus: focus as nat }).text(),
{
    let ghost views = views_of(habits@);
    let mut out: Vec<char> = Vec::new();
    push_str(&mut out, "{\"habits\":");
    out.push('[');
    let len = habits.len();
    if len > 0 {
        push_habit(&mut out, &habits[0]);
        let mut i: usize = 1;
        assert(views.drop_first().take(0) =~= Seq::<HabitView>::empty());
        while i < len
            invariant
                1 <= i <= len,
                len == habits@.len(),
                views == views_of(habits@),
                forall|i: int| 0 <= i < habits@.len() ==> (#[trigger] habits@[i]).wf(),
                out@ == habits_key() + seq!['['] + (habit_text(views[0]) + habits_run(
                    views.drop_first().take(i - 1),
                )),
            decreases len - i,
        {
            proof {
                lemma_habits_run_push(views.drop_first().take(i - 1), views[i as int]);
                assert(views.drop_first().take(i as int) =~= views.drop_first().take(i - 1).push(
                    views[i as int],
                ));
            }
            let ghost sofar = out@;
            out.push(',');
            push_habit(&mut out, &habits[i]);
            assert(out@ =~= sofar + (seq![','] + habit_text(views[i as int])));
            assert(out@ =~= habits_key() + seq!['['] + (habit_text(views[0]) + habits_run(
                views.drop_first().take(i as int),
            )));
            i += 1;
        }
        assert(views.drop_first().take(len - 1) =~= views.drop_first());
    }
    out.push(']');
    assert(out@ =~= habits_key() + habits_text(views));
    push_str(&mut out, ",\"focus\":");
    push_decimal(&mut out, focus as u128);
    out.push('}');
    assert(out@ =~= (Snapshot { habits: views, focus: focus as nat }).text());
    to_string(&out)
}

/// Whether `c` stands at `at`.
fn char_is(text: &Vec<char>, at: usize, c: char) -> (found: bool)
    ensures
        found == (at < text@.len() && text@[at as int] == c),
        found ==> at < usize::MAX,
{
    at < text.len() && text[at] == c
}

/// The year written at `at` and the place behind it, if a whole number
/// stands there that can be a year.
fn read_year(text: &Vec<char>, at: usize) -> (found: Option<(i32, usize)>)
    ensures
        match int_at(text@, at as int) {
            Some((year, end)) => if MIN_YEAR <= year <= MAX_YEAR {
                found matches Some((read, behind)) && read == year && behind == end
            } else {
                found is None
            },
            None => found is None,
        },
{
    if char_is(text, at, '-') {
        match read_number(text, at + 1, 262_143) {
            Some((n, end)) => if n > 0 {
                Some((0 - n as i32, end))
            } else {
                None
            },
            None => None,
        }
    } else {
        match read_number(text, at, 262_142) {
            Some((n, end)) => Some((n as i32, end)),
            None => None,
        }
    }
}

/// The value written at `at` and the place behind it, if one is written
/// there.
fn read_value(kind: Kind, text: &Vec<char>, at: usize) -> (found: Option<(u32, usize)>)
    ensures
        match value_at(kind, text@, at as int) {
            Some((value, end)) => found matches Some((read, behind)) && read == value && behind
                == end,
            None => found is None,
        },
{
    proof {
        reveal_strlit("true");
        reveal_strlit("false");
    }
    match kind {
        Kind::Count => match read_number(text, at, 0xffff_ffff) {
            Some((n, end)) => Some((n as u32, end)),
            None => None,
        },
        Kind::Bit => match skip_piece(text, at, "true") {
            Some(end) => Some((1, end)),
            None => match skip_piece(text, at, "false") {
                Some(end) => Some((0, end)),
                None => None,
            },
        },
    }
}

/// The entry written at `at` and the place behind it, if one is written
/// there.
fn read_entry(kind: Kind, text: &Vec<char>, at: usize) -> (found: Option<((Date, u32), usize)>)
    ensures
        match entry_at(kind, text@, at as int) {
            Some((entry, end)) => found matches Some(((date, value), behind)) && date@ == entry.0
                && value == entry.1 && behind == end,
            None => found is None,
        },
{
    proof {
        reveal(entry_at);
    }
    if !char_is(text, at, '[') {
        return None;
    }
    let (year, a) = match read_year(text, at + 1) {
        Some(found) => found,
        None => {
            return None;
        },
    };
    if !char_is(text, a, ',') {
        return None;
    }
    let (month, b) = match read_number(text, a + 1, 0xffff_ffff) {
        Some(found) => found,
        None => {
            return None;
        },
    };
    if !char_is(text, b, ',') {
        return None;
    }
    let (day, c) = match read_number(text, b + 1, 0xffff_ffff) {
        Some(found) => found,
        None => {
            return None;
        },
    };
    if !char_is(text, c, ',') {
        return None;
    }
    let (value, d) = match read_value(kind, text, c + 1) {
        Some(found) => found,
        None => {
            return None;
        },
    };
    if !char_is(text, d, ']') {
        return None;
    }
    match Date::from_ymd(year, month as u32, day as u32) {
        Some(date) => Some(((date, value), d + 1)),
        None => None,
    }
}

/// The ledger written at `at` and the place behind it, if one is written
/// there with its entries in the order of their dates.
fn read_entries(kind: Kind, text: &Vec<char>, at: usize) -> (found: Option<(Ledger<u32>, usize)>)
    ensures
        match entries_at(kind, text@, at as int) {
            Some((entries, end)) => if ascending(entries) {
                found matches Some((ledger, behind)) && ledger.wf() && ledger@ == entries
                    && behind == end
            } else {
                found is None
            },
            None => found is None,
        },
{
    if !char_is(text, at, '[') {
        return None;
    }
    let mut ledger: Ledger<u32> = Ledger::new();
    if char_is(text, at + 1, ']') {
        return Some((ledger, at + 2));
    }
    let mut at_now: usize = match read_entry(kind, text, at + 1) {
        Some(((date, value), next)) => {
            proof {
                lemma_entry_read(kind, text@, at + 1, (date@, value), next as int);
            }
            let appended = ledger.append(date, value);
            assert(ledger@ =~= seq![(date@, value)]);
            next
        },
        None => {
            return None;
        },
    };
    loop
        invariant
            at < at_now <= text.len(),
            ledger.wf(),
            entries_at(kind, text@, at as int) == match entries_run_at(kind, text@, at_now as int) {
                Some((rest, end)) => Some((ledger@ + rest, end)),
                None => None,
            },
        decreases text.len() - at_now,
    {
        if at_now >= text.len() {
            return None;
        }
        if text[at_now] == ']' {
            assert(ledger@ + Seq::<(Ymd, u32)>::empty() =~= ledger@);
            return Some((ledger, at_now + 1));
        }
        if text[at_now] != ',' {
            return None;
        }
        match read_entry(kind, text, at_now + 1) {
            Some(((date, value), next)) => {
                let ghost before = ledger@;
                proof {
                    lemma_entry_read(kind, text@, at_now + 1, (date@, value), next as int);
                    match entries_run_at(kind, text@, next as int) {
                        Some((rest, end)) => {
                            assert(before + (seq![(date@, value)] + rest) =~= before.push(
                                (date@, value),
                            ) + rest);
                        },
                        None => {},
                    }
                }
                let appended = ledger.append(date, value);
                if !appended {
                    proof {
                        match entries_run_at(kind, text@, next as int) {
                            Some((rest, end)) => {
                                let all = before.push((date@, value)) + rest;
                                assert(all[before.len() - 1] == before.last());
                                assert(all[before.len() as int] == (date@, value));
                                assert(!ascending(all));
                            },
                            None => {},
                        }
                    }
                    return None;
                }
                at_now = next;
            },
            None => {
                return None;
            },
        }
    }
}

/// The habit written at `at` and the place behind it, if one is written
/// there.
fn read_habit(text: &Vec<char>, at: usize) -> (found: Option<(Habit, usize)>)
    ensures
        match habit_at(text@, at as int) {
            Some((habit, end)) => found matches Some((read, behind)) && read.wf() && read@ == habit
                && behind == end,
            None => found is None,
        },
{
    proof {
        reveal(habit_at);
        lemma_pieces();
    }
    let (kind, p0) = match skip_piece(text, at, "{\"kind\":\"bit\",\"name\":") {
        Some(p0) => (Kind::Bit, p0),
        None => match skip_piece(text, at, "{\"kind\":\"count\",\"name\":") {
            Some(p0) => (Kind::Count, p0),
            None => {
                return None;
            },
        },
    };
    let (name, p1) = match read_quoted(text, p0) {
        Some(found) => found,
        None => {
            return None;
        },
    };
    let p2 = match skip_piece(text, p1, ",\"target\":") {
        Some(p2) => p2,
        None => {
            return None;
        },
    };
    let (target, p3) = match read_number(text, p2, 0xffff_ffff) {
        Some(found) => found,
        None => {
            return None;
        },
    };
    let p4 = match skip_piece(text, p3, ",\"ledger\":") {
        Some(p4) => p4,
        None => {
            return None;
        },
    };
    let (ledger, p5) = match read_entries(kind, text, p4) {
        Some(found) => found,
        None => {
            return None;
        },
    };
    if !char_is(text, p5, '}') {
        return None;
    }
    proof {
        lemma_entries_read(kind, text@, p4 as int, ledger@, p5 as int);
        lemma_habit_from(kind, name@, target as u32, ledger@);
    }
    let habit = match kind {
        Kind::Bit => Habit::Bit(Bit::from_parts(name, target as u32, marked_ledger(&ledger))),
        Kind::Count => Habit::Count(Count::from_parts(name, target as u32, ledger)),
    };
    Some((habit, p5 + 1))
}

/// The habits written at `at` and the place behind them, if habits are
/// written there.
fn read_habits(text: &Vec<char>, at: usize) -> (found: Option<(Vec<Habit>, usize)>)
    ensures
        match habits_at(text@, at as int) {
            Some((habits, end)) => found matches Some((read, behind)) && views_of(read@) == habits
                && behind == end && forall|i: int|
                0 <= i < read@.len() ==> (#[trigger] read@[i]).wf(),
            None => found is None,
        },
{
    if !char_is(text, at, '[') {
        return None;
    }
    let mut habits: Vec<Habit> = Vec::new();
    if char_is(text, at + 1, ']') {
        assert(views_of(habits@) =~= Seq::<HabitView>::empty());
        return Some((habits, at + 2));
    }
    let mut at_now: usize = match read_habit(text, at + 1) {
        Some((habit, next)) => {
            proof {
                lemma_habit_read(text@, at + 1, habit@, next as int);
            }
            habits.push(habit);
            assert(views_of(habits@) =~= seq![habit@]);
            next
        },
        None => {
            return None;
        },
    };
    loop
        invariant
            at < at_now <= text.len(),
            forall|i: int| 0 <= i < habits@.len() ==> (#[trigger] habits@[i]).wf(),
            habits_at(text@, at as int) == match habits_run_at(text@, at_now as int) {
                Some((rest, end)) => Some((views_of(habits@) + rest, end)),
                None => None,
            },
        decreases text.len() - at_now,
    {
        if at_now >= text.len() {
            return None;
        }
        if text[at_now] == ']' {
            assert(views_of(habits@) + Seq::<HabitView>::empty() =~= views_of(habits@));
            return Some((habits, at_now + 1));
        }
        if text[at_now] != ',' {
            return None;
        }
        match read_habit(text, at_now + 1) {
            Some((habit, next)) => {
                let ghost before = views_of(habits@);
                proof {
                    lemma_habit_read(text@, at_now + 1, habit@, next as int);
                    match habits_run_at(text@, next as int) {
                        Some((rest, end)) => {
                            assert(before + (seq![habit@] + rest) =~= before.push(habit@) + rest);
                        },
                        None => {},
                    }
                }
                habits.push(habit);
                assert(views_of(habits@) =~= before.push(habit@));
                at_now = next;
            },
            None => {
                return None;
            },
        }
    }
}

/// The habits and the focus of the snapshot that `text` is the writing of,
/// if it is the writing of a well-formed snapshot.
pub fn from_text(text: &str) -> (found: Option<(Vec<Habit>, usize)>)
    ensures
        match Snapshot::of(text@) {
            Some(snapshot) => found matches Some((habits, focus)) && views_of(habits@)
                == snapshot.habits && focus == snapshot.focus && forall|i: int|
                0 <= i < habits@.len() ==> (#[trigger] habits@[i]).wf(),
            None => found is None,
        },
{
    proof {
        lemma_one_snapshot(text@);
        lemma_pieces();
    }
    let chars = to_chars(text);
    let p0 = match skip_piece(&chars, 0, "{\"habits\":") {
        Some(p0) => p0,
        None => {
            return None;
        },
    };
    let (habits, p1) = match read_habits(&chars, p0) {
        Some(found) => found,
        None => {
            return None;
        },
    };
    let p2 = match skip_piece(&chars, p1, ",\"focus\":") {
        Some(p2) => p2,
        None => {
            return None;
        },
    };
    let (focus, p3) = match read_number(&chars, p2, 0xffff_ffff_ffff_ffff) {
        Some(found) => found,
        None => {
            return None;
        },
    };
    if !char_is(&chars, p3, '}') || p3 + 1 != chars.len() {
        return None;
    }
    let count = habits.len();
    if (count == 0 && focus != 0) || (count > 0 && focus >= count as u64) {
        return None;
    }
    Some((habits, focus as usize))
}

} // verus!
