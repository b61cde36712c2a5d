use habit_tracker::date::Date;
use habit_tracker::event::{Event, Key};
use habit_tracker::habit::{Bit, Count, Habit};
use habit_tracker::ledger::Ledger;

fn day(year: i32, month: u32, day: u32) -> Date {
    Date::from_ymd(year, month, day).unwrap()
}

fn gym() -> Count {
    let mut gymming = Count::new("gym", 5);
    gymming.insert_entry(day(2020, 4, 11), 7);
    gymming.insert_entry(day(2020, 4, 12), 8);
    gymming.insert_entry(day(2020, 4, 13), 9);
    gymming.insert_entry(day(2020, 4, 14), 10);
    gymming.insert_entry(day(2020, 4, 15), 11);
    gymming
}

#[test]
fn a_count_that_reached_its_target_every_day_has_nothing_remaining() {
    let gymming = gym();
    assert_eq!(gymming.total(), 5);
    assert_eq!(gymming.remaining(day(2020, 4, 15)), 0);
    assert_eq!(gymming.remaining(day(2020, 4, 10)), 0);
}

#[test]
fn the_sample_habit_is_the_gym_habit() {
    assert_eq!(Count::sample(), gym());
    assert_eq!(Count::sample().name(), "gym");
    assert_eq!(Count::sample().target(), 5);
}

#[test]
fn a_count_counts_the_days_below_its_target_up_to_the_day_asked() {
    let mut water = Count::new("water", 8);
    water.insert_entry(day(2021, 1, 1), 8);
    water.insert_entry(day(2021, 1, 2), 7);
    water.insert_entry(day(2021, 1, 3), 0);
    water.insert_entry(day(2021, 1, 5), 9);
    water.insert_entry(day(2021, 1, 6), 3);
    assert_eq!(water.total(), 5);
    assert_eq!(water.remaining(day(2020, 12, 31)), 0);
    assert_eq!(water.remaining(day(2021, 1, 1)), 0);
    assert_eq!(water.remaining(day(2021, 1, 2)), 1);
    assert_eq!(water.remaining(day(2021, 1, 4)), 2);
    assert_eq!(water.remaining(day(2021, 1, 5)), 2);
    assert_eq!(water.remaining(day(2021, 1, 6)), 3);
    assert_eq!(water.remaining(day(2030, 1, 1)), 3);
}

#[test]
fn a_day_without_an_entry_is_not_counted() {
    let mut water = Count::new("water", 8);
    water.insert_entry(day(2021, 1, 1), 1);
    water.insert_entry(day(2021, 1, 31), 1);
    assert_eq!(water.total(), 2);
    assert_eq!(water.remaining(day(2021, 1, 15)), 1);
    assert_eq!(water.remaining(day(2021, 1, 31)), 2);
}

#[test]
fn a_bit_counts_the_days_not_done() {
    let mut read = Bit::new("read", 1);
    read.insert_entry(day(2021, 3, 1), true);
    read.insert_entry(day(2021, 3, 2), false);
    read.insert_entry(day(2021, 3, 3), false);
    assert_eq!(read.total(), 3);
    assert_eq!(read.remaining(day(2021, 2, 28)), 0);
    assert_eq!(read.remaining(day(2021, 3, 1)), 0);
    assert_eq!(read.remaining(day(2021, 3, 2)), 1);
    assert_eq!(read.remaining(day(2021, 3, 3)), 2);
    assert_eq!(read.name(), "read");
    assert_eq!(read.target(), 1);
}

#[test]
fn a_later_entry_for_a_day_replaces_the_earlier_one() {
    let mut water = Count::new("water", 8);
    water.insert_entry(day(2021, 1, 1), 1);
    assert_eq!(water.remaining(day(2021, 1, 1)), 1);
    water.insert_entry(day(2021, 1, 1), 8);
    assert_eq!(water.total(), 1);
    assert_eq!(water.get(day(2021, 1, 1)), Some(8));
    assert_eq!(water.remaining(day(2021, 1, 1)), 0);

    let mut read = Bit::new("read", 1);
    read.insert_entry(day(2021, 1, 1), true);
    read.insert_entry(day(2021, 1, 1), false);
    assert_eq!(read.total(), 1);
    assert_eq!(read.get(day(2021, 1, 1)), Some(false));
    assert_eq!(read.get(day(2021, 1, 2)), None);
}

#[test]
fn entries_are_kept_in_the_order_of_their_dates() {
    let mut in_order = Count::new("run", 3);
    in_order.insert_entry(day(2019, 12, 31), 1);
    in_order.insert_entry(day(2020, 1, 1), 2);
    in_order.insert_entry(day(2020, 2, 29), 3);
    let mut shuffled = Count::new("run", 3);
    shuffled.insert_entry(day(2020, 2, 29), 3);
    shuffled.insert_entry(day(2019, 12, 31), 1);
    shuffled.insert_entry(day(2020, 1, 1), 2);
    assert_eq!(in_order, shuffled);
    let ledger = shuffled.ledger();
    assert_eq!(ledger.len(), 3);
    assert_eq!(ledger.entry_at(0), (day(2019, 12, 31), 1));
    assert_eq!(ledger.entry_at(1), (day(2020, 1, 1), 2));
    assert_eq!(ledger.entry_at(2), (day(2020, 2, 29), 3));
}

#[test]
fn a_ledger_finds_each_day_among_many() {
    let mut ledger: Ledger<u32> = Ledger::new();
    let mut expected = Vec::new();
    for n in 0..200u32 {
        // a walk through the days of two years that is not in order
        let k = (n * 37) % 200;
        let date = day(2020 + (k / 100) as i32, 1 + (k % 100) / 10, 1 + (k % 10));
        ledger.insert_entry(date, k);
        expected.push((date, k));
    }
    assert_eq!(ledger.len(), 200);
    for (date, k) in expected {
        assert_eq!(ledger.get(date), Some(k));
    }
    assert_eq!(ledger.get(day(2019, 1, 1)), None);
    assert_eq!(ledger.get(day(2020, 1, 11)), None);
    for i in 1..ledger.len() {
        assert!(ledger.entry_at(i - 1).0.precedes(&ledger.entry_at(i).0));
    }
}

#[test]
fn appending_takes_later_days_only() {
    let mut ledger: Ledger<bool> = Ledger::new();
    assert!(ledger.append(day(2020, 5, 5), true));
    assert!(!ledger.append(day(2020, 5, 5), false));
    assert!(!ledger.append(day(2020, 5, 4), false));
    assert!(ledger.append(day(2020, 5, 6), false));
    assert_eq!(ledger.len(), 2);
    assert_eq!(ledger.get(day(2020, 5, 5)), Some(true));
}

#[test]
fn a_count_steps_up_and_down_on_today() {
    let today = day(2022, 6, 1);
    let mut water = Count::new("water", 2);
    assert!(water.handle_input(&Event::Char('n'), today));
    assert_eq!(water.get(today), Some(1));
    assert!(water.handle_input(&Event::Key(Key::Enter), today));
    assert_eq!(water.get(today), Some(2));
    assert_eq!(water.remaining(today), 0);
    assert!(water.handle_input(&Event::Char('p'), today));
    assert!(water.handle_input(&Event::Key(Key::Backspace), today));
    assert!(water.handle_input(&Event::Key(Key::Backspace), today));
    assert_eq!(water.get(today), Some(0));
    assert_eq!(water.total(), 1);
    assert_eq!(water.remaining(today), 1);
}

#[test]
fn a_count_does_not_wrap_around() {
    let today = day(2022, 6, 1);
    let mut water = Count::new("water", 2);
    water.insert_entry(today, u32::MAX);
    assert!(water.handle_input(&Event::Char('n'), today));
    assert_eq!(water.get(today), Some(u32::MAX));
    assert!(water.handle_input(&Event::Char('p'), today));
    assert_eq!(water.get(today), Some(u32::MAX - 1));
}

#[test]
fn a_step_down_on_a_day_without_an_entry_records_nothing_done() {
    let today = day(2022, 6, 1);
    let mut water = Count::new("water", 2);
    assert!(water.handle_input(&Event::Char('p'), today));
    assert_eq!(water.get(today), Some(0));
    let mut read = Bit::new("read", 1);
    assert!(read.handle_input(&Event::Char('p'), today));
    assert_eq!(read.get(today), Some(false));
}

#[test]
fn a_bit_is_marked_and_unmarked_on_today() {
    let today = day(2022, 6, 1);
    let mut read = Bit::new("read", 1);
    assert!(read.handle_input(&Event::Key(Key::Enter), today));
    assert_eq!(read.get(today), Some(true));
    assert_eq!(read.remaining(today), 0);
    assert!(read.handle_input(&Event::Key(Key::Backspace), today));
    assert_eq!(read.get(today), Some(false));
    assert_eq!(read.remaining(today), 1);
    assert!(read.handle_input(&Event::Char('n'), today));
    assert_eq!(read.get(today), Some(true));
}

#[test]
fn a_habit_leaves_other_input_alone() {
    let today = day(2022, 6, 1);
    let mut habit = Habit::Count(gym());
    for event in [
        Event::Char('x'),
        Event::Char('N'),
        Event::Key(Key::Tab),
        Event::Key(Key::Other),
        Event::Shift(Key::Enter),
        Event::Other,
    ] {
        assert!(!habit.handle_input(&event, today));
    }
    assert_eq!(habit, Habit::Count(gym()));
    let mut bit = Habit::Bit(Bit::new("read", 1));
    assert!(!bit.handle_input(&Event::Char('x'), today));
    assert_eq!(bit.total(), 0);
}

#[test]
fn a_habit_of_either_kind_answers_alike() {
    let mut read = Bit::new("read", 1);
    read.insert_entry(day(2021, 3, 1), false);
    let habits = [Habit::Bit(read), Habit::Count(gym())];
    assert_eq!(habits[0].name(), "read");
    assert_eq!(habits[1].name(), "gym");
    assert_eq!(habits[0].target(), 1);
    assert_eq!(habits[1].target(), 5);
    assert_eq!(habits[0].total(), 1);
    assert_eq!(habits[1].total(), 5);
    assert_eq!(habits[0].remaining(day(2021, 3, 1)), 1);
    assert_eq!(habits[1].remaining(day(2021, 3, 1)), 0);
}
