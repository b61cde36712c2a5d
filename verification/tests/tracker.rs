use habit_tracker::app::{App, Cell, DeserializationError, Reaction, ViewMode};
use habit_tracker::date::Date;
use habit_tracker::event::{Command, Direction, Event, Key, Step};
use habit_tracker::grid::{Extent, GridLayout, Offset};
use habit_tracker::habit::{Bit, Count, Habit};

fn day(year: i32, month: u32, day: u32) -> Date {
    Date::from_ymd(year, month, day).unwrap()
}

fn tracker_with(count: usize, grid_width: usize) -> App {
    let mut app = App::with_layout(GridLayout::new(25, 8, grid_width).unwrap());
    for _ in 0..count {
        app.add_habit(Habit::Count(Count::sample()));
    }
    app
}

fn mixed() -> App {
    let mut app = App::new();
    let mut read = Bit::new("read \"Dune\"", 1);
    read.insert_entry(day(2020, 4, 11), true);
    read.insert_entry(day(2020, 4, 12), false);
    read.insert_entry(day(2020, 4, 14), false);
    app.add_habit(Habit::Bit(read));
    app.add_habit(Habit::Count(Count::sample()));
    let mut water = Count::new("water", 8);
    water.insert_entry(day(2020, 4, 13), 3);
    water.insert_entry(day(2020, 4, 15), 8);
    app.add_habit(Habit::Count(water));
    app.add_habit(Habit::Bit(Bit::new("", 0)));
    app
}

#[test]
fn a_new_tracker_is_empty_and_in_day_mode() {
    let app = App::new();
    assert_eq!(app.habit_count(), 0);
    assert_eq!(app.focus(), 0);
    assert_eq!(app.view_mode(), ViewMode::Day);
    assert_eq!(app.layout(), GridLayout::default());
    assert_eq!(ViewMode::default(), ViewMode::Month);
    assert!(!app.take_focus());
}

#[test]
fn adding_a_habit_keeps_the_focus() {
    let mut app = tracker_with(3, 3);
    app.set_focus(Direction::Right);
    assert_eq!(app.focus(), 1);
    app.add_habit(Habit::Bit(Bit::new("read", 1)));
    assert_eq!(app.focus(), 1);
    assert_eq!(app.habit_count(), 4);
    assert_eq!(app.habit(3).name(), "read");
    assert_eq!(app.habit(0).name(), "gym");
}

#[test]
fn the_mode_is_set() {
    let mut app = App::new();
    app.set_mode(ViewMode::Year);
    assert_eq!(app.view_mode(), ViewMode::Year);
    app.set_mode(ViewMode::Year);
    assert_eq!(app.view_mode(), ViewMode::Year);
    app.set_mode(ViewMode::Month);
    assert_eq!(app.view_mode(), ViewMode::Month);
}

#[test]
fn the_focus_moves_down_the_grid_and_stops() {
    let mut app = tracker_with(7, 3);
    assert_eq!(app.focus(), 0);
    app.set_focus(Direction::Down);
    assert_eq!(app.focus(), 3);
    app.set_focus(Direction::Down);
    assert_eq!(app.focus(), 6);
    app.set_focus(Direction::Down);
    assert_eq!(app.focus(), 6);
    app.set_focus(Direction::Up);
    assert_eq!(app.focus(), 3);
    app.set_focus(Direction::Left);
    assert_eq!(app.focus(), 2);
}

#[test]
fn removing_the_only_habit_leaves_an_empty_tracker() {
    let mut app = tracker_with(1, 3);
    let removed = app.remove_focused();
    assert_eq!(removed, Some(Habit::Count(Count::sample())));
    assert_eq!(app.habit_count(), 0);
    assert_eq!(app.focus(), 0);
    assert_eq!(app.remove_focused(), None);
    assert_eq!(app.habit_count(), 0);
    assert_eq!(app.focus(), 0);
    app.set_focus(Direction::Down);
    assert_eq!(app.focus(), 0);
}

#[test]
fn removing_the_last_habit_moves_the_focus_back() {
    let mut app = mixed();
    app.set_focus(Direction::Down);
    assert_eq!(app.focus(), 3);
    let removed = app.remove_focused().unwrap();
    assert_eq!(removed.name(), "");
    assert_eq!(app.focus(), 2);
    assert_eq!(app.habit_count(), 3);
}

#[test]
fn removing_a_habit_in_the_middle_keeps_the_focus_in_place() {
    let mut app = mixed();
    app.set_focus(Direction::Right);
    let removed = app.remove_focused().unwrap();
    assert_eq!(removed.name(), "gym");
    assert_eq!(app.focus(), 1);
    assert_eq!(app.habit(1).name(), "water");
    assert_eq!(app.habit(0).name(), "read \"Dune\"");
}

#[test]
fn the_status_counts_all_habits() {
    let app = mixed();
    // recorded: 3 + 5 + 2 + 0
    assert_eq!(app.status_summary(day(2020, 4, 10)), (10, 0));
    assert_eq!(app.status_summary(day(2020, 4, 12)), (9, 1));
    assert_eq!(app.status_summary(day(2020, 4, 13)), (8, 2));
    assert_eq!(app.status_summary(day(2020, 4, 15)), (7, 3));
    assert_eq!(app.status_at(day(2020, 4, 15)), "7 completed, 3 remaining");
    assert_eq!(app.status_at(day(2020, 4, 10)), "10 completed, 0 remaining");
    assert_eq!(App::new().status_at(day(2020, 4, 10)), "0 completed, 0 remaining");
    assert_eq!(tracker_with(1, 3).status_at(day(2020, 4, 15)), "5 completed, 0 remaining");
}

#[test]
fn completed_and_remaining_are_the_recorded_days() {
    let mut app = mixed();
    let days = [day(2020, 4, 9), day(2020, 4, 12), day(2020, 4, 14), day(2021, 1, 1)];
    for as_of in days {
        let (completed, remaining) = app.status_summary(as_of);
        assert_eq!(completed + remaining, 10);
    }
    app.on_event_at(Event::Char('n'), day(2020, 4, 16));
    app.on_event_at(Event::Char('a'), day(2020, 4, 16));
    for as_of in days {
        let (completed, remaining) = app.status_summary(as_of);
        assert_eq!(completed + remaining, 16);
    }
}

#[test]
fn the_status_of_today_names_both_numbers() {
    let line = tracker_with(2, 3).status();
    assert_eq!(line, "10 completed, 0 remaining");
}

#[test]
fn the_keys_are_bound() {
    let right = Command::Focus(Direction::Right);
    let left = Command::Focus(Direction::Left);
    assert_eq!(Event::Key(Key::Right).to_command(), right);
    assert_eq!(Event::Key(Key::Tab).to_command(), right);
    assert_eq!(Event::Char('l').to_command(), right);
    assert_eq!(Event::Key(Key::Left).to_command(), left);
    assert_eq!(Event::Shift(Key::Tab).to_command(), left);
    assert_eq!(Event::Char('h').to_command(), left);
    assert_eq!(Event::Key(Key::Up).to_command(), Command::Focus(Direction::Up));
    assert_eq!(Event::Char('k').to_command(), Command::Focus(Direction::Up));
    assert_eq!(Event::Key(Key::Down).to_command(), Command::Focus(Direction::Down));
    assert_eq!(Event::Char('j').to_command(), Command::Focus(Direction::Down));
    assert_eq!(Event::Char('a').to_command(), Command::AddSample);
    assert_eq!(Event::Char('d').to_command(), Command::RemoveFocused);
    assert_eq!(Event::Char('w').to_command(), Command::Save);
    assert_eq!(Event::Char('q').to_command(), Command::SaveAndQuit);
    for other in [
        Event::Char('n'),
        Event::Char('A'),
        Event::Key(Key::Enter),
        Event::Key(Key::Backspace),
        Event::Key(Key::Other),
        Event::Shift(Key::Right),
        Event::Shift(Key::Left),
        Event::Other,
    ] {
        assert_eq!(other.to_command(), Command::Forward);
    }
    assert_eq!(Event::Char('n').to_step(), Some(Step::Up));
    assert_eq!(Event::Key(Key::Enter).to_step(), Some(Step::Up));
    assert_eq!(Event::Char('p').to_step(), Some(Step::Down));
    assert_eq!(Event::Key(Key::Backspace).to_step(), Some(Step::Down));
    assert_eq!(Event::Char('l').to_step(), None);
    assert_eq!(Event::Other.to_step(), None);
}

#[test]
fn input_moves_the_focus() {
    let today = day(2020, 4, 16);
    let mut app = tracker_with(7, 3);
    assert_eq!(app.on_event_at(Event::Char('j'), today), Reaction::Consumed);
    assert_eq!(app.focus(), 3);
    assert_eq!(app.on_event_at(Event::Key(Key::Tab), today), Reaction::Consumed);
    assert_eq!(app.focus(), 4);
    assert_eq!(app.on_event_at(Event::Shift(Key::Tab), today), Reaction::Consumed);
    assert_eq!(app.focus(), 3);
    assert_eq!(app.on_event_at(Event::Char('k'), today), Reaction::Consumed);
    assert_eq!(app.focus(), 0);
    assert_eq!(app.on_event_at(Event::Key(Key::Left), today), Reaction::Consumed);
    assert_eq!(app.focus(), 0);
}

#[test]
fn input_adds_and_removes_habits() {
    let today = day(2020, 4, 16);
    let mut app = App::new();
    assert_eq!(app.on_event_at(Event::Char('d'), today), Reaction::Consumed);
    assert_eq!(app.habit_count(), 0);
    assert_eq!(app.on_event_at(Event::Char('a'), today), Reaction::Consumed);
    assert_eq!(app.on_event_at(Event::Char('a'), today), Reaction::Consumed);
    assert_eq!(app.habit_count(), 2);
    assert_eq!(app.habit(1), &Habit::Count(Count::sample()));
    assert_eq!(app.focus(), 0);
    assert_eq!(app.on_event_at(Event::Char('l'), today), Reaction::Consumed);
    assert_eq!(app.on_event_at(Event::Char('d'), today), Reaction::Consumed);
    assert_eq!(app.habit_count(), 1);
    assert_eq!(app.focus(), 0);
    assert_eq!(app.on_event_at(Event::Char('d'), today), Reaction::Consumed);
    assert_eq!(app.habit_count(), 0);
    assert_eq!(app.focus(), 0);
}

#[test]
fn other_input_goes_to_the_focused_habit() {
    let today = day(2020, 4, 16);
    let mut app = mixed();
    app.set_focus(Direction::Right);
    assert_eq!(app.on_event_at(Event::Char('n'), today), Reaction::Consumed);
    assert_eq!(app.on_event_at(Event::Key(Key::Enter), today), Reaction::Consumed);
    assert_eq!(app.on_event_at(Event::Char('x'), today), Reaction::Ignored);
    assert_eq!(app.on_event_at(Event::Other, today), Reaction::Ignored);
    let mut expected = Count::sample();
    expected.insert_entry(today, 2);
    assert_eq!(app.habit(1), &Habit::Count(expected));
    assert_eq!(app.habit(0), mixed().habit(0));
    assert_eq!(app.habit(2), mixed().habit(2));
    assert_eq!(app.focus(), 1);
}

#[test]
fn input_that_no_habit_can_take_is_ignored() {
    let today = day(2020, 4, 16);
    let mut app = App::new();
    assert_eq!(app.on_event_at(Event::Char('n'), today), Reaction::Ignored);
    assert_eq!(app.on_event_at(Event::Key(Key::Enter), today), Reaction::Ignored);
    assert_eq!(app.habit_count(), 0);
}

#[test]
fn input_on_the_clock_s_day_is_recorded_for_today() {
    let mut app = tracker_with(1, 3);
    assert_eq!(app.on_event(Event::Char('n')), Reaction::Consumed);
    assert_eq!(app.habit(0).total(), 6);
    assert_eq!(app.on_event(Event::Char('j')), Reaction::Consumed);
    assert_eq!(app.on_event(Event::Other), Reaction::Ignored);
}

#[test]
fn saving_hands_out_the_snapshot_and_only_quitting_ends_the_program() {
    let today = day(2020, 4, 16);
    let mut app = mixed();
    let text = app.save_state();
    let saved = app.on_event_at(Event::Char('w'), today);
    assert_eq!(saved, Reaction::Save(text.clone()));
    assert!(!saved.ends_program(true));
    assert!(!saved.ends_program(false));
    let left = app.on_event_at(Event::Char('q'), today);
    assert_eq!(left, Reaction::SaveAndQuit(text));
    assert!(left.ends_program(true));
    assert!(!left.ends_program(false));
    assert!(!Reaction::Consumed.ends_program(true));
    assert!(!Reaction::Ignored.ends_program(true));
    assert_eq!(app, mixed());
}

#[test]
fn a_frame_places_every_habit_and_the_status_line() {
    let mut app = tracker_with(7, 3);
    app.set_focus(Direction::Down);
    app.set_focus(Direction::Right);
    let frame = app.frame_at(day(2020, 4, 15)).unwrap();
    assert_eq!(frame.size, Extent { width: 75, height: 24 });
    assert_eq!(app.required_size(), Some(Extent { width: 75, height: 24 }));
    assert_eq!(frame.cells.len(), 7);
    for (index, cell) in frame.cells.iter().enumerate() {
        let offset = Offset { x: (index % 3) * 25, y: (index / 3) * 8 };
        assert_eq!(*cell, Cell { offset, focused: index == 4 });
    }
    assert_eq!(frame.status_at, Some(Offset { x: 0, y: 22 }));
    assert_eq!(frame.status, "35 completed, 0 remaining");
}

#[test]
fn an_empty_frame_has_no_place_for_the_status_line() {
    let frame = App::new().frame_at(day(2020, 4, 15)).unwrap();
    assert_eq!(frame.size, Extent { width: 0, height: 0 });
    assert!(frame.cells.is_empty());
    assert_eq!(frame.status_at, None);
    assert_eq!(frame.status, "0 completed, 0 remaining");
    assert_eq!(App::new().required_size(), Some(Extent { width: 0, height: 0 }));
}

#[test]
fn a_frame_too_large_for_the_machine_is_not_shown() {
    let mut app = App::with_layout(GridLayout::new(usize::MAX, 8, 2).unwrap());
    assert!(app.frame_at(day(2020, 4, 15)).is_some());
    app.add_habit(Habit::Count(Count::sample()));
    assert_eq!(app.required_size(), None);
    assert_eq!(app.frame_at(day(2020, 4, 15)), None);
}

#[test]
fn the_error_is_a_value_of_its_own() {
    assert_eq!(
        App::load_state("", GridLayout::default()).unwrap_err(),
        DeserializationError
    );
}
